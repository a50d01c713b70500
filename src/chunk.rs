//! Splitting an input into contiguous chunks, one per worker.

use vstd::prelude::*;

verus! {

/// A half-open byte range `[start, end)` of an input.
#[derive(Clone, Copy, Debug, PartialEq, Eq, Structural)]
pub struct ChunkRange {
    pub start: usize,
    pub end: usize,
}

/// `a / b` rounded up.
pub open spec fn ceil_div(a: nat, b: nat) -> nat
    recommends
        b > 0,
{
    if a % b == 0 {
        a / b
    } else {
        a / b + 1
    }
}

/// The length of every chunk but possibly the last, for an input of `len` bytes
/// split between `workers` workers.
pub open spec fn chunk_len(len: nat, workers: nat) -> nat {
    ceil_div(len, workers)
}

/// The plan for an input of `len` bytes: chunk `i` is `[i * size, min((i + 1) * size, len))`,
/// with `ceil(len / size)` chunks, where `size` is `chunk_len(len, workers)`.
pub open spec fn is_plan(r: Seq<ChunkRange>, len: nat, workers: nat) -> bool {
    let size = chunk_len(len, workers);
    &&& r.len() == (if len == 0 { 0 } else { ceil_div(len, size) })
    &&& forall|i: int|
        0 <= i < r.len() ==> {
            &&& #[trigger] r[i].start == i * size
            &&& r[i].end == (if (i + 1) * size < len { (i + 1) * size } else { len as int })
        }
}

/// The ranges, in order, tile `[0, len)` without gaps or overlaps.
pub open spec fn tiles(r: Seq<ChunkRange>, len: nat) -> bool {
    &&& len == 0 ==> r.len() == 0
    &&& len > 0 ==> r.len() > 0 && r[0].start == 0 && r[r.len() - 1].end == len
    &&& forall|i: int| 0 <= i < r.len() ==> #[trigger] r[i].start < r[i].end
    &&& forall|i: int| 0 <= i < r.len() - 1 ==> #[trigger] r[i].end == r[i + 1].start
}

/// Length of each planned chunk but possibly the last: `len / workers` rounded up.
pub fn chunk_size(len: usize, workers: usize) -> (r: usize)
    requires
        workers >= 1,
    ensures
        r == chunk_len(len as nat, workers as nat),
{
    let q = len / workers;
    if len % workers == 0 {
        q
    } else {
        proof {
            assert(q < len) by (nonlinear_arith)
                requires
                    q == len / workers,
                    workers >= 1,
                    len % workers != 0,
            ;
        }
        q + 1
    }
}

proof fn lemma_ceil_bounds(len: nat, size: nat, n: nat)
    requires
        size > 0,
        (n - 1) * size < len,
        len <= n * size,
        n >= 1,
    ensures
        n == ceil_div(len, size),
{
    let q = len / size;
    let m = len % size;
    assert(len == q * size + m && 0 <= m < size) by (nonlinear_arith)
        requires
            size > 0,
            q == len / size,
            m == len % size,
    ;
    if m == 0 {
        assert(n == q) by (nonlinear_arith)
            requires
                (n - 1) * size < len,
                len <= n * size,
                len == q * size,
                size > 0,
        ;
    } else {
        assert(n == q + 1) by (nonlinear_arith)
            requires
                (n - 1) * size < len,
                len <= n * size,
                len == q * size + m,
                0 < m < size,
        ;
    }
}

/// Splits `[0, len)` into consecutive ranges of `chunk_size(len, workers)` bytes, the
/// last one possibly shorter. An empty input gets no range.
pub fn plan_chunks(len: usize, workers: usize) -> (r: Vec<ChunkRange>)
    requires
        workers >= 1,
    ensures
        is_plan(r@, len as nat, workers as nat),
        tiles(r@, len as nat),
{
    let size = chunk_size(len, workers);
    let mut r: Vec<ChunkRange> = Vec::new();
    if len == 0 {
        return r;
    }
    proof {
        assert(size > 0) by (nonlinear_arith)
            requires
                size == chunk_len(len as nat, workers as nat),
                len > 0,
                workers >= 1,
        ;
    }
    let mut start: usize = 0;
    proof {
        assert(0 * size == 0) by (nonlinear_arith);
    }
    while start < len
        invariant
            size > 0,
            size == chunk_len(len as nat, workers as nat),
            len > 0,
            start <= len,
            start == r.len() * size || (start == len && r.len() > 0 && (r.len() - 1) * size < len
                && len <= r.len() * size),
            start < len ==> start == r.len() * size,
            r.len() > 0 ==> r[r.len() - 1].end == start && r[0].start == 0,
            r.len() > 0 ==> (r.len() - 1) * size < len,
            forall|i: int|
                0 <= i < r.len() ==> {
                    &&& #[trigger] r[i].start == i * size
                    &&& r[i].end == (if (i + 1) * size < len { (i + 1) * size } else { len as int })
                    &&& r[i].start < r[i].end
                },
            forall|i: int| 0 <= i < r.len() - 1 ==> #[trigger] r[i].end == r[i + 1].start,
        decreases len - start,
    {
        let n = r.len();
        let end = if len - start > size { start + size } else { len };
        proof {
            assert((n + 1) * size == n * size + size) by (nonlinear_arith);
        }
        r.push(ChunkRange { start, end });
        proof {
            assert(r[n as int].start == n * size);
            assert((n + 1 - 1) * size < len);
            if end == len {
                assert(len <= (n + 1) * size);
            }
        }
        start = end;
    }
    proof {
        let n = r.len() as nat;
        assert(n >= 1);
        lemma_ceil_bounds(len as nat, size as nat, n);
    }
    r
}

} // verus!
