//! Merging partial counts, and counting an input chunk by chunk.

use vstd::prelude::*;
use crate::chunk::{is_plan, plan_chunks, tiles, ChunkRange};
use crate::counter::{count_fingerprints, count_text_buffered, fingerprints};
use crate::entries::lemma_count_bounded;
use crate::text_count::TextCount;
use crate::tokens::{capped, lemma_capped_add, occurrences, words};
use crate::word_count::WordCount;

verus! {

/// The sum over `parts` of the count of the word `k`.
pub open spec fn sum_text_counts(parts: Seq<TextCount>, k: Seq<u8>) -> nat
    decreases parts.len(),
{
    if parts.len() == 0 {
        0
    } else {
        sum_text_counts(parts.drop_last(), k) + parts.last().count(k)
    }
}

/// The sum over the ranges `r` of `s` of how often the word `k` occurs in each.
pub open spec fn chunk_occurrences(s: Seq<u8>, r: Seq<ChunkRange>, k: Seq<u8>) -> nat
    decreases r.len(),
{
    if r.len() == 0 {
        0
    } else {
        chunk_occurrences(s, r.drop_last(), k) + occurrences(
            words(s.subrange(r.last().start as int, r.last().end as int)),
            k,
        )
    }
}

/// Merges partial counts into one table: each word's count is the sum of its counts in
/// `parts`, capped at `u32::MAX`.
pub fn merge_text(parts: &Vec<TextCount>) -> (r: TextCount)
    requires
        forall|i: int| 0 <= i < parts.len() ==> (#[trigger] parts[i]).wf(),
    ensures
        r.wf(),
        forall|k: Seq<u8>| #[trigger] r.count(k) == capped(sum_text_counts(parts@, k)),
{
    let mut total = TextCount::new();
    let mut i: usize = 0;
    while i < parts.len()
        invariant
            i <= parts.len(),
            total.wf(),
            forall|j: int| 0 <= j < parts.len() ==> (#[trigger] parts[j]).wf(),
            forall|k: Seq<u8>| #[trigger] total.count(k) == capped(
                sum_text_counts(parts@.subrange(0, i as int), k),
            ),
        decreases parts.len() - i,
    {
        total.merge_from(&parts[i]);
        proof {
            let p = parts@.subrange(0, i as int + 1);
            assert(p.drop_last() =~= parts@.subrange(0, i as int));
            assert forall|k: Seq<u8>| #[trigger] total.count(k) == capped(sum_text_counts(p, k)) by {
                lemma_count_bounded(parts[i as int].view_entries(), k);
                lemma_capped_add(
                    sum_text_counts(parts@.subrange(0, i as int), k),
                    parts[i as int].count(k),
                );
            }
        }
        i = i + 1;
    }
    assert(parts@.subrange(0, parts.len() as int) =~= parts@);
    total
}

/// Plans `workers` chunks over `bytes`, counts the words of each chunk apart (reading
/// `buffer_size` bytes at a time) and merges the partial counts.
pub fn count_text_chunks(bytes: &[u8], workers: usize, buffer_size: usize) -> (r: TextCount)
    requires
        workers >= 1,
    ensures
        r.wf(),
        exists|plan: Seq<ChunkRange>|
            #![trigger is_plan(plan, bytes@.len(), workers as nat)]
            is_plan(plan, bytes@.len(), workers as nat) && tiles(plan, bytes@.len()) && forall|
                k: Seq<u8>,
            | #[trigger] r.count(k) == capped(chunk_occurrences(bytes@, plan, k)),
{
    let plan = plan_chunks(bytes.len(), workers);
    let mut parts: Vec<TextCount> = Vec::new();
    let mut i: usize = 0;
    while i < plan.len()
        invariant
            i <= plan.len(),
            parts.len() == i,
            tiles(plan@, bytes@.len()),
            is_plan(plan@, bytes@.len(), workers as nat),
            forall|j: int| 0 <= j < i ==> (#[trigger] parts[j]).wf(),
            forall|j: int, k: Seq<u8>|
                0 <= j < i ==> #[trigger] parts[j].count(k) == capped(
                    occurrences(words(bytes@.subrange(plan[j].start as int, plan[j].end as int)), k),
                ),
        decreases plan.len() - i,
    {
        let c = plan[i];
        proof {
            assert(plan@[i as int].start < plan@[i as int].end);
            if i + 1 < plan.len() {
                assert(plan@[i as int].end == plan@[i as int + 1].start);
            }
            lemma_range_in_bounds(plan@, bytes@.len(), i as int);
        }
        let part = count_text_buffered(&bytes[c.start..c.end], buffer_size);
        parts.push(part);
        i = i + 1;
    }
    let r = merge_text(&parts);
    proof {
        assert forall|k: Seq<u8>| #[trigger] r.count(k) == capped(chunk_occurrences(bytes@, plan@, k)) by {
            lemma_sum_of_chunks(bytes@, plan@, parts@, k, plan@.len() as int);
            assert(plan@.subrange(0, plan@.len() as int) =~= plan@);
            assert(parts@.subrange(0, parts@.len() as int) =~= parts@);
        }
    }
    r
}

proof fn lemma_range_in_bounds(r: Seq<ChunkRange>, len: nat, i: int)
    requires
        tiles(r, len),
        0 <= i < r.len(),
    ensures
        r[i].start < r[i].end <= len,
    decreases r.len() - i,
{
    if i < r.len() - 1 {
        lemma_range_in_bounds(r, len, i + 1);
        assert(r[i].end == r[i + 1].start);
    }
}

proof fn lemma_sum_of_chunks(s: Seq<u8>, r: Seq<ChunkRange>, parts: Seq<TextCount>, k: Seq<u8>, n: int)
    requires
        0 <= n <= r.len(),
        parts.len() == r.len(),
        forall|j: int, k: Seq<u8>|
            0 <= j < r.len() ==> #[trigger] parts[j].count(k) == capped(
                occurrences(words(s.subrange(r[j].start as int, r[j].end as int)), k),
            ),
    ensures
        capped(sum_text_counts(parts.subrange(0, n), k)) == capped(
            chunk_occurrences(s, r.subrange(0, n), k),
        ),
    decreases n,
{
    if n > 0 {
        lemma_sum_of_chunks(s, r, parts, k, n - 1);
        assert(parts.subrange(0, n).drop_last() =~= parts.subrange(0, n - 1));
        assert(r.subrange(0, n).drop_last() =~= r.subrange(0, n - 1));
        let a = sum_text_counts(parts.subrange(0, n - 1), k);
        let b = chunk_occurrences(s, r.subrange(0, n - 1), k);
        let o = occurrences(words(s.subrange(r[n - 1].start as int, r[n - 1].end as int)), k);
        assert(parts[n - 1].count(k) == capped(o));
        lemma_capped_add(a, o);
        lemma_capped_add(b, o);
        lemma_capped_add(a, capped(o));
    } else {
        assert(parts.subrange(0, 0).len() == 0);
        assert(r.subrange(0, 0).len() == 0);
    }
}

/// The sum over `parts` of the count of the fingerprint `k`.
pub open spec fn sum_fingerprint_counts(parts: Seq<WordCount>, k: u64) -> nat
    decreases parts.len(),
{
    if parts.len() == 0 {
        0
    } else {
        sum_fingerprint_counts(parts.drop_last(), k) + parts.last().count(k)
    }
}

/// The sum over the ranges `r` of `s` of how often the fingerprint `k` is emitted in each.
pub open spec fn chunk_fingerprint_occurrences(s: Seq<u8>, r: Seq<ChunkRange>, k: u64) -> nat
    decreases r.len(),
{
    if r.len() == 0 {
        0
    } else {
        chunk_fingerprint_occurrences(s, r.drop_last(), k) + occurrences(
            fingerprints(s.subrange(r.last().start as int, r.last().end as int)),
            k,
        )
    }
}

/// Merges partial fingerprint counts into one table: each key's count is the sum of its
/// counts in `parts`, capped at `u32::MAX`.
pub fn merge_fingerprints(parts: &Vec<WordCount>) -> (r: WordCount)
    requires
        forall|i: int| 0 <= i < parts.len() ==> (#[trigger] parts[i]).wf(),
    ensures
        r.wf(),
        forall|k: u64| #[trigger] r.count(k) == capped(sum_fingerprint_counts(parts@, k)),
{
    let mut total = WordCount::new();
    let mut i: usize = 0;
    while i < parts.len()
        invariant
            i <= parts.len(),
            total.wf(),
            forall|j: int| 0 <= j < parts.len() ==> (#[trigger] parts[j]).wf(),
            forall|k: u64| #[trigger] total.count(k) == capped(
                sum_fingerprint_counts(parts@.subrange(0, i as int), k),
            ),
        decreases parts.len() - i,
    {
        total.merge_from(&parts[i]);
        proof {
            let p = parts@.subrange(0, i as int + 1);
            assert(p.drop_last() =~= parts@.subrange(0, i as int));
            assert forall|k: u64| #[trigger] total.count(k) == capped(sum_fingerprint_counts(p, k)) by {
                lemma_count_bounded(parts[i as int].entries@, k);
                lemma_capped_add(
                    sum_fingerprint_counts(parts@.subrange(0, i as int), k),
                    parts[i as int].count(k),
                );
            }
        }
        i = i + 1;
    }
    assert(parts@.subrange(0, parts.len() as int) =~= parts@);
    total
}

/// Plans `workers` chunks over `bytes`, counts the fingerprints of each chunk apart and
/// merges the partial counts.
pub fn count_fingerprint_chunks(bytes: &[u8], workers: usize) -> (r: WordCount)
    requires
        workers >= 1,
    ensures
        r.wf(),
        exists|plan: Seq<ChunkRange>|
            #![trigger is_plan(plan, bytes@.len(), workers as nat)]
            is_plan(plan, bytes@.len(), workers as nat) && tiles(plan, bytes@.len()) && forall|k: u64|
                #[trigger] r.count(k) == capped(chunk_fingerprint_occurrences(bytes@, plan, k)),
{
    let plan = plan_chunks(bytes.len(), workers);
    let mut parts: Vec<WordCount> = Vec::new();
    let mut i: usize = 0;
    while i < plan.len()
        invariant
            i <= plan.len(),
            parts.len() == i,
            tiles(plan@, bytes@.len()),
            is_plan(plan@, bytes@.len(), workers as nat),
            forall|j: int| 0 <= j < i ==> (#[trigger] parts[j]).wf(),
            forall|j: int, k: u64|
                0 <= j < i ==> #[trigger] parts[j].count(k) == capped(
                    occurrences(
                        fingerprints(bytes@.subrange(plan[j].start as int, plan[j].end as int)),
                        k,
                    ),
                ),
        decreases plan.len() - i,
    {
        let c = plan[i];
        proof {
            lemma_range_in_bounds(plan@, bytes@.len(), i as int);
        }
        let part = count_fingerprints(&bytes[c.start..c.end]);
        parts.push(part);
        i = i + 1;
    }
    let r = merge_fingerprints(&parts);
    proof {
        assert forall|k: u64| #[trigger] r.count(k) == capped(
            chunk_fingerprint_occurrences(bytes@, plan@, k),
        ) by {
            lemma_sum_of_fingerprint_chunks(bytes@, plan@, parts@, k, plan@.len() as int);
            assert(plan@.subrange(0, plan@.len() as int) =~= plan@);
            assert(parts@.subrange(0, parts@.len() as int) =~= parts@);
        }
    }
    r
}

proof fn lemma_sum_of_fingerprint_chunks(
    s: Seq<u8>,
    r: Seq<ChunkRange>,
    parts: Seq<WordCount>,
    k: u64,
    n: int,
)
    requires
        0 <= n <= r.len(),
        parts.len() == r.len(),
        forall|j: int, k: u64|
            0 <= j < r.len() ==> #[trigger] parts[j].count(k) == capped(
                occurrences(fingerprints(s.subrange(r[j].start as int, r[j].end as int)), k),
            ),
    ensures
        capped(sum_fingerprint_counts(parts.subrange(0, n), k)) == capped(
            chunk_fingerprint_occurrences(s, r.subrange(0, n), k),
        ),
    decreases n,
{
    if n > 0 {
        lemma_sum_of_fingerprint_chunks(s, r, parts, k, n - 1);
        assert(parts.subrange(0, n).drop_last() =~= parts.subrange(0, n - 1));
        assert(r.subrange(0, n).drop_last() =~= r.subrange(0, n - 1));
        let a = sum_fingerprint_counts(parts.subrange(0, n - 1), k);
        let b = chunk_fingerprint_occurrences(s, r.subrange(0, n - 1), k);
        let o = occurrences(fingerprints(s.subrange(r[n - 1].start as int, r[n - 1].end as int)), k);
        assert(parts[n - 1].count(k) == capped(o));
        lemma_capped_add(a, o);
        lemma_capped_add(b, o);
        lemma_capped_add(a, capped(o));
    } else {
        assert(parts.subrange(0, 0).len() == 0);
        assert(r.subrange(0, 0).len() == 0);
    }
}

} // verus!
