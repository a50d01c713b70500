//! The report: one `key<TAB>count<LF>` line per entry.

use vstd::prelude::*;
use crate::text_count::TextCount;
use crate::word_count::WordCount;

verus! {

/// The decimal digits of `n`, as ASCII bytes, without leading zeros.
pub open spec fn decimal(n: nat) -> Seq<u8>
    decreases n,
{
    if n < 10 {
        seq![(48 + n) as u8]
    } else {
        decimal(n / 10).push((48 + n % 10) as u8)
    }
}

/// One line of a report: the key's bytes, a tab, the count in decimal, a newline.
pub open spec fn line(key: Seq<u8>, count: nat) -> Seq<u8> {
    key + seq![9u8] + decimal(count) + seq![10u8]
}

/// The report of word counts: one line per entry, in the entries' order.
pub open spec fn text_lines(e: Seq<(Seq<u8>, u32)>) -> Seq<u8>
    decreases e.len(),
{
    if e.len() == 0 {
        seq![]
    } else {
        text_lines(e.drop_last()) + line(e.last().0, e.last().1 as nat)
    }
}

/// The report of fingerprint counts: one line per entry, the key in decimal.
pub open spec fn fingerprint_lines(e: Seq<(u64, u32)>) -> Seq<u8>
    decreases e.len(),
{
    if e.len() == 0 {
        seq![]
    } else {
        fingerprint_lines(e.drop_last()) + line(decimal(e.last().0 as nat), e.last().1 as nat)
    }
}

/// Appends the decimal digits of `n` to `out`.
pub fn push_decimal(out: &mut Vec<u8>, n: u64)
    ensures
        final(out)@ == old(out)@ + decimal(n as nat),
    decreases n,
{
    if n >= 10 {
        push_decimal(out, n / 10);
    }
    out.push(48 + (n % 10) as u8);
    proof {
        if n >= 10 {
            assert(final(out)@ =~= old(out)@ + decimal(n as nat));
        } else {
            assert(final(out)@ =~= old(out)@ + decimal(n as nat));
        }
    }
}

/// Appends the bytes of `s` to `out`.
pub fn push_bytes(out: &mut Vec<u8>, s: &[u8])
    ensures
        final(out)@ == old(out)@ + s@,
{
    let mut i: usize = 0;
    while i < s.len()
        invariant
            i <= s.len(),
            out@ == old(out)@ + s@.subrange(0, i as int),
        decreases s.len() - i,
    {
        out.push(s[i]);
        i = i + 1;
        assert(out@ =~= old(out)@ + s@.subrange(0, i as int));
    }
    assert(s@.subrange(0, s.len() as int) =~= s@);
}

impl TextCount {
    /// The report: one `word<TAB>count<LF>` line per word, in ascending order of word.
    pub fn serialize_counts(&self) -> (r: Vec<u8>)
        ensures
            r@ == text_lines(self.view_entries()),
    {
        let mut out: Vec<u8> = Vec::new();
        let mut i: usize = 0;
        while i < self.entries.len()
            invariant
                i <= self.entries.len(),
                out@ == text_lines(self.view_entries().subrange(0, i as int)),
            decreases self.entries.len() - i,
        {
            let ghost before = out@;
            push_bytes(&mut out, self.entries[i].0.as_slice());
            out.push(9u8);
            push_decimal(&mut out, self.entries[i].1 as u64);
            out.push(10u8);
            proof {
                let e = self.view_entries();
                assert(e.subrange(0, i as int + 1).drop_last() =~= e.subrange(0, i as int));
                assert(out@ =~= before + line(e[i as int].0, e[i as int].1 as nat));
            }
            i = i + 1;
        }
        assert(self.view_entries().subrange(0, self.entries.len() as int) =~= self.view_entries());
        out
    }
}

impl WordCount {
    /// The report: one `fingerprint<TAB>count<LF>` line per fingerprint, in ascending
    /// numeric order.
    pub fn serialize_counts(&self) -> (r: Vec<u8>)
        ensures
            r@ == fingerprint_lines(self.entries@),
    {
        let mut out: Vec<u8> = Vec::new();
        let mut i: usize = 0;
        while i < self.entries.len()
            invariant
                i <= self.entries.len(),
                out@ == fingerprint_lines(self.entries@.subrange(0, i as int)),
            decreases self.entries.len() - i,
        {
            let ghost before = out@;
            push_decimal(&mut out, self.entries[i].0);
            out.push(9u8);
            push_decimal(&mut out, self.entries[i].1 as u64);
            out.push(10u8);
            proof {
                let e = self.entries@;
                assert(e.subrange(0, i as int + 1).drop_last() =~= e.subrange(0, i as int));
                assert(out@ =~= before + line(decimal(e[i as int].0 as nat), e[i as int].1 as nat));
            }
            i = i + 1;
        }
        assert(self.entries@.subrange(0, self.entries.len() as int) =~= self.entries@);
        out
    }
}

} // verus!
