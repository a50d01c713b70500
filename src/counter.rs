//! The two counters: exact words, and fingerprints of letter runs.

use vstd::prelude::*;
use crate::text_count::{copy_bytes, TextCount};
use crate::tokens::{
    capped, closed_words, is_alnum, is_letter, lemma_capped_add, occurrences, trailing_letters,
    trailing_word, words,
};
use crate::word_count::WordCount;

verus! {

/// The 64-bit fingerprint of a run of letters.
pub uninterp spec fn fingerprint_of(letters: Seq<u8>) -> u64;

/// Relies on std's `DefaultHasher`: every hasher made by `new` is the same as every other
/// one made by `new` (no per-process seed), `write` folds the bytes in order and `finish`
/// returns the 64-bit result, so within one build the value depends on the bytes alone.
#[verifier::external_body]
fn fingerprint(letters: &[u8]) -> (r: u64)
    ensures
        r == fingerprint_of(letters@),
{
    let mut h = std::collections::hash_map::DefaultHasher::new();
    std::hash::Hasher::write(&mut h, letters);
    std::hash::Hasher::finish(&h)
}

/// The fingerprints that scanning `s` emits, in order: one for each byte that is not a
/// letter, of the letters since the previous such byte. Letters after the last such byte
/// emit nothing.
pub open spec fn fingerprints(s: Seq<u8>) -> Seq<u64>
    decreases s.len(),
{
    if s.len() == 0 {
        seq![]
    } else if is_letter(s.last()) {
        fingerprints(s.drop_last())
    } else {
        fingerprints(s.drop_last()).push(fingerprint_of(trailing_letters(s.drop_last())))
    }
}

/// Whether `b` is an ASCII letter or digit.
pub fn is_word_byte(b: u8) -> (r: bool)
    ensures
        r == is_alnum(b),
{
    (48 <= b && b <= 57) || (65 <= b && b <= 90) || (97 <= b && b <= 122)
}

/// Whether `b` is an ASCII letter.
pub fn is_letter_byte(b: u8) -> (r: bool)
    ensures
        r == is_letter(b),
{
    (65 <= b && b <= 90) || (97 <= b && b <= 122)
}

/// Counts the fingerprints of `bytes`: each byte that is not an ASCII letter closes the
/// letters before it (possibly none) into one fingerprint; a trailing run of letters is
/// not counted.
pub fn count_fingerprints(bytes: &[u8]) -> (r: WordCount)
    ensures
        r.wf(),
        forall|k: u64| #[trigger] r.count(k) == capped(occurrences(fingerprints(bytes@), k)),
        fingerprints(bytes@).len() <= u32::MAX ==> r.total() == fingerprints(bytes@).len(),
{
    let mut counts = WordCount::new();
    let mut run: Vec<u8> = Vec::new();
    let mut i: usize = 0;
    while i < bytes.len()
        invariant
            i <= bytes.len(),
            counts.wf(),
            run@ == trailing_letters(bytes@.subrange(0, i as int)),
            forall|k: u64| #[trigger] counts.count(k) == capped(
                occurrences(fingerprints(bytes@.subrange(0, i as int)), k),
            ),
            fingerprints(bytes@.subrange(0, i as int)).len() <= u32::MAX ==> counts.total()
                == fingerprints(bytes@.subrange(0, i as int)).len(),
        decreases bytes.len() - i,
    {
        let ghost p = bytes@.subrange(0, i as int);
        let ghost p1 = bytes@.subrange(0, i as int + 1);
        assert(p1.drop_last() =~= p);
        assert(p1.last() == bytes[i as int]);
        let b = bytes[i];
        if is_letter_byte(b) {
            run.push(b);
        } else {
            let key = fingerprint(run.as_slice());
            counts.increment(key);
            run = Vec::new();
            proof {
                assert forall|k: u64| #[trigger] counts.count(k) == capped(
                    occurrences(fingerprints(p1), k),
                ) by {
                    if k == key {
                        lemma_capped_add(occurrences(fingerprints(p), k), 1);
                    }
                    assert(fingerprints(p1).drop_last() =~= fingerprints(p));
                }
            }
        }
        i = i + 1;
    }
    assert(bytes@.subrange(0, bytes.len() as int) =~= bytes@);
    counts
}

/// One step of the word scanner: `b` follows the bytes `p`.
fn word_step(counts: &mut TextCount, run: &mut Vec<u8>, b: u8, Ghost(p): Ghost<Seq<u8>>)
    requires
        old(counts).wf(),
        old(run)@ == trailing_word(p),
        forall|k: Seq<u8>| #[trigger] old(counts).count(k) == capped(
            occurrences(closed_words(p), k),
        ),
        closed_words(p).len() <= u32::MAX ==> old(counts).total() == closed_words(p).len(),
    ensures
        final(counts).wf(),
        final(run)@ == trailing_word(p.push(b)),
        forall|k: Seq<u8>| #[trigger] final(counts).count(k) == capped(
            occurrences(closed_words(p.push(b)), k),
        ),
        closed_words(p.push(b)).len() <= u32::MAX ==> final(counts).total() == closed_words(
            p.push(b),
        ).len(),
{
    let ghost p1 = p.push(b);
    assert(p1.drop_last() =~= p);
    if is_word_byte(b) {
        run.push(b);
    } else if run.len() > 0 {
        let word = copy_bytes(run.as_slice());
        *run = Vec::new();
        let ghost w = word@;
        counts.increment(word);
        proof {
            assert forall|k: Seq<u8>| #[trigger] counts.count(k) == capped(
                occurrences(closed_words(p1), k),
            ) by {
                if k == w {
                    lemma_capped_add(occurrences(closed_words(p), k), 1);
                }
                assert(closed_words(p1).drop_last() =~= closed_words(p));
            }
        }
    }
}

/// Closes the scan of `p`: the trailing word, if any, is counted too.
fn word_finish(counts: &mut TextCount, run: Vec<u8>, Ghost(p): Ghost<Seq<u8>>)
    requires
        old(counts).wf(),
        run@ == trailing_word(p),
        forall|k: Seq<u8>| #[trigger] old(counts).count(k) == capped(
            occurrences(closed_words(p), k),
        ),
        closed_words(p).len() <= u32::MAX ==> old(counts).total() == closed_words(p).len(),
    ensures
        final(counts).wf(),
        forall|k: Seq<u8>| #[trigger] final(counts).count(k) == capped(occurrences(words(p), k)),
        words(p).len() <= u32::MAX ==> final(counts).total() == words(p).len(),
{
    if run.len() > 0 {
        let ghost w = run@;
        counts.increment(run);
        proof {
            assert forall|k: Seq<u8>| #[trigger] counts.count(k) == capped(
                occurrences(words(p), k),
            ) by {
                if k == w {
                    lemma_capped_add(occurrences(closed_words(p), k), 1);
                }
                assert(words(p).drop_last() =~= closed_words(p));
            }
        }
    }
}

/// Counts the words of `bytes`: its maximal runs of ASCII letters and digits.
pub fn count_text(bytes: &[u8]) -> (r: TextCount)
    ensures
        r.wf(),
        forall|k: Seq<u8>| #[trigger] r.count(k) == capped(occurrences(words(bytes@), k)),
        words(bytes@).len() <= u32::MAX ==> r.total() == words(bytes@).len(),
{
    count_text_buffered(bytes, bytes.len())
}

/// Counts the words of `bytes` as `count_text` does, reading `buffer_size` bytes at a time
/// (one at a time if it is 0). The buffer size changes nothing in the result.
pub fn count_text_buffered(bytes: &[u8], buffer_size: usize) -> (r: TextCount)
    ensures
        r.wf(),
        forall|k: Seq<u8>| #[trigger] r.count(k) == capped(occurrences(words(bytes@), k)),
        words(bytes@).len() <= u32::MAX ==> r.total() == words(bytes@).len(),
{
    let block: usize = if buffer_size == 0 { 1 } else { buffer_size };
    let mut counts = TextCount::new();
    let mut run: Vec<u8> = Vec::new();
    let mut start: usize = 0;
    assert(bytes@.subrange(0, 0) =~= Seq::<u8>::empty());
    while start < bytes.len()
        invariant
            block > 0,
            start <= bytes.len(),
            counts.wf(),
            run@ == trailing_word(bytes@.subrange(0, start as int)),
            forall|k: Seq<u8>| #[trigger] counts.count(k) == capped(
                occurrences(closed_words(bytes@.subrange(0, start as int)), k),
            ),
            closed_words(bytes@.subrange(0, start as int)).len() <= u32::MAX ==> counts.total()
                == closed_words(bytes@.subrange(0, start as int)).len(),
        decreases bytes.len() - start,
    {
        let end: usize = if bytes.len() - start > block { start + block } else { bytes.len() };
        let mut i: usize = start;
        while i < end
            invariant
                start <= i <= end <= bytes.len(),
                counts.wf(),
                run@ == trailing_word(bytes@.subrange(0, i as int)),
                forall|k: Seq<u8>| #[trigger] counts.count(k) == capped(
                    occurrences(closed_words(bytes@.subrange(0, i as int)), k),
                ),
                closed_words(bytes@.subrange(0, i as int)).len() <= u32::MAX ==> counts.total()
                    == closed_words(bytes@.subrange(0, i as int)).len(),
            decreases end - i,
        {
            assert(bytes@.subrange(0, i as int).push(bytes[i as int]) =~= bytes@.subrange(
                0,
                i as int + 1,
            ));
            word_step(&mut counts, &mut run, bytes[i], Ghost(bytes@.subrange(0, i as int)));
            i = i + 1;
        }
        start = end;
    }
    assert(bytes@.subrange(0, bytes.len() as int) =~= bytes@);
    word_finish(&mut counts, run, Ghost(bytes@));
    counts
}

} // verus!
