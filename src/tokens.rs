//! What the tokenizers find in a byte sequence, and the cap on stored counts.

use vstd::prelude::*;

verus! {

/// An ASCII letter or digit: the bytes that words are made of.
pub open spec fn is_alnum(b: u8) -> bool {
    (48 <= b <= 57) || (65 <= b <= 90) || (97 <= b <= 122)
}

/// An ASCII letter: the bytes that a fingerprint folds in.
pub open spec fn is_letter(b: u8) -> bool {
    (65 <= b <= 90) || (97 <= b <= 122)
}

/// The longest run of letters and digits that ends `s`.
pub open spec fn trailing_word(s: Seq<u8>) -> Seq<u8>
    decreases s.len(),
{
    if s.len() == 0 || !is_alnum(s.last()) {
        seq![]
    } else {
        trailing_word(s.drop_last()).push(s.last())
    }
}

/// The words of `s` that a delimiter closes, in order.
pub open spec fn closed_words(s: Seq<u8>) -> Seq<Seq<u8>>
    decreases s.len(),
{
    if s.len() == 0 {
        seq![]
    } else if is_alnum(s.last()) || trailing_word(s.drop_last()).len() == 0 {
        closed_words(s.drop_last())
    } else {
        closed_words(s.drop_last()).push(trailing_word(s.drop_last()))
    }
}

/// The words of `s` in order: its maximal non-empty runs of letters and digits.
pub open spec fn words(s: Seq<u8>) -> Seq<Seq<u8>> {
    if trailing_word(s).len() == 0 {
        closed_words(s)
    } else {
        closed_words(s).push(trailing_word(s))
    }
}

/// The longest run of letters that ends `s`.
pub open spec fn trailing_letters(s: Seq<u8>) -> Seq<u8>
    decreases s.len(),
{
    if s.len() == 0 || !is_letter(s.last()) {
        seq![]
    } else {
        trailing_letters(s.drop_last()).push(s.last())
    }
}

/// How many times `k` occurs in `s`.
pub open spec fn occurrences<A>(s: Seq<A>, k: A) -> nat
    decreases s.len(),
{
    if s.len() == 0 {
        0
    } else {
        occurrences(s.drop_last(), k) + (if s.last() == k { 1nat } else { 0nat })
    }
}

/// A count as stored: counts stop at `u32::MAX`.
pub open spec fn capped(n: nat) -> nat {
    if n > u32::MAX as nat {
        u32::MAX as nat
    } else {
        n
    }
}

pub proof fn lemma_occurrences_append<A>(a: Seq<A>, b: Seq<A>, k: A)
    ensures
        occurrences(a + b, k) == occurrences(a, k) + occurrences(b, k),
    decreases b.len(),
{
    if b.len() == 0 {
        assert(a + b =~= a);
    } else {
        lemma_occurrences_append(a, b.drop_last(), k);
        assert((a + b).drop_last() =~= a + b.drop_last());
    }
}

/// Capping each part before adding, and capping again, is capping the sum.
pub proof fn lemma_capped_add(a: nat, b: nat)
    ensures
        capped(capped(a) + capped(b)) == capped(a + b),
{
}

} // verus!
