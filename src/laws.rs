//! Properties that hold of every input: boundary exactness, determinism of the report,
//! and the merging of colliding fingerprints.

use vstd::prelude::*;
use crate::chunk::{tiles, ChunkRange};
use crate::counter::{fingerprint_of, fingerprints};
use crate::entries::{distinct_keys, entry_count, lemma_count};
use crate::lex::{lemma_lex_asymmetric, lemma_lex_total, lex_lt};
use crate::report::text_lines;
use crate::text_count::{lex_sorted_entries, TextCount};
use crate::pipeline::{chunk_fingerprint_occurrences, chunk_occurrences};
use crate::tokens::{
    closed_words, is_alnum, is_letter, lemma_occurrences_append, occurrences, trailing_letters,
    trailing_word, words,
};

verus! {

proof fn lemma_trailing_word_split(a: Seq<u8>, b: Seq<u8>)
    requires
        a.len() == 0 || !is_alnum(a.last()),
    ensures
        trailing_word(a + b) == trailing_word(b),
    decreases b.len(),
{
    if b.len() == 0 {
        assert(a + b =~= a);
    } else {
        assert((a + b).drop_last() =~= a + b.drop_last());
        lemma_trailing_word_split(a, b.drop_last());
    }
}

proof fn lemma_closed_words_split(a: Seq<u8>, b: Seq<u8>)
    requires
        a.len() == 0 || !is_alnum(a.last()),
    ensures
        closed_words(a + b) == closed_words(a) + closed_words(b),
    decreases b.len(),
{
    if b.len() == 0 {
        assert(a + b =~= a);
        assert(closed_words(a) + closed_words(b) =~= closed_words(a));
    } else {
        assert((a + b).drop_last() =~= a + b.drop_last());
        lemma_closed_words_split(a, b.drop_last());
        lemma_trailing_word_split(a, b.drop_last());
        let cb = closed_words(b.drop_last());
        assert((closed_words(a) + cb).push(trailing_word(b.drop_last())) =~= closed_words(a) + cb.push(
            trailing_word(b.drop_last()),
        ));
    }
}

/// Cutting the input right after a delimiter splits its words without changing them:
/// the words of `a + b` are those of `a` followed by those of `b`.
pub proof fn lemma_words_split(a: Seq<u8>, b: Seq<u8>)
    requires
        a.len() == 0 || !is_alnum(a.last()),
    ensures
        words(a + b) == words(a) + words(b),
{
    lemma_closed_words_split(a, b);
    lemma_trailing_word_split(a, b);
    let t: Seq<u8> = seq![];
    assert(trailing_word(a) == t);
    assert(words(a) == closed_words(a));
    assert((closed_words(a) + closed_words(b)).push(trailing_word(b)) =~= closed_words(a) + closed_words(
        b,
    ).push(trailing_word(b)));
}

/// Boundary exactness: when every chunk but the first starts right after a byte that is
/// not a letter or digit, the occurrences of each word summed over the chunks equal its
/// occurrences in the whole input.
pub proof fn law_aligned_chunks_count_as_whole(s: Seq<u8>, r: Seq<ChunkRange>, k: Seq<u8>)
    requires
        tiles(r, s.len()),
        forall|i: int| 0 < i < r.len() ==> !is_alnum(s[(#[trigger] r[i]).start - 1]),
    ensures
        chunk_occurrences(s, r, k) == occurrences(words(s), k),
{
    if r.len() == 0 {
        assert(s =~= Seq::<u8>::empty());
        assert(words(s).len() == 0);
    } else {
        lemma_prefix_chunks(s, r, k, r.len() as int);
        assert(r.subrange(0, r.len() as int) =~= r);
        assert(s.subrange(0, s.len() as int) =~= s);
    }
}

proof fn lemma_prefix_chunks(s: Seq<u8>, r: Seq<ChunkRange>, k: Seq<u8>, n: int)
    requires
        tiles(r, s.len()),
        forall|i: int| 0 < i < r.len() ==> !is_alnum(s[(#[trigger] r[i]).start - 1]),
        1 <= n <= r.len(),
    ensures
        r[n - 1].end <= s.len(),
        chunk_occurrences(s, r.subrange(0, n), k) == occurrences(
            words(s.subrange(0, r[n - 1].end as int)),
            k,
        ),
    decreases n,
{
    lemma_end_in_bounds(r, s.len(), n - 1);
    let c = r[n - 1];
    assert(r.subrange(0, n).drop_last() =~= r.subrange(0, n - 1));
    assert(r.subrange(0, n).last() == c);
    assert(chunk_occurrences(s, r.subrange(0, n), k) == chunk_occurrences(s, r.subrange(0, n - 1), k)
        + occurrences(words(s.subrange(c.start as int, c.end as int)), k));
    if n == 1 {
        assert(c.start == 0);
        let e: Seq<ChunkRange> = seq![];
        assert(r.subrange(0, 0) =~= e);
    } else {
        lemma_prefix_chunks(s, r, k, n - 1);
        assert(r[n - 2].end == c.start);
        let a = s.subrange(0, c.start as int);
        let b = s.subrange(c.start as int, c.end as int);
        assert(a + b =~= s.subrange(0, c.end as int));
        assert(a.last() == s[c.start - 1]);
        lemma_words_split(a, b);
        lemma_occurrences_append(words(a), words(b), k);
        assert(occurrences(words(s.subrange(0, c.end as int)), k) == occurrences(words(a), k)
            + occurrences(words(b), k));
    }
}

proof fn lemma_end_in_bounds(r: Seq<ChunkRange>, len: nat, i: int)
    requires
        tiles(r, len),
        0 <= i < r.len(),
    ensures
        r[i].start < r[i].end <= len,
    decreases r.len() - i,
{
    if i < r.len() - 1 {
        lemma_end_in_bounds(r, len, i + 1);
        assert(r[i].end == r[i + 1].start);
    }
}

/// Boundary exactness in fingerprint mode: when every chunk but the first starts right
/// after a byte that is not a letter, the emissions of each fingerprint summed over the
/// chunks equal its emissions over the whole input.
pub proof fn law_aligned_chunks_fingerprint_as_whole(s: Seq<u8>, r: Seq<ChunkRange>, k: u64)
    requires
        tiles(r, s.len()),
        forall|i: int| 0 < i < r.len() ==> !is_letter(s[(#[trigger] r[i]).start - 1]),
    ensures
        chunk_fingerprint_occurrences(s, r, k) == occurrences(fingerprints(s), k),
{
    if r.len() == 0 {
        assert(s =~= Seq::<u8>::empty());
        assert(fingerprints(s).len() == 0);
    } else {
        lemma_prefix_fingerprint_chunks(s, r, k, r.len() as int);
        assert(r.subrange(0, r.len() as int) =~= r);
        assert(s.subrange(0, s.len() as int) =~= s);
    }
}

proof fn lemma_prefix_fingerprint_chunks(s: Seq<u8>, r: Seq<ChunkRange>, k: u64, n: int)
    requires
        tiles(r, s.len()),
        forall|i: int| 0 < i < r.len() ==> !is_letter(s[(#[trigger] r[i]).start - 1]),
        1 <= n <= r.len(),
    ensures
        r[n - 1].end <= s.len(),
        chunk_fingerprint_occurrences(s, r.subrange(0, n), k) == occurrences(
            fingerprints(s.subrange(0, r[n - 1].end as int)),
            k,
        ),
    decreases n,
{
    lemma_end_in_bounds(r, s.len(), n - 1);
    let c = r[n - 1];
    assert(r.subrange(0, n).drop_last() =~= r.subrange(0, n - 1));
    assert(r.subrange(0, n).last() == c);
    assert(chunk_fingerprint_occurrences(s, r.subrange(0, n), k) == chunk_fingerprint_occurrences(
        s,
        r.subrange(0, n - 1),
        k,
    ) + occurrences(fingerprints(s.subrange(c.start as int, c.end as int)), k));
    if n == 1 {
        assert(c.start == 0);
        let e: Seq<ChunkRange> = seq![];
        assert(r.subrange(0, 0) =~= e);
    } else {
        lemma_prefix_fingerprint_chunks(s, r, k, n - 1);
        assert(r[n - 2].end == c.start);
        let a = s.subrange(0, c.start as int);
        let b = s.subrange(c.start as int, c.end as int);
        assert(a + b =~= s.subrange(0, c.end as int));
        assert(a.last() == s[c.start - 1]);
        lemma_fingerprints_split(a, b);
        lemma_occurrences_append(fingerprints(a), fingerprints(b), k);
        assert(occurrences(fingerprints(s.subrange(0, c.end as int)), k) == occurrences(
            fingerprints(a),
            k,
        ) + occurrences(fingerprints(b), k));
    }
}

proof fn lemma_trailing_letters_split(a: Seq<u8>, b: Seq<u8>)
    requires
        a.len() == 0 || !is_letter(a.last()),
    ensures
        trailing_letters(a + b) == trailing_letters(b),
    decreases b.len(),
{
    if b.len() == 0 {
        assert(a + b =~= a);
    } else {
        assert((a + b).drop_last() =~= a + b.drop_last());
        lemma_trailing_letters_split(a, b.drop_last());
    }
}

/// Cutting the input right after a byte that is not a letter splits its fingerprints
/// without changing them.
pub proof fn lemma_fingerprints_split(a: Seq<u8>, b: Seq<u8>)
    requires
        a.len() == 0 || !is_letter(a.last()),
    ensures
        fingerprints(a + b) == fingerprints(a) + fingerprints(b),
    decreases b.len(),
{
    if b.len() == 0 {
        assert(a + b =~= a);
        assert(fingerprints(a) + fingerprints(b) =~= fingerprints(a));
    } else {
        assert((a + b).drop_last() =~= a + b.drop_last());
        lemma_fingerprints_split(a, b.drop_last());
        lemma_trailing_letters_split(a, b.drop_last());
        let fb = fingerprints(b.drop_last());
        assert((fingerprints(a) + fb).push(fingerprint_of(trailing_letters(b.drop_last())))
            =~= fingerprints(a) + fb.push(fingerprint_of(trailing_letters(b.drop_last()))));
    }
}

proof fn lemma_letters_only(a: Seq<u8>)
    requires
        forall|i: int| 0 <= i < a.len() ==> is_letter(#[trigger] a[i]),
    ensures
        fingerprints(a).len() == 0,
        trailing_letters(a) == a,
    decreases a.len(),
{
    if a.len() > 0 {
        lemma_letters_only(a.drop_last());
        assert(a.drop_last().push(a.last()) =~= a);
    }
}

/// The fingerprints of a run of letters closed by a space: that run's fingerprint alone.
proof fn lemma_closed_run(a: Seq<u8>)
    requires
        forall|i: int| 0 <= i < a.len() ==> is_letter(#[trigger] a[i]),
    ensures
        fingerprints(a + seq![32u8]) == seq![fingerprint_of(a)],
{
    lemma_letters_only(a);
    assert((a + seq![32u8]).drop_last() =~= a);
    assert(fingerprints(a + seq![32u8]) =~= seq![fingerprint_of(a)]);
}

/// Fingerprint collisions merge counts: two runs of letters with the same fingerprint,
/// each closed by a space, are counted twice under that one key.
pub proof fn law_colliding_runs_share_a_key(a: Seq<u8>, b: Seq<u8>)
    requires
        forall|i: int| 0 <= i < a.len() ==> is_letter(#[trigger] a[i]),
        forall|i: int| 0 <= i < b.len() ==> is_letter(#[trigger] b[i]),
        fingerprint_of(a) == fingerprint_of(b),
    ensures
        occurrences(fingerprints(a + seq![32u8] + b + seq![32u8]), fingerprint_of(a)) == 2,
{
    let x = a + seq![32u8];
    let y = b + seq![32u8];
    assert(a + seq![32u8] + b + seq![32u8] =~= x + y);
    assert(x.last() == 32u8);
    lemma_fingerprints_split(x, y);
    lemma_closed_run(a);
    lemma_closed_run(b);
    let f = fingerprint_of(a);
    assert(seq![f] + seq![f] =~= seq![f, f]);
    assert(seq![f, f].drop_last() =~= seq![f]);
    assert(seq![f].drop_last() =~= Seq::<u64>::empty());
    assert(fingerprints(x + y) == seq![f, f]);
    assert(occurrences(Seq::<u64>::empty(), f) == 0);
    assert(occurrences(seq![f], f) == 1);
    assert(occurrences(seq![f, f], f) == 2);
}

proof fn lemma_present(e: Seq<(Seq<u8>, u32)>, k: Seq<u8>) -> (j: int)
    requires
        lex_sorted_entries(e),
        entry_count(e, k) > 0,
    ensures
        0 <= j < e.len(),
        e[j].0 == k,
{
    lemma_sorted_distinct(e);
    lemma_count(e, k);
    choose|j: int| 0 <= j < e.len() && (#[trigger] e[j]).0 == k
}

proof fn lemma_sorted_distinct(e: Seq<(Seq<u8>, u32)>)
    requires
        lex_sorted_entries(e),
    ensures
        distinct_keys(e),
{
    assert forall|i: int, j: int| 0 <= i < j < e.len() implies (#[trigger] e[i]).0 != (
    #[trigger] e[j]).0 by {
        lemma_lex_asymmetric(e[i].0, e[j].0);
    }
}

/// The last key of a sorted table is not before any key it holds.
proof fn lemma_last_is_max(e: Seq<(Seq<u8>, u32)>, j: int)
    requires
        lex_sorted_entries(e),
        0 <= j < e.len(),
    ensures
        !lex_lt(e.last().0, e[j].0),
{
    if j < e.len() - 1 {
        lemma_lex_asymmetric(e[j].0, e.last().0);
    } else {
        if lex_lt(e.last().0, e[j].0) {
            lemma_lex_asymmetric(e.last().0, e[j].0);
        }
    }
}

proof fn lemma_sorted_unique(e1: Seq<(Seq<u8>, u32)>, e2: Seq<(Seq<u8>, u32)>)
    requires
        lex_sorted_entries(e1),
        lex_sorted_entries(e2),
        forall|k: Seq<u8>| entry_count(e1, k) == entry_count(e2, k),
    ensures
        e1 == e2,
    decreases e1.len() + e2.len(),
{
    lemma_sorted_distinct(e1);
    lemma_sorted_distinct(e2);
    if e1.len() == 0 || e2.len() == 0 {
        if e1.len() > 0 {
            lemma_count(e1, e1.last().0);
            assert(e1[e1.len() - 1].0 == e1.last().0);
        } else if e2.len() > 0 {
            lemma_count(e2, e2.last().0);
            assert(e2[e2.len() - 1].0 == e2.last().0);
        }
        assert(e1 =~= e2);
    } else {
        let x = e1.last();
        let y = e2.last();
        lemma_count(e1, x.0);
        lemma_count(e2, y.0);
        assert(e1[e1.len() - 1].0 == x.0);
        assert(e2[e2.len() - 1].0 == y.0);
        let j1 = lemma_present(e1, y.0);
        let j2 = lemma_present(e2, x.0);
        lemma_last_is_max(e1, j1);
        lemma_last_is_max(e2, j2);
        if x.0 != y.0 {
            lemma_lex_total(x.0, y.0);
        }
        assert(x == y);
        let d1 = e1.drop_last();
        let d2 = e2.drop_last();
        assert forall|k: Seq<u8>| entry_count(d1, k) == entry_count(d2, k) by {
            assert(entry_count(e1, k) == entry_count(e2, k));
            if k == x.0 {
                lemma_count(d1, k);
                lemma_count(d2, k);
                assert forall|i: int| 0 <= i < d1.len() implies (#[trigger] d1[i]).0 != k by {
                    assert(e1[i].0 != e1[e1.len() - 1].0);
                }
                assert forall|i: int| 0 <= i < d2.len() implies (#[trigger] d2[i]).0 != k by {
                    assert(e2[i].0 != e2[e2.len() - 1].0);
                }
            }
        }
        assert(distinct_keys(d1) && distinct_keys(d2));
        assert(lex_sorted_entries(d1));
        assert(lex_sorted_entries(d2));
        lemma_sorted_unique(d1, d2);
        assert(e1 =~= d1.push(x));
        assert(e2 =~= d2.push(y));
    }
}

/// Determinism: two well-formed tables that give every word the same count hold the same
/// entries, and so serialize to the same bytes; the report is a function of the counts.
pub proof fn law_same_counts_same_report(a: TextCount, b: TextCount)
    requires
        a.wf(),
        b.wf(),
        forall|k: Seq<u8>| a.count(k) == b.count(k),
    ensures
        a.view_entries() == b.view_entries(),
        text_lines(a.view_entries()) == text_lines(b.view_entries()),
{
    assert forall|k: Seq<u8>| entry_count(a.view_entries(), k) == entry_count(b.view_entries(), k) by {
        assert(a.count(k) == b.count(k));
    }
    lemma_sorted_unique(a.view_entries(), b.view_entries());
}

} // verus!
