//! The table of word counts.

use vstd::prelude::*;
use crate::entries::{
    distinct_keys, entry_count, entry_total, lemma_count, lemma_count_absent, lemma_count_after_insert,
    lemma_count_after_update, lemma_count_bounded, lemma_count_le_total, lemma_total_append,
    lemma_total_insert, lemma_total_update,
};
use crate::lex::{lemma_lex_asymmetric, lemma_lex_total, lemma_lex_transitive, lex_less, lex_lt, same_bytes};
use crate::tokens::{capped, lemma_capped_add};

verus! {

/// Keys strictly increasing in lexicographic order, counts positive.
pub open spec fn lex_sorted_entries(e: Seq<(Seq<u8>, u32)>) -> bool {
    &&& forall|i: int, j: int|
        0 <= i < j < e.len() ==> lex_lt((#[trigger] e[i]).0, (#[trigger] e[j]).0)
    &&& forall|i: int| 0 <= i < e.len() ==> (#[trigger] e[i]).1 > 0
}

proof fn lemma_lex_sorted_distinct(e: Seq<(Seq<u8>, u32)>)
    requires
        lex_sorted_entries(e),
    ensures
        distinct_keys(e),
{
    assert forall|i: int, j: int| 0 <= i < j < e.len() implies (#[trigger] e[i]).0 != (
    #[trigger] e[j]).0 by {
        lemma_lex_asymmetric(e[i].0, e[j].0);
    }
}

/// A copy of `s`.
pub fn copy_bytes(s: &[u8]) -> (r: Vec<u8>)
    ensures
        r@ == s@,
{
    let mut r: Vec<u8> = Vec::new();
    let mut i: usize = 0;
    while i < s.len()
        invariant
            i <= s.len(),
            r@ == s@.subrange(0, i as int),
        decreases s.len() - i,
    {
        r.push(s[i]);
        i = i + 1;
    }
    assert(s@.subrange(0, s.len() as int) =~= s@);
    r
}

/// Occurrence counts of words, kept in ascending lexicographic order of the word's bytes.
pub struct TextCount {
    pub entries: Vec<(Vec<u8>, u32)>,
}

impl TextCount {
    /// The entries, each word taken as its bytes.
    pub open spec fn view_entries(&self) -> Seq<(Seq<u8>, u32)> {
        self.entries@.map_values(|p: (Vec<u8>, u32)| (p.0@, p.1))
    }

    /// Entries in strictly ascending lexicographic order of word, every count positive.
    pub open spec fn wf(&self) -> bool {
        lex_sorted_entries(self.view_entries())
    }

    /// How many times the word `k` was counted, capped at `u32::MAX`.
    pub open spec fn count(&self, k: Seq<u8>) -> nat {
        entry_count(self.view_entries(), k)
    }

    /// The sum of all counts.
    pub open spec fn total(&self) -> nat {
        entry_total(self.view_entries())
    }

    /// An empty table.
    pub fn new() -> (r: Self)
        ensures
            r.wf(),
            forall|k: Seq<u8>| r.count(k) == 0,
            r.total() == 0,
    {
        let r = TextCount { entries: Vec::new() };
        assert(r.view_entries() =~= Seq::<(Seq<u8>, u32)>::empty());
        r
    }

    /// Adds `n` to the count of the word `key`, stopping at `u32::MAX`.
    pub fn add(&mut self, key: Vec<u8>, n: u32)
        requires
            old(self).wf(),
            n > 0,
        ensures
            final(self).wf(),
            final(self).count(key@) == capped(old(self).count(key@) + n as nat),
            forall|k: Seq<u8>| k != key@ ==> final(self).count(k) == old(self).count(k),
            old(self).total() + n <= u32::MAX ==> final(self).total() == old(self).total() + n,
    {
        let ghost e0 = self.view_entries();
        proof {
            lemma_lex_sorted_distinct(e0);
            lemma_count(e0, key@);
            lemma_count_le_total(e0, key@);
        }
        let len = self.entries.len();
        let mut i: usize = 0;
        while i < len && lex_less(&self.entries[i].0, &key)
            invariant
                len == self.entries.len(),
                self.view_entries() == e0,
                lex_sorted_entries(e0),
                i <= len,
                forall|j: int| 0 <= j < i ==> lex_lt((#[trigger] e0[j]).0, key@),
            decreases len - i,
        {
            assert(e0[i as int].0 == self.entries@[i as int].0@);
            i = i + 1;
        }
        if i < len && same_bytes(&self.entries[i].0, &key) {
            assert(e0[i as int].0 == key@);
            let c = self.entries[i].1;
            let sum: u32 = if c <= u32::MAX - n { c + n } else { u32::MAX };
            self.entries.set(i, (key, sum));
            proof {
                let e1 = self.view_entries();
                assert(e1 =~= e0.update(i as int, (e0[i as int].0, sum)));
                lemma_count_after_update(e0, i as int, sum);
                lemma_total_update(e0, i as int, (e0[i as int].0, sum));
            }
        } else {
            proof {
                if i < len {
                    assert(e0[i as int].0 == self.entries@[i as int].0@);
                    lemma_lex_total(e0[i as int].0, key@);
                }
            }
            let ghost kv = key@;
            self.entries.insert(i, (key, n));
            proof {
                let e1 = self.view_entries();
                assert(e1 =~= e0.insert(i as int, (kv, n)));
                assert(lex_sorted_entries(e1)) by {
                    assert forall|a: int, b: int| 0 <= a < b < e1.len() implies lex_lt(
                        (#[trigger] e1[a]).0,
                        (#[trigger] e1[b]).0,
                    ) by {
                        if b > i && a < i {
                            assert(e1[a] == e0[a]);
                            assert(e1[b] == e0[b - 1]);
                        } else if a == i && b > i {
                            assert(e1[b] == e0[b - 1]);
                            if b - 1 > i {
                                lemma_lex_transitive(kv, e0[i as int].0, e0[b - 1].0);
                            }
                        } else if b == i {
                            assert(e1[a] == e0[a]);
                        } else if a > i {
                            assert(e1[a] == e0[a - 1]);
                            assert(e1[b] == e0[b - 1]);
                        }
                    }
                }
                lemma_lex_sorted_distinct(e1);
                lemma_count_after_insert(e0, i as int, (kv, n));
                lemma_total_insert(e0, i as int, (kv, n));
                assert forall|j: int| 0 <= j < e0.len() implies (#[trigger] e0[j]).0 != kv by {
                    if j < i {
                        lemma_lex_asymmetric(e0[j].0, kv);
                    } else {
                        if j > i {
                            lemma_lex_transitive(kv, e0[i as int].0, e0[j].0);
                        }
                        lemma_lex_asymmetric(kv, e0[j].0);
                    }
                }
                lemma_count_absent(e0, kv);
            }
        }
    }

    /// Counts one more occurrence of the word `token`.
    pub fn increment(&mut self, token: Vec<u8>)
        requires
            old(self).wf(),
        ensures
            final(self).wf(),
            final(self).count(token@) == capped(old(self).count(token@) + 1),
            forall|k: Seq<u8>| k != token@ ==> final(self).count(k) == old(self).count(k),
            old(self).total() < u32::MAX ==> final(self).total() == old(self).total() + 1,
    {
        self.add(token, 1);
    }

    /// Adds every count of `other` to this table.
    pub fn merge_from(&mut self, other: &Self)
        requires
            old(self).wf(),
            other.wf(),
        ensures
            final(self).wf(),
            forall|k: Seq<u8>| #[trigger] final(self).count(k) == capped(old(self).count(k) + other.count(k)),
            old(self).total() + other.total() <= u32::MAX ==> final(self).total() == old(self).total()
                + other.total(),
    {
        let ghost s0 = *self;
        let ghost oe = other.view_entries();
        let n = other.entries.len();
        proof {
            assert forall|k: Seq<u8>| #[trigger] self.count(k) == capped(s0.count(k) + entry_count(
                oe.subrange(0, 0), k)) by {
                lemma_count_bounded(s0.view_entries(), k);
                assert(entry_count(oe.subrange(0, 0), k) == 0);
            }
            assert(entry_total(oe.subrange(0, 0)) == 0);
        }
        let mut i: usize = 0;
        while i < n
            invariant
                n == other.entries.len(),
                oe == other.view_entries(),
                i <= n,
                self.wf(),
                other.wf(),
                forall|k: Seq<u8>| #[trigger] self.count(k) == capped(s0.count(k) + entry_count(
                    oe.subrange(0, i as int), k)),
                s0.total() + other.total() <= u32::MAX ==> self.total() == s0.total() + entry_total(
                    oe.subrange(0, i as int)),
            decreases n - i,
        {
            let key = copy_bytes(&other.entries[i].0);
            let c = other.entries[i].1;
            assert(oe[i as int] == (key@, c));
            proof {
                let p = oe.subrange(0, i as int);
                let q = oe.subrange(0, i as int + 1);
                assert(q.drop_last() =~= p);
                lemma_total_append(q, oe.subrange(i as int + 1, n as int));
                assert(q + oe.subrange(i as int + 1, n as int) =~= oe);
            }
            self.add(key, c);
            proof {
                let p = oe.subrange(0, i as int);
                let q = oe.subrange(0, i as int + 1);
                assert(q.drop_last() =~= p);
                assert(q.last() == (key@, c));
                assert forall|j: int| 0 <= j < p.len() implies (#[trigger] p[j]).0 != key@ by {
                    lemma_lex_asymmetric(oe[j].0, oe[i as int].0);
                }
                lemma_count_absent(p, key@);
                assert forall|k: Seq<u8>| #[trigger] self.count(k) == capped(s0.count(k) + entry_count(q, k)) by {
                    if k != key@ {
                        assert(entry_count(q, k) == entry_count(p, k));
                    } else {
                        lemma_capped_add((s0.count(k) + entry_count(p, k)) as nat, c as nat);
                    }
                }
            }
            i = i + 1;
        }
        proof {
            assert(oe.subrange(0, n as int) =~= oe);
        }
    }
}

} // verus!
