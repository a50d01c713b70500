//! The table of fingerprint counts.

use vstd::prelude::*;
use crate::tokens::{capped, lemma_capped_add};
use crate::entries::{
    distinct_keys, entry_count, entry_total, lemma_count, lemma_count_absent,
    lemma_count_after_insert, lemma_count_after_update, lemma_count_bounded, lemma_count_le_total,
    lemma_total_append, lemma_total_insert, lemma_total_update,
};

verus! {

/// Keys strictly increasing, counts positive.
pub open spec fn sorted_entries(e: Seq<(u64, u32)>) -> bool {
    &&& forall|i: int, j: int| 0 <= i < j < e.len() ==> (#[trigger] e[i]).0 < (#[trigger] e[j]).0
    &&& forall|i: int| 0 <= i < e.len() ==> (#[trigger] e[i]).1 > 0
}

proof fn lemma_sorted_distinct(e: Seq<(u64, u32)>)
    requires
        sorted_entries(e),
    ensures
        distinct_keys(e),
{
    assert forall|i: int, j: int| 0 <= i < j < e.len() implies (#[trigger] e[i]).0 != (
    #[trigger] e[j]).0 by {
        assert(e[i].0 < e[j].0);
    }
}

/// Occurrence counts of 64-bit token fingerprints, kept in ascending order of key.
pub struct WordCount {
    pub entries: Vec<(u64, u32)>,
}

impl WordCount {
    /// Entries in strictly ascending order of key, every count positive.
    pub open spec fn wf(&self) -> bool {
        sorted_entries(self.entries@)
    }

    /// How many times `k` was counted, capped at `u32::MAX`.
    pub open spec fn count(&self, k: u64) -> nat {
        entry_count(self.entries@, k)
    }

    /// The sum of all counts.
    pub open spec fn total(&self) -> nat {
        entry_total(self.entries@)
    }

    /// An empty table.
    pub fn new() -> (r: Self)
        ensures
            r.wf(),
            forall|k: u64| r.count(k) == 0,
            r.total() == 0,
    {
        WordCount { entries: Vec::new() }
    }

    /// Adds `n` to the count of `key`, stopping at `u32::MAX`.
    pub fn add(&mut self, key: u64, n: u32)
        requires
            old(self).wf(),
            n > 0,
        ensures
            final(self).wf(),
            final(self).count(key) == capped(old(self).count(key) + n as nat),
            forall|k: u64| k != key ==> final(self).count(k) == old(self).count(k),
            old(self).total() + n <= u32::MAX ==> final(self).total() == old(self).total() + n,
    {
        let ghost e0 = self.entries@;
        proof {
            lemma_sorted_distinct(e0);
            lemma_count(e0, key);
            lemma_count_le_total(e0, key);
        }
        let len = self.entries.len();
        let mut i: usize = 0;
        while i < len && self.entries[i].0 < key
            invariant
                len == self.entries.len(),
                self.entries@ == e0,
                sorted_entries(e0),
                i <= len,
                forall|j: int| 0 <= j < i ==> (#[trigger] e0[j]).0 < key,
            decreases len - i,
        {
            i = i + 1;
        }
        if i < len && self.entries[i].0 == key {
            let c = self.entries[i].1;
            let sum: u32 = if c <= u32::MAX - n { c + n } else { u32::MAX };
            self.entries.set(i, (key, sum));
            proof {
                let e1 = self.entries@;
                assert(e1 =~= e0.update(i as int, (e0[i as int].0, sum)));
                lemma_count_after_update(e0, i as int, sum);
                lemma_total_update(e0, i as int, (key, sum));
            }
        } else {
            self.entries.insert(i, (key, n));
            proof {
                let e1 = self.entries@;
                assert(e1 =~= e0.insert(i as int, (key, n)));
                assert forall|j: int| 0 <= j < e0.len() implies (#[trigger] e0[j]).0 != key by {
                    if j >= i {
                        assert(e0[j].0 >= e0[i as int].0);
                    }
                }
                assert(sorted_entries(e1)) by {
                    assert forall|a: int, b: int| 0 <= a < b < e1.len() implies (#[trigger] e1[a]).0
                        < (#[trigger] e1[b]).0 by {
                        if b > i && a < i {
                            assert(e1[a] == e0[a]);
                            assert(e1[b] == e0[b - 1]);
                        } else if a == i && b > i {
                            assert(e1[b] == e0[b - 1]);
                            assert(e0[i as int].0 <= e0[b - 1].0);
                        }
                    }
                }
                lemma_sorted_distinct(e1);
                lemma_count_after_insert(e0, i as int, (key, n));
                lemma_count_absent(e0, key);
                lemma_total_insert(e0, i as int, (key, n));
            }
        }
    }

    /// Counts one more occurrence of `token`.
    pub fn increment(&mut self, token: u64)
        requires
            old(self).wf(),
        ensures
            final(self).wf(),
            final(self).count(token) == capped(old(self).count(token) + 1),
            forall|k: u64| k != token ==> final(self).count(k) == old(self).count(k),
            old(self).total() < u32::MAX ==> final(self).total() == old(self).total() + 1,
    {
        self.add(token, 1);
    }

    /// Adds every count of `other` to this table.
    pub fn merge_from(&mut self, other: &Self)
        requires
            old(self).wf(),
            other.wf(),
        ensures
            final(self).wf(),
            forall|k: u64| #[trigger] final(self).count(k) == capped(old(self).count(k) + other.count(k)),
            old(self).total() + other.total() <= u32::MAX ==> final(self).total() == old(self).total()
                + other.total(),
    {
        let ghost s0 = *self;
        let n = other.entries.len();
        proof {
            assert forall|k: u64| #[trigger] self.count(k) == capped(s0.count(k) + entry_count(
                other.entries@.subrange(0, 0), k)) by {
                lemma_count_bounded(s0.entries@, k);
                assert(entry_count(other.entries@.subrange(0, 0), k) == 0);
            }
            assert(entry_total(other.entries@.subrange(0, 0)) == 0);
        }
        let mut i: usize = 0;
        while i < n
            invariant
                n == other.entries.len(),
                i <= n,
                self.wf(),
                other.wf(),
                forall|k: u64| #[trigger] self.count(k) == capped(s0.count(k) + entry_count(
                    other.entries@.subrange(0, i as int), k)),
                s0.total() + other.total() <= u32::MAX ==> self.total() == s0.total() + entry_total(
                    other.entries@.subrange(0, i as int)),
            decreases n - i,
        {
            let (key, c) = other.entries[i];
            proof {
                let p = other.entries@.subrange(0, i as int);
                let q = other.entries@.subrange(0, i as int + 1);
                assert(q.drop_last() =~= p);
                lemma_total_append(q, other.entries@.subrange(i as int + 1, n as int));
                assert(q + other.entries@.subrange(i as int + 1, n as int) =~= other.entries@);
            }
            self.add(key, c);
            proof {
                let p = other.entries@.subrange(0, i as int);
                let q = other.entries@.subrange(0, i as int + 1);
                assert(q.drop_last() =~= p);
                assert(q.last() == (key, c));
                assert forall|j: int| 0 <= j < p.len() implies (#[trigger] p[j]).0 != key by {
                    assert(other.entries@[j].0 < other.entries@[i as int].0);
                }
                lemma_count_absent(p, key);
                assert forall|k: u64| #[trigger] self.count(k) == capped(s0.count(k) + entry_count(q, k)) by {
                    if k != key {
                        assert(entry_count(q, k) == entry_count(p, k));
                    } else {
                        lemma_capped_add((s0.count(k) + entry_count(p, k)) as nat, c as nat);
                    }
                }
            }
            i = i + 1;
        }
        proof {
            assert(other.entries@.subrange(0, n as int) =~= other.entries@);
        }
    }
}

} // verus!
