//! Count tables as sequences of `(key, count)` entries: the count of a key, the sum of
//! the counts, and how both change when an entry is replaced or inserted.

use vstd::prelude::*;

verus! {

/// No key occurs twice among the entries.
pub open spec fn distinct_keys<K>(e: Seq<(K, u32)>) -> bool {
    forall|i: int, j: int| 0 <= i < j < e.len() ==> (#[trigger] e[i]).0 != (#[trigger] e[j]).0
}

/// The count that `e` gives `k`: that of its entry for `k`, or 0 if it has none.
pub open spec fn entry_count<K>(e: Seq<(K, u32)>, k: K) -> nat
    decreases e.len(),
{
    if e.len() == 0 {
        0
    } else if e.last().0 == k {
        e.last().1 as nat
    } else {
        entry_count(e.drop_last(), k)
    }
}

/// The sum of the counts of `e`.
pub open spec fn entry_total<K>(e: Seq<(K, u32)>) -> nat
    decreases e.len(),
{
    if e.len() == 0 {
        0
    } else {
        entry_total(e.drop_last()) + e.last().1 as nat
    }
}

pub proof fn lemma_count_found<K>(e: Seq<(K, u32)>, i: int)
    requires
        distinct_keys(e),
        0 <= i < e.len(),
    ensures
        entry_count(e, e[i].0) == e[i].1,
    decreases e.len(),
{
    if i < e.len() - 1 {
        lemma_count_found(e.drop_last(), i);
    }
}

pub proof fn lemma_count_absent<K>(e: Seq<(K, u32)>, k: K)
    requires
        forall|i: int| 0 <= i < e.len() ==> (#[trigger] e[i]).0 != k,
    ensures
        entry_count(e, k) == 0,
    decreases e.len(),
{
    if e.len() > 0 {
        lemma_count_absent(e.drop_last(), k);
    }
}

/// In a sorted table, the count of `k` is that of its entry if any, else 0.
/// With distinct keys, the count of `k` is that of its entry if it has one, else 0.
pub proof fn lemma_count<K>(e: Seq<(K, u32)>, k: K)
    requires
        distinct_keys(e),
    ensures
        forall|i: int| 0 <= i < e.len() && (#[trigger] e[i]).0 == k ==> entry_count(e, k) == e[i].1,
        (forall|i: int| 0 <= i < e.len() ==> (#[trigger] e[i]).0 != k) ==> entry_count(e, k) == 0,
{
    assert forall|i: int| 0 <= i < e.len() && (#[trigger] e[i]).0 == k implies entry_count(e, k)
        == e[i].1 by {
        lemma_count_found(e, i);
    }
    if forall|i: int| 0 <= i < e.len() ==> (#[trigger] e[i]).0 != k {
        lemma_count_absent(e, k);
    }
}

pub proof fn lemma_total_append<K>(a: Seq<(K, u32)>, b: Seq<(K, u32)>)
    ensures
        entry_total(a + b) == entry_total(a) + entry_total(b),
    decreases b.len(),
{
    if b.len() == 0 {
        assert(a + b =~= a);
    } else {
        lemma_total_append(a, b.drop_last());
        assert((a + b).drop_last() =~= a + b.drop_last());
    }
}

pub proof fn lemma_total_single<K>(x: (K, u32))
    ensures
        entry_total(seq![x]) == x.1,
{
    assert(seq![x].drop_last() =~= Seq::<(K, u32)>::empty());
    assert(entry_total(Seq::<(K, u32)>::empty()) == 0);
}

pub proof fn lemma_count_bounded<K>(e: Seq<(K, u32)>, k: K)
    ensures
        entry_count(e, k) <= u32::MAX,
    decreases e.len(),
{
    if e.len() > 0 {
        lemma_count_bounded(e.drop_last(), k);
    }
}

pub proof fn lemma_total_update<K>(e: Seq<(K, u32)>, i: int, x: (K, u32))
    requires
        0 <= i < e.len(),
    ensures
        entry_total(e.update(i, x)) + e[i].1 == entry_total(e) + x.1,
{
    let a = e.subrange(0, i);
    let c = e.subrange(i + 1, e.len() as int);
    assert(e =~= a + seq![e[i]] + c);
    assert(e.update(i, x) =~= a + seq![x] + c);
    lemma_total_append(a + seq![e[i]], c);
    lemma_total_append(a, seq![e[i]]);
    lemma_total_append(a + seq![x], c);
    lemma_total_append(a, seq![x]);
    lemma_total_single(x);
    lemma_total_single(e[i]);
}

pub proof fn lemma_total_insert<K>(e: Seq<(K, u32)>, i: int, x: (K, u32))
    requires
        0 <= i <= e.len(),
    ensures
        entry_total(e.insert(i, x)) == entry_total(e) + x.1,
{
    let a = e.subrange(0, i);
    let c = e.subrange(i, e.len() as int);
    assert(e =~= a + c);
    assert(e.insert(i, x) =~= a + seq![x] + c);
    lemma_total_append(a + seq![x], c);
    lemma_total_append(a, seq![x]);
    lemma_total_append(a, c);
    lemma_total_single(x);
}

pub proof fn lemma_count_le_total<K>(e: Seq<(K, u32)>, k: K)
    ensures
        entry_count(e, k) <= entry_total(e),
    decreases e.len(),
{
    if e.len() > 0 {
        lemma_count_le_total(e.drop_last(), k);
    }
}


/// Replacing the count of an existing key changes that key's count only.
pub proof fn lemma_count_after_update<K>(e: Seq<(K, u32)>, i: int, c: u32)
    requires
        distinct_keys(e),
        0 <= i < e.len(),
    ensures
        distinct_keys(e.update(i, (e[i].0, c))),
        entry_count(e.update(i, (e[i].0, c)), e[i].0) == c,
        forall|k: K| k != e[i].0 ==> entry_count(e.update(i, (e[i].0, c)), k) == entry_count(e, k),
{
    let e1 = e.update(i, (e[i].0, c));
    assert(distinct_keys(e1)) by {
        assert forall|a: int, b: int| 0 <= a < b < e1.len() implies (#[trigger] e1[a]).0 != (
        #[trigger] e1[b]).0 by {
            assert(e1[a].0 == e[a].0 && e1[b].0 == e[b].0);
        }
    }
    lemma_count_found(e1, i);
    assert forall|k: K| k != e[i].0 implies entry_count(e1, k) == entry_count(e, k) by {
        lemma_count(e1, k);
        lemma_count(e, k);
        if exists|j: int| 0 <= j < e.len() && (#[trigger] e[j]).0 == k {
            let j = choose|j: int| 0 <= j < e.len() && (#[trigger] e[j]).0 == k;
            assert(e1[j].0 == k);
        } else {
            assert forall|j: int| 0 <= j < e1.len() implies (#[trigger] e1[j]).0 != k by {
                if j != i {
                    assert(e1[j] == e[j]);
                }
            }
        }
    }
}

/// Inserting an entry for a new key gives that key its count and changes no other.
pub proof fn lemma_count_after_insert<K>(e: Seq<(K, u32)>, i: int, x: (K, u32))
    requires
        distinct_keys(e.insert(i, x)),
        0 <= i <= e.len(),
    ensures
        entry_count(e.insert(i, x), x.0) == x.1,
        forall|k: K| k != x.0 ==> entry_count(e.insert(i, x), k) == entry_count(e, k),
{
    let e1 = e.insert(i, x);
    assert(distinct_keys(e)) by {
        assert forall|a: int, b: int| 0 <= a < b < e.len() implies (#[trigger] e[a]).0 != (
        #[trigger] e[b]).0 by {
            let a1 = if a < i { a } else { a + 1 };
            let b1 = if b < i { b } else { b + 1 };
            assert(e1[a1] == e[a] && e1[b1] == e[b]);
        }
    }
    lemma_count_found(e1, i);
    assert forall|k: K| k != x.0 implies entry_count(e1, k) == entry_count(e, k) by {
        lemma_count(e1, k);
        lemma_count(e, k);
        if exists|j: int| 0 <= j < e.len() && (#[trigger] e[j]).0 == k {
            let j = choose|j: int| 0 <= j < e.len() && (#[trigger] e[j]).0 == k;
            if j < i {
                assert(e1[j].0 == k);
            } else {
                assert(e1[j + 1].0 == k);
            }
        } else {
            assert forall|j: int| 0 <= j < e1.len() implies (#[trigger] e1[j]).0 != k by {
                if j < i {
                    assert(e1[j] == e[j]);
                } else if j > i {
                    assert(e1[j] == e[j - 1]);
                }
            }
        }
    }
}

} // verus!
