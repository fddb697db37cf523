//! Stable ordering by a natural-number key, largest first.

use vstd::prelude::*;
use vstd::seq_lib::to_multiset_insert;

verus! {

/// `x` placed after every element of `s`, from the end, whose key is at least
/// its own: insertion that keeps equal keys in the order they arrived.
pub open spec fn ins_desc<T>(s: Seq<T>, x: T, key: spec_fn(T) -> nat) -> Seq<T>
    decreases s.len(),
{
    if s.len() == 0 {
        seq![x]
    } else if key(s.last()) >= key(x) {
        s.push(x)
    } else {
        ins_desc(s.drop_last(), x, key).push(s.last())
    }
}

/// The stable sort of `s` by `key`, largest first: elements with equal keys
/// keep their relative order in `s`.
pub open spec fn sort_desc<T>(s: Seq<T>, key: spec_fn(T) -> nat) -> Seq<T>
    decreases s.len(),
{
    if s.len() == 0 {
        s
    } else {
        ins_desc(sort_desc(s.drop_last(), key), s.last(), key)
    }
}

/// Keys do not increase along `s`.
pub open spec fn sorted_desc<T>(s: Seq<T>, key: spec_fn(T) -> nat) -> bool {
    forall|i: int, j: int| 0 <= i < j < s.len() ==> key(#[trigger] s[i]) >= key(#[trigger] s[j])
}

/// Where insertion puts `x`: after the last element whose key is at least its own.
pub open spec fn ins_pos<T>(s: Seq<T>, x: T, key: spec_fn(T) -> nat) -> int
    decreases s.len(),
{
    if s.len() == 0 {
        0
    } else if key(s.last()) >= key(x) {
        s.len() as int
    } else {
        ins_pos(s.drop_last(), x, key)
    }
}

/// Insertion at a position with only smaller keys after it and none before it is `ins_desc`.
pub proof fn lemma_ins_at<T>(s: Seq<T>, x: T, key: spec_fn(T) -> nat, j: int)
    requires
        0 <= j <= s.len(),
        forall|k: int| j <= k < s.len() ==> key(#[trigger] s[k]) < key(x),
        j == 0 || key(s[j - 1]) >= key(x),
    ensures
        ins_desc(s, x, key) == s.insert(j, x),
    decreases s.len(),
{
    if s.len() == 0 {
        assert(s.insert(j, x) =~= seq![x]);
    } else if j == s.len() {
        assert(s.insert(j, x) =~= s.push(x));
    } else {
        let p = s.drop_last();
        lemma_ins_at(p, x, key, j);
        assert(s.insert(j, x) =~= p.insert(j, x).push(s.last()));
    }
}

/// Inserting into a sorted sequence keeps it sorted and adds exactly `x`.
pub proof fn lemma_ins_sorted<T>(s: Seq<T>, x: T, key: spec_fn(T) -> nat)
    requires
        sorted_desc(s, key),
    ensures
        sorted_desc(ins_desc(s, x, key), key),
        ins_desc(s, x, key).to_multiset() == s.to_multiset().insert(x),
        ins_desc(s, x, key).len() == s.len() + 1,
    decreases s.len(),
{
    let j = ins_pos(s, x, key);
    lemma_ins_pos(s, x, key);
    lemma_ins_at(s, x, key, j);
    let r = s.insert(j, x);
    s.insert_ensures(j, x);
    assert forall|a: int, b: int| 0 <= a < b < r.len() implies key(#[trigger] r[a]) >= key(
        #[trigger] r[b],
    ) by {
        if b < j {
        } else if b == j {
        } else if a < j {
            assert(r[b] == s[b - 1]);
        } else if a == j {
            assert(r[b] == s[b - 1]);
        } else {
            assert(r[a] == s[a - 1]);
            assert(r[b] == s[b - 1]);
        }
    }
    to_multiset_insert(s, j, x);
}

/// The insertion position satisfies the conditions of `lemma_ins_at` when `s` is sorted.
pub proof fn lemma_ins_pos<T>(s: Seq<T>, x: T, key: spec_fn(T) -> nat)
    requires
        sorted_desc(s, key),
    ensures
        0 <= ins_pos(s, x, key) <= s.len(),
        forall|k: int| ins_pos(s, x, key) <= k < s.len() ==> key(#[trigger] s[k]) < key(x),
        ins_pos(s, x, key) == 0 || key(s[ins_pos(s, x, key) - 1]) >= key(x),
    decreases s.len(),
{
    if s.len() > 0 && key(s.last()) < key(x) {
        let p = s.drop_last();
        lemma_ins_pos(p, x, key);
        assert forall|k: int| ins_pos(s, x, key) <= k < s.len() implies key(#[trigger] s[k]) < key(
            x,
        ) by {
            if k < p.len() {
                assert(s[k] == p[k]);
            }
        }
    }
}

/// The sort is sorted and rearranges `s` without adding or losing an element.
pub proof fn lemma_sort_desc<T>(s: Seq<T>, key: spec_fn(T) -> nat)
    ensures
        sorted_desc(sort_desc(s, key), key),
        sort_desc(s, key).to_multiset() == s.to_multiset(),
        sort_desc(s, key).len() == s.len(),
    decreases s.len(),
{
    broadcast use vstd::seq_lib::group_to_multiset_ensures;

    if s.len() > 0 {
        let p = s.drop_last();
        lemma_sort_desc(p, key);
        lemma_ins_sorted(sort_desc(p, key), s.last(), key);
        assert(s =~= p.push(s.last()));
    }
}

/// Sorting a sequence that is already sorted changes nothing.
pub proof fn lemma_sort_sorted<T>(s: Seq<T>, key: spec_fn(T) -> nat)
    requires
        sorted_desc(s, key),
    ensures
        sort_desc(s, key) == s,
    decreases s.len(),
{
    if s.len() > 0 {
        let p = s.drop_last();
        lemma_sort_sorted(p, key);
        assert(s =~= p.push(s.last()));
        if p.len() == 0 {
            assert(s =~= seq![s.last()]);
        } else {
            assert(key(p.last()) >= key(s.last()));
        }
    }
}

} // verus!
