//! Word frequencies: a tally in order of first appearance, and its ranking.

use vstd::prelude::*;
use vstd::seq_lib::to_multiset_contains;
use crate::order::{
    ins_desc, ins_pos, lemma_ins_at, lemma_ins_pos, lemma_sort_desc, sort_desc, sorted_desc,
};

verus! {

/// A word and how often it occurs.
pub type Entry = (Seq<char>, nat);

/// The model of a list of (word, count) pairs.
pub open spec fn entries_view(v: Seq<(String, usize)>) -> Seq<Entry> {
    v.map_values(|e: (String, usize)| (e.0@, e.1 as nat))
}

/// The count of an entry: the key that frequencies are ranked by.
pub open spec fn count_of() -> spec_fn(Entry) -> nat {
    |e: Entry| e.1
}

/// Index of the last entry whose word is `w`, or -1 when there is none.
pub open spec fn key_index(acc: Seq<Entry>, w: Seq<char>) -> int
    decreases acc.len(),
{
    if acc.len() == 0 {
        -1
    } else if acc.last().0 == w {
        acc.len() - 1
    } else {
        key_index(acc.drop_last(), w)
    }
}

/// `acc` with `n` more occurrences of `w`: its entry grows, or a new one is
/// appended at the end.
pub open spec fn tally_add(acc: Seq<Entry>, w: Seq<char>, n: nat) -> Seq<Entry> {
    let k = key_index(acc, w);
    if k >= 0 {
        acc.update(k, (w, acc[k].1 + n))
    } else {
        acc.push((w, n))
    }
}

/// The occurrences of each non-empty word of `ws`, in order of first appearance.
pub open spec fn tally(ws: Seq<Seq<char>>) -> Seq<Entry>
    decreases ws.len(),
{
    if ws.len() == 0 {
        Seq::empty()
    } else if ws.last().len() == 0 {
        tally(ws.drop_last())
    } else {
        tally_add(tally(ws.drop_last()), ws.last(), 1)
    }
}

/// The first `n` entries of the stable ranking of `acc` by count, largest first.
pub open spec fn top_entries(acc: Seq<Entry>, n: nat) -> Seq<Entry> {
    let s = sort_desc(acc, count_of());
    if s.len() <= n {
        s
    } else {
        s.take(n as int)
    }
}

/// The key index is -1 or a valid index holding `w`.
pub proof fn lemma_key_index(acc: Seq<Entry>, w: Seq<char>)
    ensures
        -1 <= key_index(acc, w) < acc.len(),
        key_index(acc, w) >= 0 ==> acc[key_index(acc, w)].0 == w,
        key_index(acc, w) == -1 ==> forall|k: int| 0 <= k < acc.len() ==> (#[trigger] acc[k]).0 != w,
    decreases acc.len(),
{
    if acc.len() > 0 {
        let p = acc.drop_last();
        lemma_key_index(p, w);
        if key_index(acc, w) == -1 {
            assert forall|k: int| 0 <= k < acc.len() implies (#[trigger] acc[k]).0 != w by {
                if k < p.len() {
                    assert(acc[k] == p[k]);
                }
            }
        }
    }
}

/// No count in a tally exceeds the number of words tallied.
pub proof fn lemma_tally_bound(ws: Seq<Seq<char>>)
    ensures
        forall|k: int| 0 <= k < tally(ws).len() ==> #[trigger] tally(ws)[k].1 <= ws.len(),
        tally(ws).len() <= ws.len(),
    decreases ws.len(),
{
    if ws.len() > 0 {
        let p = ws.drop_last();
        lemma_tally_bound(p);
        lemma_key_index(tally(p), ws.last());
    }
}

/// The sum of the counts of a list of entries.
pub open spec fn entries_sum(es: Seq<Entry>) -> nat
    decreases es.len(),
{
    if es.len() == 0 {
        0
    } else {
        entries_sum(es.drop_last()) + es.last().1
    }
}

/// No single count exceeds the sum.
pub proof fn lemma_entry_le_sum(es: Seq<Entry>, k: int)
    requires
        0 <= k < es.len(),
    ensures
        es[k].1 <= entries_sum(es),
    decreases es.len(),
{
    if k < es.len() - 1 {
        lemma_entry_le_sum(es.drop_last(), k);
    }
}

/// Raising one count by `n` raises the sum by `n`.
proof fn lemma_sum_update(es: Seq<Entry>, k: int, e: Entry)
    requires
        0 <= k < es.len(),
    ensures
        entries_sum(es.update(k, e)) + es[k].1 == entries_sum(es) + e.1,
    decreases es.len(),
{
    let u = es.update(k, e);
    if k < es.len() - 1 {
        lemma_sum_update(es.drop_last(), k, e);
        assert(u.drop_last() =~= es.drop_last().update(k, e));
    } else {
        assert(u.drop_last() =~= es.drop_last());
    }
}

/// Adding `n` occurrences adds `n` to the sum.
pub proof fn lemma_sum_tally_add(acc: Seq<Entry>, w: Seq<char>, n: nat)
    ensures
        entries_sum(tally_add(acc, w, n)) == entries_sum(acc) + n,
{
    lemma_key_index(acc, w);
    let k = key_index(acc, w);
    if k >= 0 {
        lemma_sum_update(acc, k, (w, acc[k].1 + n));
    } else {
        assert(acc.push((w, n)).drop_last() =~= acc);
    }
}

/// A tally counts each non-empty word once.
proof fn lemma_sum_tally(ws: Seq<Seq<char>>)
    ensures
        entries_sum(tally(ws)) <= ws.len(),
    decreases ws.len(),
{
    if ws.len() > 0 {
        lemma_sum_tally(ws.drop_last());
        lemma_sum_tally_add(tally(ws.drop_last()), ws.last(), 1);
    }
}

/// Insertion adds the inserted count.
proof fn lemma_sum_ins(s: Seq<Entry>, x: Entry)
    ensures
        entries_sum(ins_desc(s, x, count_of())) == entries_sum(s) + x.1,
    decreases s.len(),
{
    if s.len() == 0 {
        assert(seq![x].drop_last() =~= Seq::<Entry>::empty());
        assert(entries_sum(Seq::<Entry>::empty()) == 0);
        assert(ins_desc(s, x, count_of()) == seq![x]);
    } else if s.last().1 >= x.1 {
        assert(ins_desc(s, x, count_of()) == s.push(x));
        assert(s.push(x).drop_last() =~= s);
    } else {
        lemma_sum_ins(s.drop_last(), x);
        let r = ins_desc(s.drop_last(), x, count_of());
        assert(ins_desc(s, x, count_of()) == r.push(s.last()));
        assert(r.push(s.last()).drop_last() =~= r);
    }
}

/// Sorting keeps the sum.
proof fn lemma_sum_sort(s: Seq<Entry>)
    ensures
        entries_sum(sort_desc(s, count_of())) == entries_sum(s),
    decreases s.len(),
{
    if s.len() > 0 {
        lemma_sum_sort(s.drop_last());
        lemma_sum_ins(sort_desc(s.drop_last(), count_of()), s.last());
    }
}

/// A prefix sums to no more than the whole.
pub proof fn lemma_sum_take(s: Seq<Entry>, n: int)
    requires
        0 <= n <= s.len(),
    ensures
        entries_sum(s.take(n)) <= entries_sum(s),
    decreases s.len(),
{
    if n < s.len() {
        lemma_sum_take(s.drop_last(), n);
        assert(s.drop_last().take(n) =~= s.take(n));
    } else {
        assert(s.take(n) =~= s);
    }
}

/// The top entries of a tally of `ws` count at most `ws.len()` occurrences.
pub proof fn lemma_sum_top(ws: Seq<Seq<char>>, n: nat)
    ensures
        entries_sum(top_entries(tally(ws), n)) <= ws.len(),
{
    lemma_sum_tally(ws);
    lemma_sum_sort(tally(ws));
    let s = sort_desc(tally(ws), count_of());
    if s.len() > n {
        lemma_sum_take(s, n as int);
    }
}

/// Finds the entry of `w` in `acc`, searching from the end.
pub(crate) fn find_key(acc: &Vec<(String, usize)>, w: &String) -> (r: Option<usize>)
    ensures
        match r {
            Some(k) => key_index(entries_view(acc@), w@) == k && k < acc@.len() && acc@[k as int].0@
                == w@,
            None => key_index(entries_view(acc@), w@) == -1,
        },
{
    let ghost s = entries_view(acc@);
    let mut j: usize = acc.len();
    assert(s.take(j as int) =~= s);
    while j > 0
        invariant
            j <= acc@.len(),
            s == entries_view(acc@),
            key_index(s, w@) == key_index(s.take(j as int), w@),
        decreases j,
    {
        assert(s.take(j as int).drop_last() =~= s.take(j - 1));
        if acc[j - 1].0 == *w {
            return Some(j - 1);
        }
        j -= 1;
    }
    None
}

/// Adds `n` occurrences of `w` to the tally `acc`.
pub(crate) fn tally_word(acc: &mut Vec<(String, usize)>, w: String, n: usize)
    requires
        forall|k: int|
            0 <= k < old(acc)@.len() ==> #[trigger] old(acc)@[k].1 + n <= usize::MAX,
    ensures
        entries_view(final(acc)@) == tally_add(entries_view(old(acc)@), w@, n as nat),
{
    let ghost s = entries_view(acc@);
    match find_key(acc, &w) {
        Some(k) => {
            let c = acc[k].1;
            acc.set(k, (w, c + n));
            assert(entries_view(acc@) =~= s.update(k as int, (w@, (s[k as int].1 + n) as nat)));
        },
        None => {
            acc.push((w, n));
            assert(entries_view(acc@) =~= s.push((w@, n as nat)));
        },
    }
}

/// A copy of a list of entries.
pub(crate) fn copy_entries(v: &Vec<(String, usize)>) -> (r: Vec<(String, usize)>)
    ensures
        entries_view(r@) == entries_view(v@),
{
    let mut r: Vec<(String, usize)> = Vec::new();
    let mut i: usize = 0;
    while i < v.len()
        invariant
            i <= v@.len(),
            entries_view(r@) == entries_view(v@.take(i as int)),
        decreases v@.len() - i,
    {
        let e = (v[i].0.clone(), v[i].1);
        assert(e.0@ == v@[i as int].0@);
        let ghost before = r@;
        r.push(e);
        assert(r@ == before.push(e));
        assert(entries_view(v@.take(i + 1)) =~= entries_view(v@.take(i as int)).push(
            (e.0@, e.1 as nat),
        ));
        assert(entries_view(r@) =~= entries_view(before).push((e.0@, e.1 as nat)));
        i += 1;
    }
    assert(v@.take(i as int) =~= v@);
    r
}

/// The entries ranked by count, largest first; equal counts keep their order.
pub(crate) fn sort_by_count(v: &Vec<(String, usize)>) -> (r: Vec<(String, usize)>)
    ensures
        entries_view(r@) == sort_desc(entries_view(v@), count_of()),
{
    let ghost s = entries_view(v@);
    let mut r: Vec<(String, usize)> = Vec::new();
    let mut i: usize = 0;
    while i < v.len()
        invariant
            i <= v@.len(),
            s == entries_view(v@),
            entries_view(r@) == sort_desc(s.take(i as int), count_of()),
        decreases v@.len() - i,
    {
        assert(s.take(i + 1).drop_last() =~= s.take(i as int));
        let x = (v[i].0.clone(), v[i].1);
        let ghost rv = entries_view(r@);
        let mut j: usize = r.len();
        while j > 0 && r[j - 1].1 < x.1
            invariant
                j <= r@.len(),
                rv == entries_view(r@),
                forall|k: int| j <= k < rv.len() ==> (#[trigger] rv[k]).1 < x.1,
            decreases j,
        {
            j -= 1;
        }
        proof {
            lemma_ins_at(rv, (x.0@, x.1 as nat), count_of(), j as int);
        }
        r.insert(j, x);
        assert(entries_view(r@) =~= rv.insert(j as int, (x.0@, x.1 as nat)));
        i += 1;
    }
    assert(s.take(i as int) =~= s);
    r
}

/// No word appears in two entries.
pub open spec fn distinct_words(es: Seq<Entry>) -> bool {
    forall|i: int, j: int| 0 <= i < j < es.len() ==> (#[trigger] es[i]).0 != (#[trigger] es[j]).0
}

/// A tally holds each word once.
pub proof fn lemma_tally_distinct(ws: Seq<Seq<char>>)
    ensures
        distinct_words(tally(ws)),
    decreases ws.len(),
{
    if ws.len() > 0 {
        let acc = tally(ws.drop_last());
        lemma_tally_distinct(ws.drop_last());
        lemma_key_index(acc, ws.last());
    }
}

/// Sorting keeps the words distinct.
pub proof fn lemma_sort_distinct(s: Seq<Entry>)
    requires
        distinct_words(s),
    ensures
        distinct_words(sort_desc(s, count_of())),
    decreases s.len(),
{
    if s.len() > 0 {
        let p = s.drop_last();
        let x = s.last();
        lemma_sort_distinct(p);
        lemma_sort_desc(p, count_of());
        let q = sort_desc(p, count_of());
        assert forall|i: int| 0 <= i < q.len() implies (#[trigger] q[i]).0 != x.0 by {
            to_multiset_contains(q, q[i]);
            to_multiset_contains(p, q[i]);
            assert(q.contains(q[i]));
            assert(p.contains(q[i]));
            let k = choose|k: int| 0 <= k < p.len() && p[k] == q[i];
            assert(s[k] == p[k]);
        }
        let j = ins_pos(q, x, count_of());
        lemma_ins_pos(q, x, count_of());
        lemma_ins_at(q, x, count_of(), j);
        q.insert_ensures(j, x);
        let r = q.insert(j, x);
        assert forall|a: int, b: int| 0 <= a < b < r.len() implies (#[trigger] r[a]).0 != (
        #[trigger] r[b]).0 by {
            if b < j {
            } else if b == j {
            } else if a < j {
                assert(r[b] == q[b - 1]);
            } else if a == j {
                assert(r[b] == q[b - 1]);
            } else {
                assert(r[a] == q[a - 1]);
                assert(r[b] == q[b - 1]);
            }
        }
    }
}

/// The top entries of a tally are ranked and hold each word once.
pub proof fn lemma_top_entries(ws: Seq<Seq<char>>, n: nat)
    ensures
        sorted_desc(top_entries(tally(ws), n), count_of()),
        distinct_words(top_entries(tally(ws), n)),
        top_entries(tally(ws), n).len() <= n,
{
    lemma_tally_distinct(ws);
    lemma_sort_distinct(tally(ws));
    lemma_sort_desc(tally(ws), count_of());
}

} // verus!
