//! Finding the lines of a text that contain a given string.

use vstd::prelude::*;
use crate::text::chars_of;

verus! {

/// The pieces of `s` between newline characters; there is always at least one.
pub open spec fn pieces(s: Seq<char>) -> Seq<Seq<char>>
    decreases s.len(),
{
    if s.len() == 0 {
        seq![Seq::empty()]
    } else {
        let t = pieces(s.drop_last());
        let c = s.last();
        if c == '\n' {
            t.push(Seq::empty())
        } else {
            t.update(t.len() - 1, t.last().push(c))
        }
    }
}

/// A line that ended in a newline loses a carriage return before it.
pub open spec fn strip_cr(w: Seq<char>) -> Seq<char> {
    if w.len() > 0 && w.last() == '\r' {
        w.drop_last()
    } else {
        w
    }
}

/// The lines of `s`: the pieces ended by a newline, each without a trailing
/// carriage return, then the last piece if it is not empty.
pub open spec fn lines_of(s: Seq<char>) -> Seq<Seq<char>> {
    let p = pieces(s);
    let full = p.drop_last().map_values(|w: Seq<char>| strip_cr(w));
    if p.last().len() > 0 {
        full.push(p.last())
    } else {
        full
    }
}

/// `w` occurs in `line` at position `i`.
pub open spec fn occurs_at(line: Seq<char>, w: Seq<char>, i: int) -> bool {
    0 <= i && i + w.len() <= line.len() && line.subrange(i, i + w.len()) == w
}

/// `w` occurs somewhere in `line`.
pub open spec fn contains(line: Seq<char>, w: Seq<char>) -> bool {
    exists|i: int| occurs_at(line, w, i)
}

/// The numbers, counted from 1, of the lines of `ls` that contain `w`, in order.
pub open spec fn matching(ls: Seq<Seq<char>>, w: Seq<char>) -> Seq<nat>
    decreases ls.len(),
{
    if ls.len() == 0 {
        Seq::empty()
    } else if contains(ls.last(), w) {
        matching(ls.drop_last(), w).push(ls.len())
    } else {
        matching(ls.drop_last(), w)
    }
}

/// Whether `w` occurs in `line[from..to]`.
fn contains_in(line: &Vec<char>, from: usize, to: usize, w: &Vec<char>) -> (r: bool)
    requires
        from <= to <= line@.len(),
    ensures
        r == contains(line@.subrange(from as int, to as int), w@),
{
    let ghost l = line@.subrange(from as int, to as int);
    let n = to - from;
    if w.len() > n {
        proof {
            assert forall|i: int| !occurs_at(l, w@, i) by {}
        }
        return false;
    }
    let last = n - w.len();
    let mut i: usize = 0;
    loop
        invariant
            n == to - from,
            from <= to <= line@.len(),
            w@.len() <= n,
            last == n - w@.len(),
            i <= last,
            l == line@.subrange(from as int, to as int),
            forall|k: int| 0 <= k < i ==> !occurs_at(l, w@, k),
        decreases last - i,
    {
        let mut j: usize = 0;
        while j < w.len() && line[from + i + j] == w[j]
            invariant
                j <= w@.len(),
                n == to - from,
                from <= to <= line@.len(),
                i + w@.len() <= n,
                l == line@.subrange(from as int, to as int),
                forall|k: int| 0 <= k < j ==> l[i + k] == w@[k],
            decreases w@.len() - j,
        {
            j += 1;
        }
        if j == w.len() {
            assert(l.subrange(i as int, i + w@.len()) =~= w@);
            assert(occurs_at(l, w@, i as int));
            return true;
        }
        assert(l[i + j] != w@[j as int]);
        assert(l.subrange(i as int, i + w@.len())[j as int] != w@[j as int]);
        if i == last {
            proof {
                assert forall|k: int| !occurs_at(l, w@, k) by {
                    if occurs_at(l, w@, k) {
                        assert(k <= i);
                    }
                }
            }
            return false;
        }
        i += 1;
    }
}

/// The numbers, counted from 1, of the lines of `content` that contain `word`.
pub fn find_word_lines(content: &str, word: &str) -> (r: Vec<usize>)
    ensures
        r@.map_values(|n: usize| n as nat) == matching(lines_of(content@), word@),
{
    let s = chars_of(content);
    let w = chars_of(word);
    let mut r: Vec<usize> = Vec::new();
    let mut start: usize = 0;
    let mut line_no: usize = 0;
    let mut i: usize = 0;
    while i < s.len()
        invariant
            i <= s@.len(),
            start <= i,
            s@ == content@,
            w@ == word@,
            line_no <= start,
            pieces(s@.take(i as int)).len() == line_no + 1,
            pieces(s@.take(i as int)).last() == s@.subrange(start as int, i as int),
            r@.map_values(|n: usize| n as nat) == matching(
                pieces(s@.take(i as int)).drop_last().map_values(|x: Seq<char>| strip_cr(x)),
                w@,
            ),
        decreases s@.len() - i,
    {
        let ghost p = pieces(s@.take(i as int));
        assert(s@.take(i + 1).drop_last() =~= s@.take(i as int));
        if s[i] == '\n' {
            let mut end = i;
            if end > start && s[end - 1] == '\r' {
                end = end - 1;
            }
            assert(s@.subrange(start as int, end as int) =~= strip_cr(p.last()));
            let found = contains_in(&s, start, end, &w);
            let ghost full = p.drop_last().map_values(|x: Seq<char>| strip_cr(x));
            let ghost p2 = p.push(Seq::<char>::empty());
            assert(p2.drop_last().map_values(|x: Seq<char>| strip_cr(x)) =~= full.push(
                strip_cr(p.last()),
            ));
            assert(full.push(strip_cr(p.last())).drop_last() =~= full);
            line_no = line_no + 1;
            if found {
                let ghost before = r@;
                r.push(line_no);
                assert(r@.map_values(|n: usize| n as nat) =~= before.map_values(
                    |n: usize| n as nat,
                ).push(line_no as nat));
            }
            start = i + 1;
            assert(s@.subrange(start as int, i + 1) =~= Seq::<char>::empty());
        } else {
            assert(s@.subrange(start as int, i + 1) =~= s@.subrange(start as int, i as int).push(
                s@[i as int],
            ));
            assert(p.update(p.len() - 1, p.last().push(s@[i as int])).drop_last() =~= p.drop_last());
        }
        i += 1;
    }
    assert(s@.take(i as int) =~= content@);
    let ghost p = pieces(content@);
    let ghost full = p.drop_last().map_values(|x: Seq<char>| strip_cr(x));
    if start < s.len() {
        let found = contains_in(&s, start, s.len(), &w);
        assert(full.push(p.last()).drop_last() =~= full);
        line_no = line_no + 1;
        if found {
            let ghost before = r@;
            r.push(line_no);
            assert(r@.map_values(|n: usize| n as nat) =~= before.map_values(|n: usize| n as nat).push(
                line_no as nat,
            ));
        }
    }
    r
}

} // verus!
