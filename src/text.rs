//! Characters and tokens: the model that every count is stated over.

use vstd::prelude::*;

verus! {

/// Unicode's White_Space property, as `char::is_whitespace` documents it.
pub open spec fn is_white(c: char) -> bool {
    let u = c as u32;
    (0x9 <= u && u <= 0xd) || u == 0x20 || u == 0x85 || u == 0xa0 || u == 0x1680
        || (0x2000 <= u && u <= 0x200a) || u == 0x2028 || u == 0x2029 || u == 0x202f
        || u == 0x205f || u == 0x3000
}

/// Whether `char::is_alphanumeric` holds of a character (letters or digits of any script).
pub uninterp spec fn alnum(c: char) -> bool;

/// Relies on `char::is_whitespace`: true exactly on the White_Space characters.
#[verifier::external_body]
pub(crate) fn white(c: char) -> (r: bool)
    ensures
        r == is_white(c),
{
    c.is_whitespace()
}

/// Relies on `char::is_alphanumeric`, which depends on the character alone.
#[verifier::external_body]
pub(crate) fn alphanumeric(c: char) -> (r: bool)
    ensures
        r == alnum(c),
{
    c.is_alphanumeric()
}

/// Relies on `String::push`: appends one character.
#[verifier::external_body]
pub(crate) fn push_char(s: &mut String, c: char)
    ensures
        final(s)@ == old(s)@.push(c),
{
    s.push(c)
}

/// The characters of a string, in order.
pub fn chars_of(text: &str) -> (r: Vec<char>)
    ensures
        r@ == text@,
{
    let mut r: Vec<char> = Vec::new();
    for c in it: text.chars()
        invariant
            r@ == it.seq().take(it.index() as int),
            it.seq() == text@,
    {
        r.push(c);
    }
    r
}

/// The maximal runs of non-whitespace characters of `s`, in order.
pub open spec fn tokens(s: Seq<char>) -> Seq<Seq<char>>
    decreases s.len(),
{
    if s.len() == 0 {
        Seq::empty()
    } else {
        let t = tokens(s.drop_last());
        let c = s.last();
        if is_white(c) {
            t
        } else if s.len() >= 2 && !is_white(s[s.len() - 2]) {
            t.update(t.len() - 1, t.last().push(c))
        } else {
            t.push(seq![c])
        }
    }
}

/// The number of characters of `s` that are not whitespace.
pub open spec fn non_white(s: Seq<char>) -> nat
    decreases s.len(),
{
    if s.len() == 0 {
        0
    } else {
        non_white(s.drop_last()) + if is_white(s.last()) { 0nat } else { 1nat }
    }
}

/// The number of newline characters of `s`.
pub open spec fn newlines(s: Seq<char>) -> nat
    decreases s.len(),
{
    if s.len() == 0 {
        0
    } else {
        newlines(s.drop_last()) + if s.last() == '\n' { 1nat } else { 0nat }
    }
}

/// The number of lines: one per newline, and one more for a last line without one.
pub open spec fn lines_in(s: Seq<char>) -> nat {
    newlines(s) + if s.len() > 0 && s.last() != '\n' { 1nat } else { 0nat }
}

/// The sum of the lengths of a sequence of words.
pub open spec fn total_len(t: Seq<Seq<char>>) -> nat
    decreases t.len(),
{
    if t.len() == 0 {
        0
    } else {
        total_len(t.drop_last()) + t.last().len()
    }
}

/// `w` with every character that is not alphanumeric removed, order kept.
pub open spec fn clean(w: Seq<char>) -> Seq<char>
    decreases w.len(),
{
    if w.len() == 0 {
        w
    } else if alnum(w.last()) {
        clean(w.drop_last()).push(w.last())
    } else {
        clean(w.drop_last())
    }
}

/// Every character of `w` is alphanumeric.
pub open spec fn all_alnum(w: Seq<char>) -> bool {
    forall|i: int| 0 <= i < w.len() ==> alnum(#[trigger] w[i])
}

/// A non-empty text has a token in progress exactly when its last character is
/// not whitespace; that token is the last one.
pub proof fn lemma_tokens_last(s: Seq<char>)
    ensures
        s.len() > 0 && !is_white(s.last()) ==> tokens(s).len() > 0,
    decreases s.len(),
{
    if s.len() > 0 {
        lemma_tokens_last(s.drop_last());
    }
}

/// Each word of a sequence of tokens, cleaned.
pub open spec fn clean_all(ws: Seq<Seq<char>>) -> Seq<Seq<char>> {
    ws.map_values(|w: Seq<char>| clean(w))
}

/// There are no more tokens than characters.
pub proof fn lemma_tokens_len(s: Seq<char>)
    ensures
        tokens(s).len() <= s.len(),
    decreases s.len(),
{
    if s.len() > 0 {
        lemma_tokens_last(s.drop_last());
        lemma_tokens_len(s.drop_last());
    }
}

/// The token lengths add up to the number of non-whitespace characters.
pub proof fn lemma_total_len_non_white(s: Seq<char>)
    ensures
        total_len(tokens(s)) == non_white(s),
    decreases s.len(),
{
    if s.len() > 0 {
        let p = s.drop_last();
        lemma_total_len_non_white(p);
        lemma_tokens_last(p);
        let t = tokens(p);
        let c = s.last();
        if !is_white(c) && s.len() >= 2 && !is_white(s[s.len() - 2]) {
            let u = t.update(t.len() - 1, t.last().push(c));
            assert(u.drop_last() =~= t.drop_last());
        } else if !is_white(c) {
            assert(t.push(seq![c]).drop_last() =~= t);
        }
    }
}

/// Whitespace runs are interchangeable: doubling a whitespace character of a
/// text leaves its number of words unchanged.
pub proof fn repeated_whitespace_keeps_word_count(s: Seq<char>, i: int, c: char)
    requires
        0 <= i < s.len(),
        is_white(s[i]),
        is_white(c),
    ensures
        tokens(s.insert(i + 1, c)).len() == tokens(s).len(),
    decreases s.len(),
{
    let u = s.insert(i + 1, c);
    if i + 1 == s.len() {
        assert(u.drop_last() =~= s);
        assert(u.last() == c);
    } else {
        let p = s.drop_last();
        assert(u.drop_last() =~= p.insert(i + 1, c));
        assert(u.last() == s.last());
        assert(p[i] == s[i]);
        repeated_whitespace_keeps_word_count(p, i, c);
        assert(s.len() >= 2);
        if i + 1 == s.len() - 1 {
            assert(u[u.len() - 2] == c);
        } else {
            assert(u[u.len() - 2] == s[s.len() - 2]);
        }
        lemma_tokens_last(p);
        lemma_tokens_last(u.drop_last());
    }
}

} // verus!
