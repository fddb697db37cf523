//! One analysed text: its counts and its most frequent cleaned words.

use vstd::prelude::*;
use crate::text::{
    alnum, all_alnum, alphanumeric, chars_of, clean, clean_all, is_white, lemma_tokens_last,
    lemma_tokens_len, lemma_total_len_non_white, lines_in,
    newlines, non_white, push_char, tokens, total_len, white,
};

use crate::words::{copy_entries, entries_view, lemma_tally_bound, sort_by_count, tally, tally_word, top_entries};

verus! {

/// How many of the most frequent words a document keeps.
pub const TOP_WORDS: usize = 5;

/// The most frequent cleaned words of `s` with their counts: each
/// whitespace-separated token is cleaned, empty results are skipped, and the
/// tally is ranked by count, largest first, equal counts in order of first
/// appearance, and cut to `TOP_WORDS` entries.
pub open spec fn top_words(s: Seq<char>) -> Seq<(Seq<char>, nat)> {
    top_entries(tally(clean_all(tokens(s))), TOP_WORDS as nat)
}

/// An analysed document. Every derived field is a function of `content`
/// (see `DocModel::wf`); the fields are never changed after construction.
pub struct Document {
    pub name: String,
    pub content: String,
    pub word_count: usize,
    pub line_count: usize,
    pub cha_count: usize,
    pub com_words: Vec<(String, usize)>,
}

/// A text has no more newlines than characters.
proof fn lemma_newlines_bound(s: Seq<char>)
    ensures
        newlines(s) <= s.len(),
    decreases s.len(),
{
    if s.len() > 0 {
        lemma_newlines_bound(s.drop_last());
    }
}

/// The model of a document: its text, its name and the derived statistics.
pub struct DocModel {
    pub name: Seq<char>,
    pub content: Seq<char>,
    pub word_count: nat,
    pub line_count: nat,
    pub cha_count: nat,
    pub com_words: Seq<(Seq<char>, nat)>,
}

impl View for Document {
    type V = DocModel;

    open spec fn view(&self) -> DocModel {
        DocModel {
            name: self.name@,
            content: self.content@,
            word_count: self.word_count as nat,
            line_count: self.line_count as nat,
            cha_count: self.cha_count as nat,
            com_words: entries_view(self.com_words@),
        }
    }
}

impl DocModel {
    /// Every statistic is the one that the content determines.
    pub open spec fn wf(self) -> bool {
        &&& self.word_count == tokens(self.content).len()
        &&& self.line_count == lines_in(self.content)
        &&& self.cha_count == non_white(self.content)
        &&& self.com_words == top_words(self.content)
    }
}

impl Document {
    /// Analyses `text`, the content of the file named `file`.
    pub fn make_document(file: &str, text: &str) -> (r: Document)
        ensures
            r@.name == file@,
            r@.content == text@,
            r@.wf(),
    {
        Document {
            name: file.to_owned(),
            content: text.to_owned(),
            word_count: Self::count_words(text),
            line_count: Self::line_count(text),
            cha_count: Self::count_characters(text),
            com_words: Self::find_most_common_words(text),
        }
    }

    /// A copy of this document.
    pub fn copy(&self) -> (r: Document)
        ensures
            r@ == self@,
    {
        Document {
            name: self.name.clone(),
            content: self.content.clone(),
            word_count: self.word_count,
            line_count: self.line_count,
            cha_count: self.cha_count,
            com_words: copy_entries(&self.com_words),
        }
    }

    /// The total length of the document's tokens, which with `word_count`
    /// gives its average word length.
    pub fn word_length_total(&self) -> (r: usize)
        requires
            self@.wf(),
        ensures
            r == total_len(tokens(self@.content)),
    {
        proof {
            lemma_total_len_non_white(self@.content);
        }
        self.cha_count
    }

    /// Number of maximal runs of non-whitespace characters.
    pub fn count_words(text: &str) -> (r: usize)
        ensures
            r == tokens(text@).len(),
    {
        let s = chars_of(text);
        let mut count: usize = 0;
        let mut in_word = false;
        let mut i: usize = 0;
        while i < s.len()
            invariant
                i <= s@.len(),
                s@ == text@,
                count <= i,
                count == tokens(s@.take(i as int)).len(),
                in_word == (i > 0 && !is_white(s@[i - 1])),
            decreases s@.len() - i,
        {
            let ghost p = s@.take(i + 1);
            assert(p.drop_last() =~= s@.take(i as int));
            assert(p.last() == s@[i as int]);
            assert(i > 0 ==> p[p.len() - 2] == s@[i - 1]);
            proof {
                lemma_tokens_last(s@.take(i as int));
            }
            let c = s[i];
            if white(c) {
                in_word = false;
            } else if !in_word {
                count += 1;
                in_word = true;
            }
            i += 1;
        }
        assert(s@.take(i as int) =~= text@);
        count
    }

    /// Number of characters that are not whitespace.
    pub fn count_characters(text: &str) -> (r: usize)
        ensures
            r == non_white(text@),
    {
        let s = chars_of(text);
        let mut count: usize = 0;
        let mut i: usize = 0;
        while i < s.len()
            invariant
                i <= s@.len(),
                s@ == text@,
                count <= i,
                count == non_white(s@.take(i as int)),
            decreases s@.len() - i,
        {
            assert(s@.take(i + 1).drop_last() =~= s@.take(i as int));
            if !white(s[i]) {
                count += 1;
            }
            i += 1;
        }
        assert(s@.take(i as int) =~= text@);
        count
    }

    /// Number of lines: the newlines, plus one for a last line without one.
    pub fn line_count(text: &str) -> (r: usize)
        ensures
            r == lines_in(text@),
    {
        let s = chars_of(text);
        let mut count: usize = 0;
        let mut i: usize = 0;
        while i < s.len()
            invariant
                i <= s@.len(),
                s@ == text@,
                count <= i,
                count == newlines(s@.take(i as int)),
            decreases s@.len() - i,
        {
            assert(s@.take(i + 1).drop_last() =~= s@.take(i as int));
            if s[i] == '\n' {
                count += 1;
            }
            i += 1;
        }
        assert(s@.take(i as int) =~= text@);
        if s.len() > 0 && s[s.len() - 1] != '\n' {
            proof {
                lemma_newlines_bound(s@.drop_last());
            }
            count += 1;
        }
        count
    }

    /// The two terms of the average word length: the total length of the
    /// whitespace-separated tokens (punctuation kept) and their number. The
    /// average is the first divided by the second, or zero without tokens.
    pub fn word_length_totals(text: &str) -> (r: (usize, usize))
        ensures
            r.0 == total_len(tokens(text@)),
            r.1 == tokens(text@).len(),
    {
        proof {
            lemma_total_len_non_white(text@);
        }
        (Self::count_characters(text), Self::count_words(text))
    }

    /// The most frequent cleaned words of the text, with their counts.
    pub fn find_most_common_words(text: &str) -> (r: Vec<(String, usize)>)
        ensures
            entries_view(r@) == top_words(text@),
    {
        let s = chars_of(text);
        let mut acc: Vec<(String, usize)> = Vec::new();
        let mut cur = String::new();
        let mut in_word = false;
        let mut i: usize = 0;
        proof {
            lemma_tokens_len(text@);
        }
        while i < s.len()
            invariant
                i <= s@.len(),
                s@ == text@,
                tokens(text@).len() <= text@.len(),
                in_word == (i > 0 && !is_white(s@[i - 1])),
                in_word ==> tokens(s@.take(i as int)).len() > 0,
                in_word ==> cur@ == clean(tokens(s@.take(i as int)).last()),
                in_word ==> entries_view(acc@) == tally(
                    clean_all(tokens(s@.take(i as int)).drop_last()),
                ),
                !in_word ==> entries_view(acc@) == tally(clean_all(tokens(s@.take(i as int)))),
            decreases s@.len() - i,
        {
            let ghost p = s@.take(i as int);
            let ghost q = s@.take(i + 1);
            let ghost t = tokens(p);
            assert(q.drop_last() =~= p);
            assert(q.last() == s@[i as int]);
            assert(i > 0 ==> q[q.len() - 2] == s@[i - 1]);
            proof {
                lemma_tokens_last(p);
                lemma_tokens_len(p);
            }
            let c = s[i];
            if white(c) {
                if in_word {
                    proof {
                        assert(clean_all(t).drop_last() =~= clean_all(t.drop_last()));
                        lemma_tally_bound(clean_all(t.drop_last()));
                    }
                    assert forall|k: int| 0 <= k < acc@.len() implies #[trigger] acc@[k].1 + 1
                        <= usize::MAX by {
                        assert(entries_view(acc@)[k].1 == acc@[k].1 as nat);
                    }
                    if !cur.as_str().is_empty() {
                        let w = cur;
                        tally_word(&mut acc, w, 1);
                    }
                    cur = String::new();
                }
                in_word = false;
            } else if in_word {
                let ghost u = t.update(t.len() - 1, t.last().push(c));
                assert(u.drop_last() =~= t.drop_last());
                assert(t.last().push(c).drop_last() =~= t.last());
                assert(tokens(q) == u);
                assert(u.last() == t.last().push(c));
                assert(t.last().push(c).last() == c);
                if alphanumeric(c) {
                    push_char(&mut cur, c);
                }
                assert(cur@ == clean(tokens(q).last()));
            } else {
                assert(t.push(seq![c]).drop_last() =~= t);
                assert(seq![c].drop_last() =~= Seq::<char>::empty());
                assert(tokens(q) == t.push(seq![c]));
                assert(seq![c].last() == c);
                cur = String::new();
                assert(clean(Seq::<char>::empty()) =~= Seq::<char>::empty());
                assert(Seq::<char>::empty().push(c) =~= seq![c]);
                if alphanumeric(c) {
                    push_char(&mut cur, c);
                }
                assert(cur@ == clean(tokens(q).last()));
                in_word = true;
            }
            i += 1;
        }
        assert(s@.take(i as int) =~= text@);
        if in_word {
            let ghost t = tokens(text@);
            proof {
                assert(clean_all(t).drop_last() =~= clean_all(t.drop_last()));
                lemma_tally_bound(clean_all(t.drop_last()));
            }
            assert forall|k: int| 0 <= k < acc@.len() implies #[trigger] acc@[k].1 + 1
                <= usize::MAX by {
                assert(entries_view(acc@)[k].1 == acc@[k].1 as nat);
            }
            if !cur.as_str().is_empty() {
                tally_word(&mut acc, cur, 1);
            }
        }
        let mut r = sort_by_count(&acc);
        if r.len() > TOP_WORDS {
            r.truncate(TOP_WORDS);
        }
        r
    }

    /// True iff every character is alphanumeric; the empty word is valid.
    pub fn is_valid_word(word: &str) -> (r: bool)
        ensures
            r == all_alnum(word@),
    {
        let s = chars_of(word);
        let mut i: usize = 0;
        while i < s.len()
            invariant
                i <= s@.len(),
                s@ == word@,
                forall|j: int| 0 <= j < i ==> alnum(#[trigger] s@[j]),
            decreases s@.len() - i,
        {
            if !alphanumeric(s[i]) {
                return false;
            }
            i += 1;
        }
        true
    }

    /// The word with every non-alphanumeric character removed.
    pub fn clean_word(word: &str) -> (r: String)
        ensures
            r@ == clean(word@),
    {
        let s = chars_of(word);
        let mut r = String::new();
        let mut i: usize = 0;
        while i < s.len()
            invariant
                i <= s@.len(),
                s@ == word@,
                r@ == clean(s@.take(i as int)),
            decreases s@.len() - i,
        {
            assert(s@.take(i + 1).drop_last() =~= s@.take(i as int));
            if alphanumeric(s[i]) {
                push_char(&mut r, s[i]);
            }
            i += 1;
        }
        assert(s@.take(i as int) =~= word@);
        r
    }
}

} // verus!
