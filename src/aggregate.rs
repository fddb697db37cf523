//! Folder-wide totals and the merged most frequent words.

use vstd::prelude::*;
use vstd::seq_lib::group_to_multiset_ensures;
use crate::document::{top_words, DocModel, Document, TOP_WORDS};
use crate::ranking::docs_view;
use crate::text::{clean_all, tokens};
use crate::order::{lemma_sort_desc, lemma_sort_sorted};
use crate::words::{
    count_of, distinct_words, entries_sum, entries_view, key_index, lemma_entry_le_sum,
    lemma_key_index,
    lemma_sum_tally_add, lemma_sum_top, lemma_top_entries, sort_by_count,
    tally, tally_add, tally_word, top_entries, Entry,
};

verus! {

/// How many words the merged ranking keeps.
pub const TOP_FOLDER_WORDS: usize = 10;

/// The sum of `key` over the documents.
pub open spec fn sum_by(ds: Seq<DocModel>, key: spec_fn(DocModel) -> nat) -> nat
    decreases ds.len(),
{
    if ds.len() == 0 {
        0
    } else {
        sum_by(ds.drop_last(), key) + key(ds.last())
    }
}

/// Word count of a document.
pub open spec fn words_of() -> spec_fn(DocModel) -> nat {
    |d: DocModel| d.word_count
}

/// Character count of a document.
pub open spec fn chars_of_doc() -> spec_fn(DocModel) -> nat {
    |d: DocModel| d.cha_count
}

/// Line count of a document.
pub open spec fn lines_of() -> spec_fn(DocModel) -> nat {
    |d: DocModel| d.line_count
}

/// Occurrences counted in a document's most frequent words.
pub open spec fn common_of() -> spec_fn(DocModel) -> nat {
    |d: DocModel| entries_sum(d.com_words)
}

/// `acc` with the counts of `es` added, word by word.
pub open spec fn merge_entries(acc: Seq<Entry>, es: Seq<Entry>) -> Seq<Entry>
    decreases es.len(),
{
    if es.len() == 0 {
        acc
    } else {
        let e = es.last();
        tally_add(merge_entries(acc, es.drop_last()), e.0, e.1)
    }
}

/// Every document's most frequent words, merged by summing the counts of
/// equal words, in order of first appearance over the documents.
pub open spec fn merged(ds: Seq<DocModel>) -> Seq<Entry>
    decreases ds.len(),
{
    if ds.len() == 0 {
        Seq::empty()
    } else {
        merge_entries(merged(ds.drop_last()), ds.last().com_words)
    }
}

/// The merged words ranked by summed count, largest first, equal counts in
/// order of first appearance, cut to `TOP_FOLDER_WORDS` entries.
pub open spec fn folder_top_words(ds: Seq<DocModel>) -> Seq<Entry> {
    top_entries(merged(ds), TOP_FOLDER_WORDS as nat)
}

/// Totals over a set of documents. The mean of the documents' average word
/// lengths is a real number, computed by the caller from the documents.
pub struct AggregateStats {
    pub total_word_count: usize,
    pub total_char_count: usize,
    pub total_line_count: usize,
    pub top_words: Vec<(String, usize)>,
}

/// A prefix of the documents sums to no more than all of them.
pub proof fn lemma_sum_prefix(ds: Seq<DocModel>, key: spec_fn(DocModel) -> nat, i: int)
    requires
        0 <= i <= ds.len(),
    ensures
        sum_by(ds.take(i), key) <= sum_by(ds, key),
    decreases ds.len(),
{
    if i < ds.len() {
        lemma_sum_prefix(ds.drop_last(), key, i);
        assert(ds.drop_last().take(i) =~= ds.take(i));
    } else {
        assert(ds.take(i) =~= ds);
    }
}

/// The sum over one more document.
proof fn lemma_sum_step(ds: Seq<DocModel>, key: spec_fn(DocModel) -> nat, i: int)
    requires
        0 <= i < ds.len(),
    ensures
        sum_by(ds.take(i + 1), key) == sum_by(ds.take(i), key) + key(ds[i]),
{
    assert(ds.take(i + 1).drop_last() =~= ds.take(i));
}

/// Merging adds the merged counts to the sum.
proof fn lemma_sum_merge(acc: Seq<Entry>, es: Seq<Entry>)
    ensures
        entries_sum(merge_entries(acc, es)) == entries_sum(acc) + entries_sum(es),
    decreases es.len(),
{
    if es.len() > 0 {
        lemma_sum_merge(acc, es.drop_last());
        lemma_sum_tally_add(merge_entries(acc, es.drop_last()), es.last().0, es.last().1);
    }
}

/// The merged counts add up to the documents' own.
proof fn lemma_sum_merged(ds: Seq<DocModel>)
    ensures
        entries_sum(merged(ds)) == sum_by(ds, common_of()),
    decreases ds.len(),
{
    if ds.len() > 0 {
        lemma_sum_merged(ds.drop_last());
        lemma_sum_merge(merged(ds.drop_last()), ds.last().com_words);
    }
}

/// A well-formed document's frequent words count no more occurrences than it has words.
proof fn lemma_common_le_words(ds: Seq<DocModel>)
    requires
        forall|k: int| 0 <= k < ds.len() ==> (#[trigger] ds[k]).wf(),
    ensures
        sum_by(ds, common_of()) <= sum_by(ds, words_of()),
    decreases ds.len(),
{
    if ds.len() > 0 {
        let d = ds.last();
        assert(d.wf());
        lemma_common_le_words(ds.drop_last());
        lemma_sum_top(clean_all(tokens(d.content)), TOP_WORDS as nat);
        assert(top_words(d.content) == top_entries(tally(clean_all(tokens(d.content))), TOP_WORDS as nat));
    }
}

impl Document {
    /// The totals of word, character and line counts, and the merged most
    /// frequent words, over `documents`.
    pub fn calculate_aggregate_stats(documents: &[Document]) -> (r: AggregateStats)
        requires
            forall|k: int| 0 <= k < documents@.len() ==> (#[trigger] documents@[k])@.wf(),
            sum_by(docs_view(documents@), words_of()) <= usize::MAX,
            sum_by(docs_view(documents@), chars_of_doc()) <= usize::MAX,
            sum_by(docs_view(documents@), lines_of()) <= usize::MAX,
        ensures
            r.total_word_count == sum_by(docs_view(documents@), words_of()),
            r.total_char_count == sum_by(docs_view(documents@), chars_of_doc()),
            r.total_line_count == sum_by(docs_view(documents@), lines_of()),
            entries_view(r.top_words@) == folder_top_words(docs_view(documents@)),
    {
        let ghost ds = docs_view(documents@);
        proof {
            assert forall|k: int| 0 <= k < ds.len() implies (#[trigger] ds[k]).wf() by {
                assert(ds[k] == documents@[k]@);
            }
            lemma_common_le_words(ds);
        }
        let mut words: usize = 0;
        let mut chars: usize = 0;
        let mut lines: usize = 0;
        let mut acc: Vec<(String, usize)> = Vec::new();
        let mut i: usize = 0;
        while i < documents.len()
            invariant
                i <= documents@.len(),
                ds == docs_view(documents@),
                sum_by(ds, common_of()) <= usize::MAX,
                sum_by(ds, words_of()) <= usize::MAX,
                sum_by(ds, chars_of_doc()) <= usize::MAX,
                sum_by(ds, lines_of()) <= usize::MAX,
                words == sum_by(ds.take(i as int), words_of()),
                chars == sum_by(ds.take(i as int), chars_of_doc()),
                lines == sum_by(ds.take(i as int), lines_of()),
                entries_view(acc@) == merged(ds.take(i as int)),
                entries_sum(entries_view(acc@)) == sum_by(ds.take(i as int), common_of()),
            decreases documents@.len() - i,
        {
            let d = &documents[i];
            proof {
                assert(ds[i as int] == d@);
                lemma_sum_step(ds, words_of(), i as int);
                lemma_sum_step(ds, chars_of_doc(), i as int);
                lemma_sum_step(ds, lines_of(), i as int);
                lemma_sum_step(ds, common_of(), i as int);
                lemma_sum_prefix(ds, words_of(), i + 1);
                lemma_sum_prefix(ds, chars_of_doc(), i + 1);
                lemma_sum_prefix(ds, lines_of(), i + 1);
                lemma_sum_prefix(ds, common_of(), i + 1);
                assert(ds.take(i + 1).drop_last() =~= ds.take(i as int));
            }
            words = words + d.word_count;
            chars = chars + d.cha_count;
            lines = lines + d.line_count;
            let ghost base = merged(ds.take(i as int));
            let ghost es = d@.com_words;
            let ghost before = sum_by(ds.take(i as int), common_of());
            let mut j: usize = 0;
            while j < d.com_words.len()
                invariant
                    j <= es.len(),
                    es == entries_view(d.com_words@),
                    before + entries_sum(es) <= usize::MAX,
                    entries_view(acc@) == merge_entries(base, es.take(j as int)),
                    entries_sum(entries_view(acc@)) == before + entries_sum(es.take(j as int)),
                decreases es.len() - j,
            {
                let ghost av = entries_view(acc@);
                proof {
                    assert(es.take(j + 1).drop_last() =~= es.take(j as int));
                    assert(es.take(j + 1).last() == es[j as int]);
                    crate::words::lemma_sum_take(es, j + 1);
                    assert forall|k: int| 0 <= k < acc@.len() implies #[trigger] acc@[k].1
                        + d.com_words@[j as int].1 <= usize::MAX by {
                        assert(av[k].1 == acc@[k].1 as nat);
                        lemma_entry_le_sum(av, k);
                    }
                }
                let w = d.com_words[j].0.clone();
                let n = d.com_words[j].1;
                tally_word(&mut acc, w, n);
                proof {
                    lemma_sum_tally_add(av, es[j as int].0, es[j as int].1);
                }
                j += 1;
            }
            assert(es.take(j as int) =~= es);
            i += 1;
        }
        assert(ds.take(i as int) =~= ds);
        let mut top = sort_by_count(&acc);
        if top.len() > TOP_FOLDER_WORDS {
            top.truncate(TOP_FOLDER_WORDS);
        }
        AggregateStats {
            total_word_count: words,
            total_char_count: chars,
            total_line_count: lines,
            top_words: top,
        }
    }
}

/// Taking one document out of the sum.
proof fn lemma_sum_remove(ds: Seq<DocModel>, key: spec_fn(DocModel) -> nat, k: int)
    requires
        0 <= k < ds.len(),
    ensures
        sum_by(ds, key) == sum_by(ds.remove(k), key) + key(ds[k]),
    decreases ds.len(),
{
    if k < ds.len() - 1 {
        let p = ds.drop_last();
        lemma_sum_remove(p, key, k);
        assert(ds.remove(k).drop_last() =~= p.remove(k));
        assert(ds.remove(k).last() == ds.last());
    } else {
        assert(ds.remove(k) =~= ds.drop_last());
    }
}

/// A sum over documents does not depend on their order.
proof fn lemma_sum_permutation(ds1: Seq<DocModel>, ds2: Seq<DocModel>, key: spec_fn(DocModel) -> nat)
    requires
        ds1.to_multiset() == ds2.to_multiset(),
    ensures
        sum_by(ds1, key) == sum_by(ds2, key),
    decreases ds1.len(),
{
    broadcast use group_to_multiset_ensures;

    if ds1.len() == 0 {
        assert(ds1.to_multiset().len() == 0);
        assert(ds2.to_multiset().len() == ds2.len());
    } else {
        let x = ds1.last();
        let p = ds1.drop_last();
        assert(ds1 =~= p.push(x));
        assert(ds2.to_multiset().count(x) > 0);
        assert(ds2.contains(x));
        let k = choose|k: int| 0 <= k < ds2.len() && ds2[k] == x;
        assert(ds2.remove(k).to_multiset() =~= p.to_multiset());
        lemma_sum_permutation(p, ds2.remove(k), key);
        lemma_sum_remove(ds2, key, k);
    }
}

/// Reordering the documents leaves the word, character and line totals unchanged.
pub proof fn totals_ignore_order(ds1: Seq<DocModel>, ds2: Seq<DocModel>)
    requires
        ds1.to_multiset() == ds2.to_multiset(),
    ensures
        sum_by(ds1, words_of()) == sum_by(ds2, words_of()),
        sum_by(ds1, chars_of_doc()) == sum_by(ds2, chars_of_doc()),
        sum_by(ds1, lines_of()) == sum_by(ds2, lines_of()),
{
    lemma_sum_permutation(ds1, ds2, words_of());
    lemma_sum_permutation(ds1, ds2, chars_of_doc());
    lemma_sum_permutation(ds1, ds2, lines_of());
}

/// The totals over a single document are that document's own counts.
pub proof fn single_document_totals(d: DocModel)
    ensures
        sum_by(seq![d], words_of()) == d.word_count,
        sum_by(seq![d], chars_of_doc()) == d.cha_count,
        sum_by(seq![d], lines_of()) == d.line_count,
{
    let e = Seq::<DocModel>::empty();
    assert(seq![d].drop_last() =~= e);
    assert(sum_by(e, words_of()) == 0 && sum_by(e, chars_of_doc()) == 0 && sum_by(e, lines_of())
        == 0);
}

/// Merging entries that hold each word once, into nothing, gives them back.
proof fn lemma_merge_distinct(es: Seq<Entry>)
    requires
        distinct_words(es),
    ensures
        merge_entries(Seq::empty(), es) == es,
    decreases es.len(),
{
    if es.len() > 0 {
        let p = es.drop_last();
        let x = es.last();
        lemma_merge_distinct(p);
        lemma_key_index(p, x.0);
        if key_index(p, x.0) >= 0 {
            let k = key_index(p, x.0);
            assert(es[k] == p[k]);
            assert(es[k].0 == es[es.len() - 1].0);
        }
        assert(p.push((x.0, x.1)) =~= es);
    }
}

/// The merged most frequent words of a single well-formed document are that
/// document's own, in the same order.
pub proof fn single_document_top_words(d: DocModel)
    requires
        d.wf(),
    ensures
        folder_top_words(seq![d]) == d.com_words,
{
    let ws = clean_all(tokens(d.content));
    lemma_top_entries(ws, TOP_WORDS as nat);
    assert(d.com_words == top_entries(tally(ws), TOP_WORDS as nat));
    assert(seq![d].drop_last() =~= Seq::<DocModel>::empty());
    assert(merged(Seq::<DocModel>::empty()) == Seq::<Entry>::empty());
    assert(seq![d].last() == d);
    assert(merged(seq![d]) == merge_entries(Seq::empty(), d.com_words));
    lemma_merge_distinct(d.com_words);
    lemma_sort_desc(d.com_words, count_of());
    lemma_sort_sorted(d.com_words, count_of());
}

/// How many occurrences of `w` the entries record.
pub open spec fn occurrences(es: Seq<Entry>, w: Seq<char>) -> nat
    decreases es.len(),
{
    if es.len() == 0 {
        0
    } else {
        occurrences(es.drop_last(), w) + if es.last().0 == w { es.last().1 } else { 0 }
    }
}

/// Occurrences of `w` in one document's most frequent words.
pub open spec fn occurrences_in(w: Seq<char>) -> spec_fn(DocModel) -> nat {
    |d: DocModel| occurrences(d.com_words, w)
}

/// Replacing one entry changes the occurrences by the difference.
proof fn lemma_occurrences_update(es: Seq<Entry>, k: int, e: Entry, w: Seq<char>)
    requires
        0 <= k < es.len(),
    ensures
        occurrences(es.update(k, e), w) + (if es[k].0 == w { es[k].1 } else { 0 }) == occurrences(
            es,
            w,
        ) + (if e.0 == w { e.1 } else { 0 }),
    decreases es.len(),
{
    let u = es.update(k, e);
    if k < es.len() - 1 {
        lemma_occurrences_update(es.drop_last(), k, e, w);
        assert(u.drop_last() =~= es.drop_last().update(k, e));
    } else {
        assert(u.drop_last() =~= es.drop_last());
    }
}

/// Adding `n` occurrences of `x` adds them to the occurrences of `x` alone.
proof fn lemma_occurrences_tally_add(acc: Seq<Entry>, x: Seq<char>, n: nat, w: Seq<char>)
    ensures
        occurrences(tally_add(acc, x, n), w) == occurrences(acc, w) + if x == w { n } else { 0 },
{
    lemma_key_index(acc, x);
    let k = key_index(acc, x);
    if k >= 0 {
        lemma_occurrences_update(acc, k, (x, acc[k].1 + n), w);
    } else {
        assert(acc.push((x, n)).drop_last() =~= acc);
    }
}

/// Merging adds the occurrences of the merged entries.
proof fn lemma_occurrences_merge(acc: Seq<Entry>, es: Seq<Entry>, w: Seq<char>)
    ensures
        occurrences(merge_entries(acc, es), w) == occurrences(acc, w) + occurrences(es, w),
    decreases es.len(),
{
    if es.len() > 0 {
        lemma_occurrences_merge(acc, es.drop_last(), w);
        lemma_occurrences_tally_add(merge_entries(acc, es.drop_last()), es.last().0, es.last().1, w);
    }
}

/// The merged entries record, for each word, the sum over the documents.
proof fn lemma_occurrences_merged(ds: Seq<DocModel>, w: Seq<char>)
    ensures
        occurrences(merged(ds), w) == sum_by(ds, occurrences_in(w)),
    decreases ds.len(),
{
    if ds.len() > 0 {
        lemma_occurrences_merged(ds.drop_last(), w);
        lemma_occurrences_merge(merged(ds.drop_last()), ds.last().com_words, w);
    }
}

/// Adding occurrences keeps the words of a tally distinct.
proof fn lemma_tally_add_distinct(acc: Seq<Entry>, x: Seq<char>, n: nat)
    requires
        distinct_words(acc),
    ensures
        distinct_words(tally_add(acc, x, n)),
{
    lemma_key_index(acc, x);
}

/// Merging keeps the words distinct.
proof fn lemma_merged_distinct(ds: Seq<DocModel>)
    ensures
        distinct_words(merged(ds)),
    decreases ds.len(),
{
    if ds.len() > 0 {
        lemma_merged_distinct(ds.drop_last());
        lemma_merge_entries_distinct(merged(ds.drop_last()), ds.last().com_words);
    }
}

/// Merging entries into distinct entries keeps them distinct.
proof fn lemma_merge_entries_distinct(acc: Seq<Entry>, es: Seq<Entry>)
    requires
        distinct_words(acc),
    ensures
        distinct_words(merge_entries(acc, es)),
    decreases es.len(),
{
    if es.len() > 0 {
        lemma_merge_entries_distinct(acc, es.drop_last());
        lemma_tally_add_distinct(merge_entries(acc, es.drop_last()), es.last().0, es.last().1);
    }
}

/// In entries that hold each word once, an entry's count is all the occurrences of its word.
proof fn lemma_occurrences_distinct(es: Seq<Entry>, k: int)
    requires
        distinct_words(es),
        0 <= k < es.len(),
    ensures
        occurrences(es, es[k].0) == es[k].1,
    decreases es.len(),
{
    let p = es.drop_last();
    if k < es.len() - 1 {
        assert(es[k] == p[k]);
        lemma_occurrences_distinct(p, k);
        assert(es.last().0 != es[k].0);
    } else {
        lemma_occurrences_absent(p, es[k].0);
    }
}

/// A word that no entry holds has no occurrences.
proof fn lemma_occurrences_absent(es: Seq<Entry>, w: Seq<char>)
    requires
        forall|k: int| 0 <= k < es.len() ==> (#[trigger] es[k]).0 != w,
    ensures
        occurrences(es, w) == 0,
    decreases es.len(),
{
    if es.len() > 0 {
        let p = es.drop_last();
        assert forall|k: int| 0 <= k < p.len() implies (#[trigger] p[k]).0 != w by {
            assert(p[k] == es[k]);
        }
        lemma_occurrences_absent(p, w);
    }
}

/// The merged entries hold each word once, with the sum of its counts over
/// the documents' most frequent words; that sum does not depend on the order
/// of the documents.
pub proof fn merged_counts_ignore_order(ds1: Seq<DocModel>, ds2: Seq<DocModel>, w: Seq<char>)
    requires
        ds1.to_multiset() == ds2.to_multiset(),
    ensures
        distinct_words(merged(ds1)),
        forall|k: int|
            0 <= k < merged(ds1).len() ==> (#[trigger] merged(ds1)[k]).1 == sum_by(
                ds1,
                occurrences_in(merged(ds1)[k].0),
            ),
        occurrences(merged(ds1), w) == occurrences(merged(ds2), w),
{
    lemma_merged_distinct(ds1);
    assert forall|k: int| 0 <= k < merged(ds1).len() implies (#[trigger] merged(ds1)[k]).1
        == sum_by(ds1, occurrences_in(merged(ds1)[k].0)) by {
        lemma_occurrences_distinct(merged(ds1), k);
        lemma_occurrences_merged(ds1, merged(ds1)[k].0);
    }
    lemma_occurrences_merged(ds1, w);
    lemma_occurrences_merged(ds2, w);
    lemma_sum_permutation(ds1, ds2, occurrences_in(w));
}

} // verus!
