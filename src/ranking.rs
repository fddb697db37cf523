//! Ranking documents by a metric, largest first.

use vstd::prelude::*;
use crate::document::{DocModel, Document};
use crate::order::{lemma_ins_at, lemma_sort_desc, sort_desc};

verus! {

/// The statistic that documents are ranked by.
#[derive(Clone, Copy, Debug, PartialEq, Eq, Structural)]
pub enum Metric {
    Word,
    Line,
    Cha,
}

/// The value of a metric on a document model.
pub open spec fn metric_key(m: Metric) -> spec_fn(DocModel) -> nat {
    |d: DocModel|
        match m {
            Metric::Word => d.word_count,
            Metric::Line => d.line_count,
            Metric::Cha => d.cha_count,
        }
}

/// The models of a sequence of documents.
pub open spec fn docs_view(ds: Seq<Document>) -> Seq<DocModel> {
    ds.map_values(|d: Document| d@)
}

impl Document {
    /// The value of metric `m` on this document.
    pub fn metric_value(&self, m: Metric) -> (r: usize)
        ensures
            r as nat == metric_key(m)(self@),
    {
        match m {
            Metric::Word => self.word_count,
            Metric::Line => self.line_count,
            Metric::Cha => self.cha_count,
        }
    }

    /// The documents ordered by `m`, largest first; documents with equal
    /// values keep their order in `docs`. `docs` is left as it is.
    pub fn rank(docs: &[Document], m: Metric) -> (r: Vec<Document>)
        ensures
            docs_view(r@) == sort_desc(docs_view(docs@), metric_key(m)),
    {
        let ghost s = docs_view(docs@);
        let mut r: Vec<Document> = Vec::new();
        let mut i: usize = 0;
        while i < docs.len()
            invariant
                i <= docs@.len(),
                s == docs_view(docs@),
                docs_view(r@) == sort_desc(s.take(i as int), metric_key(m)),
            decreases docs@.len() - i,
        {
            assert(s.take(i + 1).drop_last() =~= s.take(i as int));
            let x = docs[i].copy();
            let v = x.metric_value(m);
            let ghost rv = docs_view(r@);
            let mut j: usize = r.len();
            while j > 0 && r[j - 1].metric_value(m) < v
                invariant
                    j <= r@.len(),
                    rv == docs_view(r@),
                    v as nat == metric_key(m)(x@),
                    forall|k: int| j <= k < rv.len() ==> metric_key(m)(#[trigger] rv[k]) < v,
                decreases j,
            {
                j -= 1;
            }
            proof {
                lemma_ins_at(rv, x@, metric_key(m), j as int);
            }
            r.insert(j, x);
            assert(docs_view(r@) =~= rv.insert(j as int, x@));
            i += 1;
        }
        assert(s.take(i as int) =~= s);
        r
    }

    /// The documents ordered by word count, largest first.
    pub fn rank_by_word_count(docs: &[Document]) -> (r: Vec<Document>)
        ensures
            docs_view(r@) == sort_desc(docs_view(docs@), metric_key(Metric::Word)),
    {
        Self::rank(docs, Metric::Word)
    }

    /// The documents ordered by line count, largest first.
    pub fn rank_by_line_count(docs: &[Document]) -> (r: Vec<Document>)
        ensures
            docs_view(r@) == sort_desc(docs_view(docs@), metric_key(Metric::Line)),
    {
        Self::rank(docs, Metric::Line)
    }

    /// The documents ordered by character count, largest first.
    pub fn rank_by_cha_count(docs: &[Document]) -> (r: Vec<Document>)
        ensures
            docs_view(r@) == sort_desc(docs_view(docs@), metric_key(Metric::Cha)),
    {
        Self::rank(docs, Metric::Cha)
    }
}

/// A ranking is descending in its metric: of two neighbours, the first has at
/// least the value of the second. It holds the same documents as its input,
/// each as often.
pub proof fn ranking_is_descending(ds: Seq<DocModel>, m: Metric)
    ensures
        forall|i: int|
            0 <= i < ds.len() - 1 ==> metric_key(m)(#[trigger] sort_desc(ds, metric_key(m))[i])
                >= metric_key(m)(sort_desc(ds, metric_key(m))[i + 1]),
        sort_desc(ds, metric_key(m)).to_multiset() == ds.to_multiset(),
{
    lemma_sort_desc(ds, metric_key(m));
    let r = sort_desc(ds, metric_key(m));
    assert forall|i: int| 0 <= i < ds.len() - 1 implies metric_key(m)(#[trigger] r[i])
        >= metric_key(m)(r[i + 1]) by {
        assert(0 <= i < i + 1 < r.len());
    }
}

} // verus!
