//! Queries against the index.
//!
//! A query is read as a text of its own. For each document that holds at
//! least one of the query's terms, the index gives out the whole numbers
//! that a relevance score is made of: how often each term of the query
//! occurs in the document, how many terms the document has, and in how many
//! documents each term of the query occurs.

use vstd::prelude::*;
use crate::lexer::{Lexer, terms};
use crate::model::{Model, DocView, has_term, document_frequency, without, lemma_without};

verus! {

/// One term of a query with the number of documents that hold it.
#[derive(Debug)]
pub struct QueryTerm {
    pub term: String,
    pub document_frequency: usize,
}

/// A document that holds at least one term of a query.
#[derive(Debug)]
pub struct Candidate {
    /// The document's identifier.
    pub id: String,
    /// The number of terms of the document.
    pub total_terms: usize,
    /// For each term of the query, in the order of the query, how often the
    /// document holds it.
    pub occurrences: Vec<usize>,
}

/// What the index knows of a query.
#[derive(Debug)]
pub struct Matches {
    /// The number of documents in the index.
    pub documents: usize,
    /// The terms of the query, from left to right. A term that the query
    /// repeats is repeated here.
    pub terms: Vec<QueryTerm>,
    /// The documents that hold at least one term of the query, in the order
    /// in which the index holds them.
    pub candidates: Vec<Candidate>,
}

/// What the number of documents is divided by to measure how rare a term
/// is: the term's document frequency, and one for a term that no document
/// holds.
pub open spec fn divisor_of(document_frequency: nat) -> nat {
    if document_frequency == 0 {
        1
    } else {
        document_frequency
    }
}

/// The divisor for a term of the given document frequency.
pub fn divisor(document_frequency: usize) -> (m: usize)
    ensures
        m == divisor_of(document_frequency as nat),
{
    if document_frequency == 0 {
        1
    } else {
        document_frequency
    }
}

/// Whether the record `doc` holds one of the terms in `query`.
pub open spec fn matches(doc: DocView, query: Seq<Seq<char>>) -> bool {
    exists|j: int| 0 <= j < query.len() && has_term(doc, #[trigger] query[j])
}

/// Those of `ids` whose documents hold one of the terms in `query`, in the
/// order of `ids`.
pub open spec fn matching(docs: Map<Seq<char>, DocView>, ids: Seq<Seq<char>>, query: Seq<Seq<char>>) -> Seq<
    Seq<char>,
> {
    ids.filter(|id: Seq<char>| matches(docs[id], query))
}

/// The identifiers of a list of candidates.
pub open spec fn ids_of(candidates: Seq<Candidate>) -> Seq<Seq<char>> {
    candidates.map_values(|c: Candidate| c.id@)
}

/// Whether `c` gives the numbers of the record `doc` for the terms in
/// `query`: the number of terms of the document, and for each term of the
/// query how often the document holds it.
pub open spec fn describes(c: Candidate, doc: DocView, query: Seq<Seq<char>>) -> bool {
    &&& c.total_terms == doc.total_terms()
    &&& c.occurrences.len() == query.len()
    &&& forall|j: int| 0 <= j < query.len() ==> #[trigger] c.occurrences[j] == doc.term_count(query[j])
}

/// Whether `found` is what the index `docs`, held in the order `ids`, knows
/// of the query terms `query`.
pub open spec fn answers(
    found: Matches,
    docs: Map<Seq<char>, DocView>,
    ids: Seq<Seq<char>>,
    query: Seq<Seq<char>>,
) -> bool {
    &&& found.documents == docs.dom().len()
    &&& found.terms.len() == query.len()
    &&& forall|j: int|
        0 <= j < query.len() ==> (#[trigger] found.terms[j]).term@ == query[j]
            && found.terms[j].document_frequency == document_frequency(docs, query[j])
    &&& ids_of(found.candidates@) == matching(docs, ids, query)
    &&& forall|i: int|
        0 <= i < found.candidates.len() ==> {
            let c = #[trigger] found.candidates[i];
            docs.dom().contains(c.id@) && describes(c, docs[c.id@], query)
        }
}

/// The documents that are found are documents of the index that hold a term
/// of the query.
pub proof fn lemma_matching(docs: Map<Seq<char>, DocView>, ids: Seq<Seq<char>>, query: Seq<Seq<char>>)
    ensures
        forall|id: Seq<char>|
            matching(docs, ids, query).contains(id) <==> ids.contains(id) && matches(docs[id], query),
{
    let pred = |id: Seq<char>| matches(docs[id], query);
    assert forall|id: Seq<char>| matching(docs, ids, query).contains(id) implies ids.contains(id) && matches(
        docs[id],
        query,
    ) by {
        let found = ids.filter(pred);
        let k = found.index_of(id);
        assert(found[k] == id);
        ids.lemma_filter_pred(pred, k);
        ids.lemma_filter_contains_rev(pred, id);
    }
    assert forall|id: Seq<char>| ids.contains(id) && matches(docs[id], query) implies matching(
        docs,
        ids,
        query,
    ).contains(id) by {
        let k = ids.index_of(id);
        assert(ids[k] == id);
        ids.lemma_filter_contains(pred, k);
    }
}

/// A document that was taken out of the index is found by no query.
pub proof fn lemma_removed_not_found(
    docs: Map<Seq<char>, DocView>,
    ids: Seq<Seq<char>>,
    id: Seq<char>,
    query: Seq<Seq<char>>,
)
    requires
        ids.no_duplicates(),
    ensures
        !matching(docs.remove(id), without(ids, id), query).contains(id),
{
    lemma_without(ids, id);
    lemma_matching(docs.remove(id), without(ids, id), query);
}

/// A document that holds no term of the query is not found.
pub proof fn lemma_unrelated_not_found(
    docs: Map<Seq<char>, DocView>,
    ids: Seq<Seq<char>>,
    id: Seq<char>,
    query: Seq<Seq<char>>,
)
    requires
        forall|j: int| 0 <= j < query.len() ==> !has_term(docs[id], #[trigger] query[j]),
    ensures
        !matching(docs, ids, query).contains(id),
{
    lemma_matching(docs, ids, query);
}

impl Model {
    /// Reads `query` and gathers, for each document that holds at least one
    /// of its terms, what a score of the document is made of.
    pub fn candidates(&self, query: &[char]) -> (found: Matches)
        requires
            self.wf(),
        ensures
            answers(found, self@, self.ids(), terms(query@)),
    {
        let words = Lexer::new(query).collect();
        self.candidates_for(&words)
    }

    /// Gathers, for each document that holds at least one of `words`, what a
    /// score of the document is made of.
    ///
    /// A document that holds none of the words is left out: each word
    /// occurs in it zero times, so its score is zero.
    pub fn candidates_for(&self, words: &Vec<String>) -> (found: Matches)
        requires
            self.wf(),
        ensures
            answers(found, self@, self.ids(), words.deep_view()),
    {
        let ghost q = words.deep_view();
        let mut query_terms: Vec<QueryTerm> = Vec::new();
        let mut j: usize = 0;
        while j < words.len()
            invariant
                self.wf(),
                j <= words.len(),
                words.deep_view() == q,
                query_terms.len() == j,
                forall|k: int|
                    0 <= k < j ==> (#[trigger] query_terms[k]).term@ == q[k]
                        && query_terms[k].document_frequency == document_frequency(self@, q[k]),
            decreases words.len() - j,
        {
            assert(words.deep_view()[j as int] == words[j as int]@);
            let n = self.document_frequency(words[j].as_str());
            query_terms.push(QueryTerm { term: words[j].clone(), document_frequency: n });
            j += 1;
        }
        let mut candidates: Vec<Candidate> = Vec::new();
        let mut i: usize = 0;
        let count = self.len();
        while i < count
            invariant
                self.wf(),
                i <= count,
                count == self.ids().len(),
                words.deep_view() == q,
                ids_of(candidates@) == matching(self@, self.ids().take(i as int), q),
                forall|k: int|
                    0 <= k < candidates.len() ==> {
                        let c = #[trigger] candidates[k];
                        self@.dom().contains(c.id@) && describes(c, self@[c.id@], q)
                    },
            decreases count - i,
        {
            let doc = self.doc_at(i);
            let mut occurrences: Vec<usize> = Vec::new();
            let mut any = false;
            let mut j: usize = 0;
            while j < words.len()
                invariant
                    doc.wf(),
                    j <= words.len(),
                    words.deep_view() == q,
                    occurrences.len() == j,
                    forall|k: int| 0 <= k < j ==> #[trigger] occurrences[k] == doc@.term_count(q[k]),
                    any <==> exists|k: int| 0 <= k < j && has_term(doc@, #[trigger] q[k]),
                decreases words.len() - j,
            {
                assert(words.deep_view()[j as int] == words[j as int]@);
                let n = doc.term_count(words[j].as_str());
                occurrences.push(n);
                if n > 0 {
                    any = true;
                }
                j += 1;
            }
            let ghost before = ids_of(candidates@);
            let ghost id = self.ids()[i as int];
            if any {
                candidates.push(
                    Candidate { id: self.id_at(i).clone(), total_terms: doc.total_terms(), occurrences },
                );
                assert(ids_of(candidates@) =~= before.push(id));
            }
            i += 1;
            proof {
                reveal(Seq::filter);
                assert(self.ids().take(i as int).drop_last() =~= self.ids().take(i - 1));
                assert(self.ids().take(i as int).last() == id);
                assert(any == matches(self@[id], q));
            }
        }
        assert(self.ids().take(count as int) =~= self.ids());
        Matches { documents: count, terms: query_terms, candidates }
    }
}

} // verus!
