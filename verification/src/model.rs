//! The document index.
//!
//! The index holds one record for each document, keyed by the document's
//! identifier, and beside the records a table that says for each term how
//! many documents hold it.

use vstd::prelude::*;
use vstd::multiset::Multiset;
use crate::freq::{
    FreqTable, bag_of, counted, first_seen, lemma_bag_of_grows, lemma_bag_of_len, lemma_copies, sum_of,
};
use crate::lexer::{Lexer, terms};
use crate::records::{
    Stored, carriers, holds, ids_of, lemma_carriers, lemma_carriers_push, lemma_carriers_remove,
    lemma_view_of, lemma_view_of_push, lemma_view_of_remove, view_of,
};

verus! {

/// What a record says of its document: the terms of the document, each as
/// often as it occurs, and the time at which the document was last changed
/// when it was read.
///
/// The terms are a multiset, so the number of terms of the document is by
/// its nature the sum of the counts of its distinct terms.
pub struct DocView {
    pub terms: Multiset<Seq<char>>,
    pub last_modified: u64,
}

impl DocView {
    /// How often the document holds the term `t`.
    pub open spec fn term_count(self, t: Seq<char>) -> nat {
        self.terms.count(t)
    }

    /// The number of terms of the document, repeated ones counted each time.
    pub open spec fn total_terms(self) -> nat {
        self.terms.len()
    }
}

/// The record of one document.
#[derive(Debug)]
pub struct Doc {
    tf: FreqTable,
    count: usize,
    last_modified: u64,
}

impl View for Doc {
    type V = DocView;

    closed spec fn view(&self) -> DocView {
        DocView { terms: self.tf@, last_modified: self.last_modified }
    }
}

impl Doc {
    /// The cached number of terms is the number of terms counted.
    pub closed spec fn wf(&self) -> bool {
        &&& self.tf.wf()
        &&& self.count == self.tf@.len()
    }

    /// The distinct terms of the document, in the order of their first
    /// occurrence.
    pub closed spec fn distinct(&self) -> Seq<Seq<char>> {
        self.tf.keys()
    }

    /// The distinct terms are the terms that occur, each listed once.
    pub proof fn lemma_distinct(&self)
        requires
            self.wf(),
        ensures
            self.distinct().no_duplicates(),
            forall|t: Seq<char>| self.distinct().contains(t) <==> self@.terms.count(t) > 0,
    {
        self.tf.lemma_keys();
    }

    /// The record of a document that is made of `words`, in this order.
    pub fn from_terms(words: Vec<String>, last_modified: u64) -> (doc: Doc)
        ensures
            doc.wf(),
            doc@ == (DocView { terms: words.deep_view().to_multiset(), last_modified }),
            doc.distinct() == first_seen(words.deep_view()),
    {
        broadcast use {vstd::multiset::group_multiset_axioms, vstd::seq_lib::group_to_multiset_ensures};

        let ghost all = words.deep_view();
        let ghost raw = words@;
        let total = words.len();
        let mut tf = FreqTable::new();
        let mut count: usize = 0;
        for word in it: words
            invariant
                tf.wf(),
                count == it.index(),
                it.seq() == raw,
                raw.len() == total,
                all.len() == raw.len(),
                forall|k: int| 0 <= k < raw.len() ==> all[k] == (#[trigger] raw[k])@,
                tf@ == all.take(count as int).to_multiset(),
                tf.keys() == first_seen(all.take(count as int)),
        {
            broadcast use {vstd::multiset::group_multiset_axioms, vstd::seq_lib::group_to_multiset_ensures};

            proof {
                assert(all.take(count + 1).drop_last() =~= all.take(count as int));
                assert(all.take(count + 1) =~= all.take(count as int).push(word@));
                assert(tf@.count(word@) <= tf@.len());
                assert(all.take(count as int).len() == count);
            }
            tf.increment(word);
            count += 1;
        }
        assert(all.take(count as int) =~= all);
        Doc { tf, count, last_modified }
    }

    /// Reads `content` and records its terms.
    pub fn index(content: &[char], last_modified: u64) -> (doc: Doc)
        ensures
            doc.wf(),
            doc@ == record_of(content@, last_modified),
            doc.distinct() == first_seen(terms(content@)),
    {
        Doc::from_terms(Lexer::new(content).collect(), last_modified)
    }

    /// A record made of terms with their counts, as an earlier record gave
    /// them out. There is none where the counts together go beyond what a
    /// `usize` holds.
    pub fn from_counts(pairs: &Vec<(String, usize)>, last_modified: u64) -> (made: Option<Doc>)
        ensures
            match made {
                Some(doc) => {
                    &&& doc.wf()
                    &&& doc@ == (DocView { terms: bag_of(pairs@), last_modified })
                    &&& doc.distinct() == counted(pairs@)
                    &&& sum_of(pairs@) <= usize::MAX
                },
                None => sum_of(pairs@) > usize::MAX,
            },
    {
        proof {
            lemma_bag_of_len(pairs@);
        }
        let mut tf = FreqTable::new();
        let mut count: usize = 0;
        let mut i: usize = 0;
        while i < pairs.len()
            invariant
                i <= pairs.len(),
                tf.wf(),
                tf@ == bag_of(pairs@.take(i as int)),
                tf.keys() == counted(pairs@.take(i as int)),
                count == tf@.len(),
            decreases pairs.len() - i,
        {
            let times = pairs[i].1;
            proof {
                lemma_copies(pairs[i as int].0@, times as nat);
                assert(pairs@.take(i + 1).drop_last() =~= pairs@.take(i as int));
                lemma_bag_of_grows(pairs@, i + 1);
                lemma_bag_of_len(pairs@);
            }
            if times > usize::MAX - count {
                return None;
            }
            assert(tf@.count(pairs[i as int].0@) <= tf@.len());
            tf.add(pairs[i].0.clone(), times);
            count += times;
            i += 1;
        }
        assert(pairs@.take(i as int) =~= pairs@);
        Some(Doc { tf, count, last_modified })
    }

    /// The distinct terms of the document with their counts, in the order of
    /// `distinct`.
    pub fn term_counts(&self) -> (list: Vec<(String, usize)>)
        requires
            self.wf(),
        ensures
            list.len() == self.distinct().len(),
            forall|i: int|
                0 <= i < list.len() ==> (#[trigger] list[i]).0@ == self.distinct()[i] && list[i].1
                    == self@.term_count(self.distinct()[i]),
            bag_of(list@) == self@.terms,
            sum_of(list@) == self@.total_terms(),
    {
        self.tf.pairs()
    }

    /// How often `term` occurs in the document.
    pub fn term_count(&self, term: &str) -> (n: usize)
        requires
            self.wf(),
        ensures
            n == self@.term_count(term@),
    {
        self.tf.get(term)
    }

    /// The number of terms in the document, repeated ones counted each time.
    pub fn total_terms(&self) -> (n: usize)
        requires
            self.wf(),
        ensures
            n == self@.total_terms(),
    {
        self.count
    }

    /// The time of the document's last change, as it was when it was read.
    pub fn last_modified(&self) -> (t: u64)
        ensures
            t == self@.last_modified,
    {
        self.last_modified
    }
}

/// Whether the record `doc` holds the term `t`.
pub open spec fn has_term(doc: DocView, t: Seq<char>) -> bool {
    doc.terms.count(t) > 0
}

/// The identifiers of the documents in `docs` that hold the term `t`.
pub open spec fn holders(docs: Map<Seq<char>, DocView>, t: Seq<char>) -> Set<Seq<char>> {
    Set::new(|id: Seq<char>| docs.dom().contains(id) && has_term(docs[id], t))
}

/// The document frequency of `t` in `docs`: the number of documents that
/// hold `t` at least once.
pub open spec fn document_frequency(docs: Map<Seq<char>, DocView>, t: Seq<char>) -> nat {
    holders(docs, t).len()
}

/// The sequence `ids` with `id` taken out of it, where it holds `id`.
pub open spec fn without(ids: Seq<Seq<char>>, id: Seq<char>) -> Seq<Seq<char>> {
    if ids.contains(id) {
        ids.remove(ids.index_of(id))
    } else {
        ids
    }
}

/// The order of the documents after `id` has been stored: `id` comes last.
pub open spec fn stored_last(ids: Seq<Seq<char>>, id: Seq<char>) -> Seq<Seq<char>> {
    without(ids, id).push(id)
}

/// What reading `content` as a document in its state of `last_modified`
/// gives: every term of the text, as often as it occurs.
pub open spec fn record_of(content: Seq<char>, last_modified: u64) -> DocView {
    DocView { terms: terms(content).to_multiset(), last_modified }
}

/// The documents of an index after `content` has been read as document `id`.
pub open spec fn added(
    docs: Map<Seq<char>, DocView>,
    id: Seq<char>,
    last_modified: u64,
    content: Seq<char>,
) -> Map<Seq<char>, DocView> {
    docs.insert(id, record_of(content, last_modified))
}

/// Whether a document in its state of `last_modified` must be read again:
/// it must if the index has no record of it, or a record of an earlier state.
pub open spec fn stale(docs: Map<Seq<char>, DocView>, id: Seq<char>, last_modified: u64) -> bool {
    !docs.dom().contains(id) || docs[id].last_modified < last_modified
}

/// A document that was never read must be read. A document that was read
/// need not be read again in the state in which it was read, and must be
/// read again in every later state.
pub proof fn lemma_stale(
    docs: Map<Seq<char>, DocView>,
    id: Seq<char>,
    last_modified: u64,
    content: Seq<char>,
    later: u64,
)
    ensures
        !docs.dom().contains(id) ==> stale(docs, id, later),
        !stale(added(docs, id, last_modified, content), id, last_modified),
        stale(added(docs, id, last_modified, content), id, later) <==> last_modified < later,
{
}

/// Where no identifier is listed twice, `id` is not left in the list once it
/// is taken out, and every other identifier stays.
pub proof fn lemma_without(ids: Seq<Seq<char>>, id: Seq<char>)
    requires
        ids.no_duplicates(),
    ensures
        !without(ids, id).contains(id),
        without(ids, id).no_duplicates(),
        forall|other: Seq<char>|
            other != id ==> (#[trigger] without(ids, id).contains(other) <==> ids.contains(other)),
{
    let rest = without(ids, id);
    if ids.contains(id) {
        let at = ids.index_of(id);
        ids.remove_ensures(at);
        assert forall|i: int, j: int| 0 <= i < rest.len() && 0 <= j < rest.len() && i != j implies rest[i]
            != rest[j] by {
            let from_i = if i < at { i } else { i + 1 };
            let from_j = if j < at { j } else { j + 1 };
            assert(rest[i] == ids[from_i]);
            assert(rest[j] == ids[from_j]);
        }
        assert forall|other: Seq<char>| #[trigger] rest.contains(other) implies ids.contains(other) && other
            != id by {
            let j = choose|j: int| 0 <= j < rest.len() && rest[j] == other;
            let from_j = if j < at { j } else { j + 1 };
            assert(ids[from_j] == other);
            assert(ids[at] == id);
        }
        assert forall|other: Seq<char>| other != id && ids.contains(other) implies #[trigger] rest.contains(
            other,
        ) by {
            let j = choose|j: int| 0 <= j < ids.len() && ids[j] == other;
            let to_j = if j < at { j } else { j - 1 };
            assert(rest[to_j] == other);
        }
    }
}

/// The documents that hold a term are among the documents of the index, so
/// they are finitely many, and no more than the index has documents.
pub proof fn lemma_holders_finite(docs: Map<Seq<char>, DocView>, t: Seq<char>)
    requires
        docs.dom().finite(),
    ensures
        holders(docs, t).finite(),
        document_frequency(docs, t) <= docs.dom().len(),
{
    assert(holders(docs, t).subset_of(docs.dom()));
    vstd::set_lib::lemma_len_subset(holders(docs, t), docs.dom());
}

/// Taking a document out of the index takes one from the document frequency
/// of each term that the document holds, and leaves the document frequency
/// of every other term as it is.
pub proof fn lemma_remove_frequency(docs: Map<Seq<char>, DocView>, id: Seq<char>, t: Seq<char>)
    requires
        docs.dom().finite(),
    ensures
        document_frequency(docs.remove(id), t) == if docs.dom().contains(id) && has_term(docs[id], t) {
            document_frequency(docs, t) - 1
        } else {
            document_frequency(docs, t) as int
        },
{
    lemma_holders_finite(docs, t);
    assert(holders(docs.remove(id), t) =~= holders(docs, t).remove(id));
}

/// Storing a record for a document that the index does not hold adds one to
/// the document frequency of each term of the record, and leaves the
/// document frequency of every other term as it is.
pub proof fn lemma_insert_frequency(
    docs: Map<Seq<char>, DocView>,
    id: Seq<char>,
    doc: DocView,
    t: Seq<char>,
)
    requires
        docs.dom().finite(),
        !docs.dom().contains(id),
    ensures
        document_frequency(docs.insert(id, doc), t) == if has_term(doc, t) {
            document_frequency(docs, t) + 1
        } else {
            document_frequency(docs, t)
        },
{
    lemma_holders_finite(docs, t);
    if has_term(doc, t) {
        assert(holders(docs.insert(id, doc), t) =~= holders(docs, t).insert(id));
    } else {
        assert(holders(docs.insert(id, doc), t) =~= holders(docs, t));
    }
}

/// Reading the same document twice, in the same state and with the same
/// text, leaves the index as reading it once does: the same records, in the
/// same order, and the same document frequency for every term.
pub proof fn lemma_add_twice(
    docs: Map<Seq<char>, DocView>,
    ids: Seq<Seq<char>>,
    id: Seq<char>,
    last_modified: u64,
    content: Seq<char>,
    t: Seq<char>,
)
    requires
        ids.no_duplicates(),
    ensures
        added(added(docs, id, last_modified, content), id, last_modified, content) == added(
            docs,
            id,
            last_modified,
            content,
        ),
        stored_last(stored_last(ids, id), id) == stored_last(ids, id),
        document_frequency(
            added(added(docs, id, last_modified, content), id, last_modified, content),
            t,
        ) == document_frequency(added(docs, id, last_modified, content), t),
{
    let once = added(docs, id, last_modified, content);
    assert(added(once, id, last_modified, content) =~= once);
    let rest = without(ids, id);
    lemma_without(ids, id);
    let moved = rest.push(id);
    assert(moved[rest.len() as int] == id);
    assert(moved.contains(id));
    assert(moved.no_duplicates());
    assert(moved.index_of(id) == rest.len());
    assert(moved.remove(rest.len() as int) =~= rest);
}

/// One if `t` is among the first `n` of `keys`, zero if not.
spec fn among(keys: Seq<Seq<char>>, n: int, t: Seq<char>) -> nat {
    if keys.take(n).contains(t) {
        1
    } else {
        0
    }
}

/// The index: the records of the documents and the document frequencies.
#[derive(Debug)]
pub struct Model {
    records: Vec<Stored>,
    df: FreqTable,
}

impl View for Model {
    type V = Map<Seq<char>, DocView>;

    /// The index as a map from each document's identifier to what its
    /// record says.
    closed spec fn view(&self) -> Map<Seq<char>, DocView> {
        view_of(self.records@)
    }
}

impl Default for Model {
    /// An index without documents.
    fn default() -> (model: Self)
        ensures
            model.wf(),
            model@ == Map::<Seq<char>, DocView>::empty(),
            model.ids() == Seq::<Seq<char>>::empty(),
    {
        Model::new()
    }
}

impl Model {
    /// The identifiers of the documents, in the order in which their
    /// records were stored.
    pub closed spec fn ids(&self) -> Seq<Seq<char>> {
        ids_of(self.records@)
    }

    /// No identifier is stored twice, every record is consistent, and the
    /// table of document frequencies says of every term how many records
    /// hold it.
    pub closed spec fn wf(&self) -> bool {
        &&& self.ids().no_duplicates()
        &&& forall|i: int| 0 <= i < self.records.len() ==> (#[trigger] self.records[i]).doc.wf()
        &&& self.df.wf()
        &&& forall|t: Seq<char>| self.df@.count(t) == carriers(self.records@, t)
    }

    /// The view holds each record under its identifier.
    proof fn lemma_view(&self)
        requires
            self.ids().no_duplicates(),
        ensures
            self.ids().len() == self.records.len(),
            self@.dom() == self.ids().to_set(),
            self@.dom().finite(),
            self@.dom().len() == self.records.len(),
            forall|i: int| 0 <= i < self.records.len() ==> self.ids()[i] == (#[trigger] self.records[i]).id@,
            forall|i: int|
                0 <= i < self.records.len() ==> self@.dom().contains(#[trigger] self.ids()[i])
                    && self@[self.ids()[i]] == self.records[i].doc@,
    {
        lemma_view_of(self.records@);
    }

    /// An index without documents.
    pub fn new() -> (model: Self)
        ensures
            model.wf(),
            model@ == Map::<Seq<char>, DocView>::empty(),
            model.ids() == Seq::<Seq<char>>::empty(),
    {
        let model = Model { records: Vec::new(), df: FreqTable::new() };
        proof {
            assert(model.ids() =~= Seq::<Seq<char>>::empty());
            model.lemma_view();
            assert(model@ =~= Map::<Seq<char>, DocView>::empty());
        }
        model
    }

    /// Where the record of `id` is stored, if there is one.
    fn position(&self, id: &str) -> (place: Option<usize>)
        ensures
            match place {
                Some(i) => i < self.ids().len() && self.ids()[i as int] == id@,
                None => !self.ids().contains(id@),
            },
    {
        let mut i: usize = 0;
        while i < self.records.len()
            invariant
                i <= self.records.len(),
                self.ids().len() == self.records.len(),
                forall|j: int| 0 <= j < i ==> self.ids()[j] != id@,
            decreases self.records.len() - i,
        {
            if self.records[i].id.as_str().eq(id) {
                return Some(i);
            }
            i += 1;
        }
        None
    }

    /// Whether the document must be read again: it must if the index has no
    /// record of it, or if the record is of an earlier state of the document
    /// than `last_modified`.
    pub fn requires_reindexing(&self, id: &str, last_modified: u64) -> (stale: bool)
        requires
            self.wf(),
        ensures
            stale == self::stale(self@, id@, last_modified),
    {
        proof {
            self.lemma_view();
        }
        match self.position(id) {
            Some(i) => self.records[i].doc.last_modified < last_modified,
            None => true,
        }
    }

    /// The number of documents.
    pub fn len(&self) -> (n: usize)
        requires
            self.wf(),
        ensures
            n == self@.dom().len(),
            n == self.ids().len(),
    {
        proof {
            self.lemma_view();
        }
        self.records.len()
    }

    /// The identifier of the document at position `i`.
    pub fn id_at(&self, i: usize) -> (id: &String)
        requires
            self.wf(),
            i < self.ids().len(),
        ensures
            id@ == self.ids()[i as int],
    {
        proof {
            self.lemma_view();
        }
        &self.records[i].id
    }

    /// The record of the document at position `i`.
    pub fn doc_at(&self, i: usize) -> (doc: &Doc)
        requires
            self.wf(),
            i < self.ids().len(),
        ensures
            doc.wf(),
            self@.dom().contains(self.ids()[i as int]),
            doc@ == self@[self.ids()[i as int]],
    {
        proof {
            self.lemma_view();
        }
        &self.records[i].doc
    }

    /// The record of the document `id`, if the index has one.
    pub fn get(&self, id: &str) -> (found: Option<&Doc>)
        requires
            self.wf(),
        ensures
            match found {
                Some(doc) => doc.wf() && self@.dom().contains(id@) && doc@ == self@[id@],
                None => !self@.dom().contains(id@),
            },
    {
        proof {
            self.lemma_view();
        }
        match self.position(id) {
            Some(i) => Some(&self.records[i].doc),
            None => None,
        }
    }

    /// The number of documents that hold `term`.
    pub fn document_frequency(&self, term: &str) -> (n: usize)
        requires
            self.wf(),
        ensures
            n == document_frequency(self@, term@),
            n == self.frequencies().count(term@),
    {
        proof {
            self.lemma_frequencies(term@);
        }
        self.df.get(term)
    }

    /// The table of document frequencies.
    pub fn frequency_table(&self) -> (table: &FreqTable)
        requires
            self.wf(),
        ensures
            table.wf(),
            table@ == self.frequencies(),
    {
        &self.df
    }

    /// The terms that some document holds, each with its document
    /// frequency.
    pub fn document_frequencies(&self) -> (list: Vec<(String, usize)>)
        requires
            self.wf(),
        ensures
            bag_of(list@) == self.frequencies(),
            forall|i: int, j: int| 0 <= i < j < list.len() ==> list[i].0@ != list[j].0@,
            forall|i: int|
                0 <= i < list.len() ==> (#[trigger] list[i]).1 == document_frequency(self@, list[i].0@)
                    && list[i].1 >= 1,
    {
        let list = self.df.pairs();
        proof {
            self.df.lemma_keys();
            assert forall|i: int| 0 <= i < list.len() implies (#[trigger] list[i]).1 == document_frequency(
                self@,
                list[i].0@,
            ) && list[i].1 >= 1 by {
                self.lemma_frequencies(list[i].0@);
                assert(self.df.keys().contains(self.df.keys()[i]));
            }
        }
        list
    }

    /// The document frequencies as the index keeps them: each term as often
    /// as the index counts documents for it.
    pub closed spec fn frequencies(&self) -> Multiset<Seq<char>> {
        self.df@
    }

    /// The identifiers are those of the documents of the index, each listed
    /// once.
    pub proof fn lemma_ids(&self)
        requires
            self.wf(),
        ensures
            self.ids().no_duplicates(),
            self.ids().to_set() == self@.dom(),
            self@.dom().finite(),
            self@.dom().len() == self.ids().len(),
    {
        self.lemma_view();
    }

    /// The document frequencies that the index keeps are right: for every
    /// term, the index counts as many documents as hold the term.
    pub proof fn lemma_frequencies(&self, t: Seq<char>)
        requires
            self.wf(),
        ensures
            self.frequencies().count(t) == document_frequency(self@, t),
            document_frequency(self@, t) <= self@.dom().len(),
    {
        lemma_view_of(self.records@);
        lemma_carriers(self.records@, t);
    }

    /// Takes the record of `id` out of the index, and with it one document
    /// from the frequency of each term that the record holds. Where the
    /// index has no record of `id`, nothing changes.
    pub fn remove_document(&mut self, id: &str)
        requires
            old(self).wf(),
        ensures
            final(self).wf(),
            final(self)@ == old(self)@.remove(id@),
            final(self).ids() == without(old(self).ids(), id@),
    {
        proof {
            self.lemma_view();
        }
        let at = match self.position(id) {
            Some(at) => at,
            None => {
                assert(self@ =~= old(self)@.remove(id@));
                return ;
            },
        };
        let gone = self.records.remove(at);
        let ghost rest = self.records@;
        let ghost keys = gone.doc.distinct();
        proof {
            lemma_view_of_remove(old(self).records@, at as int);
            gone.doc.lemma_distinct();
            assert forall|t: Seq<char>|
                self.df@.count(t) + among(keys, 0, t) == #[trigger] carriers(rest, t) + holds(gone, t) by {
                lemma_carriers_remove(old(self).records@, at as int, t);
            }
        }
        let n = gone.doc.tf.len();
        let mut i: usize = 0;
        while i < n
            invariant
                i <= n,
                n == keys.len(),
                keys == gone.doc.distinct(),
                gone.doc.wf(),
                keys.no_duplicates(),
                forall|t: Seq<char>| keys.contains(t) <==> #[trigger] holds(gone, t) == 1,
                self.df.wf(),
                self.records@ == rest,
                forall|t: Seq<char>|
                    self.df@.count(t) + among(keys, i as int, t) == #[trigger] carriers(rest, t) + holds(
                        gone,
                        t,
                    ),
            decreases n - i,
        {
            broadcast use {
                vstd::multiset::group_multiset_axioms,
                vstd::seq_lib::lemma_seq_contains_after_push,
            };

            let term = gone.doc.tf.term(i);
            let ghost before = self.df@;
            proof {
                assert(keys[i as int] == term@);
                assert(keys.contains(term@));
                assert(among(keys, i as int, term@) == 0);
                assert(holds(gone, term@) == 1);
                assert(before.count(term@) + 0 == carriers(rest, term@) + holds(gone, term@));
            }
            self.df.decrement(term.as_str());
            i += 1;
            proof {
                assert(keys.take(i as int) =~= keys.take(i - 1).push(term@));
                assert forall|t: Seq<char>|
                    self.df@.count(t) + among(keys, i as int, t) == #[trigger] carriers(rest, t) + holds(
                        gone,
                        t,
                    ) by {
                    assert(before.count(t) + among(keys, i - 1, t) == carriers(rest, t) + holds(gone, t));
                }
            }
        }
        proof {
            assert(keys.take(n as int) =~= keys);
            assert forall|t: Seq<char>| self.df@.count(t) == carriers(self.records@, t) by {
                assert(self.df@.count(t) + among(keys, n as int, t) == carriers(rest, t) + holds(gone, t));
            }
        }
    }

    /// Stores `doc` as the record of `id`, in place of the record that the
    /// index had of `id`, if it had one, and counts one document more for
    /// each distinct term of `doc`.
    pub fn insert(&mut self, id: String, doc: Doc)
        requires
            old(self).wf(),
            doc.wf(),
        ensures
            final(self).wf(),
            final(self)@ == old(self)@.insert(id@, doc@),
            final(self).ids() == stored_last(old(self).ids(), id@),
    {
        self.remove_document(id.as_str());
        let ghost base = self.records@;
        let ghost fresh = Stored { id, doc };
        let ghost keys = doc.distinct();
        proof {
            lemma_without(old(self).ids(), id@);
            lemma_view_of_push(base, fresh);
            doc.lemma_distinct();
            assert(old(self)@.remove(id@).insert(id@, doc@) =~= old(self)@.insert(id@, doc@));
            assert forall|t: Seq<char>|
                self.df@.count(t) == #[trigger] carriers(base, t) + among(keys, 0, t) by {}
        }
        self.records.push(Stored { id, doc });
        let at = self.records.len() - 1;
        let n = self.records[at].doc.tf.len();
        let mut i: usize = 0;
        while i < n
            invariant
                i <= n,
                n == keys.len(),
                at < self.records.len(),
                self.records@ == base.push(fresh),
                at == base.len(),
                fresh.doc.wf(),
                keys == fresh.doc.distinct(),
                keys.no_duplicates(),
                ids_of(base).no_duplicates(),
                self.df.wf(),
                forall|t: Seq<char>|
                    self.df@.count(t) == #[trigger] carriers(base, t) + among(keys, i as int, t),
            decreases n - i,
        {
            broadcast use {
                vstd::multiset::group_multiset_axioms,
                vstd::seq_lib::lemma_seq_contains_after_push,
            };

            let term = self.records[at].doc.tf.term(i).clone();
            let ghost before = self.df@;
            proof {
                assert(keys[i as int] == term@);
                assert(among(keys, i as int, term@) == 0);
                lemma_carriers(base, term@);
                assert(before.count(term@) == carriers(base, term@) + 0);
            }
            self.df.increment(term);
            i += 1;
            proof {
                assert(keys.take(i as int) =~= keys.take(i - 1).push(term@));
                assert forall|t: Seq<char>|
                    self.df@.count(t) == #[trigger] carriers(base, t) + among(keys, i as int, t) by {
                    assert(before.count(t) == carriers(base, t) + among(keys, i - 1, t));
                }
            }
        }
        proof {
            assert(keys.take(n as int) =~= keys);
            assert forall|t: Seq<char>| self.df@.count(t) == carriers(self.records@, t) by {
                lemma_carriers_push(base, fresh, t);
                assert(self.df@.count(t) == carriers(base, t) + among(keys, n as int, t));
                assert(keys.contains(t) <==> holds(fresh, t) == 1);
            }
        }
    }

    /// Reads `content` as the document `id` in its state of `last_modified`
    /// and stores its record, in place of the record that the index had of
    /// `id`, if it had one.
    pub fn add_document(&mut self, id: String, last_modified: u64, content: &[char])
        requires
            old(self).wf(),
        ensures
            final(self).wf(),
            final(self)@ == added(old(self)@, id@, last_modified, content@),
            final(self).ids() == stored_last(old(self).ids(), id@),
    {
        let doc = Doc::index(content, last_modified);
        self.insert(id, doc);
    }
}

} // verus!
