//! The index in plain values, to be stored and brought back.
//!
//! A snapshot lists the records of the index and its document frequencies.
//! What is brought back is examined: a snapshot whose parts do not agree
//! with one another gives no index.

use vstd::prelude::*;
use crate::freq::{FreqTable, bag_of, lemma_bag_of_len, sum_of};
use crate::model::{Doc, DocView, Model, document_frequency, lemma_without, stored_last, without};

verus! {

/// One record of a snapshot.
#[derive(Debug)]
pub struct DocSnapshot {
    /// The identifier of the document.
    pub id: String,
    /// The terms of the document with their counts.
    pub tf: Vec<(String, usize)>,
    /// The number of terms of the document.
    pub count: usize,
    /// The time of the document's last change when it was read.
    pub last_modified: u64,
}

/// A snapshot of an index.
#[derive(Debug)]
pub struct Snapshot {
    /// The records, in the order in which the index held them.
    pub docs: Vec<DocSnapshot>,
    /// The terms with their document frequencies.
    pub df: Vec<(String, usize)>,
}

/// What a record of a snapshot says of its document.
pub open spec fn record_view(d: DocSnapshot) -> DocView {
    DocView { terms: bag_of(d.tf@), last_modified: d.last_modified }
}

/// The identifiers of the records of a snapshot.
pub open spec fn snapshot_ids(docs: Seq<DocSnapshot>) -> Seq<Seq<char>> {
    docs.map_values(|d: DocSnapshot| d.id@)
}

/// The records of a snapshot as a map from each document's identifier to
/// what its record says.
pub open spec fn snapshot_docs(docs: Seq<DocSnapshot>) -> Map<Seq<char>, DocView> {
    Map::new(
        |id: Seq<char>| snapshot_ids(docs).contains(id),
        |id: Seq<char>| record_view(docs[snapshot_ids(docs).index_of(id)]),
    )
}

/// Whether the parts of a snapshot agree: no document has two records, the
/// counts of each record add up to its number of terms, and each term's
/// document frequency is the number of records that hold the term.
pub open spec fn consistent(s: Snapshot) -> bool {
    &&& snapshot_ids(s.docs@).no_duplicates()
    &&& forall|i: int| 0 <= i < s.docs.len() ==> sum_of((#[trigger] s.docs[i]).tf@) == s.docs[i].count
    &&& forall|t: Seq<char>| #[trigger]
        bag_of(s.df@).count(t) == document_frequency(snapshot_docs(s.docs@), t)
}

/// Where no document has two records, the map of the records holds for
/// each record what the record says.
proof fn lemma_snapshot_docs(docs: Seq<DocSnapshot>)
    requires
        snapshot_ids(docs).no_duplicates(),
    ensures
        snapshot_docs(docs).dom() == snapshot_ids(docs).to_set(),
        forall|i: int|
            0 <= i < docs.len() ==> snapshot_docs(docs).dom().contains(#[trigger] snapshot_ids(docs)[i])
                && snapshot_docs(docs)[snapshot_ids(docs)[i]] == record_view(docs[i]),
{
    let ids = snapshot_ids(docs);
    assert(snapshot_docs(docs).dom() =~= ids.to_set());
    assert forall|i: int| 0 <= i < docs.len() implies snapshot_docs(docs).dom().contains(#[trigger] ids[i])
        && snapshot_docs(docs)[ids[i]] == record_view(docs[i]) by {
        assert(ids.contains(ids[i]));
        assert(ids.index_of(ids[i]) == i);
    }
}

/// Whether the map `docs` holds what the record `d` says, and the counts
/// of `d` add up to its number of terms.
spec fn brought(docs: Map<Seq<char>, DocView>, d: DocSnapshot) -> bool {
    &&& docs.dom().contains(d.id@)
    &&& docs[d.id@] == record_view(d)
    &&& sum_of(d.tf@) == d.count
}

impl Model {
    /// The index in plain values.
    pub fn snapshot(&self) -> (s: Snapshot)
        requires
            self.wf(),
        ensures
            consistent(s),
            snapshot_docs(s.docs@) == self@,
            snapshot_ids(s.docs@) == self.ids(),
    {
        let mut docs: Vec<DocSnapshot> = Vec::new();
        let n = self.len();
        let mut i: usize = 0;
        while i < n
            invariant
                self.wf(),
                n == self.ids().len(),
                i <= n,
                docs.len() == i,
                forall|k: int|
                    0 <= k < i ==> {
                        let d = #[trigger] docs[k];
                        &&& d.id@ == self.ids()[k]
                        &&& record_view(d) == self@[self.ids()[k]]
                        &&& sum_of(d.tf@) == d.count
                    },
            decreases n - i,
        {
            let doc = self.doc_at(i);
            docs.push(
                DocSnapshot {
                    id: self.id_at(i).clone(),
                    tf: doc.term_counts(),
                    count: doc.total_terms(),
                    last_modified: doc.last_modified(),
                },
            );
            i += 1;
        }
        let df = self.document_frequencies();
        let s = Snapshot { docs, df };
        proof {
            self.lemma_ids();
            assert(snapshot_ids(s.docs@) =~= self.ids());
            lemma_snapshot_docs(s.docs@);
            assert(snapshot_docs(s.docs@) =~= self@) by {
                assert forall|id: Seq<char>| self@.dom().contains(id) implies snapshot_docs(s.docs@)[id]
                    == self@[id] by {
                    let k = self.ids().index_of(id);
                    assert(self.ids()[k] == id);
                    assert(snapshot_ids(s.docs@)[k] == id);
                }
            }
            assert forall|t: Seq<char>| #[trigger]
                bag_of(s.df@).count(t) == document_frequency(snapshot_docs(s.docs@), t) by {
                self.lemma_frequencies(t);
            }
        }
        s
    }

    /// The index that a snapshot was taken of, if the parts of the snapshot
    /// agree.
    pub fn restore(snapshot: &Snapshot) -> (made: Option<Model>)
        ensures
            match made {
                Some(model) => consistent(*snapshot) && model.wf() && model@ == snapshot_docs(snapshot.docs@)
                    && model.ids() == snapshot_ids(snapshot.docs@),
                None => !consistent(*snapshot),
            },
    {
        let ghost ids = snapshot_ids(snapshot.docs@);
        let mut model = Model::new();
        let mut i: usize = 0;
        while i < snapshot.docs.len()
            invariant
                i <= snapshot.docs.len(),
                ids == snapshot_ids(snapshot.docs@),
                model.wf(),
                model.ids() == ids.take(i as int),
                forall|k: int| 0 <= k < i ==> brought(model@, #[trigger] snapshot.docs[k]),
            decreases snapshot.docs.len() - i,
        {
            let d = &snapshot.docs[i];
            let ghost before = model@;
            proof {
                model.lemma_ids();
                assert(ids[i as int] == d.id@);
                lemma_bag_of_len(d.tf@);
            }
            if model.get(d.id.as_str()).is_some() {
                proof {
                    assert(ids.take(i as int).contains(d.id@));
                    let k = ids.take(i as int).index_of(d.id@);
                    assert(ids.take(i as int)[k] == d.id@);
                    assert(ids[k] == ids[i as int]);
                }
                return None;
            }
            let doc = match Doc::from_counts(&d.tf, d.last_modified) {
                Some(doc) => doc,
                None => {
                    return None;
                },
            };
            if doc.total_terms() != d.count {
                return None;
            }
            model.insert(d.id.clone(), doc);
            i += 1;
            proof {
                assert(!ids.take(i - 1).contains(d.id@));
                assert(ids.take(i as int) =~= ids.take(i - 1).push(d.id@));
                assert forall|k: int| 0 <= k < i implies brought(model@, #[trigger] snapshot.docs[k]) by {
                    if k < i - 1 {
                        assert(brought(before, snapshot.docs[k]));
                        assert(ids.take(i - 1)[k] == ids[k]);
                        assert(ids.take(i - 1).contains(ids[k]));
                    }
                }
            }
        }
        proof {
            assert(ids.take(i as int) =~= ids);
            model.lemma_ids();
            lemma_snapshot_docs(snapshot.docs@);
            assert(model@ =~= snapshot_docs(snapshot.docs@)) by {
                assert forall|id: Seq<char>| model@.dom().contains(id) implies model@[id] == snapshot_docs(
                    snapshot.docs@,
                )[id] by {
                    let k = ids.index_of(id);
                    assert(ids[k] == id);
                    assert(brought(model@, snapshot.docs[k]));
                }
            }
        }
        let given = match FreqTable::from_pairs(&snapshot.df) {
            Some(given) => given,
            None => {
                proof {
                    let t = choose|t: Seq<char>| bag_of(snapshot.df@).count(t) > usize::MAX;
                    model.lemma_frequencies(t);
                }
                return None;
            },
        };
        if !model.frequency_table().same_as(&given) {
            proof {
                if consistent(*snapshot) {
                    assert forall|t: Seq<char>| model.frequencies().count(t) == given@.count(t) by {
                        model.lemma_frequencies(t);
                    }
                    assert(model.frequencies() =~= given@);
                }
            }
            return None;
        }
        proof {
            assert forall|t: Seq<char>| #[trigger]
                bag_of(snapshot.df@).count(t) == document_frequency(snapshot_docs(snapshot.docs@), t) by {
                model.lemma_frequencies(t);
            }
            assert(snapshot_ids(snapshot.docs@).no_duplicates());
            assert forall|k: int| 0 <= k < snapshot.docs.len() implies sum_of(
                (#[trigger] snapshot.docs[k]).tf@,
            ) == snapshot.docs[k].count by {
                assert(brought(model@, snapshot.docs[k]));
            }
            assert(consistent(*snapshot));
        }
        Some(model)
    }
}

} // verus!
