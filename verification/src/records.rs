//! The records of the index in the order in which they are stored, and how
//! this list stands for a map from identifiers to records.

use vstd::prelude::*;
use crate::model::{Doc, DocView, document_frequency, has_term, holders, without};

verus! {

/// One stored record with the identifier of its document.
#[derive(Debug)]
pub(crate) struct Stored {
    pub(crate) id: String,
    pub(crate) doc: Doc,
}

/// The identifiers of the records.
pub(crate) open spec fn ids_of(records: Seq<Stored>) -> Seq<Seq<char>> {
    records.map_values(|r: Stored| r.id@)
}

/// The records as a map from each document's identifier to what its record
/// says.
pub(crate) open spec fn view_of(records: Seq<Stored>) -> Map<Seq<char>, DocView> {
    Map::new(
        |id: Seq<char>| ids_of(records).contains(id),
        |id: Seq<char>| records[ids_of(records).index_of(id)].doc@,
    )
}

/// One if the record holds `t`, zero if not.
pub(crate) open spec fn holds(r: Stored, t: Seq<char>) -> nat {
    if has_term(r.doc@, t) {
        1
    } else {
        0
    }
}

/// The number of records that hold `t`.
pub(crate) open spec fn carriers(records: Seq<Stored>, t: Seq<char>) -> nat
    decreases records.len(),
{
    if records.len() == 0 {
        0
    } else {
        carriers(records.drop_last(), t) + holds(records.last(), t)
    }
}

/// Where no identifier occurs twice, the map holds each record under its
/// identifier.
pub(crate) proof fn lemma_view_of(records: Seq<Stored>)
    requires
        ids_of(records).no_duplicates(),
    ensures
        view_of(records).dom() == ids_of(records).to_set(),
        view_of(records).dom().finite(),
        view_of(records).dom().len() == records.len(),
        forall|i: int|
            0 <= i < records.len() ==> view_of(records).dom().contains(#[trigger] ids_of(records)[i])
                && view_of(records)[ids_of(records)[i]] == records[i].doc@,
{
    let ids = ids_of(records);
    vstd::seq_lib::seq_to_set_is_finite(ids);
    ids.unique_seq_to_set();
    assert(view_of(records).dom() =~= ids.to_set());
    assert forall|i: int| 0 <= i < records.len() implies view_of(records).dom().contains(#[trigger] ids[i])
        && view_of(records)[ids[i]] == records[i].doc@ by {
        assert(ids.contains(ids[i]));
        assert(ids.index_of(ids[i]) == i);
    }
}

/// Taking a record out of the list takes its document out of the map.
pub(crate) proof fn lemma_view_of_remove(records: Seq<Stored>, at: int)
    requires
        ids_of(records).no_duplicates(),
        0 <= at < records.len(),
    ensures
        ids_of(records.remove(at)) == without(ids_of(records), records[at].id@),
        ids_of(records.remove(at)).no_duplicates(),
        view_of(records.remove(at)) == view_of(records).remove(records[at].id@),
{
    let ids = ids_of(records);
    let rest = records.remove(at);
    let id = records[at].id@;
    assert(ids[at] == id);
    assert(ids.contains(id));
    assert(ids.index_of(id) == at);
    records.remove_ensures(at);
    ids.remove_ensures(at);
    assert(ids_of(rest) =~= ids.remove(at));
    assert forall|i: int, j: int| 0 <= i < rest.len() && 0 <= j < rest.len() && i != j implies ids_of(
        rest,
    )[i] != ids_of(rest)[j] by {
        let from_i = if i < at { i } else { i + 1 };
        let from_j = if j < at { j } else { j + 1 };
        assert(ids_of(rest)[i] == ids[from_i]);
        assert(ids_of(rest)[j] == ids[from_j]);
    }
    lemma_view_of(records);
    lemma_view_of(rest);
    assert(view_of(rest) =~= view_of(records).remove(id)) by {
        assert forall|k: Seq<char>| #[trigger] view_of(rest).dom().contains(k) implies view_of(
            records,
        ).remove(id).dom().contains(k) && view_of(rest)[k] == view_of(records).remove(id)[k] by {
            let j = choose|j: int| 0 <= j < rest.len() && ids_of(rest)[j] == k;
            let from_j = if j < at { j } else { j + 1 };
            assert(ids_of(rest)[j] == ids[from_j]);
            assert(ids[from_j] != ids[at]);
        }
        assert forall|k: Seq<char>| #[trigger] view_of(records).remove(id).dom().contains(k) implies view_of(
            rest,
        ).dom().contains(k) by {
            let j = choose|j: int| 0 <= j < ids.len() && ids[j] == k;
            let to_j = if j < at { j } else { j - 1 };
            assert(ids_of(rest)[to_j] == k);
        }
    }
}

/// Putting a record of a new document at the end of the list puts the
/// document into the map.
pub(crate) proof fn lemma_view_of_push(records: Seq<Stored>, r: Stored)
    requires
        ids_of(records).no_duplicates(),
        !ids_of(records).contains(r.id@),
    ensures
        ids_of(records.push(r)) == ids_of(records).push(r.id@),
        ids_of(records.push(r)).no_duplicates(),
        view_of(records.push(r)) == view_of(records).insert(r.id@, r.doc@),
{
    let ids = ids_of(records);
    let more = records.push(r);
    assert(ids_of(more) =~= ids.push(r.id@));
    assert forall|i: int, j: int| 0 <= i < more.len() && 0 <= j < more.len() && i != j implies ids_of(
        more,
    )[i] != ids_of(more)[j] by {
        if i < ids.len() {
            assert(ids[i] == ids_of(more)[i]);
        }
        if j < ids.len() {
            assert(ids[j] == ids_of(more)[j]);
        }
    }
    lemma_view_of(records);
    lemma_view_of(more);
    assert(view_of(more) =~= view_of(records).insert(r.id@, r.doc@)) by {
        assert forall|k: Seq<char>| #[trigger] view_of(more).dom().contains(k) implies view_of(
            records,
        ).insert(r.id@, r.doc@).dom().contains(k) && view_of(more)[k] == view_of(records).insert(
            r.id@,
            r.doc@,
        )[k] by {
            let j = choose|j: int| 0 <= j < more.len() && ids_of(more)[j] == k;
            if j < ids.len() {
                assert(ids[j] == k);
            }
        }
        assert forall|k: Seq<char>| #[trigger] view_of(records).insert(r.id@, r.doc@).dom().contains(
            k,
        ) implies view_of(more).dom().contains(k) by {
            if k == r.id@ {
                assert(ids_of(more)[ids.len() as int] == k);
            } else {
                let j = choose|j: int| 0 <= j < ids.len() && ids[j] == k;
                assert(ids_of(more)[j] == k);
            }
        }
    }
}

/// A record at the end of the list counts for the terms that it holds.
pub(crate) proof fn lemma_carriers_push(records: Seq<Stored>, r: Stored, t: Seq<char>)
    ensures
        carriers(records.push(r), t) == carriers(records, t) + holds(r, t),
{
    assert(records.push(r).drop_last() =~= records);
}

/// A record that is taken out of the list counts no more.
pub(crate) proof fn lemma_carriers_remove(records: Seq<Stored>, at: int, t: Seq<char>)
    requires
        0 <= at < records.len(),
    ensures
        carriers(records.remove(at), t) + holds(records[at], t) == carriers(records, t),
    decreases records.len(),
{
    if at == records.len() - 1 {
        assert(records.remove(at) =~= records.drop_last());
    } else {
        lemma_carriers_remove(records.drop_last(), at, t);
        assert(records.remove(at).drop_last() =~= records.drop_last().remove(at));
        assert(records.remove(at).last() == records.last());
    }
}

/// Where no identifier occurs twice, the records that hold `t` are as many
/// as the documents of the map that hold `t`, and no more than there are
/// records.
pub(crate) proof fn lemma_carriers(records: Seq<Stored>, t: Seq<char>)
    requires
        ids_of(records).no_duplicates(),
    ensures
        holders(view_of(records), t).finite(),
        carriers(records, t) == document_frequency(view_of(records), t),
        carriers(records, t) <= records.len(),
    decreases records.len(),
{
    if records.len() == 0 {
        assert(holders(view_of(records), t) =~= Set::empty());
    } else {
        let front = records.drop_last();
        let last = records.last();
        assert(records =~= front.push(last));
        assert(ids_of(front) =~= ids_of(records).drop_last());
        assert(!ids_of(front).contains(last.id@)) by {
            if ids_of(front).contains(last.id@) {
                let j = choose|j: int| 0 <= j < front.len() && ids_of(front)[j] == last.id@;
                assert(ids_of(records)[j] == ids_of(records)[records.len() - 1]);
            }
        }
        lemma_carriers(front, t);
        lemma_view_of_push(front, last);
        lemma_view_of(front);
        if has_term(last.doc@, t) {
            assert(holders(view_of(records), t) =~= holders(view_of(front), t).insert(last.id@));
        } else {
            assert(holders(view_of(records), t) =~= holders(view_of(front), t));
        }
    }
}

} // verus!
