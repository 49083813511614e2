use docsearch::model::Model;
use docsearch::snapshot::{DocSnapshot, Snapshot};

fn chars(text: &str) -> Vec<char> {
    text.chars().collect()
}

fn pairs(list: &[(&str, usize)]) -> Vec<(String, usize)> {
    list.iter().map(|(term, n)| (term.to_string(), *n)).collect()
}

fn two_documents() -> Model {
    let mut model = Model::new();
    model.add_document("doc1".to_string(), 10, &chars("the cat sat on the mat"));
    model.add_document("doc2".to_string(), 20, &chars("the dog sat on the log"));
    model
}

fn small() -> Snapshot {
    Snapshot {
        docs: vec![
            DocSnapshot { id: "a".to_string(), tf: pairs(&[("x", 2), ("y", 1)]), count: 3, last_modified: 5 },
            DocSnapshot { id: "b".to_string(), tf: pairs(&[("y", 4)]), count: 4, last_modified: 6 },
        ],
        df: pairs(&[("x", 1), ("y", 2)]),
    }
}

#[test]
fn a_snapshot_lists_records_and_frequencies() {
    let s = two_documents().snapshot();
    assert_eq!(s.docs.len(), 2);
    assert_eq!(s.docs[0].id, "doc1");
    assert_eq!(s.docs[0].count, 6);
    assert_eq!(s.docs[0].last_modified, 10);
    assert_eq!(s.docs[0].tf, pairs(&[("the", 2), ("cat", 1), ("sat", 1), ("on", 1), ("mat", 1)]));
    assert_eq!(s.docs[1].id, "doc2");
    assert_eq!(s.docs[1].tf, pairs(&[("the", 2), ("dog", 1), ("sat", 1), ("on", 1), ("log", 1)]));
    assert_eq!(
        s.df,
        pairs(&[("the", 2), ("cat", 1), ("sat", 2), ("on", 2), ("mat", 1), ("dog", 1), ("log", 1)])
    );
}

#[test]
fn a_snapshot_brings_the_index_back() {
    let model = two_documents();
    let back = Model::restore(&model.snapshot()).unwrap();
    assert_eq!(back.len(), 2);
    assert_eq!(back.id_at(0), "doc1");
    assert_eq!(back.id_at(1), "doc2");
    for i in 0..2 {
        assert_eq!(back.doc_at(i).term_counts(), model.doc_at(i).term_counts());
        assert_eq!(back.doc_at(i).total_terms(), model.doc_at(i).total_terms());
        assert_eq!(back.doc_at(i).last_modified(), model.doc_at(i).last_modified());
    }
    for term in ["the", "cat", "sat", "on", "mat", "dog", "log", "bird"] {
        assert_eq!(back.document_frequency(term), model.document_frequency(term));
    }
    assert!(!back.requires_reindexing("doc1", 10));
}

#[test]
fn an_empty_snapshot_gives_an_empty_index() {
    let s = Model::new().snapshot();
    assert!(s.docs.is_empty());
    assert!(s.df.is_empty());
    assert_eq!(Model::restore(&s).unwrap().len(), 0);
}

#[test]
fn a_consistent_snapshot_is_accepted() {
    let model = Model::restore(&small()).unwrap();
    assert_eq!(model.len(), 2);
    assert_eq!(model.get("a").unwrap().term_count("x"), 2);
    assert_eq!(model.get("b").unwrap().total_terms(), 4);
    assert_eq!(model.document_frequency("y"), 2);
}

#[test]
fn frequencies_of_zero_say_nothing() {
    let mut s = small();
    s.df.push(("z".to_string(), 0));
    s.docs[0].tf.push(("w".to_string(), 0));
    let model = Model::restore(&s).unwrap();
    assert_eq!(model.document_frequency("z"), 0);
    assert_eq!(model.get("a").unwrap().term_count("w"), 0);
    assert_eq!(model.document_frequencies(), pairs(&[("x", 1), ("y", 2)]));
}

#[test]
fn two_records_of_one_document_are_refused() {
    let mut s = small();
    s.docs[1].id = "a".to_string();
    assert!(Model::restore(&s).is_none());
}

#[test]
fn a_wrong_number_of_terms_is_refused() {
    let mut s = small();
    s.docs[0].count = 4;
    assert!(Model::restore(&s).is_none());
}

#[test]
fn counts_beyond_the_machine_word_are_refused() {
    let mut s = small();
    s.docs[0].tf = pairs(&[("x", usize::MAX), ("y", 1)]);
    s.docs[0].count = 0;
    assert!(Model::restore(&s).is_none());
}

#[test]
fn a_wrong_document_frequency_is_refused() {
    let mut s = small();
    s.df = pairs(&[("x", 1), ("y", 1)]);
    assert!(Model::restore(&s).is_none());
    let mut s = small();
    s.df = pairs(&[("x", 1)]);
    assert!(Model::restore(&s).is_none());
    let mut s = small();
    s.df = pairs(&[("x", 1), ("y", 2), ("z", 1)]);
    assert!(Model::restore(&s).is_none());
    let mut s = small();
    s.df = pairs(&[("x", usize::MAX), ("x", 2), ("y", 2)]);
    assert!(Model::restore(&s).is_none());
}

#[test]
fn frequencies_given_in_parts_are_taken_together() {
    let mut s = small();
    s.df = pairs(&[("y", 1), ("x", 1), ("y", 1)]);
    assert!(Model::restore(&s).is_some());
}
