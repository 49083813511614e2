use docsearch::model::Model;
use docsearch::query::{divisor, Candidate, Matches};

fn chars(text: &str) -> Vec<char> {
    text.chars().collect()
}

fn two_documents() -> Model {
    let mut model = Model::new();
    model.add_document("doc1".to_string(), 10, &chars("the cat sat on the mat"));
    model.add_document("doc2".to_string(), 20, &chars("the dog sat on the log"));
    model
}

fn ids(found: &Matches) -> Vec<String> {
    found.candidates.iter().map(|c| c.id.clone()).collect()
}

fn score(found: &Matches, candidate: &Candidate) -> f32 {
    let mut sum = 0f32;
    for (j, term) in found.terms.iter().enumerate() {
        let tf = if candidate.total_terms == 0 {
            0f32
        } else {
            candidate.occurrences[j] as f32 / candidate.total_terms as f32
        };
        let idf = (found.documents as f32 / divisor(term.document_frequency) as f32).log10();
        sum += tf * idf;
    }
    sum
}

#[test]
fn a_query_finds_the_documents_that_hold_its_term() {
    let model = two_documents();
    let found = model.candidates(&chars("cat"));
    assert_eq!(found.documents, 2);
    assert_eq!(found.terms.len(), 1);
    assert_eq!(found.terms[0].term, "cat");
    assert_eq!(found.terms[0].document_frequency, 1);
    assert_eq!(ids(&found), vec!["doc1"]);
    assert_eq!(found.candidates[0].total_terms, 6);
    assert_eq!(found.candidates[0].occurrences, vec![1]);
}

#[test]
fn the_document_with_the_term_ranks_above_the_one_without() {
    let model = two_documents();
    let found = model.candidates(&chars("cat"));
    assert_eq!(ids(&found), vec!["doc1"]);
    let expected = (1f32 / 6f32) * 2f32.log10();
    assert_eq!(score(&found, &found.candidates[0]), expected);
    assert!(score(&found, &found.candidates[0]) > 0.0);
    assert!(!ids(&found).contains(&"doc2".to_string()));
}

#[test]
fn a_query_is_normalized_as_a_document_is() {
    let model = two_documents();
    let found = model.candidates(&chars("  CATS "));
    assert_eq!(found.terms.len(), 1);
    assert_eq!(found.terms[0].term, "cat");
    assert_eq!(ids(&found), vec!["doc1"]);
}

#[test]
fn a_query_without_a_shared_term_finds_nothing() {
    let model = two_documents();
    let found = model.candidates(&chars("bird 42"));
    assert_eq!(found.terms.len(), 2);
    assert_eq!(found.terms[0].document_frequency, 0);
    assert_eq!(found.terms[1].document_frequency, 0);
    assert!(found.candidates.is_empty());
}

#[test]
fn an_empty_query_finds_nothing() {
    let model = two_documents();
    let found = model.candidates(&chars(""));
    assert!(found.terms.is_empty());
    assert!(found.candidates.is_empty());
    assert_eq!(found.documents, 2);
}

#[test]
fn a_repeated_query_term_counts_each_time() {
    let model = two_documents();
    let once = model.candidates(&chars("cat"));
    let twice = model.candidates(&chars("cat cat"));
    assert_eq!(twice.terms.len(), 2);
    assert_eq!(twice.candidates[0].occurrences, vec![1, 1]);
    let single = score(&once, &once.candidates[0]);
    let double = score(&twice, &twice.candidates[0]);
    assert_eq!(double, single + single);
}

#[test]
fn a_term_in_every_document_scores_zero() {
    let model = two_documents();
    let found = model.candidates(&chars("the"));
    assert_eq!(found.terms[0].document_frequency, 2);
    assert_eq!(ids(&found), vec!["doc1", "doc2"]);
    assert_eq!(found.candidates[0].occurrences, vec![2]);
    assert_eq!(found.candidates[1].occurrences, vec![2]);
    assert_eq!(score(&found, &found.candidates[0]), 0.0);
    assert_eq!(score(&found, &found.candidates[1]), 0.0);
}

#[test]
fn the_denser_document_scores_no_less() {
    let mut model = Model::new();
    model.add_document("a".to_string(), 1, &chars("fish fish fish water"));
    model.add_document("b".to_string(), 1, &chars("fish water water water stone stone"));
    model.add_document("c".to_string(), 1, &chars("stone"));
    let found = model.candidates(&chars("fish"));
    assert_eq!(ids(&found), vec!["a", "b"]);
    assert_eq!(found.terms[0].document_frequency, 2);
    assert_eq!(found.candidates[0].occurrences, vec![3]);
    assert_eq!(found.candidates[0].total_terms, 4);
    assert_eq!(found.candidates[1].occurrences, vec![1]);
    assert_eq!(found.candidates[1].total_terms, 6);
    let a = score(&found, &found.candidates[0]);
    let b = score(&found, &found.candidates[1]);
    assert!(a >= b);
    assert_eq!(a, (3f32 / 4f32) * (3f32 / 2f32).log10());
    assert_eq!(b, (1f32 / 6f32) * (3f32 / 2f32).log10());
}

#[test]
fn a_removed_document_is_found_no_more() {
    let mut model = two_documents();
    assert_eq!(model.document_frequency("cat"), 1);
    model.remove_document("doc1");
    let found = model.candidates(&chars("cat"));
    assert!(!ids(&found).contains(&"doc1".to_string()));
    assert!(found.candidates.is_empty());
    assert_eq!(found.terms[0].document_frequency, 0);
    assert_eq!(model.document_frequency("cat"), 0);
    let rest = model.candidates(&chars("dog"));
    assert_eq!(ids(&rest), vec!["doc2"]);
    assert_eq!(rest.documents, 1);
}

#[test]
fn candidates_come_in_the_order_of_the_index() {
    let mut model = Model::new();
    model.add_document("z".to_string(), 1, &chars("apple pear"));
    model.add_document("m".to_string(), 1, &chars("pear"));
    model.add_document("a".to_string(), 1, &chars("apple"));
    let found = model.candidates(&chars("apple pear"));
    assert_eq!(ids(&found), vec!["z", "m", "a"]);
    assert_eq!(found.candidates[0].occurrences, vec![1, 1]);
    assert_eq!(found.candidates[1].occurrences, vec![0, 1]);
    assert_eq!(found.candidates[2].occurrences, vec![1, 0]);
    model.add_document("z".to_string(), 2, &chars("apple"));
    let again = model.candidates(&chars("apple pear"));
    assert_eq!(ids(&again), vec!["m", "a", "z"]);
}

#[test]
fn a_term_that_no_document_holds_counts_as_held_by_one() {
    assert_eq!(divisor(0), 1);
    assert_eq!(divisor(1), 1);
    assert_eq!(divisor(2), 2);
    assert_eq!(divisor(usize::MAX), usize::MAX);
}
