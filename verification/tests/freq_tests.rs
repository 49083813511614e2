use docsearch::freq::FreqTable;

#[test]
fn a_new_table_counts_nothing() {
    let table = FreqTable::new();
    assert_eq!(table.len(), 0);
    assert_eq!(table.get("a"), 0);
    assert_eq!(table.pairs(), Vec::<(String, usize)>::new());
}

#[test]
fn increment_counts_each_term() {
    let mut table = FreqTable::new();
    table.increment("a".to_string());
    table.increment("b".to_string());
    table.increment("a".to_string());
    assert_eq!(table.len(), 2);
    assert_eq!(table.get("a"), 2);
    assert_eq!(table.get("b"), 1);
    assert_eq!(table.get("c"), 0);
    assert_eq!(table.term(0), "a");
    assert_eq!(table.term(1), "b");
    assert_eq!(table.pairs(), vec![("a".to_string(), 2), ("b".to_string(), 1)]);
}

#[test]
fn add_counts_a_term_several_times() {
    let mut table = FreqTable::new();
    table.add("a".to_string(), 3);
    table.add("b".to_string(), 0);
    table.add("a".to_string(), 4);
    assert_eq!(table.get("a"), 7);
    assert_eq!(table.get("b"), 0);
    assert_eq!(table.pairs(), vec![("a".to_string(), 7)]);
}

#[test]
fn decrement_takes_one_count_away() {
    let mut table = FreqTable::new();
    table.add("a".to_string(), 2);
    table.add("b".to_string(), 1);
    table.add("c".to_string(), 1);
    table.decrement("a");
    assert_eq!(table.get("a"), 1);
    assert_eq!(table.len(), 3);
    table.decrement("b");
    assert_eq!(table.get("b"), 0);
    assert_eq!(table.pairs(), vec![("a".to_string(), 1), ("c".to_string(), 1)]);
}

#[test]
fn decrement_of_an_absent_term_changes_nothing() {
    let mut table = FreqTable::new();
    table.increment("a".to_string());
    table.decrement("b");
    assert_eq!(table.pairs(), vec![("a".to_string(), 1)]);
    table.decrement("a");
    table.decrement("a");
    assert_eq!(table.len(), 0);
    assert_eq!(table.get("a"), 0);
}

#[test]
fn a_table_is_made_of_terms_with_counts() {
    let list = vec![("a".to_string(), 2), ("b".to_string(), 0), ("a".to_string(), 1), ("c".to_string(), 5)];
    let table = FreqTable::from_pairs(&list).unwrap();
    assert_eq!(table.pairs(), vec![("a".to_string(), 3), ("c".to_string(), 5)]);
    let too_many = vec![("a".to_string(), usize::MAX), ("b".to_string(), 1), ("a".to_string(), 1)];
    assert!(FreqTable::from_pairs(&too_many).is_none());
    let at_the_limit = vec![("a".to_string(), usize::MAX), ("b".to_string(), usize::MAX)];
    assert!(FreqTable::from_pairs(&at_the_limit).is_some());
}

#[test]
fn tables_are_compared_by_what_they_count() {
    let mut one = FreqTable::new();
    one.add("a".to_string(), 2);
    one.add("b".to_string(), 1);
    let mut other = FreqTable::new();
    other.add("b".to_string(), 1);
    other.add("a".to_string(), 2);
    assert!(one.same_as(&other));
    assert!(other.same_as(&one));
    other.increment("a".to_string());
    assert!(!one.same_as(&other));
    other.decrement("a");
    other.increment("c".to_string());
    assert!(!one.same_as(&other));
    one.increment("d".to_string());
    assert!(!one.same_as(&other));
    assert!(FreqTable::new().same_as(&FreqTable::new()));
    assert!(!FreqTable::new().same_as(&one));
}
