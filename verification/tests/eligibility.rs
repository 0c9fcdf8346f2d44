use tf_df::{WordCounts, is_eligible, new_hash_map, try_fold_documents, Block, Document};

fn doc(source: &str, text: &str) -> Document {
    Document { source: source.to_string(), text: text.to_string() }
}

fn toy() -> Block {
    Block { first: 'A', last: 'B' }
}

#[test]
fn without_a_table_every_source_is_eligible() {
    assert!(is_eligible(None, 0, "anything"));
    assert!(is_eligible(None, usize::MAX, ""));
}

#[test]
fn source_is_looked_up_as_given() {
    let mut table = WordCounts::default();
    table.insert("https://www.example.com/".to_string(), 10);
    assert!(is_eligible(Some(&table), 10, "https://www.example.com/"));
    assert!(!is_eligible(Some(&table), 11, "https://www.example.com/"));
}

#[test]
fn source_is_looked_up_by_its_key_too() {
    let mut table = WordCounts::default();
    table.insert("example.com".to_string(), 10);
    assert!(is_eligible(Some(&table), 10, "https://www.example.com/"));
    assert!(is_eligible(Some(&table), 3, "sub.example.com"));
    assert!(!is_eligible(Some(&table), 11, "sub.example.com"));
    assert!(!is_eligible(Some(&table), 1, "example.org"));
}

#[test]
fn either_form_may_meet_the_threshold() {
    let mut table = WordCounts::default();
    table.insert("sub.example.com".to_string(), 2);
    table.insert("example.com".to_string(), 20);
    assert!(is_eligible(Some(&table), 2, "sub.example.com"));
    assert!(is_eligible(Some(&table), 20, "sub.example.com"));
    assert!(!is_eligible(Some(&table), 21, "sub.example.com"));
}

#[test]
fn unknown_source_is_not_eligible_even_at_threshold_zero() {
    let table = WordCounts::default();
    assert!(!is_eligible(Some(&table), 0, "example.com"));
}

#[test]
fn documents_are_folded_in_one_pass() {
    let docs = vec![doc("a.example.com", "A-B-A"), doc("b.example.com", "A B")];
    let counts = try_fold_documents(new_hash_map(), docs, None, 0, toy()).unwrap();
    assert_eq!(counts.len(), 2);
    assert_eq!(counts.get("A"), Some(&(3, 2)));
    assert_eq!(counts.get("B"), Some(&(2, 2)));
}

#[test]
fn only_documents_of_frequent_sources_are_folded() {
    let mut table = WordCounts::default();
    table.insert("example.com".to_string(), 5);
    table.insert("rare.org".to_string(), 1);
    let docs = vec![
        doc("https://www.example.com/", "A-B-A"),
        doc("rare.org", "B B B"),
        doc("unknown.net", "A A"),
        doc("news.example.com", "B"),
    ];
    let counts = try_fold_documents(new_hash_map(), docs, Some(&table), 2, toy()).unwrap();
    assert_eq!(counts.get("A"), Some(&(2, 1)));
    assert_eq!(counts.get("B"), Some(&(2, 2)));
}

#[test]
fn folding_no_documents_returns_the_counts() {
    let mut counts = new_hash_map();
    counts.insert("A".to_string(), (4, 2));
    let same = try_fold_documents(counts.clone(), Vec::new(), None, 0, toy()).unwrap();
    assert_eq!(same, counts);
}

#[test]
fn folding_documents_that_overflow_is_refused() {
    let mut counts = new_hash_map();
    counts.insert("A".to_string(), (usize::MAX - 1, 1));
    let docs = vec![doc("s", "A"), doc("s", "B"), doc("s", "A")];
    assert_eq!(try_fold_documents(counts, docs, None, 0, toy()), None);
}
