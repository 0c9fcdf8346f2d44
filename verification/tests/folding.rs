use tf_df::{
    add_counts, count, folder, new_hash_map, try_add_counts, try_fold_text, Block, TermCounts,
};

fn toy() -> Block {
    Block { first: 'A', last: 'B' }
}

fn fold_all(start: TermCounts, docs: &[&str]) -> TermCounts {
    let mut counts = start;
    for doc in docs {
        counts = try_fold_text(counts, doc, toy()).unwrap();
    }
    counts
}

#[test]
fn new_map_is_empty() {
    assert!(new_hash_map().is_empty());
}

#[test]
fn count_gives_occurrences_per_token() {
    let words = count("A-B-A", toy());
    assert_eq!(words.len(), 2);
    assert_eq!(words.get("A"), Some(&2));
    assert_eq!(words.get("B"), Some(&1));
    assert_eq!(words.get("AB"), None);
}

#[test]
fn count_of_text_without_tokens_is_empty() {
    assert!(count("", toy()).is_empty());
    assert!(count("-- --", toy()).is_empty());
}

#[test]
fn count_is_the_same_for_the_same_text() {
    assert_eq!(count("AB A AB B AB", toy()), count("AB A AB B AB", toy()));
}

#[test]
fn two_documents_of_a_toy_alphabet() {
    let counts = fold_all(new_hash_map(), &["A-B-A", "A B"]);
    assert_eq!(counts.len(), 2);
    assert_eq!(counts.get("A"), Some(&(3, 2)));
    assert_eq!(counts.get("B"), Some(&(2, 2)));
}

#[test]
fn one_document_contributes_one_to_document_frequency() {
    let counts = fold_all(new_hash_map(), &["A A A A"]);
    assert_eq!(counts.get("A"), Some(&(4, 1)));
}

#[test]
fn folder_counts_devanagari_tokens() {
    let counts = folder(new_hash_map(), "राम राम sita राम, श्याम".to_string());
    assert_eq!(counts.len(), 2);
    assert_eq!(counts.get("राम"), Some(&(3, 1)));
    assert_eq!(counts.get("श्याम"), Some(&(1, 1)));
    let counts = folder(counts, "श्याम".to_string());
    assert_eq!(counts.get("राम"), Some(&(3, 1)));
    assert_eq!(counts.get("श्याम"), Some(&(2, 2)));
}

#[test]
fn folder_ignores_text_of_other_scripts() {
    let counts = folder(new_hash_map(), "only latin text, 123".to_string());
    assert!(counts.is_empty());
}

#[test]
fn merge_adds_both_frequencies() {
    let left = fold_all(new_hash_map(), &["A-B-A"]);
    let right = fold_all(new_hash_map(), &["A B", "BB"]);
    let merged = add_counts(left, right);
    assert_eq!(merged.len(), 3);
    assert_eq!(merged.get("A"), Some(&(3, 2)));
    assert_eq!(merged.get("B"), Some(&(2, 2)));
    assert_eq!(merged.get("BB"), Some(&(1, 1)));
}

#[test]
fn merge_with_empty_map_changes_nothing() {
    let counts = fold_all(new_hash_map(), &["A-B-A", "AB"]);
    assert_eq!(add_counts(counts.clone(), new_hash_map()), counts);
    assert_eq!(add_counts(new_hash_map(), counts.clone()), counts);
    assert_eq!(add_counts(new_hash_map(), new_hash_map()), new_hash_map());
}

#[test]
fn merge_is_commutative() {
    let one = fold_all(new_hash_map(), &["A-B-A", "AB"]);
    let two = fold_all(new_hash_map(), &["B", "AB AB A"]);
    assert_eq!(add_counts(one.clone(), two.clone()), add_counts(two, one));
}

#[test]
fn three_way_split_in_any_order_equals_one_pass() {
    let docs = ["A-B-A", "A B", "AB BA AB", "", "B B B", "A"];
    let whole = fold_all(new_hash_map(), &docs);
    let g1 = fold_all(new_hash_map(), &docs[0..2]);
    let g2 = fold_all(new_hash_map(), &docs[2..3]);
    let g3 = fold_all(new_hash_map(), &docs[3..6]);
    let left_first = add_counts(add_counts(g1.clone(), g2.clone()), g3.clone());
    let right_first = add_counts(g1.clone(), add_counts(g2.clone(), g3.clone()));
    let shuffled = add_counts(add_counts(g3.clone(), g1.clone()), g2.clone());
    assert_eq!(left_first, whole);
    assert_eq!(right_first, whole);
    assert_eq!(shuffled, whole);
}

#[test]
fn groups_that_interleave_the_documents_equal_one_pass() {
    let docs = ["A-B-A", "A B", "AB BA AB", "B B B", "A"];
    let whole = fold_all(new_hash_map(), &docs);
    let odd = fold_all(new_hash_map(), &[docs[0], docs[2], docs[4]]);
    let even = fold_all(new_hash_map(), &[docs[3], docs[1]]);
    assert_eq!(add_counts(even, odd), whole);
}

#[test]
fn fold_continues_from_given_counts() {
    let first = fold_all(new_hash_map(), &["A-B-A"]);
    let both = fold_all(first, &["A B"]);
    assert_eq!(both, fold_all(new_hash_map(), &["A-B-A", "A B"]));
}

#[test]
fn merge_that_overflows_is_refused() {
    let mut left = new_hash_map();
    left.insert("A".to_string(), (usize::MAX, 1));
    let right = fold_all(new_hash_map(), &["A"]);
    assert_eq!(try_add_counts(left, right), None);

    let mut left = new_hash_map();
    left.insert("A".to_string(), (5, usize::MAX));
    let right = fold_all(new_hash_map(), &["A"]);
    assert_eq!(try_add_counts(left, right), None);
}

#[test]
fn merge_at_the_edge_of_the_range_succeeds() {
    let mut left = new_hash_map();
    left.insert("A".to_string(), (usize::MAX - 1, usize::MAX - 1));
    let right = fold_all(new_hash_map(), &["A"]);
    let merged = try_add_counts(left, right).unwrap();
    assert_eq!(merged.get("A"), Some(&(usize::MAX, usize::MAX)));
}

#[test]
fn fold_that_overflows_is_refused() {
    let mut counts = new_hash_map();
    counts.insert("B".to_string(), (usize::MAX - 1, 7));
    assert_eq!(try_fold_text(counts.clone(), "B-B", toy()), None);
    let once = try_fold_text(counts, "B", toy()).unwrap();
    assert_eq!(once.get("B"), Some(&(usize::MAX, 8)));
}

#[test]
fn merge_keeps_entries_with_zero_counts() {
    let mut right = new_hash_map();
    right.insert("A".to_string(), (0, 0));
    let merged = add_counts(new_hash_map(), right);
    assert_eq!(merged.get("A"), Some(&(0, 0)));
}
