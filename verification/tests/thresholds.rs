use tf_df::{meets_thresholds, new_hash_map, retain_frequent, try_add_counts, try_fold_text, Block};

#[test]
fn token_above_both_thresholds_survives() {
    let mut counts = new_hash_map();
    counts.insert("t".to_string(), (5, 3));
    let kept = retain_frequent(counts, Some(4), Some(2));
    assert_eq!(kept.get("t"), Some(&(5, 3)));
    assert_eq!(kept.len(), 1);
}

#[test]
fn token_below_document_threshold_is_dropped() {
    let mut counts = new_hash_map();
    counts.insert("t".to_string(), (5, 3));
    let kept = retain_frequent(counts, Some(4), Some(4));
    assert!(kept.is_empty());
}

#[test]
fn token_below_term_threshold_is_dropped() {
    let mut counts = new_hash_map();
    counts.insert("t".to_string(), (5, 3));
    assert!(retain_frequent(counts, Some(6), Some(1)).is_empty());
}

#[test]
fn thresholds_are_met_at_equality() {
    assert!(meets_thresholds(5, 3, Some(5), Some(3)));
    assert!(!meets_thresholds(5, 3, Some(6), Some(3)));
    assert!(!meets_thresholds(5, 3, Some(5), Some(4)));
    assert!(meets_thresholds(5, 3, Some(4), Some(2)));
    assert!(!meets_thresholds(5, 3, Some(4), Some(4)));
}

#[test]
fn absent_thresholds_keep_everything() {
    assert!(meets_thresholds(0, 0, None, None));
    assert!(meets_thresholds(0, 9, None, Some(9)));
    assert!(!meets_thresholds(9, 0, None, Some(1)));
    assert!(meets_thresholds(9, 0, Some(9), None));
    let mut counts = new_hash_map();
    counts.insert("a".to_string(), (0, 0));
    counts.insert("b".to_string(), (7, 2));
    let kept = retain_frequent(counts.clone(), None, None);
    assert_eq!(kept, counts);
}

#[test]
fn filter_keeps_exactly_the_frequent_tokens() {
    let mut counts = new_hash_map();
    counts.insert("a".to_string(), (10, 1));
    counts.insert("b".to_string(), (3, 3));
    counts.insert("c".to_string(), (8, 4));
    counts.insert("d".to_string(), (1, 1));
    let kept = retain_frequent(counts, Some(3), Some(2));
    assert_eq!(kept.len(), 2);
    assert_eq!(kept.get("b"), Some(&(3, 3)));
    assert_eq!(kept.get("c"), Some(&(8, 4)));
}

#[test]
fn filter_of_empty_counts_is_empty() {
    assert!(retain_frequent(new_hash_map(), Some(1), Some(1)).is_empty());
}

#[test]
fn filtering_parts_before_the_merge_would_lose_a_token() {
    let toy = Block { first: 'A', last: 'B' };
    let one = try_fold_text(new_hash_map(), "A", toy).unwrap();
    let two = try_fold_text(new_hash_map(), "A", toy).unwrap();
    let whole = try_add_counts(one.clone(), two.clone()).unwrap();
    let after = retain_frequent(whole, Some(2), Some(2));
    assert_eq!(after.get("A"), Some(&(2, 2)));
    let early = try_add_counts(
        retain_frequent(one, Some(2), Some(2)),
        retain_frequent(two, Some(2), Some(2)),
    )
    .unwrap();
    assert!(early.is_empty());
}
