use tf_df::{WordCounts, by_descending_count, descending_key, try_simplify_counts};

fn pair(source: &str, count: usize) -> (String, usize) {
    (source.to_string(), count)
}

#[test]
fn counts_of_labels_with_one_key_are_summed() {
    let table = try_simplify_counts(vec![
        pair("https://www.example.com/", 3),
        pair("news.example.com", 4),
        pair("example.org.np", 5),
        pair("http://example.com:8080", 1),
    ])
    .unwrap();
    assert_eq!(table.len(), 2);
    assert_eq!(table.get("example.com"), Some(&8));
    assert_eq!(table.get("example.org.np"), Some(&5));
}

#[test]
fn no_labels_give_an_empty_table() {
    assert!(try_simplify_counts(Vec::new()).unwrap().is_empty());
}

#[test]
fn label_with_count_zero_still_has_its_key() {
    let table = try_simplify_counts(vec![pair("a.example.com", 0)]).unwrap();
    assert_eq!(table.get("example.com"), Some(&0));
}

#[test]
fn sum_that_overflows_is_refused() {
    let table = try_simplify_counts(vec![
        pair("a.example.com", usize::MAX),
        pair("other.net", 1),
        pair("b.example.com", 1),
    ]);
    assert_eq!(table, None);
    let table = try_simplify_counts(vec![pair("a.example.com", usize::MAX - 1), pair("b.example.com", 1)]);
    assert_eq!(table.unwrap().get("example.com"), Some(&usize::MAX));
}

#[test]
fn descending_key_falls_as_the_count_rises() {
    assert_eq!(descending_key(0), usize::MAX);
    assert_eq!(descending_key(usize::MAX), 0);
    assert_eq!(descending_key(5), usize::MAX - 5);
}

#[test]
fn entries_come_from_the_most_frequent_down() {
    let mut table = WordCounts::default();
    table.insert("low.com".to_string(), 1);
    table.insert("high.com".to_string(), 100);
    table.insert("mid.com".to_string(), 10);
    table.insert("zero.com".to_string(), 0);
    let ranked = by_descending_count(table);
    assert_eq!(
        ranked,
        vec![pair("high.com", 100), pair("mid.com", 10), pair("low.com", 1), pair("zero.com", 0)]
    );
}

#[test]
fn ranking_keeps_every_entry_once() {
    let mut table = WordCounts::default();
    for (i, name) in ["a", "b", "c", "d", "e", "f"].iter().enumerate() {
        table.insert(name.to_string(), i % 2);
    }
    let ranked = by_descending_count(table.clone());
    assert_eq!(ranked.len(), 6);
    for window in ranked.windows(2) {
        assert!(window[0].1 >= window[1].1);
    }
    for (name, count) in &ranked {
        assert_eq!(table.get(name), Some(count));
    }
    let mut names: Vec<&String> = ranked.iter().map(|entry| &entry.0).collect();
    names.sort();
    names.dedup();
    assert_eq!(names.len(), 6);
}

#[test]
fn ranking_of_an_empty_table_is_empty() {
    assert!(by_descending_count(WordCounts::default()).is_empty());
}
