use tf_df::{lines_of, matching_words, word_set};

fn strings(items: &[&str]) -> Vec<String> {
    items.iter().map(|item| item.to_string()).collect()
}

#[test]
fn lines_are_the_pieces_between_line_feeds() {
    assert_eq!(lines_of("a\nbc\nd"), strings(&["a", "bc", "d"]));
}

#[test]
fn text_ending_in_a_line_feed_has_an_empty_last_line() {
    assert_eq!(lines_of("a\nb\n"), strings(&["a", "b", ""]));
}

#[test]
fn empty_text_is_one_empty_line() {
    assert_eq!(lines_of(""), strings(&[""]));
}

#[test]
fn neighbouring_line_feeds_give_empty_lines() {
    assert_eq!(lines_of("\n\nx"), strings(&["", "", "x"]));
}

#[test]
fn lines_agree_with_split() {
    let text = "राम\nश्याम\n\nsita\r\nend";
    let expected: Vec<String> = text.split('\n').map(|line| line.to_string()).collect();
    assert_eq!(lines_of(text), expected);
}

#[test]
fn known_words_of_a_root_come_in_suffix_order() {
    let known = word_set(strings(&["walked", "walks", "talks", "walk"]));
    let suffixes = strings(&["s", "ing", "ed", ""]);
    assert_eq!(matching_words("walk", &suffixes, &known), strings(&["walks", "walked", "walk"]));
    assert_eq!(matching_words("talk", &suffixes, &known), strings(&["talks"]));
    assert_eq!(matching_words("run", &suffixes, &known), Vec::<String>::new());
}

#[test]
fn a_suffix_listed_twice_gives_its_word_twice() {
    let known = word_set(strings(&["ab"]));
    assert_eq!(matching_words("a", &strings(&["b", "b"]), &known), strings(&["ab", "ab"]));
}

#[test]
fn no_suffixes_give_no_words() {
    let known = word_set(strings(&["a"]));
    assert_eq!(matching_words("a", &Vec::new(), &known), Vec::<String>::new());
}

#[test]
fn empty_set_knows_no_word() {
    let known = word_set(Vec::new());
    assert_eq!(matching_words("a", &strings(&["", "b"]), &known), Vec::<String>::new());
}
