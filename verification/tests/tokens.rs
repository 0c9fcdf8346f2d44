use tf_df::{tokenize, Block};

fn toy() -> Block {
    Block { first: 'A', last: 'B' }
}

#[test]
fn empty_text_has_no_tokens() {
    assert_eq!(tokenize("", toy()), Vec::<String>::new());
    assert_eq!(tokenize("", Block::devanagari()), Vec::<String>::new());
}

#[test]
fn text_of_block_codepoints_is_one_token() {
    assert_eq!(tokenize("ABBA", toy()), vec!["ABBA".to_string()]);
    assert_eq!(tokenize("A", toy()), vec!["A".to_string()]);
}

#[test]
fn separators_collapse_and_are_dropped() {
    assert_eq!(tokenize("--A---B B--", toy()), vec!["A".to_string(), "B".to_string(), "B".to_string()]);
    assert_eq!(tokenize("- -- ", toy()), Vec::<String>::new());
}

#[test]
fn run_at_the_end_is_a_token() {
    assert_eq!(tokenize("A-AB", toy()), vec!["A".to_string(), "AB".to_string()]);
    assert_eq!(tokenize("-AB", toy()), vec!["AB".to_string()]);
}

#[test]
fn tokens_equal_the_nonempty_pieces_of_a_split_on_separators() {
    let text = "xAByyBA-A--zBBBq";
    let by_split: Vec<String> = text
        .split(|c: char| !(('A'..='B').contains(&c)))
        .filter(|piece| !piece.is_empty())
        .map(|piece| piece.to_string())
        .collect();
    assert_eq!(tokenize(text, toy()), by_split);
}

#[test]
fn devanagari_block_has_its_bounds() {
    let block = Block::devanagari();
    assert_eq!(block.first, '\u{0900}');
    assert_eq!(block.last, '\u{097F}');
    assert!(block.contains('\u{0900}'));
    assert!(block.contains('\u{097F}'));
    assert!(block.contains('\u{0915}'));
    assert!(!block.contains('\u{08FF}'));
    assert!(!block.contains('\u{0980}'));
    assert!(!block.contains('a'));
}

#[test]
fn devanagari_tokens_among_latin_and_punctuation() {
    let text = "नमस्ते, world! यह एक परीक्षण है।";
    // The danda U+0964 belongs to the block and stays with its word.
    assert_eq!(
        tokenize(text, Block::devanagari()),
        vec![
            "नमस्ते".to_string(),
            "यह".to_string(),
            "एक".to_string(),
            "परीक्षण".to_string(),
            "है।".to_string(),
        ]
    );
}

#[test]
fn tokenizing_twice_gives_the_same_tokens() {
    let text = "AB-BA AB";
    assert_eq!(tokenize(text, toy()), tokenize(text, toy()));
}
