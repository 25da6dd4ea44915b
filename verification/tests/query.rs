use quartz_core::query::split_words;

#[test]
fn words_stand_between_white_space() {
    assert_eq!(split_words("search engine"), vec!["search", "engine"]);
    assert_eq!(split_words("  a\tb\r\nc  d "), vec!["a", "b", "c", "d"]);
    assert_eq!(split_words("one"), vec!["one"]);
    assert_eq!(split_words("\u{e9}t\u{e9}\u{2003}\u{1F980}"), vec!["\u{e9}t\u{e9}", "\u{1F980}"]);
}

#[test]
fn a_blank_query_has_no_words() {
    assert!(split_words("").is_empty());
    assert!(split_words(" \t\u{85}\u{2028}").is_empty());
}

#[test]
fn white_space_around_words_changes_nothing() {
    let words = split_words("x y");
    assert_eq!(split_words("x \u{a0}\ny"), words);
    assert_eq!(split_words("\u{3000}x y\u{b}"), words);
}

#[test]
fn every_character_separates_or_belongs_to_a_word() {
    for c in (0..0x11_0000u32).filter_map(char::from_u32) {
        let words = split_words(&format!("a{}b", c));
        if c.is_whitespace() {
            assert_eq!(words, vec!["a", "b"]);
        } else {
            assert_eq!(words, vec![format!("a{}b", c)]);
        }
    }
}
