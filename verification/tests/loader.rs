use english_tool::words::parse_word_list;

#[test]
fn single_line_example() {
    // the documented example: second token is the word, the rest (leading
    // space included) is the translation
    let ws = parse_word_list("1 apple a red fruit").unwrap();
    assert_eq!(ws.len(), 1);
    assert_eq!(ws[0].word, "apple");
    assert_eq!(ws[0].translated, " a red fruit");
}

#[test]
fn one_entry_per_nonempty_line_in_order() {
    let text = "1 apple a red fruit\n2 pear a green fruit\n\n3 plum a purple fruit\n";
    let ws = parse_word_list(text).unwrap();
    assert_eq!(ws.len(), 3);
    assert_eq!(ws[0].word, "apple");
    assert_eq!(ws[1].word, "pear");
    assert_eq!(ws[2].word, "plum");
    assert_eq!(ws[1].translated, " a green fruit");
}

#[test]
fn empty_text_gives_no_entries() {
    let ws = parse_word_list("").unwrap();
    assert_eq!(ws.len(), 0);
}

#[test]
fn word_without_translation() {
    let ws = parse_word_list("7 apple").unwrap();
    assert_eq!(ws.len(), 1);
    assert_eq!(ws[0].word, "apple");
    assert_eq!(ws[0].translated, "");
}

#[test]
fn malformed_line_is_fatal() {
    // a non-empty line without any space cannot be split into two tokens
    assert_eq!(parse_word_list("apple"), Err(0));
    assert_eq!(parse_word_list("1 apple ok\nbroken\n2 pear ok"), Err(1));
    assert_eq!(parse_word_list("1 apple ok\n\n2 pear ok\nbroken"), Err(3));
}

#[test]
fn word_repeated_inside_translation() {
    // tokenization takes the rest of the line after the second token, even
    // when the word itself shows up again later
    let ws = parse_word_list("1 a b a c").unwrap();
    assert_eq!(ws[0].word, "a");
    assert_eq!(ws[0].translated, " b a c");
}
