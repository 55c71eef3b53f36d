use rspell::{load_dictionary, tokenize, tokenize_word, Capitalization, Config};

#[test]
fn test_tokenize() {
    let results = tokenize("hello, MY name: is Bob.");
    assert_eq!(results[0].literal(), "hello");
    assert_eq!(results[1].literal(), "MY");
    assert_eq!(results[2].literal(), "name");
    assert_eq!(results[3].literal(), "is");
    assert_eq!(results[4].literal(), "Bob");
}

#[test]
fn test_cap() {
    let first = Capitalization::from("First");
    let upper = Capitalization::from("ALL");
    let lower = Capitalization::from("lower");
    let other = Capitalization::from("OtHeR");

    assert_eq!(first, Capitalization::First);
    assert_eq!(upper, Capitalization::UpperAll);
    assert_eq!(lower, Capitalization::LowerAll);
    assert_eq!(other, Capitalization::Other);

    assert_eq!(first.apply("HELLO"), "Hello");
    assert_eq!(upper.apply("hello"), "HELLO");
    assert_eq!(lower.apply("HElLO"), "hello");
    assert_eq!(other.apply("HeLLO"), "HeLLO");
}

#[test]
fn capitalization_edge_cases() {
    assert_eq!(Capitalization::from(""), Capitalization::Other);
    assert_eq!(Capitalization::from("A"), Capitalization::First);
    assert_eq!(Capitalization::from("a"), Capitalization::LowerAll);
    assert_eq!(Capitalization::from("don't"), Capitalization::LowerAll);
    assert_eq!(Capitalization::First.apply(""), "");
    assert_eq!(Capitalization::First.apply("x"), "X");
}

#[test]
fn tokens_carry_their_lines() {
    let results = tokenize("one\ntwo three\n\nfour");
    let seen: Vec<(&str, usize)> = results.iter().map(|t| (t.literal(), t.line())).collect();
    assert_eq!(seen, vec![("one", 0), ("two", 1), ("three", 1), ("four", 3)]);
}

#[test]
fn words_split_at_every_non_letter() {
    let results = tokenize_word("don't-stop2go", 4);
    let seen: Vec<(&str, usize)> = results.iter().map(|t| (t.literal(), t.line())).collect();
    assert_eq!(seen, vec![("don't", 4), ("stop", 4), ("go", 4)]);
    assert!(tokenize_word("", 0).is_empty());
    assert!(tokenize_word("123 ,.", 0).is_empty());
}

#[test]
fn report_for_a_misspelt_word() {
    let dictionary = load_dictionary(vec!["the".to_string(), "cat".to_string()]);
    let results = tokenize("Teh");
    assert_eq!(results[0].format(&dictionary), Some("line 1: \"Teh\" => The".to_string()));
}

#[test]
fn report_for_known_and_unknown_words() {
    let dictionary = load_dictionary(vec!["the".to_string(), "cat".to_string()]);
    let results = tokenize("the CAT\nzzzzzzzz");
    assert_eq!(results[0].format(&dictionary), None);
    assert_eq!(results[1].format(&dictionary), None);
    assert_eq!(results[2].format(&dictionary), Some("line 2: zzzzzzzz (no match found)".to_string()));
}

#[test]
fn config_takes_the_first_argument() {
    let config = Config::build(vec!["rspell".to_string(), "notes.txt".to_string()]).unwrap();
    assert_eq!(config.file_path(), "notes.txt");
    assert!(Config::build(vec!["rspell".to_string()]).is_none());
}

#[test]
fn word_tokens_keep_the_given_line() {
    let results = tokenize_word("a\nb", 0);
    let seen: Vec<(&str, usize)> = results.iter().map(|t| (t.literal(), t.line())).collect();
    assert_eq!(seen, vec![("a", 0), ("b", 0)]);
    let results = tokenize_word("x", usize::MAX);
    assert_eq!(results[0].line(), usize::MAX);
}

#[test]
fn non_ascii_white_space_separates_words() {
    let results = tokenize("one\u{a0}two\u{2003}three");
    let seen: Vec<&str> = results.iter().map(|t| t.literal()).collect();
    assert_eq!(seen, vec!["one", "two", "three"]);
}

#[test]
fn report_quotes_and_escapes_the_word() {
    let dictionary = load_dictionary(vec!["dont".to_string()]);
    let results = tokenize("\n\n\n\n\n\n\n\n\n\ndon't");
    assert_eq!(results[0].format(&dictionary), Some("line 11: \"don't\" => dont".to_string()));
}
