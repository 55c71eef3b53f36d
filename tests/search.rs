use rspell::{load_dictionary, spellcheck, Correction, MAX_DIFFERENCE, edit_distance};

fn dictionary_of(words: &[&str]) -> Vec<String> {
    load_dictionary(words.iter().map(|w| w.to_string()).collect())
}

#[test]
fn suggests_the_word_one_edit_away() {
    let dictionary = dictionary_of(&["cat", "cats", "dog", "dogs"]);
    assert_eq!(spellcheck("dogz", &dictionary), Correction::Recommendation("dogs"));
}

#[test]
fn far_words_are_unknown() {
    let dictionary = dictionary_of(&["apple", "banana"]);
    assert_eq!(spellcheck("zzzzzzzzzz", &dictionary), Correction::Unknown);
}

#[test]
fn every_dictionary_word_is_correct() {
    let dictionary = dictionary_of(&["a", "apple", "banana", "cat", "cats", "dog", "dogs", "zebra"]);
    for word in dictionary.iter() {
        assert_eq!(spellcheck(word, &dictionary), Correction::Correct);
    }
}

#[test]
fn suggestions_stay_under_the_bound() {
    let dictionary = dictionary_of(&["apple", "banana", "cherry", "grape", "lemon", "mango"]);
    for query in ["appel", "bananna", "chery", "grap", "lemmon", "xyz", "mangoes", "qqqqq"] {
        if let Correction::Recommendation(w) = spellcheck(query, &dictionary) {
            let d = edit_distance(query, w, None).unwrap();
            assert!(d < MAX_DIFFERENCE);
        }
    }
}

#[test]
fn searching_twice_gives_the_same_answer() {
    let dictionary = dictionary_of(&["cat", "cats", "dog", "dogs", "hat"]);
    for query in ["dogz", "cta", "zzzzzzzz", "dog", "hats"] {
        assert_eq!(spellcheck(query, &dictionary), spellcheck(query, &dictionary));
    }
}

#[test]
fn closest_word_wins_over_nearer_neighbours() {
    let dictionary = dictionary_of(&["apple", "applesauce", "apply"]);
    assert_eq!(spellcheck("appla", &dictionary), Correction::Recommendation("apple"));
    let dictionary = dictionary_of(&["mango", "moving", "movies"]);
    assert_eq!(spellcheck("movie", &dictionary), Correction::Recommendation("movies"));
}

#[test]
fn ties_go_to_the_entry_the_walk_reaches_first() {
    let dictionary = dictionary_of(&["bat", "cat", "hat"]);
    assert_eq!(spellcheck("dat", &dictionary), Correction::Recommendation("hat"));
    let dictionary = dictionary_of(&["bat", "cat", "eat", "hat"]);
    assert_eq!(spellcheck("dat", &dictionary), Correction::Recommendation("hat"));
    let dictionary = dictionary_of(&["cat", "eat"]);
    assert_eq!(spellcheck("dat", &dictionary), Correction::Recommendation("eat"));
}

#[test]
fn first_entry_is_reachable() {
    let dictionary = dictionary_of(&["aardvark", "zebra", "zoo"]);
    assert_eq!(spellcheck("aardvarc", &dictionary), Correction::Recommendation("aardvark"));
}

#[test]
fn distance_equal_to_the_bound_is_not_suggested() {
    let dictionary = dictionary_of(&["abcd"]);
    assert_eq!(spellcheck("wxyz", &dictionary), Correction::Unknown);
    assert_eq!(spellcheck("wxyd", &dictionary), Correction::Recommendation("abcd"));
}

#[test]
fn empty_dictionary_knows_nothing() {
    let dictionary: Vec<String> = Vec::new();
    assert_eq!(spellcheck("word", &dictionary), Correction::Unknown);
}

#[test]
fn dictionary_is_trimmed_lowercased_ascii_and_sorted() {
    let lines = vec![
        "  Zebra\n".to_string(),
        "apple".to_string(),
        "Café".to_string(),
        "MANGO  ".to_string(),
        "banana\r\n".to_string(),
        "\u{3000}kiwi\u{a0}".to_string(),
    ];
    let dictionary = load_dictionary(lines);
    assert_eq!(dictionary, vec!["apple", "banana", "kiwi", "mango", "zebra"]);
}

#[test]
fn dictionary_keeps_duplicates() {
    let dictionary = dictionary_of(&["b", "a", "B", "c", "a"]);
    assert_eq!(dictionary, vec!["a", "a", "b", "b", "c"]);
}
