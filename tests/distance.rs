use rspell::edit_distance;

#[test]
fn no_change() {
    let distance = edit_distance("movie", "movie", None);
    assert_eq!(distance, Some(0), "the same word is itself");
}

#[test]
fn one_change() {
    let distance = edit_distance("dog", "dogs", None);
    assert_eq!(distance, Some(1), "`dog` and `dogs` are one letter away");
}

#[test]
fn two_changes() {
    let distance = edit_distance("movie", "love", None);
    assert_eq!(distance, Some(2), "`movie` and `love` are two changes away");
}

#[test]
fn distance_is_symmetric() {
    let pairs = [("kitten", "sitting"), ("movie", "love"), ("", "abc"), ("ab", "ba"), ("flaw", "lawn")];
    for (a, b) in pairs {
        assert_eq!(edit_distance(a, b, None), edit_distance(b, a, None));
    }
}

#[test]
fn distance_to_itself_is_zero_under_any_limit() {
    assert_eq!(edit_distance("word", "word", Some(0)), Some(0));
    assert_eq!(edit_distance("", "", None), Some(0));
    assert_eq!(edit_distance("apple", "apple", Some(3)), Some(0));
}

#[test]
fn classic_distances() {
    assert_eq!(edit_distance("kitten", "sitting", None), Some(3));
    assert_eq!(edit_distance("", "abc", None), Some(3));
    assert_eq!(edit_distance("abc", "", None), Some(3));
    assert_eq!(edit_distance("flaw", "lawn", None), Some(2));
    assert_eq!(edit_distance("ab", "ba", None), Some(2));
}

#[test]
fn distances_count_characters_not_bytes() {
    assert_eq!(edit_distance("café", "cafe", None), Some(1));
    assert_eq!(edit_distance("naïve", "naïve", None), Some(0));
}

#[test]
fn limit_at_or_above_distance_keeps_it() {
    assert_eq!(edit_distance("kitten", "sitting", Some(3)), Some(3));
    assert_eq!(edit_distance("kitten", "sitting", Some(10)), Some(3));
    assert_eq!(edit_distance("dog", "dogs", Some(1)), Some(1));
}

#[test]
fn limit_below_distance_gives_none() {
    assert_eq!(edit_distance("kitten", "sitting", Some(2)), None);
    assert_eq!(edit_distance("a", "abcdef", Some(2)), None);
    assert_eq!(edit_distance("abc", "xyz", Some(1)), None);
    // The last row's least cell is within the limit here, the distance is not.
    assert_eq!(edit_distance("ab", "ba", Some(1)), None);
}
