use scaffy::casing::{apply_casing, join_words, split_words, string_to_casing, WordCasing};

#[test]
fn title_words_with_lower_first_word_joined_by_dash() {
    assert_eq!(string_to_casing("hello world", "-", WordCasing::Title, Some(WordCasing::Lower)), "hello-World");
}

#[test]
fn title_words_concatenated() {
    assert_eq!(string_to_casing("hello world", "", WordCasing::Title, None), "HelloWorld");
}

#[test]
fn preserve_collapses_whitespace_runs() {
    assert_eq!(string_to_casing("  foo \t  bar\nbaz  ", " ", WordCasing::Preserve, None), "foo bar baz");
    assert_eq!(string_to_casing("MiXeD cAsE", " ", WordCasing::Preserve, None), "MiXeD cAsE");
}

#[test]
fn preserve_twice_is_preserve_once() {
    let once = string_to_casing(" a  b\r\nc ", " ", WordCasing::Preserve, None);
    let twice = string_to_casing(&once, " ", WordCasing::Preserve, None);
    assert_eq!(once, "a b c");
    assert_eq!(twice, once);
}

#[test]
fn empty_and_blank_inputs_give_empty_output() {
    assert_eq!(string_to_casing("", "-", WordCasing::Upper, None), "");
    assert_eq!(string_to_casing(" \t\n ", "-", WordCasing::Upper, Some(WordCasing::Lower)), "");
}

#[test]
fn upper_and_lower_casing() {
    assert_eq!(string_to_casing("My Cool App", "_", WordCasing::Upper, None), "MY_COOL_APP");
    assert_eq!(string_to_casing("My Cool App", "_", WordCasing::Lower, None), "my_cool_app");
}

#[test]
fn title_lowers_the_rest_of_each_word() {
    assert_eq!(string_to_casing("hELLO wORLD", " ", WordCasing::Title, None), "Hello World");
}

#[test]
fn title_maps_a_non_ascii_first_character() {
    assert_eq!(apply_casing("éLAN", WordCasing::Title), "Élan");
    assert_eq!(string_to_casing("ärger über", "", WordCasing::Title, None), "ÄrgerÜber");
}

#[test]
fn first_word_casing_applies_to_first_word_only() {
    assert_eq!(string_to_casing("One Two Three", "", WordCasing::Upper, Some(WordCasing::Lower)), "oneTWOTHREE");
}

#[test]
fn words_split_at_ascii_whitespace_only() {
    assert_eq!(split_words("  ab\tc\u{a0}d \n"), vec!["ab".to_string(), "c\u{a0}d".to_string()]);
    assert!(split_words(" \r\n").is_empty());
}

#[test]
fn words_join_with_the_joiner_between_neighbours() {
    let ws = vec!["hello".to_string(), "World".to_string()];
    assert_eq!(join_words(&ws, "-"), "hello-World");
    assert_eq!(join_words(&ws, ""), "helloWorld");
    assert_eq!(join_words(&vec!["one".to_string()], "+"), "one");
    assert_eq!(join_words(&vec![], "+"), "");
}
