use rusty_wc::text::{
    count_characters_in_content, count_lines_in_content, count_words_in_content, split_words,
};

const EXAMPLE_CONTENT_WITH_FOUR_LINES: &str = "line one
line two
line three
line four
";

const EXAMPLE_CONTENT_EMPTY: &str = "";

const EXAMPLE_CONTENT_FIVE_WORDS: &str = "My name is Alexander
Hamilton";

const EXAMPLE_CONTENT_TEN_CHARS: &str = "asdf
asdf!";

#[test]
fn test_count_lines_in_content() {
    assert_eq!(4, count_lines_in_content(EXAMPLE_CONTENT_WITH_FOUR_LINES));
    assert_eq!(0, count_lines_in_content(EXAMPLE_CONTENT_EMPTY));
}

#[test]
fn test_count_words_in_content() {
    assert_eq!(5, count_words_in_content(EXAMPLE_CONTENT_FIVE_WORDS));
    assert_eq!(0, count_words_in_content(EXAMPLE_CONTENT_EMPTY));
}

#[test]
fn test_count_characters_in_content() {
    assert_eq!(10, count_characters_in_content(EXAMPLE_CONTENT_TEN_CHARS));
    assert_eq!(0, count_characters_in_content(EXAMPLE_CONTENT_EMPTY));
}

#[test]
fn lines_without_final_newline_are_not_counted() {
    assert_eq!(0, count_lines_in_content("no newline here"));
    assert_eq!(2, count_lines_in_content("a\nb\nc"));
    assert_eq!(3, count_lines_in_content("\n\n\n"));
}

#[test]
fn characters_are_unicode_scalar_values() {
    assert_eq!(5, count_characters_in_content("héllo"));
    assert_eq!(2, count_characters_in_content("日本"));
    assert_eq!(1, count_characters_in_content("\n"));
}

#[test]
fn words_are_split_on_every_ascii_blank() {
    assert_eq!(6, count_words_in_content("a b\tc\nd\re\x0Cf"));
    assert_eq!(2, count_words_in_content("a\x0Bb"));
    assert_eq!(0, count_words_in_content("  \t\n  "));
    assert_eq!(3, count_words_in_content("  lead trail  mid  "));
}

#[test]
fn punctuation_stays_in_words() {
    assert_eq!(
        split_words("Hello, world! it's"),
        vec!["Hello,".to_string(), "world!".to_string(), "it's".to_string()]
    );
}

#[test]
fn split_words_drops_empty_fragments() {
    assert_eq!(
        split_words("\t one  two\n\nthree \r\n"),
        vec!["one".to_string(), "two".to_string(), "three".to_string()]
    );
    assert!(split_words("").is_empty());
    assert!(split_words(" \n ").is_empty());
}

#[test]
fn word_count_matches_number_of_tokens() {
    let text = "My name is Alexander\nHamilton";
    assert_eq!(count_words_in_content(text), split_words(text).len());
    assert_eq!(5, split_words(text).len());
}

#[test]
fn tokenizing_twice_gives_the_same_tokens() {
    let text = "the cat  sat\ton the\nmat";
    let first = split_words(text);
    let second = split_words(text);
    assert_eq!(first, second);
    for w in &first {
        assert_eq!(split_words(w), vec![w.clone()]);
    }
}
