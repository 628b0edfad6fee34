use rusty_wc::frequency::{
    arrange_hashmap, can_combine, combine_hashmaps, count_frequency_of_words_in_content,
    frequency_of_words_to_string, render_ranking, select_top, tokenize_words_in_content,
    update_word_freq, FrequencyTable, DEFAULT_TOP_K,
};

const EXAMPLE_CONTENT_EMPTY: &str = "";

const EXAMPLE_CONTENT_WITH_FOUR_DISTINCT_WORDS: &str = "line one
line two
line three
";

const SAMPLE_TEXT: &str = "hello world hello world hello test test";
const SAMPLE_TEXT_MORE: &str = "example example example test test test test hello";

fn entries(pairs: &[(&str, usize)]) -> Vec<(String, usize)> {
    pairs.iter().map(|(w, c)| (w.to_string(), *c)).collect()
}

#[test]
fn test_tokenize_words_in_content() {
    let tokenaized = tokenize_words_in_content(EXAMPLE_CONTENT_WITH_FOUR_DISTINCT_WORDS);
    assert_eq!(4, tokenaized.len());
    assert_eq!(3, tokenaized.get("line").unwrap());
    println!("{:?}", select_top(&tokenaized, tokenaized.len()));
    assert_eq!(0, rusty_wc::text::count_characters_in_content(EXAMPLE_CONTENT_EMPTY));
}

#[test]
fn test_update_word_freq() {
    let mut freq_map = FrequencyTable::new();
    update_word_freq(SAMPLE_TEXT, &mut freq_map);
    assert_eq!(freq_map.get("hello").unwrap(), 3);
    assert_eq!(freq_map.get("world").unwrap(), 2);
    assert_eq!(freq_map.get("test").unwrap(), 2);
}

#[test]
fn test_print_top_words() {
    let mut freq_map = FrequencyTable::new();
    update_word_freq(SAMPLE_TEXT_MORE, &mut freq_map);

    let mut output = Vec::new();
    for (word, count) in select_top(&freq_map, 3).iter() {
        output.push(format!("{:>4} {}", count, word));
    }

    assert_eq!(output, vec!["   4 test", "   3 example", "   1 hello"]);
}

#[test]
fn missing_word_has_no_count() {
    let table = tokenize_words_in_content("a b a");
    assert_eq!(table.get("c"), None);
    assert_eq!(table.get("A"), None);
    assert_eq!(table.get("a"), Some(2));
}

#[test]
fn counts_are_case_sensitive() {
    let table = tokenize_words_in_content("Word word WORD word");
    assert_eq!(table.len(), 3);
    assert_eq!(table.get("word"), Some(2));
    assert_eq!(table.get("Word"), Some(1));
}

#[test]
fn update_adds_onto_existing_counts() {
    let mut table = tokenize_words_in_content("x y");
    update_word_freq("x x z", &mut table);
    assert_eq!(table.get("x"), Some(3));
    assert_eq!(table.get("y"), Some(1));
    assert_eq!(table.get("z"), Some(1));
    assert_eq!(table.len(), 3);
}

#[test]
fn record_and_add_count() {
    let mut table = FrequencyTable::new();
    table.record("a".to_string());
    table.record("a".to_string());
    table.add_count("b".to_string(), 5);
    table.add_count("a".to_string(), 4);
    assert_eq!(table.get("a"), Some(6));
    assert_eq!(table.get("b"), Some(5));
    assert_eq!(table.len(), 2);
}

#[test]
fn top_three_of_one_text() {
    let table = tokenize_words_in_content(SAMPLE_TEXT);
    assert_eq!(
        select_top(&table, 3),
        entries(&[("hello", 3), ("test", 2), ("world", 2)])
    );
}

#[test]
fn top_three_of_two_merged_texts() {
    let a = tokenize_words_in_content(SAMPLE_TEXT);
    let b = tokenize_words_in_content(SAMPLE_TEXT_MORE);
    assert!(can_combine(&a, &b));
    let total = combine_hashmaps(a, b);
    assert_eq!(
        select_top(&total, 3),
        entries(&[("test", 6), ("hello", 4), ("example", 3)])
    );
}

#[test]
fn merge_adds_counts_word_by_word() {
    let a = tokenize_words_in_content("p q q");
    let b = tokenize_words_in_content("q r");
    let m = combine_hashmaps(a, b);
    assert_eq!(m.get("p"), Some(1));
    assert_eq!(m.get("q"), Some(3));
    assert_eq!(m.get("r"), Some(1));
    assert_eq!(m.len(), 3);
}

#[test]
fn merge_with_empty_table() {
    let a = tokenize_words_in_content("p q q");
    let m = combine_hashmaps(a, FrequencyTable::new());
    assert_eq!(select_top(&m, 10), entries(&[("q", 2), ("p", 1)]));
    let m2 = combine_hashmaps(FrequencyTable::new(), tokenize_words_in_content("p q q"));
    assert_eq!(select_top(&m2, 10), entries(&[("q", 2), ("p", 1)]));
}

#[test]
fn merge_is_commutative_and_associative() {
    let t1 = "a b c a";
    let t2 = "b b d";
    let t3 = "c a e e e";
    let ab = combine_hashmaps(tokenize_words_in_content(t1), tokenize_words_in_content(t2));
    let ba = combine_hashmaps(tokenize_words_in_content(t2), tokenize_words_in_content(t1));
    assert_eq!(select_top(&ab, 100), select_top(&ba, 100));
    let ab_c = combine_hashmaps(ab, tokenize_words_in_content(t3));
    let bc = combine_hashmaps(tokenize_words_in_content(t2), tokenize_words_in_content(t3));
    let a_bc = combine_hashmaps(tokenize_words_in_content(t1), bc);
    assert_eq!(select_top(&ab_c, 100), select_top(&a_bc, 100));
    assert_eq!(
        select_top(&ab_c, 100),
        entries(&[("a", 3), ("b", 3), ("e", 3), ("c", 2), ("d", 1)])
    );
}

#[test]
fn ties_are_ordered_by_word_whatever_the_insertion_order() {
    let forward = tokenize_words_in_content("delta alpha charlie bravo");
    let backward = tokenize_words_in_content("bravo charlie alpha delta");
    let expected = entries(&[("alpha", 1), ("bravo", 1), ("charlie", 1), ("delta", 1)]);
    assert_eq!(select_top(&forward, 10), expected);
    assert_eq!(select_top(&backward, 10), expected);
}

#[test]
fn ties_use_code_point_order() {
    let table = tokenize_words_in_content("b B a ab é");
    assert_eq!(
        select_top(&table, 10),
        entries(&[("B", 1), ("a", 1), ("ab", 1), ("b", 1), ("é", 1)])
    );
}

#[test]
fn empty_table_gives_empty_ranking() {
    let table = FrequencyTable::new();
    assert!(select_top(&table, 10).is_empty());
    assert!(select_top(&tokenize_words_in_content("  \n"), 10).is_empty());
}

#[test]
fn zero_entries_asked_gives_empty_ranking() {
    let table = tokenize_words_in_content(SAMPLE_TEXT);
    assert!(select_top(&table, 0).is_empty());
}

#[test]
fn asking_for_more_than_available_gives_all_sorted() {
    let table = tokenize_words_in_content(SAMPLE_TEXT_MORE);
    assert_eq!(
        select_top(&table, 50),
        entries(&[("test", 4), ("example", 3), ("hello", 1)])
    );
}

#[test]
fn default_ranking_keeps_ten_entries() {
    let table = tokenize_words_in_content("a b c d e f g h i j k l a b");
    let ranked = arrange_hashmap(table);
    assert_eq!(DEFAULT_TOP_K, 10);
    assert_eq!(ranked.len(), 10);
    assert_eq!(ranked[0], ("a".to_string(), 2));
    assert_eq!(ranked[1], ("b".to_string(), 2));
    assert_eq!(ranked[9], ("j".to_string(), 1));
}

#[test]
fn render_ranking_writes_count_then_word() {
    let ranked = entries(&[("the", 309), ("of", 10), ("x", 0)]);
    assert_eq!(render_ranking(&ranked), "309 the\n10 of\n0 x\n");
    assert_eq!(render_ranking(&Vec::new()), "");
}

#[test]
fn frequency_string_of_one_text() {
    let (text, table) = count_frequency_of_words_in_content(SAMPLE_TEXT);
    assert_eq!(text, "3 hello\n2 test\n2 world\n");
    assert_eq!(table.get("hello"), Some(3));
    assert_eq!(frequency_of_words_to_string(&table), text);
}

#[test]
fn frequency_string_of_empty_text() {
    let (text, table) = count_frequency_of_words_in_content("");
    assert_eq!(text, "");
    assert_eq!(table.len(), 0);
}

#[test]
fn can_combine_detects_overflow() {
    let mut a = FrequencyTable::new();
    a.add_count("w".to_string(), usize::MAX);
    let b = tokenize_words_in_content("w");
    assert!(!can_combine(&a, &b));
    let c = tokenize_words_in_content("v");
    assert!(can_combine(&a, &c));
}
