use hex_words::sorting::sort_words;
use hex_words::sorting::str_lex_leq;
use hex_words::words::find_words;

fn owned(words: &[&str]) -> Vec<String> {
    words.iter().map(|w| w.to_string()).collect()
}

#[test]
fn finds_qualifying_words_in_input_order() {
    let found = find_words(owned(&["cab", "fig", "cafe", "hello"]), false);
    assert_eq!(found, owned(&["cab", "fig", "cafe"]));
}

#[test]
fn scenario_wordlist_sorts_to_expected_result() {
    let mut found = find_words(owned(&["cab", "fig", "cafe", "hello"]), false);
    sort_words(&mut found);
    assert_eq!(found, owned(&["cab", "cafe", "fig"]));
}

#[test]
fn translate_mode_appends_rendering() {
    let found = find_words(owned(&["fig"]), true);
    assert_eq!(found, owned(&["fig:0xF16"]));
}

#[test]
fn translate_mode_skips_rejected_words() {
    let found = find_words(owned(&["fig", "hello", "zest"]), true);
    assert_eq!(found, owned(&["fig:0xF16", "zest:0x2E57"]));
}

#[test]
fn sort_orders_ascending() {
    let mut words = owned(&["fig", "cab", "cafe", "cab"]);
    sort_words(&mut words);
    assert_eq!(words, owned(&["cab", "cab", "cafe", "fig"]));
}

#[test]
fn sorting_a_sorted_result_set_changes_nothing() {
    let mut words = owned(&["cab", "cafe", "fig"]);
    sort_words(&mut words);
    let again = words.clone();
    sort_words(&mut words);
    assert_eq!(words, again);
}

#[test]
fn sort_of_empty_result_set_is_empty() {
    let mut words: Vec<String> = Vec::new();
    sort_words(&mut words);
    assert!(words.is_empty());
}

#[test]
fn lexicographic_order_compares_as_plain_strings() {
    assert!(str_lex_leq("cab", "cafe"));
    assert!(!str_lex_leq("cafe", "cab"));
    assert!(str_lex_leq("cab", "cab"));
    assert!(str_lex_leq("cab", "cab:0xCAB"));
    assert!(str_lex_leq("", "a"));
    assert!(!str_lex_leq("a", ""));
}
