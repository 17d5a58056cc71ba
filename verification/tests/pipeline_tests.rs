use hex_words::pipeline::clean_words;
use hex_words::pipeline::process;
use hex_words::pipeline::qualifying_percentage;
use hex_words::trim::trim_word;

fn owned(words: &[&str]) -> Vec<String> {
    words.iter().map(|w| w.to_string()).collect()
}

#[test]
fn trims_surrounding_whitespace() {
    assert_eq!(trim_word("  cab  "), "cab");
    assert_eq!(trim_word("\tfig\n"), "fig");
    assert_eq!(trim_word("cafe"), "cafe");
    assert_eq!(trim_word("ca  b"), "ca  b");
}

#[test]
fn blank_lines_trim_to_nothing() {
    assert_eq!(trim_word(""), "");
    assert_eq!(trim_word("   "), "");
    assert_eq!(trim_word("\t\n "), "");
}

#[test]
fn cleaning_drops_blank_lines_and_trims_the_rest() {
    let words = clean_words(owned(&["  cab  ", "", "", "fig"]));
    assert_eq!(words, owned(&["cab", "fig"]));
}

#[test]
fn padded_and_blank_lines_count_two_words() {
    let (results, total, valid) = process(owned(&["  cab  ", "", "", "fig"]), false);
    assert_eq!(total, 2);
    assert_eq!(valid, 2);
    assert_eq!(results, owned(&["cab", "fig"]));
}

#[test]
fn full_run_filters_and_sorts() {
    let (results, total, valid) = process(owned(&["cab", "fig", "cafe", "hello"]), false);
    assert_eq!(results, owned(&["cab", "cafe", "fig"]));
    assert_eq!(total, 4);
    assert_eq!(valid, 3);
}

#[test]
fn full_run_in_translate_mode() {
    let (results, total, valid) = process(owned(&[" zest ", "hello", "fig"]), true);
    assert_eq!(results, owned(&["fig:0xF16", "zest:0x2E57"]));
    assert_eq!(total, 3);
    assert_eq!(valid, 2);
}

#[test]
fn empty_input_counts_nothing() {
    let (results, total, valid) = process(Vec::new(), false);
    assert!(results.is_empty());
    assert_eq!(total, 0);
    assert_eq!(valid, 0);
    assert_eq!(qualifying_percentage(valid, total), None);
}

#[test]
fn percentage_has_four_decimal_places() {
    assert_eq!(qualifying_percentage(3, 4), Some(750000));
    assert_eq!(qualifying_percentage(1, 3), Some(333333));
    assert_eq!(qualifying_percentage(0, 5), Some(0));
    assert_eq!(qualifying_percentage(5, 5), Some(1000000));
}

#[test]
fn qualifying_never_exceeds_total() {
    let (_, total, valid) = process(owned(&["cab", "hello", "world", "fig"]), false);
    assert!(valid <= total);
    let p = qualifying_percentage(valid, total).unwrap();
    assert!(p <= 1000000);
}
