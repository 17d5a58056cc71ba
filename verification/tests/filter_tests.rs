use hex_words::letters::translate_letter;
use hex_words::words::is_hex_word;

#[test]
fn accepts_word_of_allowed_letters_only() {
    assert!(is_hex_word("abcdefgilostz"));
    assert!(is_hex_word("cab"));
    assert!(is_hex_word("cafe"));
    assert!(is_hex_word("fig"));
    assert!(is_hex_word("zest"));
}

#[test]
fn rejects_word_with_letter_outside_alphabet() {
    assert!(!is_hex_word("hello"));
    assert!(!is_hex_word("cabx"));
}

#[test]
fn rejects_uppercase_versions_of_allowed_letters() {
    assert!(!is_hex_word("Cab"));
    assert!(!is_hex_word("CAB"));
    assert!(!is_hex_word("caB"));
}

#[test]
fn rejects_digits_and_punctuation() {
    assert!(!is_hex_word("c4b"));
    assert!(!is_hex_word("ca-b"));
    assert!(!is_hex_word("cab!"));
    assert!(!is_hex_word("c b"));
}

#[test]
fn empty_word_vacuously_qualifies() {
    assert!(is_hex_word(""));
}

#[test]
fn translates_each_allowed_letter_to_its_glyph() {
    assert_eq!(translate_letter('a'), 'A');
    assert_eq!(translate_letter('b'), 'B');
    assert_eq!(translate_letter('c'), 'C');
    assert_eq!(translate_letter('d'), 'D');
    assert_eq!(translate_letter('e'), 'E');
    assert_eq!(translate_letter('f'), 'F');
    assert_eq!(translate_letter('g'), '6');
    assert_eq!(translate_letter('i'), '1');
    assert_eq!(translate_letter('l'), '1');
    assert_eq!(translate_letter('o'), '0');
    assert_eq!(translate_letter('s'), '5');
    assert_eq!(translate_letter('t'), '7');
    assert_eq!(translate_letter('z'), '2');
}

#[test]
fn translation_is_deterministic_and_total() {
    assert_eq!(translate_letter('f'), translate_letter('f'));
    assert_eq!(translate_letter('x'), translate_letter('x'));
    assert_eq!(translate_letter('x'), '?');
    assert_eq!(translate_letter('A'), '?');
    assert_eq!(translate_letter('?'), '?');
    assert_eq!(translate_letter(' '), '?');
}
