use hex_words::words::translate_to_hex;

#[test]
fn translates_fig() {
    assert_eq!(translate_to_hex("fig"), "0xF16");
}

#[test]
fn translates_zest() {
    assert_eq!(translate_to_hex("zest"), "0x2E57");
}

#[test]
fn translates_empty_word_to_bare_prefix() {
    assert_eq!(translate_to_hex(""), "0x");
}

#[test]
fn untranslatable_character_renders_as_question_mark() {
    assert_eq!(translate_to_hex("hi"), "0x?1");
}

#[test]
fn rendering_is_two_longer_than_the_word() {
    for word in ["cab", "cafe", "fig", "zest", "abcdefgilostz"] {
        assert_eq!(translate_to_hex(word).len(), word.len() + 2);
    }
}
