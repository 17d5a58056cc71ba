//! The allowed alphabet and the letter-to-glyph translation table.

use vstd::prelude::*;

verus! {

/// The thirteen lowercase letters that have a hexadecimal glyph.
pub open spec fn is_allowed_letter(c: char) -> bool {
    c == 'a' || c == 'b' || c == 'c' || c == 'd' || c == 'e' || c == 'f' || c == 'g' || c == 'i'
        || c == 'l' || c == 'o' || c == 's' || c == 't' || c == 'z'
}

/// The translation table: each allowed letter's glyph, and `?` for every
/// other character.
pub open spec fn glyph_of(c: char) -> char {
    if c == 'a' {
        'A'
    } else if c == 'b' {
        'B'
    } else if c == 'c' {
        'C'
    } else if c == 'd' {
        'D'
    } else if c == 'e' {
        'E'
    } else if c == 'f' {
        'F'
    } else if c == 'g' {
        '6'
    } else if c == 'i' {
        '1'
    } else if c == 'l' {
        '1'
    } else if c == 'o' {
        '0'
    } else if c == 's' {
        '5'
    } else if c == 't' {
        '7'
    } else if c == 'z' {
        '2'
    } else {
        '?'
    }
}

/// Decides membership in the allowed alphabet.
pub fn letter_allowed(c: char) -> (b: bool)
    ensures
        b == is_allowed_letter(c),
{
    c == 'a' || c == 'b' || c == 'c' || c == 'd' || c == 'e' || c == 'f' || c == 'g' || c == 'i'
        || c == 'l' || c == 'o' || c == 's' || c == 't' || c == 'z'
}

/// The letter translator: maps one character to its glyph, or to `?` when
/// the character has no entry in the translation table.
pub fn translate_letter(c: char) -> (g: char)
    ensures
        g == glyph_of(c),
{
    if c == 'a' {
        'A'
    } else if c == 'b' {
        'B'
    } else if c == 'c' {
        'C'
    } else if c == 'd' {
        'D'
    } else if c == 'e' {
        'E'
    } else if c == 'f' {
        'F'
    } else if c == 'g' {
        '6'
    } else if c == 'i' {
        '1'
    } else if c == 'l' {
        '1'
    } else if c == 'o' {
        '0'
    } else if c == 's' {
        '5'
    } else if c == 't' {
        '7'
    } else if c == 'z' {
        '2'
    } else {
        '?'
    }
}

/// The translation table is total: every allowed letter has a glyph other
/// than `?`, and every character outside the alphabet maps to `?`.
pub proof fn lemma_translation_total(c: char)
    ensures
        is_allowed_letter(c) ==> glyph_of(c) != '?',
        !is_allowed_letter(c) ==> glyph_of(c) == '?',
{
}

} // verus!
