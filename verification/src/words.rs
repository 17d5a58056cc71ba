//! The word filter and the word transformer.

use vstd::prelude::*;

use crate::letters::glyph_of;
use crate::letters::is_allowed_letter;
use crate::letters::letter_allowed;
use crate::letters::translate_letter;

verus! {

/// A word qualifies when every one of its characters is an allowed letter.
pub open spec fn word_allowed(s: Seq<char>) -> bool {
    forall|i: int| 0 <= i < s.len() ==> is_allowed_letter(#[trigger] s[i])
}

/// The glyphs of a word, one per character, in the word's order.
pub open spec fn hex_glyphs(s: Seq<char>) -> Seq<char> {
    s.map_values(|c: char| glyph_of(c))
}

/// A word's rendered translation: `0x` followed by its glyphs.
pub open spec fn hex_rendering(s: Seq<char>) -> Seq<char> {
    seq!['0', 'x'] + hex_glyphs(s)
}

/// The word filter: accepts a word exactly when each of its characters,
/// checked independently, belongs to the allowed alphabet.
pub fn is_hex_word(word: &str) -> (b: bool)
    ensures
        b == word_allowed(word@),
{
    let n = word.unicode_len();
    let mut i: usize = 0;
    while i < n
        invariant
            n == word@.len(),
            i <= n,
            forall|k: int| 0 <= k < i ==> is_allowed_letter(#[trigger] word@[k]),
        decreases n - i,
    {
        if !letter_allowed(word.get_char(i)) {
            return false;
        }
        i = i + 1;
    }
    true
}

/// Relies on String::push: appends exactly the given character.
#[verifier::external_body]
fn push_char(s: &mut String, c: char)
    ensures
        final(s)@ == old(s)@.push(c),
{
    s.push(c)
}

/// The word transformer: renders a word as `0x` followed by one glyph per
/// character. Characters outside the translation table render as `?`.
pub fn translate_to_hex(word: &str) -> (r: String)
    ensures
        r@ == hex_rendering(word@),
{
    let n = word.unicode_len();
    let mut r = String::new();
    push_char(&mut r, '0');
    push_char(&mut r, 'x');
    let mut i: usize = 0;
    while i < n
        invariant
            n == word@.len(),
            i <= n,
            r@ == seq!['0', 'x'] + hex_glyphs(word@.take(i as int)),
        decreases n - i,
    {
        let g = translate_letter(word.get_char(i));
        push_char(&mut r, g);
        proof {
            assert(word@.take(i + 1).drop_last() =~= word@.take(i as int));
            assert(hex_glyphs(word@.take(i + 1)) =~= hex_glyphs(word@.take(i as int)).push(
                glyph_of(word@[i as int]),
            ));
            assert(r@ =~= seq!['0', 'x'] + hex_glyphs(word@.take(i + 1)));
        }
        i = i + 1;
    }
    proof {
        assert(word@.take(n as int) =~= word@);
    }
    r
}

/// The result-set entry for one qualifying word: the bare word, or, in
/// translate mode, `word:0x<glyphs>`.
pub open spec fn entry_of(w: Seq<char>, translate: bool) -> Seq<char> {
    if translate {
        w + seq![':'] + hex_rendering(w)
    } else {
        w
    }
}

/// The entries that a list of words yields: one per qualifying word, in
/// the input's order, each rendered by `entry_of`.
pub open spec fn qualifying_entries(words: Seq<Seq<char>>, translate: bool) -> Seq<Seq<char>>
    decreases words.len(),
{
    if words.len() == 0 {
        Seq::empty()
    } else {
        let front = qualifying_entries(words.drop_last(), translate);
        if word_allowed(words.last()) {
            front.push(entry_of(words.last(), translate))
        } else {
            front
        }
    }
}

/// There are never more qualifying words than words.
pub proof fn lemma_qualifying_at_most_total(words: Seq<Seq<char>>, translate: bool)
    ensures
        qualifying_entries(words, translate).len() <= words.len(),
    decreases words.len(),
{
    if words.len() > 0 {
        lemma_qualifying_at_most_total(words.drop_last(), translate);
    }
}

/// Finds the words of the list that the filter accepts, keeping the
/// input's order. In translate mode each is paired with its rendering as
/// `word:0x<glyphs>`; otherwise the bare word is kept.
pub fn find_words(wordlist: Vec<String>, translate: bool) -> (r: Vec<String>)
    ensures
        r.deep_view() == qualifying_entries(wordlist.deep_view(), translate),
{
    let n = wordlist.len();
    let mut r: Vec<String> = Vec::new();
    let mut i: usize = 0;
    while i < n
        invariant
            n == wordlist.len(),
            i <= n,
            r.deep_view() == qualifying_entries(wordlist.deep_view().take(i as int), translate),
        decreases n - i,
    {
        let word = &wordlist[i];
        let ghost prev = r.deep_view();
        if is_hex_word(word.as_str()) {
            if translate {
                let rendered = translate_to_hex(word.as_str());
                let mut entry = word.clone();
                entry.append(":");
                entry.append(rendered.as_str());
                proof {
                    reveal_strlit(":");
                    assert(entry@ =~= entry_of(wordlist.deep_view()[i as int], true));
                }
                r.push(entry);
            } else {
                r.push(word.clone());
            }
            proof {
                assert(r.deep_view() =~= prev.push(
                    entry_of(wordlist.deep_view()[i as int], translate),
                ));
            }
        }
        proof {
            let ws = wordlist.deep_view();
            assert(ws.take(i + 1).drop_last() =~= ws.take(i as int));
            assert(ws.take(i + 1).last() == ws[i as int]);
            assert(r.deep_view() =~= qualifying_entries(ws.take(i + 1), translate));
        }
        i = i + 1;
    }
    proof {
        assert(wordlist.deep_view().take(n as int) =~= wordlist.deep_view());
    }
    r
}

/// A word accepted by the filter renders two characters longer than
/// itself: its glyphs, one per character, behind the `0x` prefix.
pub proof fn lemma_rendering_length(s: Seq<char>)
    requires
        word_allowed(s),
    ensures
        hex_rendering(s).len() == s.len() + 2,
{
}

} // verus!
