//! The driver's computing half: turns raw input lines into the sorted
//! result set and the run's statistics.

use vstd::arithmetic::div_mod::lemma_div_is_ordered;
use vstd::arithmetic::div_mod::lemma_div_multiples_vanish;
use vstd::arithmetic::div_mod::lemma_div_pos_is_pos;
use vstd::arithmetic::mul::lemma_mul_inequality;
use vstd::prelude::*;
use vstd::relations::sorted_by;

use crate::sorting::lex_leq_fn;
use crate::sorting::sort_words;
use crate::trim::trim_word;
use crate::trim::trimmed;
use crate::words::find_words;
use crate::words::lemma_qualifying_at_most_total;
use crate::words::qualifying_entries;

verus! {

/// The words that a sequence of raw lines yields: each line trimmed of
/// surrounding whitespace, lines that become empty dropped.
pub open spec fn cleaned(lines: Seq<Seq<char>>) -> Seq<Seq<char>>
    decreases lines.len(),
{
    if lines.len() == 0 {
        Seq::empty()
    } else {
        let front = cleaned(lines.drop_last());
        if trimmed(lines.last()).len() > 0 {
            front.push(trimmed(lines.last()))
        } else {
            front
        }
    }
}

/// Turns raw input lines into words: trims each line and drops the lines
/// that are empty once trimmed.
pub fn clean_words(lines: Vec<String>) -> (words: Vec<String>)
    ensures
        words.deep_view() == cleaned(lines.deep_view()),
{
    let n = lines.len();
    let mut words: Vec<String> = Vec::new();
    let mut i: usize = 0;
    proof {
        assert(words.deep_view() =~= cleaned(lines.deep_view().take(0)));
    }
    while i < n
        invariant
            n == lines.len(),
            i <= n,
            words.deep_view() == cleaned(lines.deep_view().take(i as int)),
        decreases n - i,
    {
        let w = trim_word(lines[i].as_str());
        let ghost prev = words.deep_view();
        if w.as_str().unicode_len() > 0 {
            words.push(w);
            proof {
                assert(words.deep_view() =~= prev.push(trimmed(lines.deep_view()[i as int])));
            }
        }
        proof {
            let ls = lines.deep_view();
            assert(ls.take(i + 1).drop_last() =~= ls.take(i as int));
            assert(ls.take(i + 1).last() == ls[i as int]);
            assert(words.deep_view() =~= cleaned(ls.take(i + 1)));
        }
        i = i + 1;
    }
    proof {
        assert(lines.deep_view().take(n as int) =~= lines.deep_view());
    }
    words
}

/// The percentage of a wordlist that qualifies, scaled so that one unit
/// is a ten-thousandth of a percentage point: four decimal places.
pub open spec fn percentage_scaled(valid: int, total: int) -> int {
    (valid * 1000000) / total
}

/// Computes the scaled qualifying percentage. An empty wordlist has no
/// percentage: dividing by a zero total is not applicable, and the
/// function says so with `None` rather than making a value up.
pub fn qualifying_percentage(valid: usize, total: usize) -> (r: Option<u64>)
    requires
        valid <= total,
    ensures
        r is Some <==> total > 0,
        total > 0 ==> r == Some(percentage_scaled(valid as int, total as int) as u64),
        r matches Some(p) ==> p <= 1000000,
{
    if total == 0 {
        None
    } else {
        proof {
            lemma_mul_inequality(valid as int, 0xFFFF_FFFF_FFFF_FFFF, 1000000);
            lemma_mul_inequality(valid as int, total as int, 1000000);
            lemma_div_is_ordered(
                (valid as int) * 1000000,
                (total as int) * 1000000,
                total as int,
            );
            lemma_div_multiples_vanish(1000000, total as int);
            lemma_div_pos_is_pos((valid as int) * 1000000, total as int);
        }
        let p: u128 = (valid as u128) * 1000000 / (total as u128);
        Some(p as u64)
    }
}

/// The whole computation of one run: the input lines become trimmed
/// words, the qualifying ones become entries (translated when asked),
/// and the entries are sorted. Returns the sorted result set, the total
/// word count and the qualifying count; the qualifying count never
/// exceeds the total.
pub fn process(lines: Vec<String>, translate: bool) -> (r: (Vec<String>, usize, usize))
    ensures
        r.0.deep_view() == qualifying_entries(cleaned(lines.deep_view()), translate).sort_by(
            lex_leq_fn(),
        ),
        sorted_by(r.0.deep_view(), lex_leq_fn()),
        r.1 == cleaned(lines.deep_view()).len(),
        r.2 == qualifying_entries(cleaned(lines.deep_view()), translate).len(),
        r.2 <= r.1,
{
    let words = clean_words(lines);
    let total = words.len();
    proof {
        lemma_qualifying_at_most_total(words.deep_view(), translate);
    }
    let mut found = find_words(words, translate);
    let valid = found.len();
    sort_words(&mut found);
    (found, total, valid)
}

} // verus!
