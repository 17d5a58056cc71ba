//! Lexicographic order on character sequences, and sorting of the result
//! set as plain strings in ascending code-point order.

use vstd::prelude::*;
use vstd::relations::sorted_by;
use vstd::relations::total_ordering;

verus! {

/// Lexicographic order on character sequences, comparing code points:
/// the order in which the result set is emitted.
pub open spec fn lex_leq(a: Seq<char>, b: Seq<char>) -> bool
    decreases a.len(),
{
    if a.len() == 0 {
        true
    } else if b.len() == 0 {
        false
    } else if a[0] != b[0] {
        (a[0] as u32) < (b[0] as u32)
    } else {
        lex_leq(a.drop_first(), b.drop_first())
    }
}

/// The lexicographic order as a binary relation value.
pub open spec fn lex_leq_fn() -> spec_fn(Seq<char>, Seq<char>) -> bool {
    |a: Seq<char>, b: Seq<char>| lex_leq(a, b)
}

/// Lexicographic order is reflexive.
pub proof fn lemma_lex_refl(a: Seq<char>)
    ensures
        lex_leq(a, a),
    decreases a.len(),
{
    if a.len() > 0 {
        lemma_lex_refl(a.drop_first());
    }
}

/// Lexicographic order is antisymmetric: mutually ordered sequences are
/// equal.
pub proof fn lemma_lex_antisym(a: Seq<char>, b: Seq<char>)
    requires
        lex_leq(a, b),
        lex_leq(b, a),
    ensures
        a == b,
    decreases a.len(),
{
    if a.len() == 0 {
        assert(a =~= b);
    } else if a[0] == b[0] {
        lemma_lex_antisym(a.drop_first(), b.drop_first());
        assert(a.drop_first().len() == b.drop_first().len());
        assert(a.len() == b.len());
        assert forall|i: int| 0 <= i < a.len() implies a[i] == b[i] by {
            if i > 0 {
                assert(a[i] == a.drop_first()[i - 1]);
                assert(b[i] == b.drop_first()[i - 1]);
            }
        }
        assert(a =~= b);
    }
}

/// Lexicographic order is total: any two sequences are comparable.
pub proof fn lemma_lex_total(a: Seq<char>, b: Seq<char>)
    ensures
        lex_leq(a, b) || lex_leq(b, a),
    decreases a.len(),
{
    if a.len() > 0 && b.len() > 0 {
        if a[0] == b[0] {
            lemma_lex_total(a.drop_first(), b.drop_first());
        } else {
            vstd::utf8::char_u32_cast(a[0], a[0] as u32);
            vstd::utf8::char_u32_cast(b[0], b[0] as u32);
        }
    }
}

/// Lexicographic order is transitive.
pub proof fn lemma_lex_trans(a: Seq<char>, b: Seq<char>, c: Seq<char>)
    requires
        lex_leq(a, b),
        lex_leq(b, c),
    ensures
        lex_leq(a, c),
    decreases a.len(),
{
    if a.len() > 0 && c.len() > 0 && a[0] == c[0] {
        if b.len() > 0 && a[0] == b[0] {
            lemma_lex_trans(a.drop_first(), b.drop_first(), c.drop_first());
        }
    }
}

/// Comparing sequences that agree on their first `i` characters comes
/// down to comparing what follows those characters.
pub proof fn lemma_lex_skip(a: Seq<char>, b: Seq<char>, i: int)
    requires
        0 <= i <= a.len(),
        i <= b.len(),
        forall|k: int| 0 <= k < i ==> a[k] == b[k],
    ensures
        lex_leq(a, b) == lex_leq(a.skip(i), b.skip(i)),
    decreases i,
{
    if i > 0 {
        assert(a.len() > 0 && b.len() > 0 && a[0] == b[0]);
        assert(forall|k: int|
            0 <= k < i - 1 ==> a.drop_first()[k] == #[trigger] b.drop_first()[k]);
        lemma_lex_skip(a.drop_first(), b.drop_first(), i - 1);
        assert(a.drop_first().skip(i - 1) =~= a.skip(i));
        assert(b.drop_first().skip(i - 1) =~= b.skip(i));
    } else {
        assert(a.skip(0) =~= a);
        assert(b.skip(0) =~= b);
    }
}

/// Decides the lexicographic order on two strings, comparing code points
/// character by character.
pub fn str_lex_leq(a: &str, b: &str) -> (r: bool)
    ensures
        r == lex_leq(a@, b@),
{
    let alen = a.unicode_len();
    let blen = b.unicode_len();
    let m = if alen < blen {
        alen
    } else {
        blen
    };
    let mut i: usize = 0;
    while i < m
        invariant
            alen == a@.len(),
            blen == b@.len(),
            m <= alen,
            m <= blen,
            i <= m,
            forall|k: int| 0 <= k < i ==> a@[k] == b@[k],
        decreases m - i,
    {
        let ca = a.get_char(i);
        let cb = b.get_char(i);
        if ca != cb {
            proof {
                lemma_lex_skip(a@, b@, i as int);
                assert(a@.skip(i as int)[0] == ca);
                assert(b@.skip(i as int)[0] == cb);
            }
            return (ca as u32) < (cb as u32);
        }
        i = i + 1;
    }
    proof {
        lemma_lex_skip(a@, b@, m as int);
        if alen <= blen {
            assert(a@.skip(m as int).len() == 0);
        } else {
            assert(a@.skip(m as int).len() > 0);
            assert(b@.skip(m as int).len() == 0);
        }
    }
    alen <= blen
}

/// Lexicographic order is a total ordering in the sense of vstd's
/// relations.
pub proof fn lemma_lex_total_ordering()
    ensures
        total_ordering(lex_leq_fn()),
{
    let leq = lex_leq_fn();
    assert forall|a: Seq<char>| #[trigger] leq(a, a) by {
        lemma_lex_refl(a);
    }
    assert forall|a: Seq<char>, b: Seq<char>| #[trigger] leq(a, b) && #[trigger] leq(b, a)
        implies a == b by {
        lemma_lex_antisym(a, b);
    }
    assert forall|a: Seq<char>, b: Seq<char>, c: Seq<char>|
        #[trigger] leq(a, b) && #[trigger] leq(b, c) implies leq(a, c) by {
        lemma_lex_trans(a, b, c);
    }
    assert forall|a: Seq<char>, b: Seq<char>| #![trigger leq(a, b)] true implies leq(a, b) || leq(
        b,
        a,
    ) by {
        lemma_lex_total(a, b);
    }
}

/// Finds where a word belongs in a sorted vector: the first position
/// whose entry does not precede the word.
fn insertion_point(out: &Vec<String>, w: &str) -> (pos: usize)
    requires
        sorted_by(out.deep_view(), lex_leq_fn()),
    ensures
        pos <= out.len(),
        forall|k: int| 0 <= k < pos ==> lex_leq(#[trigger] out.deep_view()[k], w@),
        pos < out.len() ==> !lex_leq(out.deep_view()[pos as int], w@),
{
    let n = out.len();
    let mut pos: usize = 0;
    while pos < n
        invariant
            n == out.len(),
            pos <= n,
            forall|k: int| 0 <= k < pos ==> lex_leq(#[trigger] out.deep_view()[k], w@),
        decreases n - pos,
    {
        if !str_lex_leq(out[pos].as_str(), w) {
            return pos;
        }
        pos = pos + 1;
    }
    pos
}

/// Sorts the result set in place, as plain strings in ascending
/// lexicographic order. The sorted vector holds exactly the words of the
/// input, each as often as the input does.
pub fn sort_words(words: &mut Vec<String>)
    ensures
        sorted_by(final(words).deep_view(), lex_leq_fn()),
        final(words).deep_view().to_multiset() == old(words).deep_view().to_multiset(),
        final(words).deep_view() == old(words).deep_view().sort_by(lex_leq_fn()),
{
    let ghost input = words.deep_view();
    let n = words.len();
    let mut out: Vec<String> = Vec::new();
    let mut i: usize = 0;
    proof {
        assert(out.deep_view() =~= Seq::<Seq<char>>::empty());
        assert(input.take(0) =~= Seq::<Seq<char>>::empty());
    }
    while i < n
        invariant
            n == words.len(),
            words.deep_view() == input,
            input.len() == n,
            i <= n,
            sorted_by(out.deep_view(), lex_leq_fn()),
            out.deep_view().to_multiset() == input.take(i as int).to_multiset(),
        decreases n - i,
    {
        let w = words[i].clone();
        let pos = insertion_point(&out, w.as_str());
        let ghost prev = out.deep_view();
        let ghost prevv = out@;
        out.insert(pos, w);
        proof {
            broadcast use vstd::seq_lib::group_to_multiset_ensures;

            let leq = lex_leq_fn();
            let wv = input[i as int];
            let newdv = prev.insert(pos as int, wv);
            prevv.insert_ensures(pos as int, w);
            prev.insert_ensures(pos as int, wv);
            assert forall|k: int| 0 <= k < newdv.len() implies out.deep_view()[k] == newdv[k] by {
                assert(out.deep_view()[k] == out@[k]@);
            }
            assert(out.deep_view() =~= newdv);
            if pos < prev.len() {
                lemma_lex_total(prev[pos as int], wv);
            }
            assert forall|k: int| pos <= k < prev.len() implies lex_leq(wv, prev[k]) by {
                if k > pos {
                    assert(leq(prev[pos as int], prev[k]));
                    lemma_lex_trans(wv, prev[pos as int], prev[k]);
                }
            }
            assert forall|k1: int, k2: int| 0 <= k1 < k2 < newdv.len() implies leq(
                newdv[k1],
                newdv[k2],
            ) by {
                if k1 < pos && k2 < pos {
                    assert(leq(prev[k1], prev[k2]));
                } else if k1 < pos && k2 == pos {
                    assert(newdv[k2] == wv);
                    assert(lex_leq(prev[k1], wv));
                } else if k1 < pos && k2 > pos {
                    if k1 < k2 - 1 {
                        assert(leq(prev[k1], prev[k2 - 1]));
                    } else {
                        lemma_lex_refl(prev[k1]);
                    }
                } else if k1 == pos {
                    assert(newdv[k1] == wv);
                    assert(lex_leq(wv, prev[k2 - 1]));
                } else {
                    assert(leq(prev[k1 - 1], prev[k2 - 1]));
                }
            }
            assert(input.take(i + 1).drop_last() =~= input.take(i as int));
            assert(input.take(i + 1) =~= input.take(i as int).push(wv));
            assert(out.deep_view().to_multiset() =~= input.take(i + 1).to_multiset());
        }
        i = i + 1;
    }
    proof {
        assert(input.take(n as int) =~= input);
    }
    *words = out;
    proof {
        lemma_lex_total_ordering();
        input.lemma_sort_by_ensures(lex_leq_fn());
        lemma_sorted_unique(words.deep_view(), input.sort_by(lex_leq_fn()));
    }
}

/// A sorted sequence is determined by its contents: two sorted sequences
/// that hold the same words the same number of times are equal.
pub proof fn lemma_sorted_unique(a: Seq<Seq<char>>, b: Seq<Seq<char>>)
    requires
        sorted_by(a, lex_leq_fn()),
        sorted_by(b, lex_leq_fn()),
        a.to_multiset() == b.to_multiset(),
    ensures
        a == b,
    decreases a.len(),
{
    broadcast use vstd::seq_lib::group_to_multiset_ensures;

    let leq = lex_leq_fn();
    assert(a.len() == a.to_multiset().len());
    assert(b.len() == b.to_multiset().len());
    if a.len() == 0 {
        assert(a =~= b);
    } else {
        assert(a.contains(a[0])) by {
            assert(a[0] == a[0]);
        }
        assert(a.to_multiset().count(a[0]) > 0);
        assert(b.contains(a[0]));
        assert(b.contains(b[0])) by {
            assert(b[0] == b[0]);
        }
        assert(b.to_multiset().count(b[0]) > 0);
        assert(a.contains(b[0]));
        let j = choose|j: int| 0 <= j < b.len() && b[j] == a[0];
        if j > 0 {
            assert(leq(b[0], b[j]));
        } else {
            lemma_lex_refl(b[0]);
        }
        let i = choose|i: int| 0 <= i < a.len() && a[i] == b[0];
        if i > 0 {
            assert(leq(a[0], a[i]));
        } else {
            lemma_lex_refl(a[0]);
        }
        lemma_lex_antisym(a[0], b[0]);
        assert(a.remove(0).to_multiset() == a.to_multiset().remove(a[0]));
        assert(b.remove(0).to_multiset() == b.to_multiset().remove(b[0]));
        assert(a.remove(0) =~= a.drop_first());
        assert(b.remove(0) =~= b.drop_first());
        assert(forall|k1: int, k2: int|
            0 <= k1 < k2 < a.drop_first().len() ==> leq(
                #[trigger] a.drop_first()[k1],
                #[trigger] a.drop_first()[k2],
            ));
        assert(forall|k1: int, k2: int|
            0 <= k1 < k2 < b.drop_first().len() ==> leq(
                #[trigger] b.drop_first()[k1],
                #[trigger] b.drop_first()[k2],
            ));
        lemma_sorted_unique(a.drop_first(), b.drop_first());
        assert forall|k: int| 0 <= k < a.len() implies a[k] == b[k] by {
            if k > 0 {
                assert(a[k] == a.drop_first()[k - 1]);
                assert(b[k] == b.drop_first()[k - 1]);
            }
        }
        assert(a =~= b);
    }
}

/// Sorting is idempotent: a result set that is already in ascending
/// lexicographic order is its own sorted form.
pub proof fn lemma_sort_idempotent(a: Seq<Seq<char>>)
    requires
        sorted_by(a, lex_leq_fn()),
    ensures
        a.sort_by(lex_leq_fn()) == a,
{
    lemma_lex_total_ordering();
    a.lemma_sort_by_ensures(lex_leq_fn());
    lemma_sorted_unique(a.sort_by(lex_leq_fn()), a);
}

} // verus!
