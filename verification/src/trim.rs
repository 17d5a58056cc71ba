//! Trimming of surrounding whitespace from input lines.

use vstd::prelude::*;

verus! {

/// The characters counted as whitespace when a line is trimmed: the
/// Unicode White_Space set.
pub open spec fn is_space_char(c: char) -> bool {
    let u = c as u32;
    u == 0x09 || u == 0x0A || u == 0x0B || u == 0x0C || u == 0x0D || u == 0x20 || u == 0x85 || u
        == 0xA0 || u == 0x1680 || (0x2000 <= u && u <= 0x200A) || u == 0x2028 || u == 0x2029 || u
        == 0x202F || u == 0x205F || u == 0x3000
}

/// Decides whether a character is whitespace.
pub fn is_space(c: char) -> (b: bool)
    ensures
        b == is_space_char(c),
{
    let u = c as u32;
    u == 0x09 || u == 0x0A || u == 0x0B || u == 0x0C || u == 0x0D || u == 0x20 || u == 0x85 || u
        == 0xA0 || u == 0x1680 || (0x2000 <= u && u <= 0x200A) || u == 0x2028 || u == 0x2029 || u
        == 0x202F || u == 0x205F || u == 0x3000
}

/// A line without its leading whitespace.
pub open spec fn trim_front(s: Seq<char>) -> Seq<char>
    decreases s.len(),
{
    if s.len() > 0 && is_space_char(s[0]) {
        trim_front(s.drop_first())
    } else {
        s
    }
}

/// A line without its trailing whitespace.
pub open spec fn trim_back(s: Seq<char>) -> Seq<char>
    decreases s.len(),
{
    if s.len() > 0 && is_space_char(s.last()) {
        trim_back(s.drop_last())
    } else {
        s
    }
}

/// A line without its leading and trailing whitespace: what remains of it
/// once read as a word.
pub open spec fn trimmed(s: Seq<char>) -> Seq<char> {
    trim_back(trim_front(s))
}

/// Dropping the leading whitespace is skipping past it: past any position
/// preceded only by whitespace and not itself whitespace.
proof fn lemma_trim_front_skip(s: Seq<char>, i: int)
    requires
        0 <= i <= s.len(),
        forall|k: int| 0 <= k < i ==> is_space_char(#[trigger] s[k]),
        i == s.len() || !is_space_char(s[i]),
    ensures
        trim_front(s) == s.skip(i),
    decreases i,
{
    if i == 0 {
        assert(s.skip(0) =~= s);
    } else {
        assert(forall|k: int|
            0 <= k < i - 1 ==> is_space_char(#[trigger] s.drop_first()[k]));
        lemma_trim_front_skip(s.drop_first(), i - 1);
        assert(s.drop_first().skip(i - 1) =~= s.skip(i));
    }
}

/// Dropping the trailing whitespace is keeping a prefix: any prefix
/// followed only by whitespace and not itself ending in whitespace.
proof fn lemma_trim_back_take(s: Seq<char>, e: int)
    requires
        0 <= e <= s.len(),
        forall|k: int| e <= k < s.len() ==> is_space_char(#[trigger] s[k]),
        e == 0 || !is_space_char(s[e - 1]),
    ensures
        trim_back(s) == s.take(e),
    decreases s.len(),
{
    if e == s.len() {
        assert(s.take(e) =~= s);
    } else {
        assert(is_space_char(s.last()));
        assert(forall|k: int|
            e <= k < s.drop_last().len() ==> is_space_char(#[trigger] s.drop_last()[k]));
        lemma_trim_back_take(s.drop_last(), e);
        assert(s.drop_last().take(e) =~= s.take(e));
    }
}

/// Removes the leading and trailing whitespace of a line.
pub fn trim_word(line: &str) -> (w: String)
    ensures
        w@ == trimmed(line@),
{
    let n = line.unicode_len();
    let mut start: usize = 0;
    while start < n && is_space(line.get_char(start))
        invariant
            n == line@.len(),
            start <= n,
            forall|k: int| 0 <= k < start ==> is_space_char(#[trigger] line@[k]),
        decreases n - start,
    {
        start = start + 1;
    }
    proof {
        lemma_trim_front_skip(line@, start as int);
    }
    if start == n {
        proof {
            assert(line@.skip(n as int) =~= Seq::<char>::empty());
            assert(trim_back(Seq::<char>::empty()) =~= Seq::<char>::empty());
        }
        return String::new();
    }
    let mut end: usize = n;
    while end > start && is_space(line.get_char(end - 1))
        invariant
            n == line@.len(),
            start <= end <= n,
            forall|k: int| end <= k < n ==> is_space_char(#[trigger] line@[k]),
        decreases end,
    {
        end = end - 1;
    }
    let word = line.substring_char(start, end);
    proof {
        let t = line@.skip(start as int);
        assert(forall|k: int|
            end - start <= k < t.len() ==> is_space_char(#[trigger] t[k]));
        if end > start {
            assert(t[end - start - 1] == line@[end - 1]);
        }
        lemma_trim_back_take(t, end - start);
        assert(t.take(end - start) =~= line@.subrange(start as int, end as int));
    }
    word.to_owned()
}

} // verus!
