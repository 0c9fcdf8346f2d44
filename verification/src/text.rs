//! Strings as sequences of codepoints: reading them, cutting them and putting
//! them together.

use itertools::Itertools;
use vstd::prelude::*;

verus! {

/// The codepoint sequences of a list of string slices.
pub open spec fn texts(parts: Seq<&str>) -> Seq<Seq<char>> {
    Seq::new(parts.len(), |i: int| parts[i]@)
}

/// The parts in order, with `sep` between each two neighbours.
pub open spec fn joined(parts: Seq<Seq<char>>, sep: Seq<char>) -> Seq<char>
    decreases parts.len(),
{
    if parts.len() == 0 {
        Seq::empty()
    } else if parts.len() == 1 {
        parts[0]
    } else {
        joined(parts.drop_last(), sep) + sep + parts.last()
    }
}

/// The position of the first `c` in `s`, or the length of `s` where it holds none.
pub open spec fn first_index_of(s: Seq<char>, c: char) -> nat
    decreases s.len(),
{
    if s.len() == 0 || s[0] == c {
        0
    } else {
        1 + first_index_of(s.skip(1), c)
    }
}

/// The pieces of `s` between the occurrences of `c`. There is always at least
/// one piece, and a piece is empty where two separators are neighbours or one
/// stands at an end.
pub open spec fn split_on(s: Seq<char>, c: char) -> Seq<Seq<char>>
    decreases s.len(),
{
    let i = first_index_of(s, c) as int;
    if i < s.len() {
        seq![s.take(i)] + split_on(s.skip(i + 1), c)
    } else {
        seq![s]
    }
}

/// `first_index_of` is the one position before which no `c` stands and at
/// which one does, or the sequence ends.
pub proof fn lemma_first_index_of(s: Seq<char>, c: char, k: int)
    requires
        0 <= k <= s.len(),
        forall|j: int| 0 <= j < k ==> s[j] != c,
        k < s.len() ==> s[k] == c,
    ensures
        first_index_of(s, c) == k,
    decreases k,
{
    if k > 0 {
        let t = s.skip(1);
        assert forall|j: int| 0 <= j < k - 1 implies t[j] != c by {
            assert(t[j] == s[j + 1]);
        }
        lemma_first_index_of(t, c, k - 1);
    }
}

/// The codepoints of a string slice, in order.
pub fn chars_of(s: &str) -> (v: Vec<char>)
    ensures
        v@ == s@,
{
    let mut v: Vec<char> = Vec::new();
    for c in it: s.chars()
        invariant
            v@ == it.seq().take(it.index() as int),
            it.seq() == s@,
    {
        v.push(c);
    }
    v
}

/// Whether the codepoints of `text` from `from` up to `to` are those of `pattern`.
pub fn range_equals(text: &Vec<char>, from: usize, to: usize, pattern: &Vec<char>) -> (b: bool)
    requires
        from <= to <= text@.len(),
    ensures
        b == (text@.subrange(from as int, to as int) == pattern@),
{
    if to - from != pattern.len() {
        return false;
    }
    let mut i: usize = 0;
    while i < pattern.len()
        invariant
            from <= to <= text@.len(),
            to - from == pattern@.len(),
            i <= pattern@.len(),
            forall|j: int| 0 <= j < i ==> text@[from + j] == pattern@[j],
        decreases pattern@.len() - i,
    {
        if text[from + i] != pattern[i] {
            assert(text@.subrange(from as int, to as int)[i as int] != pattern@[i as int]);
            return false;
        }
        i += 1;
    }
    assert(text@.subrange(from as int, to as int) =~= pattern@);
    true
}

/// Calls `String::push`: the string gains `c` at its end.
#[verifier::external_body]
pub(crate) fn push_char(s: &mut String, c: char)
    ensures
        final(s)@ == old(s)@.push(c),
{
    s.push(c);
}

/// Calls `itertools::Itertools::join` on the parts: the result is the parts in
/// order with `sep` between each two neighbours. The bound keeps the capacity
/// that `join` asks for at its start, the byte length of `sep` times the
/// number of parts after the first, inside what a `String` may ask for.
#[verifier::external_body]
pub(crate) fn join(parts: &Vec<&str>, sep: &str) -> (r: String)
    requires
        4 * sep@.len() * parts@.len() <= isize::MAX,
    ensures
        r@ == joined(texts(parts@), sep@),
{
    parts.iter().join(sep)
}

} // verus!
