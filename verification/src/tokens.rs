//! Tokens: the maximal runs of codepoints of one block that a text holds.

use crate::text::push_char;
use vstd::prelude::*;

verus! {

/// A block of codepoints, given by its first and last member. A codepoint
/// outside the block separates tokens.
#[derive(Clone, Copy, Debug)]
pub struct Block {
    pub first: char,
    pub last: char,
}

impl Block {
    /// Whether `c` belongs to the block.
    pub open spec fn holds(self, c: char) -> bool {
        self.first <= c && c <= self.last
    }

    /// The Devanagari block, U+0900 to U+097F.
    pub fn devanagari() -> (block: Block)
        ensures
            block == devanagari_block(),
    {
        Block { first: '\u{0900}', last: '\u{097F}' }
    }

    /// Whether `c` belongs to the block.
    pub fn contains(&self, c: char) -> (b: bool)
        ensures
            b == self.holds(c),
    {
        self.first <= c && c <= self.last
    }
}

/// The Devanagari block, U+0900 to U+097F.
pub open spec fn devanagari_block() -> Block {
    Block { first: '\u{0900}', last: '\u{097F}' }
}

/// Whether a run begins at `at`: the codepoint there is in the block, and it
/// is the first of the text or follows a separator.
pub open spec fn starts_run(text: Seq<char>, block: Block, at: int) -> bool {
    0 <= at < text.len() && block.holds(text[at]) && (at == 0 || !block.holds(text[at - 1]))
}

/// The first position from `at` on that holds a separator, or the length of
/// the text where none follows.
pub open spec fn run_end(text: Seq<char>, block: Block, at: int) -> int
    decreases text.len() - at,
{
    if 0 <= at < text.len() && block.holds(text[at]) {
        run_end(text, block, at + 1)
    } else {
        at
    }
}

/// The runs that begin at `at` or later, each as the position of its first
/// codepoint and the position after its last, in the order of the text.
pub open spec fn runs_from(text: Seq<char>, block: Block, at: int) -> Seq<(int, int)>
    decreases text.len() - at,
{
    if at < 0 || at >= text.len() {
        Seq::empty()
    } else if starts_run(text, block, at) {
        seq![(at, run_end(text, block, at))] + runs_from(text, block, at + 1)
    } else {
        runs_from(text, block, at + 1)
    }
}

/// The runs of the text.
pub open spec fn runs(text: Seq<char>, block: Block) -> Seq<(int, int)> {
    runs_from(text, block, 0)
}

/// The pieces of the text that the ranges cut out.
pub open spec fn pieces(text: Seq<char>, ranges: Seq<(int, int)>) -> Seq<Seq<char>> {
    Seq::new(ranges.len(), |k: int| text.subrange(ranges[k].0, ranges[k].1))
}

/// The tokens of the text: its runs, in order.
pub open spec fn tokens(text: Seq<char>, block: Block) -> Seq<Seq<char>> {
    pieces(text, runs(text, block))
}

/// The codepoint sequences of a list of strings.
pub open spec fn strings_text(v: Seq<String>) -> Seq<Seq<char>> {
    Seq::new(v.len(), |i: int| v[i]@)
}

/// A stretch of block codepoints that a separator or the end of the text
/// follows ends where `run_end` says.
pub proof fn lemma_run_end(text: Seq<char>, block: Block, at: int, end: int)
    requires
        0 <= at <= end <= text.len(),
        forall|j: int| at <= j < end ==> block.holds(text[j]),
        end < text.len() ==> !block.holds(text[end]),
    ensures
        run_end(text, block, at) == end,
    decreases end - at,
{
    if at < end {
        lemma_run_end(text, block, at + 1, end);
    }
}

/// Where no run begins between two positions, the runs from the one are the
/// runs from the other.
pub proof fn lemma_no_run_starts(text: Seq<char>, block: Block, from: int, to: int)
    requires
        0 <= from <= to <= text.len(),
        forall|j: int| from <= j < to ==> !starts_run(text, block, j),
    ensures
        runs_from(text, block, from) == runs_from(text, block, to),
    decreases to - from,
{
    if from < to {
        lemma_no_run_starts(text, block, from + 1, to);
    }
}

/// A run that begins at `from` and ends at `to` is the first of the runs from
/// `from`, and the others are the runs after `to`.
pub proof fn lemma_run_found(text: Seq<char>, block: Block, from: int, to: int)
    requires
        0 <= from < to <= text.len(),
        from == 0 || !block.holds(text[from - 1]),
        forall|j: int| from <= j < to ==> block.holds(text[j]),
        to < text.len() ==> !block.holds(text[to]),
    ensures
        runs_from(text, block, from) == seq![(from, to)] + runs_from(
            text,
            block,
            if to < text.len() {
                to + 1
            } else {
                to
            },
        ),
{
    lemma_run_end(text, block, from, to);
    let next = if to < text.len() { to + 1 } else { to };
    assert forall|j: int| from + 1 <= j < next implies !starts_run(text, block, j) by {
        if j < to {
            assert(block.holds(text[j - 1]));
        }
    }
    lemma_no_run_starts(text, block, from + 1, next);
}

/// Whether the range is a maximal stretch of block codepoints: it is not
/// empty, it holds block codepoints only, and a separator or an end of the
/// text stands on each side of it.
pub open spec fn is_maximal_run(text: Seq<char>, block: Block, range: (int, int)) -> bool {
    &&& 0 <= range.0 < range.1 <= text.len()
    &&& forall|j: int| range.0 <= j < range.1 ==> block.holds(#[trigger] text[j])
    &&& (range.0 == 0 || !block.holds(text[range.0 - 1]))
    &&& (range.1 == text.len() || !block.holds(text[range.1]))
}

/// From `at` up to `run_end` every codepoint is in the block, and `run_end`
/// is a separator or the end of the text.
pub proof fn lemma_run_end_bounds(text: Seq<char>, block: Block, at: int)
    requires
        0 <= at <= text.len(),
    ensures
        at <= run_end(text, block, at) <= text.len(),
        forall|j: int| at <= j < run_end(text, block, at) ==> block.holds(#[trigger] text[j]),
        run_end(text, block, at) < text.len() ==> !block.holds(text[run_end(text, block, at)]),
        at < text.len() && block.holds(text[at]) ==> at < run_end(text, block, at),
    decreases text.len() - at,
{
    if at < text.len() && block.holds(text[at]) {
        lemma_run_end_bounds(text, block, at + 1);
    }
}

/// The runs from `at` begin at `at` or later, each is maximal, and each ends
/// before the next begins.
pub proof fn lemma_runs_from_maximal(text: Seq<char>, block: Block, at: int)
    requires
        0 <= at <= text.len(),
    ensures
        forall|k: int|
            0 <= k < runs_from(text, block, at).len() ==> at <= (#[trigger] runs_from(
                text,
                block,
                at,
            )[k]).0 && is_maximal_run(text, block, runs_from(text, block, at)[k]),
        forall|k: int, l: int|
            0 <= k < l < runs_from(text, block, at).len() ==> (#[trigger] runs_from(
                text,
                block,
                at,
            )[k]).1 < (#[trigger] runs_from(text, block, at)[l]).0,
    decreases text.len() - at,
{
    if at < text.len() {
        let all = runs_from(text, block, at);
        let rest = runs_from(text, block, at + 1);
        lemma_runs_from_maximal(text, block, at + 1);
        if starts_run(text, block, at) {
            let end = run_end(text, block, at);
            lemma_run_end_bounds(text, block, at);
            assert(all[0] == (at, end));
            assert forall|k: int| 0 <= k < all.len() implies at <= (#[trigger] all[k]).0
                && is_maximal_run(text, block, all[k]) by {
                if k > 0 {
                    assert(all[k] == rest[k - 1]);
                }
            }
            assert forall|k: int, l: int| 0 <= k < l < all.len() implies (#[trigger] all[k]).1 < (
            #[trigger] all[l]).0 by {
                assert(all[l] == rest[l - 1]);
                if k > 0 {
                    assert(all[k] == rest[k - 1]);
                } else {
                    let next = rest[l - 1].0;
                    assert(is_maximal_run(text, block, rest[l - 1]));
                    if next < end {
                        assert(block.holds(text[next - 1]));
                    }
                }
            }
        }
    }
}

/// A run that begins at `start`, at `at` or later, is among the runs from `at`.
pub proof fn lemma_run_listed(text: Seq<char>, block: Block, at: int, start: int) -> (k: int)
    requires
        0 <= at <= start,
        starts_run(text, block, start),
    ensures
        0 <= k < runs_from(text, block, at).len(),
        runs_from(text, block, at)[k] == (start, run_end(text, block, start)),
    decreases start - at,
{
    if at == start {
        0
    } else {
        let k = lemma_run_listed(text, block, at + 1, start);
        if starts_run(text, block, at) {
            k + 1
        } else {
            k
        }
    }
}

/// The position at which the run that holds position `j` begins.
pub proof fn lemma_run_start(text: Seq<char>, block: Block, j: int) -> (start: int)
    requires
        0 <= j < text.len(),
        block.holds(text[j]),
    ensures
        0 <= start <= j,
        starts_run(text, block, start),
        forall|i: int| start <= i <= j ==> block.holds(#[trigger] text[i]),
    decreases j,
{
    if j == 0 || !block.holds(text[j - 1]) {
        j
    } else {
        lemma_run_start(text, block, j - 1)
    }
}

/// Every run of the text is a maximal stretch of block codepoints, the runs
/// stand in the order of the text without touching, and every block codepoint
/// of the text lies in one of them.
pub proof fn lemma_runs_maximal(text: Seq<char>, block: Block)
    ensures
        forall|k: int|
            0 <= k < runs(text, block).len() ==> is_maximal_run(
                text,
                block,
                #[trigger] runs(text, block)[k],
            ),
        forall|k: int, l: int|
            0 <= k < l < runs(text, block).len() ==> (#[trigger] runs(text, block)[k]).1 < (
            #[trigger] runs(text, block)[l]).0,
        forall|j: int|
            0 <= j < text.len() && block.holds(#[trigger] text[j]) ==> exists|k: int|
                0 <= k < runs(text, block).len() && (#[trigger] runs(text, block)[k]).0 <= j
                    < runs(text, block)[k].1,
{
    lemma_runs_from_maximal(text, block, 0);
    assert forall|j: int| 0 <= j < text.len() && block.holds(#[trigger] text[j]) implies exists|
        k: int,
    |
        0 <= k < runs(text, block).len() && (#[trigger] runs(text, block)[k]).0 <= j < runs(
            text,
            block,
        )[k].1 by {
        let start = lemma_run_start(text, block, j);
        let k = lemma_run_listed(text, block, 0, start);
        lemma_run_end_bounds(text, block, start);
        let end = run_end(text, block, start);
        if end <= j {
            assert(block.holds(text[end]));
        }
        assert(runs(text, block)[k].0 <= j < runs(text, block)[k].1);
    }
}

/// Whether the ranges are maximal stretches of block codepoints that stand in
/// the order of the text, from `at` on, and hold between them every block
/// codepoint from `at` on.
pub open spec fn lists_runs_from(
    text: Seq<char>,
    block: Block,
    at: int,
    ranges: Seq<(int, int)>,
) -> bool {
    &&& forall|k: int|
        0 <= k < ranges.len() ==> at <= (#[trigger] ranges[k]).0 && is_maximal_run(
            text,
            block,
            ranges[k],
        )
    &&& forall|k: int, l: int|
        0 <= k < l < ranges.len() ==> (#[trigger] ranges[k]).1 < (#[trigger] ranges[l]).0
    &&& forall|j: int|
        at <= j < text.len() && block.holds(#[trigger] text[j]) ==> exists|k: int|
            0 <= k < ranges.len() && (#[trigger] ranges[k]).0 <= j < ranges[k].1
}

/// Only the runs from `at` list the runs from `at`.
pub proof fn lemma_runs_from_unique(text: Seq<char>, block: Block, at: int, ranges: Seq<(int, int)>)
    requires
        0 <= at <= text.len(),
        lists_runs_from(text, block, at, ranges),
    ensures
        ranges == runs_from(text, block, at),
    decreases ranges.len(),
{
    let len = text.len() as int;
    if ranges.len() == 0 {
        assert forall|j: int| at <= j < len implies !starts_run(text, block, j) by {
            if block.holds(text[j]) {
                let k = choose|k: int|
                    0 <= k < ranges.len() && (#[trigger] ranges[k]).0 <= j < ranges[k].1;
            }
        }
        lemma_no_run_starts(text, block, at, len);
        assert(ranges =~= runs_from(text, block, at));
    } else {
        let first = ranges[0];
        let rest = ranges.skip(1);
        assert(is_maximal_run(text, block, first));
        assert forall|j: int| at <= j < first.0 implies !starts_run(text, block, j) by {
            if block.holds(text[j]) {
                let k = choose|k: int|
                    0 <= k < ranges.len() && (#[trigger] ranges[k]).0 <= j < ranges[k].1;
                if k > 0 {
                    assert(ranges[0].1 < ranges[k].0);
                }
            }
        }
        lemma_no_run_starts(text, block, at, first.0);
        lemma_run_found(text, block, first.0, first.1);
        let next = if first.1 < len {
            first.1 + 1
        } else {
            first.1
        };
        assert forall|k: int| 0 <= k < rest.len() implies next <= (#[trigger] rest[k]).0
            && is_maximal_run(text, block, rest[k]) by {
            assert(rest[k] == ranges[k + 1]);
            assert(ranges[0].1 < ranges[k + 1].0);
            assert(is_maximal_run(text, block, ranges[k + 1]));
        }
        assert forall|k: int, l: int| 0 <= k < l < rest.len() implies (#[trigger] rest[k]).1 < (
        #[trigger] rest[l]).0 by {
            assert(rest[k] == ranges[k + 1] && rest[l] == ranges[l + 1]);
        }
        assert forall|j: int| next <= j < len && block.holds(#[trigger] text[j]) implies exists|
            k: int,
        |
            0 <= k < rest.len() && (#[trigger] rest[k]).0 <= j < rest[k].1 by {
            let k = choose|k: int|
                0 <= k < ranges.len() && (#[trigger] ranges[k]).0 <= j < ranges[k].1;
            assert(k > 0);
            assert(rest[k - 1] == ranges[k]);
        }
        lemma_runs_from_unique(text, block, next, rest);
        assert(ranges =~= seq![first] + rest);
    }
}

/// The runs of a text are the one list of maximal stretches of block
/// codepoints that stand in the order of the text and hold every block
/// codepoint: however tokens are cut, by going through the codepoints or by
/// splitting at separators and dropping what is empty, the same tokens come
/// out.
pub proof fn lemma_runs_unique(text: Seq<char>, block: Block, ranges: Seq<(int, int)>)
    ensures
        lists_runs_from(text, block, 0, ranges) <==> ranges == runs(text, block),
{
    if lists_runs_from(text, block, 0, ranges) {
        lemma_runs_from_unique(text, block, 0, ranges);
    }
    lemma_runs_maximal(text, block);
    lemma_runs_from_maximal(text, block, 0);
}

/// No token is empty, every codepoint of a token is in the block, and each
/// token is the text of a maximal run: inside a token no separator parts two
/// neighbours, and no block codepoint touches a token from outside.
pub proof fn lemma_tokens_maximal(text: Seq<char>, block: Block)
    ensures
        tokens(text, block).len() == runs(text, block).len(),
        forall|k: int|
            0 <= k < tokens(text, block).len() ==> {
                let token = #[trigger] tokens(text, block)[k];
                let run = runs(text, block)[k];
                &&& token.len() > 0
                &&& token == text.subrange(run.0, run.1)
                &&& is_maximal_run(text, block, run)
                &&& forall|j: int| 0 <= j < token.len() ==> block.holds(#[trigger] token[j])
            },
{
    lemma_runs_maximal(text, block);
    assert forall|k: int| 0 <= k < tokens(text, block).len() implies {
        let token = #[trigger] tokens(text, block)[k];
        let run = runs(text, block)[k];
        &&& token.len() > 0
        &&& token == text.subrange(run.0, run.1)
        &&& is_maximal_run(text, block, run)
        &&& forall|j: int| 0 <= j < token.len() ==> block.holds(#[trigger] token[j])
    } by {
        let token = tokens(text, block)[k];
        let run = runs(text, block)[k];
        assert(is_maximal_run(text, block, run));
        assert forall|j: int| 0 <= j < token.len() implies block.holds(#[trigger] token[j]) by {
            assert(token[j] == text[run.0 + j]);
        }
    }
}

/// The empty text has no tokens.
pub proof fn lemma_tokens_of_empty(block: Block)
    ensures
        tokens(Seq::empty(), block) == Seq::<Seq<char>>::empty(),
{
    assert(tokens(Seq::empty(), block) =~= Seq::<Seq<char>>::empty());
}

/// A text of block codepoints only, if it is not empty, is its one token.
pub proof fn lemma_tokens_of_block_text(text: Seq<char>, block: Block)
    requires
        text.len() > 0,
        forall|j: int| 0 <= j < text.len() ==> block.holds(text[j]),
    ensures
        tokens(text, block) == seq![text],
{
    lemma_run_found(text, block, 0, text.len() as int);
    assert(runs(text, block) =~= seq![(0int, text.len() as int)]);
    assert(text.subrange(0, text.len() as int) =~= text);
    assert(tokens(text, block) =~= seq![text]);
}

/// A text without a block codepoint has no tokens.
pub proof fn lemma_tokens_of_separators(text: Seq<char>, block: Block)
    requires
        forall|j: int| 0 <= j < text.len() ==> !block.holds(text[j]),
    ensures
        tokens(text, block) == Seq::<Seq<char>>::empty(),
{
    lemma_no_run_starts(text, block, 0, text.len() as int);
    assert(tokens(text, block) =~= Seq::<Seq<char>>::empty());
}

/// The tokens of `text`: its maximal runs of codepoints of `block`, in the
/// order of the text. Separators belong to no token, and no token is empty.
pub fn tokenize(text: &str, block: Block) -> (out: Vec<String>)
    ensures
        strings_text(out@) == tokens(text@, block),
{
    let mut out: Vec<String> = Vec::new();
    let mut partial = String::new();
    let ghost mut found: Seq<(int, int)> = Seq::empty();
    let ghost mut from: int = 0;
    assert(strings_text(out@) =~= pieces(text@, found));
    for c in it: text.chars()
        invariant
            it.seq() == text@,
            0 <= from <= it.index() <= text@.len(),
            partial@ == text@.subrange(from, it.index() as int),
            forall|j: int| from <= j < it.index() ==> block.holds(text@[j]),
            from == 0 || !block.holds(text@[from - 1]),
            runs(text@, block) == found + runs_from(text@, block, from),
            strings_text(out@) == pieces(text@, found),
    {
        let ghost i = it.index() as int;
        assert(c == text@[i]);
        if block.contains(c) {
            push_char(&mut partial, c);
            assert(partial@ =~= text@.subrange(from, i + 1));
        } else {
            if !partial.as_str().is_empty() {
                let ghost before = out@;
                proof {
                    lemma_run_found(text@, block, from, i);
                    assert(found + (seq![(from, i)] + runs_from(text@, block, i + 1)) =~= found.push(
                        (from, i),
                    ) + runs_from(text@, block, i + 1));
                }
                out.push(partial);
                partial = String::new();
                proof {
                    assert(strings_text(out@) =~= strings_text(before).push(
                        text@.subrange(from, i),
                    ));
                    assert(pieces(text@, found.push((from, i))) =~= pieces(text@, found).push(
                        text@.subrange(from, i),
                    ));
                    found = found.push((from, i));
                }
            } else {
                proof {
                    assert(partial@.len() == 0);
                    assert(from == i);
                    assert(!starts_run(text@, block, i));
                }
            }
            proof {
                from = i + 1;
            }
            assert(partial@ =~= text@.subrange(from, i + 1));
        }
    }
    let ghost end = text@.len() as int;
    if !partial.as_str().is_empty() {
        let ghost before = out@;
        proof {
            lemma_run_found(text@, block, from, end);
            assert(found + (seq![(from, end)] + runs_from(text@, block, end)) =~= found.push(
                (from, end),
            ));
        }
        out.push(partial);
        proof {
            assert(strings_text(out@) =~= strings_text(before).push(text@.subrange(from, end)));
            assert(pieces(text@, found.push((from, end))) =~= pieces(text@, found).push(
                text@.subrange(from, end),
            ));
        }
    } else {
        assert(from == end);
        assert(found + runs_from(text@, block, end) =~= found);
    }
    out
}

} // verus!
