//! The mathematics of counting: how often a token occurs in one document,
//! what one document contributes, and how contributions combine.

use crate::tokens::{tokens, Block};
use vstd::prelude::*;
use vstd::seq_lib::{to_multiset_contains, to_multiset_len, to_multiset_remove};

verus! {

/// For each token that a scope holds, its term frequency and its document
/// frequency there.
pub type Tallies = Map<Seq<char>, (nat, nat)>;

/// The term frequency of `token`: how often it occurs in the scope. A token
/// that the scope does not hold occurs zero times.
pub open spec fn tf(t: Tallies, token: Seq<char>) -> nat {
    if t.contains_key(token) {
        t[token].0
    } else {
        0
    }
}

/// The document frequency of `token`: in how many documents of the scope it
/// occurs.
pub open spec fn df(t: Tallies, token: Seq<char>) -> nat {
    if t.contains_key(token) {
        t[token].1
    } else {
        0
    }
}

/// The tallies of two scopes with no document in common, taken as one scope:
/// a token of either is kept, and the frequencies add up.
pub open spec fn merge(a: Tallies, b: Tallies) -> Tallies {
    Map::new(
        |token: Seq<char>| a.contains_key(token) || b.contains_key(token),
        |token: Seq<char>| (tf(a, token) + tf(b, token), df(a, token) + df(b, token)),
    )
}

/// Whether every frequency fits in a `usize`.
pub open spec fn fits(t: Tallies) -> bool {
    forall|token: Seq<char>| #[trigger]
        t.contains_key(token) ==> t[token].0 <= usize::MAX && t[token].1 <= usize::MAX
}

/// How often `token` stands in the list.
pub open spec fn occurrences(list: Seq<Seq<char>>, token: Seq<char>) -> nat
    decreases list.len(),
{
    if list.len() == 0 {
        0
    } else {
        occurrences(list.drop_last(), token) + if list.last() == token {
            1nat
        } else {
            0nat
        }
    }
}

/// For each token of the list, how often it stands there.
pub open spec fn frequencies(list: Seq<Seq<char>>) -> Map<Seq<char>, nat> {
    Map::new(|token: Seq<char>| list.contains(token), |token: Seq<char>| occurrences(list, token))
}

/// What one document with these tokens contributes: to the term frequency of
/// each of its tokens the number of its occurrences, to its document
/// frequency one, however often it occurs.
pub open spec fn contribution(list: Seq<Seq<char>>) -> Tallies {
    Map::new(
        |token: Seq<char>| list.contains(token),
        |token: Seq<char>| (occurrences(list, token), 1nat),
    )
}

/// The tallies of a list of documents, folded in one pass from the first to
/// the last.
pub open spec fn aggregate(docs: Seq<Seq<char>>, block: Block) -> Tallies
    decreases docs.len(),
{
    if docs.len() == 0 {
        Map::empty()
    } else {
        merge(aggregate(docs.drop_last(), block), contribution(tokens(docs.last(), block)))
    }
}

/// How often `token` occurs in all the documents together.
pub open spec fn total_occurrences(docs: Seq<Seq<char>>, block: Block, token: Seq<char>) -> nat
    decreases docs.len(),
{
    if docs.len() == 0 {
        0
    } else {
        total_occurrences(docs.drop_last(), block, token) + occurrences(
            tokens(docs.last(), block),
            token,
        )
    }
}

/// In how many of the documents `token` occurs.
pub open spec fn documents_with(docs: Seq<Seq<char>>, block: Block, token: Seq<char>) -> nat
    decreases docs.len(),
{
    if docs.len() == 0 {
        0
    } else {
        documents_with(docs.drop_last(), block, token) + if tokens(docs.last(), block).contains(
            token,
        ) {
            1nat
        } else {
            0nat
        }
    }
}

/// A way to reduce documents to one result: fold a group of them in one
/// pass, or merge what two reductions give.
pub enum Reduction {
    Fold(Seq<Seq<char>>),
    Merge(Box<Reduction>, Box<Reduction>),
}

impl Reduction {
    /// The documents that the reduction folds, group after group.
    pub open spec fn documents(self) -> Seq<Seq<char>>
        decreases self,
    {
        match self {
            Reduction::Fold(group) => group,
            Reduction::Merge(left, right) => left.documents() + right.documents(),
        }
    }

    /// What the reduction gives.
    pub open spec fn result(self, block: Block) -> Tallies
        decreases self,
    {
        match self {
            Reduction::Fold(group) => aggregate(group, block),
            Reduction::Merge(left, right) => merge(left.result(block), right.result(block)),
        }
    }
}

/// A token occurs in a list as often as the list is long at most, and at
/// least once exactly if the list holds it.
pub proof fn lemma_occurrences(list: Seq<Seq<char>>, token: Seq<char>)
    ensures
        occurrences(list, token) <= list.len(),
        occurrences(list, token) > 0 <==> list.contains(token),
    decreases list.len(),
{
    if list.len() > 0 {
        let earlier = list.drop_last();
        lemma_occurrences(earlier, token);
        if earlier.contains(token) {
            let i = choose|i: int| 0 <= i < earlier.len() && earlier[i] == token;
            assert(list[i] == token);
        }
        if list.last() == token {
            assert(list[list.len() - 1] == token);
        }
        if list.contains(token) && list.last() != token {
            let i = choose|i: int| 0 <= i < list.len() && list[i] == token;
            assert(earlier[i] == token);
        }
    }
}

/// Merging does not depend on the order of the two scopes.
pub proof fn lemma_merge_commutative(a: Tallies, b: Tallies)
    ensures
        merge(a, b) == merge(b, a),
{
    assert(merge(a, b) =~= merge(b, a));
}

/// Merging three scopes does not depend on which two are merged first.
pub proof fn lemma_merge_associative(a: Tallies, b: Tallies, c: Tallies)
    ensures
        merge(merge(a, b), c) == merge(a, merge(b, c)),
{
    assert(merge(merge(a, b), c) =~= merge(a, merge(b, c)));
}

/// Merging with the empty scope, on either side, changes nothing.
pub proof fn lemma_merge_identity(a: Tallies)
    ensures
        merge(a, Map::empty()) == a,
        merge(Map::empty(), a) == a,
{
    assert(merge(a, Map::empty()) =~= a);
    assert(merge(Map::empty(), a) =~= a);
}

/// Folding two lists of documents apart and merging the results gives what
/// folding the one list after the other in one pass gives.
pub proof fn lemma_aggregate_split(a: Seq<Seq<char>>, b: Seq<Seq<char>>, block: Block)
    ensures
        aggregate(a + b, block) == merge(aggregate(a, block), aggregate(b, block)),
    decreases b.len(),
{
    if b.len() == 0 {
        assert(a + b =~= a);
        lemma_merge_identity(aggregate(a, block));
    } else {
        let last = contribution(tokens(b.last(), block));
        lemma_aggregate_split(a, b.drop_last(), block);
        assert((a + b).drop_last() =~= a + b.drop_last());
        assert((a + b).last() == b.last());
        lemma_merge_associative(aggregate(a, block), aggregate(b.drop_last(), block), last);
    }
}

/// The tallies of a list of documents hold the tokens that occur in one of
/// them, each with the sum of its occurrences as term frequency and with the
/// number of the documents that hold it as document frequency.
pub proof fn lemma_aggregate_counts(docs: Seq<Seq<char>>, block: Block, token: Seq<char>)
    ensures
        aggregate(docs, block).contains_key(token) <==> documents_with(docs, block, token) > 0,
        tf(aggregate(docs, block), token) == total_occurrences(docs, block, token),
        df(aggregate(docs, block), token) == documents_with(docs, block, token),
    decreases docs.len(),
{
    if docs.len() > 0 {
        lemma_aggregate_counts(docs.drop_last(), block, token);
        lemma_occurrences(tokens(docs.last(), block), token);
    }
}

/// The tallies of a list of documents do not depend on the order of the list.
pub proof fn lemma_aggregate_permutation(a: Seq<Seq<char>>, b: Seq<Seq<char>>, block: Block)
    requires
        a.to_multiset() == b.to_multiset(),
    ensures
        aggregate(a, block) == aggregate(b, block),
    decreases a.len(),
{
    to_multiset_len(a);
    to_multiset_len(b);
    if a.len() > 0 {
        let last = a.last();
        assert(a[a.len() - 1] == last);
        to_multiset_contains(a, last);
        to_multiset_contains(b, last);
        let i = choose|i: int| 0 <= i < b.len() && b[i] == last;
        to_multiset_remove(a, a.len() - 1);
        to_multiset_remove(b, i);
        assert(a.remove(a.len() - 1) =~= a.drop_last());
        lemma_aggregate_permutation(a.drop_last(), b.remove(i), block);
        let front = b.subrange(0, i);
        let back = b.subrange(i + 1, b.len() as int);
        let one = contribution(tokens(last, block));
        assert(b =~= front.push(last) + back);
        assert(front.push(last).drop_last() =~= front);
        lemma_aggregate_split(front.push(last), back, block);
        lemma_aggregate_split(front, back, block);
        lemma_merge_associative(aggregate(front, block), one, aggregate(back, block));
        lemma_merge_commutative(one, aggregate(back, block));
        lemma_merge_associative(aggregate(front, block), aggregate(back, block), one);
    }
}

/// However the documents are parted into groups, in whatever order the
/// groups are folded and in whatever order and grouping their results are
/// merged, the result is that of folding all the documents in one pass.
pub proof fn lemma_reduction(tree: Reduction, docs: Seq<Seq<char>>, block: Block)
    requires
        tree.documents().to_multiset() == docs.to_multiset(),
    ensures
        tree.result(block) == aggregate(docs, block),
{
    lemma_reduction_in_order(tree, block);
    lemma_aggregate_permutation(tree.documents(), docs, block);
}

/// A reduction gives the tallies of its documents taken group after group.
pub proof fn lemma_reduction_in_order(tree: Reduction, block: Block)
    ensures
        tree.result(block) == aggregate(tree.documents(), block),
    decreases tree,
{
    match tree {
        Reduction::Fold(group) => {},
        Reduction::Merge(left, right) => {
            lemma_reduction_in_order(*left, block);
            lemma_reduction_in_order(*right, block);
            lemma_aggregate_split(left.documents(), right.documents(), block);
        },
    }
}

/// Three groups that part the documents between them, folded apart and
/// merged in any order and grouping, give what one pass over all gives.
pub proof fn lemma_three_way_split(
    docs: Seq<Seq<char>>,
    g1: Seq<Seq<char>>,
    g2: Seq<Seq<char>>,
    g3: Seq<Seq<char>>,
    block: Block,
)
    requires
        (g1 + g2 + g3).to_multiset() == docs.to_multiset(),
    ensures
        merge(merge(aggregate(g1, block), aggregate(g2, block)), aggregate(g3, block))
            == aggregate(docs, block),
        merge(aggregate(g1, block), merge(aggregate(g2, block), aggregate(g3, block)))
            == aggregate(docs, block),
        merge(merge(aggregate(g3, block), aggregate(g1, block)), aggregate(g2, block))
            == aggregate(docs, block),
        merge(aggregate(g2, block), merge(aggregate(g3, block), aggregate(g1, block)))
            == aggregate(docs, block),
        merge(merge(aggregate(g2, block), aggregate(g1, block)), aggregate(g3, block))
            == aggregate(docs, block),
        merge(aggregate(g3, block), merge(aggregate(g2, block), aggregate(g1, block)))
            == aggregate(docs, block),
{
    let a1 = aggregate(g1, block);
    let a2 = aggregate(g2, block);
    let a3 = aggregate(g3, block);
    lemma_aggregate_split(g1, g2, block);
    lemma_aggregate_split(g1 + g2, g3, block);
    lemma_aggregate_permutation(g1 + g2 + g3, docs, block);
    lemma_merge_associative(a1, a2, a3);
    lemma_merge_commutative(a1, a2);
    lemma_merge_commutative(a3, a1);
    lemma_merge_commutative(a2, a3);
    lemma_merge_commutative(merge(a1, a2), a3);
    lemma_merge_associative(a3, a1, a2);
    lemma_merge_commutative(a2, merge(a3, a1));
    lemma_merge_associative(a3, a2, a1);
}

/// Merging only adds: where the merged tallies fit, so does each side.
pub proof fn lemma_fits_both(a: Tallies, b: Tallies)
    requires
        fits(merge(a, b)),
    ensures
        fits(a),
        fits(b),
{
    assert forall|token: Seq<char>| #[trigger] a.contains_key(token) implies a[token].0
        <= usize::MAX && a[token].1 <= usize::MAX by {
        assert(merge(a, b).contains_key(token));
    }
    assert forall|token: Seq<char>| #[trigger] b.contains_key(token) implies b[token].0
        <= usize::MAX && b[token].1 <= usize::MAX by {
        assert(merge(a, b).contains_key(token));
    }
}

} // verus!
