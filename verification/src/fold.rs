//! Folding documents into counts, and merging the counts of scopes that were
//! folded apart.

use crate::counts::{
    as_tallies, counted, distinct_keys, entries_map, lemma_entries_map, new_word_counts, tallies,
    term_counts, term_entries, term_get, term_put, word_counts, word_entries, word_get, word_put,
    TermCounts, WordCounts,
};
use crate::source::{eligible_texts, is_eligible, lemma_eligible_texts_split, table_of, Document};
use crate::tally::{
    aggregate, contribution, df, fits, frequencies, lemma_aggregate_split, lemma_fits_both,
    lemma_merge_associative, lemma_occurrences, merge, occurrences, tf,
};
use crate::tokens::{devanagari_block, strings_text, tokenize, tokens, Block};
use vstd::prelude::*;

verus! {

/// How often each token of the text occurs in it.
pub fn count(text: &str, block: Block) -> (words: WordCounts)
    ensures
        counted(words) == frequencies(tokens(text@, block)),
{
    let found = tokenize(text, block);
    let ghost list = strings_text(found@);
    let ghost strings = found@;
    let mut words = new_word_counts();
    let total = found.len();
    for token in it: found.into_iter()
        invariant
            it.seq() == strings,
            strings.len() == total,
            list == strings_text(strings),
            forall|key: Seq<char>|
                word_counts(words).contains_key(key) <==> occurrences(
                    list.take(it.index() as int),
                    key,
                ) > 0,
            forall|key: Seq<char>| #[trigger]
                word_counts(words).contains_key(key) ==> word_counts(words)[key] == occurrences(
                    list.take(it.index() as int),
                    key,
                ),
    {
        let ghost i = it.index() as int;
        let ghost before = list.take(i);
        let ghost after = list.take(i + 1);
        proof {
            assert(after.drop_last() =~= before);
            assert(after.last() == token@);
            lemma_occurrences(before, token@);
        }
        let seen: usize = match word_get(&words, token.as_str()) {
            Some(n) => *n,
            None => 0,
        };
        assert(seen == occurrences(before, token@));
        word_put(&mut words, token, seen + 1);
        proof {
            assert forall|key: Seq<char>|
                word_counts(words).contains_key(key) <==> occurrences(after, key) > 0 by {
                lemma_occurrences(before, key);
            }
        }
    }
    proof {
        assert(list.take(list.len() as int) =~= list);
        assert forall|key: Seq<char>|
            counted(words).contains_key(key) <==> frequencies(list).contains_key(key) by {
            lemma_occurrences(list, key);
        }
        assert(counted(words) =~= frequencies(list));
    }
    words
}

/// Each count as what one document contributes: the count as term frequency,
/// and one as document frequency.
fn once_per_document(entries: Vec<(String, usize)>) -> (pairs: Vec<(String, (usize, usize))>)
    ensures
        pairs@.len() == entries@.len(),
        forall|i: int|
            0 <= i < pairs@.len() ==> (#[trigger] pairs@[i]).0@ == entries@[i].0@ && pairs@[i].1 == (
                entries@[i].1,
                1usize,
            ),
{
    let ghost list = entries@;
    let mut pairs: Vec<(String, (usize, usize))> = Vec::new();
    for entry in it: entries.into_iter()
        invariant
            it.seq() == list,
            pairs@.len() == it.index(),
            forall|i: int|
                0 <= i < pairs@.len() ==> (#[trigger] pairs@[i]).0@ == list[i].0@ && pairs@[i].1 == (
                    list[i].1,
                    1usize,
                ),
    {
        let (token, n) = entry;
        pairs.push((token, (n, 1)));
    }
    pairs
}

/// Adds each entry to what `counts` holds for its key.
fn absorb(counts: TermCounts, entries: Vec<(String, (usize, usize))>) -> (merged: Option<
    TermCounts,
>)
    requires
        distinct_keys(entries@),
    ensures
        merged matches Some(m) ==> tallies(m) == merge(
            tallies(counts),
            as_tallies(entries_map(entries@)),
        ),
        merged is Some <==> fits(merge(tallies(counts), as_tallies(entries_map(entries@)))),
{
    let ghost start = tallies(counts);
    let ghost list = entries@;
    let ghost target = merge(start, as_tallies(entries_map(list)));
    let mut acc = counts;
    assert(list.take(0) =~= Seq::empty());
    assert(tallies(acc) =~= merge(start, as_tallies(entries_map(list.take(0)))));
    for entry in it: entries.into_iter()
        invariant
            it.seq() == list,
            list == entries@,
            start == tallies(counts),
            distinct_keys(list),
            target == merge(start, as_tallies(entries_map(list))),
            tallies(acc) == merge(start, as_tallies(entries_map(list.take(it.index() as int)))),
    {
        let ghost i = it.index() as int;
        let ghost before = list.take(i);
        let ghost after = list.take(i + 1);
        let (key, (more_tf, more_df)) = entry;
        let (a, b): (usize, usize) = match term_get(&acc, key.as_str()) {
            Some(pair) => *pair,
            None => (0, 0),
        };
        proof {
            assert(after.drop_last() =~= before);
            assert(after.last() == list[i]);
            lemma_entries_map(list);
            lemma_entries_map(before);
            assert(list[i].0@ == key@);
            if entries_map(before).contains_key(key@) {
                let j = choose|j: int| 0 <= j < before.len() && (#[trigger] before[j]).0@ == key@;
                assert(before[j] == list[j]);
            }
            let earlier = as_tallies(entries_map(before));
            assert(!earlier.contains_key(key@));
            assert(tallies(acc) == merge(start, earlier));
            if term_counts(acc).contains_key(key@) {
                assert(tallies(acc).contains_key(key@));
                assert(tallies(acc)[key@] == (a as nat, b as nat));
                assert(merge(start, earlier).contains_key(key@));
                assert(merge(start, earlier)[key@] == (
                    tf(start, key@) + tf(earlier, key@),
                    df(start, key@) + df(earlier, key@),
                ));
            } else {
                assert(!tallies(acc).contains_key(key@));
                assert(!merge(start, earlier).contains_key(key@));
            }
            assert(a == tf(start, key@) && b == df(start, key@));
            assert(entries_map(list)[key@] == (more_tf, more_df));
            assert(as_tallies(entries_map(list)).contains_key(key@));
            assert(target.contains_key(key@));
            assert(target[key@] == ((a + more_tf) as nat, (b + more_df) as nat));
        }
        if a > usize::MAX - more_tf || b > usize::MAX - more_df {
            assert(!fits(target));
            return None;
        }
        let ghost held = term_counts(acc);
        term_put(&mut acc, key, (a + more_tf, b + more_df));
        proof {
            let sum = ((a + more_tf) as usize, (b + more_df) as usize);
            let earlier = as_tallies(entries_map(before));
            let later = as_tallies(entries_map(after));
            assert(term_counts(acc) == held.insert(key@, sum));
            assert(entries_map(after) == entries_map(before).insert(key@, (more_tf, more_df)));
            assert(as_tallies(held) == merge(start, earlier));
            assert forall|token: Seq<char>|
                tallies(acc).contains_key(token) <==> merge(start, later).contains_key(token) by {
                if token != key@ {
                    assert(as_tallies(held).contains_key(token) == merge(
                        start,
                        earlier,
                    ).contains_key(token));
                }
            }
            assert forall|token: Seq<char>| #[trigger]
                tallies(acc).contains_key(token) implies tallies(acc)[token] == merge(
                start,
                later,
            )[token] by {
                if token != key@ {
                    assert(as_tallies(held).contains_key(token));
                    assert(as_tallies(held)[token] == merge(start, earlier)[token]);
                }
            }
            assert(tallies(acc) =~= merge(start, later));
        }
    }
    proof {
        assert(list.take(list.len() as int) =~= list);
    }
    Some(acc)
}

/// The counts with one more document folded in, or `None` where a frequency
/// would leave the range of `usize`.
pub fn try_fold_text(counts: TermCounts, text: &str, block: Block) -> (merged: Option<TermCounts>)
    ensures
        merged matches Some(m) ==> tallies(m) == merge(
            tallies(counts),
            contribution(tokens(text@, block)),
        ),
        merged is Some <==> fits(merge(tallies(counts), contribution(tokens(text@, block)))),
{
    let words = count(text, block);
    let entries = word_entries(words);
    let pairs = once_per_document(entries);
    proof {
        let list = tokens(text@, block);
        lemma_entries_map(entries@);
        assert(distinct_keys(pairs@)) by {
            assert forall|i: int, j: int| 0 <= i < j < pairs@.len() implies (#[trigger] pairs@[i]).0@
                != (#[trigger] pairs@[j]).0@ by {
                assert(entries@[i].0@ != entries@[j].0@);
            }
        }
        lemma_entries_map(pairs@);
        let got = as_tallies(entries_map(pairs@));
        let want = contribution(list);
        assert forall|key: Seq<char>| #[trigger] got.contains_key(key) implies want.contains_key(
            key,
        ) && got[key] == want[key] by {
            let i = choose|i: int| 0 <= i < pairs@.len() && (#[trigger] pairs@[i]).0@ == key;
            assert(entries@[i].0@ == key);
            assert(word_counts(words).contains_key(key));
            assert(counted(words).contains_key(key));
            assert(frequencies(list).contains_key(key));
            assert(counted(words)[key] == frequencies(list)[key]);
            assert(entries_map(pairs@)[key] == pairs@[i].1);
        }
        assert forall|key: Seq<char>| #[trigger] want.contains_key(key) implies got.contains_key(
            key,
        ) by {
            assert(frequencies(list).contains_key(key));
            assert(counted(words).contains_key(key));
            assert(entries_map(entries@).contains_key(key));
            let i = choose|i: int| 0 <= i < entries@.len() && (#[trigger] entries@[i]).0@ == key;
            assert(pairs@[i].0@ == key);
        }
        assert(as_tallies(entries_map(pairs@)) =~= contribution(list));
    }
    absorb(counts, pairs)
}

/// The counts with one more document of Devanagari text folded in: each token
/// of `contents` gains its occurrences there as term frequency, and one as
/// document frequency.
pub fn folder(counts: TermCounts, contents: String) -> (merged: TermCounts)
    requires
        fits(merge(tallies(counts), contribution(tokens(contents@, devanagari_block())))),
    ensures
        tallies(merged) == merge(
            tallies(counts),
            contribution(tokens(contents@, devanagari_block())),
        ),
{
    try_fold_text(counts, contents.as_str(), Block::devanagari()).unwrap()
}

/// The counts of two scopes as the counts of one, or `None` where a frequency
/// would leave the range of `usize`.
pub fn try_add_counts(left_counts: TermCounts, right_counts: TermCounts) -> (merged: Option<
    TermCounts,
>)
    ensures
        merged matches Some(m) ==> tallies(m) == merge(tallies(left_counts), tallies(right_counts)),
        merged is Some <==> fits(merge(tallies(left_counts), tallies(right_counts))),
{
    let entries = term_entries(right_counts);
    absorb(left_counts, entries)
}

/// The counts of two scopes as the counts of one: every token of either is
/// kept, with the sums of its term frequencies and of its document
/// frequencies.
pub fn add_counts(left_counts: TermCounts, right_counts: TermCounts) -> (merged: TermCounts)
    requires
        fits(merge(tallies(left_counts), tallies(right_counts))),
    ensures
        tallies(merged) == merge(tallies(left_counts), tallies(right_counts)),
{
    try_add_counts(left_counts, right_counts).unwrap()
}

/// The counts with the eligible documents of the list folded in, one after
/// the other, or `None` where a frequency would leave the range of `usize`.
/// Without a table of source frequencies every document is eligible.
pub fn try_fold_documents(
    counts: TermCounts,
    docs: Vec<Document>,
    sources: Option<&WordCounts>,
    min_source_frequency: usize,
    block: Block,
) -> (merged: Option<TermCounts>)
    ensures
        merged matches Some(m) ==> tallies(m) == merge(
            tallies(counts),
            aggregate(eligible_texts(docs@, table_of(sources), min_source_frequency), block),
        ),
        merged is Some <==> fits(
            merge(
                tallies(counts),
                aggregate(eligible_texts(docs@, table_of(sources), min_source_frequency), block),
            ),
        ),
{
    let ghost start = tallies(counts);
    let ghost list = docs@;
    let ghost table = table_of(sources);
    let mut acc = counts;
    assert(list.take(0) =~= Seq::empty());
    assert(tallies(acc) =~= merge(
        start,
        aggregate(eligible_texts(list.take(0), table, min_source_frequency), block),
    ));
    for doc in it: docs.into_iter()
        invariant
            it.seq() == list,
            list == docs@,
            start == tallies(counts),
            table == table_of(sources),
            tallies(acc) == merge(
                start,
                aggregate(
                    eligible_texts(list.take(it.index() as int), table, min_source_frequency),
                    block,
                ),
            ),
    {
        let ghost i = it.index() as int;
        let ghost before = eligible_texts(list.take(i), table, min_source_frequency);
        let ghost after = eligible_texts(list.take(i + 1), table, min_source_frequency);
        let ghost rest = eligible_texts(list.skip(i + 1), table, min_source_frequency);
        let ghost all = eligible_texts(list, table, min_source_frequency);
        proof {
            assert(list.take(i + 1).drop_last() =~= list.take(i));
            assert(list.take(i + 1).last() == doc);
            assert(list.take(i + 1) + list.skip(i + 1) =~= list);
            lemma_eligible_texts_split(list.take(i + 1), list.skip(i + 1), table, min_source_frequency);
            lemma_aggregate_split(after, rest, block);
            lemma_merge_associative(start, aggregate(after, block), aggregate(rest, block));
        }
        if is_eligible(sources, min_source_frequency, doc.source.as_str()) {
            proof {
                let one = contribution(tokens(doc.text@, block));
                assert(after.drop_last() =~= before);
                lemma_merge_associative(start, aggregate(before, block), one);
            }
            match try_fold_text(acc, doc.text.as_str(), block) {
                Some(m) => {
                    acc = m;
                },
                None => {
                    proof {
                        if fits(merge(start, aggregate(all, block))) {
                            lemma_fits_both(
                                merge(start, aggregate(after, block)),
                                aggregate(rest, block),
                            );
                        }
                    }
                    return None;
                },
            }
        }
    }
    proof {
        assert(list.take(list.len() as int) =~= list);
    }
    Some(acc)
}

} // verus!
