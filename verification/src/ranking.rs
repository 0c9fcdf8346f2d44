//! Source frequencies by key: the counts of the labels that share a key,
//! summed, and a table's entries from the most frequent down.

use crate::counts::{
    distinct_keys, entries_map, lemma_entries_map, new_word_counts, word_counts, word_entries,
    word_get, word_put, WordCounts,
};
use crate::source::{simplify_source, source_key};
use itertools::Itertools;
use vstd::prelude::*;

verus! {

/// The sum of the counts of the labels whose key is `key`.
pub open spec fn key_total(pairs: Seq<(String, usize)>, key: Seq<char>) -> nat
    decreases pairs.len(),
{
    if pairs.len() == 0 {
        0
    } else {
        key_total(pairs.drop_last(), key) + if source_key(pairs.last().0@) == key {
            pairs.last().1 as nat
        } else {
            0nat
        }
    }
}

/// Whether one of the labels has the key `key`.
pub open spec fn has_key(pairs: Seq<(String, usize)>, key: Seq<char>) -> bool {
    exists|i: int| 0 <= i < pairs.len() && source_key((#[trigger] pairs[i]).0@) == key
}

/// A key that no label has sums to zero, and the sum over a list is at least
/// the sum over each of its beginnings.
pub proof fn lemma_key_total(pairs: Seq<(String, usize)>, key: Seq<char>, n: int)
    requires
        0 <= n <= pairs.len(),
    ensures
        !has_key(pairs, key) ==> key_total(pairs, key) == 0,
        key_total(pairs.take(n), key) <= key_total(pairs, key),
    decreases pairs.len(),
{
    if pairs.len() > 0 {
        let earlier = pairs.drop_last();
        if n == pairs.len() {
            assert(pairs.take(n) =~= pairs);
            lemma_key_total(earlier, key, 0);
        } else {
            assert(pairs.take(n) =~= earlier.take(n));
            lemma_key_total(earlier, key, n);
        }
        if !has_key(pairs, key) {
            assert(source_key(pairs[pairs.len() - 1].0@) != key);
            assert forall|i: int| 0 <= i < earlier.len() implies source_key(
                (#[trigger] earlier[i]).0@,
            ) != key by {
                assert(earlier[i] == pairs[i]);
            }
        }
    } else {
        assert(pairs.take(n) =~= pairs);
    }
}

/// The frequencies of the sources by key: each key of a label in the list,
/// with the sum of the counts of the labels that have it. `None` where a sum
/// would leave the range of `usize`.
pub fn try_simplify_counts(pairs: Vec<(String, usize)>) -> (table: Option<WordCounts>)
    ensures
        table matches Some(m) ==> forall|key: Seq<char>|
            (word_counts(m).contains_key(key) <==> has_key(pairs@, key)) && (word_counts(
                m,
            ).contains_key(key) ==> word_counts(m)[key] == key_total(pairs@, key)),
        table is Some <==> forall|key: Seq<char>| key_total(pairs@, key) <= usize::MAX,
{
    let ghost list = pairs@;
    let mut acc = new_word_counts();
    assert(list.take(0) =~= Seq::empty());
    for pair in it: pairs.into_iter()
        invariant
            it.seq() == list,
            list == pairs@,
            forall|key: Seq<char>|
                word_counts(acc).contains_key(key) <==> has_key(list.take(it.index() as int), key),
            forall|key: Seq<char>| #[trigger]
                word_counts(acc).contains_key(key) ==> word_counts(acc)[key] == key_total(
                    list.take(it.index() as int),
                    key,
                ),
    {
        let ghost i = it.index() as int;
        let ghost before = list.take(i);
        let ghost after = list.take(i + 1);
        let (source, more) = pair;
        let key = simplify_source(source.as_str());
        let held: usize = match word_get(&acc, key.as_str()) {
            Some(n) => *n,
            None => 0,
        };
        proof {
            assert(after.drop_last() =~= before);
            assert(after.last() == list[i]);
            lemma_key_total(before, key@, 0);
            assert(held == key_total(before, key@));
            assert(key_total(after, key@) == held + more);
        }
        if held > usize::MAX - more {
            proof {
                lemma_key_total(list, key@, i + 1);
            }
            return None;
        }
        let ghost token = key@;
        word_put(&mut acc, key, held + more);
        proof {
            assert forall|other: Seq<char>|
                word_counts(acc).contains_key(other) <==> has_key(after, other) by {
                if has_key(before, other) {
                    let j = choose|j: int|
                        0 <= j < before.len() && source_key((#[trigger] before[j]).0@) == other;
                    assert(after[j] == before[j]);
                }
                if other == token {
                    assert(source_key(after[i].0@) == other);
                }
                if has_key(after, other) && other != token {
                    let j = choose|j: int|
                        0 <= j < after.len() && source_key((#[trigger] after[j]).0@) == other;
                    assert(before[j] == after[j]);
                }
            }
        }
    }
    proof {
        assert(list.take(list.len() as int) =~= list);
        assert forall|key: Seq<char>| key_total(list, key) <= usize::MAX by {
            lemma_key_total(list, key, 0);
            if has_key(list, key) {
                assert(word_counts(acc).contains_key(key));
            }
        }
    }
    Some(acc)
}

/// The key by which entries are put in order: it falls as the count rises.
pub fn descending_key(count: usize) -> (key: usize)
    ensures
        key == usize::MAX - count,
{
    usize::MAX - count
}

/// Calls `itertools::Itertools::sorted_by_key` with `descending_key` of an
/// entry's count as the key: the result holds the same entries, and the keys
/// do not fall from one entry to the next.
#[verifier::external_body]
fn sorted_by_descending_key(entries: Vec<(String, usize)>) -> (sorted: Vec<(String, usize)>)
    ensures
        sorted@.to_multiset() == entries@.to_multiset(),
        forall|i: int, j: int|
            0 <= i < j < sorted@.len() ==> usize::MAX - (#[trigger] sorted@[i]).1 <= usize::MAX - (
            #[trigger] sorted@[j]).1,
{
    entries.into_iter().sorted_by_key(|entry| descending_key(entry.1)).collect()
}

/// Entries that are the same but for their order have the same keys, each
/// once, and build the same map.
pub proof fn lemma_reordered_entries(a: Seq<(String, usize)>, b: Seq<(String, usize)>)
    requires
        a.to_multiset() == b.to_multiset(),
        distinct_keys(a),
    ensures
        distinct_keys(b),
        entries_map(a) == entries_map(b),
    decreases a.len(),
{
    vstd::seq_lib::to_multiset_len(a);
    vstd::seq_lib::to_multiset_len(b);
    if a.len() == 0 {
        assert(entries_map(a) =~= entries_map(b));
    } else {
        let n = a.len() - 1;
        let last = a[n];
        vstd::seq_lib::to_multiset_contains(a, last);
        vstd::seq_lib::to_multiset_contains(b, last);
        let i = choose|i: int| 0 <= i < b.len() && b[i] == last;
        vstd::seq_lib::to_multiset_remove(a, n);
        vstd::seq_lib::to_multiset_remove(b, i);
        let shorter = a.drop_last();
        let others = b.remove(i);
        assert(a.remove(n) =~= shorter);
        assert(distinct_keys(shorter)) by {
            assert forall|p: int, q: int| 0 <= p < q < shorter.len() implies (
            #[trigger] shorter[p]).0@ != (#[trigger] shorter[q]).0@ by {
                assert(shorter[p] == a[p] && shorter[q] == a[q]);
            }
        }
        lemma_reordered_entries(shorter, others);
        lemma_entries_map(shorter);
        lemma_entries_map(others);
        lemma_entries_map(a);
        // No entry of `b` besides the one at `i` has the key of `last`.
        assert forall|q: int| 0 <= q < b.len() && q != i implies (#[trigger] b[q]).0@ != last.0@ by {
            let r = if q < i {
                q
            } else {
                q - 1
            };
            assert(others[r] == b[q]);
            assert(entries_map(others).contains_key(others[r].0@));
            assert(entries_map(shorter).contains_key(b[q].0@));
            let t = choose|t: int| 0 <= t < shorter.len() && (#[trigger] shorter[t]).0@ == b[q].0@;
            assert(shorter[t] == a[t]);
            assert(a[t].0@ != a[n].0@);
        }
        assert forall|p: int, q: int| 0 <= p < q < b.len() implies (#[trigger] b[p]).0@ != (
        #[trigger] b[q]).0@ by {
            if p != i && q != i {
                let rp = if p < i {
                    p
                } else {
                    p - 1
                };
                let rq = if q < i {
                    q
                } else {
                    q - 1
                };
                assert(others[rp] == b[p] && others[rq] == b[q]);
            }
        }
        lemma_entries_map(b);
        assert forall|key: Seq<char>| #[trigger]
            entries_map(a).contains_key(key) implies entries_map(b).contains_key(key)
            && entries_map(a)[key] == entries_map(b)[key] by {
            if key == last.0@ {
                assert(b[i].0@ == key);
                assert(a[n].0@ == key);
            } else {
                assert(entries_map(shorter).contains_key(key));
                assert(entries_map(others).contains_key(key));
                let r = choose|r: int| 0 <= r < others.len() && (#[trigger] others[r]).0@ == key;
                let q = if r < i {
                    r
                } else {
                    r + 1
                };
                assert(b[q] == others[r]);
                assert(entries_map(b)[b[q].0@] == b[q].1);
                assert(entries_map(others)[others[r].0@] == others[r].1);
            }
        }
        assert forall|key: Seq<char>| #[trigger]
            entries_map(b).contains_key(key) implies entries_map(a).contains_key(key) by {
            let q = choose|q: int| 0 <= q < b.len() && (#[trigger] b[q]).0@ == key;
            if q == i {
                assert(a[n].0@ == key);
            } else {
                let r = if q < i {
                    q
                } else {
                    q - 1
                };
                assert(others[r] == b[q]);
                assert(entries_map(others).contains_key(others[r].0@));
                assert(entries_map(shorter).contains_key(key));
            }
        }
        assert(entries_map(a) =~= entries_map(b));
    }
}

/// The entries of the table from the most frequent down: each key once, with
/// its count, and no entry has a smaller count than one that follows it.
/// Among entries of one count the order is the table's own.
pub fn by_descending_count(table: WordCounts) -> (ranked: Vec<(String, usize)>)
    ensures
        distinct_keys(ranked@),
        entries_map(ranked@) == word_counts(table),
        forall|i: int, j: int|
            0 <= i < j < ranked@.len() ==> (#[trigger] ranked@[i]).1 >= (#[trigger] ranked@[j]).1,
{
    let entries = word_entries(table);
    let ranked = sorted_by_descending_key(entries);
    proof {
        lemma_reordered_entries(entries@, ranked@);
    }
    ranked
}

} // verus!
