//! The hash maps that hold the counts, and what the library takes on trust of
//! them.
//!
//! Both maps are `std::collections::HashMap` with the hasher of `rustc_hash`.
//! Verus sees neither inside a map nor inside the hasher, so what a map holds
//! has a name here, and each map operation that the library uses has a
//! wrapper whose contract says what the operation does to that content.

use crate::tally::Tallies;
use rustc_hash::FxHasher;
use std::collections::HashMap;
use std::hash::BuildHasherDefault;
use vstd::prelude::*;

verus! {

/// The hasher of `rustc_hash`, opaque to Verus.
#[verifier::external_type_specification]
#[verifier::external_body]
pub struct ExFxHasher(FxHasher);

/// The hasher factory of std that builds a default hasher, opaque to Verus.
#[verifier::external_type_specification]
#[verifier::external_body]
#[verifier::reject_recursive_types(H)]
pub struct ExBuildHasherDefault<H>(BuildHasherDefault<H>);

/// A count for each of some strings: the occurrences of each token of a
/// document, or the frequency of each source.
pub type WordCounts = HashMap<String, usize, BuildHasherDefault<FxHasher>>;

/// A term frequency and a document frequency for each of some tokens.
pub type TermCounts = HashMap<String, (usize, usize), BuildHasherDefault<FxHasher>>;

/// What a `WordCounts` holds: the count of each key, the key taken as its
/// sequence of codepoints.
pub uninterp spec fn word_counts(m: WordCounts) -> Map<Seq<char>, usize>;

/// What a `TermCounts` holds: the pair of each key, the key taken as its
/// sequence of codepoints.
pub uninterp spec fn term_counts(m: TermCounts) -> Map<Seq<char>, (usize, usize)>;

/// The map that the entries build, put into an empty map one after the other.
pub open spec fn entries_map<V>(entries: Seq<(String, V)>) -> Map<Seq<char>, V>
    decreases entries.len(),
{
    if entries.len() == 0 {
        Map::empty()
    } else {
        entries_map(entries.drop_last()).insert(entries.last().0@, entries.last().1)
    }
}

/// Whether no two entries have the same key.
pub open spec fn distinct_keys<V>(entries: Seq<(String, V)>) -> bool {
    forall|i: int, j: int|
        0 <= i < j < entries.len() ==> (#[trigger] entries[i]).0@ != (#[trigger] entries[j]).0@
}

/// The counts of a `WordCounts` as natural numbers.
pub open spec fn counted(m: WordCounts) -> Map<Seq<char>, nat> {
    Map::new(
        |key: Seq<char>| word_counts(m).contains_key(key),
        |key: Seq<char>| word_counts(m)[key] as nat,
    )
}

/// Pairs of machine integers as tallies.
pub open spec fn as_tallies(m: Map<Seq<char>, (usize, usize)>) -> Tallies {
    Map::new(
        |token: Seq<char>| m.contains_key(token),
        |token: Seq<char>| (m[token].0 as nat, m[token].1 as nat),
    )
}

/// The tallies that a `TermCounts` holds.
pub open spec fn tallies(m: TermCounts) -> Tallies {
    as_tallies(term_counts(m))
}

/// Calls `rustc_hash::FxHashMap::default`: the new map holds nothing.
#[verifier::external_body]
pub fn new_hash_map() -> (m: TermCounts)
    ensures
        term_counts(m) =~= Map::empty(),
{
    rustc_hash::FxHashMap::default()
}

/// Calls `HashMap::get`: the pair that the map holds for `key`, if it holds one.
#[verifier::external_body]
pub(crate) fn term_get<'a>(m: &'a TermCounts, key: &str) -> (found: Option<&'a (usize, usize)>)
    ensures
        match found {
            Some(pair) => term_counts(*m).contains_key(key@) && *pair == term_counts(*m)[key@],
            None => !term_counts(*m).contains_key(key@),
        },
{
    m.get(key)
}

/// Calls `HashMap::insert`: afterwards the map holds `value` for `key`, and
/// for every other key what it held before.
#[verifier::external_body]
pub(crate) fn term_put(m: &mut TermCounts, key: String, value: (usize, usize))
    ensures
        term_counts(*final(m)) == term_counts(*old(m)).insert(key@, value),
{
    m.insert(key, value);
}

/// Calls `Vec::from_iter` on the map: the entries come in an order that the
/// map chooses, each key once, and together they are what the map held.
#[verifier::external_body]
pub(crate) fn term_entries(m: TermCounts) -> (entries: Vec<(String, (usize, usize))>)
    ensures
        distinct_keys(entries@),
        entries_map(entries@) == term_counts(m),
{
    Vec::from_iter(m)
}

/// Calls `rustc_hash::FxHashMap::default`: the new map holds nothing.
#[verifier::external_body]
pub(crate) fn new_word_counts() -> (m: WordCounts)
    ensures
        word_counts(m) =~= Map::empty(),
{
    rustc_hash::FxHashMap::default()
}

/// Calls `HashMap::get`: the count that the map holds for `key`, if it holds one.
#[verifier::external_body]
pub(crate) fn word_get<'a>(m: &'a WordCounts, key: &str) -> (found: Option<&'a usize>)
    ensures
        match found {
            Some(count) => word_counts(*m).contains_key(key@) && *count == word_counts(*m)[key@],
            None => !word_counts(*m).contains_key(key@),
        },
{
    m.get(key)
}

/// Calls `HashMap::insert`: afterwards the map holds `value` for `key`, and
/// for every other key what it held before.
#[verifier::external_body]
pub(crate) fn word_put(m: &mut WordCounts, key: String, value: usize)
    ensures
        word_counts(*final(m)) == word_counts(*old(m)).insert(key@, value),
{
    m.insert(key, value);
}

/// Calls `Vec::from_iter` on the map: the entries come in an order that the
/// map chooses, each key once, and together they are what the map held.
#[verifier::external_body]
pub(crate) fn word_entries(m: WordCounts) -> (entries: Vec<(String, usize)>)
    ensures
        distinct_keys(entries@),
        entries_map(entries@) == word_counts(m),
{
    Vec::from_iter(m)
}

/// Where no key comes twice, the map of the entries holds each entry's value
/// under its key, and no other key.
pub proof fn lemma_entries_map<V>(entries: Seq<(String, V)>)
    requires
        distinct_keys(entries),
    ensures
        forall|i: int|
            0 <= i < entries.len() ==> entries_map(entries).contains_key(
                (#[trigger] entries[i]).0@,
            ) && entries_map(entries)[entries[i].0@] == entries[i].1,
        forall|key: Seq<char>| #[trigger]
            entries_map(entries).contains_key(key) ==> exists|i: int|
                0 <= i < entries.len() && (#[trigger] entries[i]).0@ == key,
    decreases entries.len(),
{
    if entries.len() > 0 {
        let earlier = entries.drop_last();
        let last = entries.last();
        lemma_entries_map(earlier);
        assert forall|i: int| 0 <= i < entries.len() implies entries_map(entries).contains_key(
            (#[trigger] entries[i]).0@,
        ) && entries_map(entries)[entries[i].0@] == entries[i].1 by {
            if i < entries.len() - 1 {
                assert(entries[i] == earlier[i]);
                assert(entries[i].0@ != entries[entries.len() - 1].0@);
            }
        }
        assert forall|key: Seq<char>| #[trigger]
            entries_map(entries).contains_key(key) implies exists|i: int|
            0 <= i < entries.len() && (#[trigger] entries[i]).0@ == key by {
            if key == last.0@ {
                assert(entries[entries.len() - 1].0@ == key);
            } else {
                assert(entries_map(earlier).contains_key(key));
                let i = choose|i: int| 0 <= i < earlier.len() && (#[trigger] earlier[i]).0@ == key;
                assert(entries[i] == earlier[i]);
            }
        }
    }
}

} // verus!
