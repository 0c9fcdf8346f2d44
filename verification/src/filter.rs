//! The thresholds that a token must meet to stay in the final result.

use crate::counts::{
    as_tallies, distinct_keys, entries_map, lemma_entries_map, new_hash_map, tallies, term_counts,
    term_entries, term_put, TermCounts,
};
use crate::tally::Tallies;
use vstd::prelude::*;

verus! {

/// Whether frequencies meet the thresholds. A threshold that is not given
/// holds no token back.
pub open spec fn meets(entry: (nat, nat), min_tf: Option<usize>, min_df: Option<usize>) -> bool {
    &&& min_tf matches Some(least) ==> entry.0 >= least
    &&& min_df matches Some(least) ==> entry.1 >= least
}

/// The tallies without the tokens whose term frequency is below `min_tf` or
/// whose document frequency is below `min_df`.
pub open spec fn frequent_only(t: Tallies, min_tf: Option<usize>, min_df: Option<usize>) -> Tallies {
    Map::new(
        |token: Seq<char>| t.contains_key(token) && meets(t[token], min_tf, min_df),
        |token: Seq<char>| t[token],
    )
}

/// Whether a token with these frequencies stays.
pub fn meets_thresholds(tf: usize, df: usize, min_tf: Option<usize>, min_df: Option<usize>) -> (ok:
    bool)
    ensures
        ok == meets((tf as nat, df as nat), min_tf, min_df),
{
    let enough_tf = match min_tf {
        Some(least) => tf >= least,
        None => true,
    };
    let enough_df = match min_df {
        Some(least) => df >= least,
        None => true,
    };
    enough_tf && enough_df
}

/// The counts without the tokens whose term frequency is below `min_tf` or
/// whose document frequency is below `min_df`. This is for the counts of the
/// whole corpus, after the last merge: a token that is rare in each part may
/// be frequent in all.
pub fn retain_frequent(counts: TermCounts, min_tf: Option<usize>, min_df: Option<usize>) -> (kept:
    TermCounts)
    ensures
        tallies(kept) == frequent_only(tallies(counts), min_tf, min_df),
{
    let entries = term_entries(counts);
    let ghost list = entries@;
    let mut kept = new_hash_map();
    proof {
        assert(list.take(0) =~= Seq::empty());
        assert(tallies(kept) =~= frequent_only(
            as_tallies(entries_map(list.take(0))),
            min_tf,
            min_df,
        ));
    }
    for entry in it: entries.into_iter()
        invariant
            it.seq() == list,
            distinct_keys(list),
            tallies(kept) == frequent_only(
                as_tallies(entries_map(list.take(it.index() as int))),
                min_tf,
                min_df,
            ),
    {
        let ghost i = it.index() as int;
        let ghost before = list.take(i);
        let ghost after = list.take(i + 1);
        let (key, (tf, df)) = entry;
        proof {
            assert(after.drop_last() =~= before);
            assert(after.last() == list[i]);
            lemma_entries_map(before);
            if entries_map(before).contains_key(key@) {
                let j = choose|j: int| 0 <= j < before.len() && (#[trigger] before[j]).0@ == key@;
                assert(before[j] == list[j]);
                assert(list[i].0@ == key@);
            }
            assert(!entries_map(before).contains_key(key@));
            assert(entries_map(after) == entries_map(before).insert(key@, (tf, df)));
        }
        let ghost held = term_counts(kept);
        let ghost token = key@;
        let stays = meets_thresholds(tf, df, min_tf, min_df);
        if stays {
            term_put(&mut kept, key, (tf, df));
        }
        proof {
            let earlier = frequent_only(as_tallies(entries_map(before)), min_tf, min_df);
            let later = frequent_only(as_tallies(entries_map(after)), min_tf, min_df);
            assert(as_tallies(held) == earlier);
            assert(term_counts(kept) == if stays {
                held.insert(token, (tf, df))
            } else {
                held
            });
            assert forall|other: Seq<char>|
                tallies(kept).contains_key(other) <==> later.contains_key(other) by {
                if other != token {
                    assert(as_tallies(held).contains_key(other) == earlier.contains_key(other));
                }
            }
            assert forall|other: Seq<char>| #[trigger]
                tallies(kept).contains_key(other) implies tallies(kept)[other] == later[other] by {
                if other != token {
                    assert(as_tallies(held).contains_key(other));
                    assert(as_tallies(held)[other] == earlier[other]);
                }
            }
            assert(tallies(kept) =~= later);
        }
    }
    proof {
        assert(list.take(list.len() as int) =~= list);
    }
    kept
}

} // verus!
