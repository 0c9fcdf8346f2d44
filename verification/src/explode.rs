//! Word lists: the lines of a text, and the words that roots and suffixes
//! form, as far as a list of known words holds them.

use crate::text::{lemma_first_index_of, push_char, split_on};
use crate::tokens::strings_text;
use vstd::hash_map::StringHashMap;
use vstd::prelude::*;
use vstd::string::StringExecFns;

verus! {

/// The words `root` followed by a suffix, for each suffix in order, as far as
/// they are known.
pub open spec fn known_words(
    root: Seq<char>,
    suffixes: Seq<Seq<char>>,
    known: Set<Seq<char>>,
) -> Seq<Seq<char>>
    decreases suffixes.len(),
{
    if suffixes.len() == 0 {
        Seq::empty()
    } else {
        let earlier = known_words(root, suffixes.drop_last(), known);
        let word = root + suffixes.last();
        if known.contains(word) {
            earlier.push(word)
        } else {
            earlier
        }
    }
}

/// The lines of the text: its pieces between line feeds. A text that ends in
/// a line feed has an empty last line, and the empty text has one empty line.
pub fn lines_of(text: &str) -> (lines: Vec<String>)
    ensures
        strings_text(lines@) == split_on(text@, '\n'),
{
    let mut lines: Vec<String> = Vec::new();
    let mut partial = String::new();
    let ghost mut closed: Seq<Seq<char>> = Seq::empty();
    let ghost mut from: int = 0;
    let ghost end = text@.len() as int;
    assert(text@.subrange(0, end) =~= text@);
    assert(strings_text(lines@) =~= closed);
    for c in it: text.chars()
        invariant
            it.seq() == text@,
            end == text@.len(),
            0 <= from <= it.index() <= end,
            partial@ == text@.subrange(from, it.index() as int),
            forall|j: int| from <= j < it.index() ==> text@[j] != '\n',
            split_on(text@, '\n') == closed + split_on(text@.subrange(from, end), '\n'),
            strings_text(lines@) == closed,
    {
        let ghost i = it.index() as int;
        assert(c == text@[i]);
        if c == '\n' {
            let ghost rest = text@.subrange(from, end);
            let ghost line = text@.subrange(from, i);
            let ghost before = lines@;
            proof {
                lemma_first_index_of(rest, '\n', i - from);
                assert(rest.take(i - from) =~= line);
                assert(rest.skip(i - from + 1) =~= text@.subrange(i + 1, end));
                assert(closed + (seq![line] + split_on(text@.subrange(i + 1, end), '\n'))
                    =~= closed.push(line) + split_on(text@.subrange(i + 1, end), '\n'));
            }
            lines.push(partial);
            partial = String::new();
            proof {
                assert(strings_text(lines@) =~= strings_text(before).push(line));
                closed = closed.push(line);
                from = i + 1;
            }
            assert(partial@ =~= text@.subrange(from, i + 1));
        } else {
            push_char(&mut partial, c);
            assert(partial@ =~= text@.subrange(from, i + 1));
        }
    }
    let ghost rest = text@.subrange(from, end);
    let ghost before = lines@;
    proof {
        lemma_first_index_of(rest, '\n', end - from);
        assert(closed + seq![rest] =~= closed.push(rest));
    }
    lines.push(partial);
    proof {
        assert(strings_text(lines@) =~= strings_text(before).push(rest));
    }
    lines
}

/// The set of the words of a list.
pub fn word_set(words: Vec<String>) -> (set: StringHashMap<()>)
    ensures
        forall|word: Seq<char>| set@.contains_key(word) <==> strings_text(words@).contains(word),
{
    let ghost list = words@;
    let mut set: StringHashMap<()> = StringHashMap::new();
    for word in it: words.into_iter()
        invariant
            it.seq() == list,
            forall|w: Seq<char>|
                set@.contains_key(w) <==> strings_text(list).take(it.index() as int).contains(w),
    {
        let ghost i = it.index() as int;
        let ghost before = strings_text(list).take(i);
        let ghost after = strings_text(list).take(i + 1);
        let ghost held = set@;
        set.insert(word, ());
        proof {
            assert(after =~= before.push(word@));
            assert forall|w: Seq<char>| set@.contains_key(w) <==> after.contains(w) by {
                if before.contains(w) {
                    let j = choose|j: int| 0 <= j < before.len() && before[j] == w;
                    assert(after[j] == w);
                }
                if w == word@ {
                    assert(after[i] == w);
                }
                if after.contains(w) && w != word@ {
                    let j = choose|j: int| 0 <= j < after.len() && after[j] == w;
                    assert(before[j] == w);
                }
            }
        }
    }
    proof {
        assert(strings_text(list).take(list.len() as int) =~= strings_text(list));
    }
    set
}

/// The words that `root` forms with the suffixes, in the order of the
/// suffixes, as far as `known` holds them.
pub fn matching_words(root: &str, suffixes: &Vec<String>, known: &StringHashMap<()>) -> (words:
    Vec<String>)
    ensures
        strings_text(words@) == known_words(root@, strings_text(suffixes@), known@.dom()),
{
    let mut words: Vec<String> = Vec::new();
    let ghost list = strings_text(suffixes@);
    let mut i: usize = 0;
    assert(list.take(0) =~= Seq::empty());
    assert(strings_text(words@) =~= known_words(root@, list.take(0), known@.dom()));
    while i < suffixes.len()
        invariant
            i <= suffixes@.len(),
            list == strings_text(suffixes@),
            strings_text(words@) == known_words(root@, list.take(i as int), known@.dom()),
        decreases suffixes@.len() - i,
    {
        let word = String::from_str(root).concat(suffixes[i].as_str());
        proof {
            assert(list.take(i + 1).drop_last() =~= list.take(i as int));
            assert(list.take(i + 1).last() == suffixes@[i as int]@);
        }
        if known.contains_key(word.as_str()) {
            let ghost before = words@;
            words.push(word);
            assert(strings_text(words@) =~= strings_text(before).push(word@));
        }
        i += 1;
    }
    proof {
        assert(list.take(list.len() as int) =~= list);
    }
    words
}

} // verus!
