//! Source labels: the canonical key of a label, and which documents a table of
//! source frequencies admits.

use crate::counts::{word_counts, word_get, WordCounts};
use crate::text::{chars_of, first_index_of, join, joined, lemma_first_index_of, range_equals, split_on, texts};
use vstd::prelude::*;
use vstd::string::StrSliceExecFns;

verus! {

/// A document: the text to count, and the label of the source it came from.
#[derive(Clone, Debug)]
pub struct Document {
    pub source: String,
    pub text: String,
}

/// The scheme prefix `http://`.
pub open spec fn http_scheme() -> Seq<char> {
    seq!['h', 't', 't', 'p', ':', '/', '/']
}

/// The scheme prefix `https://`.
pub open spec fn https_scheme() -> Seq<char> {
    seq!['h', 't', 't', 'p', 's', ':', '/', '/']
}

/// The label `www`, which a source key never keeps.
pub open spec fn www_label() -> Seq<char> {
    seq!['w', 'w', 'w']
}

/// `s` without one `/` at its end, where it has one.
pub open spec fn without_trailing_slash(s: Seq<char>) -> Seq<char> {
    if s.len() > 0 && s.last() == '/' {
        s.drop_last()
    } else {
        s
    }
}

/// `s` without a leading `http://`, or else without a leading `https://`.
pub open spec fn without_scheme(s: Seq<char>) -> Seq<char> {
    if http_scheme().is_prefix_of(s) {
        s.skip(7)
    } else if https_scheme().is_prefix_of(s) {
        s.skip(8)
    } else {
        s
    }
}

/// The part of a dot-separated segment before its first `:`.
pub open spec fn before_port(segment: Seq<char>) -> Seq<char> {
    segment.take(first_index_of(segment, ':') as int)
}

/// The segments without their ports, in order, except those that are `www`.
pub open spec fn host_labels(segments: Seq<Seq<char>>) -> Seq<Seq<char>>
    decreases segments.len(),
{
    if segments.len() == 0 {
        Seq::empty()
    } else {
        let earlier = host_labels(segments.drop_last());
        let label = before_port(segments.last());
        if label == www_label() {
            earlier
        } else {
            earlier.push(label)
        }
    }
}

/// How many labels a key keeps: three where the last but one has at most
/// three codepoints, as in `example.org.np`, and two otherwise.
pub open spec fn kept_count(labels: Seq<Seq<char>>) -> nat {
    if labels.len() >= 2 && labels[labels.len() - 2].len() <= 3 {
        3
    } else {
        2
    }
}

/// The last `kept_count` labels, or all of them where there are fewer.
pub open spec fn last_labels(labels: Seq<Seq<char>>) -> Seq<Seq<char>> {
    if labels.len() <= kept_count(labels) {
        labels
    } else {
        labels.skip(labels.len() - kept_count(labels))
    }
}

/// The canonical key of a raw source label.
pub open spec fn source_key(source: Seq<char>) -> Seq<char> {
    joined(
        last_labels(host_labels(split_on(without_scheme(without_trailing_slash(source)), '.'))),
        seq!['.'],
    )
}

/// Whether every range lies inside a text of `len` codepoints.
pub open spec fn ranges_within(ranges: Seq<(usize, usize)>, len: nat) -> bool {
    forall|i: int| 0 <= i < ranges.len() ==> (#[trigger] ranges[i]).0 <= ranges[i].1 <= len
}

/// The pieces of `s` that the ranges cut out.
pub open spec fn ranges_text(s: Seq<char>, ranges: Seq<(usize, usize)>) -> Seq<Seq<char>> {
    Seq::new(ranges.len(), |i: int| s.subrange(ranges[i].0 as int, ranges[i].1 as int))
}

/// Where the text begins once a leading scheme is taken from its first `end`
/// codepoints.
fn scheme_end(chars: &Vec<char>, end: usize) -> (start: usize)
    requires
        end <= chars@.len(),
    ensures
        start <= end,
        chars@.subrange(start as int, end as int) == without_scheme(chars@.subrange(0, end as int)),
{
    let http: Vec<char> = vec!['h', 't', 't', 'p', ':', '/', '/'];
    let https: Vec<char> = vec!['h', 't', 't', 'p', 's', ':', '/', '/'];
    assert(http@ =~= http_scheme());
    assert(https@ =~= https_scheme());
    let ghost s = chars@.subrange(0, end as int);
    if end >= 7 && range_equals(chars, 0, 7, &http) {
        assert(s.subrange(0, 7) =~= chars@.subrange(0, 7));
        assert(s.skip(7) =~= chars@.subrange(7, end as int));
        7
    } else {
        proof {
            if end >= 7 {
                assert(s.subrange(0, 7) =~= chars@.subrange(0, 7));
            }
        }
        if end >= 8 && range_equals(chars, 0, 8, &https) {
            assert(s.subrange(0, 8) =~= chars@.subrange(0, 8));
            assert(s.skip(8) =~= chars@.subrange(8, end as int));
            8
        } else {
            proof {
                if end >= 8 {
                    assert(s.subrange(0, 8) =~= chars@.subrange(0, 8));
                }
            }
            0
        }
    }
}

/// A segment that ends the pieces closed so far: its label is the range up to
/// its first `:`, and it joins the labels unless it is `www`.
proof fn lemma_close_segment(
    chars: Seq<char>,
    closed: Seq<Seq<char>>,
    from: int,
    port: int,
    to: int,
)
    requires
        0 <= from <= port <= to <= chars.len(),
        forall|j: int| from <= j < port ==> chars[j] != ':',
        port < to ==> chars[port] == ':',
    ensures
        before_port(chars.subrange(from, to)) == chars.subrange(from, port),
        host_labels(closed.push(chars.subrange(from, to))) == if chars.subrange(from, port)
            == www_label() {
            host_labels(closed)
        } else {
            host_labels(closed).push(chars.subrange(from, port))
        },
{
    let segment = chars.subrange(from, to);
    lemma_first_index_of(segment, ':', port - from);
    assert(segment.take(port - from) =~= chars.subrange(from, port));
    assert(closed.push(segment).drop_last() =~= closed);
}

/// The ranges of the labels that the text from `start` up to `end` holds.
fn label_ranges(chars: &Vec<char>, start: usize, end: usize) -> (labels: Vec<(usize, usize)>)
    requires
        start <= end <= chars@.len(),
    ensures
        ranges_within(labels@, chars@.len()),
        ranges_text(chars@, labels@) == host_labels(
            split_on(chars@.subrange(start as int, end as int), '.'),
        ),
{
    let www: Vec<char> = vec!['w', 'w', 'w'];
    assert(www@ =~= www_label());
    let mut labels: Vec<(usize, usize)> = Vec::new();
    let mut from: usize = start;
    let mut port: usize = start;
    let mut i: usize = start;
    let ghost body = chars@.subrange(start as int, end as int);
    let ghost mut closed: Seq<Seq<char>> = Seq::empty();
    assert(ranges_text(chars@, labels@) =~= host_labels(closed));
    while i < end
        invariant
            start <= from <= port <= i <= end <= chars@.len(),
            body == chars@.subrange(start as int, end as int),
            www@ == www_label(),
            forall|j: int| from <= j < i ==> chars@[j] != '.',
            forall|j: int| from <= j < port ==> chars@[j] != ':',
            port < i ==> chars@[port as int] == ':',
            split_on(body, '.') == closed + split_on(chars@.subrange(from as int, end as int), '.'),
            ranges_within(labels@, chars@.len()),
            ranges_text(chars@, labels@) == host_labels(closed),
        decreases end - i,
    {
        let c = chars[i];
        if c == '.' {
            let ghost rest = chars@.subrange(from as int, end as int);
            let ghost segment = chars@.subrange(from as int, i as int);
            proof {
                lemma_first_index_of(rest, '.', i - from);
                assert(rest.take(i - from) =~= segment);
                assert(rest.skip(i - from + 1) =~= chars@.subrange(i + 1, end as int));
                lemma_close_segment(chars@, closed, from as int, port as int, i as int);
                assert(closed + (seq![segment] + split_on(chars@.subrange(i + 1, end as int), '.'))
                    =~= closed.push(segment) + split_on(chars@.subrange(i + 1, end as int), '.'));
            }
            if !range_equals(chars, from, port, &www) {
                let ghost before = labels@;
                labels.push((from, port));
                assert(ranges_text(chars@, labels@) =~= ranges_text(chars@, before).push(
                    chars@.subrange(from as int, port as int),
                ));
            }
            proof {
                closed = closed.push(segment);
            }
            from = i + 1;
            port = i + 1;
        } else if port == i && c != ':' {
            port = i + 1;
        }
        i += 1;
    }
    let ghost rest = chars@.subrange(from as int, end as int);
    proof {
        lemma_first_index_of(rest, '.', end - from);
        lemma_close_segment(chars@, closed, from as int, port as int, end as int);
        assert(closed + seq![rest] =~= closed.push(rest));
    }
    if !range_equals(chars, from, port, &www) {
        let ghost before = labels@;
        labels.push((from, port));
        assert(ranges_text(chars@, labels@) =~= ranges_text(chars@, before).push(
            chars@.subrange(from as int, port as int),
        ));
    }
    labels
}

/// The canonical key of a raw source label: the label without a trailing `/`
/// and a leading `http://` or `https://`, cut at its dots, each piece without
/// its port, the pieces `www` left out, and of what remains the last two
/// joined by dots, or the last three where the last but one has at most three
/// codepoints.
pub fn simplify_source(source: &str) -> (key: String)
    ensures
        key@ == source_key(source@),
{
    let chars = chars_of(source);
    let n = chars.len();
    let end: usize = if n > 0 && chars[n - 1] == '/' { n - 1 } else { n };
    assert(chars@.subrange(0, end as int) =~= without_trailing_slash(source@));
    let start = scheme_end(&chars, end);
    let labels = label_ranges(&chars, start, end);
    let count = labels.len();
    let keep: usize = if count >= 2 && labels[count - 2].1 - labels[count - 2].0 <= 3 { 3 } else { 2 };
    let first: usize = if count <= keep { 0 } else { count - keep };
    let ghost all = ranges_text(chars@, labels@);
    assert(keep == kept_count(all));
    assert(all.skip(first as int) =~= last_labels(all));
    let mut parts: Vec<&str> = Vec::new();
    let mut k: usize = first;
    while k < count
        invariant
            first <= k <= count,
            count == labels@.len(),
            count - first <= 3,
            chars@ == source@,
            ranges_within(labels@, chars@.len()),
            all == ranges_text(chars@, labels@),
            parts@.len() == k - first,
            texts(parts@) =~= all.subrange(first as int, k as int),
        decreases count - k,
    {
        let (from, to) = labels[k];
        let piece = source.substring_char(from, to);
        let ghost before = parts@;
        parts.push(piece);
        assert(texts(parts@) =~= texts(before).push(piece@));
        k += 1;
    }
    assert(all.subrange(first as int, count as int) =~= all.skip(first as int));
    proof {
        reveal_strlit(".");
        assert("."@ =~= seq!['.']);
        assert(4 * "."@.len() * parts@.len() <= 12) by (nonlinear_arith)
            requires
                "."@.len() == 1,
                parts@.len() <= 3,
        ;
    }
    join(&parts, ".")
}

/// Whether the table holds `source` with a count of at least `least`.
pub open spec fn frequent(table: Map<Seq<char>, usize>, least: usize, source: Seq<char>) -> bool {
    table.contains_key(source) && table[source] >= least
}

/// Whether a document of this source is to be counted. Without a table every
/// document is. With one, the source must be frequent in it, under the label
/// as given or else under its key: a table may be keyed by either.
pub open spec fn eligible(
    table: Option<Map<Seq<char>, usize>>,
    least: usize,
    source: Seq<char>,
) -> bool {
    match table {
        None => true,
        Some(t) => frequent(t, least, source) || frequent(t, least, source_key(source)),
    }
}

/// What a table of source frequencies holds, where there is one.
pub open spec fn table_of(sources: Option<&WordCounts>) -> Option<Map<Seq<char>, usize>> {
    match sources {
        Some(table) => Some(word_counts(*table)),
        None => None,
    }
}

/// The texts of the eligible documents, in the order of the list.
pub open spec fn eligible_texts(
    docs: Seq<Document>,
    table: Option<Map<Seq<char>, usize>>,
    least: usize,
) -> Seq<Seq<char>>
    decreases docs.len(),
{
    if docs.len() == 0 {
        Seq::empty()
    } else {
        let earlier = eligible_texts(docs.drop_last(), table, least);
        if eligible(table, least, docs.last().source@) {
            earlier.push(docs.last().text@)
        } else {
            earlier
        }
    }
}

/// The eligible texts of two lists, one after the other, are those of the
/// one list followed by those of the other.
pub proof fn lemma_eligible_texts_split(
    a: Seq<Document>,
    b: Seq<Document>,
    table: Option<Map<Seq<char>, usize>>,
    least: usize,
)
    ensures
        eligible_texts(a + b, table, least) == eligible_texts(a, table, least) + eligible_texts(
            b,
            table,
            least,
        ),
    decreases b.len(),
{
    if b.len() == 0 {
        assert(a + b =~= a);
        assert(eligible_texts(a, table, least) + eligible_texts(b, table, least) =~= eligible_texts(
            a,
            table,
            least,
        ));
    } else {
        lemma_eligible_texts_split(a, b.drop_last(), table, least);
        assert((a + b).drop_last() =~= a + b.drop_last());
        assert((a + b).last() == b.last());
        let front = eligible_texts(a, table, least);
        let back = eligible_texts(b.drop_last(), table, least);
        assert((front + back).push(b.last().text@) =~= front + back.push(b.last().text@));
    }
}

/// Whether a document of this source is to be counted: always where no table
/// is given, and else where the table holds the label as given, or failing
/// that its key, with a count of at least `min_source_frequency`.
pub fn is_eligible(sources: Option<&WordCounts>, min_source_frequency: usize, source: &str) -> (ok:
    bool)
    ensures
        ok == eligible(table_of(sources), min_source_frequency, source@),
{
    match sources {
        None => true,
        Some(table) => {
            let as_given = match word_get(table, source) {
                Some(n) => *n >= min_source_frequency,
                None => false,
            };
            if as_given {
                true
            } else {
                let key = simplify_source(source);
                match word_get(table, key.as_str()) {
                    Some(n) => *n >= min_source_frequency,
                    None => false,
                }
            }
        },
    }
}

} // verus!
