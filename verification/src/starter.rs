//! Taking starter code out of the files: whatever a file shares with the
//! ignored files is removed from its tokens before the files are compared.

use crate::database::{first_index, lemma_first_index_found, occurrences, Occurrence};
use crate::fingerprint::{codes, fingerprint, kgrams, winnow, Fingerprint};
use crate::groups::{grouped, has_key, lemma_grouped_keys, lemma_position, Groups};
use crate::identity_hash::IdentityHashSet;
use crate::match_expansion::{ends_of, find_start, starts_of};
use crate::output::{views, Warning};
use crate::sequences::ordered;
use crate::{
    documents_view, fingerprint_multiple, fingerprint_warnings, fingerprints_of,
    fingerprints_view, FileId, FileIdView,
};
use std::ops::Range;
use vstd::prelude::*;

verus! {

/// Whether one of the spans holds the index `i`.
pub open spec fn covered(spans: Seq<Range<usize>>, i: int) -> bool {
    exists|s: int| 0 <= s < spans.len() && (#[trigger] spans[s]).start <= i < spans[s].end
}

/// The items whose index none of the spans holds, in their order.
pub open spec fn without_covered<T>(items: Seq<T>, spans: Seq<Range<usize>>) -> Seq<T>
    decreases items.len(),
{
    if items.len() == 0 {
        Seq::empty()
    } else {
        let rest = without_covered(items.drop_last(), spans);
        if covered(spans, items.len() - 1) {
            rest
        } else {
            rest.push(items.last())
        }
    }
}

/// Marks for each of `n` indices whether one of the spans holds it.
fn mark_covered(n: usize, spans: &[Range<usize>]) -> (marks: Vec<bool>)
    ensures
        marks@.len() == n,
        forall|i: int| 0 <= i < n ==> (#[trigger] marks@[i]) == covered(spans@, i),
{
    let mut marks: Vec<bool> = Vec::new();
    let mut i: usize = 0;
    while i < n
        invariant
            i <= n,
            marks@.len() == i,
            forall|j: int| 0 <= j < i ==> (#[trigger] marks@[j]) == false,
        decreases n - i,
    {
        marks.push(false);
        i += 1;
    }
    let count: usize = spans.len();
    let mut s: usize = 0;
    while s < count
        invariant
            count == spans@.len(),
            s <= count,
            marks@.len() == n,
            forall|i: int| 0 <= i < n ==> (#[trigger] marks@[i]) == covered(spans@.take(s as int), i),
        decreases count - s,
    {
        let from: usize = spans[s].start;
        let to: usize = if spans[s].end < n {
            spans[s].end
        } else {
            n
        };
        let ghost before = marks@;
        let mut i: usize = from;
        while i < to
            invariant
                from <= i,
                i <= to || i == from,
                to <= n,
                marks@.len() == n,
                before.len() == n,
                forall|j: int| 0 <= j < n && !(from <= j < i) ==> (#[trigger] marks@[j]) == before[j],
                forall|j: int| from <= j < i && j < n ==> (#[trigger] marks@[j]) == true,
            decreases to - i,
        {
            marks.set(i, true);
            i += 1;
        }
        proof {
            let shorter = spans@.take(s as int);
            let longer = spans@.take(s + 1);
            assert forall|j: int| 0 <= j < n implies (#[trigger] marks@[j]) == covered(longer, j) by {
                if covered(shorter, j) {
                    let x = choose|x: int|
                        0 <= x < shorter.len() && (#[trigger] shorter[x]).start <= j < shorter[x].end;
                    assert(longer[x] == shorter[x]);
                }
                if spans@[s as int].start <= j < spans@[s as int].end {
                    assert(longer[s as int] == spans@[s as int]);
                }
                if covered(longer, j) {
                    let x = choose|x: int|
                        0 <= x < longer.len() && (#[trigger] longer[x]).start <= j < longer[x].end;
                    if x < s {
                        assert(shorter[x] == longer[x]);
                    }
                }
            }
        }
        s += 1;
    }
    proof {
        assert(spans@.take(count as int) =~= spans@);
    }
    marks
}

/// Removes the elements whose indices fall into any of the given spans.
///
/// The spans may be in any order and overlap.
pub fn remove_spans_from_vec<T>(v: &mut Vec<T>, spans: &[Range<usize>])
    ensures
        final(v)@ == without_covered(old(v)@, spans@),
{
    if spans.len() == 0 {
        proof {
            lemma_nothing_covered(v@, spans@);
        }
        return ;
    }
    let n: usize = v.len();
    let marks = mark_covered(n, spans);
    let mut all: Vec<T> = Vec::new();
    std::mem::swap(v, &mut all);
    let ghost before = all@;
    let mut at: usize = 0;
    proof {
        assert(before.take(0) =~= Seq::empty());
    }
    for item in it: all
        invariant
            at == it.index(),
            it.seq() == before,
            before.len() == n,
            marks@.len() == n,
            forall|i: int| 0 <= i < n ==> (#[trigger] marks@[i]) == covered(spans@, i),
            v@ == without_covered(before.take(it.index() as int), spans@),
    {
        proof {
            let i = it.index() as int;
            assert(before.take(i + 1).drop_last() =~= before.take(i));
            assert(before.take(i + 1).last() == item);
        }
        if !marks[at] {
            v.push(item);
        }
        at += 1;
    }
    proof {
        assert(before.take(n as int) =~= before);
    }
}

/// Without spans nothing is removed.
pub proof fn lemma_nothing_covered<T>(items: Seq<T>, spans: Seq<Range<usize>>)
    requires
        spans.len() == 0,
    ensures
        without_covered(items, spans) == items,
    decreases items.len(),
{
    if items.len() > 0 {
        lemma_nothing_covered(items.drop_last(), spans);
        assert(items.drop_last().push(items.last()) =~= items);
    }
}

/// What is kept keeps its order: every item that is left stood at an index
/// that no span holds, and every item at such an index is left.
pub proof fn lemma_without_covered<T>(items: Seq<T>, spans: Seq<Range<usize>>)
    ensures
        without_covered(items, spans).len() <= items.len(),
        forall|j: int|
            0 <= j < without_covered(items, spans).len() ==> exists|i: int|
                0 <= i < items.len() && !covered(spans, i) && items[i] == (
                #[trigger] without_covered(items, spans)[j]),
        forall|i: int|
            0 <= i < items.len() && !covered(spans, i) ==> without_covered(items, spans).contains(
                #[trigger] items[i],
            ),
    decreases items.len(),
{
    if items.len() > 0 {
        let shorter = items.drop_last();
        let rest = without_covered(shorter, spans);
        let out = without_covered(items, spans);
        lemma_without_covered(shorter, spans);
        assert forall|j: int| 0 <= j < out.len() implies exists|i: int|
            0 <= i < items.len() && !covered(spans, i) && items[i] == (#[trigger] out[j]) by {
            if j < rest.len() {
                let i = choose|i: int|
                    0 <= i < shorter.len() && !covered(spans, i) && shorter[i] == rest[j];
                assert(items[i] == out[j]);
            } else {
                assert(items[items.len() - 1] == out[j]);
            }
        }
        assert forall|i: int| 0 <= i < items.len() && !covered(spans, i) implies out.contains(
            #[trigger] items[i],
        ) by {
            if i < shorter.len() {
                assert(shorter[i] == items[i]);
                assert(rest.contains(shorter[i]));
                let j = choose|j: int| 0 <= j < rest.len() && rest[j] == shorter[i];
                assert(out[j] == items[i]);
            } else {
                assert(out[out.len() - 1] == items[i]);
            }
        }
    }
}

/// What is left of items that stand in the order of the text stands in the
/// order of the text.
pub proof fn lemma_without_covered_ordered<T>(
    items: Seq<(T, Range<usize>)>,
    spans: Seq<Range<usize>>,
)
    requires
        ordered(items),
    ensures
        ordered(without_covered(items, spans)),
    decreases items.len(),
{
    if items.len() > 0 {
        let shorter = items.drop_last();
        let rest = without_covered(shorter, spans);
        let out = without_covered(items, spans);
        assert(ordered(shorter)) by {
            assert forall|i: int, j: int| 0 <= i < j < shorter.len() implies (
            #[trigger] shorter[i]).1.start < (#[trigger] shorter[j]).1.start && shorter[i].1.end
                < shorter[j].1.end by {
                assert(items[i].1.start < items[j].1.start);
            }
        }
        lemma_without_covered_ordered(shorter, spans);
        lemma_without_covered(shorter, spans);
        assert forall|i: int, j: int| 0 <= i < j < out.len() implies (#[trigger] out[i]).1.start < (
        #[trigger] out[j]).1.start && out[i].1.end < out[j].1.end by {
            if j < rest.len() {
                assert(rest[i].1.start < rest[j].1.start);
            } else {
                let from = choose|from: int|
                    0 <= from < shorter.len() && !covered(spans, from) && shorter[from] == rest[i];
                assert(items[from].1.start < items[items.len() - 1].1.start);
            }
        }
    }
}

/// The hashes of all fingerprints, in their order.
pub open spec fn hashes_of(fingerprints: Seq<(usize, Seq<(u64, Range<usize>)>)>) -> Seq<u64> {
    occurrences(fingerprints).map_values(|o: (u64, Occurrence)| o.0)
}

/// The tokens that a span of bytes stands for: from the first token that
/// starts where the span starts up to and with the first token that ends
/// where the span ends. No token where there is no such token.
pub open spec fn token_range(stream: Seq<(u64, Range<usize>)>, span: Range<usize>) -> Range<usize> {
    let from = first_index(starts_of(stream), span.start);
    let to = first_index(ends_of(stream), span.end);
    if from < stream.len() && to < stream.len() {
        Range { start: from as usize, end: (to + 1) as usize }
    } else {
        Range { start: 0, end: 0 }
    }
}

/// The runs of tokens of a file that starter code takes away: one for every
/// entry of its fingerprint whose hash is one of `ignored`.
pub open spec fn starter_ranges(
    stream: Seq<(u64, Range<usize>)>,
    entries: Seq<(u64, Range<usize>)>,
    ignored: Seq<u64>,
) -> Seq<Range<usize>> {
    entries.filter(|e: (u64, Range<usize>)| ignored.contains(e.0)).map_values(
        |e: (u64, Range<usize>)| token_range(stream, e.1),
    )
}

/// A stream without the tokens of its k-grams that starter code has too. All
/// k-grams of the stream are looked at, a run of equal ones once.
pub open spec fn subtracted(stream: Seq<(u64, Range<usize>)>, k: int, ignored: Seq<u64>) -> Seq<
    (u64, Range<usize>),
> {
    if stream.len() >= k {
        without_covered(stream, starter_ranges(stream, winnow(kgrams(stream, k), 1), ignored))
    } else {
        stream
    }
}

/// The files after the starter code was taken out of each.
pub open spec fn without_starter(
    documents: Seq<(FileIdView, Seq<(u64, Range<usize>)>)>,
    ignored_documents: Seq<(FileIdView, Seq<(u64, Range<usize>)>)>,
    k: int,
) -> Seq<(FileIdView, Seq<(u64, Range<usize>)>)> {
    documents.map_values(
        |d: (FileIdView, Seq<(u64, Range<usize>)>)|
            (d.0, subtracted(d.1, k, hashes_of(fingerprints_of(ignored_documents, k, 1)))),
    )
}

/// The first token that ends at `end`, or the number of tokens.
fn find_first_end(tokens: &Vec<(u64, Range<usize>)>, end: usize) -> (at: usize)
    ensures
        at == first_index(ends_of(tokens@), end),
{
    let n: usize = tokens.len();
    let mut i: usize = 0;
    while i < n
        invariant
            n == tokens@.len(),
            i <= n,
            forall|j: int| 0 <= j < i ==> #[trigger] ends_of(tokens@)[j] != end,
        decreases n - i,
    {
        if tokens[i].1.end == end {
            proof {
                lemma_first_index_found(ends_of(tokens@), end, i as int);
            }
            return i;
        }
        i += 1;
    }
    proof {
        lemma_first_index_found(ends_of(tokens@), end, n as int);
    }
    n
}

/// The hashes as the keys of a set.
pub open spec fn as_keys(hashes: Seq<u64>) -> Seq<(u64, ())> {
    hashes.map_values(|h: u64| (h, ()))
}

/// The set of the given hashes.
fn hash_set_of(hashes: &Vec<u64>) -> (set: IdentityHashSet)
    ensures
        set.wf(),
        set@ == grouped(as_keys(hashes@)),
{
    let n: usize = hashes.len();
    let ghost keys = as_keys(hashes@);
    let mut set: IdentityHashSet = Groups::new();
    let mut i: usize = 0;
    proof {
        assert(keys.take(0) =~= Seq::empty());
    }
    while i < n
        invariant
            n == hashes@.len(),
            i <= n,
            keys == as_keys(hashes@),
            set.wf(),
            set@ == grouped(keys.take(i as int)),
        decreases n - i,
    {
        proof {
            assert(keys.take(i + 1).drop_last() =~= keys.take(i as int));
            assert(keys.take(i + 1).last() == (hashes@[i as int], ()));
        }
        set.add(hashes[i], ());
        i += 1;
    }
    proof {
        assert(keys.take(n as int) =~= keys);
    }
    set
}

/// Whether `hash` is one of the hashes of the set.
fn holds_hash(set: &IdentityHashSet, hash: u64, Ghost(hashes): Ghost<Seq<u64>>) -> (found: bool)
    requires
        set.wf(),
        set@ == grouped(as_keys(hashes)),
    ensures
        found == hashes.contains(hash),
{
    let at = set.find(hash);
    proof {
        let keys = as_keys(hashes);
        lemma_position(set@, hash);
        lemma_grouped_keys(keys, hash);
        if at < set@.len() {
            assert(has_key(set@, hash));
            let i = choose|i: int| 0 <= i < keys.len() && (#[trigger] keys[i]).0 == hash;
            assert(hashes[i] == hash);
        } else {
            if hashes.contains(hash) {
                let i = choose|i: int| 0 <= i < hashes.len() && hashes[i] == hash;
                assert(keys[i].0 == hash);
                assert(has_key(set@, hash));
            }
        }
    }
    at < set.groups().len()
}

/// All hashes of the fingerprints.
fn collect_hashes(fingerprints: &Vec<(usize, Fingerprint)>) -> (hashes: Vec<u64>)
    ensures
        hashes@ == hashes_of(fingerprints_view(fingerprints@)),
{
    let ghost fps = fingerprints_view(fingerprints@);
    let count: usize = fingerprints.len();
    let mut hashes: Vec<u64> = Vec::new();
    let mut i: usize = 0;
    proof {
        assert(fps.take(0) =~= Seq::empty());
        assert(occurrences(fps.take(0)) =~= Seq::empty());
        assert(hashes_of(fps.take(0)) =~= Seq::empty());
    }
    while i < count
        invariant
            count == fingerprints@.len(),
            i <= count,
            fps == fingerprints_view(fingerprints@),
            hashes@ == hashes_of(fps.take(i as int)),
        decreases count - i,
    {
        let entries = &fingerprints[i].1.spanned_hashes;
        let len: usize = entries.len();
        let ghost done = hashes@;
        let ghost this = entries@.map_values(|e: (u64, Range<usize>)| e.0);
        let mut j: usize = 0;
        proof {
            assert(done + this.take(0) =~= done);
        }
        while j < len
            invariant
                len == entries@.len(),
                j <= len,
                this == entries@.map_values(|e: (u64, Range<usize>)| e.0),
                hashes@ == done + this.take(j as int),
            decreases len - j,
        {
            hashes.push(entries[j].0);
            proof {
                assert(done + this.take(j + 1) =~= (done + this.take(j as int)).push(this[j as int]));
            }
            j += 1;
        }
        proof {
            assert(this.take(len as int) =~= this);
            fps.take(i as int).lemma_flat_map_push(
                |f: (usize, Seq<(u64, Range<usize>)>)|
                    f.1.map_values(|e: (u64, Range<usize>)| (e.0, (f.0, e.1))),
                fps[i as int],
            );
            assert(fps.take(i + 1) =~= fps.take(i as int).push(fps[i as int]));
            let file = fps[i as int].0;
            let row = fps[i as int].1.map_values(|e: (u64, Range<usize>)| (e.0, (file, e.1)));
            assert(row.map_values(|o: (u64, Occurrence)| o.0) =~= this);
            assert(hashes_of(fps.take(i + 1)) =~= hashes_of(fps.take(i as int)) + this);
        }
        i += 1;
    }
    proof {
        assert(fps.take(count as int) =~= fps);
    }
    hashes
}

/// The runs of tokens of one file that starter code takes away.
fn find_starter_ranges(
    tokens: &Vec<(u64, Range<usize>)>,
    entries: &Vec<(u64, Range<usize>)>,
    ignored_set: &IdentityHashSet,
    Ghost(ignored): Ghost<Seq<u64>>,
) -> (ranges: Vec<Range<usize>>)
    requires
        ignored_set.wf(),
        ignored_set@ == grouped(as_keys(ignored)),
    ensures
        ranges@ == starter_ranges(tokens@, entries@, ignored),
{
    let ghost is_ignored = |e: (u64, Range<usize>)| ignored.contains(e.0);
    let ghost to_range = |e: (u64, Range<usize>)| token_range(tokens@, e.1);
    let n: usize = entries.len();
    let count: usize = tokens.len();
    let mut ranges: Vec<Range<usize>> = Vec::new();
    let mut i: usize = 0;
    proof {
        assert(entries@.take(0) =~= Seq::empty());
        assert(entries@.take(0).filter(is_ignored) =~= Seq::empty());
        assert(starter_ranges(tokens@, entries@.take(0), ignored) =~= Seq::empty());
    }
    while i < n
        invariant
            n == entries@.len(),
            count == tokens@.len(),
            i <= n,
            ignored_set.wf(),
            ignored_set@ == grouped(as_keys(ignored)),
            is_ignored == |e: (u64, Range<usize>)| ignored.contains(e.0),
            to_range == |e: (u64, Range<usize>)| token_range(tokens@, e.1),
            ranges@ == starter_ranges(tokens@, entries@.take(i as int), ignored),
        decreases n - i,
    {
        proof {
            entries@.take(i as int).lemma_filter_push(entries@[i as int], is_ignored);
            assert(entries@.take(i + 1) =~= entries@.take(i as int).push(entries@[i as int]));
        }
        if holds_hash(ignored_set, entries[i].0, Ghost(ignored)) {
            let from = find_start(tokens, entries[i].1.start);
            let to = find_first_end(tokens, entries[i].1.end);
            let range: Range<usize> = if from < count && to < count {
                from..to + 1
            } else {
                0..0
            };
            let ghost before = ranges@;
            ranges.push(range);
            proof {
                let kept = entries@.take(i as int).filter(is_ignored);
                assert(kept.push(entries@[i as int]).map_values(to_range) =~= kept.map_values(
                    to_range,
                ).push(range));
            }
        }
        i += 1;
    }
    proof {
        assert(entries@.take(n as int) =~= entries@);
    }
    ranges
}

/// Removes the contents of the ignored files from the other files.
///
/// Whatever k-gram of a file has the hash of a k-gram of an ignored file
/// loses its tokens. Gives a warning for every ignored file that is too short
/// to be fingerprinted.
pub fn remove_ignored_documents(
    document_hashes: &mut Vec<(FileId, Vec<(u64, Range<usize>)>)>,
    ignored_document_hashes: &Vec<(FileId, Vec<(u64, Range<usize>)>)>,
    noise_threshold: usize,
    max_token_offset: usize,
) -> (warnings: Vec<Warning>)
    requires
        noise_threshold != 0,
        noise_threshold + max_token_offset <= usize::MAX,
    ensures
        documents_view(final(document_hashes)@) == without_starter(
            documents_view(old(document_hashes)@),
            documents_view(ignored_document_hashes@),
            noise_threshold as int,
        ),
        views(warnings@) == fingerprint_warnings(
            documents_view(ignored_document_hashes@),
            noise_threshold as int,
        ),
{
    let guarantee: usize = noise_threshold + max_token_offset;
    let (ignored_fingerprints, warnings) = fingerprint_multiple(
        ignored_document_hashes,
        noise_threshold,
        guarantee,
        max_token_offset,
    );
    let ignored = collect_hashes(&ignored_fingerprints);
    let ignored_set = hash_set_of(&ignored);
    let ghost before = documents_view(document_hashes@);
    let ghost k = noise_threshold as int;
    let n: usize = document_hashes.len();
    let mut d: usize = 0;
    while d < n
        invariant
            noise_threshold != 0,
            guarantee == noise_threshold + max_token_offset,
            k == noise_threshold,
            n == document_hashes@.len(),
            d <= n,
            before == documents_view(old(document_hashes)@),
            before.len() == n,
            ignored@ == hashes_of(
                fingerprints_of(documents_view(ignored_document_hashes@), k, 1),
            ),
            ignored_set.wf(),
            ignored_set@ == grouped(as_keys(ignored@)),
            forall|j: int|
                0 <= j < d ==> (#[trigger] document_hashes@[j]).0@ == before[j].0 && document_hashes@[j].1@
                    == subtracted(before[j].1, k, ignored@),
            forall|j: int|
                d <= j < n ==> (#[trigger] document_hashes@[j]).0@ == before[j].0 && document_hashes@[j].1@
                    == before[j].1,
        decreases n - d,
    {
        let result = fingerprint(
            noise_threshold,
            guarantee,
            max_token_offset,
            document_hashes[d].1.as_slice(),
        );
        match result {
            Err(_) => {},
            Ok(found) => {
                let ranges = find_starter_ranges(
                    &document_hashes[d].1,
                    &found.spanned_hashes,
                    &ignored_set,
                    Ghost(ignored@),
                );
                let ghost current = document_hashes@;
                remove_spans_from_vec(&mut document_hashes[d].1, ranges.as_slice());
                proof {
                    assert(document_hashes@[d as int].0 == current[d as int].0);
                    assert forall|j: int| 0 <= j < n && j != d implies document_hashes@[j]
                        == current[j] by {}
                }
            },
        }
        d += 1;
    }
    proof {
        assert(documents_view(document_hashes@) =~= without_starter(
            before,
            documents_view(ignored_document_hashes@),
            k,
        ));
    }
    warnings
}

/// Whether no two k-grams of the stream that follow each other have the
/// same hash.
pub open spec fn no_repeated_kgrams(stream: Seq<(u64, Range<usize>)>, k: int) -> bool {
    forall|j: int|
        0 < j < kgrams(stream, k).len() ==> kgrams(stream, k)[j - 1].0 != (#[trigger] kgrams(
            stream,
            k,
        )[j]).0
}

/// In an ordered stream the span of a k-gram stands for exactly the tokens
/// of the k-gram.
pub proof fn lemma_token_range_of_kgram(stream: Seq<(u64, Range<usize>)>, k: int, q: int)
    requires
        ordered(stream),
        stream.len() <= usize::MAX,
        k >= 1,
        0 <= q,
        q + k <= stream.len(),
    ensures
        token_range(stream, crate::fingerprint::kgram(stream, q, k).1) == (Range {
            start: q as usize,
            end: (q + k) as usize,
        }),
{
    let span = crate::fingerprint::kgram(stream, q, k).1;
    assert forall|j: int| 0 <= j < q implies #[trigger] starts_of(stream)[j] != span.start by {
        assert(stream[j].1.start < stream[q].1.start);
    }
    lemma_first_index_found(starts_of(stream), span.start, q);
    assert forall|j: int| 0 <= j < q + k - 1 implies #[trigger] ends_of(stream)[j] != span.end by {
        assert(stream[j].1.end < stream[q + k - 1].1.end);
    }
    lemma_first_index_found(ends_of(stream), span.end, q + k - 1);
}

/// Starter code is taken out of a file. Where the tokens of an ignored file
/// occur in a file as a run of tokens with the same hash codes, every token
/// of the run is taken away: none of the tokens that are left is one of
/// them. This holds of ordered streams in which no two k-grams that follow
/// each other have the same hash, and of ignored files that are long enough
/// to be fingerprinted, when `ignored` holds the hashes of their
/// fingerprints.
pub proof fn lemma_starter_tokens_removed(
    stream: Seq<(u64, Range<usize>)>,
    starter: Seq<(u64, Range<usize>)>,
    k: int,
    ignored: Seq<u64>,
    at: int,
    i: int,
)
    requires
        k >= 1,
        ordered(stream),
        stream.len() <= usize::MAX,
        no_repeated_kgrams(stream, k),
        starter.len() >= k,
        0 <= at,
        at + starter.len() <= stream.len(),
        codes(stream.subrange(at, at + starter.len())) == codes(starter),
        forall|x: int|
            0 <= x < winnow(kgrams(starter, k), 1).len() ==> ignored.contains(
                (#[trigger] winnow(kgrams(starter, k), 1)[x]).0,
            ),
        at <= i < at + starter.len(),
    ensures
        covered(starter_ranges(stream, winnow(kgrams(stream, k), 1), ignored), i),
        forall|j: int|
            0 <= j < subtracted(stream, k, ignored).len() ==> (#[trigger] subtracted(
                stream,
                k,
                ignored,
            )[j]) != stream[i],
{
    let n = starter.len() as int;
    let own = kgrams(stream, k);
    let theirs = kgrams(starter, k);
    // the k-gram of the run that holds token `i`
    let q = if i - k + 1 < at {
        at
    } else if i > at + n - k {
        at + n - k
    } else {
        i - k + 1
    };
    let run = stream.subrange(at, at + n);
    assert(stream.subrange(q, q + k) =~= run.subrange(q - at, q - at + k));
    assert(codes(run.subrange(q - at, q - at + k)) =~= codes(run).subrange(q - at, q - at + k));
    assert(codes(starter.subrange(q - at, q - at + k)) =~= codes(starter).subrange(
        q - at,
        q - at + k,
    ));
    assert(own[q].0 == theirs[q - at].0);
    // its hash is one of the ignored hashes
    crate::fingerprint::lemma_window_of_one(theirs);
    let x = crate::fingerprint::lemma_suppress_repeats_keeps_hash(theirs, q - at);
    assert(winnow(theirs, 1) == crate::fingerprint::suppress_repeats(theirs));
    assert(ignored.contains(winnow(theirs, 1)[x].0));
    assert(ignored.contains(own[q].0));
    // it is an entry of the fingerprint of the file
    crate::fingerprint::lemma_window_of_one(own);
    crate::fingerprint::lemma_suppress_repeats_fixed(own);
    let entries = winnow(own, 1);
    assert(entries == own);
    let is_ignored = |e: (u64, Range<usize>)| ignored.contains(e.0);
    entries.lemma_filter_contains(is_ignored, q);
    let kept = entries.filter(is_ignored);
    let y = choose|y: int| 0 <= y < kept.len() && kept[y] == entries[q];
    let ranges = starter_ranges(stream, entries, ignored);
    lemma_token_range_of_kgram(stream, k, q);
    assert(ranges[y] == token_range(stream, entries[q].1));
    assert(ranges[y].start <= i < ranges[y].end);
    // so token `i` is not left
    lemma_without_covered(stream, ranges);
    assert forall|j: int| 0 <= j < subtracted(stream, k, ignored).len() implies (
    #[trigger] subtracted(stream, k, ignored)[j]) != stream[i] by {
        let left = subtracted(stream, k, ignored)[j];
        let from = choose|from: int|
            0 <= from < stream.len() && !covered(ranges, from) && stream[from] == left;
        if from < i {
            assert(stream[from].1.start < stream[i].1.start);
        } else if i < from {
            assert(stream[i].1.start < stream[from].1.start);
        }
    }
}

} // verus!
