//! Facts about sequences that are put together from other sequences.

use std::ops::Range;
use vstd::prelude::*;

verus! {

/// Every item of a sequence that was put together from the sequences
/// `f(s[i])` stands in one of them; the result is the place of the sequence
/// and the place of the item in it.
pub proof fn lemma_flat_map_member<A, B>(s: Seq<A>, f: spec_fn(A) -> Seq<B>, x: int) -> (at: (
    int,
    int,
))
    requires
        0 <= x < s.flat_map(f).len(),
    ensures
        0 <= at.0 < s.len(),
        0 <= at.1 < f(s[at.0]).len(),
        f(s[at.0])[at.1] == s.flat_map(f)[x],
    decreases s.len(),
{
    if s.len() == 0 {
        assert(s.map_values(f) =~= Seq::<Seq<B>>::empty());
        assert(s.flat_map(f) =~= Seq::<B>::empty());
        (0, 0)
    } else {
        let shorter = s.drop_last();
        assert(shorter.push(s.last()) =~= s);
        shorter.lemma_flat_map_push(f, s.last());
        let before = shorter.flat_map(f);
        if x < before.len() {
            let at = lemma_flat_map_member(shorter, f, x);
            assert(shorter[at.0] == s[at.0]);
            at
        } else {
            (s.len() - 1, x - before.len())
        }
    }
}

/// Every item of every sequence `f(s[i])` stands in the sequence that was
/// put together from them; the result is its place there.
pub proof fn lemma_flat_map_contains<A, B>(s: Seq<A>, f: spec_fn(A) -> Seq<B>, i: int, j: int) -> (x:
    int)
    requires
        0 <= i < s.len(),
        0 <= j < f(s[i]).len(),
    ensures
        0 <= x < s.flat_map(f).len(),
        s.flat_map(f)[x] == f(s[i])[j],
    decreases s.len(),
{
    let shorter = s.drop_last();
    assert(shorter.push(s.last()) =~= s);
    shorter.lemma_flat_map_push(f, s.last());
    let before = shorter.flat_map(f);
    if i < shorter.len() {
        assert(shorter[i] == s[i]);
        lemma_flat_map_contains(shorter, f, i, j)
    } else {
        before.len() + j
    }
}

/// Whether items with spans stand in the order of the text: each starts
/// behind the start and ends behind the end of the one before.
pub open spec fn ordered<T>(items: Seq<(T, Range<usize>)>) -> bool {
    forall|i: int, j: int|
        0 <= i < j < items.len() ==> (#[trigger] items[i]).1.start < (#[trigger] items[j]).1.start
            && items[i].1.end < items[j].1.end
}

/// Items that are picked from items in the order of the text stand in the
/// order of the text.
pub proof fn lemma_filter_ordered<T>(
    items: Seq<(T, Range<usize>)>,
    pred: spec_fn((T, Range<usize>)) -> bool,
)
    requires
        ordered(items),
    ensures
        ordered(items.filter(pred)),
    decreases items.len(),
{
    if items.len() == 0 {
        assert(items.filter(pred) =~= Seq::empty()) by {
            reveal(Seq::filter);
        }
    } else {
        let shorter = items.drop_last();
        assert(shorter.push(items.last()) =~= items);
        shorter.lemma_filter_push(items.last(), pred);
        let rest = shorter.filter(pred);
        let out = items.filter(pred);
        assert(ordered(shorter)) by {
            assert forall|i: int, j: int| 0 <= i < j < shorter.len() implies (
            #[trigger] shorter[i]).1.start < (#[trigger] shorter[j]).1.start && shorter[i].1.end
                < shorter[j].1.end by {
                assert(items[i].1.start < items[j].1.start);
            }
        }
        lemma_filter_ordered(shorter, pred);
        assert forall|i: int, j: int| 0 <= i < j < out.len() implies (#[trigger] out[i]).1.start < (
        #[trigger] out[j]).1.start && out[i].1.end < out[j].1.end by {
            if j < rest.len() {
                assert(rest[i].1.start < rest[j].1.start);
            } else {
                assert(rest.contains(rest[i]));
                shorter.lemma_filter_contains_rev(pred, rest[i]);
                let from = choose|from: int| 0 <= from < shorter.len() && shorter[from] == rest[i];
                assert(items[from].1.start < items[items.len() - 1].1.start);
            }
        }
    }
}

/// Items that keep the spans of items in the order of the text stand in the
/// order of the text.
pub proof fn lemma_same_spans_ordered<A, B>(
    before: Seq<(A, Range<usize>)>,
    after: Seq<(B, Range<usize>)>,
)
    requires
        ordered(before),
        after.len() == before.len(),
        forall|i: int| 0 <= i < before.len() ==> (#[trigger] after[i]).1 == before[i].1,
    ensures
        ordered(after),
{
    assert forall|i: int, j: int| 0 <= i < j < after.len() implies (#[trigger] after[i]).1.start < (
    #[trigger] after[j]).1.start && after[i].1.end < after[j].1.end by {
        assert(before[i].1.start < before[j].1.start);
    }
}

} // verus!
