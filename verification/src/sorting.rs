//! Putting the results in order: the pairs of projects by falling number of
//! matches, the matches of a pair by file and starting byte.

use crate::output::{views, Match, MatchView, ProjectPair, ProjectPairView};
use crate::text::{bytes_lt, lemma_bytes_lt_total, lemma_bytes_lt_transitive, text_lt};
use vstd::prelude::*;
use vstd::utf8::encode_utf8;

verus! {

/// Something that has a place in an order. The order is told from the views.
pub trait Sortable: View {
    /// Whether `a` may stand before `b`.
    spec fn precedes(a: Self::V, b: Self::V) -> bool;

    /// Whether this item may stand before `other`.
    fn may_precede(&self, other: &Self) -> (yes: bool)
        ensures
            yes == Self::precedes(self@, other@),
    ;
}

/// The order of a sortable type, as a function.
pub open spec fn order_of<T: Sortable>() -> spec_fn(T::V, T::V) -> bool {
    |a: T::V, b: T::V| T::precedes(a, b)
}

/// Where `x` goes in a sorted sequence: behind the last item that may stand
/// before it.
pub open spec fn insert_position<A>(sorted: Seq<A>, x: A, le: spec_fn(A, A) -> bool) -> int
    decreases sorted.len(),
{
    if sorted.len() == 0 || le(sorted.last(), x) {
        sorted.len() as int
    } else {
        insert_position(sorted.drop_last(), x, le)
    }
}

/// A sorted sequence with one more item put in its place.
pub open spec fn inserted<A>(sorted: Seq<A>, x: A, le: spec_fn(A, A) -> bool) -> Seq<A> {
    sorted.insert(insert_position(sorted, x, le), x)
}

/// The items sorted. Items of which each may stand before the other keep the
/// order in which they came.
pub open spec fn stably_sorted<A>(items: Seq<A>, le: spec_fn(A, A) -> bool) -> Seq<A>
    decreases items.len(),
{
    if items.len() == 0 {
        Seq::empty()
    } else {
        inserted(stably_sorted(items.drop_last(), le), items.last(), le)
    }
}

/// Every item may stand before every later one.
pub open spec fn in_order<A>(items: Seq<A>, le: spec_fn(A, A) -> bool) -> bool {
    forall|i: int, j: int| 0 <= i < j < items.len() ==> le(#[trigger] items[i], #[trigger] items[j])
}

/// Of any two items one may stand before the other, and what may stand
/// before an item may stand before all that the item may stand before.
pub open spec fn orders_all<A>(le: spec_fn(A, A) -> bool) -> bool {
    &&& forall|a: A, b: A| #[trigger] le(a, b) || le(b, a)
    &&& forall|a: A, b: A, c: A| #[trigger] le(a, b) && #[trigger] le(b, c) ==> le(a, c)
}

/// Where an item is put: within the sequence, behind an item that may stand
/// before it, and before items that may not.
pub proof fn lemma_insert_position<A>(sorted: Seq<A>, x: A, le: spec_fn(A, A) -> bool)
    ensures
        0 <= insert_position(sorted, x, le) <= sorted.len(),
        insert_position(sorted, x, le) > 0 ==> le(sorted[insert_position(sorted, x, le) - 1], x),
        forall|i: int|
            insert_position(sorted, x, le) <= i < sorted.len() ==> !le(#[trigger] sorted[i], x),
    decreases sorted.len(),
{
    if !(sorted.len() == 0 || le(sorted.last(), x)) {
        lemma_insert_position(sorted.drop_last(), x, le);
        assert forall|i: int| insert_position(sorted, x, le) <= i < sorted.len() implies !le(
            #[trigger] sorted[i],
            x,
        ) by {
            if i < sorted.len() - 1 {
                assert(sorted.drop_last()[i] == sorted[i]);
            }
        }
    }
}

/// Putting an item in its place keeps a sequence in order, and changes
/// nothing but that the item is now one of it.
pub proof fn lemma_inserted<A>(sorted: Seq<A>, x: A, le: spec_fn(A, A) -> bool)
    requires
        orders_all(le),
        in_order(sorted, le),
    ensures
        in_order(inserted(sorted, x, le), le),
        inserted(sorted, x, le).to_multiset() == sorted.to_multiset().insert(x),
{
    let at = insert_position(sorted, x, le);
    let after = inserted(sorted, x, le);
    lemma_insert_position(sorted, x, le);
    assert forall|i: int, j: int| 0 <= i < j < after.len() implies le(
        #[trigger] after[i],
        #[trigger] after[j],
    ) by {
        if j < at {
            assert(le(sorted[i], sorted[j]));
        } else if j == at {
            if i < at - 1 {
                assert(le(sorted[i], sorted[at - 1]));
            }
        } else if i < at {
            assert(le(sorted[i], sorted[j - 1]));
        } else if i == at {
            assert(!le(sorted[j - 1], x));
        } else {
            assert(le(sorted[i - 1], sorted[j - 1]));
        }
    }
    vstd::seq_lib::to_multiset_insert(sorted, at, x);
}

/// Sorting puts the items in order without adding or losing any.
pub proof fn lemma_stably_sorted<A>(items: Seq<A>, le: spec_fn(A, A) -> bool)
    requires
        orders_all(le),
    ensures
        in_order(stably_sorted(items, le), le),
        stably_sorted(items, le).to_multiset() == items.to_multiset(),
        stably_sorted(items, le).len() == items.len(),
    decreases items.len(),
{
    broadcast use vstd::seq_lib::group_to_multiset_ensures;

    if items.len() > 0 {
        let shorter = items.drop_last();
        lemma_stably_sorted(shorter, le);
        lemma_inserted(stably_sorted(shorter, le), items.last(), le);
        lemma_insert_position(stably_sorted(shorter, le), items.last(), le);
        assert(shorter.push(items.last()) =~= items);
    }
}

/// Every item of the sorted sequence is an item of the sequence that was
/// sorted; the result is its place there.
pub proof fn lemma_stably_sorted_member<A>(items: Seq<A>, le: spec_fn(A, A) -> bool, i: int) -> (j:
    int)
    requires
        0 <= i < stably_sorted(items, le).len(),
    ensures
        0 <= j < items.len(),
        items[j] == stably_sorted(items, le)[i],
    decreases items.len(),
{
    let shorter = items.drop_last();
    let sorted = stably_sorted(shorter, le);
    let at = insert_position(sorted, items.last(), le);
    lemma_insert_position(sorted, items.last(), le);
    if i == at {
        items.len() - 1
    } else if i < at {
        let j = lemma_stably_sorted_member(shorter, le, i);
        assert(shorter[j] == items[j]);
        j
    } else {
        let j = lemma_stably_sorted_member(shorter, le, i - 1);
        assert(shorter[j] == items[j]);
        j
    }
}

/// Sorts the items. Items of which each may stand before the other keep
/// their order.
pub fn sort<T: Sortable>(items: &mut Vec<T>)
    ensures
        views(final(items)@) == stably_sorted(views(old(items)@), order_of::<T>()),
{
    let n: usize = items.len();
    let ghost before = views(items@);
    let ghost le = order_of::<T>();
    let mut i: usize = 0;
    proof {
        assert(views(items@).take(0) =~= Seq::empty());
        assert(before.take(0) =~= Seq::empty());
    }
    while i < n
        invariant
            n == items@.len(),
            i <= n,
            before == views(old(items)@),
            before.len() == n,
            le == order_of::<T>(),
            views(items@).take(i as int) == stably_sorted(before.take(i as int), le),
            views(items@).skip(i as int) == before.skip(i as int),
        decreases n - i,
    {
        let ghost sorted = views(items@).take(i as int);
        let ghost rest = views(items@).skip(i + 1);
        proof {
            assert(views(items@)[i as int] == before.skip(i as int)[0]);
            assert forall|j: int| 0 <= j < rest.len() implies rest[j] == before.skip(i + 1)[j] by {
                assert(rest[j] == views(items@).skip(i as int)[j + 1]);
                assert(before.skip(i + 1)[j] == before.skip(i as int)[j + 1]);
            }
            assert(rest =~= before.skip(i + 1));
            assert(before.take(i + 1).drop_last() =~= before.take(i as int));
            assert(before.take(i + 1).last() == before[i as int]);
        }
        let x = items.remove(i);
        proof {
            assert(x@ == before[i as int]);
            assert(views(items@) =~= sorted + rest);
            assert(sorted.take(i as int) =~= sorted);
        }
        let mut at: usize = i;
        while at > 0 && !items[at - 1].may_precede(&x)
            invariant
                at <= i < n,
                items@.len() == n - 1,
                le == order_of::<T>(),
                views(items@) == sorted + rest,
                sorted.len() == i,
                insert_position(sorted, x@, le) == insert_position(sorted.take(at as int), x@, le),
            decreases at,
        {
            proof {
                assert(sorted.take(at as int).last() == views(items@)[at - 1]);
                assert(sorted.take(at as int).drop_last() =~= sorted.take(at - 1));
            }
            at -= 1;
        }
        proof {
            assert(sorted.take(i as int) =~= sorted);
            if at > 0 {
                assert(sorted.take(at as int).last() == views(items@)[at - 1]);
            }
            assert(insert_position(sorted, x@, le) == at);
        }
        items.insert(at, x);
        proof {
            assert(views(items@) =~= sorted.insert(at as int, x@) + rest);
            assert(views(items@).take(i + 1) =~= sorted.insert(at as int, x@));
            assert(views(items@).skip(i + 1) =~= rest);
        }
        i += 1;
    }
    proof {
        assert(views(items@).take(n as int) =~= views(items@));
        assert(before.take(n as int) =~= before);
    }
}

/// A match may stand before another if its file in the first project comes
/// first by name or, in the same file, it does not start later.
pub open spec fn match_precedes(a: MatchView, b: MatchView) -> bool {
    let file_a = encode_utf8(a.project_1_location.file);
    let file_b = encode_utf8(b.project_1_location.file);
    bytes_lt(file_a, file_b) || (file_a == file_b && a.project_1_location.span.start
        <= b.project_1_location.span.start)
}

impl Sortable for Match {
    open spec fn precedes(a: MatchView, b: MatchView) -> bool {
        match_precedes(a, b)
    }

    fn may_precede(&self, other: &Match) -> (yes: bool) {
        let mine = &self.project_1_location;
        let theirs = &other.project_1_location;
        proof {
            crate::text::lemma_bytes_of_injective(mine.file@, theirs.file@);
        }
        if text_lt(mine.file.as_str(), theirs.file.as_str()) {
            true
        } else {
            mine.file == theirs.file && mine.span.start <= theirs.span.start
        }
    }
}

/// A pair of projects may stand before another if it has no fewer matches.
pub open spec fn pair_precedes(a: ProjectPairView, b: ProjectPairView) -> bool {
    a.matches.len() >= b.matches.len()
}

impl Sortable for ProjectPair {
    open spec fn precedes(a: ProjectPairView, b: ProjectPairView) -> bool {
        pair_precedes(a, b)
    }

    fn may_precede(&self, other: &ProjectPair) -> (yes: bool) {
        self.matches.len() >= other.matches.len()
    }
}

/// A pair of projects with its matches sorted.
pub open spec fn with_sorted_matches(pair: ProjectPairView) -> ProjectPairView {
    ProjectPairView {
        project1: pair.project1,
        project2: pair.project2,
        matches: stably_sorted(pair.matches, order_of::<Match>()),
    }
}

/// The pairs in the order of the report: pairs with more matches first, the
/// matches of a pair by file and starting byte in the first project.
pub open spec fn sorted_output(pairs: Seq<ProjectPairView>) -> Seq<ProjectPairView> {
    stably_sorted(
        pairs.map_values(|p: ProjectPairView| with_sorted_matches(p)),
        order_of::<ProjectPair>(),
    )
}

/// The order of matches leaves no two matches unordered.
pub proof fn lemma_match_order()
    ensures
        orders_all(order_of::<Match>()),
{
    let le = order_of::<Match>();
    assert forall|a: MatchView, b: MatchView| #[trigger] le(a, b) || le(b, a) by {
        lemma_bytes_lt_total(
            encode_utf8(a.project_1_location.file),
            encode_utf8(b.project_1_location.file),
        );
    }
    assert forall|a: MatchView, b: MatchView, c: MatchView| #[trigger] le(a, b) && #[trigger] le(
        b,
        c,
    ) implies le(a, c) by {
        let fa = encode_utf8(a.project_1_location.file);
        let fb = encode_utf8(b.project_1_location.file);
        let fc = encode_utf8(c.project_1_location.file);
        if bytes_lt(fa, fb) && bytes_lt(fb, fc) {
            lemma_bytes_lt_transitive(fa, fb, fc);
        }
    }
}

/// The order of pairs leaves no two pairs unordered.
pub proof fn lemma_pair_order()
    ensures
        orders_all(order_of::<ProjectPair>()),
{
}

/// The report is in order: no pair has more matches than a pair before it,
/// and within a pair no match stands behind one that it must precede. No
/// pair and no match is lost or added.
pub proof fn lemma_sorted_output(pairs: Seq<ProjectPairView>)
    ensures
        sorted_output(pairs).len() == pairs.len(),
        in_order(sorted_output(pairs), order_of::<ProjectPair>()),
        sorted_output(pairs).to_multiset() == pairs.map_values(
            |p: ProjectPairView| with_sorted_matches(p),
        ).to_multiset(),
        forall|i: int|
            0 <= i < pairs.len() ==> in_order(
                (#[trigger] with_sorted_matches(pairs[i])).matches,
                order_of::<Match>(),
            ) && with_sorted_matches(pairs[i]).matches.to_multiset()
                == pairs[i].matches.to_multiset(),
{
    lemma_pair_order();
    lemma_match_order();
    lemma_stably_sorted(
        pairs.map_values(|p: ProjectPairView| with_sorted_matches(p)),
        order_of::<ProjectPair>(),
    );
    assert forall|i: int| 0 <= i < pairs.len() implies in_order(
        (#[trigger] with_sorted_matches(pairs[i])).matches,
        order_of::<Match>(),
    ) && with_sorted_matches(pairs[i]).matches.to_multiset()
        == pairs[i].matches.to_multiset() by {
        lemma_stably_sorted(pairs[i].matches, order_of::<Match>());
    }
}

/// Sorts the project pairs and the matches of each.
pub fn sort_output(project_pairs: &mut Vec<ProjectPair>)
    ensures
        views(final(project_pairs)@) == sorted_output(views(old(project_pairs)@)),
{
    let n: usize = project_pairs.len();
    let ghost before = views(project_pairs@);
    let mut i: usize = 0;
    while i < n
        invariant
            n == project_pairs@.len(),
            i <= n,
            before == views(old(project_pairs)@),
            before.len() == n,
            forall|j: int|
                0 <= j < i ==> (#[trigger] project_pairs@[j])@ == with_sorted_matches(before[j]),
            forall|j: int| i <= j < n ==> (#[trigger] project_pairs@[j])@ == before[j],
        decreases n - i,
    {
        let ghost current = project_pairs@;
        sort(&mut project_pairs[i].matches);
        proof {
            assert(project_pairs@[i as int].project1 == current[i as int].project1);
            assert(project_pairs@[i as int].project2 == current[i as int].project2);
            assert forall|j: int| 0 <= j < n && j != i implies project_pairs@[j] == current[j] by {}
        }
        i += 1;
    }
    proof {
        assert(views(project_pairs@) =~= before.map_values(
            |p: ProjectPairView| with_sorted_matches(p),
        ));
    }
    sort(project_pairs);
}

} // verus!
