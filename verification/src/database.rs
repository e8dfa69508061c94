//! The hash database: every hash of every fingerprint with the places where
//! it was found, and the projects that the files belong to.

use crate::fingerprint::Fingerprint;
use crate::groups::{
    all_values, grouped, groups_view, holds_place, lemma_with_value_all, Groups,
};
use crate::{documents_view, fingerprints_view, FileId, FileIdView};
use std::ops::Range;
use vstd::prelude::*;

verus! {

/// A place where a hash was found: the index of the file and the bytes of
/// the k-gram.
pub type Occurrence = (usize, Range<usize>);

/// The project of every file, in the order of the files.
pub open spec fn project_names(documents: Seq<(FileIdView, Seq<(u64, Range<usize>)>)>) -> Seq<
    Seq<char>,
> {
    documents.map_values(|d: (FileIdView, Seq<(u64, Range<usize>)>)| d.0.project)
}

/// The index at which `x` stands first in `items`, or the length of `items`
/// if it stands nowhere.
pub open spec fn first_index<T>(items: Seq<T>, x: T) -> int
    decreases items.len(),
{
    if items.len() == 0 {
        0
    } else {
        let before = first_index(items.drop_last(), x);
        if before < items.len() - 1 {
            before
        } else if items.last() == x {
            items.len() - 1
        } else {
            items.len() as int
        }
    }
}

/// `first_index` points at `x`, and `x` stands nowhere before.
pub proof fn lemma_first_index<T>(items: Seq<T>, x: T)
    ensures
        0 <= first_index(items, x) <= items.len(),
        first_index(items, x) < items.len() ==> items[first_index(items, x)] == x,
        forall|i: int| 0 <= i < first_index(items, x) ==> #[trigger] items[i] != x,
    decreases items.len(),
{
    if items.len() > 0 {
        lemma_first_index(items.drop_last(), x);
        assert forall|i: int| 0 <= i < first_index(items, x) implies #[trigger] items[i] != x by {
            if i < items.len() - 1 {
                assert(items.drop_last()[i] == items[i]);
            }
        }
    }
}

/// Whoever finds `x` nowhere before `at`, and at `at` unless that is the end,
/// has found `first_index`.
pub proof fn lemma_first_index_found<T>(items: Seq<T>, x: T, at: int)
    requires
        0 <= at <= items.len(),
        forall|i: int| 0 <= i < at ==> #[trigger] items[i] != x,
        at < items.len() ==> items[at] == x,
    ensures
        first_index(items, x) == at,
{
    lemma_first_index(items, x);
    let p = first_index(items, x);
    if p < at {
        assert(items[p] != x);
    }
}

/// For every file the index of the first file of the same project.
pub open spec fn representatives(names: Seq<Seq<char>>) -> Seq<usize> {
    Seq::new(names.len(), |i: int| first_index(names, names[i]) as usize)
}

/// The number of different projects among the files with the given indices.
pub open spec fn project_count(files: Seq<usize>, names: Seq<Seq<char>>) -> nat {
    files.map_values(|f: usize| names[f as int]).to_set().len()
}

/// The number of different projects of all files.
pub open spec fn total_projects(names: Seq<Seq<char>>) -> nat {
    names.to_set().len()
}

/// A sequence without repetitions that holds what another sequence holds is
/// as long as the other has different items.
pub proof fn lemma_distinct_count<T>(all: Seq<T>, firsts: Seq<T>)
    requires
        firsts.no_duplicates(),
        forall|x: T| firsts.contains(x) <==> all.contains(x),
    ensures
        firsts.len() == all.to_set().len(),
{
    assert(firsts.to_set() =~= all.to_set());
    firsts.unique_seq_to_set();
}

/// Looks among the files `firsts` for one of the project of file `i`. Gives
/// `i` itself where there is none.
fn find_project(documents: &Vec<(FileId, Vec<(u64, Range<usize>)>)>, firsts: &Vec<usize>, i: usize) -> (at:
    usize)
    requires
        i < documents@.len(),
        forall|b: int| 0 <= b < firsts@.len() ==> (#[trigger] firsts@[b]) < i,
    ensures
        at <= i,
        at == i ==> forall|b: int|
            0 <= b < firsts@.len() ==> documents@[(#[trigger] firsts@[b]) as int].0.project@
                != documents@[i as int].0.project@,
        at != i ==> holds_place(firsts@, at as int) && documents@[at as int].0.project@
            == documents@[i as int].0.project@,
{
    let m: usize = firsts.len();
    let mut a: usize = 0;
    while a < m
        invariant
            i < documents@.len(),
            m == firsts@.len(),
            a <= m,
            forall|b: int| 0 <= b < firsts@.len() ==> (#[trigger] firsts@[b]) < i,
            forall|b: int|
                0 <= b < a ==> documents@[(#[trigger] firsts@[b]) as int].0.project@
                    != documents@[i as int].0.project@,
        decreases m - a,
    {
        if documents[firsts[a]].0.project == documents[i].0.project {
            return firsts[a];
        }
        a += 1;
    }
    i
}

/// Finds for every file the first file of the same project, and counts the
/// projects.
pub fn project_representatives(documents: &Vec<(FileId, Vec<(u64, Range<usize>)>)>) -> (result: (
    Vec<usize>,
    usize,
))
    ensures
        result.0@ == representatives(project_names(documents_view(documents@))),
        result.1 == total_projects(project_names(documents_view(documents@))),
{
    let n: usize = documents.len();
    let ghost names = project_names(documents_view(documents@));
    let mut firsts: Vec<usize> = Vec::new();
    let mut found: Vec<usize> = Vec::new();
    let mut i: usize = 0;
    while i < n
        invariant
            n == documents@.len(),
            names == project_names(documents_view(documents@)),
            names.len() == n,
            i <= n,
            found@.len() == i,
            forall|j: int| 0 <= j < i ==> (#[trigger] found@[j]) == first_index(names, names[j]),
            firsts@.len() <= i,
            forall|a: int| 0 <= a < firsts@.len() ==> (#[trigger] firsts@[a]) < i,
            forall|a: int|
                0 <= a < firsts@.len() ==> first_index(names, names[(#[trigger] firsts@[a]) as int])
                    == firsts@[a],
            forall|a: int, b: int|
                0 <= a < b < firsts@.len() ==> (#[trigger] firsts@[a]) != (#[trigger] firsts@[b]),
            forall|j: int|
                0 <= j < i ==> holds_place(firsts@, first_index(names, #[trigger] names[j])),
        decreases n - i,
    {
        let at = find_project(documents, &firsts, i);
        proof {
            assert(names[i as int] == documents@[i as int].0.project@);
            if at == i {
                assert forall|j: int| 0 <= j < i implies #[trigger] names[j] != names[i as int] by {
                    let r = first_index(names, names[j]);
                    lemma_first_index(names, names[j]);
                    assert(holds_place(firsts@, r));
                    let b = choose|b: int| 0 <= b < firsts@.len() && firsts@[b] as int == r;
                    assert(names[firsts@[b] as int] == documents@[firsts@[b] as int].0.project@);
                }
                lemma_first_index_found(names, names[i as int], i as int);
            } else {
                let b = choose|b: int| 0 <= b < firsts@.len() && firsts@[b] as int == at;
                assert(names[at as int] == documents@[at as int].0.project@);
                assert(first_index(names, names[i as int]) == at);
            }
        }
        let ghost before = firsts@;
        if at == i {
            firsts.push(i);
        }
        proof {
            assert forall|j: int| 0 <= j < i + 1 implies holds_place(
                firsts@,
                first_index(names, #[trigger] names[j]),
            ) by {
                let r = first_index(names, names[j]);
                if j < i || at != i {
                    assert(holds_place(before, r));
                    let b = choose|b: int| 0 <= b < before.len() && before[b] as int == r;
                    assert(firsts@[b] as int == r);
                } else {
                    assert(firsts@[firsts@.len() - 1] as int == r);
                }
            }
        }
        found.push(at);
        i += 1;
    }
    proof {
        assert(found@ =~= representatives(names));
        let first_names = firsts@.map_values(|f: usize| names[f as int]);
        assert forall|a: int, b: int|
            0 <= a < first_names.len() && 0 <= b < first_names.len() && a != b implies first_names[a]
            != first_names[b] by {
            if first_names[a] == first_names[b] {
                if a < b {
                    assert(firsts@[a] != firsts@[b]);
                } else {
                    assert(firsts@[b] != firsts@[a]);
                }
            }
        }
        assert forall|x: Seq<char>| first_names.contains(x) <==> names.contains(x) by {
            if first_names.contains(x) {
                let a = choose|a: int| 0 <= a < first_names.len() && first_names[a] == x;
                assert(names[firsts@[a] as int] == x);
            }
            if names.contains(x) {
                let j = choose|j: int| 0 <= j < names.len() && names[j] == x;
                let r = first_index(names, names[j]);
                lemma_first_index(names, names[j]);
                assert(holds_place(firsts@, r));
                let b = choose|b: int| 0 <= b < firsts@.len() && firsts@[b] as int == r;
                assert(first_names[b] == x);
            }
        }
        lemma_distinct_count(names, first_names);
    }
    (found, firsts.len())
}

/// Every hash of every fingerprint with the place where it stands, in the
/// order of the fingerprints.
pub open spec fn occurrences(fingerprints: Seq<(usize, Seq<(u64, Range<usize>)>)>) -> Seq<
    (u64, Occurrence),
> {
    fingerprints.flat_map(
        |f: (usize, Seq<(u64, Range<usize>)>)|
            f.1.map_values(|e: (u64, Range<usize>)| (e.0, (f.0, e.1))),
    )
}

/// The hash database of a set of fingerprints: for every hash the places
/// where it was found.
pub open spec fn database_of(fingerprints: Seq<(usize, Seq<(u64, Range<usize>)>)>) -> Seq<
    (u64, Seq<Occurrence>),
> {
    grouped(occurrences(fingerprints))
}

/// Every fingerprint belongs to one of the first `n` files.
pub open spec fn files_below(fingerprints: Seq<(usize, Seq<(u64, Range<usize>)>)>, n: int) -> bool {
    forall|i: int| 0 <= i < fingerprints.len() ==> (#[trigger] fingerprints[i]).0 < n
}

/// Every place in the database lies in one of the first `n` files.
pub open spec fn places_below(database: Seq<(u64, Seq<Occurrence>)>, n: int) -> bool {
    all_values(database, |o: Occurrence| o.0 < n)
}

/// Constructs the hash database, which maps every hash to all the places
/// where it was found.
pub(crate) fn build_hash_database(fingerprints: &Vec<(usize, Fingerprint)>, Ghost(n): Ghost<int>) -> (database:
    Groups<u64, Occurrence>)
    requires
        files_below(fingerprints_view(fingerprints@), n),
    ensures
        database.wf(),
        database@ == database_of(fingerprints_view(fingerprints@)),
        places_below(database@, n),
{
    let ghost fps = fingerprints_view(fingerprints@);
    let ghost row = |f: (usize, Seq<(u64, Range<usize>)>)|
        f.1.map_values(|e: (u64, Range<usize>)| (e.0, (f.0, e.1)));
    let mut database: Groups<u64, Occurrence> = Groups::new();
    let count: usize = fingerprints.len();
    let mut i: usize = 0;
    proof {
        assert(fps.take(0) =~= Seq::empty());
        assert(occurrences(fps.take(0)) =~= Seq::empty());
    }
    while i < count
        invariant
            count == fingerprints@.len(),
            i <= count,
            fps == fingerprints_view(fingerprints@),
            files_below(fps, n),
            database.wf(),
            database@ == grouped(occurrences(fps.take(i as int))),
            places_below(database@, n),
        decreases count - i,
    {
        let file: usize = fingerprints[i].0;
        let entries = &fingerprints[i].1.spanned_hashes;
        let len: usize = entries.len();
        let ghost done = occurrences(fps.take(i as int));
        let ghost this = fps[i as int].1.map_values(|e: (u64, Range<usize>)| (e.0, (file, e.1)));
        let mut j: usize = 0;
        proof {
            assert(fps[i as int].0 == file);
            assert(fps[i as int].1 == entries@);
            assert(done + this.take(0) =~= done);
        }
        while j < len
            invariant
                len == entries@.len(),
                j <= len,
                file < n,
                this == entries@.map_values(|e: (u64, Range<usize>)| (e.0, (file, e.1))),
                database.wf(),
                database@ == grouped(done + this.take(j as int)),
                places_below(database@, n),
            decreases len - j,
        {
            let hash: u64 = entries[j].0;
            let place: Occurrence = (file, entries[j].1.start..entries[j].1.end);
            proof {
                let items = done + this.take(j + 1);
                assert(items.drop_last() =~= done + this.take(j as int));
                assert(items.last() == (hash, place));
                lemma_with_value_all(database@, hash, place, |o: Occurrence| o.0 < n);
            }
            database.add(hash, place);
            j += 1;
        }
        proof {
            assert(this.take(len as int) =~= this);
            fps.take(i as int).lemma_flat_map_push(
                |f: (usize, Seq<(u64, Range<usize>)>)|
                    f.1.map_values(|e: (u64, Range<usize>)| (e.0, (f.0, e.1))),
                fps[i as int],
            );
            assert(fps.take(i + 1) =~= fps.take(i as int).push(fps[i as int]));
        }
        i += 1;
    }
    proof {
        assert(fps.take(count as int) =~= fps);
    }
    database
}

/// A part of a whole, as two whole numbers.
#[derive(Debug, Clone, Copy, PartialEq, Eq, Structural)]
pub struct Fraction {
    pub numerator: u64,
    pub denominator: u64,
}

/// Whether `count` of `total` projects are at least the part `threshold` of
/// them.
pub open spec fn is_common(count: nat, total: nat, threshold: Fraction) -> bool {
    count * threshold.denominator >= total * threshold.numerator
}

/// The files of a list of places.
pub open spec fn files_of(places: Seq<Occurrence>) -> Seq<usize> {
    places.map_values(|o: Occurrence| o.0)
}

/// The places with the first file of their project as key.
pub open spec fn keyed_by_project(places: Seq<Occurrence>, names: Seq<Seq<char>>) -> Seq<
    (usize, Occurrence),
> {
    places.map_values(|o: Occurrence| (first_index(names, names[o.0 as int]) as usize, o))
}

/// Groups a set of places by project. A project is named by the index of its
/// first file.
pub(crate) fn group_locations(
    places: &Vec<Occurrence>,
    representatives_of: &Vec<usize>,
    Ghost(names): Ghost<Seq<Seq<char>>>,
) -> (groups: Groups<usize, Occurrence>)
    requires
        representatives_of@ == representatives(names),
        forall|i: int| 0 <= i < places@.len() ==> (#[trigger] places@[i]).0 < names.len(),
    ensures
        groups.wf(),
        groups@ == grouped(keyed_by_project(places@, names)),
        groups@.len() == project_count(files_of(places@), names),
{
    let n: usize = places.len();
    let ghost items = keyed_by_project(places@, names);
    let mut groups: Groups<usize, Occurrence> = Groups::new();
    let mut i: usize = 0;
    proof {
        assert(items.take(0) =~= Seq::empty());
    }
    while i < n
        invariant
            n == places@.len(),
            i <= n,
            items == keyed_by_project(places@, names),
            representatives_of@ == representatives(names),
            forall|j: int| 0 <= j < places@.len() ==> (#[trigger] places@[j]).0 < names.len(),
            groups.wf(),
            groups@ == grouped(items.take(i as int)),
        decreases n - i,
    {
        let place: Occurrence = (places[i].0, places[i].1.start..places[i].1.end);
        let project: usize = representatives_of[place.0];
        proof {
            assert(items.take(i + 1).drop_last() =~= items.take(i as int));
            assert(items.take(i + 1).last() == (project, place));
        }
        groups.add(project, place);
        i += 1;
    }
    proof {
        assert(items.take(n as int) =~= items);
        lemma_group_count(places@, names);
    }
    groups
}

/// There are as many groups of places as the places have projects.
pub proof fn lemma_group_count(places: Seq<Occurrence>, names: Seq<Seq<char>>)
    requires
        forall|i: int| 0 <= i < places.len() ==> (#[trigger] places[i]).0 < names.len(),
    ensures
        grouped(keyed_by_project(places, names)).len() == project_count(files_of(places), names),
{
    let items = keyed_by_project(places, names);
    let groups = grouped(items);
    let all = files_of(places).map_values(|f: usize| names[f as int]);
    let firsts = groups.map_values(|g: (usize, Seq<Occurrence>)| names[g.0 as int]);
    crate::groups::lemma_grouped_distinct(items);
    assert forall|g: int| 0 <= g < groups.len() implies exists|i: int|
        0 <= i < places.len() && (#[trigger] groups[g]).0 == first_index(
            names,
            names[places[i].0 as int],
        ) by {
        crate::groups::lemma_grouped_keys(items, groups[g].0);
        assert(crate::groups::has_key(groups, groups[g].0));
        let i = choose|i: int| 0 <= i < items.len() && (#[trigger] items[i]).0 == groups[g].0;
        lemma_first_index(names, names[places[i].0 as int]);
        assert(places[i].0 < names.len());
    }
    assert forall|a: int, b: int|
        0 <= a < firsts.len() && 0 <= b < firsts.len() && a != b implies firsts[a] != firsts[b] by {
        let ia = choose|i: int|
            0 <= i < places.len() && (#[trigger] groups[a]).0 == first_index(
                names,
                names[places[i].0 as int],
            );
        let ib = choose|i: int|
            0 <= i < places.len() && (#[trigger] groups[b]).0 == first_index(
                names,
                names[places[i].0 as int],
            );
        lemma_first_index(names, names[places[ia].0 as int]);
        lemma_first_index(names, names[places[ib].0 as int]);
        if a < b {
            assert(groups[a].0 != groups[b].0);
        } else {
            assert(groups[b].0 != groups[a].0);
        }
    }
    assert forall|x: Seq<char>| firsts.contains(x) <==> all.contains(x) by {
        if firsts.contains(x) {
            let g = choose|g: int| 0 <= g < firsts.len() && firsts[g] == x;
            let i = choose|i: int|
                0 <= i < places.len() && (#[trigger] groups[g]).0 == first_index(
                    names,
                    names[places[i].0 as int],
                );
            lemma_first_index(names, names[places[i].0 as int]);
            assert(all[i] == x);
        }
        if all.contains(x) {
            let i = choose|i: int| 0 <= i < all.len() && all[i] == x;
            lemma_first_index(names, names[places[i].0 as int]);
            let key = first_index(names, names[places[i].0 as int]) as usize;
            assert(items[i].0 == key);
            crate::groups::lemma_grouped_keys(items, key);
            let g = choose|g: int| 0 <= g < groups.len() && (#[trigger] groups[g]).0 == key;
            assert(firsts[g] == x);
        }
    }
    lemma_distinct_count(all, firsts);
}

/// Whether a hash with these places is left in the database: it is, unless
/// the projects it occurs in are at least the part `threshold` of all.
pub open spec fn is_rare(places: Seq<Occurrence>, names: Seq<Seq<char>>, threshold: Fraction) -> bool {
    !is_common(project_count(files_of(places), names), total_projects(names), threshold)
}

/// The database without the hashes that occur in too many projects.
pub open spec fn without_common(
    database: Seq<(u64, Seq<Occurrence>)>,
    names: Seq<Seq<char>>,
    threshold: Fraction,
) -> Seq<(u64, Seq<Occurrence>)> {
    database.filter(|e: (u64, Seq<Occurrence>)| is_rare(e.1, names, threshold))
}

/// Whether `count` of `total` are at least the part `threshold`.
fn at_least(count: usize, total: usize, threshold: &Fraction) -> (common: bool)
    ensures
        common == is_common(count as nat, total as nat, *threshold),
{
    assert(count as u128 * threshold.denominator as u128 <= 0xFFFF_FFFF_FFFF_FFFF
        * 0xFFFF_FFFF_FFFF_FFFF) by (nonlinear_arith)
        requires
            count <= 0xFFFF_FFFF_FFFF_FFFF,
            threshold.denominator <= 0xFFFF_FFFF_FFFF_FFFF,
    ;
    assert(total as u128 * threshold.numerator as u128 <= 0xFFFF_FFFF_FFFF_FFFF
        * 0xFFFF_FFFF_FFFF_FFFF) by (nonlinear_arith)
        requires
            total <= 0xFFFF_FFFF_FFFF_FFFF,
            threshold.numerator <= 0xFFFF_FFFF_FFFF_FFFF,
    ;
    (count as u128) * (threshold.denominator as u128) >= (total as u128) * (
    threshold.numerator as u128)
}

/// Removes from the database the hashes that are common to too many
/// projects.
pub(crate) fn remove_common_hashes(
    hash_database: Groups<u64, Occurrence>,
    representatives_of: &Vec<usize>,
    num_projects: usize,
    common_hash_threshold: &Fraction,
    Ghost(names): Ghost<Seq<Seq<char>>>,
) -> (kept: Vec<(u64, Vec<Occurrence>)>)
    requires
        representatives_of@ == representatives(names),
        num_projects == total_projects(names),
        places_below(hash_database@, names.len() as int),
    ensures
        groups_view(kept@) == without_common(hash_database@, names, *common_hash_threshold),
        places_below(groups_view(kept@), names.len() as int),
{
    let ghost before = hash_database@;
    let ghost rare = |e: (u64, Seq<Occurrence>)| is_rare(e.1, names, *common_hash_threshold);
    let mut kept: Vec<(u64, Vec<Occurrence>)> = Vec::new();
    proof {
        assert(before.take(0) =~= Seq::empty());
        assert(before.take(0).filter(rare) =~= Seq::empty());
        assert(groups_view(kept@) =~= Seq::empty());
    }
    for entry in it: hash_database.into_groups()
        invariant
            before == groups_view(it.seq()),
            rare == |e: (u64, Seq<Occurrence>)| is_rare(e.1, names, *common_hash_threshold),
            representatives_of@ == representatives(names),
            num_projects == total_projects(names),
            places_below(before, names.len() as int),
            groups_view(kept@) == before.take(it.index() as int).filter(rare),
            places_below(groups_view(kept@), names.len() as int),
    {
        let ghost i = it.index() as int;
        proof {
            assert(before[i] == (entry.0, entry.1@));
            assert forall|j: int| 0 <= j < entry.1@.len() implies (#[trigger] entry.1@[j]).0
                < names.len() by {
                assert(before[i].1[j].0 < names.len());
            }
            before.take(i).lemma_filter_push(before[i], rare);
            assert(before.take(i + 1) =~= before.take(i).push(before[i]));
        }
        let groups = group_locations(&entry.1, representatives_of, Ghost(names));
        let count: usize = groups.groups().len();
        if !at_least(count, num_projects, common_hash_threshold) {
            let ghost old_kept = groups_view(kept@);
            kept.push(entry);
            proof {
                assert(groups_view(kept@) =~= old_kept.push(before[i]));
                assert forall|g: int, j: int|
                    0 <= g < groups_view(kept@).len() && 0 <= j < groups_view(
                        kept@,
                    )[g].1.len() implies (#[trigger] groups_view(kept@)[g].1[j]).0
                    < names.len() by {
                    if g < old_kept.len() {
                        assert(old_kept[g].1[j].0 < names.len());
                    } else {
                        assert(before[i].1[j].0 < names.len());
                    }
                }
            }
        }
    }
    proof {
        assert(before.take(before.len() as int) =~= before);
    }
    kept
}

} // verus!
