//! From the hash database to the matches between projects.

use crate::database::{first_index, project_names, representatives, Occurrence};
use crate::groups::{
    all_keys, all_values, grouped, groups_view, lemma_with_value_all, lemma_with_value_all_keys,
    Groups, ProjectPairKey,
};
use crate::output::{views, Location, LocationView, Match, MatchView, ProjectPair, ProjectPairView};
use crate::text::{bytes_lt, text_lt};
use crate::{documents_view, FileId, FileIdView};
use std::ops::Range;
use vstd::prelude::*;
use vstd::utf8::encode_utf8;

verus! {

/// Two places of the same k-gram hash: the first in the project that comes
/// first by name, the second in the other.
pub type PlacePair = (Occurrence, Occurrence);

/// Whether the project of file `a` comes strictly before that of file `b` in
/// the lexicographic order of their names.
pub open spec fn project_before(names: Seq<Seq<char>>, a: usize, b: usize) -> bool {
    bytes_lt(encode_utf8(names[a as int]), encode_utf8(names[b as int]))
}

/// The projects of two files, each named by its first file.
pub open spec fn pair_key(names: Seq<Seq<char>>, a: usize, b: usize) -> ProjectPairKey {
    ProjectPairKey {
        first: first_index(names, names[a as int]) as usize,
        second: first_index(names, names[b as int]) as usize,
    }
}

/// The match of `a` with `b`, under the key of their projects.
pub open spec fn keyed_match(names: Seq<Seq<char>>, a: Occurrence, b: Occurrence) -> (
    ProjectPairKey,
    PlacePair,
) {
    (pair_key(names, a.0, b.0), (a, b))
}

/// The matches of the place `a` with those of `places` whose project comes
/// after its own.
pub open spec fn partner_matches(a: Occurrence, places: Seq<Occurrence>, names: Seq<Seq<char>>) -> Seq<
    (ProjectPairKey, PlacePair),
> {
    places.filter(|b: Occurrence| project_before(names, a.0, b.0)).map_values(
        |b: Occurrence| keyed_match(names, a, b),
    )
}

/// The matches of the first places `firsts` with `places`.
pub open spec fn matches_of(firsts: Seq<Occurrence>, places: Seq<Occurrence>, names: Seq<Seq<char>>) -> Seq<
    (ProjectPairKey, PlacePair),
> {
    firsts.flat_map(|a: Occurrence| partner_matches(a, places, names))
}

/// All matches among the places of one hash: every two places whose projects
/// differ, the place of the project that comes first by name first.
pub open spec fn entry_matches(places: Seq<Occurrence>, names: Seq<Seq<char>>) -> Seq<
    (ProjectPairKey, PlacePair),
> {
    matches_of(places, places, names)
}

/// One more partner: one more match if its project comes after.
pub proof fn lemma_partner_matches_push(
    a: Occurrence,
    places: Seq<Occurrence>,
    b: Occurrence,
    names: Seq<Seq<char>>,
)
    ensures
        partner_matches(a, places.push(b), names) == if project_before(names, a.0, b.0) {
            partner_matches(a, places, names).push(keyed_match(names, a, b))
        } else {
            partner_matches(a, places, names)
        },
{
    let after = |b: Occurrence| project_before(names, a.0, b.0);
    places.lemma_filter_push(b, after);
    assert(partner_matches(a, places.push(b), names) =~= if project_before(names, a.0, b.0) {
        partner_matches(a, places, names).push(keyed_match(names, a, b))
    } else {
        partner_matches(a, places, names)
    });
}

/// One more first place: its matches follow those of the others.
pub proof fn lemma_matches_of_push(
    firsts: Seq<Occurrence>,
    a: Occurrence,
    places: Seq<Occurrence>,
    names: Seq<Seq<char>>,
)
    ensures
        matches_of(firsts.push(a), places, names) == matches_of(firsts, places, names)
            + partner_matches(a, places, names),
{
    firsts.lemma_flat_map_push(|a: Occurrence| partner_matches(a, places, names), a);
}

/// Every match joins two places of the hash, the project of the first
/// strictly before that of the second: no match joins a project with itself.
pub proof fn lemma_entry_matches_sound(
    firsts: Seq<Occurrence>,
    places: Seq<Occurrence>,
    names: Seq<Seq<char>>,
    i: int,
)
    requires
        0 <= i < matches_of(firsts, places, names).len(),
    ensures
        firsts.contains(matches_of(firsts, places, names)[i].1.0),
        places.contains(matches_of(firsts, places, names)[i].1.1),
        project_before(
            names,
            matches_of(firsts, places, names)[i].1.0.0,
            matches_of(firsts, places, names)[i].1.1.0,
        ),
        matches_of(firsts, places, names)[i] == keyed_match(
            names,
            matches_of(firsts, places, names)[i].1.0,
            matches_of(firsts, places, names)[i].1.1,
        ),
    decreases firsts.len(),
{
    if firsts.len() == 0 {
        assert(matches_of(firsts, places, names) =~= Seq::empty());
    } else {
        let shorter = firsts.drop_last();
        let a = firsts.last();
        assert(shorter.push(a) =~= firsts);
        lemma_matches_of_push(shorter, a, places, names);
        let before = matches_of(shorter, places, names);
        if i < before.len() {
            lemma_entry_matches_sound(shorter, places, names, i);
            let x = before[i].1.0;
            let at = choose|at: int| 0 <= at < shorter.len() && shorter[at] == x;
            assert(firsts[at] == x);
        } else {
            let after = |b: Occurrence| project_before(names, a.0, b.0);
            let kept = places.filter(after);
            let j = i - before.len();
            assert(matches_of(firsts, places, names)[i] == keyed_match(names, a, kept[j]));
            places.lemma_filter_pred(after, j);
            assert(kept.contains(kept[j]));
            places.lemma_filter_contains_rev(after, kept[j]);
            assert(firsts[firsts.len() - 1] == a);
        }
    }
}

/// Any two places of the hash whose projects differ are matched: the one of
/// the project that comes first by name, taken from `firsts`, with the other.
pub proof fn lemma_entry_matches_complete(
    firsts: Seq<Occurrence>,
    places: Seq<Occurrence>,
    names: Seq<Seq<char>>,
    a: int,
    b: int,
)
    requires
        0 <= a < firsts.len(),
        0 <= b < places.len(),
        project_before(names, firsts[a].0, places[b].0),
    ensures
        matches_of(firsts, places, names).contains(keyed_match(names, firsts[a], places[b])),
    decreases firsts.len(),
{
    let shorter = firsts.drop_last();
    let last = firsts.last();
    assert(shorter.push(last) =~= firsts);
    lemma_matches_of_push(shorter, last, places, names);
    let before = matches_of(shorter, places, names);
    let all = matches_of(firsts, places, names);
    let wanted = keyed_match(names, firsts[a], places[b]);
    if a < shorter.len() {
        lemma_entry_matches_complete(shorter, places, names, a, b);
        let at = choose|at: int| 0 <= at < before.len() && before[at] == wanted;
        assert(all[at] == wanted);
    } else {
        let after = |b: Occurrence| project_before(names, last.0, b.0);
        let kept = places.filter(after);
        places.lemma_filter_contains(after, b);
        let j = choose|j: int| 0 <= j < kept.len() && kept[j] == places[b];
        assert(partner_matches(last, places, names)[j] == wanted);
        assert(all[before.len() + j] == wanted);
    }
}

/// What holds in a database of `n` files: the projects of every key and the
/// files of every match are among them.
pub open spec fn pairs_below(pairs: Seq<(ProjectPairKey, Seq<PlacePair>)>, n: int) -> bool {
    &&& all_keys(pairs, |k: ProjectPairKey| k.first < n && k.second < n)
    &&& all_values(pairs, |m: PlacePair| m.0.0 < n && m.1.0 < n)
}

/// Converts the places of one hash into the matches between distinct
/// projects.
pub fn locations_to_matches(
    places: &Vec<Occurrence>,
    documents: &Vec<(FileId, Vec<(u64, Range<usize>)>)>,
    representatives_of: &Vec<usize>,
) -> (matches: Vec<(ProjectPairKey, PlacePair)>)
    requires
        representatives_of@ == representatives(project_names(documents_view(documents@))),
        forall|i: int| 0 <= i < places@.len() ==> (#[trigger] places@[i]).0 < documents@.len(),
    ensures
        matches@ == entry_matches(places@, project_names(documents_view(documents@))),
        forall|i: int|
            0 <= i < matches@.len() ==> (#[trigger] matches@[i]).0.first < documents@.len()
                && matches@[i].0.second < documents@.len() && matches@[i].1.0.0 < documents@.len()
                && matches@[i].1.1.0 < documents@.len(),
{
    let n: usize = places.len();
    let ghost names = project_names(documents_view(documents@));
    let mut matches: Vec<(ProjectPairKey, PlacePair)> = Vec::new();
    let mut i: usize = 0;
    proof {
        assert(places@.take(0) =~= Seq::empty());
        assert(matches_of(places@.take(0), places@, names) =~= Seq::empty());
    }
    while i < n
        invariant
            n == places@.len(),
            i <= n,
            names == project_names(documents_view(documents@)),
            names.len() == documents@.len(),
            representatives_of@ == representatives(names),
            forall|j: int| 0 <= j < places@.len() ==> (#[trigger] places@[j]).0 < documents@.len(),
            matches@ == matches_of(places@.take(i as int), places@, names),
            forall|j: int|
                0 <= j < matches@.len() ==> (#[trigger] matches@[j]).0.first < documents@.len()
                    && matches@[j].0.second < documents@.len() && matches@[j].1.0.0
                    < documents@.len() && matches@[j].1.1.0 < documents@.len(),
        decreases n - i,
    {
        let a_file: usize = places[i].0;
        let ghost a = places@[i as int];
        let ghost done = matches@;
        let mut j: usize = 0;
        proof {
            assert(places@.take(0) =~= Seq::empty());
            assert(partner_matches(a, places@.take(0), names) =~= Seq::empty());
            assert(done + partner_matches(a, places@.take(0), names) =~= done);
        }
        while j < n
            invariant
                n == places@.len(),
                i < n,
                j <= n,
                a == places@[i as int],
                a_file == a.0,
                names == project_names(documents_view(documents@)),
                names.len() == documents@.len(),
                representatives_of@ == representatives(names),
                forall|j: int|
                    0 <= j < places@.len() ==> (#[trigger] places@[j]).0 < documents@.len(),
                matches@ == done + partner_matches(a, places@.take(j as int), names),
                forall|j: int|
                    0 <= j < matches@.len() ==> (#[trigger] matches@[j]).0.first < documents@.len()
                        && matches@[j].0.second < documents@.len() && matches@[j].1.0.0
                        < documents@.len() && matches@[j].1.1.0 < documents@.len(),
            decreases n - j,
        {
            let b_file: usize = places[j].0;
            proof {
                lemma_partner_matches_push(a, places@.take(j as int), places@[j as int], names);
                assert(places@.take(j + 1) =~= places@.take(j as int).push(places@[j as int]));
                assert(names[a_file as int] == documents@[a_file as int].0.project@);
                assert(names[b_file as int] == documents@[b_file as int].0.project@);
            }
            if text_lt(documents[a_file].0.project.as_str(), documents[b_file].0.project.as_str()) {
                let key = ProjectPairKey {
                    first: representatives_of[a_file],
                    second: representatives_of[b_file],
                };
                let first: Occurrence = (a_file, places[i].1.start..places[i].1.end);
                let second: Occurrence = (b_file, places[j].1.start..places[j].1.end);
                proof {
                    crate::database::lemma_first_index(names, names[a_file as int]);
                    crate::database::lemma_first_index(names, names[b_file as int]);
                }
                matches.push((key, (first, second)));
            }
            j += 1;
        }
        proof {
            assert(places@.take(n as int) =~= places@);
            lemma_matches_of_push(places@.take(i as int), a, places@, names);
            assert(places@.take(i + 1) =~= places@.take(i as int).push(a));
        }
        i += 1;
    }
    proof {
        assert(places@.take(n as int) =~= places@);
    }
    matches
}

/// All matches of a database, hash by hash.
pub open spec fn all_matches(database: Seq<(u64, Seq<Occurrence>)>, names: Seq<Seq<char>>) -> Seq<
    (ProjectPairKey, PlacePair),
> {
    database.flat_map(|e: (u64, Seq<Occurrence>)| entry_matches(e.1, names))
}

/// The matches of a database, one group for every two projects that have
/// one.
pub open spec fn paired_matches(database: Seq<(u64, Seq<Occurrence>)>, names: Seq<Seq<char>>) -> Seq<
    (ProjectPairKey, Seq<PlacePair>),
> {
    grouped(all_matches(database, names))
}

/// Turns every set of places that share a hash into matches and sorts them
/// by the two projects they join.
pub fn pair_matches(
    hash_database: &Vec<(u64, Vec<Occurrence>)>,
    documents: &Vec<(FileId, Vec<(u64, Range<usize>)>)>,
    representatives_of: &Vec<usize>,
) -> (pairs: Groups<ProjectPairKey, PlacePair>)
    requires
        representatives_of@ == representatives(project_names(documents_view(documents@))),
        crate::database::places_below(groups_view(hash_database@), documents@.len() as int),
    ensures
        pairs.wf(),
        pairs@ == paired_matches(
            groups_view(hash_database@),
            project_names(documents_view(documents@)),
        ),
        pairs_below(pairs@, documents@.len() as int),
{
    let ghost names = project_names(documents_view(documents@));
    let ghost database = groups_view(hash_database@);
    let ghost n = documents@.len() as int;
    let count: usize = hash_database.len();
    let mut pairs: Groups<ProjectPairKey, PlacePair> = Groups::new();
    let mut i: usize = 0;
    proof {
        assert(database.take(0) =~= Seq::empty());
        assert(all_matches(database.take(0), names) =~= Seq::empty());
    }
    while i < count
        invariant
            count == hash_database@.len(),
            i <= count,
            database == groups_view(hash_database@),
            pairs.wf(),
            n == documents@.len(),
            names == project_names(documents_view(documents@)),
            representatives_of@ == representatives(names),
            crate::database::places_below(database, n),
            pairs@ == grouped(all_matches(database.take(i as int), names)),
            pairs_below(pairs@, n),
        decreases count - i,
    {
        let places = &hash_database[i].1;
        proof {
            assert(database[i as int].1 == places@);
            assert forall|j: int| 0 <= j < places@.len() implies (#[trigger] places@[j]).0 < n by {
                assert(database[i as int].1[j].0 < n);
            }
        }
        let found = locations_to_matches(places, documents, representatives_of);
        let len: usize = found.len();
        let ghost done = all_matches(database.take(i as int), names);
        let mut j: usize = 0;
        proof {
            assert(done + found@.take(0) =~= done);
        }
        while j < len
            invariant
                len == found@.len(),
                j <= len,
                n == documents@.len(),
                pairs.wf(),
                pairs@ == grouped(done + found@.take(j as int)),
                pairs_below(pairs@, n),
                forall|j: int|
                    0 <= j < found@.len() ==> (#[trigger] found@[j]).0.first < n && found@[j].0.second
                        < n && found@[j].1.0.0 < n && found@[j].1.1.0 < n,
            decreases len - j,
        {
            let key: ProjectPairKey = found[j].0;
            let first: Occurrence = (found[j].1.0.0, found[j].1.0.1.start..found[j].1.0.1.end);
            let second: Occurrence = (found[j].1.1.0, found[j].1.1.1.start..found[j].1.1.1.end);
            proof {
                let items = done + found@.take(j + 1);
                assert(items.drop_last() =~= done + found@.take(j as int));
                assert(items.last() == (key, (first, second)));
                lemma_with_value_all_keys(
                    pairs@,
                    key,
                    (first, second),
                    |k: ProjectPairKey| k.first < n && k.second < n,
                );
                lemma_with_value_all(
                    pairs@,
                    key,
                    (first, second),
                    |m: PlacePair| m.0.0 < n && m.1.0 < n,
                );
            }
            pairs.add(key, (first, second));
            j += 1;
        }
        proof {
            assert(found@.take(len as int) =~= found@);
            database.take(i as int).lemma_flat_map_push(
                |e: (u64, Seq<Occurrence>)| entry_matches(e.1, names),
                database[i as int],
            );
            assert(database.take(i + 1) =~= database.take(i as int).push(database[i as int]));
        }
        i += 1;
    }
    proof {
        assert(database.take(count as int) =~= database);
    }
    pairs
}

/// The location that stands for a place: the path of its file and its bytes.
pub open spec fn location_of(
    place: Occurrence,
    documents: Seq<(FileIdView, Seq<(u64, Range<usize>)>)>,
) -> LocationView {
    LocationView { file: documents[place.0 as int].0.path, span: place.1 }
}

/// The match that stands for two places.
pub open spec fn match_of(
    places: PlacePair,
    documents: Seq<(FileIdView, Seq<(u64, Range<usize>)>)>,
) -> MatchView {
    MatchView {
        project_1_location: location_of(places.0, documents),
        project_2_location: location_of(places.1, documents),
    }
}

/// The pair of projects that stands for a group of matches.
pub open spec fn project_pair_of(
    group: (ProjectPairKey, Seq<PlacePair>),
    documents: Seq<(FileIdView, Seq<(u64, Range<usize>)>)>,
) -> ProjectPairView {
    ProjectPairView {
        project1: documents[group.0.first as int].0.project,
        project2: documents[group.0.second as int].0.project,
        matches: group.1.map_values(|m: PlacePair| match_of(m, documents)),
    }
}

/// The pairs of projects that stand for the groups of matches, in their
/// order.
pub open spec fn project_pairs_of(
    pairs: Seq<(ProjectPairKey, Seq<PlacePair>)>,
    documents: Seq<(FileIdView, Seq<(u64, Range<usize>)>)>,
) -> Seq<ProjectPairView> {
    pairs.map_values(|g: (ProjectPairKey, Seq<PlacePair>)| project_pair_of(g, documents))
}

/// Names the projects and files of every group of matches.
pub fn name_pairs(
    pairs: &Groups<ProjectPairKey, PlacePair>,
    documents: &Vec<(FileId, Vec<(u64, Range<usize>)>)>,
) -> (project_pairs: Vec<ProjectPair>)
    requires
        pairs_below(pairs@, documents@.len() as int),
    ensures
        views(project_pairs@) == project_pairs_of(pairs@, documents_view(documents@)),
{
    let ghost docs = documents_view(documents@);
    let ghost n = documents@.len() as int;
    let groups = pairs.groups();
    let count: usize = groups.len();
    let mut project_pairs: Vec<ProjectPair> = Vec::new();
    let mut i: usize = 0;
    while i < count
        invariant
            count == groups@.len(),
            groups_view(groups@) == pairs@,
            i <= count,
            docs == documents_view(documents@),
            n == documents@.len(),
            pairs_below(pairs@, n),
            project_pairs@.len() == i,
            forall|g: int|
                0 <= g < i ==> (#[trigger] project_pairs@[g])@ == project_pair_of(pairs@[g], docs),
        decreases count - i,
    {
        let key: ProjectPairKey = groups[i].0;
        let places = &groups[i].1;
        let len: usize = places.len();
        let mut matches: Vec<Match> = Vec::new();
        let mut j: usize = 0;
        proof {
            assert(pairs@[i as int].0 == key);
            assert(pairs@[i as int].1 == places@);
            assert(key.first < n && key.second < n);
        }
        while j < len
            invariant
                len == places@.len(),
                j <= len,
                i < count,
                count == groups@.len(),
                groups_view(groups@) == pairs@,
                docs == documents_view(documents@),
                n == documents@.len(),
                pairs_below(pairs@, n),
                pairs@[i as int].1 == places@,
                matches@.len() == j,
                forall|m: int| 0 <= m < j ==> (#[trigger] matches@[m])@ == match_of(places@[m], docs),
            decreases len - j,
        {
            let first = &places[j].0;
            let second = &places[j].1;
            proof {
                assert(pairs@[i as int].1[j as int] == places@[j as int]);
                assert(first.0 < n && second.0 < n);
            }
            let found = Match {
                project_1_location: Location {
                    file: documents[first.0].0.path.clone(),
                    span: first.1.start..first.1.end,
                },
                project_2_location: Location {
                    file: documents[second.0].0.path.clone(),
                    span: second.1.start..second.1.end,
                },
            };
            matches.push(found);
            j += 1;
        }
        let pair = ProjectPair {
            project1: documents[key.first].0.project.clone(),
            project2: documents[key.second].0.project.clone(),
            matches,
        };
        proof {
            assert(pair@.matches =~= project_pair_of(pairs@[i as int], docs).matches);
        }
        project_pairs.push(pair);
        i += 1;
    }
    proof {
        assert(views(project_pairs@) =~= project_pairs_of(pairs@, docs));
    }
    project_pairs
}

} // verus!
