//! Growing every match to the longest run of equal tokens around it.

use crate::database::{first_index, lemma_first_index, lemma_first_index_found};
use crate::output::{views, Location, LocationView, Match, MatchView, ProjectPair, ProjectPairView};
use crate::sequences::ordered;
use crate::{documents_view, FileId, FileIdView};
use std::ops::Range;
use vstd::prelude::*;

verus! {

/// The index at which `x` stands last in `items`, or -1 if it stands nowhere.
pub open spec fn last_index<T>(items: Seq<T>, x: T) -> int
    decreases items.len(),
{
    if items.len() == 0 {
        -1
    } else if items.last() == x {
        items.len() - 1
    } else {
        last_index(items.drop_last(), x)
    }
}

/// `last_index` points at `x`, and `x` stands nowhere behind.
pub proof fn lemma_last_index<T>(items: Seq<T>, x: T)
    ensures
        -1 <= last_index(items, x) < items.len(),
        last_index(items, x) >= 0 ==> items[last_index(items, x)] == x,
        forall|i: int| last_index(items, x) < i < items.len() ==> #[trigger] items[i] != x,
    decreases items.len(),
{
    if items.len() > 0 && items.last() != x {
        lemma_last_index(items.drop_last(), x);
        assert forall|i: int| last_index(items, x) < i < items.len() implies #[trigger] items[i]
            != x by {
            if i < items.len() - 1 {
                assert(items.drop_last()[i] == items[i]);
            }
        }
    }
}

/// The ids of the files.
pub open spec fn ids_of(documents: Seq<(FileIdView, Seq<(u64, Range<usize>)>)>) -> Seq<FileIdView> {
    documents.map_values(|d: (FileIdView, Seq<(u64, Range<usize>)>)| d.0)
}

/// The byte at which every token starts.
pub open spec fn starts_of(stream: Seq<(u64, Range<usize>)>) -> Seq<usize> {
    stream.map_values(|t: (u64, Range<usize>)| t.1.start)
}

/// The byte before which every token ends.
pub open spec fn ends_of(stream: Seq<(u64, Range<usize>)>) -> Seq<usize> {
    stream.map_values(|t: (u64, Range<usize>)| t.1.end)
}

/// By how many tokens two runs can be grown towards the start of their
/// files: the tokens before `i` and before `j` are compared pair by pair,
/// backwards, as long as both files have one and their hashes agree.
pub open spec fn extend_up(
    a: Seq<(u64, Range<usize>)>,
    b: Seq<(u64, Range<usize>)>,
    i: int,
    j: int,
) -> nat
    decreases i,
{
    if 0 < i <= a.len() && 0 < j <= b.len() && a[i - 1].0 == b[j - 1].0 {
        1 + extend_up(a, b, i - 1, j - 1)
    } else {
        0
    }
}

/// By how many tokens two runs can be grown towards the end of their files:
/// the tokens behind `i` and behind `j` are compared pair by pair as long as
/// both files have one and their hashes agree.
pub open spec fn extend_down(
    a: Seq<(u64, Range<usize>)>,
    b: Seq<(u64, Range<usize>)>,
    i: int,
    j: int,
) -> nat
    decreases a.len() - i,
{
    if 0 <= i < a.len() - 1 && 0 <= j < b.len() - 1 && a[i + 1].0 == b[j + 1].0 {
        1 + extend_down(a, b, i + 1, j + 1)
    } else {
        0
    }
}

/// A match grown as far as the tokens around it agree. A match whose files or
/// whose ends cannot be found among the tokens is left as it is.
pub open spec fn expanded(
    found: MatchView,
    project1: Seq<char>,
    project2: Seq<char>,
    documents: Seq<(FileIdView, Seq<(u64, Range<usize>)>)>,
) -> MatchView {
    let one = found.project_1_location;
    let two = found.project_2_location;
    let file1 = first_index(ids_of(documents), FileIdView { project: project1, path: one.file });
    let file2 = first_index(ids_of(documents), FileIdView { project: project2, path: two.file });
    if file1 >= documents.len() || file2 >= documents.len() {
        found
    } else {
        let tokens1 = documents[file1].1;
        let tokens2 = documents[file2].1;
        let start1 = first_index(starts_of(tokens1), one.span.start);
        let start2 = first_index(starts_of(tokens2), two.span.start);
        let end1 = last_index(ends_of(tokens1), one.span.end);
        let end2 = last_index(ends_of(tokens2), two.span.end);
        if start1 >= tokens1.len() || start2 >= tokens2.len() || end1 < 0 || end2 < 0 {
            found
        } else {
            let up = extend_up(tokens1, tokens2, start1, start2);
            let down = extend_down(tokens1, tokens2, end1, end2);
            MatchView {
                project_1_location: LocationView {
                    file: one.file,
                    span: Range {
                        start: tokens1[start1 - up].1.start,
                        end: tokens1[end1 + down].1.end,
                    },
                },
                project_2_location: LocationView {
                    file: two.file,
                    span: Range {
                        start: tokens2[start2 - up].1.start,
                        end: tokens2[end2 + down].1.end,
                    },
                },
            }
        }
    }
}

/// The matches grown one by one; of the grown matches that are equal only
/// the first is kept.
pub open spec fn expanded_matches(
    matches: Seq<MatchView>,
    project1: Seq<char>,
    project2: Seq<char>,
    documents: Seq<(FileIdView, Seq<(u64, Range<usize>)>)>,
) -> Seq<MatchView>
    decreases matches.len(),
{
    if matches.len() == 0 {
        Seq::empty()
    } else {
        let rest = expanded_matches(matches.drop_last(), project1, project2, documents);
        let grown = expanded(matches.last(), project1, project2, documents);
        if rest.contains(grown) {
            rest
        } else {
            rest.push(grown)
        }
    }
}

/// A pair of projects with its matches grown.
pub open spec fn expanded_pair(
    pair: ProjectPairView,
    documents: Seq<(FileIdView, Seq<(u64, Range<usize>)>)>,
) -> ProjectPairView {
    ProjectPairView {
        project1: pair.project1,
        project2: pair.project2,
        matches: expanded_matches(pair.matches, pair.project1, pair.project2, documents),
    }
}

/// How far `extend_up` goes: never past the start of either file, over
/// tokens that agree pair by pair, and up to a pair that does not.
pub proof fn lemma_extend_up(
    a: Seq<(u64, Range<usize>)>,
    b: Seq<(u64, Range<usize>)>,
    i: int,
    j: int,
)
    requires
        0 <= i <= a.len(),
        0 <= j <= b.len(),
    ensures
        extend_up(a, b, i, j) <= i,
        extend_up(a, b, i, j) <= j,
        forall|x: int| 1 <= x <= extend_up(a, b, i, j) ==> (#[trigger] a[i - x]).0 == b[j - x].0,
        i - extend_up(a, b, i, j) == 0 || j - extend_up(a, b, i, j) == 0 || a[i - extend_up(
            a,
            b,
            i,
            j,
        ) - 1].0 != b[j - extend_up(a, b, i, j) - 1].0,
    decreases i,
{
    if 0 < i && 0 < j && a[i - 1].0 == b[j - 1].0 {
        lemma_extend_up(a, b, i - 1, j - 1);
        let rest = extend_up(a, b, i - 1, j - 1);
        assert forall|x: int| 1 <= x <= extend_up(a, b, i, j) implies (#[trigger] a[i - x]).0
            == b[j - x].0 by {
            if x > 1 {
                assert(a[(i - 1) - (x - 1)].0 == b[(j - 1) - (x - 1)].0);
            }
        }
    }
}

/// How far `extend_down` goes: never past the end of either file, over
/// tokens that agree pair by pair, and up to a pair that does not.
pub proof fn lemma_extend_down(
    a: Seq<(u64, Range<usize>)>,
    b: Seq<(u64, Range<usize>)>,
    i: int,
    j: int,
)
    requires
        0 <= i < a.len(),
        0 <= j < b.len(),
    ensures
        i + extend_down(a, b, i, j) < a.len(),
        j + extend_down(a, b, i, j) < b.len(),
        forall|x: int| 1 <= x <= extend_down(a, b, i, j) ==> (#[trigger] a[i + x]).0 == b[j + x].0,
        i + extend_down(a, b, i, j) == a.len() - 1 || j + extend_down(a, b, i, j) == b.len() - 1
            || a[i + extend_down(a, b, i, j) + 1].0 != b[j + extend_down(a, b, i, j) + 1].0,
    decreases a.len() - i,
{
    if i < a.len() - 1 && j < b.len() - 1 && a[i + 1].0 == b[j + 1].0 {
        lemma_extend_down(a, b, i + 1, j + 1);
        assert forall|x: int| 1 <= x <= extend_down(a, b, i, j) implies (#[trigger] a[i + x]).0
            == b[j + x].0 by {
            if x > 1 {
                assert(a[(i + 1) + (x - 1)].0 == b[(j + 1) + (x - 1)].0);
            }
        }
    }
}

/// Growing a match never shrinks it, and what it grows over agrees. The run
/// of tokens of a grown match holds the run it was grown from, in both
/// files. Where the two runs were equally long and agreed token by token,
/// the grown runs are equally long and agree token by token.
pub proof fn lemma_expansion_covers(
    a: Seq<(u64, Range<usize>)>,
    b: Seq<(u64, Range<usize>)>,
    start1: int,
    end1: int,
    start2: int,
    end2: int,
)
    requires
        0 <= start1 <= end1 < a.len(),
        0 <= start2 <= end2 < b.len(),
    ensures
        0 <= start1 - extend_up(a, b, start1, start2) <= start1,
        0 <= start2 - extend_up(a, b, start1, start2) <= start2,
        end1 <= end1 + extend_down(a, b, end1, end2) < a.len(),
        end2 <= end2 + extend_down(a, b, end1, end2) < b.len(),
        (end1 - start1 == end2 - start2 && forall|x: int|
            0 <= x <= end1 - start1 ==> (#[trigger] a[start1 + x]).0 == b[start2 + x].0) ==> forall|
            x: int,
        |
            0 <= x <= end1 + extend_down(a, b, end1, end2) - (start1 - extend_up(
                a,
                b,
                start1,
                start2,
            )) ==> (#[trigger] a[start1 - extend_up(a, b, start1, start2) + x]).0 == b[start2
                - extend_up(a, b, start1, start2) + x].0,
{
    lemma_extend_up(a, b, start1, start2);
    lemma_extend_down(a, b, end1, end2);
    let up = extend_up(a, b, start1, start2);
    let down = extend_down(a, b, end1, end2);
    if end1 - start1 == end2 - start2 && forall|x: int|
        0 <= x <= end1 - start1 ==> (#[trigger] a[start1 + x]).0 == b[start2 + x].0 {
        assert forall|x: int| 0 <= x <= end1 + down - (start1 - up) implies (#[trigger] a[start1
            - up + x]).0 == b[start2 - up + x].0 by {
            if x < up {
                assert(a[start1 - (up - x)].0 == b[start2 - (up - x)].0);
            } else if x <= up + (end1 - start1) {
                assert(a[start1 + (x - up)].0 == b[start2 + (x - up)].0);
            } else {
                let y = x - up - (end1 - start1);
                assert(a[end1 + y].0 == b[end2 + y].0);
            }
        }
    }
}

/// Expansion monotonicity, in bytes. A grown match covers the match it was
/// grown from, in both files: it starts no later and ends no earlier. This
/// holds of files whose tokens stand in the order of the text.
pub proof fn lemma_expanded_covers(
    found: MatchView,
    project1: Seq<char>,
    project2: Seq<char>,
    documents: Seq<(FileIdView, Seq<(u64, Range<usize>)>)>,
)
    requires
        forall|d: int| 0 <= d < documents.len() ==> ordered(#[trigger] documents[d].1),
    ensures
        expanded(found, project1, project2, documents).project_1_location.file
            == found.project_1_location.file,
        expanded(found, project1, project2, documents).project_2_location.file
            == found.project_2_location.file,
        expanded(found, project1, project2, documents).project_1_location.span.start
            <= found.project_1_location.span.start,
        expanded(found, project1, project2, documents).project_1_location.span.end
            >= found.project_1_location.span.end,
        expanded(found, project1, project2, documents).project_2_location.span.start
            <= found.project_2_location.span.start,
        expanded(found, project1, project2, documents).project_2_location.span.end
            >= found.project_2_location.span.end,
{
    let one = found.project_1_location;
    let two = found.project_2_location;
    let file1 = first_index(ids_of(documents), FileIdView { project: project1, path: one.file });
    let file2 = first_index(ids_of(documents), FileIdView { project: project2, path: two.file });
    lemma_first_index(ids_of(documents), FileIdView { project: project1, path: one.file });
    lemma_first_index(ids_of(documents), FileIdView { project: project2, path: two.file });
    if file1 < documents.len() && file2 < documents.len() {
        let tokens1 = documents[file1].1;
        let tokens2 = documents[file2].1;
        let start1 = first_index(starts_of(tokens1), one.span.start);
        let start2 = first_index(starts_of(tokens2), two.span.start);
        let end1 = last_index(ends_of(tokens1), one.span.end);
        let end2 = last_index(ends_of(tokens2), two.span.end);
        lemma_first_index(starts_of(tokens1), one.span.start);
        lemma_first_index(starts_of(tokens2), two.span.start);
        lemma_last_index(ends_of(tokens1), one.span.end);
        lemma_last_index(ends_of(tokens2), two.span.end);
        if start1 < tokens1.len() && start2 < tokens2.len() && end1 >= 0 && end2 >= 0 {
            lemma_extend_up(tokens1, tokens2, start1, start2);
            lemma_extend_down(tokens1, tokens2, end1, end2);
            let up = extend_up(tokens1, tokens2, start1, start2);
            let down = extend_down(tokens1, tokens2, end1, end2);
            assert(ordered(tokens1));
            assert(ordered(tokens2));
            assert(starts_of(tokens1)[start1] == tokens1[start1].1.start);
            assert(starts_of(tokens2)[start2] == tokens2[start2].1.start);
            assert(ends_of(tokens1)[end1] == tokens1[end1].1.end);
            assert(ends_of(tokens2)[end2] == tokens2[end2].1.end);
            if up > 0 {
                assert(tokens1[start1 - up].1.start < tokens1[start1].1.start);
                assert(tokens2[start2 - up].1.start < tokens2[start2].1.start);
            }
            if down > 0 {
                assert(tokens1[end1].1.end < tokens1[end1 + down].1.end);
                assert(tokens2[end2].1.end < tokens2[end2 + down].1.end);
            }
        }
    }
}

/// The first file with the given project and path, or the number of files.
fn find_document(
    documents: &Vec<(FileId, Vec<(u64, Range<usize>)>)>,
    project: &String,
    path: &String,
) -> (at: usize)
    ensures
        at == first_index(
            ids_of(documents_view(documents@)),
            FileIdView { project: project@, path: path@ },
        ),
{
    let n: usize = documents.len();
    let ghost ids = ids_of(documents_view(documents@));
    let ghost wanted = FileIdView { project: project@, path: path@ };
    let mut i: usize = 0;
    while i < n
        invariant
            n == documents@.len(),
            i <= n,
            ids == ids_of(documents_view(documents@)),
            wanted == (FileIdView { project: project@, path: path@ }),
            forall|j: int| 0 <= j < i ==> #[trigger] ids[j] != wanted,
        decreases n - i,
    {
        if documents[i].0.project == *project && documents[i].0.path == *path {
            proof {
                assert(ids[i as int] == documents@[i as int].0@);
                lemma_first_index_found(ids, wanted, i as int);
            }
            return i;
        }
        proof {
            assert(ids[i as int] == documents@[i as int].0@);
        }
        i += 1;
    }
    proof {
        lemma_first_index_found(ids, wanted, n as int);
    }
    n
}

/// The first token that starts at `start`, or the number of tokens.
pub fn find_start(tokens: &Vec<(u64, Range<usize>)>, start: usize) -> (at: usize)
    ensures
        at == first_index(starts_of(tokens@), start),
{
    let n: usize = tokens.len();
    let mut i: usize = 0;
    while i < n
        invariant
            n == tokens@.len(),
            i <= n,
            forall|j: int| 0 <= j < i ==> #[trigger] starts_of(tokens@)[j] != start,
        decreases n - i,
    {
        if tokens[i].1.start == start {
            proof {
                lemma_first_index_found(starts_of(tokens@), start, i as int);
            }
            return i;
        }
        i += 1;
    }
    proof {
        lemma_first_index_found(starts_of(tokens@), start, n as int);
    }
    n
}

/// The last token that ends at `end`, if there is one.
fn find_end(tokens: &Vec<(u64, Range<usize>)>, end: usize) -> (at: Option<usize>)
    ensures
        match at {
            Some(i) => i == last_index(ends_of(tokens@), end),
            None => last_index(ends_of(tokens@), end) == -1,
        },
{
    let n: usize = tokens.len();
    let ghost ends = ends_of(tokens@);
    let mut i: usize = n;
    proof {
        assert(ends.take(n as int) =~= ends);
    }
    while i > 0
        invariant
            n == tokens@.len(),
            i <= n,
            ends == ends_of(tokens@),
            last_index(ends, end) == last_index(ends.take(i as int), end),
        decreases i,
    {
        proof {
            assert(ends.take(i as int).drop_last() =~= ends.take(i - 1));
            assert(ends.take(i as int).last() == tokens@[i - 1].1.end);
        }
        if tokens[i - 1].1.end == end {
            return Some(i - 1);
        }
        i -= 1;
    }
    None
}

/// Grows one match as far as the tokens around it agree.
fn expand_match(
    found: &Match,
    project1: &String,
    project2: &String,
    document_hashes: &Vec<(FileId, Vec<(u64, Range<usize>)>)>,
) -> (grown: Match)
    ensures
        grown@ == expanded(found@, project1@, project2@, documents_view(document_hashes@)),
{
    let ghost documents = documents_view(document_hashes@);
    let one = &found.project_1_location;
    let two = &found.project_2_location;
    let file1 = find_document(document_hashes, project1, &one.file);
    let file2 = find_document(document_hashes, project2, &two.file);
    if file1 >= document_hashes.len() || file2 >= document_hashes.len() {
        return found.duplicate();
    }
    let tokens1 = &document_hashes[file1].1;
    let tokens2 = &document_hashes[file2].1;
    proof {
        assert(documents[file1 as int].1 == tokens1@);
        assert(documents[file2 as int].1 == tokens2@);
    }
    let first1 = find_start(tokens1, one.span.start);
    let first2 = find_start(tokens2, two.span.start);
    let last1 = find_end(tokens1, one.span.end);
    let last2 = find_end(tokens2, two.span.end);
    if first1 >= tokens1.len() || first2 >= tokens2.len() {
        return found.duplicate();
    }
    match (last1, last2) {
        (Some(end1), Some(end2)) => {
            let mut start1: usize = first1;
            let mut start2: usize = first2;
            while start1 > 0 && start2 > 0 && tokens1[start1 - 1].0 == tokens2[start2 - 1].0
                invariant
                    start1 <= first1 < tokens1@.len(),
                    start2 <= first2 < tokens2@.len(),
                    first1 - start1 == first2 - start2,
                    start1 - extend_up(tokens1@, tokens2@, start1 as int, start2 as int) == first1
                        - extend_up(tokens1@, tokens2@, first1 as int, first2 as int),
                decreases start1,
            {
                start1 -= 1;
                start2 -= 1;
            }
            let mut stop1: usize = end1;
            let mut stop2: usize = end2;
            proof {
                lemma_last_index(ends_of(tokens1@), one.span.end);
                lemma_last_index(ends_of(tokens2@), two.span.end);
            }
            while stop1 < tokens1.len() - 1 && stop2 < tokens2.len() - 1 && tokens1[stop1 + 1].0
                == tokens2[stop2 + 1].0
                invariant
                    end1 <= stop1 < tokens1@.len(),
                    end2 <= stop2 < tokens2@.len(),
                    stop1 - end1 == stop2 - end2,
                    stop1 + extend_down(tokens1@, tokens2@, stop1 as int, stop2 as int) == end1
                        + extend_down(tokens1@, tokens2@, end1 as int, end2 as int),
                decreases tokens1@.len() - stop1,
            {
                stop1 += 1;
                stop2 += 1;
            }
            Match {
                project_1_location: Location {
                    file: one.file.clone(),
                    span: tokens1[start1].1.start..tokens1[stop1].1.end,
                },
                project_2_location: Location {
                    file: two.file.clone(),
                    span: tokens2[start2].1.start..tokens2[stop2].1.end,
                },
            }
        },
        _ => found.duplicate(),
    }
}

/// Grows every match of a pair of projects as far as the tokens around it
/// agree in both files, and keeps one of every group of matches that have
/// grown into the same.
pub fn expand_matches(
    pair: ProjectPair,
    document_hashes: &Vec<(FileId, Vec<(u64, Range<usize>)>)>,
) -> (grown: ProjectPair)
    ensures
        grown@ == expanded_pair(pair@, documents_view(document_hashes@)),
{
    let ghost documents = documents_view(document_hashes@);
    let ghost before = views(pair.matches@);
    let count: usize = pair.matches.len();
    let mut kept: Vec<Match> = Vec::new();
    let mut i: usize = 0;
    proof {
        assert(before.take(0) =~= Seq::empty());
        assert(views(kept@) =~= Seq::empty());
    }
    while i < count
        invariant
            count == pair.matches@.len(),
            i <= count,
            before == views(pair.matches@),
            documents == documents_view(document_hashes@),
            views(kept@) == expanded_matches(
                before.take(i as int),
                pair.project1@,
                pair.project2@,
                documents,
            ),
        decreases count - i,
    {
        let grown = expand_match(&pair.matches[i], &pair.project1, &pair.project2, document_hashes);
        proof {
            assert(before.take(i + 1).drop_last() =~= before.take(i as int));
            assert(before.take(i + 1).last() == pair.matches@[i as int]@);
        }
        let mut known: bool = false;
        let mut j: usize = 0;
        let len: usize = kept.len();
        while j < len && !known
            invariant
                len == kept@.len(),
                j <= len,
                known ==> views(kept@).contains(grown@),
                !known ==> forall|x: int| 0 <= x < j ==> (#[trigger] views(kept@)[x]) != grown@,
            decreases len - j + if known { 0int } else { 1int },
        {
            if kept[j].same(&grown) {
                known = true;
                proof {
                    assert(views(kept@)[j as int] == grown@);
                }
            } else {
                j += 1;
            }
        }
        if !known {
            let ghost old_kept = kept@;
            kept.push(grown);
            proof {
                assert(views(kept@) =~= views(old_kept).push(grown@));
            }
        }
        i += 1;
    }
    proof {
        assert(before.take(count as int) =~= before);
    }
    ProjectPair { project1: pair.project1, project2: pair.project2, matches: kept }
}

} // verus!
