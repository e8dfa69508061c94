//! What holds of every analysis: which matches are found and which are not.

use crate::database::{
    database_of, lemma_first_index, occurrences, project_names, Fraction, Occurrence,
};
use crate::fingerprint::{
    codes, kgram_code, kgrams, lemma_no_shared_run_no_shared_hash, lemma_shared_run_shares_hash,
    window_size, winnow,
};
use crate::groups::{
    lemma_grouped_contains, lemma_grouped_distinct, lemma_grouped_member,
    lemma_grouped_nonempty, ProjectPairKey,
};
use crate::lexing::{hashed_stream, TokenizingStrategy};
use crate::match_expansion::expanded_pair;
use crate::matching::{
    all_matches, entry_matches, keyed_match, lemma_entry_matches_complete,
    lemma_entry_matches_sound, pair_key, paired_matches, project_before, project_pairs_of,
    PlacePair,
};
use crate::output::ProjectPairView;
use crate::sequences::{lemma_flat_map_contains, lemma_flat_map_member};
use crate::sorting::{
    lemma_stably_sorted_member, order_of, sorted_output, with_sorted_matches,
};
use crate::sequences::ordered;
use crate::starter::{hashes_of, lemma_starter_tokens_removed, no_repeated_kgrams, without_starter};
use crate::text::{bytes_lt, lemma_bytes_lt_total, lemma_bytes_of_injective};
use crate::{
    compared_documents, detected_pairs, filtered_database, fingerprints_of, grown_pairs,
    hashed_documents, FileIdView, FileView,
};
use std::ops::Range;
use vstd::prelude::*;
use vstd::utf8::encode_utf8;

verus! {

/// The matches that are found between the compared files, file by index,
/// before they are named, grown, counted and sorted.
pub open spec fn found_matches(
    compared: Seq<(FileIdView, Seq<(u64, Range<usize>)>)>,
    noise_threshold: int,
    guarantee_threshold: int,
    max_token_offset: int,
    common_hash_threshold: Option<Fraction>,
) -> Seq<(ProjectPairKey, Seq<PlacePair>)> {
    paired_matches(
        filtered_database(
            compared,
            noise_threshold,
            guarantee_threshold,
            max_token_offset,
            common_hash_threshold,
        ),
        project_names(compared),
    )
}

/// Every fingerprint is the fingerprint of the file it names, and that file
/// is long enough.
pub proof fn lemma_fingerprint_entry(
    documents: Seq<(FileIdView, Seq<(u64, Range<usize>)>)>,
    k: int,
    w: int,
    y: int,
)
    requires
        documents.len() <= usize::MAX,
        0 <= y < fingerprints_of(documents, k, w).len(),
    ensures
        0 <= fingerprints_of(documents, k, w)[y].0 < documents.len(),
        documents[fingerprints_of(documents, k, w)[y].0 as int].1.len() >= k,
        fingerprints_of(documents, k, w)[y].1 == winnow(
            kgrams(documents[fingerprints_of(documents, k, w)[y].0 as int].1, k),
            w,
        ),
    decreases documents.len(),
{
    let shorter = documents.drop_last();
    let rest = fingerprints_of(shorter, k, w);
    if y < rest.len() {
        lemma_fingerprint_entry(shorter, k, w, y);
        assert(shorter[rest[y].0 as int] == documents[rest[y].0 as int]);
    }
}

/// Every file that is long enough has a fingerprint; the result is its
/// place among the fingerprints.
pub proof fn lemma_fingerprint_exists(
    documents: Seq<(FileIdView, Seq<(u64, Range<usize>)>)>,
    k: int,
    w: int,
    file: int,
) -> (y: int)
    requires
        documents.len() <= usize::MAX,
        0 <= file < documents.len(),
        documents[file].1.len() >= k,
    ensures
        0 <= y < fingerprints_of(documents, k, w).len(),
        fingerprints_of(documents, k, w)[y].0 == file,
    decreases documents.len(),
{
    let shorter = documents.drop_last();
    let rest = fingerprints_of(shorter, k, w);
    if file < shorter.len() {
        assert(shorter[file] == documents[file]);
        let y = lemma_fingerprint_exists(shorter, k, w, file);
        y
    } else {
        fingerprints_of(documents, k, w).len() - 1
    }
}

/// Every place in the database is the place of an entry of a fingerprint
/// with the hash under which it stands; the result is the place of the
/// fingerprint and of the entry.
pub proof fn lemma_database_place(
    fingerprints: Seq<(usize, Seq<(u64, Range<usize>)>)>,
    g: int,
    j: int,
) -> (at: (int, int))
    requires
        0 <= g < database_of(fingerprints).len(),
        0 <= j < database_of(fingerprints)[g].1.len(),
    ensures
        0 <= at.0 < fingerprints.len(),
        0 <= at.1 < fingerprints[at.0].1.len(),
        fingerprints[at.0].0 == database_of(fingerprints)[g].1[j].0,
        fingerprints[at.0].1[at.1] == (
            database_of(fingerprints)[g].0,
            database_of(fingerprints)[g].1[j].1,
        ),
{
    let items = occurrences(fingerprints);
    let i = lemma_grouped_member(items, g, j);
    let row = |f: (usize, Seq<(u64, Range<usize>)>)|
        f.1.map_values(|e: (u64, Range<usize>)| (e.0, (f.0, e.1)));
    let at = lemma_flat_map_member(fingerprints, row, i);
    at
}

/// Every entry of every fingerprint stands in the database under its hash;
/// the result is the place of the hash and the place of the entry under it.
pub proof fn lemma_database_holds(
    fingerprints: Seq<(usize, Seq<(u64, Range<usize>)>)>,
    y: int,
    e: int,
) -> (at: (int, int))
    requires
        0 <= y < fingerprints.len(),
        0 <= e < fingerprints[y].1.len(),
    ensures
        0 <= at.0 < database_of(fingerprints).len(),
        0 <= at.1 < database_of(fingerprints)[at.0].1.len(),
        database_of(fingerprints)[at.0].0 == fingerprints[y].1[e].0,
        database_of(fingerprints)[at.0].1[at.1] == (fingerprints[y].0, fingerprints[y].1[e].1),
{
    let items = occurrences(fingerprints);
    let row = |f: (usize, Seq<(u64, Range<usize>)>)|
        f.1.map_values(|e: (u64, Range<usize>)| (e.0, (f.0, e.1)));
    let i = lemma_flat_map_contains(fingerprints, row, y, e);
    lemma_grouped_contains(items, i)
}

/// Every match joins two places that stand under one hash of the database,
/// the project of the first before the project of the second; the result is
/// the place of the hash and the places of the two places under it.
pub proof fn lemma_match_places(
    database: Seq<(u64, Seq<Occurrence>)>,
    names: Seq<Seq<char>>,
    g: int,
    j: int,
) -> (at: (int, int, int))
    requires
        0 <= g < paired_matches(database, names).len(),
        0 <= j < paired_matches(database, names)[g].1.len(),
    ensures
        0 <= at.0 < database.len(),
        0 <= at.1 < database[at.0].1.len(),
        0 <= at.2 < database[at.0].1.len(),
        paired_matches(database, names)[g].1[j] == (database[at.0].1[at.1], database[at.0].1[at.2]),
        paired_matches(database, names)[g].0 == pair_key(
            names,
            database[at.0].1[at.1].0,
            database[at.0].1[at.2].0,
        ),
        project_before(names, database[at.0].1[at.1].0, database[at.0].1[at.2].0),
{
    let items = all_matches(database, names);
    let i = lemma_grouped_member(items, g, j);
    let per_entry = |e: (u64, Seq<Occurrence>)| entry_matches(e.1, names);
    let found = lemma_flat_map_member(database, per_entry, i);
    let places = database[found.0].1;
    lemma_entry_matches_sound(places, places, names, found.1);
    let item = entry_matches(places, names)[found.1];
    let a = choose|a: int| 0 <= a < places.len() && places[a] == item.1.0;
    let b = choose|b: int| 0 <= b < places.len() && places[b] == item.1.1;
    (found.0, a, b)
}

/// Any two places under one hash whose projects differ are matched, the one
/// of the project that comes first by name first; the result is the place of
/// the match.
pub proof fn lemma_match_found(
    database: Seq<(u64, Seq<Occurrence>)>,
    names: Seq<Seq<char>>,
    x: int,
    a: int,
    b: int,
) -> (at: (int, int))
    requires
        0 <= x < database.len(),
        0 <= a < database[x].1.len(),
        0 <= b < database[x].1.len(),
        project_before(names, database[x].1[a].0, database[x].1[b].0),
    ensures
        0 <= at.0 < paired_matches(database, names).len(),
        0 <= at.1 < paired_matches(database, names)[at.0].1.len(),
        paired_matches(database, names)[at.0].1[at.1] == (database[x].1[a], database[x].1[b]),
        paired_matches(database, names)[at.0].0 == pair_key(
            names,
            database[x].1[a].0,
            database[x].1[b].0,
        ),
{
    let places = database[x].1;
    lemma_entry_matches_complete(places, places, names, a, b);
    let wanted = keyed_match(names, places[a], places[b]);
    let row = entry_matches(places, names);
    let at_row = choose|i: int| 0 <= i < row.len() && row[i] == wanted;
    let per_entry = |e: (u64, Seq<Occurrence>)| entry_matches(e.1, names);
    let i = lemma_flat_map_contains(database, per_entry, x, at_row);
    lemma_grouped_contains(all_matches(database, names), i)
}

/// Every hash that is left in the database after the common hashes are gone
/// stood in it before, with the same places; the result is its place
/// before.
pub proof fn lemma_filtered_entry(
    compared: Seq<(FileIdView, Seq<(u64, Range<usize>)>)>,
    k: int,
    t: int,
    m: int,
    common_hash_threshold: Option<Fraction>,
    x: int,
) -> (g: int)
    requires
        0 <= x < filtered_database(compared, k, t, m, common_hash_threshold).len(),
    ensures
        0 <= g < database_of(fingerprints_of(compared, k, window_size(k, t, m))).len(),
        database_of(fingerprints_of(compared, k, window_size(k, t, m)))[g] == filtered_database(
            compared,
            k,
            t,
            m,
            common_hash_threshold,
        )[x],
{
    let database = database_of(fingerprints_of(compared, k, window_size(k, t, m)));
    let filtered = filtered_database(compared, k, t, m, common_hash_threshold);
    match common_hash_threshold {
        Some(threshold) => {
            let rare = |e: (u64, Seq<Occurrence>)|
                crate::database::is_rare(e.1, project_names(compared), threshold);
            assert(filtered.contains(filtered[x]));
            database.lemma_filter_contains_rev(rare, filtered[x]);
            choose|g: int| 0 <= g < database.len() && database[g] == filtered[x]
        },
        None => x,
    }
}

/// Whether equal k-gram hashes of the two streams only come from equal
/// k-grams.
pub open spec fn hashes_tell_apart(
    a: Seq<(u64, Range<usize>)>,
    b: Seq<(u64, Range<usize>)>,
    k: int,
) -> bool {
    forall|i: int, j: int|
        0 <= i && i + k <= a.len() && 0 <= j && j + k <= b.len() && kgram_code(a, i, k)
            == kgram_code(b, j, k) ==> codes(#[trigger] a.subrange(i, i + k)) == codes(
            #[trigger] b.subrange(j, j + k),
        )
}

/// Whether the two streams have no run of `k` tokens with equal hash codes
/// in common.
pub open spec fn share_no_run(
    a: Seq<(u64, Range<usize>)>,
    b: Seq<(u64, Range<usize>)>,
    k: int,
) -> bool {
    forall|i: int, j: int|
        0 <= i && i + k <= a.len() && 0 <= j && j + k <= b.len() ==> codes(
            #[trigger] a.subrange(i, i + k),
        ) != codes(#[trigger] b.subrange(j, j + k))
}

/// The noise floor. If two files share no run of `noise_threshold` tokens,
/// no match is found between them: no match has its first place in the one
/// and its second place in the other. This holds where equal k-gram hashes
/// only come from equal k-grams.
pub proof fn lemma_noise_floor(
    compared: Seq<(FileIdView, Seq<(u64, Range<usize>)>)>,
    noise_threshold: int,
    guarantee_threshold: int,
    max_token_offset: int,
    common_hash_threshold: Option<Fraction>,
    file1: int,
    file2: int,
)
    requires
        compared.len() <= usize::MAX,
        0 <= file1 < compared.len(),
        0 <= file2 < compared.len(),
        hashes_tell_apart(compared[file1].1, compared[file2].1, noise_threshold),
        share_no_run(compared[file1].1, compared[file2].1, noise_threshold),
    ensures
        forall|g: int, j: int|
            0 <= g < found_matches(
                compared,
                noise_threshold,
                guarantee_threshold,
                max_token_offset,
                common_hash_threshold,
            ).len() && 0 <= j < found_matches(
                compared,
                noise_threshold,
                guarantee_threshold,
                max_token_offset,
                common_hash_threshold,
            )[g].1.len() ==> !((#[trigger] found_matches(
                compared,
                noise_threshold,
                guarantee_threshold,
                max_token_offset,
                common_hash_threshold,
            )[g].1[j]).0.0 == file1 && found_matches(
                compared,
                noise_threshold,
                guarantee_threshold,
                max_token_offset,
                common_hash_threshold,
            )[g].1[j].1.0 == file2),
{
    let k = noise_threshold;
    let w = window_size(noise_threshold, guarantee_threshold, max_token_offset);
    let found = found_matches(
        compared,
        noise_threshold,
        guarantee_threshold,
        max_token_offset,
        common_hash_threshold,
    );
    let filtered = filtered_database(
        compared,
        noise_threshold,
        guarantee_threshold,
        max_token_offset,
        common_hash_threshold,
    );
    let fingerprints = fingerprints_of(compared, k, w);
    let database = database_of(fingerprints);
    let names = project_names(compared);
    assert forall|g: int, j: int|
        0 <= g < found.len() && 0 <= j < found[g].1.len() implies !((#[trigger] found[g].1[j]).0.0
        == file1 && found[g].1[j].1.0 == file2) by {
        if found[g].1[j].0.0 == file1 && found[g].1[j].1.0 == file2 {
            let at = lemma_match_places(filtered, names, g, j);
            let entry = lemma_filtered_entry(
                compared,
                noise_threshold,
                guarantee_threshold,
                max_token_offset,
                common_hash_threshold,
                at.0,
            );
            let one = lemma_database_place(fingerprints, entry, at.1);
            let two = lemma_database_place(fingerprints, entry, at.2);
            lemma_fingerprint_entry(compared, k, w, one.0);
            lemma_fingerprint_entry(compared, k, w, two.0);
            lemma_no_shared_run_no_shared_hash(compared[file1].1, compared[file2].1, k, w, w);
            let first = winnow(kgrams(compared[file1].1, k), w);
            let second = winnow(kgrams(compared[file2].1, k), w);
            assert(first[one.1].0 == second[two.1].0);
        }
    }
}

/// The guarantee. If two files of different projects share a run of
/// `guarantee_threshold - max_token_offset` tokens with equal hash codes, a
/// match is found between them, the file of the project that comes first by
/// name first. This holds where no hash is dropped for being common; the
/// result is the place of such a match.
pub proof fn lemma_guarantee(
    compared: Seq<(FileIdView, Seq<(u64, Range<usize>)>)>,
    noise_threshold: int,
    guarantee_threshold: int,
    max_token_offset: int,
    file1: int,
    file2: int,
    at1: int,
    at2: int,
) -> (at: (int, int))
    requires
        compared.len() <= usize::MAX,
        noise_threshold >= 1,
        max_token_offset >= 0,
        guarantee_threshold >= noise_threshold + max_token_offset,
        0 <= file1 < compared.len(),
        0 <= file2 < compared.len(),
        project_before(project_names(compared), file1 as usize, file2 as usize),
        0 <= at1,
        at1 + guarantee_threshold - max_token_offset <= compared[file1].1.len(),
        0 <= at2,
        at2 + guarantee_threshold - max_token_offset <= compared[file2].1.len(),
        codes(compared[file1].1.subrange(at1, at1 + guarantee_threshold - max_token_offset))
            == codes(
            compared[file2].1.subrange(at2, at2 + guarantee_threshold - max_token_offset),
        ),
    ensures
        0 <= at.0 < found_matches(
            compared,
            noise_threshold,
            guarantee_threshold,
            max_token_offset,
            None,
        ).len(),
        0 <= at.1 < found_matches(
            compared,
            noise_threshold,
            guarantee_threshold,
            max_token_offset,
            None,
        )[at.0].1.len(),
        found_matches(compared, noise_threshold, guarantee_threshold, max_token_offset, None)[at.0].1[at.1].0.0
            == file1,
        found_matches(compared, noise_threshold, guarantee_threshold, max_token_offset, None)[at.0].1[at.1].1.0
            == file2,
{
    let k = noise_threshold;
    let w = window_size(noise_threshold, guarantee_threshold, max_token_offset);
    let fingerprints = fingerprints_of(compared, k, w);
    let database = database_of(fingerprints);
    let names = project_names(compared);
    let a = compared[file1].1;
    let b = compared[file2].1;
    assert(a.subrange(at1, at1 + k + w - 1) == a.subrange(
        at1,
        at1 + guarantee_threshold - max_token_offset,
    ));
    assert(b.subrange(at2, at2 + k + w - 1) == b.subrange(
        at2,
        at2 + guarantee_threshold - max_token_offset,
    ));
    lemma_shared_run_shares_hash(a, b, k, w, at1, at2);
    let fa = winnow(kgrams(a, k), w);
    let fb = winnow(kgrams(b, k), w);
    let shared = choose|x: int, y: int|
        0 <= x < fa.len() && 0 <= y < fb.len() && (#[trigger] fa[x]).0 == (#[trigger] fb[y]).0;
    let y1 = lemma_fingerprint_exists(compared, k, w, file1);
    let y2 = lemma_fingerprint_exists(compared, k, w, file2);
    lemma_fingerprint_entry(compared, k, w, y1);
    lemma_fingerprint_entry(compared, k, w, y2);
    let one = lemma_database_holds(fingerprints, y1, shared.0);
    let two = lemma_database_holds(fingerprints, y2, shared.1);
    lemma_grouped_distinct(occurrences(fingerprints));
    assert(one.0 == two.0) by {
        if one.0 < two.0 {
            assert(database[one.0].0 != database[two.0].0);
        } else if two.0 < one.0 {
            assert(database[two.0].0 != database[one.0].0);
        }
    }
    lemma_match_found(database, names, one.0, one.1, two.1)
}

/// Project symmetry, for the places of one hash. Two places of different
/// projects are matched exactly once, the place of the project that comes
/// first by name first: with the projects swapped the same match is found,
/// its two places swapped. Two places of one project are never matched.
pub proof fn lemma_matches_symmetric(
    places: Seq<Occurrence>,
    names: Seq<Seq<char>>,
    a: int,
    b: int,
)
    requires
        0 <= a < places.len(),
        0 <= b < places.len(),
    ensures
        names[places[a].0 as int] != names[places[b].0 as int] ==> (entry_matches(
            places,
            names,
        ).contains(keyed_match(names, places[a], places[b])) <==> !entry_matches(
            places,
            names,
        ).contains(keyed_match(names, places[b], places[a]))),
        names[places[a].0 as int] == names[places[b].0 as int] ==> !entry_matches(
            places,
            names,
        ).contains(keyed_match(names, places[a], places[b])),
        entry_matches(places, names).contains(keyed_match(names, places[a], places[b]))
            <==> project_before(names, places[a].0, places[b].0),
{
    let matches = entry_matches(places, names);
    let name_a = encode_utf8(names[places[a].0 as int]);
    let name_b = encode_utf8(names[places[b].0 as int]);
    lemma_bytes_lt_total(name_a, name_b);
    lemma_bytes_of_injective(names[places[a].0 as int], names[places[b].0 as int]);
    if project_before(names, places[a].0, places[b].0) {
        lemma_entry_matches_complete(places, places, names, a, b);
    }
    if project_before(names, places[b].0, places[a].0) {
        lemma_entry_matches_complete(places, places, names, b, a);
    }
    if matches.contains(keyed_match(names, places[a], places[b])) {
        let i = choose|i: int|
            0 <= i < matches.len() && matches[i] == keyed_match(names, places[a], places[b]);
        lemma_entry_matches_sound(places, places, names, i);
    }
    if matches.contains(keyed_match(names, places[b], places[a])) {
        let i = choose|i: int|
            0 <= i < matches.len() && matches[i] == keyed_match(names, places[b], places[a]);
        lemma_entry_matches_sound(places, places, names, i);
    }
}

/// No reported pair joins a project with itself: the name of the first
/// project of every pair comes strictly before the name of the second.
pub proof fn lemma_pairs_join_different_projects(
    noise_threshold: int,
    guarantee_threshold: int,
    max_token_offset: int,
    tokenizing_strategy: TokenizingStrategy,
    ignore_whitespace: bool,
    expand_matches: bool,
    min_matches: int,
    common_hash_threshold: Option<Fraction>,
    documents: Seq<FileView>,
    ignored_documents: Seq<FileView>,
    i: int,
)
    requires
        documents.len() <= usize::MAX,
        0 <= i < detected_pairs(
            noise_threshold,
            guarantee_threshold,
            max_token_offset,
            tokenizing_strategy,
            ignore_whitespace,
            expand_matches,
            min_matches,
            common_hash_threshold,
            documents,
            ignored_documents,
        ).len(),
    ensures
        bytes_lt(
            encode_utf8(
                detected_pairs(
                    noise_threshold,
                    guarantee_threshold,
                    max_token_offset,
                    tokenizing_strategy,
                    ignore_whitespace,
                    expand_matches,
                    min_matches,
                    common_hash_threshold,
                    documents,
                    ignored_documents,
                )[i].project1,
            ),
            encode_utf8(
                detected_pairs(
                    noise_threshold,
                    guarantee_threshold,
                    max_token_offset,
                    tokenizing_strategy,
                    ignore_whitespace,
                    expand_matches,
                    min_matches,
                    common_hash_threshold,
                    documents,
                    ignored_documents,
                )[i].project2,
            ),
        ),
{
    let compared = compared_documents(
        noise_threshold,
        max_token_offset,
        tokenizing_strategy,
        ignore_whitespace,
        documents,
        ignored_documents,
    );
    let k = noise_threshold;
    let w = window_size(noise_threshold, guarantee_threshold, max_token_offset);
    let names = project_names(compared);
    let filtered = filtered_database(
        compared,
        noise_threshold,
        guarantee_threshold,
        max_token_offset,
        common_hash_threshold,
    );
    let found = paired_matches(filtered, names);
    let pairs = project_pairs_of(found, compared);
    let grown = grown_pairs(pairs, expand_matches, compared);
    let enough = |p: ProjectPairView| p.matches.len() >= min_matches;
    let kept = grown.filter(enough);
    let ready = kept.map_values(|p: ProjectPairView| with_sorted_matches(p));
    let reported = sorted_output(kept);
    // from the report back to the groups of matches
    let r = lemma_stably_sorted_member(ready, order_of::<crate::output::ProjectPair>(), i);
    assert(kept.contains(kept[r]));
    grown.lemma_filter_contains_rev(enough, kept[r]);
    let x = choose|x: int| 0 <= x < grown.len() && grown[x] == kept[r];
    assert(reported[i].project1 == pairs[x].project1);
    assert(reported[i].project2 == pairs[x].project2);
    // from the group to the two places of one of its matches
    lemma_grouped_nonempty(all_matches(filtered, names), x);
    let at = lemma_match_places(filtered, names, x, 0);
    let entry = lemma_filtered_entry(
        compared,
        noise_threshold,
        guarantee_threshold,
        max_token_offset,
        common_hash_threshold,
        at.0,
    );
    let fingerprints = fingerprints_of(compared, k, w);
    let one = lemma_database_place(fingerprints, entry, at.1);
    let two = lemma_database_place(fingerprints, entry, at.2);
    lemma_fingerprint_entry(compared, k, w, one.0);
    lemma_fingerprint_entry(compared, k, w, two.0);
    let file1 = filtered[at.0].1[at.1].0;
    let file2 = filtered[at.0].1[at.2].0;
    lemma_first_index(names, names[file1 as int]);
    lemma_first_index(names, names[file2 as int]);
    assert(names[found[x].0.first as int] == names[file1 as int]);
    assert(names[found[x].0.second as int] == names[file2 as int]);
}

/// Determinism. Two analyses of the same files with the same settings
/// report the same pairs, the same matches, in the same order.
pub proof fn lemma_detection_is_deterministic(
    noise_threshold: int,
    guarantee_threshold: int,
    max_token_offset: int,
    tokenizing_strategy: TokenizingStrategy,
    ignore_whitespace: bool,
    expand_matches: bool,
    min_matches: int,
    common_hash_threshold: Option<Fraction>,
    documents: Seq<FileView>,
    ignored_documents: Seq<FileView>,
    first: Seq<ProjectPairView>,
    second: Seq<ProjectPairView>,
)
    requires
        first == detected_pairs(
            noise_threshold,
            guarantee_threshold,
            max_token_offset,
            tokenizing_strategy,
            ignore_whitespace,
            expand_matches,
            min_matches,
            common_hash_threshold,
            documents,
            ignored_documents,
        ),
        second == detected_pairs(
            noise_threshold,
            guarantee_threshold,
            max_token_offset,
            tokenizing_strategy,
            ignore_whitespace,
            expand_matches,
            min_matches,
            common_hash_threshold,
            documents,
            ignored_documents,
        ),
    ensures
        first == second,
{
}

/// The hashes that are ignored hold every hash of the fingerprint of every
/// ignored file that is long enough to have one.
pub proof fn lemma_ignored_hashes(
    ignored_documents: Seq<(FileIdView, Seq<(u64, Range<usize>)>)>,
    k: int,
    file: int,
    x: int,
)
    requires
        ignored_documents.len() <= usize::MAX,
        0 <= file < ignored_documents.len(),
        ignored_documents[file].1.len() >= k,
        0 <= x < winnow(kgrams(ignored_documents[file].1, k), 1).len(),
    ensures
        hashes_of(fingerprints_of(ignored_documents, k, 1)).contains(
            winnow(kgrams(ignored_documents[file].1, k), 1)[x].0,
        ),
{
    let fingerprints = fingerprints_of(ignored_documents, k, 1);
    let y = lemma_fingerprint_exists(ignored_documents, k, 1, file);
    lemma_fingerprint_entry(ignored_documents, k, 1, y);
    let row = |f: (usize, Seq<(u64, Range<usize>)>)|
        f.1.map_values(|e: (u64, Range<usize>)| (e.0, (f.0, e.1)));
    let at = lemma_flat_map_contains(fingerprints, row, y, x);
    assert(hashes_of(fingerprints)[at] == winnow(kgrams(ignored_documents[file].1, k), 1)[x].0);
}

/// Starter code is taken out before the files are compared. Where the
/// tokens of an ignored file occur in a file as a run of tokens with the
/// same hash codes, none of the tokens of the run is among the tokens of
/// the file that are compared. This holds of files whose tokens stand in
/// the order of the text and in which no two k-grams that follow each other
/// have the same hash, and of ignored files that are long enough to be
/// fingerprinted.
pub proof fn lemma_starter_code_is_removed(
    documents: Seq<(FileIdView, Seq<(u64, Range<usize>)>)>,
    ignored_documents: Seq<(FileIdView, Seq<(u64, Range<usize>)>)>,
    noise_threshold: int,
    file: int,
    ignored_file: int,
    at: int,
    i: int,
)
    requires
        noise_threshold >= 1,
        ignored_documents.len() <= usize::MAX,
        0 <= file < documents.len(),
        0 <= ignored_file < ignored_documents.len(),
        ordered(documents[file].1),
        documents[file].1.len() <= usize::MAX,
        no_repeated_kgrams(documents[file].1, noise_threshold),
        ignored_documents[ignored_file].1.len() >= noise_threshold,
        0 <= at,
        at + ignored_documents[ignored_file].1.len() <= documents[file].1.len(),
        codes(documents[file].1.subrange(at, at + ignored_documents[ignored_file].1.len()))
            == codes(ignored_documents[ignored_file].1),
        at <= i < at + ignored_documents[ignored_file].1.len(),
    ensures
        forall|j: int|
            0 <= j < without_starter(documents, ignored_documents, noise_threshold)[file].1.len()
                ==> (#[trigger] without_starter(
                documents,
                ignored_documents,
                noise_threshold,
            )[file].1[j]) != documents[file].1[i],
{
    let k = noise_threshold;
    let starter = ignored_documents[ignored_file].1;
    let ignored = hashes_of(fingerprints_of(ignored_documents, k, 1));
    assert forall|x: int| 0 <= x < winnow(kgrams(starter, k), 1).len() implies ignored.contains(
        (#[trigger] winnow(kgrams(starter, k), 1)[x]).0,
    ) by {
        lemma_ignored_hashes(ignored_documents, k, ignored_file, x);
    }
    lemma_starter_tokens_removed(documents[file].1, starter, k, ignored, at, i);
}

/// The tokens of every file that is compared stand in the order of the
/// text, whatever the strategy and whatever starter code was taken out.
pub proof fn lemma_compared_ordered(
    noise_threshold: int,
    max_token_offset: int,
    tokenizing_strategy: TokenizingStrategy,
    ignore_whitespace: bool,
    documents: Seq<FileView>,
    ignored_documents: Seq<FileView>,
    file: int,
)
    requires
        0 <= file < documents.len(),
        encode_utf8(documents[file].contents).len() <= usize::MAX,
    ensures
        ordered(
            compared_documents(
                noise_threshold,
                max_token_offset,
                tokenizing_strategy,
                ignore_whitespace,
                documents,
                ignored_documents,
            )[file].1,
        ),
{
    let stream = hashed_stream(
        encode_utf8(documents[file].contents),
        tokenizing_strategy,
        ignore_whitespace,
        max_token_offset,
    );
    crate::lexing::lemma_hashed_stream_ordered(
        encode_utf8(documents[file].contents),
        tokenizing_strategy,
        ignore_whitespace,
        max_token_offset,
    );
    let ignored = hashes_of(
        fingerprints_of(
            hashed_documents(
                ignored_documents,
                tokenizing_strategy,
                ignore_whitespace,
                max_token_offset,
            ),
            noise_threshold,
            1,
        ),
    );
    if stream.len() >= noise_threshold {
        crate::starter::lemma_without_covered_ordered(
            stream,
            crate::starter::starter_ranges(stream, winnow(kgrams(stream, noise_threshold), 1), ignored),
        );
    }
}

/// Every place of every match that is found is the span of a k-gram of
/// the file as it is compared; the result is the token at which the k-gram
/// starts.
pub proof fn lemma_found_place_is_kgram(
    compared: Seq<(FileIdView, Seq<(u64, Range<usize>)>)>,
    noise_threshold: int,
    guarantee_threshold: int,
    max_token_offset: int,
    common_hash_threshold: Option<Fraction>,
    g: int,
    j: int,
    second: bool,
) -> (q: int)
    requires
        compared.len() <= usize::MAX,
        0 <= g < found_matches(
            compared,
            noise_threshold,
            guarantee_threshold,
            max_token_offset,
            common_hash_threshold,
        ).len(),
        0 <= j < found_matches(
            compared,
            noise_threshold,
            guarantee_threshold,
            max_token_offset,
            common_hash_threshold,
        )[g].1.len(),
    ensures
        ({
            let found = found_matches(
                compared,
                noise_threshold,
                guarantee_threshold,
                max_token_offset,
                common_hash_threshold,
            )[g].1[j];
            let place = if second {
                found.1
            } else {
                found.0
            };
            &&& 0 <= place.0 < compared.len()
            &&& 0 <= q
            &&& q + noise_threshold <= compared[place.0 as int].1.len()
            &&& place.1 == crate::fingerprint::kgram(
                compared[place.0 as int].1,
                q,
                noise_threshold,
            ).1
        }),
{
    let k = noise_threshold;
    let w = window_size(noise_threshold, guarantee_threshold, max_token_offset);
    let filtered = filtered_database(
        compared,
        noise_threshold,
        guarantee_threshold,
        max_token_offset,
        common_hash_threshold,
    );
    let names = project_names(compared);
    let fingerprints = fingerprints_of(compared, k, w);
    let at = lemma_match_places(filtered, names, g, j);
    let entry = lemma_filtered_entry(
        compared,
        noise_threshold,
        guarantee_threshold,
        max_token_offset,
        common_hash_threshold,
        at.0,
    );
    let place = lemma_database_place(
        fingerprints,
        entry,
        if second {
            at.2
        } else {
            at.1
        },
    );
    lemma_fingerprint_entry(compared, k, w, place.0);
    let file = fingerprints[place.0].0 as int;
    crate::fingerprint::lemma_fingerprint_of_kgrams(compared[file].1, k, w);
    let fingerprint = winnow(kgrams(compared[file].1, k), w);
    choose|q: int|
        0 <= q && q + k <= compared[file].1.len() && (#[trigger] fingerprint[place.1])
            == crate::fingerprint::kgram(compared[file].1, q, k)
}

/// Starter subtraction soundness. No match that is found lies within
/// starter code: where the tokens of an ignored file occur in a file as a
/// run of tokens with the same hash codes, no place of a match in that file
/// covers only bytes of the run. This holds of files whose tokens stand in
/// the order of the text and in which no two k-grams that follow each other
/// have the same hash, and of ignored files that are long enough to be
/// fingerprinted.
pub proof fn lemma_no_match_within_starter_code(
    documents: Seq<(FileIdView, Seq<(u64, Range<usize>)>)>,
    ignored_documents: Seq<(FileIdView, Seq<(u64, Range<usize>)>)>,
    noise_threshold: int,
    guarantee_threshold: int,
    max_token_offset: int,
    common_hash_threshold: Option<Fraction>,
    file: int,
    ignored_file: int,
    at: int,
    g: int,
    j: int,
    second: bool,
)
    requires
        noise_threshold >= 1,
        documents.len() <= usize::MAX,
        ignored_documents.len() <= usize::MAX,
        0 <= file < documents.len(),
        0 <= ignored_file < ignored_documents.len(),
        ordered(documents[file].1),
        documents[file].1.len() <= usize::MAX,
        no_repeated_kgrams(documents[file].1, noise_threshold),
        ignored_documents[ignored_file].1.len() >= noise_threshold,
        0 <= at,
        at + ignored_documents[ignored_file].1.len() <= documents[file].1.len(),
        codes(documents[file].1.subrange(at, at + ignored_documents[ignored_file].1.len()))
            == codes(ignored_documents[ignored_file].1),
        0 <= g < found_matches(
            without_starter(documents, ignored_documents, noise_threshold),
            noise_threshold,
            guarantee_threshold,
            max_token_offset,
            common_hash_threshold,
        ).len(),
        0 <= j < found_matches(
            without_starter(documents, ignored_documents, noise_threshold),
            noise_threshold,
            guarantee_threshold,
            max_token_offset,
            common_hash_threshold,
        )[g].1.len(),
    ensures
        ({
            let found = found_matches(
                without_starter(documents, ignored_documents, noise_threshold),
                noise_threshold,
                guarantee_threshold,
                max_token_offset,
                common_hash_threshold,
            )[g].1[j];
            let place = if second {
                found.1
            } else {
                found.0
            };
            let run_start = documents[file].1[at].1.start;
            let run_end = documents[file].1[at + ignored_documents[ignored_file].1.len() - 1].1.end;
            place.0 == file ==> !(run_start <= place.1.start && place.1.end <= run_end)
        }),
{
    let k = noise_threshold;
    let n = ignored_documents[ignored_file].1.len() as int;
    let compared = without_starter(documents, ignored_documents, k);
    let found = found_matches(
        compared,
        noise_threshold,
        guarantee_threshold,
        max_token_offset,
        common_hash_threshold,
    )[g].1[j];
    let place = if second {
        found.1
    } else {
        found.0
    };
    let q = lemma_found_place_is_kgram(
        compared,
        noise_threshold,
        guarantee_threshold,
        max_token_offset,
        common_hash_threshold,
        g,
        j,
        second,
    );
    if place.0 == file {
        let stream = documents[file].1;
        let left = compared[file].1;
        let ignored = hashes_of(fingerprints_of(ignored_documents, k, 1));
        assert(left == crate::starter::subtracted(stream, k, ignored));
        let ranges = crate::starter::starter_ranges(stream, winnow(kgrams(stream, k), 1), ignored);
        crate::starter::lemma_without_covered(stream, ranges);
        crate::starter::lemma_without_covered_ordered(stream, ranges);
        assert(stream.len() >= k ==> left == crate::starter::without_covered(stream, ranges));
        // the first and the last token of the k-gram are tokens that are left
        let first = left[q];
        let last = left[q + k - 1];
        let x = choose|x: int| 0 <= x < stream.len() && stream[x] == first;
        let y = choose|y: int| 0 <= y < stream.len() && stream[y] == last;
        if at <= x < at + n {
            lemma_starter_code_is_removed(documents, ignored_documents, k, file, ignored_file, at, x);
            assert(compared[file].1[q] != stream[x]);
        }
        if at <= y < at + n {
            lemma_starter_code_is_removed(documents, ignored_documents, k, file, ignored_file, at, y);
            assert(compared[file].1[q + k - 1] != stream[y]);
        }
        if x < at {
            assert(stream[x].1.start < stream[at].1.start);
        } else {
            // the k-gram starts behind the run, so it ends behind it
            if y < at {
                if q < q + k - 1 {
                    assert(left[q].1.start < left[q + k - 1].1.start);
                }
                if x < y {
                    assert(stream[x].1.start < stream[y].1.start);
                } else if y < x {
                    assert(stream[y].1.start < stream[x].1.start);
                }
            } else {
                assert(stream[at + n - 1].1.end < stream[y].1.end);
            }
        }
    }
}

} // verus!
