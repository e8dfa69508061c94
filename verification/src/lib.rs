//! Detection of near-duplicate code across projects by winnowing.

use crate::database::{
    build_hash_database, database_of, files_below, project_names, project_representatives,
    remove_common_hashes, without_common, Fraction,
};
use crate::fingerprint::{fingerprint, kgrams, window_size, winnow, Fingerprint};
use crate::lexing::{hashed_stream, tokenize_and_hash, TokenizingStrategy};
use crate::match_expansion::expanded_pair;
use crate::matching::{name_pairs, pair_matches, paired_matches, project_pairs_of};
use crate::output::{views, ProjectPair, ProjectPairView, Warning, WarningType, WarningView};
use crate::sorting::{sort_output, sorted_output};
use crate::starter::{remove_ignored_documents, without_starter};
use std::ops::Range;
use vstd::prelude::*;
use vstd::utf8::encode_utf8;

pub mod arguments;
pub mod database;
pub mod fingerprint;
pub mod groups;
pub mod hashing;
pub mod identity_hash;
pub mod laws;
pub mod lexing;
pub mod match_expansion;
pub mod matching;
pub mod output;
pub mod paths;
pub mod sequences;
pub mod sorting;
pub mod starter;
pub mod text;
pub mod token;

verus! {

/// A file of a project, with its text.
#[derive(Clone, Debug, PartialEq, Eq)]
pub struct File {
    pub project: String,
    pub path: String,
    pub contents: String,
}

pub struct FileView {
    pub project: Seq<char>,
    pub path: Seq<char>,
    pub contents: Seq<char>,
}

impl View for File {
    type V = FileView;

    open spec fn view(&self) -> FileView {
        FileView { project: self.project@, path: self.path@, contents: self.contents@ }
    }
}

impl File {
    pub fn new(project: String, path: String, contents: String) -> (file: File)
        ensures
            file.project == project,
            file.path == path,
            file.contents == contents,
    {
        File { project, path, contents }
    }
}

/// What names a file: its project and its path.
#[derive(Clone, Debug, Hash, PartialEq, Eq)]
pub struct FileId {
    pub project: String,
    pub path: String,
}

pub struct FileIdView {
    pub project: Seq<char>,
    pub path: Seq<char>,
}

impl View for FileId {
    type V = FileIdView;

    open spec fn view(&self) -> FileIdView {
        FileIdView { project: self.project@, path: self.path@ }
    }
}

impl FileId {
    pub fn new(project: String, path: String) -> (id: FileId)
        ensures
            id.project == project,
            id.path == path,
    {
        FileId { project, path }
    }
}

/// Files with their hashed tokens, as sequences.
pub open spec fn documents_view(documents: Seq<(FileId, Vec<(u64, Range<usize>)>)>) -> Seq<
    (FileIdView, Seq<(u64, Range<usize>)>),
> {
    documents.map_values(|d: (FileId, Vec<(u64, Range<usize>)>)| (d.0@, d.1@))
}

/// Every file with the stream of hashed tokens of its text.
pub open spec fn hashed_documents(
    files: Seq<FileView>,
    tokenizing_strategy: TokenizingStrategy,
    ignore_whitespace: bool,
    max_token_offset: int,
) -> Seq<(FileIdView, Seq<(u64, Range<usize>)>)> {
    files.map_values(
        |f: FileView|
            (
                FileIdView { project: f.project, path: f.path },
                hashed_stream(
                    encode_utf8(f.contents),
                    tokenizing_strategy,
                    ignore_whitespace,
                    max_token_offset,
                ),
            ),
    )
}

/// Tokenizes and hashes every file.
fn tokenize_documents(
    documents: &[File],
    tokenizing_strategy: TokenizingStrategy,
    ignore_whitespace: bool,
    max_token_offset: usize,
) -> (hashed: Vec<(FileId, Vec<(u64, Range<usize>)>)>)
    ensures
        documents_view(hashed@) == hashed_documents(
            views(documents@),
            tokenizing_strategy,
            ignore_whitespace,
            max_token_offset as int,
        ),
{
    let n: usize = documents.len();
    let mut hashed: Vec<(FileId, Vec<(u64, Range<usize>)>)> = Vec::new();
    let ghost expected = hashed_documents(
        views(documents@),
        tokenizing_strategy,
        ignore_whitespace,
        max_token_offset as int,
    );
    let mut i: usize = 0;
    while i < n
        invariant
            n == documents@.len(),
            i <= n,
            hashed@.len() == i,
            expected == hashed_documents(
                views(documents@),
                tokenizing_strategy,
                ignore_whitespace,
                max_token_offset as int,
            ),
            forall|j: int| 0 <= j < i ==> (#[trigger] hashed@[j]).0@ == expected[j].0 && hashed@[j].1@ == expected[j].1,
        decreases n - i,
    {
        let f = &documents[i];
        let id = FileId::new(f.project.clone(), f.path.clone());
        let hashes = tokenize_and_hash(
            f.contents.as_str(),
            tokenizing_strategy,
            ignore_whitespace,
            max_token_offset,
        );
        hashed.push((id, hashes));
        i += 1;
    }
    proof {
        assert(documents_view(hashed@) =~= expected);
    }
    hashed
}

/// The text of the warning for a file of `num_tokens` tokens where at least
/// `noise_threshold` are needed.
pub open spec fn fingerprint_warning(path: Seq<char>, num_tokens: nat, noise_threshold: nat) -> WarningView {
    WarningView {
        file: Some(path),
        message: crate::fingerprint::error_message(num_tokens, noise_threshold),
        warn_type: WarningType::Fingerprint,
    }
}

/// The fingerprints of the files that are long enough, each with the index of
/// its file, in the order of the files.
pub open spec fn fingerprints_of(
    documents: Seq<(FileIdView, Seq<(u64, Range<usize>)>)>,
    k: int,
    w: int,
) -> Seq<(usize, Seq<(u64, Range<usize>)>)>
    decreases documents.len(),
{
    if documents.len() == 0 {
        Seq::empty()
    } else {
        let rest = fingerprints_of(documents.drop_last(), k, w);
        let last = documents.last();
        if last.1.len() >= k {
            rest.push(((documents.len() - 1) as usize, winnow(kgrams(last.1, k), w)))
        } else {
            rest
        }
    }
}

/// One warning for every file that is too short to be fingerprinted, in the
/// order of the files.
pub open spec fn fingerprint_warnings(
    documents: Seq<(FileIdView, Seq<(u64, Range<usize>)>)>,
    k: int,
) -> Seq<WarningView>
    decreases documents.len(),
{
    if documents.len() == 0 {
        Seq::empty()
    } else {
        let rest = fingerprint_warnings(documents.drop_last(), k);
        let last = documents.last();
        if last.1.len() >= k {
            rest
        } else {
            rest.push(fingerprint_warning(last.0.path, last.1.len(), k as nat))
        }
    }
}

/// Fingerprints with the index of their file, as sequences.
pub open spec fn fingerprints_view(fingerprints: Seq<(usize, Fingerprint)>) -> Seq<
    (usize, Seq<(u64, Range<usize>)>),
> {
    fingerprints.map_values(|f: (usize, Fingerprint)| (f.0, f.1.spanned_hashes@))
}

/// Fingerprints every file. A file that is too short gets a warning in place
/// of a fingerprint.
pub fn fingerprint_multiple(
    document_hashes: &Vec<(FileId, Vec<(u64, Range<usize>)>)>,
    noise_threshold: usize,
    guarantee_threshold: usize,
    max_token_offset: usize,
) -> (result: (Vec<(usize, Fingerprint)>, Vec<Warning>))
    requires
        noise_threshold != 0,
        guarantee_threshold >= noise_threshold + max_token_offset,
    ensures
        fingerprints_view(result.0@) == fingerprints_of(
            documents_view(document_hashes@),
            noise_threshold as int,
            window_size(
                noise_threshold as int,
                guarantee_threshold as int,
                max_token_offset as int,
            ),
        ),
        views(result.1@) == fingerprint_warnings(
            documents_view(document_hashes@),
            noise_threshold as int,
        ),
{
    let n: usize = document_hashes.len();
    let ghost docs = documents_view(document_hashes@);
    let ghost w = window_size(
        noise_threshold as int,
        guarantee_threshold as int,
        max_token_offset as int,
    );
    let mut fingerprints: Vec<(usize, Fingerprint)> = Vec::new();
    let mut warnings: Vec<Warning> = Vec::new();
    let mut i: usize = 0;
    proof {
        assert(docs.take(0) =~= Seq::empty());
        assert(fingerprints_view(fingerprints@) =~= Seq::empty());
        assert(views(warnings@) =~= Seq::empty());
    }
    while i < n
        invariant
            noise_threshold != 0,
            guarantee_threshold >= noise_threshold + max_token_offset,
            n == document_hashes@.len(),
            i <= n,
            docs == documents_view(document_hashes@),
            w == window_size(
                noise_threshold as int,
                guarantee_threshold as int,
                max_token_offset as int,
            ),
            fingerprints_view(fingerprints@) == fingerprints_of(
                docs.take(i as int),
                noise_threshold as int,
                w,
            ),
            views(warnings@) == fingerprint_warnings(docs.take(i as int), noise_threshold as int),
        decreases n - i,
    {
        let result = fingerprint(
            noise_threshold,
            guarantee_threshold,
            max_token_offset,
            document_hashes[i].1.as_slice(),
        );
        proof {
            assert(docs.take(i + 1).drop_last() =~= docs.take(i as int));
            assert(docs.take(i + 1).last() == docs[i as int]);
        }
        let ghost old_fingerprints = fingerprints@;
        let ghost old_warnings = warnings@;
        match result {
            Err(e) => {
                let warning = Warning {
                    file: Some(document_hashes[i].0.path.clone()),
                    message: e.message(),
                    warn_type: WarningType::Fingerprint,
                };
                warnings.push(warning);
                proof {
                    assert(views(warnings@) =~= views(old_warnings).push(warning@));
                }
            },
            Ok(f) => {
                fingerprints.push((i, f));
                proof {
                    assert(fingerprints_view(fingerprints@) =~= fingerprints_view(
                        old_fingerprints,
                    ).push((i, f.spanned_hashes@)));
                }
            },
        }
        i += 1;
    }
    proof {
        assert(docs.take(n as int) =~= docs);
    }
    (fingerprints, warnings)
}

/// Every fingerprint belongs to one of the files.
pub proof fn lemma_fingerprints_of_files(
    documents: Seq<(FileIdView, Seq<(u64, Range<usize>)>)>,
    k: int,
    w: int,
)
    requires
        documents.len() <= usize::MAX,
    ensures
        files_below(fingerprints_of(documents, k, w), documents.len() as int),
    decreases documents.len(),
{
    if documents.len() > 0 {
        lemma_fingerprints_of_files(documents.drop_last(), k, w);
        let rest = fingerprints_of(documents.drop_last(), k, w);
        let all = fingerprints_of(documents, k, w);
        assert forall|i: int| 0 <= i < all.len() implies (#[trigger] all[i]).0 < documents.len() by {
            if i < rest.len() {
                assert(all[i] == rest[i]);
            }
        }
    }
}

/// The pairs with their matches grown, or as they are.
pub open spec fn grown_pairs(
    pairs: Seq<ProjectPairView>,
    expand_matches: bool,
    documents: Seq<(FileIdView, Seq<(u64, Range<usize>)>)>,
) -> Seq<ProjectPairView> {
    if expand_matches {
        pairs.map_values(|p: ProjectPairView| expanded_pair(p, documents))
    } else {
        pairs
    }
}

/// The files as they are compared: tokenized, hashed, and without what they
/// share with the ignored files.
pub open spec fn compared_documents(
    noise_threshold: int,
    max_token_offset: int,
    tokenizing_strategy: TokenizingStrategy,
    ignore_whitespace: bool,
    documents: Seq<FileView>,
    ignored_documents: Seq<FileView>,
) -> Seq<(FileIdView, Seq<(u64, Range<usize>)>)> {
    without_starter(
        hashed_documents(documents, tokenizing_strategy, ignore_whitespace, max_token_offset),
        hashed_documents(
            ignored_documents,
            tokenizing_strategy,
            ignore_whitespace,
            max_token_offset,
        ),
        noise_threshold,
    )
}

/// The hash database of the compared files, without the hashes that too many
/// projects have in common.
pub open spec fn filtered_database(
    compared: Seq<(FileIdView, Seq<(u64, Range<usize>)>)>,
    noise_threshold: int,
    guarantee_threshold: int,
    max_token_offset: int,
    common_hash_threshold: Option<Fraction>,
) -> Seq<(u64, Seq<(usize, Range<usize>)>)> {
    let database = database_of(
        fingerprints_of(
            compared,
            noise_threshold,
            window_size(noise_threshold, guarantee_threshold, max_token_offset),
        ),
    );
    match common_hash_threshold {
        Some(threshold) => without_common(database, project_names(compared), threshold),
        None => database,
    }
}

/// The pairs of projects that an analysis reports.
pub open spec fn detected_pairs(
    noise_threshold: int,
    guarantee_threshold: int,
    max_token_offset: int,
    tokenizing_strategy: TokenizingStrategy,
    ignore_whitespace: bool,
    expand_matches: bool,
    min_matches: int,
    common_hash_threshold: Option<Fraction>,
    documents: Seq<FileView>,
    ignored_documents: Seq<FileView>,
) -> Seq<ProjectPairView> {
    let compared = compared_documents(
        noise_threshold,
        max_token_offset,
        tokenizing_strategy,
        ignore_whitespace,
        documents,
        ignored_documents,
    );
    let database = filtered_database(
        compared,
        noise_threshold,
        guarantee_threshold,
        max_token_offset,
        common_hash_threshold,
    );
    let pairs = project_pairs_of(paired_matches(database, project_names(compared)), compared);
    sorted_output(
        grown_pairs(pairs, expand_matches, compared).filter(
            |p: ProjectPairView| p.matches.len() >= min_matches,
        ),
    )
}

/// The warnings of an analysis: first for the ignored files that are too
/// short, then for the other files that are too short once the starter code
/// is out.
pub open spec fn detection_warnings(
    noise_threshold: int,
    max_token_offset: int,
    tokenizing_strategy: TokenizingStrategy,
    ignore_whitespace: bool,
    documents: Seq<FileView>,
    ignored_documents: Seq<FileView>,
) -> Seq<WarningView> {
    fingerprint_warnings(
        hashed_documents(
            ignored_documents,
            tokenizing_strategy,
            ignore_whitespace,
            max_token_offset,
        ),
        noise_threshold,
    ) + fingerprint_warnings(
        compared_documents(
            noise_threshold,
            max_token_offset,
            tokenizing_strategy,
            ignore_whitespace,
            documents,
            ignored_documents,
        ),
        noise_threshold,
    )
}

/// Detects matches between files in different projects and constructs a
/// summary of the results.
///
/// Matches of length less than `noise_threshold` are ignored. Matches of
/// length at least `guarantee_threshold` are found.
pub fn detect_plagiarism(
    noise_threshold: usize,
    guarantee_threshold: usize,
    max_token_offset: usize,
    tokenizing_strategy: TokenizingStrategy,
    ignore_whitespace: bool,
    expand_matches: bool,
    min_matches: usize,
    common_hash_threshold: Option<Fraction>,
    documents: &[File],
    ignored_documents: &[File],
) -> (result: (Vec<ProjectPair>, Vec<Warning>))
    requires
        noise_threshold != 0,
        guarantee_threshold >= noise_threshold + max_token_offset,
    ensures
        views(result.0@) == detected_pairs(
            noise_threshold as int,
            guarantee_threshold as int,
            max_token_offset as int,
            tokenizing_strategy,
            ignore_whitespace,
            expand_matches,
            min_matches as int,
            common_hash_threshold,
            views(documents@),
            views(ignored_documents@),
        ),
        views(result.1@) == detection_warnings(
            noise_threshold as int,
            max_token_offset as int,
            tokenizing_strategy,
            ignore_whitespace,
            views(documents@),
            views(ignored_documents@),
        ),
{
    let mut document_hashes = tokenize_documents(
        documents,
        tokenizing_strategy,
        ignore_whitespace,
        max_token_offset,
    );
    let ignored_document_hashes = tokenize_documents(
        ignored_documents,
        tokenizing_strategy,
        ignore_whitespace,
        max_token_offset,
    );

    // Remove the contents of the ignored documents from the input documents
    let mut warnings = remove_ignored_documents(
        &mut document_hashes,
        &ignored_document_hashes,
        noise_threshold,
        max_token_offset,
    );
    let ghost compared = documents_view(document_hashes@);
    let ghost names = project_names(compared);
    let ghost ignored_warnings = views(warnings@);

    let (document_fingerprints, mut fingerprinting_warnings) = fingerprint_multiple(
        &document_hashes,
        noise_threshold,
        guarantee_threshold,
        max_token_offset,
    );
    let ghost other_warnings = views(fingerprinting_warnings@);
    warnings.append(&mut fingerprinting_warnings);
    let num_files: usize = document_hashes.len();
    proof {
        assert(compared.len() == num_files);
        assert(views(warnings@) =~= ignored_warnings + other_warnings);
        lemma_fingerprints_of_files(
            compared,
            noise_threshold as int,
            window_size(noise_threshold as int, guarantee_threshold as int, max_token_offset as int),
        );
    }

    // Map hashes to their locations
    let hash_locations = build_hash_database(
        &document_fingerprints,
        Ghost(document_hashes@.len() as int),
    );

    // Filter out hashes that are common to too many projects
    let (representatives_of, num_projects) = project_representatives(&document_hashes);
    let hash_locations = match common_hash_threshold {
        Some(threshold) => remove_common_hashes(
            hash_locations,
            &representatives_of,
            num_projects,
            &threshold,
            Ghost(names),
        ),
        None => hash_locations.into_groups(),
    };

    // Turn each set of locations that share a hash into matches between distinct projects
    let pairs = pair_matches(&hash_locations, &document_hashes, &representatives_of);
    let named = name_pairs(&pairs, &document_hashes);

    let ghost grown = grown_pairs(views(named@), expand_matches, compared);
    let ghost enough = |p: ProjectPairView| p.matches.len() >= min_matches;
    let mut project_pairs: Vec<ProjectPair> = Vec::new();
    proof {
        assert(grown.take(0) =~= Seq::empty());
        assert(grown.take(0).filter(enough) =~= Seq::empty());
        assert(views(project_pairs@) =~= Seq::empty());
    }
    for pair in it: named
        invariant
            compared == documents_view(document_hashes@),
            grown == grown_pairs(views(it.seq()), expand_matches, compared),
            enough == |p: ProjectPairView| p.matches.len() >= min_matches,
            views(project_pairs@) == grown.take(it.index() as int).filter(enough),
    {
        let ghost i = it.index() as int;
        let ghost seen = pair@;
        proof {
            assert(views(it.seq())[i] == seen);
        }
        let p = if expand_matches {
            match_expansion::expand_matches(pair, &document_hashes)
        } else {
            pair
        };
        proof {
            assert(p@ == grown[i]);
            grown.take(i).lemma_filter_push(grown[i], enough);
            assert(grown.take(i + 1) =~= grown.take(i).push(grown[i]));
        }
        if p.matches.len() >= min_matches {
            let ghost before = project_pairs@;
            project_pairs.push(p);
            proof {
                assert(views(project_pairs@) =~= views(before).push(p@));
            }
        }
    }
    proof {
        assert(grown.take(grown.len() as int) =~= grown);
    }

    sort_output(&mut project_pairs);

    (project_pairs, warnings)
}

} // verus!
