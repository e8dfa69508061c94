use fungus::output::{Location, Match, ProjectPair, Warning, WarningType};
use fungus::sorting::{sort, sort_output};
use fungus::starter::{remove_ignored_documents, remove_spans_from_vec};
use fungus::{fingerprint_multiple, FileId};
use std::ops::Range;

#[test]
fn elements_in_any_span_are_removed() {
    let mut v = vec![0, 1, 2, 3, 4, 5, 6, 7, 8, 9];
    remove_spans_from_vec(&mut v, &[7..9, 1..3, 2..4]);
    assert_eq!(v, vec![0, 4, 5, 6, 9]);
}

#[test]
fn spans_may_be_empty_or_reach_past_the_end() {
    let mut v = vec!['a', 'b', 'c'];
    remove_spans_from_vec(&mut v, &[]);
    assert_eq!(v, vec!['a', 'b', 'c']);
    remove_spans_from_vec(&mut v, &[1..1, 5..9]);
    assert_eq!(v, vec!['a', 'b', 'c']);
    remove_spans_from_vec(&mut v, &[2..7]);
    assert_eq!(v, vec!['a', 'b']);
    remove_spans_from_vec(&mut v, &[0..2]);
    assert!(v.is_empty());
}

fn stream(text: &[u64]) -> Vec<(u64, Range<usize>)> {
    text.iter().enumerate().map(|(i, h)| (*h, i..i + 1)).collect()
}

#[test]
fn short_files_get_a_warning_in_place_of_a_fingerprint() {
    let documents = vec![
        (FileId::new("p".into(), "long".into()), stream(&[1, 2, 3, 4])),
        (FileId::new("p".into(), "short".into()), stream(&[1, 2])),
        (FileId::new("q".into(), "fits".into()), stream(&[5, 6, 7])),
    ];
    let (fingerprints, warnings) = fingerprint_multiple(&documents, 3, 3, 0);
    let files: Vec<usize> = fingerprints.iter().map(|(file, _)| *file).collect();
    assert_eq!(files, vec![0, 2]);
    assert_eq!(fingerprints[0].1.spanned_hashes.len(), 2);
    assert_eq!(fingerprints[1].1.spanned_hashes.len(), 1);
    assert_eq!(
        warnings,
        vec![Warning {
            file: Some("short".into()),
            message: "File could not be fingerprinted because it contains 2 tokens, which is less than the noise threshold of 3.".to_owned(),
            warn_type: WarningType::Fingerprint,
        }]
    );
}

#[test]
fn tokens_of_shared_kgrams_are_removed_up_to_their_last() {
    let mut documents = vec![
        (FileId::new("p".into(), "a".into()), stream(&[9, 1, 2, 3, 8, 7])),
        (FileId::new("q".into(), "b".into()), stream(&[1, 2])),
    ];
    let ignored = vec![
        (FileId::new("s".into(), "s".into()), stream(&[1, 2, 3])),
        (FileId::new("s".into(), "t".into()), stream(&[4])),
    ];
    let warnings = remove_ignored_documents(&mut documents, &ignored, 3, 0);
    assert_eq!(documents[0].1, vec![(9, 0..1), (8, 4..5), (7, 5..6)]);
    assert_eq!(documents[1].1, stream(&[1, 2]));
    assert_eq!(warnings.len(), 1);
    assert_eq!(warnings[0].file, Some("t".to_owned()));
}

fn found(file: &str, start: usize, other: usize) -> Match {
    Match {
        project_1_location: Location {
            file: file.into(),
            span: start..start + 3,
        },
        project_2_location: Location {
            file: "x".into(),
            span: other..other + 3,
        },
    }
}

#[test]
fn matches_that_tie_keep_their_order() {
    let mut matches = vec![
        found("b", 4, 0),
        found("a", 9, 1),
        found("b", 4, 2),
        found("a", 2, 3),
        found("b", 1, 4),
        found("b", 4, 5),
    ];
    sort(&mut matches);
    assert_eq!(
        matches,
        vec![
            found("a", 2, 3),
            found("a", 9, 1),
            found("b", 1, 4),
            found("b", 4, 0),
            found("b", 4, 2),
            found("b", 4, 5),
        ]
    );
}

#[test]
fn pairs_with_more_matches_come_first() {
    let pair = |one: &str, two: &str, matches: Vec<Match>| ProjectPair {
        project1: one.into(),
        project2: two.into(),
        matches,
    };
    let mut pairs = vec![
        pair("a", "b", vec![found("f", 5, 0)]),
        pair("a", "c", vec![found("g", 5, 0), found("f", 5, 0), found("f", 1, 0)]),
        pair("b", "c", vec![found("h", 5, 0)]),
        pair("c", "d", vec![found("k", 2, 0), found("k", 1, 0)]),
    ];
    sort_output(&mut pairs);
    assert_eq!(
        pairs,
        vec![
            pair("a", "c", vec![found("f", 1, 0), found("f", 5, 0), found("g", 5, 0)]),
            pair("c", "d", vec![found("k", 1, 0), found("k", 2, 0)]),
            pair("a", "b", vec![found("f", 5, 0)]),
            pair("b", "c", vec![found("h", 5, 0)]),
        ]
    );
}
