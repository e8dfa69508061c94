use fungus::match_expansion::expand_matches;
use fungus::output::{Location, Match, ProjectPair};
use fungus::FileId;
use std::ops::Range;

#[test]
fn expands_incomplete_matches() {
    let document_hashes: Vec<(FileId, Vec<(u64, Range<usize>)>)> = Vec::from([
        (
            FileId::new("p1".into(), "f1".into()),
            vec![(1, 0..1), (2, 1..2), (3, 2..3)],
        ),
        (
            FileId::new("p2".into(), "f2".into()),
            vec![(1, 0..1), (2, 1..2), (3, 2..3)],
        ),
    ]);

    let project_pair = ProjectPair {
        project1: "p1".into(),
        project2: "p2".into(),
        matches: vec![Match {
            project_1_location: Location {
                file: "f1".into(),
                span: 1..2,
            },
            project_2_location: Location {
                file: "f2".into(),
                span: 1..2,
            },
        }],
    };

    assert_eq!(
        expand_matches(project_pair, &document_hashes),
        ProjectPair {
            project1: "p1".into(),
            project2: "p2".into(),
            matches: vec![Match {
                project_1_location: Location {
                    file: "f1".into(),
                    span: 0..3,
                },
                project_2_location: Location {
                    file: "f2".into(),
                    span: 0..3,
                },
            },]
        }
    );
}

#[test]
fn does_not_expand_complete_matches() {
    let document_hashes: Vec<(FileId, Vec<(u64, Range<usize>)>)> = Vec::from([
        (
            FileId::new("p1".into(), "f1".into()),
            vec![(1, 0..1), (2, 1..2), (3, 2..3)],
        ),
        (
            FileId::new("p2".into(), "f2".into()),
            vec![(3, 0..1), (2, 1..2), (1, 2..3)],
        ),
    ]);

    let project_pair = ProjectPair {
        project1: "p1".into(),
        project2: "p2".into(),
        matches: vec![Match {
            project_1_location: Location {
                file: "f1".into(),
                span: 1..2,
            },
            project_2_location: Location {
                file: "f2".into(),
                span: 1..2,
            },
        }],
    };

    assert_eq!(
        expand_matches(project_pair, &document_hashes),
        ProjectPair {
            project1: "p1".into(),
            project2: "p2".into(),
            matches: vec![Match {
                project_1_location: Location {
                    file: "f1".into(),
                    span: 1..2,
                },
                project_2_location: Location {
                    file: "f2".into(),
                    span: 1..2,
                },
            },]
        }
    );
}

#[test]
fn matches_that_grow_into_the_same_are_kept_once() {
    let tokens = vec![(5, 0..1), (1, 1..2), (2, 2..3), (3, 3..4), (6, 4..5)];
    let other = vec![(7, 0..2), (1, 2..4), (2, 4..6), (3, 6..8)];
    let document_hashes: Vec<(FileId, Vec<(u64, Range<usize>)>)> = Vec::from([
        (FileId::new("p1".into(), "f1".into()), tokens),
        (FileId::new("p2".into(), "f2".into()), other),
    ]);
    let seed = |one: Range<usize>, two: Range<usize>| Match {
        project_1_location: Location {
            file: "f1".into(),
            span: one,
        },
        project_2_location: Location {
            file: "f2".into(),
            span: two,
        },
    };
    let project_pair = ProjectPair {
        project1: "p1".into(),
        project2: "p2".into(),
        matches: vec![seed(1..3, 2..6), seed(2..4, 4..8), seed(2..3, 4..6)],
    };
    assert_eq!(
        expand_matches(project_pair, &document_hashes).matches,
        vec![seed(1..4, 2..8)]
    );
}

#[test]
fn matches_that_cannot_be_found_are_left_as_they_are() {
    let document_hashes: Vec<(FileId, Vec<(u64, Range<usize>)>)> = Vec::from([
        (
            FileId::new("p1".into(), "f1".into()),
            vec![(1, 0..1), (2, 1..2)],
        ),
        (
            FileId::new("p2".into(), "f2".into()),
            vec![(1, 0..1), (2, 1..2)],
        ),
    ]);
    let odd = |file: &str, span: Range<usize>| Match {
        project_1_location: Location {
            file: file.into(),
            span,
        },
        project_2_location: Location {
            file: "f2".into(),
            span: 0..1,
        },
    };
    let project_pair = ProjectPair {
        project1: "p1".into(),
        project2: "p2".into(),
        matches: vec![odd("elsewhere", 0..1), odd("f1", 5..6), odd("f1", 0..7)],
    };
    assert_eq!(
        expand_matches(project_pair, &document_hashes).matches,
        vec![odd("elsewhere", 0..1), odd("f1", 5..6), odd("f1", 0..7)]
    );
}
