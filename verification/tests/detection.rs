use fungus::database::Fraction;
use fungus::lexing::TokenizingStrategy;
use fungus::output::{Location, Match, ProjectPair, Warning, WarningType};
use fungus::{detect_plagiarism, File};

#[test]
fn simple_sentences() {
    let file3 = File::new("P1".into(), "C:/P1/file1.txt".into(), "aaa".to_owned());
    let file1 = File::new(
        "P1".into(),
        "C:/P1/file2.txt".into(),
        "aaabbbzyxaaa123ccc".to_owned(),
    );
    let file2 = File::new("P2".into(), "C:/P2/file.txt".into(), "bbbaaaccc".to_owned());
    let file4 = File::new("P3".into(), "C:/P3/file.txt".into(), "acb".to_owned());

    let documents = vec![file1, file2, file3, file4];
    let (matches, warnings) = detect_plagiarism(
        3,
        3,
        0,
        TokenizingStrategy::Bytes,
        false,
        false,
        0,
        None,
        &documents,
        &[],
    );

    assert!(warnings.is_empty());
    assert_eq!(
        matches,
        vec![ProjectPair {
            project1: "P1".into(),
            project2: "P2".into(),
            matches: vec![
                Match {
                    project_1_location: Location {
                        file: "C:/P1/file1.txt".into(),
                        span: 0..3
                    },
                    project_2_location: Location {
                        file: "C:/P2/file.txt".into(),
                        span: 3..6
                    }
                },
                Match {
                    project_1_location: Location {
                        file: "C:/P1/file2.txt".into(),
                        span: 0..3
                    },
                    project_2_location: Location {
                        file: "C:/P2/file.txt".into(),
                        span: 3..6
                    }
                },
                Match {
                    project_1_location: Location {
                        file: "C:/P1/file2.txt".into(),
                        span: 3..6
                    },
                    project_2_location: Location {
                        file: "C:/P2/file.txt".into(),
                        span: 0..3,
                    },
                },
                Match {
                    project_1_location: Location {
                        file: "C:/P1/file2.txt".into(),
                        span: 9..12
                    },
                    project_2_location: Location {
                        file: "C:/P2/file.txt".into(),
                        span: 3..6
                    }
                },
                Match {
                    project_1_location: Location {
                        file: "C:/P1/file2.txt".into(),
                        span: 15..18,
                    },
                    project_2_location: Location {
                        file: "C:/P2/file.txt".into(),
                        span: 6..9
                    },
                }
            ]
        }]
    );
}

#[test]
fn small_files() {
    let file = File::new("Project".into(), "File".into(), "Hello there!".to_owned());
    let ignored_file = File::new(
        "Ignored Project".into(),
        "Ignored File".into(),
        "Contents".to_owned(),
    );
    let noise = 1000;
    let guarantee = 1500;

    let (project_pairs, warnings) = detect_plagiarism(
        noise,
        guarantee,
        0,
        TokenizingStrategy::Bytes,
        false,
        false,
        5,
        None,
        &[file.to_owned()],
        &[ignored_file.to_owned()],
    );

    assert!(project_pairs.is_empty());
    assert_eq!(
        warnings,
        vec![
            Warning {
                file: Some("Ignored File".into()),
                message: format!("File could not be fingerprinted because it contains {} tokens, which is less than the noise threshold of {}.", &ignored_file.contents.len(), noise),
                warn_type: WarningType::Fingerprint,
            },
            Warning {
                file: Some("File".into()),
                message: format!("File could not be fingerprinted because it contains {} tokens, which is less than the noise threshold of {}.", &file.contents.len(), noise),
                warn_type: WarningType::Fingerprint,
            },
        ]
    );
}

#[test]
fn ignored_files() {
    let noise = 3;
    let guarantee = 3;
    let files = vec![
        File {
            project: "Project 1".into(),
            path: "File 1".into(),
            contents: "aaabbbccc".to_owned(),
        },
        File {
            project: "Project 2".into(),
            path: "File 2".into(),
            contents: "cccxyzaaa".to_owned(),
        },
    ];
    let ignored_files = vec![File {
        project: "Starter Code".into(),
        path: "Starter Code".into(),
        contents: "aaa".to_owned(),
    }];
    let (project_pairs, warnings) = detect_plagiarism(
        noise,
        guarantee,
        0,
        TokenizingStrategy::Bytes,
        false,
        false,
        0,
        None,
        &files,
        &ignored_files,
    );

    assert!(warnings.is_empty());
    assert_eq!(
        project_pairs,
        vec![ProjectPair {
            project1: "Project 1".into(),
            project2: "Project 2".into(),
            matches: vec![Match {
                project_1_location: Location {
                    file: "File 1".into(),
                    span: 6..9
                },
                project_2_location: Location {
                    file: "File 2".into(),
                    span: 0..3
                }
            }]
        }]
    );
}

#[test]
fn common_hashes() {
    let noise = 3;
    let guarantee = 3;
    let files = vec![
        File {
            project: "Project 1".into(),
            path: "File 1".into(),
            contents: "aaabbbccc".to_owned(),
        },
        File {
            project: "Project 2".into(),
            path: "File 2".into(),
            contents: "cccxyzaaa".to_owned(),
        },
        File {
            project: "Project 3".into(),
            path: "File 3".into(),
            contents: "aaa".to_owned(),
        },
        File {
            project: "Project 4".into(),
            path: "File 4".into(),
            contents: "111".to_owned(),
        },
    ];
    // 0.75 as a fraction
    let (project_pairs, warnings) = detect_plagiarism(
        noise,
        guarantee,
        0,
        TokenizingStrategy::Bytes,
        false,
        false,
        0,
        Some(Fraction {
            numerator: 3,
            denominator: 4,
        }),
        &files,
        &[],
    );

    assert!(warnings.is_empty());
    assert_eq!(
        project_pairs,
        vec![ProjectPair {
            project1: "Project 1".into(),
            project2: "Project 2".into(),
            matches: vec![Match {
                project_1_location: Location {
                    file: "File 1".into(),
                    span: 6..9
                },
                project_2_location: Location {
                    file: "File 2".into(),
                    span: 0..3
                }
            }]
        }]
    );
}

#[test]
fn limited_relative_offsets() {
    let noise = 8;
    let guarantee = 12;
    let max_token_offset = 4;
    let files = vec![
        File {
            project: "Project 1".into(),
            path: "File 1".into(),
            // The 2nd r1 has an offset of 14
            contents: "mov r1, sp\nfoo\nbar\nsub r0, r2, r0\nadd r0, r1, r2".to_owned(),
        },
        File {
            project: "Project 2".into(),
            path: "File 2".into(),
            // The 2nd r1 has an offset of 12 (different from File 1!)
            contents: "baz\nwaldo\nmov r1, sp\nsub r0, r2, r0\nadd r0, r1, r2".to_owned(),
        },
    ];
    let (project_pairs, warnings) = detect_plagiarism(
        noise,
        guarantee,
        max_token_offset,
        TokenizingStrategy::Relative,
        true,
        true,
        0,
        None,
        &files,
        &[],
    );

    assert!(warnings.is_empty());
    assert_eq!(
        project_pairs,
        vec![ProjectPair {
            project1: "Project 1".into(),
            project2: "Project 2".into(),
            matches: vec![Match {
                project_1_location: Location {
                    file: "File 1".into(),
                    span: 19..48
                },
                project_2_location: Location {
                    file: "File 2".into(),
                    span: 21..50
                }
            }]
        }]
    )
}

fn byte_files(contents: &[(&str, &str, &str)]) -> Vec<File> {
    contents
        .iter()
        .map(|(project, path, text)| File::new((*project).into(), (*path).into(), (*text).to_owned()))
        .collect()
}

#[test]
fn pairs_with_too_few_matches_are_dropped() {
    let files = byte_files(&[
        ("A", "a", "abcdefgh"),
        ("B", "b", "abcdefgh"),
        ("C", "c", "xyzabcuvw"),
    ]);
    let (all, _) = detect_plagiarism(3, 3, 0, TokenizingStrategy::Bytes, false, false, 0, None, &files, &[]);
    let counts: Vec<(String, String, usize)> = all
        .iter()
        .map(|p| (p.project1.clone(), p.project2.clone(), p.matches.len()))
        .collect();
    assert_eq!(
        counts,
        vec![
            ("A".to_owned(), "B".to_owned(), 6),
            ("A".to_owned(), "C".to_owned(), 1),
            ("B".to_owned(), "C".to_owned(), 1)
        ]
    );
    let (some, _) = detect_plagiarism(3, 3, 0, TokenizingStrategy::Bytes, false, false, 2, None, &files, &[]);
    assert_eq!(some.len(), 1);
    assert_eq!(some[0].matches.len(), 6);
}

#[test]
fn pairs_come_by_falling_number_of_matches_and_matches_by_file_and_start() {
    let files = byte_files(&[
        ("A", "z", "abcd"),
        ("A", "y", "uvwxyz"),
        ("B", "b", "abcd"),
        ("C", "c", "uvwxyz--abcd"),
    ]);
    let (pairs, _) = detect_plagiarism(3, 3, 0, TokenizingStrategy::Bytes, false, false, 0, None, &files, &[]);
    let counts: Vec<usize> = pairs.iter().map(|p| p.matches.len()).collect();
    assert_eq!(counts, vec![6, 2, 2]);
    assert_eq!(pairs[0].project1, "A");
    assert_eq!(pairs[0].project2, "C");
    let places: Vec<(String, usize)> = pairs[0]
        .matches
        .iter()
        .map(|m| (m.project_1_location.file.clone(), m.project_1_location.span.start))
        .collect();
    assert_eq!(
        places,
        vec![
            ("y".to_owned(), 0),
            ("y".to_owned(), 1),
            ("y".to_owned(), 2),
            ("y".to_owned(), 3),
            ("z".to_owned(), 0),
            ("z".to_owned(), 1)
        ]
    );
}

#[test]
fn swapping_the_projects_swaps_the_places_of_every_match() {
    let one = byte_files(&[("A", "f", "hello world"), ("B", "g", "say hello")]);
    let other = byte_files(&[("B", "f", "hello world"), ("A", "g", "say hello")]);
    let (first, _) = detect_plagiarism(3, 3, 0, TokenizingStrategy::Bytes, false, false, 0, None, &one, &[]);
    let (second, _) = detect_plagiarism(3, 3, 0, TokenizingStrategy::Bytes, false, false, 0, None, &other, &[]);
    assert_eq!(first.len(), 1);
    assert_eq!(second.len(), 1);
    assert_eq!(first[0].project1, "A");
    assert_eq!(second[0].project1, "A");
    let mut swapped: Vec<Match> = second[0]
        .matches
        .iter()
        .map(|m| Match {
            project_1_location: Location {
                file: m.project_2_location.file.clone(),
                span: m.project_2_location.span.clone(),
            },
            project_2_location: Location {
                file: m.project_1_location.file.clone(),
                span: m.project_1_location.span.clone(),
            },
        })
        .collect();
    swapped.sort_by_key(|m| m.project_1_location.span.start);
    assert_eq!(first[0].matches, swapped);
}

#[test]
fn files_of_one_project_are_not_matched() {
    let files = byte_files(&[("A", "f", "hello world"), ("A", "g", "hello world")]);
    let (pairs, warnings) = detect_plagiarism(3, 3, 0, TokenizingStrategy::Bytes, false, false, 0, None, &files, &[]);
    assert!(pairs.is_empty());
    assert!(warnings.is_empty());
}

#[test]
fn the_same_input_gives_the_same_output() {
    let files = byte_files(&[
        ("A", "f", "mov r0, r1\nadd r0, r0, #1\n"),
        ("B", "g", "mov r4, r5\nadd r4, r4, #1\n"),
        ("C", "h", "add r0, r0, #1\nmov r0, r1\n"),
    ]);
    let run = || detect_plagiarism(4, 8, 3, TokenizingStrategy::Relative, true, true, 0, None, &files, &[]);
    let (first, first_warnings) = run();
    let (second, second_warnings) = run();
    assert!(!first.is_empty());
    assert_eq!(first, second);
    assert_eq!(first_warnings, second_warnings);
}

#[test]
fn files_without_a_common_run_of_noise_length_do_not_match() {
    let files = byte_files(&[("A", "f", "abXcdYefZ"), ("B", "g", "ab-cd-ef-")]);
    let (pairs, _) = detect_plagiarism(3, 3, 0, TokenizingStrategy::Bytes, false, false, 0, None, &files, &[]);
    assert!(pairs.is_empty());
}

#[test]
fn a_common_run_of_guarantee_length_is_found() {
    let files = byte_files(&[
        ("A", "f", "0123456789 the quick brown fox"),
        ("B", "g", "the quick brown fox jumps over"),
    ]);
    let (pairs, _) = detect_plagiarism(4, 12, 0, TokenizingStrategy::Bytes, false, false, 0, None, &files, &[]);
    assert_eq!(pairs.len(), 1);
    assert!(!pairs[0].matches.is_empty());
}

#[test]
fn grown_matches_hold_the_matches_they_grew_from() {
    let files = byte_files(&[
        ("A", "f", "0123456789 the quick brown fox"),
        ("B", "g", "the quick brown fox jumps over"),
    ]);
    let (seeds, _) = detect_plagiarism(4, 12, 0, TokenizingStrategy::Bytes, false, false, 0, None, &files, &[]);
    let (grown, _) = detect_plagiarism(4, 12, 0, TokenizingStrategy::Bytes, false, true, 0, None, &files, &[]);
    assert_eq!(
        grown[0].matches,
        vec![Match {
            project_1_location: Location {
                file: "f".into(),
                span: 11..30
            },
            project_2_location: Location {
                file: "g".into(),
                span: 0..19
            }
        }]
    );
    for seed in seeds[0].matches.iter() {
        assert!(11 <= seed.project_1_location.span.start);
        assert!(seed.project_1_location.span.end <= 30);
        assert!(seed.project_2_location.span.end <= 19);
    }
}

#[test]
fn naive_tokens_ignore_spacing_and_case_where_asked() {
    let files = byte_files(&[
        ("A", "f", "MOV r0, r1 @ copy\n\tADD r0, r0, #1\n"),
        ("B", "g", "mov   r0,r1\nadd r0,r0,#1 // bump\n"),
    ]);
    let (pairs, warnings) = detect_plagiarism(5, 5, 0, TokenizingStrategy::Naive, true, true, 0, None, &files, &[]);
    assert!(warnings.is_empty());
    assert_eq!(
        pairs,
        vec![ProjectPair {
            project1: "A".into(),
            project2: "B".into(),
            matches: vec![Match {
                project_1_location: Location {
                    file: "f".into(),
                    span: 0..33
                },
                project_2_location: Location {
                    file: "g".into(),
                    span: 0..24
                }
            }]
        }]
    );
    let (strict, _) = detect_plagiarism(5, 5, 0, TokenizingStrategy::Naive, false, true, 0, None, &files, &[]);
    assert!(strict.is_empty());
}

#[test]
fn starter_code_is_taken_out_token_by_token() {
    // with a noise threshold of 1 the tokens of the starter code go one by one
    let files = byte_files(&[("A", "f", "xay"), ("B", "g", "zaw")]);
    let ignored = byte_files(&[("S", "s", "a")]);
    let (with, _) = detect_plagiarism(1, 1, 0, TokenizingStrategy::Bytes, false, false, 0, None, &files, &[]);
    assert_eq!(with.len(), 1);
    let (without, _) = detect_plagiarism(1, 1, 0, TokenizingStrategy::Bytes, false, false, 0, None, &files, &ignored);
    assert!(without.is_empty());
}

#[test]
fn hashes_of_all_projects_are_common_at_a_threshold_of_one() {
    let files = byte_files(&[("A", "f", "abcxyz"), ("B", "g", "abcuvw"), ("C", "h", "abc---")]);
    let all = Some(Fraction {
        numerator: 1,
        denominator: 1,
    });
    let (pairs, _) = detect_plagiarism(3, 3, 0, TokenizingStrategy::Bytes, false, false, 0, all, &files, &[]);
    assert!(pairs.is_empty());
    let (kept, _) = detect_plagiarism(3, 3, 0, TokenizingStrategy::Bytes, false, false, 0, None, &files, &[]);
    assert_eq!(kept.len(), 3);
}
