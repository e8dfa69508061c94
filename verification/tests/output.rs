use fungus::output::{Location, Match, Output, ProjectPair, Warning, WarningType};
use fungus::paths::{make_path_relative_to, PathError};

#[test]
fn warnings_are_told_in_words() {
    let about_a_file = Warning {
        file: Some("a/b.s".to_owned()),
        message: "too short".to_owned(),
        warn_type: WarningType::Fingerprint,
    };
    assert_eq!(
        about_a_file.describe(),
        "Fingerprint error in \"a/b.s\":\n  too short"
    );
    let general = Warning {
        file: None,
        message: "odd".to_owned(),
        warn_type: WarningType::Args,
    };
    assert_eq!(general.describe(), "Args error:\n  odd");
    let input = Warning {
        file: None,
        message: "gone".to_owned(),
        warn_type: WarningType::Input,
    };
    assert_eq!(input.describe(), "Input error:\n  gone");
}

#[test]
fn paths_below_the_root_lose_the_root() {
    assert_eq!(
        make_path_relative_to("/home/p/a/b.s", "/home/p"),
        Ok("a/b.s".to_owned())
    );
    assert_eq!(
        make_path_relative_to("/home/p/a/b.s", "/home/p//"),
        Ok("a/b.s".to_owned())
    );
    assert_eq!(make_path_relative_to("/home/p", "/home/p"), Ok("".to_owned()));
    assert_eq!(make_path_relative_to("/a", "/"), Ok("a".to_owned()));
    assert_eq!(
        make_path_relative_to("/home/p/\u{e9}t\u{e9}.s", "/home/p"),
        Ok("\u{e9}t\u{e9}.s".to_owned())
    );
}

#[test]
fn paths_elsewhere_are_an_error() {
    let error = PathError {
        path: "/home/pq/a".to_owned(),
        root: "/home/p".to_owned(),
    };
    assert_eq!(make_path_relative_to("/home/pq/a", "/home/p"), Err(error));
    assert!(make_path_relative_to("/home", "/home/p").is_err());
    assert!(make_path_relative_to("/other/p/a", "/home/p").is_err());
}

fn sample_output() -> Output {
    Output::new(
        vec![
            Warning {
                file: Some("/r/p1/short.s".to_owned()),
                message: "m".to_owned(),
                warn_type: WarningType::Fingerprint,
            },
            Warning {
                file: None,
                message: "n".to_owned(),
                warn_type: WarningType::Args,
            },
        ],
        vec![ProjectPair {
            project1: "/r/p1".to_owned(),
            project2: "/r/p2".to_owned(),
            matches: vec![Match {
                project_1_location: Location {
                    file: "/r/p1/a.s".to_owned(),
                    span: 1..5,
                },
                project_2_location: Location {
                    file: "/r/p2/sub/b.s".to_owned(),
                    span: 7..11,
                },
            }],
        }],
    )
}

#[test]
fn all_paths_of_an_output_are_made_relative() {
    let mut output = sample_output();
    assert_eq!(output.make_paths_relative_to("/r"), Ok(()));
    assert_eq!(output.warnings[0].file, Some("p1/short.s".to_owned()));
    assert_eq!(output.warnings[1].file, None);
    assert_eq!(
        output.project_pairs,
        vec![ProjectPair {
            project1: "p1".to_owned(),
            project2: "p2".to_owned(),
            matches: vec![Match {
                project_1_location: Location {
                    file: "p1/a.s".to_owned(),
                    span: 1..5,
                },
                project_2_location: Location {
                    file: "p2/sub/b.s".to_owned(),
                    span: 7..11,
                },
            }],
        }]
    );
}

#[test]
fn a_path_outside_the_root_fails_the_whole_output() {
    let mut output = sample_output();
    assert!(output.make_paths_relative_to("/r/p1").is_err());
}
