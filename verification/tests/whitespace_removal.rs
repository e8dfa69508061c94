use fungus::lexing::preprocessing::whitespace_removal::{
    remove_whitespace_naive, remove_whitespace_relative,
};
use fungus::lexing::naive::Token as NaiveToken;
use fungus::lexing::relative::Token as RelativeToken;

#[test]
fn remove_whitespace_relative_works() {
    let original_tokens = vec![
        (RelativeToken::RelativeSymbol(0), 0..2),
        (RelativeToken::Comma, 2..3),
        (RelativeToken::Whitespace, 3..4),
        (RelativeToken::RelativeSymbol(3), 4..6),
        (RelativeToken::RelativeSymbol(1), 6..8),
        (RelativeToken::Comment("test"), 8..9),
        (RelativeToken::Newline, 9..10),
        (RelativeToken::RelativeSymbol(0), 10..12),
        (RelativeToken::RelativeSymbol(4), 12..14),
    ];
    let expected_tokens = vec![
        (RelativeToken::RelativeSymbol(0), 0..2),
        (RelativeToken::Comma, 2..3),
        (RelativeToken::RelativeSymbol(2), 4..6),
        (RelativeToken::RelativeSymbol(1), 6..8),
        (RelativeToken::RelativeSymbol(0), 10..12),
        (RelativeToken::RelativeSymbol(2), 12..14),
    ];
    let actual_tokens = remove_whitespace_relative(original_tokens);
    assert_eq!(actual_tokens, expected_tokens);
}

#[test]
fn remove_whitespace_naive_works() {
    let original_tokens = vec![
        (NaiveToken::Symbol("test".to_owned()), 0..4),
        (NaiveToken::Whitespace, 4..5),
        (NaiveToken::Newline, 5..6),
        (NaiveToken::Comment("test"), 6..7),
        (NaiveToken::Symbol("test".to_owned()), 7..11),
    ];
    let expected_tokens = vec![
        (NaiveToken::Symbol("test".to_owned()), 0..4),
        (NaiveToken::Symbol("test".to_owned()), 7..11),
    ];
    let actual_tokens = remove_whitespace_naive(original_tokens);
    assert_eq!(actual_tokens, expected_tokens);
}

#[test]
fn offset_that_reaches_past_the_start_counts_all_removed_tokens() {
    let tokens = vec![
        (RelativeToken::Whitespace, 0..1),
        (RelativeToken::Newline, 1..2),
        (RelativeToken::RelativeSymbol(9), 2..4),
    ];
    let kept = remove_whitespace_relative(tokens);
    assert_eq!(kept, vec![(RelativeToken::RelativeSymbol(7), 2..4)]);
}

#[test]
fn offset_of_one_is_left_alone() {
    let tokens = vec![
        (RelativeToken::Whitespace, 0..1),
        (RelativeToken::RelativeSymbol(1), 1..3),
    ];
    let kept = remove_whitespace_relative(tokens);
    assert_eq!(kept, vec![(RelativeToken::RelativeSymbol(1), 1..3)]);
}
