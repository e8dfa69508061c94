use fungus::lexing::relative::lex;
use fungus::lexing::relative::Token;
use fungus::lexing::relative::Token::{
    Colon, Comma, FloatingPoint, KeySymbol, Newline, RelativeSymbol, Whitespace,
};

#[test]
fn relative_test_registers() {
    let tokens = lex("add sP");
    assert_eq!(
        tokens,
        vec![
            (KeySymbol("add".to_owned()), 0..3),
            (Whitespace, 3..4),
            (RelativeSymbol(0), 4..6)
        ]
    );
}

#[test]
fn relative_test_whitespace() {
    assert_eq!(
        lex(" \u{a0}\n\t "),
        vec![(Whitespace, 0..3), (Newline, 3..4), (Whitespace, 4..6)]
    )
}

#[test]
fn relative_test_instruction() {
    assert_eq!(lex("add"), vec![(KeySymbol("add".to_owned()), 0..3)]);
    assert_eq!(lex("addne"), vec![(KeySymbol("addne".to_owned()), 0..5)]);
    assert_eq!(
        lex("YIELDS R0"),
        vec![
            (KeySymbol("yields".to_owned()), 0..6),
            (Whitespace, 6..7),
            (RelativeSymbol(0), 7..9)
        ]
    );
}

fn relative_single_float(text: &str) -> (f64, std::ops::Range<usize>) {
    let tokens = lex(text);
    assert_eq!(tokens.len(), 1);
    match &tokens[0] {
        (FloatingPoint(literal), span) => (literal.parse().unwrap(), span.clone()),
        (other, _) => panic!("{:?} is no floating-point number", other),
    }
}

#[test]
fn relative_test_float() {
    assert_eq!(relative_single_float("0e0"), (0.0, 0..3));
    assert_eq!(relative_single_float("0e+1"), (1.0, 0..4));
    assert_eq!(relative_single_float("0e-1"), (-1.0, 0..4));
    assert_eq!(relative_single_float("0e1e-1"), (0.1, 0..6));
    assert_eq!(relative_single_float("0e-1.45"), (-1.45, 0..7));
    assert_eq!(relative_single_float("0e-1.45e+2"), (-1.45e2, 0..10));
}

#[test]
fn relative_test_directives() {
    assert_eq!(
        lex(".word;.WORD;\".word\";\".WORD\""),
        vec![
            (KeySymbol(".word".to_owned()), 0..5),
            (Newline, 5..6),
            (KeySymbol(".word".to_owned()), 6..11),
            (Newline, 11..12),
            (KeySymbol(".word".to_owned()), 12..19),
            (Newline, 19..20),
            (KeySymbol(".word".to_owned()), 20..27),
        ]
    )
}

#[test]
fn relative_symbols() {
    assert_eq!(
        lex("r1: r1: r1 r1, r1;; add r0, r1"),
        vec![
            (RelativeSymbol(0), 0..2),
            (Colon, 2..3),
            (Whitespace, 3..4),
            (RelativeSymbol(3), 4..6),
            (Colon, 6..7),
            (Whitespace, 7..8),
            (KeySymbol("r1".to_owned()), 8..10),
            (Whitespace, 10..11),
            (RelativeSymbol(5), 11..13),
            (Comma, 13..14),
            (Whitespace, 14..15),
            (RelativeSymbol(3), 15..17),
            (Newline, 17..18),
            (Newline, 18..19),
            (Whitespace, 19..20),
            (KeySymbol("add".to_owned()), 20..23),
            (Whitespace, 23..24),
            (RelativeSymbol(0), 24..26),
            (Comma, 26..27),
            (Whitespace, 27..28),
            (RelativeSymbol(9), 28..30),
        ]
    )
}

#[test]
fn relative_test_windows_carriage_return_handling() {
    assert_eq!(
        lex("\r\n\n \r\r"),
        vec![
            (Newline, 0..2),
            (Newline, 2..3),
            (Whitespace, 3..4),
            (Newline, 4..5),
            (Newline, 5..6),
        ]
    )
}

#[test]
fn key_symbols_are_not_counted_as_uses() {
    // the second `add` is a key symbol again, the third a first use
    assert_eq!(
        lex("add\nadd add"),
        vec![
            (KeySymbol("add".to_owned()), 0..3),
            (Newline, 3..4),
            (KeySymbol("add".to_owned()), 4..7),
            (Whitespace, 7..8),
            (RelativeSymbol(0), 8..11),
        ]
    );
}

#[test]
fn renaming_symbols_changes_nothing() {
    let plain: Vec<Token> = lex("loop: add r0, r1\n b loop")
        .into_iter()
        .map(|(t, _)| t)
        .collect();
    let renamed: Vec<Token> = lex("next: add r7, r9\n b next")
        .into_iter()
        .map(|(t, _)| t)
        .collect();
    assert_eq!(plain, renamed);
}
