use fungus::lexing::naive::lex;
use fungus::lexing::naive::Token;
use fungus::lexing::naive::Token::{
    BitwiseOrNot, Character, Colon, Comma, Comment, Divide, Equals, Error, FloatingPoint,
    Integer, LBracket, Label, LessThan, LogicalAnd, Minus, Multiply, Newline, NotEquals, RBracket,
    ShiftLeft, Symbol, Whitespace,
};

#[test]
fn naive_test_registers() {
    // Registers are symbols like any other.
    let tokens = lex("R1 sP");
    assert_eq!(
        tokens,
        vec![
            (Symbol("r1".to_owned()), 0..2),
            (Whitespace, 2..3),
            (Symbol("sp".to_owned()), 3..5)
        ]
    );
}

#[test]
fn naive_test_whitespace() {
    assert_eq!(
        lex(" \u{a0}\n\t "),
        vec![(Whitespace, 0..3), (Newline, 3..4), (Whitespace, 4..6)]
    )
}

#[test]
fn naive_test_instruction() {
    assert_eq!(lex("add"), vec![(Symbol("add".to_owned()), 0..3)]);
    assert_eq!(lex("addne"), vec![(Symbol("addne".to_owned()), 0..5)]);
    assert_eq!(
        lex("YIELDS R0"),
        vec![
            (Symbol("yields".to_owned()), 0..6),
            (Whitespace, 6..7),
            (Symbol("r0".to_owned()), 7..9)
        ]
    );
}

fn float_of(token: &Token) -> f64 {
    match token {
        FloatingPoint(text) => text.parse().unwrap(),
        other => panic!("{:?} is no floating-point number", other),
    }
}

fn single_float(text: &str) -> (f64, std::ops::Range<usize>) {
    let tokens = lex(text);
    assert_eq!(tokens.len(), 1);
    (float_of(&tokens[0].0), tokens[0].1.clone())
}

#[test]
fn naive_test_float() {
    assert_eq!(single_float("0e0"), (0.0, 0..3));
    assert_eq!(single_float("0e+1"), (1.0, 0..4));
    assert_eq!(single_float("0e-1"), (-1.0, 0..4));
    assert_eq!(single_float("0e1e-1"), (0.1, 0..6));
    assert_eq!(single_float("0e-1.45"), (-1.45, 0..7));
    assert_eq!(single_float("0e-1.45e+2"), (-1.45e2, 0..10));
}

#[test]
fn float_holds_its_text_in_lower_case() {
    assert_eq!(
        lex("0E-1.45E+2"),
        vec![(FloatingPoint("-1.45e+2".to_owned()), 0..10)]
    );
}

#[test]
fn float_without_digits_is_zero_and_a_symbol() {
    assert_eq!(
        lex("0e"),
        vec![(Integer(0), 0..1), (Symbol("e".to_owned()), 1..2)]
    );
    assert_eq!(
        lex("0e+"),
        vec![
            (Integer(0), 0..1),
            (Symbol("e".to_owned()), 1..2),
            (Token::Plus, 2..3)
        ]
    );
}

#[test]
fn test_labels() {
    assert_eq!(
        lex("main: MAIN: \"main\": \"MAIN\":"),
        vec![
            (Label("main".to_owned()), 0..5),
            (Whitespace, 5..6),
            (Label("main".to_owned()), 6..11),
            (Whitespace, 11..12),
            (Label("main".to_owned()), 12..19),
            (Whitespace, 19..20),
            (Label("main".to_owned()), 20..27),
        ]
    )
}

#[test]
fn naive_test_directives() {
    assert_eq!(
        lex(".word .WORD \".word\" \".WORD\""),
        vec![
            (Symbol(".word".to_owned()), 0..5),
            (Whitespace, 5..6),
            (Symbol(".word".to_owned()), 6..11),
            (Whitespace, 11..12),
            (Symbol(".word".to_owned()), 12..19),
            (Whitespace, 19..20),
            (Symbol(".word".to_owned()), 20..27),
        ]
    )
}

#[test]
fn naive_test_windows_carriage_return_handling() {
    assert_eq!(
        lex("\r\n\n \r\r"),
        vec![
            (Newline, 0..2),
            (Newline, 2..3),
            (Whitespace, 3..4),
            (Newline, 4..5),
            (Newline, 5..6),
        ]
    )
}

#[test]
fn integers_of_every_base() {
    assert_eq!(lex("0b101"), vec![(Integer(5), 0..5)]);
    assert_eq!(lex("0B11"), vec![(Integer(3), 0..4)]);
    assert_eq!(lex("017"), vec![(Integer(15), 0..3)]);
    assert_eq!(lex("0"), vec![(Integer(0), 0..1)]);
    assert_eq!(lex("1234"), vec![(Integer(1234), 0..4)]);
    assert_eq!(lex("0x1F"), vec![(Integer(31), 0..4)]);
    assert_eq!(lex("0Xff"), vec![(Integer(255), 0..4)]);
    assert_eq!(
        lex("9223372036854775807"),
        vec![(Integer(i64::MAX), 0..19)]
    );
}

#[test]
fn integers_end_where_their_digits_end() {
    assert_eq!(lex("08"), vec![(Integer(0), 0..1), (Integer(8), 1..2)]);
    assert_eq!(
        lex("0b2"),
        vec![(Integer(0), 0..1), (Symbol("b2".to_owned()), 1..3)]
    );
    assert_eq!(
        lex("0x"),
        vec![(Integer(0), 0..1), (Symbol("x".to_owned()), 1..2)]
    );
    assert_eq!(
        lex("12ab"),
        vec![(Integer(12), 0..2), (Symbol("ab".to_owned()), 2..4)]
    );
}

#[test]
fn integer_too_large_is_an_error() {
    assert_eq!(lex("9223372036854775808"), vec![(Error, 0..19)]);
    assert_eq!(lex("0xffffffffffffffff"), vec![(Error, 0..18)]);
}

#[test]
fn comments_hold_their_body() {
    assert_eq!(lex("/* a */"), vec![(Comment(" a "), 0..7)]);
    assert_eq!(lex("/***/"), vec![(Comment("*"), 0..5)]);
    assert_eq!(lex("/**/x"), vec![(Comment(""), 0..4), (Symbol("x".to_owned()), 4..5)]);
    assert_eq!(
        lex("// a\nb"),
        vec![
            (Comment(" a"), 0..4),
            (Newline, 4..5),
            (Symbol("b".to_owned()), 5..6)
        ]
    );
    assert_eq!(lex("@ caf\u{e9}"), vec![(Comment(" caf\u{e9}"), 0..7)]);
    assert_eq!(
        lex("/* a\n b */ c"),
        vec![
            (Comment(" a\n b "), 0..10),
            (Whitespace, 10..11),
            (Symbol("c".to_owned()), 11..12)
        ]
    );
}

#[test]
fn comment_that_nothing_closes_is_a_division() {
    assert_eq!(
        lex("/* a"),
        vec![
            (Divide, 0..1),
            (Multiply, 1..2),
            (Whitespace, 2..3),
            (Symbol("a".to_owned()), 3..4)
        ]
    );
}

#[test]
fn quoted_symbols_keep_what_a_backslash_protects() {
    assert_eq!(lex("\"A\\\"b\""), vec![(Symbol("a\\\"b".to_owned()), 0..6)]);
    assert_eq!(lex("\"\u{c9}T\u{e9}\""), vec![(Symbol("\u{c9}t\u{e9}".to_owned()), 0..7)]);
}

#[test]
fn quote_that_nothing_closes_is_an_error() {
    assert_eq!(
        lex("\"ab"),
        vec![(Error, 0..1), (Symbol("ab".to_owned()), 1..3)]
    );
}

#[test]
fn characters_hold_their_quotes() {
    assert_eq!(lex("'a'"), vec![(Character("'a'"), 0..3)]);
    assert_eq!(lex("'\\n'"), vec![(Character("'\\n'"), 0..4)]);
    assert_eq!(lex("'\\''"), vec![(Character("'\\''"), 0..4)]);
    assert_eq!(lex("'\u{e9}'"), vec![(Character("'\u{e9}'"), 0..4)]);
    assert_eq!(
        lex("'ab"),
        vec![(Error, 0..1), (Symbol("ab".to_owned()), 1..3)]
    );
}

#[test]
fn operators_take_the_longest_lexeme() {
    assert_eq!(
        lex("<<==<>!=!&&"),
        vec![
            (ShiftLeft, 0..2),
            (Equals, 2..4),
            (NotEquals, 4..6),
            (NotEquals, 6..8),
            (BitwiseOrNot, 8..9),
            (LogicalAnd, 9..11)
        ]
    );
    assert_eq!(
        lex("[r0,#-4]"),
        vec![
            (LBracket, 0..1),
            (Symbol("r0".to_owned()), 1..3),
            (Comma, 3..4),
            (Token::Hash, 4..5),
            (Minus, 5..6),
            (Integer(4), 6..7),
            (RBracket, 7..8)
        ]
    );
    assert_eq!(lex("< :"), vec![(LessThan, 0..1), (Whitespace, 1..2), (Colon, 2..3)]);
}

#[test]
fn what_starts_no_token_is_an_error_of_one_character() {
    assert_eq!(lex("\u{e9}"), vec![(Error, 0..2)]);
    assert_eq!(lex("=\u{20ac}a"), vec![(Error, 0..1), (Error, 1..4), (Symbol("a".to_owned()), 4..5)]);
    assert_eq!(lex("\\"), vec![(Error, 0..1)]);
}

#[test]
fn tokens_cover_the_text_without_gaps() {
    let text = "main:\tmov r0, #0x10 @ start\n\tldr r1, =table // load\n\t.ascii \"Hi\\n\"; 'x' \u{e9}\r\n";
    let tokens = lex(text);
    let mut at = 0;
    for (_, span) in tokens.iter() {
        assert_eq!(span.start, at);
        assert!(span.start < span.end);
        at = span.end;
    }
    assert_eq!(at, text.len());
}
