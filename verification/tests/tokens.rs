use fungus::lexing::naive::Token::Symbol;
use fungus::token::{hash_token, Token};

#[test]
fn naive_test_different_symbols_hash_differently() {
    let mut set = std::collections::HashSet::new();
    set.insert(Symbol("add".to_owned()));
    set.insert(Symbol("sub".to_owned()));
    assert_eq!(set.len(), 2);
}

#[test]
fn relative_test_different_symbols_hash_differently() {
    let mut set = std::collections::HashSet::new();
    set.insert(Symbol("add".to_owned()));
    set.insert(Symbol("sub".to_owned()));
    assert_eq!(set.len(), 2);
}

#[test]
fn token_codes_tell_kind_text_and_number_apart() {
    let codes = vec![
        hash_token(&Token::Symbol("add".to_owned())),
        hash_token(&Token::Symbol("sub".to_owned())),
        hash_token(&Token::KeySymbol("add".to_owned())),
        hash_token(&Token::Label("add".to_owned())),
        hash_token(&Token::Comment("add")),
        hash_token(&Token::RelativeSymbol(0)),
        hash_token(&Token::RelativeSymbol(1)),
        hash_token(&Token::Integer(1)),
        hash_token(&Token::Integer(-1)),
        hash_token(&Token::Comma),
        hash_token(&Token::Colon),
    ];
    for i in 0..codes.len() {
        for j in 0..codes.len() {
            if i != j {
                assert_ne!(codes[i], codes[j]);
            }
        }
    }
    assert_eq!(
        hash_token(&Token::Symbol("add".to_owned())),
        hash_token(&Token::Symbol("add".to_owned()))
    );
}
