use fungus::hashing::{hash_word, hash_words};
use fungus::lexing::{tokenize_and_hash, TokenizingStrategy};
use fungus::token::{hash_token, Token};

// The multiplier of the Fx hash on targets with 64-bit pointers.
const K: u64 = 0x517cc1b727220a95;

fn fx_step(state: u64, word: u64) -> u64 {
    (state.rotate_left(5) ^ word).wrapping_mul(K)
}

#[test]
fn a_word_is_hashed_by_the_fx_hasher() {
    assert_eq!(hash_word(5), fx_step(0, 5));
    assert_ne!(hash_word(5), 5);
    assert_eq!(hash_word(0), 0);
}

#[test]
fn words_are_fed_to_one_hasher_in_order() {
    assert_eq!(hash_words(&[]), 0);
    assert_eq!(hash_words(&[5]), hash_word(5));
    assert_eq!(hash_words(&[1, 2]), fx_step(fx_step(0, 1), 2));
    assert_eq!(hash_words(&[1, 2, 3]), fx_step(fx_step(fx_step(0, 1), 2), 3));
    assert_ne!(hash_words(&[1, 2]), hash_words(&[2, 1]));
}

#[test]
fn every_hashing_starts_with_a_fresh_hasher() {
    let first = hash_words(&[7, 8]);
    let _ = hash_words(&[9]);
    assert_eq!(hash_words(&[7, 8]), first);
}

#[test]
fn bytes_are_tokens_of_one_byte_each() {
    let hashes = tokenize_and_hash("ab\u{e9}", TokenizingStrategy::Bytes, false, 0);
    assert_eq!(
        hashes,
        vec![
            (hash_word(0x61), 0..1),
            (hash_word(0x62), 1..2),
            (hash_word(0xc3), 2..3),
            (hash_word(0xa9), 3..4)
        ]
    );
    // whitespace is a byte like any other
    let spaced = tokenize_and_hash("a b", TokenizingStrategy::Bytes, true, 0);
    assert_eq!(spaced.len(), 3);
}

#[test]
fn naive_tokens_are_hashed_with_their_spans() {
    let hashes = tokenize_and_hash("ADD r0 @ x", TokenizingStrategy::Naive, false, 0);
    assert_eq!(
        hashes,
        vec![
            (hash_token(&Token::Symbol("add".to_owned())), 0..3),
            (hash_token(&Token::Whitespace), 3..4),
            (hash_token(&Token::Symbol("r0".to_owned())), 4..6),
            (hash_token(&Token::Whitespace), 6..7),
            (hash_token(&Token::Comment(" x")), 7..10),
        ]
    );
    let bare = tokenize_and_hash("ADD r0 @ x", TokenizingStrategy::Naive, true, 0);
    assert_eq!(
        bare,
        vec![
            (hash_token(&Token::Symbol("add".to_owned())), 0..3),
            (hash_token(&Token::Symbol("r0".to_owned())), 4..6),
        ]
    );
}

#[test]
fn relative_offsets_above_the_limit_count_as_first_uses() {
    // r1 is used at tokens 2 and 9: an offset of 7, or of 4 without whitespace
    let text = "mov r1, r2\nadd r1";
    let far = tokenize_and_hash(text, TokenizingStrategy::Relative, true, 3);
    let near = tokenize_and_hash(text, TokenizingStrategy::Relative, true, 4);
    let first_use = hash_token(&Token::RelativeSymbol(0));
    assert_eq!(
        far,
        vec![
            (hash_token(&Token::KeySymbol("mov".to_owned())), 0..3),
            (first_use, 4..6),
            (hash_token(&Token::Comma), 6..7),
            (first_use, 8..10),
            (hash_token(&Token::KeySymbol("add".to_owned())), 11..14),
            (first_use, 15..17),
        ]
    );
    assert_eq!(near[5], (hash_token(&Token::RelativeSymbol(4)), 15..17));
    assert_eq!(near[..5], far[..5]);
    let spaced = tokenize_and_hash(text, TokenizingStrategy::Relative, false, 7);
    assert_eq!(spaced[9], (hash_token(&Token::RelativeSymbol(7)), 15..17));
    let limited = tokenize_and_hash(text, TokenizingStrategy::Relative, false, 6);
    assert_eq!(limited[9], (first_use, 15..17));
}
