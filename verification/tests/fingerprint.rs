use fungus::fingerprint::{choose_fingerprint, fingerprint, FingerprintError};

#[test]
fn moss_example() {
    // Example from page 4 of the MOSS paper adapted for robust winnowing
    // (as well as removing identical back-to-back hashes)
    let hashes = vec![
        (77, 0..1),
        (74, 1..2),
        (42, 2..3),
        (17, 3..4),
        (98, 4..5),
        (50, 5..6),
        (17, 6..7),
        (98, 7..8),
        (8, 8..9),
        (88, 9..10),
        (67, 10..11),
        (39, 11..12),
        (77, 12..13),
        (74, 13..14),
        (42, 14..15),
        (17, 15..16),
        (98, 16..17),
    ];
    let w = 4;
    let fingerprint = choose_fingerprint(&hashes, w);
    assert_eq!(
        fingerprint.spanned_hashes,
        vec![(17, 3..4), (8, 8..9), (39, 11..12), (17, 15..16)]
    );
}

#[test]
fn identical_hashes() {
    let hashes = vec![(1, 0..1), (1, 1..2), (1, 2..3), (1, 3..4), (1, 4..5)];
    let w = 2;
    let fingerprint = choose_fingerprint(&hashes, w);
    // Of equal hashes in a window the rightmost is selected.
    assert_eq!(fingerprint.spanned_hashes, vec![(1, 1..2)]);
}

#[test]
fn rightmost_of_equal_minima_is_selected() {
    let hashes = vec![(5, 0..1), (3, 1..2), (3, 2..3), (9, 3..4)];
    let fingerprint = choose_fingerprint(&hashes, 3);
    assert_eq!(fingerprint.spanned_hashes, vec![(3, 2..3)]);
}

#[test]
fn window_longer_than_the_hashes_selects_nothing() {
    let hashes = vec![(5, 0..1), (3, 1..2)];
    let fingerprint = choose_fingerprint(&hashes, 3);
    assert!(fingerprint.spanned_hashes.is_empty());
}

#[test]
fn window_of_one_only_drops_repeats() {
    let hashes = vec![(4, 0..1), (4, 1..2), (2, 2..3), (4, 3..4), (4, 4..5)];
    let fingerprint = choose_fingerprint(&hashes, 1);
    assert_eq!(
        fingerprint.spanned_hashes,
        vec![(4, 0..1), (2, 2..3), (4, 3..4)]
    );
}

#[test]
fn winnowing_twice_changes_nothing() {
    let hashes = vec![
        (77, 0..1),
        (74, 1..2),
        (42, 2..3),
        (17, 3..4),
        (98, 4..5),
        (50, 5..6),
        (17, 6..7),
        (98, 7..8),
        (8, 8..9),
    ];
    let once = choose_fingerprint(&hashes, 4);
    let twice = choose_fingerprint(&once.spanned_hashes, 1);
    assert_eq!(once.spanned_hashes, twice.spanned_hashes);
}

#[test]
fn too_few_tokens_cannot_be_fingerprinted() {
    let tokens = vec![(1, 0..1), (2, 1..2)];
    match fingerprint(3, 3, 0, &tokens) {
        Ok(_) => panic!("two tokens have no 3-gram"),
        Err(e) => {
            assert_eq!(
                e,
                FingerprintError {
                    num_tokens: 2,
                    noise_threshold: 3
                }
            );
            assert_eq!(
                e.message(),
                "File could not be fingerprinted because it contains 2 tokens, which is less than the noise threshold of 3."
            );
        }
    }
}

#[test]
fn kgram_spans_reach_from_first_to_last_token() {
    let tokens = vec![(1, 0..2), (2, 3..4), (3, 4..7), (4, 9..10)];
    let found = fingerprint(3, 3, 0, &tokens).ok().unwrap();
    let spans: Vec<_> = found
        .spanned_hashes
        .iter()
        .map(|(_, span)| span.clone())
        .collect();
    assert_eq!(spans, vec![0..7, 3..10]);
}

#[test]
fn equal_kgrams_hash_equally_and_others_differently() {
    let tokens = vec![(1, 0..1), (2, 1..2), (3, 2..3), (1, 3..4), (2, 4..5), (3, 5..6)];
    let found = fingerprint(3, 3, 0, &tokens).ok().unwrap();
    let hashes: Vec<u64> = found.spanned_hashes.iter().map(|(h, _)| *h).collect();
    assert_eq!(hashes.len(), 4);
    assert_eq!(hashes[0], hashes[3]);
    assert_ne!(hashes[0], hashes[1]);
    assert_ne!(hashes[1], hashes[2]);
    // A k-gram hash is more than one of the token hashes handed back.
    assert_ne!(hashes[0], 1);
}

#[test]
fn shared_run_of_guarantee_length_shares_a_hash() {
    // k = 2, t = 4: two streams that share four tokens in a row
    let a = vec![(9, 0..1), (1, 1..2), (2, 2..3), (3, 3..4), (4, 4..5), (8, 5..6)];
    let b = vec![(7, 0..1), (7, 1..2), (1, 2..3), (2, 3..4), (3, 4..5), (4, 5..6)];
    let fa = fingerprint(2, 4, 0, &a).ok().unwrap();
    let fb = fingerprint(2, 4, 0, &b).ok().unwrap();
    assert!(fa
        .spanned_hashes
        .iter()
        .any(|(h, _)| fb.spanned_hashes.iter().any(|(g, _)| g == h)));
}
