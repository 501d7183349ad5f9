use engine::lz::{detokenise, tokenise, HashChain, Token, MIN_MATCH};

#[test]
fn match_on_repetitive_input() {
    let data: Vec<u8> = b"abcabcabcabcabc".to_vec();
    let tokens = tokenise(&data, 32);
    // Must have at least one Match token
    assert!(tokens.iter().any(|t| matches!(t, Token::Match { .. })));
    // Round-trip
    let out = detokenise(&tokens, data.len());
    assert_eq!(out, data);
}

#[test]
fn min_length_respected() {
    // A pattern of length 3 should not be encoded as a match (MIN_MATCH = 4)
    let data = b"xyzxyzxyz".to_vec();
    let tokens = tokenise(&data, 32);
    for tok in &tokens {
        if let Token::Match { length, .. } = tok {
            assert!(*length >= MIN_MATCH as u16, "match too short: {}", length);
        }
    }
}

#[test]
fn round_trip_all_literals() {
    let data: Vec<u8> = (0..=255u8).collect();
    let tokens = tokenise(&data, 32);
    let out = detokenise(&tokens, data.len());
    assert_eq!(out, data);
}

#[test]
fn round_trip_long_run() {
    let data = vec![0x42u8; 1024];
    let tokens = tokenise(&data, 32);
    let out = detokenise(&tokens, data.len());
    assert_eq!(out, data);
}

// ── further cases ──

#[test]
fn tokenise_exact_tokens() {
    // Three literals, then the rest copied from three bytes back.
    let tokens = tokenise(b"abcabcabcabcabc", 32);
    assert_eq!(
        tokens,
        vec![
            Token::Literal(b'a'),
            Token::Literal(b'b'),
            Token::Literal(b'c'),
            Token::Match { distance: 3, length: 12 },
        ]
    );
}

#[test]
fn tokenise_long_run_uses_maximal_matches() {
    let tokens = tokenise(&[7u8; 600], 8);
    assert_eq!(tokens[0], Token::Literal(7));
    assert_eq!(tokens[1], Token::Match { distance: 1, length: 258 });
    assert_eq!(tokens[2], Token::Match { distance: 1, length: 258 });
    assert_eq!(tokens[3], Token::Match { distance: 1, length: 83 });
    assert_eq!(tokens.len(), 4);
}

#[test]
fn tokenise_empty_and_short_inputs() {
    assert!(tokenise(&[], 32).is_empty());
    assert_eq!(tokenise(b"abc", 32), vec![Token::Literal(b'a'), Token::Literal(b'b'), Token::Literal(b'c')]);
}

#[test]
fn detokenise_clamps_bad_distances() {
    // A distance past the start copies from the start; an empty output copies zeros.
    let out = detokenise(&[Token::Match { distance: 5, length: 2 }], 0);
    assert_eq!(out, vec![0, 0]);
    let out = detokenise(&[Token::Literal(1), Token::Literal(2), Token::Match { distance: 9, length: 3 }], 0);
    assert_eq!(out, vec![1, 2, 1, 2, 1]);
    let out = detokenise(&[Token::Literal(4), Token::Match { distance: 0, length: 2 }], 0);
    assert_eq!(out, vec![4, 4, 4]);
}

#[test]
fn hash_chain_finds_the_longest_match() {
    let data = b"abcdXabcdYabcdXabc";
    let mut chain = HashChain::new(data.len(), 32);
    for pos in 0..10 {
        chain.insert(data, pos);
    }
    chain.insert(data, 10);
    // At 10: "abcdXabc" matches at 0 (distance 10, 8 bytes), "abcdY" at 5 only 4.
    assert_eq!(chain.find_longest_match_forward(data, 10), Some((10, 8)));
    assert_eq!(chain.find_longest_match_backward(data, 10), Some((10, 8)));
    // Too close to the end for a match of 4 bytes.
    assert_eq!(chain.find_longest_match_forward(data, 15), None);
}

#[test]
fn search_prefers_the_nearest_of_the_longest_matches() {
    // "abcdXabcdYabcdZ...": positions 0 and 5 both match 4 bytes at 10.
    let data = b"abcdXabcdYabcdZ".to_vec();
    let mut chain = HashChain::new(data.len(), 32);
    chain.insert(&data, 0);
    chain.insert(&data, 5);
    chain.insert(&data, 10);
    assert_eq!(chain.find_longest_match_forward(&data, 10), Some((5, 4)));
}

#[test]
fn search_prefers_the_longer_match_over_the_nearer() {
    let data = b"abcdefXabcdYabcdef".to_vec();
    let mut chain = HashChain::new(data.len(), 32);
    chain.insert(&data, 0);
    chain.insert(&data, 7);
    chain.insert(&data, 12);
    assert_eq!(chain.find_longest_match_forward(&data, 12), Some((12, 6)));
}

#[test]
fn insert_then_search_finds_the_whole_run() {
    let data = vec![0x61u8; 300];
    let mut chain = HashChain::new(data.len(), 2);
    chain.insert(&data, 0);
    chain.insert(&data, 1);
    assert_eq!(chain.find_longest_match_forward(&data, 1), Some((1, 258)));
    let mut chain = HashChain::new(data.len(), 2);
    chain.insert(&data, 40);
    chain.insert(&data, 100);
    assert_eq!(chain.find_longest_match_forward(&data, 100), Some((60, 200)));
}
