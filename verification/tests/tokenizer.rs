use deflate_core::deflate::Token;
use deflate_core::lempel_ziv::{lempel_ziv, lempel_ziv_with};

/// Puts back the bytes that the tokens stand for.
fn expand(tokens: &[Token]) -> Vec<u8> {
    let mut out: Vec<u8> = Vec::new();
    for token in tokens {
        match *token {
            Token::Literal(b) => out.push(b),
            Token::Repeat(len, dist) => {
                assert!((3..=258).contains(&len));
                assert!((1..=32768).contains(&dist));
                assert!(dist as usize <= out.len());
                for _ in 0..len {
                    let b: u8 = out[out.len() - dist as usize];
                    out.push(b);
                }
            },
        }
    }
    out
}

#[test]
fn empty_input_gives_no_tokens() {
    assert_eq!(lempel_ziv(b""), Vec::<Token>::new());
}

#[test]
fn inputs_below_three_bytes_are_literals() {
    assert_eq!(lempel_ziv(b"a"), vec![Token::Literal(b'a')]);
    assert_eq!(lempel_ziv(b"aa"), vec![Token::Literal(b'a'), Token::Literal(b'a')]);
}

#[test]
fn run_of_one_byte_is_a_copy_at_distance_one() {
    let tokens = lempel_ziv(b"aaaaaa");
    assert_eq!(tokens, vec![Token::Literal(b'a'), Token::Repeat(5, 1)]);
    let covers_tail =
        tokens.iter().any(|t| matches!(t, Token::Repeat(len, 1) if (3..=5).contains(len)));
    assert!(covers_tail);
    assert_eq!(expand(&tokens), b"aaaaaa".to_vec());
}

#[test]
fn repeated_phrase_is_a_copy_at_its_period() {
    let tokens = lempel_ziv(b"abcabcabcabc");
    assert_eq!(
        tokens,
        vec![
            Token::Literal(b'a'),
            Token::Literal(b'b'),
            Token::Literal(b'c'),
            Token::Repeat(9, 3),
        ]
    );
    assert_eq!(expand(&tokens), b"abcabcabcabc".to_vec());
}

#[test]
fn a_longer_match_one_byte_on_is_preferred() {
    // at the second "abc" the match "abc" is found, but one byte on "bcde" is longer
    let tokens = lempel_ziv(b"abc_bcde_abcde");
    assert_eq!(expand(&tokens), b"abc_bcde_abcde".to_vec());
    assert!(tokens.contains(&Token::Repeat(4, 6)));
    assert!(!tokens.iter().any(|t| matches!(t, Token::Repeat(3, _))));
}

#[test]
fn matches_are_cut_at_the_longest_length() {
    let input = vec![7u8; 1000];
    let tokens = lempel_ziv(&input);
    assert_eq!(tokens[0], Token::Literal(7));
    assert_eq!(tokens[1], Token::Repeat(258, 1));
    assert!(tokens.iter().all(|t| match t {
        Token::Literal(_) => true,
        Token::Repeat(len, dist) => *len >= 3 && *len <= 258 && *dist == 1,
    }));
    assert_eq!(expand(&tokens), input);
}

#[test]
fn tokens_reconstruct_mixed_input() {
    let mut input: Vec<u8> = Vec::new();
    let mut state: u32 = 12345;
    for i in 0..70_000u32 {
        state = state.wrapping_mul(1_103_515_245).wrapping_add(12345);
        let b: u8 = if i % 97 < 60 { (state >> 16) as u8 % 4 } else { (i % 251) as u8 };
        input.push(b);
    }
    let tokens = lempel_ziv(&input);
    assert!(tokens.len() < input.len());
    assert_eq!(expand(&tokens), input);
}

#[test]
fn no_match_reaches_back_beyond_the_window() {
    let mut input: Vec<u8> = b"needle-in-a-haystack".to_vec();
    let mut state: u32 = 99;
    for _ in 0..40_000u32 {
        state = state.wrapping_mul(1_103_515_245).wrapping_add(12345);
        input.push((state >> 16) as u8);
    }
    input.extend_from_slice(b"needle-in-a-haystack");
    let tokens = lempel_ziv(&input);
    assert!(tokens.iter().all(|t| match t {
        Token::Literal(_) => true,
        Token::Repeat(_, dist) => *dist <= 32768,
    }));
    assert_eq!(expand(&tokens), input);
}

#[test]
fn without_looking_ahead_the_first_match_is_taken() {
    let tokens = lempel_ziv_with(b"abc_bcde_abcde", 128, false);
    assert_eq!(expand(&tokens), b"abc_bcde_abcde".to_vec());
    assert!(tokens.contains(&Token::Repeat(3, 9)));
}

#[test]
fn without_chains_everything_is_a_literal() {
    let tokens = lempel_ziv_with(b"aaaaaaaaaa", 0, true);
    assert_eq!(tokens, vec![Token::Literal(b'a'); 10]);
}

#[test]
fn of_two_matches_of_one_length_the_nearer_is_taken() {
    let tokens = lempel_ziv(b"wxyz-wxyz+wxyz");
    assert_eq!(expand(&tokens), b"wxyz-wxyz+wxyz".to_vec());
    assert_eq!(tokens[tokens.len() - 1], Token::Repeat(4, 5));
}

#[test]
fn a_repeated_phrase_of_bytes_that_differ_is_its_bytes_and_one_match() {
    let tokens = lempel_ziv(b"abcdeabcdeabc");
    let mut expected: Vec<Token> = b"abcde".iter().map(|b| Token::Literal(*b)).collect();
    expected.push(Token::Repeat(8, 5));
    assert_eq!(tokens, expected);
    // one candidate is enough for a run of one byte, but not for a longer phrase
    assert_eq!(
        lempel_ziv_with(&[9u8; 259], 1, true),
        vec![Token::Literal(9), Token::Repeat(258, 1)]
    );
    assert_eq!(lempel_ziv_with(b"aaaa", 1, false), vec![Token::Literal(b'a'), Token::Repeat(3, 1)]);
}
