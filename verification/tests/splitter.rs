use deflate_core::block_splitter::{
    block_split, choose_block, dynamic_code_lengths, make_block, Block, BLOCK_TOKENS,
};
use deflate_core::deflate::{write_blocks, Token};
use deflate_core::error::{DeflateError, Violation};

fn tokens_of(block: &Block) -> &Vec<Token> {
    match block {
        Block::FixedCodes { tokens } => tokens,
        Block::DynamicCodes { tokens, .. } => tokens,
    }
}

fn literals(n: usize, modulus: usize) -> Vec<Token> {
    (0..n).map(|i| Token::Literal(((i * 7) % modulus) as u8)).collect()
}

#[test]
fn no_tokens_make_one_empty_block() {
    let blocks = block_split(&[]);
    assert_eq!(blocks.len(), 1);
    assert!(matches!(&blocks[0], Block::FixedCodes { tokens } if tokens.is_empty()));
}

#[test]
fn blocks_hold_the_tokens_in_order() {
    let tokens = literals(2 * BLOCK_TOKENS + 5, 256);
    let blocks = block_split(&tokens);
    assert_eq!(blocks.len(), 3);
    assert_eq!(tokens_of(&blocks[0]).len(), BLOCK_TOKENS);
    assert_eq!(tokens_of(&blocks[1]).len(), BLOCK_TOKENS);
    assert_eq!(tokens_of(&blocks[2]).len(), 5);
    let joined: Vec<Token> = blocks.iter().flat_map(|b| tokens_of(b).iter().copied()).collect();
    assert_eq!(joined, tokens);
}

#[test]
fn a_full_last_block_is_not_followed_by_an_empty_one() {
    let tokens = literals(BLOCK_TOKENS, 256);
    assert_eq!(block_split(&tokens).len(), 1);
    let tokens = literals(BLOCK_TOKENS + 1, 256);
    assert_eq!(block_split(&tokens).len(), 2);
}

#[test]
fn few_tokens_stay_in_the_fixed_codes() {
    let block = make_block(literals(50, 4));
    assert!(matches!(block, Block::FixedCodes { .. }));
}

#[test]
fn many_tokens_of_few_kinds_get_their_own_codes() {
    let block = make_block(literals(5000, 4));
    match block {
        Block::DynamicCodes { tokens, literal_code_lens, distance_code_lens } => {
            assert_eq!(tokens.len(), 5000);
            assert_eq!(literal_code_lens.len(), 286);
            assert_eq!(distance_code_lens.len(), 30);
            assert!(literal_code_lens[256] > 0);
            assert!((0..4usize).all(|s| literal_code_lens[s] > 0));
            assert!((4..256usize).all(|s| literal_code_lens[s] == 0));
        },
        Block::FixedCodes { .. } => panic!("the block should bring its own codes"),
    }
}

#[test]
fn the_cheaper_form_is_chosen() {
    // 1000 literals of one kind: one bit each in their own code, eight in the fixed one
    let tokens = vec![Token::Literal(0); 1000];
    let (lit, dist) = dynamic_code_lengths(&tokens);
    assert_eq!((lit[0], lit[256]), (1, 1));
    let fixed_bits: usize = 3 + 8 * 1000 + 7;
    let dynamic_bits: usize = 3 + 1335 + 1000 + 1;
    let chosen = choose_block(tokens, lit.clone(), dist.clone());
    assert!(matches!(chosen, Block::DynamicCodes { .. }));
    assert_eq!(write_blocks(&[chosen]).unwrap().len(), (dynamic_bits + 7) / 8);
    assert!(dynamic_bits < fixed_bits);
    // 190 of them: 3 + 1335 + 190 + 1 = 1529 against 3 + 1520 + 7 = 1530
    let chosen = choose_block(vec![Token::Literal(0); 190], lit.clone(), dist.clone());
    assert!(matches!(chosen, Block::DynamicCodes { .. }));
    // 189 of them: 1528 against 1522
    let chosen = choose_block(vec![Token::Literal(0); 189], lit, dist);
    assert!(matches!(chosen, Block::FixedCodes { .. }));
}

#[test]
fn codes_that_miss_a_token_are_not_chosen() {
    let (lit, dist) = dynamic_code_lengths(&vec![Token::Literal(0); 1000]);
    let mut tokens = vec![Token::Literal(0); 1000];
    tokens.push(Token::Literal(1));
    assert!(matches!(choose_block(tokens, lit, dist), Block::FixedCodes { .. }));
}

#[test]
fn histogram_counts_the_end_of_block_once_and_matches_by_their_rows() {
    let tokens = vec![
        Token::Literal(b'a'),
        Token::Literal(b'a'),
        Token::Repeat(3, 1),
        Token::Repeat(4, 1),
        Token::Repeat(4, 5),
        Token::Repeat(4, 6),
    ];
    let (lit, dist) = dynamic_code_lengths(&tokens);
    // 'a' twice, the end of the block once, row 257 once and row 258 three times
    let mut expected_lit = vec![0u8; 286];
    expected_lit[b'a' as usize] = 2;
    expected_lit[256] = 3;
    expected_lit[257] = 3;
    expected_lit[258] = 1;
    assert_eq!(lit, expected_lit);
    // rows 0 and 4 of the distances twice each
    let mut expected_dist = vec![0u8; 30];
    expected_dist[0] = 1;
    expected_dist[4] = 1;
    assert_eq!(dist, expected_dist);
}

#[test]
fn a_block_without_matches_still_has_one_distance_code() {
    let (_, dist) = dynamic_code_lengths(&literals(10, 3));
    let mut expected = vec![0u8; 30];
    expected[0] = 1;
    assert_eq!(dist, expected);
}

#[test]
fn tokens_out_of_range_are_kept_and_refused_by_the_writer() {
    let tokens = vec![Token::Literal(1), Token::Repeat(1, 1)];
    let blocks = block_split(&tokens);
    assert_eq!(blocks.len(), 1);
    assert_eq!(tokens_of(&blocks[0]), &tokens);
    assert_eq!(
        write_blocks(&blocks),
        Err(DeflateError::InternalInvariant(Violation::LengthOutOfRange))
    );
}

#[test]
fn the_first_block_that_cannot_be_written_gives_the_error() {
    let good = Block::FixedCodes { tokens: vec![Token::Literal(1)] };
    let bad_lengths = Block::DynamicCodes {
        tokens: vec![Token::Repeat(3, 0)],
        literal_code_lens: vec![1u8; 286],
        distance_code_lens: vec![0u8; 30],
    };
    let bad_token = Block::FixedCodes { tokens: vec![Token::Repeat(3, 0)] };
    assert_eq!(
        write_blocks(&[good, bad_lengths, bad_token]),
        Err(DeflateError::InvalidCodeLengths)
    );
    let good = Block::FixedCodes { tokens: vec![Token::Literal(1)] };
    let bad_token = Block::FixedCodes { tokens: vec![Token::Repeat(3, 0)] };
    assert_eq!(
        write_blocks(&[good, bad_token]),
        Err(DeflateError::InternalInvariant(Violation::DistanceOutOfRange))
    );
}

#[test]
fn a_block_that_wants_long_code_words_is_held_to_fifteen_bits() {
    // with the end of the block, which occurs once, the counts are the Fibonacci
    // numbers 1, 1, 2, 3, 5, ...: their Huffman tree is a chain
    let mut counts: Vec<usize> = vec![1, 2];
    for k in 2..18usize {
        let next: usize = counts[k - 1] + counts[k - 2];
        counts.push(next);
    }
    let mut tokens: Vec<Token> = Vec::new();
    let mut bytes: Vec<u8> = Vec::new();
    for (k, count) in counts.iter().enumerate() {
        for _ in 0..*count {
            tokens.push(Token::Literal(k as u8));
            bytes.push(k as u8);
        }
    }
    assert!(tokens.len() <= BLOCK_TOKENS);
    let block = make_block(tokens);
    match &block {
        Block::DynamicCodes { literal_code_lens, .. } => {
            assert_eq!(literal_code_lens.iter().copied().max(), Some(15));
            let kraft: u64 =
                literal_code_lens.iter().filter(|l| **l > 0).map(|l| 1u64 << (15 - *l)).sum();
            assert_eq!(kraft, 32768);
            // the rarer byte never has the shorter code word
            for k in 1..18usize {
                assert!(literal_code_lens[k - 1] >= literal_code_lens[k]);
            }
            assert_eq!(literal_code_lens[256], 15);
            assert_eq!(literal_code_lens[17], 1);
        },
        Block::FixedCodes { .. } => panic!("the block should bring its own codes"),
    }
    let stream = write_blocks(&[block]).unwrap();
    assert_eq!(miniz_oxide::inflate::decompress_to_vec(&stream).unwrap(), bytes);
}
