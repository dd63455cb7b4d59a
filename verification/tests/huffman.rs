use deflate_core::code_lengths::{build_code_lengths, count_used};
use deflate_core::error::DeflateError;
use deflate_core::huffman::{calc_codes, HuffmanCode};

/// The Kraft sum of the lengths in units of 2^-15.
fn kraft(lens: &[u8]) -> u64 {
    lens.iter().filter(|l| **l > 0).map(|l| 1u64 << (15 - *l)).sum()
}

/// The lengths give a code word of up to 15 bits to the symbols that occur
/// and to no other.
fn covers(freq: &[u32], lens: &[u8]) -> bool {
    freq.len() == lens.len()
        && freq.iter().zip(lens.iter()).all(|(f, l)| (*f > 0) == (*l > 0) && *l <= 15)
}

/// The code word as it goes on the wire, first bit first.
fn wire(code: HuffmanCode) -> String {
    let mut s = String::new();
    for i in 0..code.length {
        s.push(if (code.code >> i) & 1 == 1 { '1' } else { '0' });
    }
    s
}

#[test]
fn canonical_codes_of_the_format_s_example() {
    let tree = calc_codes(&[3, 3, 3, 3, 3, 2, 4, 4]).unwrap();
    let words: Vec<String> = tree.iter().map(|c| wire(*c)).collect();
    assert_eq!(words, vec!["010", "011", "100", "101", "110", "00", "1110", "1111"]);
    assert_eq!(tree[0], HuffmanCode { code: 0b010, length: 3 });
    assert_eq!(tree[1], HuffmanCode { code: 0b110, length: 3 });
    assert_eq!(tree[2], HuffmanCode { code: 0b001, length: 3 });
    assert_eq!(tree[6], HuffmanCode { code: 0b0111, length: 4 });
}

#[test]
fn unused_symbols_get_no_code() {
    let tree = calc_codes(&[0, 1, 0, 2, 2]).unwrap();
    assert_eq!(tree[0], HuffmanCode { code: 0, length: 0 });
    assert_eq!(tree[2], HuffmanCode { code: 0, length: 0 });
    assert_eq!(wire(tree[1]), "0");
    assert_eq!(wire(tree[3]), "10");
    assert_eq!(wire(tree[4]), "11");
}

#[test]
fn codes_of_one_length_increase_and_none_begins_another() {
    let lens: [u8; 10] = [4, 0, 2, 5, 5, 3, 4, 2, 0, 4];
    let tree = calc_codes(&lens).unwrap();
    let words: Vec<String> = tree.iter().map(|c| wire(*c)).collect();
    for s in 0..lens.len() {
        for t in 0..lens.len() {
            if s != t && lens[s] > 0 && lens[t] > 0 {
                assert!(!words[t].starts_with(&words[s]));
                if s < t && lens[s] == lens[t] {
                    assert!(words[s] < words[t]);
                }
            }
        }
    }
}

#[test]
fn fixed_literal_code_matches_the_format() {
    let lens = deflate_core::huffman::fixed_literal_lengths();
    assert_eq!(lens.len(), 288);
    assert_eq!((lens[0], lens[143], lens[144], lens[255]), (8, 8, 9, 9));
    assert_eq!((lens[256], lens[279], lens[280], lens[287]), (7, 7, 8, 8));
    let tree = calc_codes(&lens).unwrap();
    assert_eq!(wire(tree[0]), "00110000");
    assert_eq!(wire(tree[143]), "10111111");
    assert_eq!(wire(tree[144]), "110010000");
    assert_eq!(wire(tree[255]), "111111111");
    assert_eq!(wire(tree[256]), "0000000");
    assert_eq!(wire(tree[279]), "0010111");
    assert_eq!(wire(tree[280]), "11000000");
    assert_eq!(wire(tree[287]), "11000111");
    let distance = deflate_core::huffman::fixed_distance_lengths();
    assert_eq!(distance, vec![5u8; 30]);
    assert_eq!(wire(calc_codes(&distance).unwrap()[29]), "11101");
}

#[test]
fn over_full_lengths_are_refused() {
    assert_eq!(calc_codes(&[1, 1, 1]), Err(DeflateError::InvalidCodeLengths));
    assert_eq!(calc_codes(&[2, 2, 2, 2, 15]), Err(DeflateError::InvalidCodeLengths));
}

#[test]
fn lengths_above_fifteen_are_refused() {
    assert_eq!(calc_codes(&[16]), Err(DeflateError::InvalidCodeLengths));
    assert_eq!(calc_codes(&[1, 255]), Err(DeflateError::InvalidCodeLengths));
}

#[test]
fn a_code_that_is_not_full_is_accepted() {
    assert!(calc_codes(&[1]).is_ok());
    assert!(calc_codes(&[2, 2, 2]).is_ok());
    assert!(calc_codes(&[]).is_ok());
    assert!(calc_codes(&[0, 0, 0]).is_ok());
}

#[test]
fn huffman_lengths_of_a_small_histogram() {
    assert_eq!(build_code_lengths(&[1, 1, 2, 4]), Ok(vec![3u8, 3, 2, 1]));
    assert_eq!(build_code_lengths(&[5, 0, 5, 0, 5, 5]), Ok(vec![2u8, 0, 2, 0, 2, 2]));
    assert_eq!(build_code_lengths(&[10, 1, 1, 0, 1, 1]), Ok(vec![1u8, 3, 3, 0, 3, 3]));
}

#[test]
fn a_single_symbol_takes_one_bit() {
    assert_eq!(build_code_lengths(&[0, 0, 9, 0]), Ok(vec![0u8, 0, 1, 0]));
}

#[test]
fn no_symbol_no_code() {
    assert_eq!(build_code_lengths(&[0, 0, 0]), Ok(vec![0u8, 0, 0]));
    assert_eq!(build_code_lengths(&[]), Ok(Vec::<u8>::new()));
}

#[test]
fn huffman_lengths_are_the_cheapest() {
    // frequencies 1, 1, 2, 3, 5, 8, 13, 21: a chain, the cost of a Huffman code is 132
    let freq: [u32; 8] = [1, 1, 2, 3, 5, 8, 13, 21];
    let lens = build_code_lengths(&freq).unwrap();
    assert_eq!(lens, vec![7u8, 7, 6, 5, 4, 3, 2, 1]);
    let cost: u32 = freq.iter().zip(lens.iter()).map(|(f, l)| f * *l as u32).sum();
    assert_eq!(cost, 132);
}

#[test]
fn lengths_are_held_to_fifteen_bits_and_stay_full() {
    // Fibonacci frequencies make a Huffman tree as deep as it has leaves
    let mut freq: Vec<u32> = vec![1, 1];
    for i in 2..30usize {
        let next: u32 = freq[i - 1] + freq[i - 2];
        freq.push(next);
    }
    let lens = build_code_lengths(&freq).unwrap();
    assert!(lens.iter().all(|l| *l >= 1 && *l <= 15));
    assert_eq!(kraft(&lens), 32768);
    assert!(covers(&freq, &lens));
    assert!(calc_codes(&lens).is_ok());
    // the most frequent symbols keep the shortest code words
    assert!(lens[29] <= lens[15] && lens[15] <= lens[0]);
}

#[test]
fn full_alphabets_get_full_codes() {
    let mut state: u32 = 1;
    for round in 0..20u32 {
        let mut freq: Vec<u32> = Vec::new();
        for s in 0..286u32 {
            state = state.wrapping_mul(1_664_525).wrapping_add(1_013_904_223);
            let f: u32 = if (state >> 8) % (round + 2) == 0 {
                0
            } else {
                (state >> 16) % (1 << (round % 16)) + 1
            };
            freq.push(if s == 256 { 1 } else { f });
        }
        let lens = build_code_lengths(&freq).unwrap();
        assert!(covers(&freq, &lens));
        assert!(count_used(&freq) >= 2);
        assert_eq!(kraft(&lens), 32768);
    }
}

#[test]
fn count_used_counts_the_symbols_that_occur() {
    assert_eq!(count_used(&[3, 0, 1, 1]), 3);
    assert_eq!(count_used(&[0, 0]), 0);
    assert_eq!(count_used(&[]), 0);
}

#[test]
fn too_many_symbols_for_fifteen_bits() {
    let freq = vec![1u32; 32769];
    assert_eq!(build_code_lengths(&freq), Err(DeflateError::InvalidCodeLengths));
    let lens = build_code_lengths(&vec![1u32; 32768]).unwrap();
    assert!(lens.iter().all(|l| *l == 15));
}

#[test]
fn symbols_that_do_not_occur_do_not_count_against_the_limit() {
    let mut freq = vec![0u32; 40_000];
    for s in [3usize, 500, 20_000, 39_000, 39_999] {
        freq[s] = 1 + s as u32;
    }
    let lens = build_code_lengths(&freq).unwrap();
    assert!(covers(&freq, &lens));
    let used: Vec<u8> = lens.iter().copied().filter(|l| *l > 0).collect();
    assert_eq!(used, vec![4u8, 4, 3, 2, 1]);
    assert_eq!(kraft(&lens), 32768);
}

#[test]
fn symbols_of_one_frequency_get_a_balanced_code() {
    assert_eq!(build_code_lengths(&[7, 7, 7, 7, 7]), Ok(vec![3u8, 3, 2, 2, 2]));
    assert_eq!(build_code_lengths(&[1; 8]), Ok(vec![3u8; 8]));
}
