use deflate_core::block_splitter::{block_split, Block};
use deflate_core::deflate::{deflate, write_blocks, DeflateWriter, Token};
use deflate_core::lempel_ziv::lempel_ziv;

/// Compresses with the library.
fn compress(input: &[u8]) -> Vec<u8> {
    let mut out: Vec<u8> = Vec::new();
    assert_eq!(deflate(input, &mut out), Ok(()));
    out
}

/// Decompresses with an independent decoder.
fn decompress(stream: &[u8]) -> Vec<u8> {
    match miniz_oxide::inflate::decompress_to_vec(stream) {
        Ok(bytes) => bytes,
        Err(e) => panic!("the stream does not decode: {:?}", e.status),
    }
}

/// Pseudo-random bytes from a fixed seed.
fn noise(len: usize, seed: u64) -> Vec<u8> {
    let mut state: u64 = seed;
    let mut bytes: Vec<u8> = Vec::with_capacity(len);
    for _ in 0..len {
        state ^= state << 13;
        state ^= state >> 7;
        state ^= state << 17;
        bytes.push((state >> 24) as u8);
    }
    bytes
}

fn uses_dynamic_codes(blocks: &[Block]) -> bool {
    blocks.iter().any(|b| matches!(b, Block::DynamicCodes { .. }))
}

#[test]
fn empty_input_round_trips() {
    let out = compress(b"");
    assert_eq!(out, vec![0x03u8, 0x00]);
    assert_eq!(decompress(&out), b"".to_vec());
}

#[test]
fn single_byte_round_trips_and_starts_with_the_final_flag() {
    let out = compress(b"a");
    assert_eq!(out[0] & 1, 1);
    assert_eq!(out, vec![0x4bu8, 0x04, 0x00]);
    assert_eq!(decompress(&out), b"a".to_vec());
}

#[test]
fn two_bytes_round_trip_in_one_block_of_literals() {
    let tokens = lempel_ziv(b"ab");
    assert_eq!(tokens, vec![Token::Literal(b'a'), Token::Literal(b'b')]);
    assert_eq!(block_split(&tokens).len(), 1);
    let out = compress(b"ab");
    assert_eq!(out[0] & 1, 1);
    // a final block in the fixed codes: 110, the two bytes, the end of the block
    assert_eq!(out, vec![0x4bu8, 0x4c, 0x02, 0x00]);
    assert_eq!(decompress(&out), b"ab".to_vec());
}

#[test]
fn run_of_one_byte_round_trips() {
    let out = compress(b"aaaaaa");
    assert_eq!(decompress(&out), b"aaaaaa".to_vec());
}

#[test]
fn repeated_phrase_round_trips() {
    let out = compress(b"abcabcabcabc");
    assert_eq!(decompress(&out), b"abcabcabcabc".to_vec());
}

#[test]
fn random_bytes_stay_close_to_their_size() {
    let input = noise(100 * 1024, 0x9e37_79b9_7f4a_7c15);
    let out = compress(&input);
    assert_eq!(decompress(&out), input);
    assert!(out.len() >= input.len() * 95 / 100);
    assert!(out.len() <= input.len() + input.len() / 50 + 64);
}

#[test]
fn two_repetitive_segments_round_trip() {
    let mut input: Vec<u8> = Vec::new();
    for i in 0..40_000usize {
        input.push(b"0123456789"[i % 10]);
    }
    for i in 0..40_000usize {
        input.push(b"the quick brown fox "[i % 20]);
    }
    let out = compress(&input);
    assert_eq!(decompress(&out), input);
    assert!(out.len() < input.len() / 50);
}

#[test]
fn long_input_is_cut_into_several_blocks_with_their_own_codes() {
    let mut input = noise(30_000, 7);
    for b in input.iter_mut() {
        *b &= 0x0f;
    }
    let mut text: Vec<u8> = noise(30_000, 11);
    for b in text.iter_mut() {
        *b = b'a' + (*b % 5);
    }
    input.extend_from_slice(&text);
    let tokens = lempel_ziv(&input);
    let blocks = block_split(&tokens);
    assert!(blocks.len() >= 2);
    assert!(uses_dynamic_codes(&blocks));
    let out = compress(&input);
    assert_eq!(decompress(&out), input);
    assert!(out.len() < input.len() * 2 / 3);
}

#[test]
fn text_compresses_and_round_trips() {
    let mut input: Vec<u8> = Vec::new();
    let words: [&[u8]; 6] = [b"alpha ", b"beta ", b"gamma ", b"delta ", b"epsilon ", b"zeta "];
    let picks = noise(5_000, 3);
    for p in picks {
        input.extend_from_slice(words[(p % 6) as usize]);
    }
    let out = compress(&input);
    assert_eq!(decompress(&out), input);
    assert!(out.len() < input.len() / 2);
}

#[test]
fn every_short_input_round_trips() {
    for len in 0..40usize {
        let input = noise(len, 100 + len as u64);
        assert_eq!(decompress(&compress(&input)), input);
        let flat = vec![b'x'; len];
        assert_eq!(decompress(&compress(&flat)), flat);
    }
}

#[test]
fn longest_match_and_farthest_distance_round_trip() {
    let mut input = vec![0u8; 258 * 3 + 1];
    input.extend_from_slice(&noise(32_768, 5));
    let head = input[..300].to_vec();
    input.extend_from_slice(&head);
    let out = compress(&input);
    assert_eq!(decompress(&out), input);
}

#[test]
fn deflate_appends_to_what_the_sink_holds() {
    let mut out: Vec<u8> = vec![1, 2, 3];
    assert_eq!(deflate(b"hello hello hello", &mut out), Ok(()));
    assert_eq!(&out[..3], &[1u8, 2, 3]);
    assert_eq!(decompress(&out[3..]), b"hello hello hello".to_vec());
}

#[test]
fn blocks_written_by_hand_decode() {
    let first = Block::FixedCodes { tokens: vec![Token::Literal(b'h'), Token::Literal(b'i')] };
    let mut lit = vec![0u8; 286];
    lit[b'!' as usize] = 1;
    lit[256] = 2;
    lit[257] = 2;
    let mut dist = vec![0u8; 30];
    dist[0] = 1;
    let second = Block::DynamicCodes {
        tokens: vec![Token::Literal(b'!'), Token::Repeat(3, 1)],
        literal_code_lens: lit,
        distance_code_lens: dist,
    };
    let stream = write_blocks(&[first, second]).unwrap();
    assert_eq!(stream[0] & 1, 0);
    assert_eq!(decompress(&stream), b"hi!!!!".to_vec());
}

#[test]
fn writer_methods_build_the_same_stream_as_write_blocks() {
    let tokens = vec![Token::Literal(b'a'), Token::Repeat(5, 1)];
    let mut writer = DeflateWriter::new();
    writer.new_fixed_codes_block(true);
    for t in &tokens {
        assert_eq!(writer.write(t), Ok(()));
    }
    let by_hand = writer.finish();
    let by_blocks = write_blocks(&[Block::FixedCodes { tokens }]).unwrap();
    assert_eq!(by_hand, by_blocks);
    assert_eq!(decompress(&by_hand), b"aaaaaa".to_vec());
}

#[test]
fn inputs_of_many_shapes_round_trip() {
    let mut state: u64 = 0x1234_5678_9abc_def1;
    for round in 0..60usize {
        let mut input: Vec<u8> = Vec::new();
        let pieces: usize = 1 + round % 7;
        for _ in 0..pieces {
            state ^= state << 13;
            state ^= state >> 7;
            state ^= state << 17;
            let len: usize = (state % 9000) as usize;
            let kind: u64 = (state >> 20) % 5;
            let alphabet: u64 = 1 + (state >> 30) % 200;
            for i in 0..len {
                state ^= state << 13;
                state ^= state >> 7;
                state ^= state << 17;
                let b: u8 = match kind {
                    0 => (state % alphabet) as u8,
                    1 => (i % (alphabet as usize)) as u8,
                    2 => ((state % 16) * (state % 16) % alphabet) as u8,
                    3 => b'a',
                    _ => (state >> 40) as u8,
                };
                input.push(b);
            }
        }
        assert_eq!(decompress(&compress(&input)), input);
    }
}
