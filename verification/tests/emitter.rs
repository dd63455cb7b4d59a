use deflate_core::deflate::{DeflateWriter, Token};
use deflate_core::error::{DeflateError, Violation};
use deflate_core::tables::{find_distance_row, find_length_row, DIST_TO_CODE, LEN_TO_CODE};

/// A writer in a final block with the fixed codes. Its stream so far is
/// the three header bits `1`, `1`, `0`.
fn fixed_writer() -> DeflateWriter {
    let mut writer = DeflateWriter::new();
    writer.new_fixed_codes_block(true);
    writer
}

/// The bits of the stream, first bit first.
fn bits(stream: &[u8]) -> String {
    let mut s = String::new();
    for byte in stream {
        for i in 0..8u32 {
            s.push(if (byte >> i) & 1 == 1 { '1' } else { '0' });
        }
    }
    s
}

#[test]
fn bits_are_packed_from_the_low_end_of_each_byte() {
    let mut writer = fixed_writer();
    writer.write_bits(0b10110, 5);
    let stream = writer.finish();
    // header 110, then 0,1,1,0,1, then the end-of-block code 0000000, then padding
    assert_eq!(stream, vec![0xb3u8, 0x00]);
    assert_eq!(bits(&stream), "1100110100000000");
}

#[test]
fn only_the_low_bits_of_the_value_are_written() {
    let mut writer = fixed_writer();
    writer.write_bits(0xffff_ffe5, 3);
    writer.write_bits(0, 2);
    let stream = writer.finish();
    assert_eq!(bits(&stream), "1101010000000000");
}

#[test]
fn wide_values_cross_byte_borders() {
    let mut writer = fixed_writer();
    writer.write_bits(0x8000_0001, 32);
    writer.write_bits(0x3, 2);
    let stream = writer.finish();
    let expected = format!("110{}{}{}{}", "1", "0".repeat(30), "1", "11");
    assert_eq!(bits(&stream)[..37], expected);
    assert_eq!(stream.len(), 6);
}

#[test]
fn bits_beyond_the_value_are_zero() {
    let mut writer = fixed_writer();
    writer.write_bits(0xffff_ffff, 40);
    writer.write_bits(1, 1);
    let stream = writer.finish();
    let expected = format!("110{}{}1", "1".repeat(32), "0".repeat(8));
    assert_eq!(bits(&stream)[..44], expected);
}

#[test]
fn writing_no_bits_changes_nothing() {
    let mut writer = fixed_writer();
    writer.write_bits(0xffff_ffff, 0);
    assert_eq!(writer.finish(), vec![0x03u8, 0x00]);
}

#[test]
fn fixed_block_header_and_end_of_block() {
    let mut writer = DeflateWriter::new();
    writer.new_fixed_codes_block(false);
    writer.new_fixed_codes_block(true);
    let stream = writer.finish();
    // 0,1,0 + 0000000 then 1,1,0 + 0000000
    assert_eq!(bits(&stream)[..20], "01000000001100000000".to_string());
    assert_eq!(stream.len(), 3);
}

#[test]
fn literal_goes_out_as_its_code_word() {
    let mut writer = fixed_writer();
    assert_eq!(writer.write(&Token::Literal(b'a')), Ok(()));
    assert_eq!(writer.write(&Token::Literal(200)), Ok(()));
    let stream = writer.finish();
    // 'a' = 97: 00110000 + 97; 200: 110010000 + 56
    assert_eq!(bits(&stream)[..27], "110".to_string() + "10010001" + "111001000" + "0000000");
}

#[test]
fn match_goes_out_as_two_codes_with_their_extra_bits() {
    let mut writer = fixed_writer();
    // length 20: row (19, 23, 2, 269), offset 1; distance 100: row (97, 129, 5, 13), offset 3
    assert_eq!(writer.write(&Token::Repeat(20, 100)), Ok(()));
    let stream = writer.finish();
    let expected = "110".to_string() + "0001101" + "10" + "01101" + "11000" + "0000000";
    assert_eq!(bits(&stream)[..29], expected);
}

#[test]
fn longest_length_uses_the_last_row() {
    let mut writer = fixed_writer();
    // length 258: row (258, 259, 0, 285); distance 1: row (1, 2, 0, 0)
    assert_eq!(writer.write(&Token::Repeat(258, 1)), Ok(()));
    // length 257: row (227, 258, 5, 284), offset 30; distance 32768: row 29, offset 8191
    assert_eq!(writer.write(&Token::Repeat(257, 32768)), Ok(()));
    let stream = writer.finish();
    let expected = "110".to_string() + "11000101" + "00000" + "11000100" + "01111" + "11101"
        + "1111111111111" + "0000000";
    assert_eq!(bits(&stream)[..54], expected);
}

#[test]
fn length_out_of_range_is_refused() {
    let mut writer = fixed_writer();
    let refused = DeflateError::InternalInvariant(Violation::LengthOutOfRange);
    assert_eq!(writer.write(&Token::Repeat(2, 1)), Err(refused));
    assert_eq!(writer.write(&Token::Repeat(259, 1)), Err(refused));
    assert_eq!(writer.write(&Token::Repeat(0, 0)), Err(refused));
    assert_eq!(writer.finish(), vec![0x03u8, 0x00]);
}

#[test]
fn distance_out_of_range_is_refused() {
    let mut writer = fixed_writer();
    let refused = DeflateError::InternalInvariant(Violation::DistanceOutOfRange);
    assert_eq!(writer.write(&Token::Repeat(3, 0)), Err(refused));
    assert_eq!(writer.write(&Token::Repeat(3, 32769)), Err(refused));
    assert_eq!(writer.finish(), vec![0x03u8, 0x00]);
}

#[test]
fn symbol_without_a_code_word_is_refused() {
    let mut lit = vec![0u8; 286];
    lit[b'x' as usize] = 1;
    lit[256] = 1;
    let dist = vec![0u8; 30];
    let mut writer = DeflateWriter::new();
    assert_eq!(writer.new_dynamic_codes_block(true, &lit, &dist), Ok(()));
    let refused = DeflateError::InternalInvariant(Violation::SymbolWithoutCode);
    assert_eq!(writer.write(&Token::Literal(b'y')), Err(refused));
    assert_eq!(writer.write(&Token::Repeat(3, 1)), Err(refused));
    assert_eq!(writer.write(&Token::Literal(b'x')), Ok(()));
    let stream = writer.finish();
    assert_eq!(miniz_oxide::inflate::decompress_to_vec(&stream).unwrap(), b"x".to_vec());
}

#[test]
fn write_tokens_stops_at_the_first_token_that_is_refused() {
    let mut writer = fixed_writer();
    let tokens = [Token::Literal(b'a'), Token::Repeat(3, 40000), Token::Repeat(300, 1)];
    let refused = DeflateError::InternalInvariant(Violation::DistanceOutOfRange);
    assert_eq!(writer.write_tokens(&tokens), Err(refused));
    assert_eq!(writer.write_tokens(&tokens[..1]), Ok(()));
    let expected = "110".to_string() + "10010001" + "10010001" + "0000000";
    assert_eq!(bits(&writer.finish())[..26], expected);
}

#[test]
fn dynamic_block_sends_its_code_lengths_first() {
    let mut lit = vec![0u8; 286];
    lit[0] = 1;
    lit[256] = 1;
    let mut dist = vec![0u8; 30];
    dist[0] = 1;
    let mut writer = DeflateWriter::new();
    assert_eq!(writer.new_dynamic_codes_block(true, &lit, &dist), Ok(()));
    assert_eq!(writer.write(&Token::Literal(0)), Ok(()));
    let stream = writer.finish();
    let text = bits(&stream);
    // final, type 10; 29 and 29 in five bits, 15 in four
    assert_eq!(&text[..17], "101".to_string() + "10111" + "10111" + "1111");
    // lengths of the code-length code: 16, 17, 18 have none, the others four bits
    assert_eq!(&text[17..74], "000".repeat(3) + &"001".repeat(16));
    // the literal/length code lengths, four bits each: 1 is 0001, 0 is 0000
    assert_eq!(&text[74..78], "0001");
    assert_eq!(&text[78..82], "0000");
    assert_eq!(&text[74 + 4 * 256..78 + 4 * 256], "0001");
    // the distance code lengths
    assert_eq!(&text[74 + 4 * 286..78 + 4 * 286], "0001");
    // the literal 0 and the end of the block
    assert_eq!(&text[1338..1340], "01");
    assert_eq!(stream.len(), 168);
    assert_eq!(miniz_oxide::inflate::decompress_to_vec(&stream).unwrap(), vec![0u8]);
}

#[test]
fn code_lengths_of_the_wrong_number_are_refused() {
    let mut writer = DeflateWriter::new();
    let mut lit = vec![8u8; 285];
    assert_eq!(
        writer.new_dynamic_codes_block(true, &lit, &[5u8; 30]),
        Err(DeflateError::InvalidCodeLengths)
    );
    lit.push(8);
    assert_eq!(
        writer.new_dynamic_codes_block(true, &lit, &[5u8; 31]),
        Err(DeflateError::InvalidCodeLengths)
    );
}

#[test]
fn over_full_code_lengths_are_refused() {
    let mut writer = DeflateWriter::new();
    assert_eq!(
        writer.new_dynamic_codes_block(true, &[8u8; 286], &[5u8; 30]),
        Err(DeflateError::InvalidCodeLengths)
    );
    let mut lit = vec![0u8; 286];
    lit[256] = 1;
    assert_eq!(
        writer.new_dynamic_codes_block(true, &lit, &[4u8; 30]),
        Err(DeflateError::InvalidCodeLengths)
    );
    lit[0] = 16;
    assert_eq!(
        writer.new_dynamic_codes_block(true, &lit, &[5u8; 30]),
        Err(DeflateError::InvalidCodeLengths)
    );
}

#[test]
fn code_lengths_without_the_end_of_block_symbol_are_refused() {
    let mut writer = DeflateWriter::new();
    let mut lit = vec![0u8; 286];
    lit[0] = 1;
    lit[1] = 1;
    assert_eq!(
        writer.new_dynamic_codes_block(true, &lit, &[5u8; 30]),
        Err(DeflateError::InternalInvariant(Violation::SymbolWithoutCode))
    );
    // nothing was written: the writer goes on as if it had not been asked
    writer.new_fixed_codes_block(true);
    assert_eq!(writer.finish(), vec![0x03u8, 0x00]);
}

#[test]
fn every_length_has_exactly_one_row_and_fits_its_extra_bits() {
    for len in 3..=258u32 {
        let holds: Vec<usize> =
            (0..29usize).filter(|i| LEN_TO_CODE[*i].0 <= len && len < LEN_TO_CODE[*i].1).collect();
        assert_eq!(holds.len(), 1);
        assert_eq!(find_length_row(len), Some(holds[0]));
        let row = LEN_TO_CODE[holds[0]];
        assert!(len - row.0 < (1u32 << row.2));
        assert_eq!(row.3 as usize, 257 + holds[0]);
    }
    assert_eq!(find_length_row(2), None);
    assert_eq!(find_length_row(259), None);
    assert_eq!(find_length_row(258), Some(28));
    assert_eq!(find_length_row(257), Some(27));
}

#[test]
fn every_distance_has_exactly_one_row_and_fits_its_extra_bits() {
    for dist in 1..=32768u32 {
        let holds: Vec<usize> = (0..30usize)
            .filter(|i| DIST_TO_CODE[*i].0 <= dist && dist < DIST_TO_CODE[*i].1)
            .collect();
        assert_eq!(holds.len(), 1);
        assert_eq!(find_distance_row(dist), Some(holds[0]));
        let row = DIST_TO_CODE[holds[0]];
        assert!(dist - row.0 < (1u32 << row.2));
        assert_eq!(row.3 as usize, holds[0]);
    }
    assert_eq!(find_distance_row(0), None);
    assert_eq!(find_distance_row(32769), None);
    assert_eq!(find_distance_row(24577), Some(29));
}
