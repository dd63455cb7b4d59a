//! What a DEFLATE stream means: the decoder of the format, in spec functions.
//!
//! The functions here are not executable. They say which byte string a
//! sequence of bits stands for, so that the compressor's contract can say
//! that its output stands for its input. All three kinds of block are
//! covered, though the compressor makes no stored ones.

use crate::bits::lsb_value;
use crate::encoding::CODE_LENGTH_ORDER;
use crate::huffman::{
    decode_symbol, empty_code, fixed_distance_lens, fixed_literal_lens, full_code, lone_code,
    valid_lengths,
};
use crate::lempel_ziv::copy_back;
use crate::tables::{DIST_TO_CODE, LEN_TO_CODE, distance_row, length_row};
use vstd::prelude::*;

verus! {

/// Reads a number of `n` bits, least significant bit first. Gives the
/// number and the bits that follow it.
pub open spec fn read_bits(bits: Seq<bool>, n: nat) -> Option<(nat, Seq<bool>)> {
    if bits.len() < n {
        None
    } else {
        Some((lsb_value(bits.take(n as int)), bits.skip(n as int)))
    }
}

/// Reads the symbol whose code word the bits begin with. Gives the symbol
/// and the bits that follow its code word.
pub open spec fn read_symbol(lens: Seq<u8>, bits: Seq<bool>) -> Option<(int, Seq<bool>)> {
    match decode_symbol(lens, bits) {
        Some(s) => if 0 < lens[s] <= bits.len() {
            Some((s, bits.skip(lens[s] as int)))
        } else {
            None
        },
        None => None,
    }
}

/// Reads a match after its length symbol `s`: the extra bits of the length,
/// the distance symbol and its extra bits. Gives the length, the distance
/// and the bits that follow.
pub open spec fn read_match(dist: Seq<u8>, s: int, bits: Seq<bool>) -> Option<
    (int, int, Seq<bool>),
> {
    let length_row = LEN_TO_CODE[s - 257];
    match read_bits(bits, length_row.2 as nat) {
        None => None,
        Some((length_offset, bits)) => match read_symbol(dist, bits) {
            None => None,
            Some((d, bits)) => if d >= 30 {
                None
            } else {
                let distance_row = DIST_TO_CODE[d];
                match read_bits(bits, distance_row.2 as nat) {
                    None => None,
                    Some((distance_offset, bits)) => Some(
                        (length_row.0 + length_offset, distance_row.0 + distance_offset, bits),
                    ),
                }
            },
        },
    }
}

/// Decodes the data of one block up to and including its end-of-block
/// symbol, appending to `out`. Gives the output and the bits that follow
/// the block.
pub open spec fn inflate_block_data(
    lit: Seq<u8>,
    dist: Seq<u8>,
    bits: Seq<bool>,
    out: Seq<u8>,
) -> Option<(Seq<u8>, Seq<bool>)>
    decreases bits.len(),
{
    match read_symbol(lit, bits) {
        None => None,
        Some((s, rest)) => if s < 256 {
            inflate_block_data(lit, dist, rest, out.push(s as u8))
        } else if s == 256 {
            Some((out, rest))
        } else if s > 285 {
            None
        } else {
            match read_match(dist, s, rest) {
                None => None,
                Some((length, distance, rest2)) => if distance > out.len() {
                    None
                } else {
                    inflate_block_data(lit, dist, rest2, copy_back(out, length as nat, distance))
                },
            }
        },
    }
}

/// Reads the first `n` lengths of the code-length code, three bits each, in
/// the order of [`CODE_LENGTH_ORDER`]; the lengths not sent are zero.
pub open spec fn read_code_length_lens(bits: Seq<bool>, n: nat) -> Option<(Seq<u8>, Seq<bool>)>
    decreases n,
{
    if n == 0 {
        Some((Seq::new(19, |i: int| 0u8), bits))
    } else if n > 19 {
        None
    } else {
        match read_code_length_lens(bits, (n - 1) as nat) {
            None => None,
            Some((cl, rest)) => match read_bits(rest, 3) {
                None => None,
                Some((len, rest)) => Some(
                    (cl.update(CODE_LENGTH_ORDER[n - 1] as int, len as u8), rest),
                ),
            },
        }
    }
}

/// `lens` followed by `n` times the length `len`.
pub open spec fn repeat_length(lens: Seq<u8>, len: u8, n: nat) -> Seq<u8> {
    lens + Seq::new(n, |i: int| len)
}

/// Reads code lengths sent in the code-length code `cl` until there are
/// `count` of them. The symbols 0 to 15 are lengths; 16 repeats the last
/// length 3 to 6 times, 17 and 18 stand for 3 to 10 and 11 to 138 zeros.
pub open spec fn read_lengths(cl: Seq<u8>, bits: Seq<bool>, count: nat, lens: Seq<u8>) -> Option<
    (Seq<u8>, Seq<bool>),
>
    decreases bits.len(),
{
    if lens.len() == count {
        Some((lens, bits))
    } else if lens.len() > count {
        None
    } else {
        match read_symbol(cl, bits) {
            None => None,
            Some((s, rest)) => if s < 16 {
                read_lengths(cl, rest, count, lens.push(s as u8))
            } else if s == 16 {
                match read_bits(rest, 2) {
                    None => None,
                    Some((n, rest2)) => if lens.len() == 0 {
                        None
                    } else {
                        read_lengths(cl, rest2, count, repeat_length(lens, lens.last(), 3 + n))
                    },
                }
            } else if s == 17 {
                match read_bits(rest, 3) {
                    None => None,
                    Some((n, rest2)) => read_lengths(
                        cl,
                        rest2,
                        count,
                        repeat_length(lens, 0, 3 + n),
                    ),
                }
            } else if s == 18 {
                match read_bits(rest, 7) {
                    None => None,
                    Some((n, rest2)) => read_lengths(
                        cl,
                        rest2,
                        count,
                        repeat_length(lens, 0, 11 + n),
                    ),
                }
            } else {
                None
            },
        }
    }
}

/// The code lengths are such as decoders take for the two alphabets of a
/// dynamic block. Each code is valid and leaves no bit pattern unused,
/// unless it has a single code word of one bit; the distance code may also
/// have no code word; and the end-of-block symbol has one.
pub open spec fn accepted_lengths(lit: Seq<u8>, dist: Seq<u8>) -> bool {
    &&& valid_lengths(lit)
    &&& full_code(lit) || lone_code(lit)
    &&& lit.len() > 256 && lit[256] > 0
    &&& valid_lengths(dist)
    &&& full_code(dist) || lone_code(dist) || empty_code(dist)
}

/// Reads what a dynamic block sends before its data. Gives the code
/// lengths of the literal/length alphabet, those of the distance alphabet,
/// and the bits that follow.
#[verifier::opaque]
pub open spec fn read_dynamic_header(bits: Seq<bool>) -> Option<(Seq<u8>, Seq<u8>, Seq<bool>)> {
    match read_bits(bits, 5) {
        None => None,
        Some((hlit, bits)) => match read_bits(bits, 5) {
            None => None,
            Some((hdist, bits)) => match read_bits(bits, 4) {
                None => None,
                Some((hclen, bits)) => match read_code_length_lens(bits, hclen + 4) {
                    None => None,
                    Some((cl, bits)) => if !valid_lengths(cl) || !full_code(cl) || hlit + 257
                        > 286 || hdist + 1 > 30 {
                        None
                    } else {
                        match read_lengths(cl, bits, hlit + 257 + hdist + 1, Seq::empty()) {
                            None => None,
                            Some((lens, bits)) => {
                                let lit = lens.take(hlit + 257 as int);
                                let dist = lens.skip(hlit + 257 as int);
                                if accepted_lengths(lit, dist) {
                                    Some((lit, dist, bits))
                                } else {
                                    None
                                }
                            },
                        }
                    },
                },
            },
        },
    }
}

/// Reads `n` bytes.
pub open spec fn read_bytes(bits: Seq<bool>, n: nat) -> Option<(Seq<u8>, Seq<bool>)> {
    if bits.len() < 8 * n {
        None
    } else {
        Some(
            (
                Seq::new(n, |i: int| lsb_value(bits.subrange(8 * i, 8 * i + 8)) as u8),
                bits.skip(8 * n as int),
            ),
        )
    }
}

/// Decodes a stored block after its three header bits: the filling up to
/// the next byte, the number of bytes in sixteen bits, the same number with
/// every bit flipped, and the bytes themselves. The bits are what is left of
/// a stream of whole bytes, so the filling is as long as their number is
/// over a multiple of eight.
pub open spec fn inflate_stored(bits: Seq<bool>, out: Seq<u8>) -> Option<(Seq<u8>, Seq<bool>)> {
    match read_bits(bits.skip((bits.len() % 8) as int), 16) {
        None => None,
        Some((len, bits)) => match read_bits(bits, 16) {
            None => None,
            Some((flipped, bits)) => if len + flipped != 0xffff {
                None
            } else {
                match read_bytes(bits, len) {
                    None => None,
                    Some((bytes, bits)) => Some((out + bytes, bits)),
                }
            },
        },
    }
}

/// Decodes one block after its three header bits, of which the second and
/// the third give the kind of block.
pub open spec fn inflate_block(fixed: bool, dynamic: bool, bits: Seq<bool>, out: Seq<u8>) -> Option<
    (Seq<u8>, Seq<bool>),
> {
    if !fixed && !dynamic {
        inflate_stored(bits, out)
    } else if fixed && !dynamic {
        inflate_block_data(fixed_literal_lens(), fixed_distance_lens(), bits, out)
    } else if dynamic && !fixed {
        match read_dynamic_header(bits) {
            None => None,
            Some((lit, dist, rest)) => inflate_block_data(lit, dist, rest, out),
        }
    } else {
        None
    }
}

/// Decodes blocks up to and including the first one that is marked final,
/// appending to `out`. What follows the final block is ignored. The bits
/// are what is left of a stream of whole bytes.
pub open spec fn inflate_blocks(bits: Seq<bool>, out: Seq<u8>) -> Option<Seq<u8>>
    decreases bits.len(),
    via inflate_blocks_terminates
{
    if bits.len() < 3 {
        None
    } else {
        match inflate_block(bits[1], bits[2], bits.skip(3), out) {
            None => None,
            Some((out, rest)) => if bits[0] {
                Some(out)
            } else {
                inflate_blocks(rest, out)
            },
        }
    }
}

#[via_fn]
proof fn inflate_blocks_terminates(bits: Seq<bool>, out: Seq<u8>) {
    if bits.len() >= 3 {
        lemma_block_consumes(bits[1], bits[2], bits.skip(3), out);
    }
}

/// The data of a block is at least one bit long.
pub proof fn lemma_block_data_consumes(lit: Seq<u8>, dist: Seq<u8>, bits: Seq<bool>, out: Seq<u8>)
    ensures
        inflate_block_data(lit, dist, bits, out) matches Some((_, rest)) ==> rest.len()
            < bits.len(),
    decreases bits.len(),
{
    match read_symbol(lit, bits) {
        None => {},
        Some((s, rest)) => {
            if s < 256 {
                lemma_block_data_consumes(lit, dist, rest, out.push(s as u8));
            } else if 256 < s <= 285 {
                match read_match(dist, s, rest) {
                    None => {},
                    Some((length, distance, rest2)) => {
                        if distance <= out.len() {
                            lemma_block_data_consumes(
                                lit,
                                dist,
                                rest2,
                                copy_back(out, length as nat, distance),
                            );
                        }
                    },
                }
            }
        },
    }
}

/// Reading the lengths of the code-length code does not add bits.
pub proof fn lemma_code_length_lens_consumes(bits: Seq<bool>, n: nat)
    ensures
        read_code_length_lens(bits, n) matches Some((_, rest)) ==> rest.len() <= bits.len(),
    decreases n,
{
    if 0 < n <= 19 {
        lemma_code_length_lens_consumes(bits, (n - 1) as nat);
    }
}

/// Reading code lengths does not add bits.
pub proof fn lemma_lengths_consumes(cl: Seq<u8>, bits: Seq<bool>, count: nat, lens: Seq<u8>)
    ensures
        read_lengths(cl, bits, count, lens) matches Some((_, rest)) ==> rest.len() <= bits.len(),
    decreases bits.len(),
{
    if lens.len() < count {
        match read_symbol(cl, bits) {
            None => {},
            Some((s, rest)) => {
                if s < 16 {
                    lemma_lengths_consumes(cl, rest, count, lens.push(s as u8));
                } else if s == 16 {
                    match read_bits(rest, 2) {
                        None => {},
                        Some((n, rest2)) => {
                            if lens.len() > 0 {
                                lemma_lengths_consumes(
                                    cl,
                                    rest2,
                                    count,
                                    repeat_length(lens, lens.last(), 3 + n),
                                );
                            }
                        },
                    }
                } else if s == 17 {
                    match read_bits(rest, 3) {
                        None => {},
                        Some((n, rest2)) => {
                            lemma_lengths_consumes(cl, rest2, count, repeat_length(lens, 0, 3 + n));
                        },
                    }
                } else if s == 18 {
                    match read_bits(rest, 7) {
                        None => {},
                        Some((n, rest2)) => {
                            lemma_lengths_consumes(
                                cl,
                                rest2,
                                count,
                                repeat_length(lens, 0, 11 + n),
                            );
                        },
                    }
                }
            },
        }
    }
}

/// A block is at least one bit long after its header.
pub proof fn lemma_block_consumes(fixed: bool, dynamic: bool, bits: Seq<bool>, out: Seq<u8>)
    ensures
        inflate_block(fixed, dynamic, bits, out) matches Some((_, rest)) ==> rest.len()
            < bits.len(),
{
    if fixed && !dynamic {
        lemma_block_data_consumes(fixed_literal_lens(), fixed_distance_lens(), bits, out);
    } else if dynamic && !fixed {
        reveal(read_dynamic_header);
        match read_bits(bits, 5) {
            None => {},
            Some((hlit, b1)) => match read_bits(b1, 5) {
                None => {},
                Some((hdist, b2)) => match read_bits(b2, 4) {
                    None => {},
                    Some((hclen, b3)) => {
                        lemma_code_length_lens_consumes(b3, hclen + 4);
                        match read_code_length_lens(b3, hclen + 4) {
                            None => {},
                            Some((cl, b4)) => {
                                lemma_lengths_consumes(
                                    cl,
                                    b4,
                                    hlit + 257 + hdist + 1,
                                    Seq::empty(),
                                );
                            },
                        }
                    },
                },
            },
        }
        match read_dynamic_header(bits) {
            None => {},
            Some((lit, dist, rest)) => {
                lemma_block_data_consumes(lit, dist, rest, out);
            },
        }
    }
}

/// The byte string that a DEFLATE stream stands for, if it is one.
pub open spec fn inflate(stream: Seq<u8>) -> Option<Seq<u8>> {
    inflate_blocks(crate::bits::byte_bits(stream), Seq::empty())
}

} // verus!
