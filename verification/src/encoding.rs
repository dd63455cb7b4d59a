//! The bit layout of tokens and block headers.

use crate::bits::{byte_bits, lemma_lsb_bits_len, lemma_pow2_values, lsb_bits, zero_bits};
use crate::block_splitter::BlockView;
use crate::deflate::Token;
use crate::huffman::{
    code_bits, full_code, kraft_sum, lemma_code_bits_len, lemma_valid_lengths_bound,
    valid_lengths,
};
use crate::tables::{DIST_TO_CODE, LEN_TO_CODE, distance_row, length_row};
use vstd::prelude::*;

verus! {

/// The symbol of the literal/length alphabet that ends a block.
pub const END_OF_BLOCK: usize = 256;

/// The size of the literal/length alphabet of a dynamic block.
pub const LITERAL_SYMBOLS: usize = 286;

/// The size of the distance alphabet.
pub const DISTANCE_SYMBOLS: usize = 30;

/// The order in which a dynamic block lists the lengths of its code-length
/// code.
pub const CODE_LENGTH_ORDER: [usize; 19] = [
    16,
    17,
    18,
    0,
    8,
    7,
    9,
    6,
    10,
    5,
    11,
    4,
    12,
    3,
    13,
    2,
    14,
    1,
    15,
];

/// The code under `lens` has a code word for the symbol `s`.
pub open spec fn has_code(lens: Seq<u8>, s: int) -> bool {
    0 <= s < lens.len() && lens[s] > 0
}

/// The token is within the format's ranges, and the two codes have a code
/// word for each symbol that it is written with.
pub open spec fn encodable(lit: Seq<u8>, dist: Seq<u8>, token: Token) -> bool {
    match token {
        Token::Literal(b) => has_code(lit, b as int),
        Token::Repeat(len, d) => {
            &&& 3 <= len <= 258
            &&& 1 <= d <= 32768
            &&& has_code(lit, 257 + length_row(len as int))
            &&& has_code(dist, distance_row(d as int))
        },
    }
}

/// The code lengths can head a dynamic block: one length for each of the
/// 286 literal/length and 30 distance symbols, both sets valid, and a code
/// word for the end-of-block symbol.
pub open spec fn dynamic_lengths_ok(lit: Seq<u8>, dist: Seq<u8>) -> bool {
    &&& lit.len() == 286
    &&& dist.len() == 30
    &&& valid_lengths(lit)
    &&& valid_lengths(dist)
    &&& lit[256] > 0
}

/// The bits of one token: a literal is its code word; a match is the code
/// word of its length's row, the length's offset in that row, the code word
/// of its distance's row, and the distance's offset in that row.
pub open spec fn token_bits(lit: Seq<u8>, dist: Seq<u8>, token: Token) -> Seq<bool> {
    match token {
        Token::Literal(b) => code_bits(lit, b as int),
        Token::Repeat(len, d) => {
            let lr = length_row(len as int);
            let dr = distance_row(d as int);
            code_bits(lit, 257 + lr) + lsb_bits(
                (len - LEN_TO_CODE[lr].0) as nat,
                LEN_TO_CODE[lr].2 as nat,
            ) + code_bits(dist, dr) + lsb_bits(
                (d - DIST_TO_CODE[dr].0) as nat,
                DIST_TO_CODE[dr].2 as nat,
            )
        },
    }
}

/// The bits of a run of tokens.
pub open spec fn tokens_bits(lit: Seq<u8>, dist: Seq<u8>, tokens: Seq<Token>) -> Seq<bool>
    decreases tokens.len(),
{
    if tokens.len() == 0 {
        Seq::empty()
    } else {
        tokens_bits(lit, dist, tokens.drop_last()) + token_bits(lit, dist, tokens.last())
    }
}

/// The three header bits of a block: the final-block flag, then the block
/// type, `01` for fixed codes and `10` for dynamic ones, low bit first.
pub open spec fn header_bits(is_final: bool, dynamic: bool) -> Seq<bool> {
    seq![is_final, !dynamic, dynamic]
}

/// The lengths of the code in which a dynamic block sends its code
/// lengths: four bits for each of the lengths 0 to 15, and no code word for
/// the three repeat symbols.
pub open spec fn code_length_lens() -> Seq<u8> {
    Seq::new(19, |s: int| if s < 16 { 4u8 } else { 0u8 })
}

/// The first `n` entries of the code-length code's lengths, three bits
/// each, in the order of [`CODE_LENGTH_ORDER`].
pub open spec fn order_bits(cl: Seq<u8>, n: nat) -> Seq<bool>
    decreases n,
{
    if n == 0 {
        Seq::empty()
    } else {
        order_bits(cl, (n - 1) as nat) + lsb_bits(cl[CODE_LENGTH_ORDER[n - 1] as int] as nat, 3)
    }
}

/// A run of code lengths, each sent as its code word under `cl`.
pub open spec fn lengths_bits(cl: Seq<u8>, lens: Seq<u8>) -> Seq<bool>
    decreases lens.len(),
{
    if lens.len() == 0 {
        Seq::empty()
    } else {
        lengths_bits(cl, lens.drop_last()) + code_bits(cl, lens.last() as int)
    }
}

/// What a dynamic block sends between its header and its tokens: the
/// counts of literal/length codes (less 257), of distance codes (less 1) and
/// of code-length code lengths (less 4), those lengths, and then the
/// literal/length and distance code lengths.
#[verifier::opaque]
pub open spec fn preamble_bits(lit: Seq<u8>, dist: Seq<u8>) -> Seq<bool> {
    lsb_bits((lit.len() - 257) as nat, 5) + lsb_bits((dist.len() - 1) as nat, 5) + lsb_bits(15, 4)
        + order_bits(code_length_lens(), 19) + lengths_bits(code_length_lens(), lit)
        + lengths_bits(code_length_lens(), dist)
}

/// One block of a stream: its header, the code lengths if it brings its
/// own codes, its tokens and the end-of-block symbol.
pub open spec fn block_bits(block: BlockView, is_final: bool) -> Seq<bool> {
    let lit = block.literal_lens();
    let dist = block.distance_lens();
    header_bits(is_final, block.is_dynamic()) + (if block.is_dynamic() {
        preamble_bits(lit, dist)
    } else {
        Seq::empty()
    }) + tokens_bits(lit, dist, block.tokens()) + code_bits(lit, END_OF_BLOCK as int)
}

/// The first `n` blocks of a stream. The last block of `blocks` is the one
/// that is marked final.
pub open spec fn blocks_bits(blocks: Seq<BlockView>, n: nat) -> Seq<bool>
    decreases n,
{
    if n == 0 {
        Seq::empty()
    } else {
        blocks_bits(blocks, (n - 1) as nat) + block_bits(blocks[n - 1], n == blocks.len())
    }
}

/// The stream of the blocks, before its last byte is filled up.
pub open spec fn stream_bits(blocks: Seq<BlockView>) -> Seq<bool> {
    blocks_bits(blocks, blocks.len())
}

/// `stream` is the stream of the blocks in bytes: their bits, and fewer
/// than eight zero bits that fill up the last byte.
pub open spec fn is_stream_of(blocks: Seq<BlockView>, stream: Seq<u8>) -> bool {
    let bits = stream_bits(blocks);
    &&& bits.len() <= 8 * stream.len() < bits.len() + 8
    &&& byte_bits(stream) == bits + zero_bits((8 * stream.len() - bits.len()) as nat)
}

/// A token that can be written is as long as its two code words and its
/// extra bits.
pub proof fn lemma_token_bits_len(lit: Seq<u8>, dist: Seq<u8>, token: Token)
    requires
        encodable(lit, dist, token),
    ensures
        token_bits(lit, dist, token).len() == match token {
            Token::Literal(b) => lit[b as int] as int,
            Token::Repeat(len, d) => lit[257 + length_row(len as int)] + LEN_TO_CODE[length_row(
                len as int,
            )].2 + dist[distance_row(d as int)] + DIST_TO_CODE[distance_row(d as int)].2,
        },
{
    match token {
        Token::Literal(b) => {
            lemma_code_bits_len(lit, b as int);
        },
        Token::Repeat(len, d) => {
            let lr = length_row(len as int);
            let dr = distance_row(d as int);
            lemma_code_bits_len(lit, 257 + lr);
            lemma_code_bits_len(dist, dr);
            lemma_lsb_bits_len((len - LEN_TO_CODE[lr].0) as nat, LEN_TO_CODE[lr].2 as nat);
            lemma_lsb_bits_len((d - DIST_TO_CODE[dr].0) as nat, DIST_TO_CODE[dr].2 as nat);
        },
    }
}

/// Appending a token appends its bits.
pub proof fn lemma_tokens_bits_push(lit: Seq<u8>, dist: Seq<u8>, tokens: Seq<Token>, token: Token)
    ensures
        tokens_bits(lit, dist, tokens.push(token)) == tokens_bits(lit, dist, tokens) + token_bits(
            lit,
            dist,
            token,
        ),
{
    assert(tokens.push(token).drop_last() =~= tokens);
}

proof fn lemma_order_bits_len(cl: Seq<u8>, n: nat)
    ensures
        order_bits(cl, n).len() == 3 * n,
    decreases n,
{
    if n > 0 {
        lemma_order_bits_len(cl, (n - 1) as nat);
        lemma_lsb_bits_len(cl[CODE_LENGTH_ORDER[n - 1] as int] as nat, 3);
    }
}

proof fn lemma_lengths_bits_len(lens: Seq<u8>)
    requires
        forall|i: int| 0 <= i < lens.len() ==> #[trigger] lens[i] <= 15,
    ensures
        lengths_bits(code_length_lens(), lens).len() == 4 * lens.len(),
    decreases lens.len(),
{
    if lens.len() > 0 {
        lemma_lengths_bits_len(lens.drop_last());
        lemma_code_bits_len(code_length_lens(), lens.last() as int);
    }
}

/// What a dynamic block sends before its tokens is 1335 bits long.
pub proof fn lemma_preamble_len(lit: Seq<u8>, dist: Seq<u8>)
    requires
        lit.len() == 286,
        dist.len() == 30,
        valid_lengths(lit),
        valid_lengths(dist),
    ensures
        preamble_bits(lit, dist).len() == 1335,
{
    reveal(preamble_bits);
    lemma_valid_lengths_bound(lit);
    lemma_valid_lengths_bound(dist);
    lemma_lsb_bits_len(29, 5);
    lemma_lsb_bits_len(15, 4);
    lemma_order_bits_len(code_length_lens(), 19);
    lemma_lengths_bits_len(lit);
    lemma_lengths_bits_len(dist);
}

proof fn lemma_code_length_kraft(k: int)
    requires
        0 <= k <= 19,
    ensures
        kraft_sum(code_length_lens().take(k), 15) == if k <= 16 {
            2048 * k
        } else {
            32768
        },
    decreases k,
{
    lemma_pow2_values();
    if k > 0 {
        lemma_code_length_kraft(k - 1);
        assert(code_length_lens().take(k).drop_last() =~= code_length_lens().take(k - 1));
    }
}

/// The code-length code is full.
pub proof fn lemma_code_length_full()
    ensures
        full_code(code_length_lens()),
{
    lemma_code_length_kraft(19);
    assert(code_length_lens().take(19) =~= code_length_lens());
    lemma_pow2_values();
}

/// The code-length code is valid.
pub proof fn lemma_code_length_valid()
    ensures
        valid_lengths(code_length_lens()),
{
    reveal(valid_lengths);
    lemma_code_length_kraft(19);
    assert(code_length_lens().take(19) =~= code_length_lens());
    lemma_pow2_values();
}

} // verus!
