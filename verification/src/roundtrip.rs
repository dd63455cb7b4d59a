//! The proof that decoding undoes encoding.

use crate::bits::{
    byte_bits, lemma_lsb_bits_len, lemma_lsb_value_of_bits, lemma_pow2_values, lsb_bits, pow2,
};
use crate::block_splitter::{BlockView, all_tokens};
use crate::deflate::Token;
use crate::encoding::{
    CODE_LENGTH_ORDER, END_OF_BLOCK, block_bits, blocks_bits, code_length_lens,
    dynamic_lengths_ok, encodable, has_code, header_bits, lemma_code_length_full,
    lemma_code_length_valid, lengths_bits, order_bits, preamble_bits, stream_bits, token_bits,
    tokens_bits,
};
use crate::huffman::{
    code_bits, lemma_code_bits_len, lemma_decode_symbol, lemma_fixed_distance_valid,
    lemma_fixed_literal_valid, lemma_valid_lengths_bound, valid_lengths,
};
use crate::inflate::{
    accepted_lengths, inflate, inflate_block, inflate_block_data, inflate_blocks, read_bits,
    read_code_length_lens, read_dynamic_header, read_lengths, read_match, read_symbol,
};
use crate::lempel_ziv::{
    apply_token, expand, expand_from, lemma_expand_concat, token_fits, well_formed,
    well_formed_from,
};
use crate::tables::{
    DIST_TO_CODE, LEN_TO_CODE, distance_row, lemma_distance_row, lemma_length_row, length_row,
};
use vstd::prelude::*;

verus! {

/// Reading a code word gives its symbol.
pub proof fn lemma_read_symbol(lens: Seq<u8>, s: int, rest: Seq<bool>)
    requires
        valid_lengths(lens),
        has_code(lens, s),
    ensures
        read_symbol(lens, code_bits(lens, s) + rest) == Some((s, rest)),
{
    lemma_decode_symbol(lens, s, rest);
    lemma_code_bits_len(lens, s);
    assert((code_bits(lens, s) + rest).skip(lens[s] as int) =~= rest);
}

/// Reading a number written in `n` bits gives the number.
pub proof fn lemma_read_bits(v: nat, n: nat, rest: Seq<bool>)
    requires
        v < pow2(n),
    ensures
        read_bits(lsb_bits(v, n) + rest, n) == Some((v, rest)),
{
    lemma_lsb_bits_len(v, n);
    lemma_lsb_value_of_bits(v, n);
    let bits = lsb_bits(v, n) + rest;
    assert(bits.take(n as int) =~= lsb_bits(v, n));
    assert(bits.skip(n as int) =~= rest);
}

/// The bits of a run of tokens begin with the bits of its first token.
pub proof fn lemma_tokens_bits_front(lit: Seq<u8>, dist: Seq<u8>, tokens: Seq<Token>)
    requires
        tokens.len() > 0,
    ensures
        tokens_bits(lit, dist, tokens) == token_bits(lit, dist, tokens[0]) + tokens_bits(
            lit,
            dist,
            tokens.skip(1),
        ),
    decreases tokens.len(),
{
    if tokens.len() == 1 {
        assert(tokens.drop_last() =~= Seq::<Token>::empty());
        assert(tokens.skip(1) =~= Seq::<Token>::empty());
        assert(tokens_bits(lit, dist, tokens) =~= token_bits(lit, dist, tokens[0]) + tokens_bits(
            lit,
            dist,
            tokens.skip(1),
        ));
    } else {
        lemma_tokens_bits_front(lit, dist, tokens.drop_last());
        assert(tokens.drop_last().skip(1) =~= tokens.skip(1).drop_last());
        assert(tokens.skip(1).last() == tokens.last());
        assert(tokens_bits(lit, dist, tokens) =~= token_bits(lit, dist, tokens[0]) + tokens_bits(
            lit,
            dist,
            tokens.skip(1),
        ));
    }
}

/// Reading the bits of a match after its length symbol gives the match.
proof fn lemma_read_match(dist: Seq<u8>, len: u32, d: u32, rest: Seq<bool>)
    requires
        valid_lengths(dist),
        3 <= len <= 258,
        1 <= d <= 32768,
        has_code(dist, distance_row(d as int)),
    ensures
        ({
            let lr = length_row(len as int);
            let dr = distance_row(d as int);
            read_match(
                dist,
                257 + lr,
                lsb_bits((len - LEN_TO_CODE[lr].0) as nat, LEN_TO_CODE[lr].2 as nat) + (code_bits(
                    dist,
                    dr,
                ) + (lsb_bits((d - DIST_TO_CODE[dr].0) as nat, DIST_TO_CODE[dr].2 as nat) + rest)),
            ) == Some((len as int, d as int, rest))
        }),
{
    lemma_length_row(len as int);
    lemma_distance_row(d as int);
    let lr = length_row(len as int);
    let dr = distance_row(d as int);
    let a3 = lsb_bits((d - DIST_TO_CODE[dr].0) as nat, DIST_TO_CODE[dr].2 as nat) + rest;
    let a2 = code_bits(dist, dr) + a3;
    lemma_read_bits((len - LEN_TO_CODE[lr].0) as nat, LEN_TO_CODE[lr].2 as nat, a2);
    lemma_read_symbol(dist, dr, a3);
    lemma_read_bits((d - DIST_TO_CODE[dr].0) as nat, DIST_TO_CODE[dr].2 as nat, rest);
}

/// Decoding the bits of one token applies the token.
proof fn lemma_inflate_token(
    lit: Seq<u8>,
    dist: Seq<u8>,
    token: Token,
    rest: Seq<bool>,
    out: Seq<u8>,
)
    requires
        valid_lengths(lit),
        valid_lengths(dist),
        encodable(lit, dist, token),
        token_fits(out, token),
    ensures
        inflate_block_data(lit, dist, token_bits(lit, dist, token) + rest, out)
            == inflate_block_data(lit, dist, rest, apply_token(out, token)),
{
    match token {
        Token::Literal(b) => {
            lemma_read_symbol(lit, b as int, rest);
        },
        Token::Repeat(len, d) => {
            let lr = length_row(len as int);
            let dr = distance_row(d as int);
            lemma_length_row(len as int);
            let a3 = lsb_bits((d - DIST_TO_CODE[dr].0) as nat, DIST_TO_CODE[dr].2 as nat) + rest;
            let a2 = code_bits(dist, dr) + a3;
            let a1 = lsb_bits((len - LEN_TO_CODE[lr].0) as nat, LEN_TO_CODE[lr].2 as nat) + a2;
            assert(token_bits(lit, dist, token) + rest =~= code_bits(lit, 257 + lr) + a1);
            lemma_read_symbol(lit, 257 + lr, a1);
            lemma_read_match(dist, len, d, rest);
        },
    }
}

/// Decoding the bits of tokens and an end-of-block symbol gives what the
/// tokens stand for, and leaves what follows.
pub proof fn lemma_inflate_tokens(
    lit: Seq<u8>,
    dist: Seq<u8>,
    tokens: Seq<Token>,
    rest: Seq<bool>,
    out: Seq<u8>,
)
    requires
        valid_lengths(lit),
        valid_lengths(dist),
        has_code(lit, END_OF_BLOCK as int),
        forall|i: int| 0 <= i < tokens.len() ==> encodable(lit, dist, #[trigger] tokens[i]),
        well_formed_from(out, tokens),
    ensures
        inflate_block_data(
            lit,
            dist,
            tokens_bits(lit, dist, tokens) + code_bits(lit, END_OF_BLOCK as int) + rest,
            out,
        ) == Some((expand_from(out, tokens), rest)),
    decreases tokens.len(),
{
    let end = code_bits(lit, END_OF_BLOCK as int);
    let bits = tokens_bits(lit, dist, tokens) + end + rest;
    if tokens.len() == 0 {
        assert(bits =~= end + rest);
        lemma_read_symbol(lit, END_OF_BLOCK as int, rest);
    } else {
        let t = tokens[0];
        let tail = tokens.skip(1);
        let after = tokens_bits(lit, dist, tail) + end + rest;
        lemma_tokens_bits_front(lit, dist, tokens);
        assert(bits =~= token_bits(lit, dist, t) + after);
        assert forall|i: int| 0 <= i < tail.len() implies encodable(
            lit,
            dist,
            #[trigger] tail[i],
        ) by {
            assert(tail[i] == tokens[i + 1]);
        }
        assert(encodable(lit, dist, tokens[0]));
        lemma_inflate_token(lit, dist, t, after, out);
        lemma_inflate_tokens(lit, dist, tail, rest, apply_token(out, t));
    }
}

/// The bits of a run of code lengths begin with the code word of the first.
pub proof fn lemma_lengths_bits_front(cl: Seq<u8>, lens: Seq<u8>)
    requires
        lens.len() > 0,
    ensures
        lengths_bits(cl, lens) == code_bits(cl, lens[0] as int) + lengths_bits(cl, lens.skip(1)),
    decreases lens.len(),
{
    if lens.len() == 1 {
        assert(lens.drop_last() =~= Seq::<u8>::empty());
        assert(lens.skip(1) =~= Seq::<u8>::empty());
        assert(lengths_bits(cl, lens) =~= code_bits(cl, lens[0] as int) + lengths_bits(
            cl,
            lens.skip(1),
        ));
    } else {
        lemma_lengths_bits_front(cl, lens.drop_last());
        assert(lens.drop_last().skip(1) =~= lens.skip(1).drop_last());
        assert(lens.skip(1).last() == lens.last());
        assert(lengths_bits(cl, lens) =~= code_bits(cl, lens[0] as int) + lengths_bits(
            cl,
            lens.skip(1),
        ));
    }
}

/// The bits of two runs of code lengths are the bits of the runs joined.
pub proof fn lemma_lengths_bits_concat(cl: Seq<u8>, a: Seq<u8>, b: Seq<u8>)
    ensures
        lengths_bits(cl, a + b) == lengths_bits(cl, a) + lengths_bits(cl, b),
    decreases b.len(),
{
    if b.len() == 0 {
        assert(a + b =~= a);
        assert(lengths_bits(cl, a) + lengths_bits(cl, b) =~= lengths_bits(cl, a));
    } else {
        lemma_lengths_bits_concat(cl, a, b.drop_last());
        assert((a + b).drop_last() =~= a + b.drop_last());
        assert((a + b).last() == b.last());
        assert(lengths_bits(cl, a + b) =~= lengths_bits(cl, a) + lengths_bits(cl, b));
    }
}

/// Reading code lengths that were each sent as their own code word gives
/// them back.
proof fn lemma_read_lengths(cl: Seq<u8>, all: Seq<u8>, k: int, rest: Seq<bool>)
    requires
        valid_lengths(cl),
        0 <= k <= all.len(),
        forall|i: int|
            0 <= i < all.len() ==> (#[trigger] all[i]) < 16 && has_code(cl, all[i] as int),
    ensures
        read_lengths(cl, lengths_bits(cl, all.skip(k)) + rest, all.len(), all.take(k)) == Some(
            (all, rest),
        ),
    decreases all.len() - k,
{
    let bits = lengths_bits(cl, all.skip(k)) + rest;
    if k == all.len() {
        assert(all.take(k) =~= all);
        assert(all.skip(k) =~= Seq::<u8>::empty());
        assert(bits =~= rest);
    } else {
        let s = all[k];
        let after = lengths_bits(cl, all.skip(k + 1)) + rest;
        lemma_lengths_bits_front(cl, all.skip(k));
        assert(all.skip(k)[0] == s);
        assert(all.skip(k).skip(1) =~= all.skip(k + 1));
        assert(bits =~= code_bits(cl, s as int) + after);
        lemma_read_symbol(cl, s as int, after);
        assert(all.take(k).push(s) =~= all.take(k + 1));
        lemma_read_lengths(cl, all, k + 1, rest);
    }
}

/// The lengths of the code-length code after the first `n` in the order of
/// [`CODE_LENGTH_ORDER`] have been set.
spec fn partly_set(cl: Seq<u8>, n: nat) -> Seq<u8>
    decreases n,
{
    if n == 0 {
        Seq::new(19, |i: int| 0u8)
    } else {
        partly_set(cl, (n - 1) as nat).update(
            CODE_LENGTH_ORDER[n - 1] as int,
            cl[CODE_LENGTH_ORDER[n - 1] as int],
        )
    }
}

proof fn lemma_read_order(cl: Seq<u8>, n: nat, rest: Seq<bool>)
    requires
        n <= 19,
        cl.len() == 19,
        forall|i: int| 0 <= i < 19 ==> #[trigger] cl[i] < 8,
    ensures
        read_code_length_lens(order_bits(cl, n) + rest, n) == Some((partly_set(cl, n), rest)),
    decreases n,
{
    if n == 0 {
        assert(order_bits(cl, 0) + rest =~= rest);
    } else {
        let len = cl[CODE_LENGTH_ORDER[n - 1] as int];
        let after = lsb_bits(len as nat, 3) + rest;
        assert(order_bits(cl, n) + rest =~= order_bits(cl, (n - 1) as nat) + after);
        lemma_read_order(cl, (n - 1) as nat, after);
        assert(pow2(3) == 8) by {
            lemma_pow2_values();
        }
        lemma_read_bits(len as nat, 3, rest);
    }
}

/// The order names every length of the code-length code.
proof fn lemma_all_set(cl: Seq<u8>)
    requires
        cl.len() == 19,
    ensures
        partly_set(cl, 19) == cl,
{
    reveal_with_fuel(partly_set, 20);
    assert(partly_set(cl, 19) =~= cl);
}

/// Reading what a dynamic block sends before its data gives its code
/// lengths.
pub proof fn lemma_read_dynamic_header(lit: Seq<u8>, dist: Seq<u8>, rest: Seq<bool>)
    requires
        dynamic_lengths_ok(lit, dist),
        accepted_lengths(lit, dist),
    ensures
        read_dynamic_header(preamble_bits(lit, dist) + rest) == Some((lit, dist, rest)),
{
    reveal(preamble_bits);
    reveal(read_dynamic_header);
    let cl = code_length_lens();
    let all = lit + dist;
    let b4 = lengths_bits(cl, all) + rest;
    let b3 = order_bits(cl, 19) + b4;
    let b2 = lsb_bits(15, 4) + b3;
    let b1 = lsb_bits(29, 5) + b2;
    lemma_lengths_bits_concat(cl, lit, dist);
    assert(preamble_bits(lit, dist) + rest =~= lsb_bits(29, 5) + b1);
    lemma_pow2_values();
    lemma_read_bits(29, 5, b1);
    lemma_read_bits(29, 5, b2);
    lemma_read_bits(15, 4, b3);
    lemma_read_order(cl, 19, b4);
    lemma_all_set(cl);
    lemma_code_length_valid();
    lemma_code_length_full();
    lemma_valid_lengths_bound(lit);
    lemma_valid_lengths_bound(dist);
    assert(all.skip(0) =~= all);
    assert(all.take(0) =~= Seq::<u8>::empty());
    lemma_read_lengths(cl, all, 0, rest);
    assert(all.take(286) =~= lit);
    assert(all.skip(286) =~= dist);
}

/// The bits of the blocks from the `i`-th on.
pub open spec fn later_bits(blocks: Seq<BlockView>, i: nat) -> Seq<bool>
    decreases blocks.len() - i,
{
    if i >= blocks.len() {
        Seq::empty()
    } else {
        block_bits(blocks[i as int], i + 1 == blocks.len()) + later_bits(blocks, i + 1)
    }
}

/// The tokens of the blocks from the `i`-th on.
pub open spec fn later_tokens(blocks: Seq<BlockView>, i: nat) -> Seq<Token>
    decreases blocks.len() - i,
{
    if i >= blocks.len() {
        Seq::empty()
    } else {
        blocks[i as int].tokens() + later_tokens(blocks, i + 1)
    }
}

/// A stream is its first `i` blocks followed by the others.
proof fn lemma_blocks_bits_split(blocks: Seq<BlockView>, i: nat)
    requires
        i <= blocks.len(),
    ensures
        stream_bits(blocks) == blocks_bits(blocks, i) + later_bits(blocks, i),
    decreases blocks.len() - i,
{
    if i == blocks.len() {
        assert(blocks_bits(blocks, i) + later_bits(blocks, i) =~= stream_bits(blocks));
    } else {
        lemma_blocks_bits_split(blocks, i + 1);
        let block = block_bits(blocks[i as int], i + 1 == blocks.len());
        assert(blocks_bits(blocks, i + 1) == blocks_bits(blocks, i) + block);
        assert(later_bits(blocks, i) == block + later_bits(blocks, i + 1));
        assert(blocks_bits(blocks, i) + (block + later_bits(blocks, i + 1)) =~= (blocks_bits(
            blocks,
            i,
        ) + block) + later_bits(blocks, i + 1));
    }
}

/// The tokens of a stream are those of its first `i` blocks followed by
/// those of the others.
proof fn lemma_tokens_split(blocks: Seq<BlockView>, i: nat)
    requires
        i <= blocks.len(),
    ensures
        all_tokens(blocks) == all_tokens(blocks.take(i as int)) + later_tokens(blocks, i),
    decreases blocks.len() - i,
{
    if i == blocks.len() {
        assert(blocks.take(i as int) =~= blocks);
        assert(all_tokens(blocks.take(i as int)) + later_tokens(blocks, i) =~= all_tokens(blocks));
    } else {
        lemma_tokens_split(blocks, i + 1);
        let first = blocks.take(i as int);
        let next = blocks.take(i + 1 as int);
        assert(next.drop_last() =~= first);
        assert(next.last() == blocks[i as int]);
        let tokens = blocks[i as int].tokens();
        assert(all_tokens(next) == all_tokens(first) + tokens);
        assert(later_tokens(blocks, i) == tokens + later_tokens(blocks, i + 1));
        assert(all_tokens(first) + (tokens + later_tokens(blocks, i + 1)) =~= (all_tokens(first)
            + tokens) + later_tokens(blocks, i + 1));
    }
}

/// Decoding one block gives what its tokens stand for, and leaves what
/// follows the block.
proof fn lemma_inflate_block(block: BlockView, is_final: bool, rest: Seq<bool>, out: Seq<u8>)
    requires
        block.decodable(),
        well_formed_from(out, block.tokens()),
    ensures
        ({
            let bits = block_bits(block, is_final) + rest;
            &&& bits.len() >= 3
            &&& bits[0] == is_final
            &&& inflate_block(bits[1], bits[2], bits.skip(3), out) == Some(
                (expand_from(out, block.tokens()), rest),
            )
        }),
{
    let lit = block.literal_lens();
    let dist = block.distance_lens();
    let bits = block_bits(block, is_final) + rest;
    let data = tokens_bits(lit, dist, block.tokens()) + code_bits(lit, END_OF_BLOCK as int) + rest;
    if block.is_dynamic() {
        assert(bits =~= header_bits(is_final, true) + (preamble_bits(lit, dist) + data));
        assert(bits.skip(3) =~= preamble_bits(lit, dist) + data);
        lemma_read_dynamic_header(lit, dist, data);
    } else {
        assert(bits =~= header_bits(is_final, false) + data);
        assert(bits.skip(3) =~= data);
        lemma_fixed_literal_valid();
        lemma_fixed_distance_valid();
    }
    lemma_inflate_tokens(lit, dist, block.tokens(), rest, out);
}

/// Decoding the blocks of a stream from the `i`-th on gives what their
/// tokens stand for, whatever follows the final block.
proof fn lemma_inflate_blocks_from(blocks: Seq<BlockView>, i: nat, rest: Seq<bool>, out: Seq<u8>)
    requires
        i < blocks.len(),
        forall|j: int| 0 <= j < blocks.len() ==> (#[trigger] blocks[j]).decodable(),
        well_formed_from(out, later_tokens(blocks, i)),
    ensures
        inflate_blocks(later_bits(blocks, i) + rest, out) == Some(
            expand_from(out, later_tokens(blocks, i)),
        ),
    decreases blocks.len() - i,
{
    let block = blocks[i as int];
    let is_final = i + 1 == blocks.len();
    let after = later_bits(blocks, i + 1) + rest;
    let bits = later_bits(blocks, i) + rest;
    assert(bits =~= block_bits(block, is_final) + after);
    assert(block.decodable());
    lemma_expand_concat(out, block.tokens(), later_tokens(blocks, i + 1));
    lemma_inflate_block(block, is_final, after, out);
    if is_final {
        assert(later_tokens(blocks, i + 1) =~= Seq::<Token>::empty());
    } else {
        lemma_inflate_blocks_from(blocks, i + 1, rest, expand_from(out, block.tokens()));
    }
}

/// Round trip: a byte string that begins with the bits of blocks that
/// decoders take decodes to what the tokens of the blocks stand for.
pub proof fn lemma_stream_inflates(blocks: Seq<BlockView>, stream: Seq<u8>)
    requires
        blocks.len() > 0,
        forall|j: int| 0 <= j < blocks.len() ==> (#[trigger] blocks[j]).decodable(),
        well_formed(all_tokens(blocks)),
        stream_bits(blocks).is_prefix_of(byte_bits(stream)),
    ensures
        inflate(stream) == Some(expand(all_tokens(blocks))),
{
    let bits = byte_bits(stream);
    let rest = bits.skip(stream_bits(blocks).len() as int);
    lemma_blocks_bits_split(blocks, 0);
    lemma_tokens_split(blocks, 0);
    assert(blocks.take(0) =~= Seq::<BlockView>::empty());
    assert(blocks_bits(blocks, 0) + later_bits(blocks, 0) =~= later_bits(blocks, 0));
    assert(all_tokens(blocks.take(0)) + later_tokens(blocks, 0) =~= later_tokens(blocks, 0));
    assert(bits =~= later_bits(blocks, 0) + rest);
    lemma_inflate_blocks_from(blocks, 0, rest, Seq::empty());
}

} // verus!
