//! The bit emitter and the compressor's entry point.

use crate::bits::{
    byte_bits, lemma_byte_bits_len, lemma_byte_bits_push, lemma_lsb_bits_concat,
    lemma_lsb_bits_len, lemma_lsb_bits_mod, lemma_lsb_bits_pad, lemma_lsb_bits_split_byte,
    lemma_pow2_add, lemma_pow2_monotonic, lemma_pow2_std, lemma_pow2_values, lsb_bits, pow2,
    zero_bits,
};
use crate::block_splitter::{
    BLOCK_TOKENS, Block, BlockView, all_tokens, block_split, block_views,
    lemma_well_formed_in_range, split_of, well_chosen,
};
use crate::encoding::{
    CODE_LENGTH_ORDER, DISTANCE_SYMBOLS, END_OF_BLOCK, LITERAL_SYMBOLS, block_bits, blocks_bits,
    code_length_lens, dynamic_lengths_ok, encodable, has_code, header_bits, is_stream_of,
    lemma_code_length_valid, lemma_preamble_len, lemma_token_bits_len, lemma_tokens_bits_push,
    lengths_bits, order_bits, preamble_bits, stream_bits, token_bits, tokens_bits,
};
use crate::error::{DeflateError, Violation};
use crate::huffman::{
    HuffmanCode, Tree, calc_codes, code_bits, fixed_distance_lengths, fixed_distance_lens,
    fixed_literal_lengths, fixed_literal_lens, lemma_code_bits_len, lemma_fixed_distance_valid,
    lemma_fixed_literal_valid, lemma_tree_entry_bits, lemma_valid_lengths_bound, lengths_of,
    tree_of, valid_lengths,
};
use crate::inflate::inflate;
use crate::lempel_ziv::{
    MAX_CHAIN, distinct_start, expand, lemma_expand_counts, lemma_literals_expand,
    lemma_periodic_tokens, lemma_short_input_literals, lempel_ziv, periodic, tokens_from,
    well_formed,
};
use crate::roundtrip::lemma_stream_inflates;
use crate::tables::{
    DIST_TO_CODE, LEN_TO_CODE, distance_row, find_distance_row, find_length_row,
    lemma_distance_row, lemma_length_row, length_row,
};
use vstd::prelude::*;

verus! {

/// One step of the compressed form of a byte string.
#[derive(Clone, Copy, Debug, PartialEq, Eq)]
pub enum Token {
    /// The next byte.
    Literal(u8),
    /// `Repeat(len, dist)`: the next `len` bytes repeat the output starting
    /// `dist` bytes back.
    Repeat(u32, u32),
}

/// The rule that a token which cannot be written breaks.
pub open spec fn violation_of(token: Token) -> Violation {
    match token {
        Token::Literal(_) => Violation::SymbolWithoutCode,
        Token::Repeat(len, dist) => if !(3 <= len <= 258) {
            Violation::LengthOutOfRange
        } else if !(1 <= dist <= 32768) {
            Violation::DistanceOutOfRange
        } else {
            Violation::SymbolWithoutCode
        },
    }
}

/// The error for code lengths that cannot head a dynamic block.
pub open spec fn dynamic_lengths_error(lit: Seq<u8>, dist: Seq<u8>) -> DeflateError {
    if lit.len() == 286 && dist.len() == 30 && valid_lengths(lit) && valid_lengths(dist) {
        DeflateError::InternalInvariant(Violation::SymbolWithoutCode)
    } else {
        DeflateError::InvalidCodeLengths
    }
}

/// The token at `i` is the first of the tokens that cannot be written in
/// the codes, and `e` is its error.
pub open spec fn fails_at(
    lit: Seq<u8>,
    dist: Seq<u8>,
    tokens: Seq<Token>,
    i: int,
    e: DeflateError,
) -> bool {
    &&& 0 <= i < tokens.len()
    &&& forall|k: int| 0 <= k < i ==> encodable(lit, dist, #[trigger] tokens[k])
    &&& !encodable(lit, dist, tokens[i])
    &&& e == DeflateError::InternalInvariant(violation_of(tokens[i]))
}

/// `e` is the error of the first of the tokens that cannot be written in
/// the codes.
pub open spec fn tokens_fail_with(
    lit: Seq<u8>,
    dist: Seq<u8>,
    tokens: Seq<Token>,
    e: DeflateError,
) -> bool {
    exists|i: int| fails_at(lit, dist, tokens, i, e)
}

/// `e` is the error of the block: that of its code lengths if they cannot
/// head a dynamic block, else that of the first token that cannot be written.
pub open spec fn block_fails_with(block: BlockView, e: DeflateError) -> bool {
    if block.is_dynamic() && !dynamic_lengths_ok(block.literal_lens(), block.distance_lens()) {
        e == dynamic_lengths_error(block.literal_lens(), block.distance_lens())
    } else {
        tokens_fail_with(block.literal_lens(), block.distance_lens(), block.tokens(), e)
    }
}

/// `e` is the error of the first block that cannot be written.
pub open spec fn blocks_fail_with(blocks: Seq<BlockView>, e: DeflateError) -> bool {
    exists|j: int|
        {
            &&& 0 <= j < blocks.len()
            &&& forall|k: int| 0 <= k < j ==> (#[trigger] blocks[k]).wf()
            &&& block_fails_with(#[trigger] blocks[j], e)
        }
}

/// The bits of the full bytes followed by the pending ones.
#[verifier::opaque]
spec fn written_bits(out: Seq<u8>, pending: u32, count: u8) -> Seq<bool> {
    byte_bits(out) + lsb_bits(pending as nat, count as nat)
}

/// The two tables are the canonical code words of valid lengths, with a
/// code word for the end-of-block symbol.
#[verifier::opaque]
spec fn block_codes(literal: Seq<HuffmanCode>, distance: Seq<HuffmanCode>) -> bool {
    &&& valid_lengths(lengths_of(literal))
    &&& valid_lengths(lengths_of(distance))
    &&& literal == tree_of(lengths_of(literal))
    &&& distance == tree_of(lengths_of(distance))
    &&& literal.len() > 256
    &&& literal[256].length > 0
}

/// Writes the blocks of a DEFLATE stream bit by bit into a byte buffer.
///
/// A block is begun with [`DeflateWriter::new_fixed_codes_block`] or
/// [`DeflateWriter::new_dynamic_codes_block`], which first end the block
/// before it, and filled with [`DeflateWriter::write`].
/// [`DeflateWriter::finish`] ends the last block and hands out the bytes.
pub struct DeflateWriter {
    out: Vec<u8>,
    curr_bytes: u32,
    curr_full_bits: u8,
    literal_tree: Tree,
    distance_tree: Tree,
    in_block: bool,
}

impl DeflateWriter {
    /// Fewer than eight bits are pending, and inside a block the two code
    /// tables are the canonical ones of valid lengths that give the
    /// end-of-block symbol a code word.
    pub closed spec fn wf(&self) -> bool {
        &&& self.curr_full_bits < 8
        &&& self.curr_bytes < pow2(self.curr_full_bits as nat)
        &&& self.in_block ==> block_codes(self.literal_tree@, self.distance_tree@)
    }

    /// Every bit written so far, in stream order.
    pub closed spec fn bits(&self) -> Seq<bool> {
        written_bits(self.out@, self.curr_bytes, self.curr_full_bits)
    }

    /// The bytes that are complete.
    pub closed spec fn bytes(&self) -> Seq<u8> {
        self.out@
    }

    /// How many of the bits written do not fill a byte yet.
    pub closed spec fn pending_bits(&self) -> nat {
        self.curr_full_bits as nat
    }

    /// Fewer than eight bits are pending, and the complete bytes hold all
    /// the other bits in the order in which they were written.
    pub proof fn lemma_bits_layout(&self)
        requires
            self.wf(),
        ensures
            self.pending_bits() < 8,
            self.bits().len() == 8 * self.bytes().len() + self.pending_bits(),
            byte_bits(self.bytes()) == self.bits().take(8 * self.bytes().len() as int),
    {
        reveal(written_bits);
        lemma_byte_bits_len(self.out@);
        lemma_lsb_bits_len(self.curr_bytes as nat, self.curr_full_bits as nat);
        assert(byte_bits(self.bytes()) =~= self.bits().take(8 * self.bytes().len() as int));
    }

    /// Inside a block the two tables hold the canonical code words of their
    /// lengths, which are valid, and the end-of-block symbol has a code
    /// word.
    pub proof fn lemma_block_codes(&self)
        requires
            self.wf(),
            self.is_in_block(),
        ensures
            valid_lengths(self.literal_lengths()),
            valid_lengths(self.distance_lengths()),
            self.literal_codes() == tree_of(self.literal_lengths()),
            self.distance_codes() == tree_of(self.distance_lengths()),
            has_code(self.literal_lengths(), END_OF_BLOCK as int),
    {
        reveal(block_codes);
    }

    /// A block has been begun.
    pub closed spec fn is_in_block(&self) -> bool {
        self.in_block
    }

    /// The code words of the literal/length alphabet that are in force.
    pub closed spec fn literal_codes(&self) -> Seq<HuffmanCode> {
        self.literal_tree@
    }

    /// The code words of the distance alphabet that are in force.
    pub closed spec fn distance_codes(&self) -> Seq<HuffmanCode> {
        self.distance_tree@
    }

    /// The code lengths of the literal/length alphabet of the current block.
    pub open spec fn literal_lengths(&self) -> Seq<u8> {
        lengths_of(self.literal_codes())
    }

    /// The code lengths of the distance alphabet of the current block.
    pub open spec fn distance_lengths(&self) -> Seq<u8> {
        lengths_of(self.distance_codes())
    }

    /// A writer that has written nothing, is in no block and has no code
    /// words.
    pub fn new() -> (w: DeflateWriter)
        ensures
            w.wf(),
            w.bits() == Seq::<bool>::empty(),
            w.bytes() == Seq::<u8>::empty(),
            w.pending_bits() == 0,
            !w.is_in_block(),
            w.literal_codes() == Seq::<HuffmanCode>::empty(),
            w.distance_codes() == Seq::<HuffmanCode>::empty(),
    {
        let w = DeflateWriter {
            out: Vec::new(),
            curr_bytes: 0,
            curr_full_bits: 0,
            literal_tree: Vec::new(),
            distance_tree: Vec::new(),
            in_block: false,
        };
        proof {
            reveal(written_bits);
            assert(w.bits() =~= Seq::<bool>::empty());
        }
        w
    }

    /// Appends the `len` low bits of `bits`, least significant first. Bits
    /// beyond the 32 of `bits` are zero.
    pub fn write_bits(&mut self, bits: u32, len: u8)
        requires
            old(self).wf(),
        ensures
            final(self).wf(),
            final(self).bits() == old(self).bits() + lsb_bits(bits as nat, len as nat),
            final(self).is_in_block() == old(self).is_in_block(),
            final(self).literal_codes() == old(self).literal_codes(),
            final(self).distance_codes() == old(self).distance_codes(),
    {
        proof {
            reveal(written_bits);
        }
        let pending: u64 = self.curr_bytes as u64;
        let shift: u64 = self.curr_full_bits as u64;
        let width: u64 = len as u64;
        let value: u64 = if len < 32 {
            assert(1u64 << width >= 1) by (bit_vector)
                requires
                    width < 32,
            ;
            (bits as u64) & ((1u64 << width) - 1)
        } else {
            bits as u64
        };
        let mut acc: u64 = pending | (value << shift);
        let mut total: u32 = self.curr_full_bits as u32 + len as u32;
        proof {
            lemma_write_bits_start(pending, shift, bits, len, value, acc);
        }
        while total >= 8
            invariant
                acc < pow2(total as nat),
                total < 8 + 256,
                self.in_block == old(self).in_block,
                self.literal_tree@ == old(self).literal_tree@,
                self.distance_tree@ == old(self).distance_tree@,
                byte_bits(self.out@) + lsb_bits(acc as nat, total as nat) == old(self).bits()
                    + lsb_bits(bits as nat, len as nat),
            decreases total,
        {
            let low: u64 = acc & 0xff;
            let rest: u64 = acc >> 8;
            proof {
                assert(low == acc % 256 && rest == acc / 256) by (bit_vector)
                    requires
                        low == acc & 0xff,
                        rest == acc >> 8,
                ;
                lemma_lsb_bits_split_byte(acc as nat, total as nat);
                lemma_byte_bits_push(self.out@, low as u8);
                assert(pow2(total as nat) == 256 * pow2((total - 8) as nat)) by {
                    lemma_pow2_add(8, (total - 8) as nat);
                    lemma_pow2_values();
                }
                assert(byte_bits(self.out@.push(low as u8)) + lsb_bits(
                    rest as nat,
                    (total - 8) as nat,
                ) =~= byte_bits(self.out@) + lsb_bits(acc as nat, total as nat));
            }
            self.out.push(low as u8);
            acc = rest;
            total = total - 8;
        }
        proof {
            lemma_pow2_monotonic(total as nat, 7);
            lemma_pow2_values();
        }
        self.curr_bytes = acc as u32;
        self.curr_full_bits = total as u8;
    }

    /// The end-of-block symbol of the current block; nothing outside a block.
    pub open spec fn end_of_block_bits(&self) -> Seq<bool> {
        if self.is_in_block() {
            code_bits(self.literal_lengths(), END_OF_BLOCK as int)
        } else {
            Seq::empty()
        }
    }

    /// Writes the code word of a symbol of the literal/length alphabet.
    fn write_literal_symbol(&mut self, s: usize)
        requires
            old(self).wf(),
            old(self).in_block,
            s < old(self).literal_tree@.len(),
        ensures
            final(self).wf(),
            final(self).in_block,
            final(self).literal_tree@ == old(self).literal_tree@,
            final(self).distance_tree@ == old(self).distance_tree@,
            final(self).bits() == old(self).bits() + code_bits(
                old(self).literal_lengths(),
                s as int,
            ),
    {
        let code = self.literal_tree[s];
        proof {
            reveal(block_codes);
            lemma_tree_entry_bits(lengths_of(self.literal_tree@), s as int);
        }
        self.write_bits(code.code, code.length);
    }

    /// Writes the code word of a symbol of the distance alphabet.
    fn write_distance_symbol(&mut self, s: usize)
        requires
            old(self).wf(),
            old(self).in_block,
            s < old(self).distance_tree@.len(),
        ensures
            final(self).wf(),
            final(self).in_block,
            final(self).literal_tree@ == old(self).literal_tree@,
            final(self).distance_tree@ == old(self).distance_tree@,
            final(self).bits() == old(self).bits() + code_bits(
                old(self).distance_lengths(),
                s as int,
            ),
    {
        let code = self.distance_tree[s];
        proof {
            reveal(block_codes);
            lemma_tree_entry_bits(lengths_of(self.distance_tree@), s as int);
        }
        self.write_bits(code.code, code.length);
    }

    /// Writes a match: the code word of its length's row and the length's
    /// offset in the row, then the same for its distance.
    fn write_repeat(&mut self, len: u32, dist: u32) -> (res: Result<(), DeflateError>)
        requires
            old(self).wf(),
            old(self).in_block,
        ensures
            final(self).wf(),
            final(self).in_block,
            final(self).literal_tree@ == old(self).literal_tree@,
            final(self).distance_tree@ == old(self).distance_tree@,
            match res {
                Ok(()) => {
                    &&& encodable(
                        old(self).literal_lengths(),
                        old(self).distance_lengths(),
                        Token::Repeat(len, dist),
                    )
                    &&& final(self).bits() == old(self).bits() + token_bits(
                        old(self).literal_lengths(),
                        old(self).distance_lengths(),
                        Token::Repeat(len, dist),
                    )
                },
                Err(e) => {
                    &&& !encodable(
                        old(self).literal_lengths(),
                        old(self).distance_lengths(),
                        Token::Repeat(len, dist),
                    )
                    &&& e == DeflateError::InternalInvariant(violation_of(Token::Repeat(len, dist)))
                    &&& final(self).bits() == old(self).bits()
                },
            },
    {
        let lr = match find_length_row(len) {
            Some(i) => i,
            None => {
                return Err(DeflateError::InternalInvariant(Violation::LengthOutOfRange));
            },
        };
        let dr = match find_distance_row(dist) {
            Some(i) => i,
            None => {
                return Err(DeflateError::InternalInvariant(Violation::DistanceOutOfRange));
            },
        };
        proof {
            lemma_length_row(len as int);
            lemma_distance_row(dist as int);
        }
        let len_row = LEN_TO_CODE[lr];
        let dist_row = DIST_TO_CODE[dr];
        let len_symbol = len_row.3 as usize;
        let dist_symbol = dist_row.3 as usize;
        if len_symbol >= self.literal_tree.len() || dist_symbol >= self.distance_tree.len() {
            return Err(DeflateError::InternalInvariant(Violation::SymbolWithoutCode));
        }
        if self.literal_tree[len_symbol].length == 0 || self.distance_tree[dist_symbol].length
            == 0 {
            return Err(DeflateError::InternalInvariant(Violation::SymbolWithoutCode));
        }
        let ghost lit = self.literal_lengths();
        let ghost dst = self.distance_lengths();
        let ghost b0 = self.bits();
        self.write_literal_symbol(len_symbol);
        let ghost b1 = self.bits();
        self.write_bits(len - len_row.0, len_row.2);
        let ghost b2 = self.bits();
        self.write_distance_symbol(dist_symbol);
        let ghost b3 = self.bits();
        self.write_bits(dist - dist_row.0, dist_row.2);
        proof {
            let s1 = code_bits(lit, 257 + lr);
            let s2 = lsb_bits((len - len_row.0) as nat, len_row.2 as nat);
            let s3 = code_bits(dst, dr as int);
            let s4 = lsb_bits((dist - dist_row.0) as nat, dist_row.2 as nat);
            assert(b1 == b0 + s1);
            assert(b2 == b1 + s2);
            assert(b3 == b2 + s3);
            assert(self.bits() == b3 + s4);
            assert(lr == length_row(len as int));
            assert(dr == distance_row(dist as int));
            assert(len_row == LEN_TO_CODE[lr as int]);
            assert(token_bits(lit, dst, Token::Repeat(len, dist)) == s1 + s2 + s3 + s4);
            assert(((b0 + s1 + s2) + s3) + s4 =~= b0 + (s1 + s2 + s3 + s4));
        }
        Ok(())
    }

    /// Writes one token under the codes of the current block.
    ///
    /// Fails, and writes nothing, exactly when the token is outside the
    /// format's ranges or needs a symbol that the block's codes leave out.
    pub fn write(&mut self, token: &Token) -> (res: Result<(), DeflateError>)
        requires
            old(self).wf(),
            old(self).is_in_block(),
        ensures
            final(self).wf(),
            final(self).is_in_block(),
            final(self).literal_codes() == old(self).literal_codes(),
            final(self).distance_codes() == old(self).distance_codes(),
            match res {
                Ok(()) => {
                    &&& encodable(old(self).literal_lengths(), old(self).distance_lengths(), *token)
                    &&& final(self).bits() == old(self).bits() + token_bits(
                        old(self).literal_lengths(),
                        old(self).distance_lengths(),
                        *token,
                    )
                },
                Err(e) => {
                    &&& !encodable(
                        old(self).literal_lengths(),
                        old(self).distance_lengths(),
                        *token,
                    )
                    &&& e == DeflateError::InternalInvariant(violation_of(*token))
                    &&& final(self).bits() == old(self).bits()
                },
            },
    {
        proof {
            reveal(block_codes);
        }
        match *token {
            Token::Literal(value) => {
                if self.literal_tree[value as usize].length == 0 {
                    return Err(DeflateError::InternalInvariant(Violation::SymbolWithoutCode));
                }
                self.write_literal_symbol(value as usize);
                Ok(())
            },
            Token::Repeat(len, dist) => self.write_repeat(len, dist),
        }
    }

    /// Ends the block that is open, if any, and writes a header.
    fn begin_block(&mut self, is_final: bool, dynamic: bool)
        requires
            old(self).wf(),
        ensures
            final(self).wf(),
            final(self).in_block == old(self).in_block,
            final(self).literal_tree@ == old(self).literal_tree@,
            final(self).distance_tree@ == old(self).distance_tree@,
            final(self).bits() == old(self).bits() + old(self).end_of_block_bits() + header_bits(
                is_final,
                dynamic,
            ),
    {
        if self.in_block {
            proof {
                reveal(block_codes);
            }
            self.write_literal_symbol(END_OF_BLOCK);
        }
        let ghost ended = self.bits();
        self.write_bit(is_final);
        self.write_bit(!dynamic);
        self.write_bit(dynamic);
        assert(ended.push(is_final).push(!dynamic).push(dynamic) =~= ended + header_bits(
            is_final,
            dynamic,
        ));
    }

    /// Writes one bit.
    fn write_bit(&mut self, bit: bool)
        requires
            old(self).wf(),
        ensures
            final(self).wf(),
            final(self).in_block == old(self).in_block,
            final(self).literal_tree@ == old(self).literal_tree@,
            final(self).distance_tree@ == old(self).distance_tree@,
            final(self).bits() == old(self).bits().push(bit),
    {
        proof {
            lemma_single_bit(bit);
        }
        if bit {
            self.write_bits(1, 1);
        } else {
            self.write_bits(0, 1);
        }
        assert(old(self).bits() + seq![bit] =~= old(self).bits().push(bit));
    }

    /// Ends the block that is open, if any, and begins a block with the
    /// format's fixed codes.
    pub fn new_fixed_codes_block(&mut self, is_final: bool)
        requires
            old(self).wf(),
        ensures
            final(self).wf(),
            final(self).is_in_block(),
            final(self).literal_codes() == tree_of(fixed_literal_lens()),
            final(self).distance_codes() == tree_of(fixed_distance_lens()),
            final(self).literal_lengths() == fixed_literal_lens(),
            final(self).distance_lengths() == fixed_distance_lens(),
            final(self).bits() == old(self).bits() + old(self).end_of_block_bits() + header_bits(
                is_final,
                false,
            ),
    {
        self.begin_block(is_final, false);
        let literal_lens = fixed_literal_lengths();
        let distance_lens = fixed_distance_lengths();
        proof {
            reveal(block_codes);
            lemma_fixed_literal_valid();
            lemma_fixed_distance_valid();
            lemma_tree_entry_bits(fixed_literal_lens(), 256);
            lemma_tree_entry_bits(fixed_distance_lens(), 0);
        }
        self.literal_tree = calc_codes(literal_lens.as_slice()).unwrap();
        self.distance_tree = calc_codes(distance_lens.as_slice()).unwrap();
        self.in_block = true;
    }

    /// Writes a run of code lengths, each as its code word in the code-length
    /// code.
    fn write_code_lengths(&mut self, code_len_tree: &Tree, lens: &[u8])
        requires
            old(self).wf(),
            code_len_tree@ == tree_of(code_length_lens()),
            forall|i: int| 0 <= i < lens@.len() ==> #[trigger] lens@[i] <= 15,
        ensures
            final(self).wf(),
            final(self).in_block == old(self).in_block,
            final(self).literal_tree@ == old(self).literal_tree@,
            final(self).distance_tree@ == old(self).distance_tree@,
            final(self).bits() == old(self).bits() + lengths_bits(code_length_lens(), lens@),
    {
        let mut i: usize = 0;
        assert(lens@.take(0) =~= Seq::<u8>::empty());
        assert(self.bits() =~= old(self).bits() + lengths_bits(code_length_lens(), lens@.take(0)));
        while i < lens.len()
            invariant
                i <= lens@.len(),
                self.wf(),
                code_len_tree@ == tree_of(code_length_lens()),
                forall|i: int| 0 <= i < lens@.len() ==> #[trigger] lens@[i] <= 15,
                self.in_block == old(self).in_block,
                self.literal_tree@ == old(self).literal_tree@,
                self.distance_tree@ == old(self).distance_tree@,
                self.bits() == old(self).bits() + lengths_bits(
                    code_length_lens(),
                    lens@.take(i as int),
                ),
            decreases lens@.len() - i,
        {
            let code = code_len_tree[lens[i] as usize];
            proof {
                lemma_code_length_valid();
                lemma_tree_entry_bits(code_length_lens(), lens@[i as int] as int);
                assert(lens@.take(i + 1).drop_last() =~= lens@.take(i as int));
            }
            self.write_bits(code.code, code.length);
            assert(self.bits() =~= old(self).bits() + lengths_bits(
                code_length_lens(),
                lens@.take(i + 1),
            ));
            i = i + 1;
        }
        assert(lens@.take(lens@.len() as int) =~= lens@);
    }

    /// Ends the block that is open, if any, and begins a block with the
    /// codes of the given lengths, which it sends first.
    ///
    /// Fails, and writes nothing, exactly when the lengths cannot head a
    /// dynamic block.
    pub fn new_dynamic_codes_block(
        &mut self,
        is_final: bool,
        literal_code_lens: &[u8],
        distance_code_lens: &[u8],
    ) -> (res: Result<(), DeflateError>)
        requires
            old(self).wf(),
        ensures
            final(self).wf(),
            match res {
                Ok(()) => {
                    &&& dynamic_lengths_ok(literal_code_lens@, distance_code_lens@)
                    &&& final(self).is_in_block()
                    &&& final(self).literal_codes() == tree_of(literal_code_lens@)
                    &&& final(self).distance_codes() == tree_of(distance_code_lens@)
                    &&& final(self).literal_lengths() == literal_code_lens@
                    &&& final(self).distance_lengths() == distance_code_lens@
                    &&& final(self).bits() == old(self).bits() + old(self).end_of_block_bits()
                        + header_bits(is_final, true) + preamble_bits(
                        literal_code_lens@,
                        distance_code_lens@,
                    )
                },
                Err(e) => {
                    &&& !dynamic_lengths_ok(literal_code_lens@, distance_code_lens@)
                    &&& e == dynamic_lengths_error(literal_code_lens@, distance_code_lens@)
                    &&& final(self).bits() == old(self).bits()
                    &&& final(self).is_in_block() == old(self).is_in_block()
                    &&& final(self).literal_codes() == old(self).literal_codes()
                    &&& final(self).distance_codes() == old(self).distance_codes()
                },
            },
    {
        if literal_code_lens.len() != LITERAL_SYMBOLS || distance_code_lens.len()
            != DISTANCE_SYMBOLS {
            return Err(DeflateError::InvalidCodeLengths);
        }
        let literal_tree = calc_codes(literal_code_lens)?;
        let distance_tree = calc_codes(distance_code_lens)?;
        if literal_code_lens[END_OF_BLOCK] == 0 {
            return Err(DeflateError::InternalInvariant(Violation::SymbolWithoutCode));
        }
        self.begin_block(is_final, true);
        let ghost begun = self.bits();

        self.write_bits(286 - 257, 5);
        self.write_bits(30 - 1, 5);
        self.write_bits(19 - 4, 4);
        let code_len_of_code: [u8; 19] = [4, 4, 4, 4, 4, 4, 4, 4, 4, 4, 4, 4, 4, 4, 4, 4, 0, 0, 0];
        assert(code_len_of_code@ =~= code_length_lens());
        proof {
            lemma_code_length_valid();
        }
        let code_len_tree = calc_codes(code_len_of_code.as_slice()).unwrap();
        let ghost counts = self.bits();
        let mut i: usize = 0;
        while i < 19
            invariant
                i <= 19,
                self.wf(),
                code_len_of_code@ == code_length_lens(),
                self.in_block == old(self).in_block,
                self.literal_tree@ == old(self).literal_tree@,
                self.distance_tree@ == old(self).distance_tree@,
                self.bits() == counts + order_bits(code_length_lens(), i as nat),
            decreases 19 - i,
        {
            self.write_bits(code_len_of_code[CODE_LENGTH_ORDER[i]] as u32, 3);
            i = i + 1;
            assert(self.bits() =~= counts + order_bits(code_length_lens(), i as nat));
        }
        proof {
            lemma_valid_lengths_bound(literal_code_lens@);
            lemma_valid_lengths_bound(distance_code_lens@);
        }
        self.write_code_lengths(&code_len_tree, literal_code_lens);
        self.write_code_lengths(&code_len_tree, distance_code_lens);
        assert(self.bits() =~= begun + preamble_bits(literal_code_lens@, distance_code_lens@)) by {
            reveal(preamble_bits);
        }
        proof {
            reveal(block_codes);
            lemma_tree_entry_bits(literal_code_lens@, 256);
            lemma_tree_entry_bits(distance_code_lens@, 0);
        }
        self.literal_tree = literal_tree;
        self.distance_tree = distance_tree;
        self.in_block = true;
        Ok(())
    }

    /// Writes a run of tokens under the codes of the current block.
    ///
    /// Fails at the first token that cannot be written, with that token's
    /// error; the tokens before it have then been written.
    pub fn write_tokens(&mut self, tokens: &[Token]) -> (res: Result<(), DeflateError>)
        requires
            old(self).wf(),
            old(self).is_in_block(),
        ensures
            final(self).wf(),
            final(self).is_in_block(),
            final(self).literal_codes() == old(self).literal_codes(),
            final(self).distance_codes() == old(self).distance_codes(),
            match res {
                Ok(()) => {
                    &&& forall|i: int|
                        0 <= i < tokens@.len() ==> encodable(
                            old(self).literal_lengths(),
                            old(self).distance_lengths(),
                            #[trigger] tokens@[i],
                        )
                    &&& final(self).bits() == old(self).bits() + tokens_bits(
                        old(self).literal_lengths(),
                        old(self).distance_lengths(),
                        tokens@,
                    )
                },
                Err(e) => exists|i: int|
                    {
                        &&& #[trigger] fails_at(
                            old(self).literal_lengths(),
                            old(self).distance_lengths(),
                            tokens@,
                            i,
                            e,
                        )
                        &&& final(self).bits() == old(self).bits() + tokens_bits(
                            old(self).literal_lengths(),
                            old(self).distance_lengths(),
                            tokens@.take(i),
                        )
                    },
            },
    {
        let ghost lit = self.literal_lengths();
        let ghost dist = self.distance_lengths();
        let mut i: usize = 0;
        proof {
            assert(tokens@.take(0) =~= Seq::<Token>::empty());
            assert(self.bits() =~= old(self).bits() + tokens_bits(lit, dist, tokens@.take(0)));
        }
        while i < tokens.len()
            invariant
                i <= tokens@.len(),
                self.wf(),
                self.is_in_block(),
                self.literal_codes() == old(self).literal_codes(),
                self.distance_codes() == old(self).distance_codes(),
                lit == old(self).literal_lengths(),
                dist == old(self).distance_lengths(),
                forall|k: int| 0 <= k < i ==> encodable(lit, dist, #[trigger] tokens@[k]),
                self.bits() == old(self).bits() + tokens_bits(lit, dist, tokens@.take(i as int)),
            decreases tokens@.len() - i,
        {
            match self.write(&tokens[i]) {
                Ok(()) => {},
                Err(e) => {
                    assert(fails_at(lit, dist, tokens@, i as int, e));
                    return Err(e);
                },
            }
            proof {
                lemma_tokens_bits_push(lit, dist, tokens@.take(i as int), tokens@[i as int]);
                assert(tokens@.take(i as int).push(tokens@[i as int]) =~= tokens@.take(i + 1));
                assert(self.bits() =~= old(self).bits() + tokens_bits(
                    lit,
                    dist,
                    tokens@.take(i + 1),
                ));
            }
            i = i + 1;
        }
        assert(tokens@.take(tokens@.len() as int) =~= tokens@);
        Ok(())
    }

    /// Ends the block that is open, if any, and writes the given block
    /// without the symbol that ends it.
    ///
    /// Fails with the block's error if the block cannot be written.
    pub fn write_block(&mut self, block: &Block, is_final: bool) -> (res: Result<(), DeflateError>)
        requires
            old(self).wf(),
        ensures
            final(self).wf(),
            match res {
                Ok(()) => {
                    &&& block@.wf()
                    &&& final(self).is_in_block()
                    &&& final(self).bits() + final(self).end_of_block_bits() == old(self).bits()
                        + old(self).end_of_block_bits() + block_bits(block@, is_final)
                },
                Err(e) => block_fails_with(block@, e),
            },
    {
        let ghost done = self.bits() + self.end_of_block_bits();
        match block {
            Block::FixedCodes { tokens } => {
                self.new_fixed_codes_block(is_final);
                self.write_tokens(tokens.as_slice())?;
            },
            Block::DynamicCodes { tokens, literal_code_lens, distance_code_lens } => {
                self.new_dynamic_codes_block(
                    is_final,
                    literal_code_lens.as_slice(),
                    distance_code_lens.as_slice(),
                )?;
                self.write_tokens(tokens.as_slice())?;
            },
        }
        assert(self.bits() + self.end_of_block_bits() =~= done + block_bits(block@, is_final));
        Ok(())
    }

    /// Ends the last block and returns the stream, its last byte filled up
    /// with zero bits.
    pub fn finish(self) -> (out: Vec<u8>)
        requires
            self.wf(),
            self.is_in_block(),
        ensures
            (self.bits() + self.end_of_block_bits()).len() <= 8 * out@.len() < (self.bits()
                + self.end_of_block_bits()).len() + 8,
            byte_bits(out@) == self.bits() + self.end_of_block_bits() + zero_bits(
                (8 * out@.len() - (self.bits() + self.end_of_block_bits()).len()) as nat,
            ),
    {
        let mut w = self;
        proof {
            reveal(block_codes);
            reveal(written_bits);
        }
        w.write_literal_symbol(END_OF_BLOCK);
        let DeflateWriter { out, curr_bytes, curr_full_bits, .. } = w;
        let mut out = out;
        proof {
            lemma_byte_bits_len(out@);
            lemma_lsb_bits_len(curr_bytes as nat, curr_full_bits as nat);
        }
        if curr_full_bits > 0 {
            proof {
                lemma_byte_bits_push(out@, curr_bytes as u8);
                lemma_lsb_bits_pad(
                    curr_bytes as nat,
                    curr_full_bits as nat,
                    (8 - curr_full_bits) as nat,
                );
                lemma_pow2_monotonic(curr_full_bits as nat, 7);
                lemma_pow2_values();
                lemma_byte_bits_len(out@.push(curr_bytes as u8));
            }
            out.push(curr_bytes as u8);
            assert(byte_bits(out@) =~= self.bits() + self.end_of_block_bits() + zero_bits(
                (8 - curr_full_bits) as nat,
            ));
        } else {
            assert(byte_bits(out@) =~= self.bits() + self.end_of_block_bits() + zero_bits(0));
        }
        out
    }
}

/// One bit written as a number is that bit.
proof fn lemma_single_bit(b: bool)
    ensures
        lsb_bits(if b { 1nat } else { 0nat }, 1) == seq![b],
{
    let v = if b { 1nat } else { 0nat };
    assert(lsb_bits(v, 1) == seq![v % 2 == 1] + lsb_bits(v / 2, 0));
    assert(lsb_bits(v, 1) =~= seq![b]);
}

/// What the first step of `write_bits` computes: the pending bits followed
/// by the new ones, as one number.
proof fn lemma_write_bits_start(pending: u64, shift: u64, bits: u32, len: u8, value: u64, acc: u64)
    requires
        shift < 8,
        pending < pow2(shift as nat),
        len < 32 ==> 1u64 << (len as u64) >= 1 && value == (bits as u64) & (((1u64 << (len as u64))
            - 1) as u64),
        len >= 32 ==> value == bits,
        acc == pending | (value << shift),
    ensures
        acc < pow2((shift + len) as nat),
        lsb_bits(acc as nat, (shift + len) as nat) == lsb_bits(pending as nat, shift as nat)
            + lsb_bits(bits as nat, len as nat),
{
    let n = len as nat;
    let k = shift as nat;
    lemma_pow2_values();
    lemma_pow2_std(k);
    assert(pow2(32) == 0x1_0000_0000) by {
        lemma_pow2_add(16, 16);
    }
    // the new bits, as a number below 2^len
    assert(value < pow2(n) && value <= 0xffff_ffff && lsb_bits(value as nat, n) == lsb_bits(
        bits as nat,
        n,
    )) by {
        if len < 32 {
            lemma_pow2_std(n);
            lemma_pow2_monotonic(n, 32);
            let width = len as u64;
            vstd::bits::lemma_u64_shl_is_mul(1, width);
            crate::bits::lemma_pow2_positive(n);
            vstd::bits::lemma_u64_low_bits_mask_is_mod(bits as u64, n);
            assert(vstd::bits::low_bits_mask(n) == (1u64 << width) - 1);
            assert(value == (bits as nat) % pow2(n));
            lemma_lsb_bits_mod(bits as nat, n);
        } else {
            lemma_pow2_monotonic(32, n);
        }
    }
    // shifting is multiplying, and the two parts do not overlap
    assert(value * pow2(k) <= 0xffff_ffff * 128) by (nonlinear_arith)
        requires
            value <= 0xffff_ffff,
            pow2(k) <= 128,
    {
    }
    vstd::bits::lemma_u64_shl_is_mul(value, shift);
    vstd::bits::lemma_u64_shl_is_mul(1, shift);
    let shifted = value << shift;
    let bound = 1u64 << shift;
    assert(pending | shifted == pending + shifted) by (bit_vector)
        requires
            shifted == value << shift,
            bound == 1u64 << shift,
            pending < bound,
            shift < 8,
            value <= 0xffff_ffff,
    ;
    assert(acc == pending + pow2(k) * value) by {
        assert(value * pow2(k) == pow2(k) * value) by (nonlinear_arith);
    }
    lemma_lsb_bits_concat(pending as nat, k, value as nat, n);
    lemma_pow2_add(k, n);
    assert(pending + pow2(k) * value < pow2(k) * pow2(n)) by (nonlinear_arith)
        requires
            pending < pow2(k),
            value < pow2(n),
    ;
}

/// Writes the blocks as one stream, the last of them marked final.
///
/// Fails at the first block that cannot be written, with that block's
/// error.
pub fn write_blocks(blocks: &[Block]) -> (res: Result<Vec<u8>, DeflateError>)
    requires
        blocks@.len() > 0,
    ensures
        match res {
            Ok(stream) => {
                &&& forall|j: int| 0 <= j < blocks@.len() ==> (#[trigger] blocks@[j])@.wf()
                &&& is_stream_of(block_views(blocks@), stream@)
            },
            Err(e) => blocks_fail_with(block_views(blocks@), e),
        },
{
    let ghost views = block_views(blocks@);
    let n = blocks.len();
    let mut writer = DeflateWriter::new();
    let mut i: usize = 0;
    assert(writer.bits() + writer.end_of_block_bits() =~= blocks_bits(views, 0));
    while i < n
        invariant
            i <= n == blocks@.len(),
            n > 0,
            views == block_views(blocks@),
            writer.wf(),
            i > 0 ==> writer.is_in_block(),
            writer.bits() + writer.end_of_block_bits() == blocks_bits(views, i as nat),
            forall|k: int| 0 <= k < i ==> (#[trigger] views[k]).wf(),
        decreases n - i,
    {
        assert(views[i as int] == blocks@[i as int]@);
        match writer.write_block(&blocks[i], i == n - 1) {
            Ok(()) => {},
            Err(e) => {
                assert(block_fails_with(views[i as int], e));
                return Err(e);
            },
        }
        i = i + 1;
    }
    assert forall|j: int| 0 <= j < blocks@.len() implies (#[trigger] blocks@[j])@.wf() by {
        assert(views[j].wf());
    }
    Ok(writer.finish())
}

/// A stream of a single block begins with the block's header: the flag of
/// the final block, set, and the two bits of the block's kind.
pub proof fn lemma_single_block_stream(blocks: Seq<BlockView>, stream: Seq<u8>)
    requires
        blocks.len() == 1,
        stream_bits(blocks).is_prefix_of(byte_bits(stream)),
    ensures
        stream.len() > 0,
        byte_bits(stream).len() >= 3,
        byte_bits(stream)[0],
        byte_bits(stream)[1] == !blocks[0].is_dynamic(),
        byte_bits(stream)[2] == blocks[0].is_dynamic(),
{
    let bits = stream_bits(blocks);
    let head = header_bits(true, blocks[0].is_dynamic());
    assert(bits == blocks_bits(blocks, 0) + block_bits(blocks[0], true));
    assert(bits.len() >= 3);
    assert(bits[0] == head[0] && bits[1] == head[1] && bits[2] == head[2]);
    let front = byte_bits(stream).subrange(0, bits.len() as int);
    assert(front[0] == byte_bits(stream)[0]);
    assert(front[1] == byte_bits(stream)[1]);
    assert(front[2] == byte_bits(stream)[2]);
    lemma_byte_bits_len(stream);
}

/// `stream` is what [`deflate`] makes of `file`, and `blocks` are the
/// blocks in it. The tokens are those that [`lempel_ziv`] finds; they stand
/// for `file`. The blocks hold them in runs of [`BLOCK_TOKENS`], each block
/// in the codes that take fewer bits, and each such that decoders take it;
/// a `file` of up to [`BLOCK_TOKENS`] bytes makes a single block. The
/// stream is the bits of the blocks, filled up to a whole byte with zeros.
pub open spec fn deflated_as(file: Seq<u8>, blocks: Seq<BlockView>, stream: Seq<u8>) -> bool {
    let tokens = tokens_from(file, 0, MAX_CHAIN as nat, true);
    &&& well_formed(tokens)
    &&& expand(tokens) == file
    &&& split_of(tokens, blocks)
    &&& file.len() <= BLOCK_TOKENS ==> blocks.len() == 1
    &&& forall|j: int| 0 <= j < blocks.len() ==> (#[trigger] blocks[j]).decodable()
    &&& forall|j: int| 0 <= j < blocks.len() ==> well_chosen(#[trigger] blocks[j])
    &&& is_stream_of(blocks, stream)
}

/// What [`deflate`] makes of a file decodes to the file.
pub proof fn lemma_deflated_inflates(file: Seq<u8>, blocks: Seq<BlockView>, stream: Seq<u8>)
    requires
        deflated_as(file, blocks, stream),
    ensures
        inflate(stream) == Some(file),
{
    let bits = stream_bits(blocks);
    assert(byte_bits(stream).subrange(0, bits.len() as int) =~= bits);
    lemma_stream_inflates(blocks, stream);
}

/// Literals take at most nine bits each in the fixed codes.
proof fn lemma_fixed_literals_bits(tokens: Seq<Token>)
    requires
        forall|i: int| 0 <= i < tokens.len() ==> #[trigger] tokens[i] is Literal,
    ensures
        tokens_bits(fixed_literal_lens(), fixed_distance_lens(), tokens).len() <= 9 * tokens.len(),
    decreases tokens.len(),
{
    if tokens.len() > 0 {
        let first = tokens.drop_last();
        assert forall|i: int| 0 <= i < first.len() implies #[trigger] first[i] is Literal by {
            assert(first[i] == tokens[i]);
        }
        lemma_fixed_literals_bits(first);
        assert(tokens.last() == tokens[tokens.len() - 1]);
        assert(tokens[tokens.len() - 1] is Literal);
        lemma_token_bits_len(fixed_literal_lens(), fixed_distance_lens(), tokens.last());
    }
}

/// An input of fewer than three bytes makes a single block, in the fixed
/// codes, of one literal for each byte: the stream is the header of a
/// final block with fixed codes, the code words of the bytes and of the
/// end-of-block symbol, and zeros up to a whole byte.
pub proof fn lemma_short_input(file: Seq<u8>, blocks: Seq<BlockView>, stream: Seq<u8>)
    requires
        deflated_as(file, blocks, stream),
        file.len() < 3,
    ensures
        blocks.len() == 1,
        blocks[0] is FixedCodes,
        blocks[0].tokens().len() == file.len(),
        forall|i: int|
            0 <= i < file.len() ==> #[trigger] blocks[0].tokens()[i] == Token::Literal(file[i]),
        stream_bits(blocks) == header_bits(true, false) + tokens_bits(
            fixed_literal_lens(),
            fixed_distance_lens(),
            blocks[0].tokens(),
        ) + code_bits(fixed_literal_lens(), END_OF_BLOCK as int),
        is_stream_of(blocks, stream),
{
    let tokens = tokens_from(file, 0, MAX_CHAIN as nat, true);
    let block = blocks[0];
    assert(blocks.drop_last() =~= Seq::<BlockView>::empty());
    assert(all_tokens(blocks) == all_tokens(blocks.drop_last()) + blocks.last().tokens());
    assert(all_tokens(blocks) =~= block.tokens());
    lemma_short_input_literals(Seq::empty(), tokens);
    lemma_literals_expand(Seq::empty(), tokens);
    assert(well_chosen(block));
    reveal(well_chosen);
    if block.is_dynamic() {
        let lit = block.literal_lens();
        let dist = block.distance_lens();
        let fixed = BlockView::FixedCodes { tokens };
        assert(block == (BlockView::DynamicCodes {
            tokens,
            literal_code_lens: lit,
            distance_code_lens: dist,
        }));
        assert(block.wf());
        lemma_preamble_len(lit, dist);
        lemma_fixed_literals_bits(tokens);
        lemma_code_bits_len(fixed_literal_lens(), END_OF_BLOCK as int);
        assert(block_bits(block, false).len() >= 1338);
        assert(block_bits(fixed, false).len() <= 3 + 9 * tokens.len() + 7);
    }
    assert(stream_bits(blocks) == blocks_bits(blocks, 0) + block_bits(block, true));
    assert(stream_bits(blocks) =~= header_bits(true, false) + tokens_bits(
        fixed_literal_lens(),
        fixed_distance_lens(),
        block.tokens(),
    ) + code_bits(fixed_literal_lens(), END_OF_BLOCK as int));
}

/// What [`deflate`] makes of a repeated phrase: an input that repeats its
/// first `p` bytes, which differ from one another, and is 3 to 258 bytes
/// longer than they, makes a single block of a literal for each of the `p`
/// bytes and one match of distance `p` for all the rest.
pub proof fn lemma_deflated_phrase(
    file: Seq<u8>,
    p: nat,
    blocks: Seq<BlockView>,
    stream: Seq<u8>,
)
    requires
        deflated_as(file, blocks, stream),
        1 <= p <= MAX_CHAIN,
        3 <= file.len() - p <= 258,
        periodic(file, p as int),
        distinct_start(file, p as int),
    ensures
        blocks.len() == 1,
        blocks[0].tokens() == Seq::new(p, |i: int| Token::Literal(file[i])).push(
            Token::Repeat((file.len() - p) as u32, p as u32),
        ),
        is_stream_of(blocks, stream),
{
    lemma_periodic_tokens(file, p, MAX_CHAIN as nat, true);
    assert(blocks.drop_last() =~= Seq::<BlockView>::empty());
    assert(all_tokens(blocks) == all_tokens(blocks.drop_last()) + blocks.last().tokens());
    assert(all_tokens(blocks) =~= blocks[0].tokens());
}

/// Compresses `file` into a DEFLATE stream.
fn compress(file: &[u8]) -> (stream: Vec<u8>)
    ensures
        exists|blocks: Seq<BlockView>| deflated_as(file@, blocks, stream@),
{
    let tokens = lempel_ziv(file);
    let blocks = block_split(tokens.as_slice());
    proof {
        lemma_well_formed_in_range(Seq::empty(), tokens@);
        lemma_expand_counts(Seq::empty(), tokens@);
    }
    let stream = write_blocks(blocks.as_slice()).unwrap();
    proof {
        let views = block_views(blocks@);
        assert forall|j: int| 0 <= j < views.len() implies (#[trigger] views[j]).decodable() by {
            assert(views[j] == blocks@[j]@);
        }
        assert forall|j: int| 0 <= j < views.len() implies well_chosen(#[trigger] views[j]) by {
            assert(views[j] == blocks@[j]@);
        }
        assert(deflated_as(file@, views, stream@));
    }
    stream
}

/// Compresses `file` and appends the DEFLATE stream to `out`.
///
/// The stream is made of the tokens that [`lempel_ziv`] finds, in the
/// blocks that [`block_split`] cuts them into, see [`deflated_as`]; it
/// decodes to `file`. An input of up to [`BLOCK_TOKENS`] bytes makes a
/// single block, so that the stream begins with the flag of the final
/// block.
pub fn deflate(file: &[u8], out: &mut Vec<u8>) -> (res: Result<(), DeflateError>)
    ensures
        res is Ok,
        old(out)@.is_prefix_of(final(out)@),
        exists|blocks: Seq<BlockView>|
            deflated_as(file@, blocks, final(out)@.skip(old(out)@.len() as int)),
        inflate(final(out)@.skip(old(out)@.len() as int)) == Some(file@),
        file@.len() <= BLOCK_TOKENS ==> final(out)@.len() > old(out)@.len() && byte_bits(
            final(out)@.skip(old(out)@.len() as int),
        )[0],
{
    let mut stream = compress(file);
    let ghost compressed = stream@;
    out.append(&mut stream);
    proof {
        assert(final(out)@.skip(old(out)@.len() as int) =~= compressed);
        let blocks = choose|blocks: Seq<BlockView>| deflated_as(file@, blocks, compressed);
        lemma_deflated_inflates(file@, blocks, compressed);
        if file@.len() <= BLOCK_TOKENS {
            let bits = stream_bits(blocks);
            assert(byte_bits(compressed).subrange(0, bits.len() as int) =~= bits);
            lemma_single_block_stream(blocks, compressed);
        }
    }
    Ok(())
}

} // verus!
