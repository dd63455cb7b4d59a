//! The block splitter: cuts the token sequence into blocks and chooses the
//! Huffman codes of each.

use crate::bits::lemma_pow2_values;
use crate::code_lengths::{
    build_code_lengths, count_used, fits_histogram, lemma_fitting_lengths_full,
    lemma_fitting_lengths_valid, lemma_used_count_bound, rarer_is_longer, used_count,
};
use crate::deflate::Token;
use crate::encoding::{
    DISTANCE_SYMBOLS, END_OF_BLOCK, LITERAL_SYMBOLS, block_bits, dynamic_lengths_ok, encodable,
    lemma_preamble_len, lemma_token_bits_len, lemma_tokens_bits_push, tokens_bits,
};
use crate::huffman::{
    fixed_distance_lengths, fixed_distance_lens, fixed_literal_lengths, fixed_literal_lens,
    kraft_sum, lemma_code_bits_len, valid_lengths,
};
use crate::inflate::accepted_lengths;
use crate::lempel_ziv::{apply_token, well_formed_from};
use crate::tables::{
    DIST_TO_CODE, LEN_TO_CODE, distance_row, find_distance_row, find_length_row,
    lemma_distance_row, lemma_length_row, length_row,
};
use vstd::prelude::*;

verus! {

/// A run of tokens with the codes that it is written in. The end-of-block
/// symbol is not among the tokens; the emitter adds it.
#[derive(Debug)]
pub enum Block {
    /// A block in the format's fixed codes.
    FixedCodes { tokens: Vec<Token> },
    /// A block that brings its own codes, given by their lengths: 286 for
    /// the literal/length alphabet and 30 for the distance alphabet.
    DynamicCodes { tokens: Vec<Token>, literal_code_lens: Vec<u8>, distance_code_lens: Vec<u8> },
}

/// A block as a mathematical value.
pub enum BlockView {
    FixedCodes { tokens: Seq<Token> },
    DynamicCodes { tokens: Seq<Token>, literal_code_lens: Seq<u8>, distance_code_lens: Seq<u8> },
}

impl BlockView {
    /// The tokens of the block.
    pub open spec fn tokens(self) -> Seq<Token> {
        match self {
            BlockView::FixedCodes { tokens } => tokens,
            BlockView::DynamicCodes { tokens, .. } => tokens,
        }
    }

    /// The block brings its own codes.
    pub open spec fn is_dynamic(self) -> bool {
        self is DynamicCodes
    }

    /// The code lengths of the literal/length alphabet that the block is
    /// written in.
    pub open spec fn literal_lens(self) -> Seq<u8> {
        match self {
            BlockView::FixedCodes { .. } => fixed_literal_lens(),
            BlockView::DynamicCodes { literal_code_lens, .. } => literal_code_lens,
        }
    }

    /// The code lengths of the distance alphabet that the block is written
    /// in.
    pub open spec fn distance_lens(self) -> Seq<u8> {
        match self {
            BlockView::FixedCodes { .. } => fixed_distance_lens(),
            BlockView::DynamicCodes { distance_code_lens, .. } => distance_code_lens,
        }
    }

    /// The block can be written, and its own codes, if it has any, are such
    /// as decoders take.
    pub open spec fn decodable(self) -> bool {
        &&& self.wf()
        &&& self.is_dynamic() ==> accepted_lengths(self.literal_lens(), self.distance_lens())
    }

    /// The block can be written: its own codes, if it has any, can head a
    /// dynamic block, and each of its tokens can be written in its codes.
    pub open spec fn wf(self) -> bool {
        &&& self.is_dynamic() ==> dynamic_lengths_ok(self.literal_lens(), self.distance_lens())
        &&& forall|i: int|
            0 <= i < self.tokens().len() ==> encodable(
                self.literal_lens(),
                self.distance_lens(),
                #[trigger] self.tokens()[i],
            )
    }
}

impl View for Block {
    type V = BlockView;

    open spec fn view(&self) -> BlockView {
        match self {
            Block::FixedCodes { tokens } => BlockView::FixedCodes { tokens: tokens@ },
            Block::DynamicCodes {
                tokens,
                literal_code_lens,
                distance_code_lens,
            } => BlockView::DynamicCodes {
                tokens: tokens@,
                literal_code_lens: literal_code_lens@,
                distance_code_lens: distance_code_lens@,
            },
        }
    }
}

/// The blocks as mathematical values.
pub open spec fn block_views(blocks: Seq<Block>) -> Seq<BlockView> {
    Seq::new(blocks.len(), |i: int| blocks[i]@)
}

/// The tokens of the blocks, one block after the other.
pub open spec fn all_tokens(blocks: Seq<BlockView>) -> Seq<Token>
    decreases blocks.len(),
{
    if blocks.len() == 0 {
        Seq::empty()
    } else {
        all_tokens(blocks.drop_last()) + blocks.last().tokens()
    }
}

/// The token is within the format's ranges.
pub open spec fn in_range(token: Token) -> bool {
    match token {
        Token::Literal(_) => true,
        Token::Repeat(len, dist) => 3 <= len <= 258 && 1 <= dist <= 32768,
    }
}

/// The symbol of the literal/length alphabet that a token begins with.
pub open spec fn literal_symbol(token: Token) -> int {
    match token {
        Token::Literal(b) => b as int,
        Token::Repeat(len, _) => 257 + length_row(len as int),
    }
}

/// The symbol of the distance alphabet that a match is written with.
pub open spec fn distance_symbol(token: Token) -> int {
    match token {
        Token::Literal(_) => -1,
        Token::Repeat(_, dist) => distance_row(dist as int),
    }
}

/// How many of the tokens are within the ranges and begin with the symbol
/// `s` of the literal/length alphabet.
pub open spec fn literal_count(tokens: Seq<Token>, s: int) -> nat
    decreases tokens.len(),
{
    if tokens.len() == 0 {
        0
    } else {
        literal_count(tokens.drop_last(), s) + if in_range(tokens.last()) && literal_symbol(
            tokens.last(),
        ) == s {
            1nat
        } else {
            0nat
        }
    }
}

/// How many of the tokens are matches within the ranges that are written
/// with the symbol `s` of the distance alphabet.
pub open spec fn distance_count(tokens: Seq<Token>, s: int) -> nat
    decreases tokens.len(),
{
    if tokens.len() == 0 {
        0
    } else {
        distance_count(tokens.drop_last(), s) + if in_range(tokens.last()) && distance_symbol(
            tokens.last(),
        ) == s {
            1nat
        } else {
            0nat
        }
    }
}

/// The histogram of the literal/length alphabet for a block of the tokens:
/// the end-of-block symbol occurs once.
pub open spec fn literal_histogram(tokens: Seq<Token>) -> Seq<u32> {
    Seq::new(
        286,
        |s: int| (literal_count(tokens, s) + if s == END_OF_BLOCK { 1nat } else { 0nat }) as u32,
    )
}

/// The histogram of the distance alphabet for a block of the tokens.
pub open spec fn distance_histogram(tokens: Seq<Token>) -> Seq<u32> {
    Seq::new(30, |s: int| distance_count(tokens, s) as u32)
}

proof fn lemma_counts_take(tokens: Seq<Token>, k: int, s: int)
    requires
        0 <= k < tokens.len(),
    ensures
        literal_count(tokens.take(k + 1), s) == literal_count(tokens.take(k), s) + if in_range(
            tokens[k],
        ) && literal_symbol(tokens[k]) == s {
            1nat
        } else {
            0nat
        },
        distance_count(tokens.take(k + 1), s) == distance_count(tokens.take(k), s) + if in_range(
            tokens[k],
        ) && distance_symbol(tokens[k]) == s {
            1nat
        } else {
            0nat
        },
        literal_count(tokens.take(k), s) <= k,
        distance_count(tokens.take(k), s) <= k,
    decreases k,
{
    assert(tokens.take(k + 1).drop_last() =~= tokens.take(k));
    if k > 0 {
        lemma_counts_take(tokens, k - 1, s);
    }
}

proof fn lemma_counts_monotonic(tokens: Seq<Token>, k: int, s: int)
    requires
        0 <= k <= tokens.len(),
    ensures
        literal_count(tokens.take(k), s) <= literal_count(tokens, s),
        distance_count(tokens.take(k), s) <= distance_count(tokens, s),
    decreases tokens.len() - k,
{
    if k < tokens.len() {
        lemma_counts_take(tokens, k, s);
        lemma_counts_monotonic(tokens, k + 1, s);
    } else {
        assert(tokens.take(k) =~= tokens);
    }
}

/// A token in range is counted under its symbols.
proof fn lemma_token_counted(tokens: Seq<Token>, i: int)
    requires
        0 <= i < tokens.len(),
        in_range(tokens[i]),
    ensures
        literal_count(tokens, literal_symbol(tokens[i])) >= 1,
        tokens[i] is Repeat ==> distance_count(tokens, distance_symbol(tokens[i])) >= 1,
{
    lemma_counts_take(tokens, i, literal_symbol(tokens[i]));
    lemma_counts_monotonic(tokens, i + 1, literal_symbol(tokens[i]));
    lemma_counts_take(tokens, i, distance_symbol(tokens[i]));
    lemma_counts_monotonic(tokens, i + 1, distance_symbol(tokens[i]));
}

/// Counts how often each symbol of the two alphabets occurs in a block of
/// the tokens.
fn histograms(tokens: &[Token]) -> (freq: (Vec<u32>, Vec<u32>))
    requires
        tokens@.len() < u32::MAX,
    ensures
        freq.0@ == literal_histogram(tokens@),
        freq.1@ == distance_histogram(tokens@),
{
    let mut literal: Vec<u32> = vec![0u32; LITERAL_SYMBOLS];
    let mut distance: Vec<u32> = vec![0u32; DISTANCE_SYMBOLS];
    literal[END_OF_BLOCK] = 1;
    let n = tokens.len();
    let mut i: usize = 0;
    assert(tokens@.take(0) =~= Seq::<Token>::empty());
    while i < n
        invariant
            i <= n == tokens@.len() < u32::MAX,
            literal@.len() == 286,
            distance@.len() == 30,
            forall|s: int|
                0 <= s < 286 ==> #[trigger] literal@[s] == literal_count(tokens@.take(i as int), s)
                    + if s == 256 { 1nat } else { 0nat },
            forall|s: int|
                0 <= s < 30 ==> #[trigger] distance@[s] == distance_count(
                    tokens@.take(i as int),
                    s,
                ),
        decreases n - i,
    {
        proof {
            assert forall|s: int| 0 <= s < 286 implies literal_count(tokens@.take(i + 1), s)
                == literal_count(tokens@.take(i as int), s) + if in_range(tokens@[i as int])
                && literal_symbol(tokens@[i as int]) == s {
                1nat
            } else {
                0nat
            } && #[trigger] literal_count(tokens@.take(i as int), s) <= i by {
                lemma_counts_take(tokens@, i as int, s);
            }
            assert forall|s: int| 0 <= s < 30 implies distance_count(tokens@.take(i + 1), s)
                == distance_count(tokens@.take(i as int), s) + if in_range(tokens@[i as int])
                && distance_symbol(tokens@[i as int]) == s {
                1nat
            } else {
                0nat
            } && #[trigger] distance_count(tokens@.take(i as int), s) <= i by {
                lemma_counts_take(tokens@, i as int, s);
            }
        }
        match tokens[i] {
            Token::Literal(b) => {
                literal[b as usize] = literal[b as usize] + 1;
            },
            Token::Repeat(len, dist) => {
                proof {
                    if in_range(tokens@[i as int]) {
                        lemma_length_row(len as int);
                        lemma_distance_row(dist as int);
                    }
                }
                match (find_length_row(len), find_distance_row(dist)) {
                    (Some(lr), Some(dr)) => {
                        literal[257 + lr] = literal[257 + lr] + 1;
                        distance[dr] = distance[dr] + 1;
                    },
                    _ => {},
                }
            },
        }
        i = i + 1;
    }
    proof {
        assert(tokens@.take(n as int) =~= tokens@);
        assert(literal@ =~= literal_histogram(tokens@));
        assert(distance@ =~= distance_histogram(tokens@));
    }
    (literal, distance)
}

/// The distance code lengths of a block without matches: one code word of
/// one bit, which the block never uses. (The format wants at least one.)
pub open spec fn lone_distance_lens() -> Seq<u8> {
    Seq::new(30, |s: int| if s == 0 { 1u8 } else { 0u8 })
}

/// The code lengths are built for a block of the tokens: each alphabet has
/// a full code for the symbols that occur in the block, in which no symbol
/// has a shorter code word than a more frequent one.
pub open spec fn built_for(tokens: Seq<Token>, lit: Seq<u8>, dist: Seq<u8>) -> bool {
    &&& fits_histogram(literal_histogram(tokens), lit)
    &&& rarer_is_longer(literal_histogram(tokens), lit)
    &&& if used_count(distance_histogram(tokens)) == 0 {
        dist == lone_distance_lens()
    } else {
        &&& fits_histogram(distance_histogram(tokens), dist)
        &&& rarer_is_longer(distance_histogram(tokens), dist)
    }
}

proof fn lemma_lone_distance_kraft(k: int)
    requires
        0 <= k <= 30,
    ensures
        kraft_sum(lone_distance_lens().take(k), 15) == if k == 0 {
            0nat
        } else {
            16384nat
        },
    decreases k,
{
    lemma_pow2_values();
    if k > 0 {
        lemma_lone_distance_kraft(k - 1);
        assert(lone_distance_lens().take(k).drop_last() =~= lone_distance_lens().take(k - 1));
    }
}

/// Code lengths built for a block of tokens can head a dynamic block, and
/// every token of the block that is in range can be written in them.
pub proof fn lemma_built_lengths(tokens: Seq<Token>, lit: Seq<u8>, dist: Seq<u8>)
    requires
        tokens.len() < u32::MAX,
        built_for(tokens, lit, dist),
    ensures
        dynamic_lengths_ok(lit, dist),
        accepted_lengths(lit, dist),
        forall|i: int|
            0 <= i < tokens.len() && in_range(#[trigger] tokens[i]) ==> encodable(
                lit,
                dist,
                tokens[i],
            ),
{
    lemma_fitting_lengths_valid(literal_histogram(tokens), lit);
    lemma_fitting_lengths_full(literal_histogram(tokens), lit);
    if used_count(distance_histogram(tokens)) == 0 {
        reveal(valid_lengths);
        lemma_lone_distance_kraft(30);
        lemma_pow2_values();
        assert(lone_distance_lens().take(30) =~= lone_distance_lens());
        assert(lone_distance_lens()[0] == 1);
    } else {
        lemma_fitting_lengths_valid(distance_histogram(tokens), dist);
        lemma_fitting_lengths_full(distance_histogram(tokens), dist);
    }
    lemma_counts_bound(tokens, 256);
    assert(literal_histogram(tokens)[256] > 0);
    lemma_used_if_positive(literal_histogram(tokens), 256);
    assert forall|i: int| 0 <= i < tokens.len() && in_range(#[trigger] tokens[i]) implies encodable(
        lit,
        dist,
        tokens[i],
    ) by {
        lemma_token_counted(tokens, i);
        lemma_counts_monotonic(tokens, 0, literal_symbol(tokens[i]));
        lemma_counts_bound(tokens, literal_symbol(tokens[i]));
        lemma_counts_bound(tokens, distance_symbol(tokens[i]));
        match tokens[i] {
            Token::Literal(b) => {
                assert(literal_histogram(tokens)[b as int] > 0);
            },
            Token::Repeat(len, d) => {
                lemma_length_row(len as int);
                lemma_distance_row(d as int);
                let ls = 257 + length_row(len as int);
                let ds = distance_row(d as int);
                assert(literal_histogram(tokens)[ls] > 0);
                assert(distance_histogram(tokens)[ds] > 0);
                lemma_used_if_positive(distance_histogram(tokens), ds);
            },
        }
    }
}

proof fn lemma_counts_bound(tokens: Seq<Token>, s: int)
    ensures
        literal_count(tokens, s) <= tokens.len(),
        distance_count(tokens, s) <= tokens.len(),
    decreases tokens.len(),
{
    if tokens.len() > 0 {
        lemma_counts_bound(tokens.drop_last(), s);
    }
}

proof fn lemma_used_if_positive(freq: Seq<u32>, s: int)
    requires
        0 <= s < freq.len(),
        freq[s] > 0,
    ensures
        used_count(freq) > 0,
    decreases freq.len(),
{
    if s < freq.len() - 1 {
        lemma_used_if_positive(freq.drop_last(), s);
    }
}

/// Builds the code lengths of a dynamic block for the tokens: for each
/// alphabet a Huffman code, of at most 15 bits, over the symbols that occur.
pub fn dynamic_code_lengths(tokens: &[Token]) -> (lens: (Vec<u8>, Vec<u8>))
    requires
        tokens@.len() < u32::MAX,
    ensures
        built_for(tokens@, lens.0@, lens.1@),
{
    let (literal_freq, distance_freq) = histograms(tokens);
    proof {
        lemma_used_count_bound(literal_freq@);
        lemma_used_count_bound(distance_freq@);
    }
    let literal = build_code_lengths(literal_freq.as_slice()).unwrap();
    let distance = if count_used(distance_freq.as_slice()) == 0 {
        let mut lone: Vec<u8> = vec![0u8; DISTANCE_SYMBOLS];
        lone[0] = 1;
        assert(lone@ =~= lone_distance_lens());
        lone
    } else {
        build_code_lengths(distance_freq.as_slice()).unwrap()
    };
    (literal, distance)
}

/// How many tokens a block holds at most.
pub const BLOCK_TOKENS: usize = 16384;

/// Every token in range can be written in the fixed codes.
pub proof fn lemma_fixed_codes_encode(token: Token)
    requires
        in_range(token),
    ensures
        encodable(fixed_literal_lens(), fixed_distance_lens(), token),
{
    match token {
        Token::Literal(_) => {},
        Token::Repeat(len, dist) => {
            lemma_length_row(len as int);
            lemma_distance_row(dist as int);
        },
    }
}

/// Counts the bits of the tokens in the given codes; `None` if a token
/// cannot be written in them.
fn tokens_cost(tokens: &[Token], lit: &[u8], dist: &[u8]) -> (cost: Option<u64>)
    requires
        tokens@.len() < u32::MAX,
    ensures
        match cost {
            Some(c) => {
                &&& forall|i: int|
                    0 <= i < tokens@.len() ==> encodable(lit@, dist@, #[trigger] tokens@[i])
                &&& c == tokens_bits(lit@, dist@, tokens@).len()
                &&& c <= 600 * tokens@.len()
            },
            None => exists|i: int|
                0 <= i < tokens@.len() && !encodable(lit@, dist@, #[trigger] tokens@[i]),
        },
{
    let n = tokens.len();
    let mut cost: u64 = 0;
    let mut i: usize = 0;
    assert(tokens@.take(0) =~= Seq::<Token>::empty());
    while i < n
        invariant
            i <= n == tokens@.len() < u32::MAX,
            forall|k: int| 0 <= k < i ==> encodable(lit@, dist@, #[trigger] tokens@[k]),
            cost == tokens_bits(lit@, dist@, tokens@.take(i as int)).len(),
            cost <= 600 * i,
        decreases n - i,
    {
        let token = tokens[i];
        let bits: u64 = match token {
            Token::Literal(b) => {
                if b as usize >= lit.len() || lit[b as usize] == 0 {
                    assert(!encodable(lit@, dist@, tokens@[i as int]));
                    return None;
                }
                lit[b as usize] as u64
            },
            Token::Repeat(len, d) => {
                let lr = match find_length_row(len) {
                    Some(lr) => lr,
                    None => {
                        assert(!encodable(lit@, dist@, tokens@[i as int]));
                        return None;
                    },
                };
                let dr = match find_distance_row(d) {
                    Some(dr) => dr,
                    None => {
                        assert(!encodable(lit@, dist@, tokens@[i as int]));
                        return None;
                    },
                };
                proof {
                    lemma_length_row(len as int);
                    lemma_distance_row(d as int);
                }
                if 257 + lr >= lit.len() || lit[257 + lr] == 0 || dr >= dist.len() || dist[dr]
                    == 0 {
                    assert(!encodable(lit@, dist@, tokens@[i as int]));
                    return None;
                }
                lit[257 + lr] as u64 + LEN_TO_CODE[lr].2 as u64 + dist[dr] as u64
                    + DIST_TO_CODE[dr].2 as u64
            },
        };
        proof {
            lemma_token_bits_len(lit@, dist@, token);
            lemma_tokens_bits_push(lit@, dist@, tokens@.take(i as int), token);
            assert(tokens@.take(i as int).push(token) =~= tokens@.take(i + 1));
        }
        cost = cost + bits;
        i = i + 1;
    }
    assert(tokens@.take(n as int) =~= tokens@);
    Some(cost)
}

/// The tokens take fewer bits as a block in the given codes, code lengths
/// included, than as a block in the fixed codes.
pub open spec fn dynamic_is_cheaper(tokens: Seq<Token>, lit: Seq<u8>, dist: Seq<u8>) -> bool {
    let dynamic = BlockView::DynamicCodes {
        tokens,
        literal_code_lens: lit,
        distance_code_lens: dist,
    };
    let fixed = BlockView::FixedCodes { tokens };
    dynamic.wf() && block_bits(dynamic, false).len() < block_bits(fixed, false).len()
}

/// The block holds its tokens in the codes that take fewer bits: in codes
/// built for the tokens if they make the block shorter than the fixed codes
/// do, else in the fixed codes.
#[verifier::opaque]
pub open spec fn well_chosen(block: BlockView) -> bool {
    let tokens = block.tokens();
    if block.is_dynamic() {
        &&& built_for(tokens, block.literal_lens(), block.distance_lens())
        &&& dynamic_is_cheaper(tokens, block.literal_lens(), block.distance_lens())
    } else {
        exists|lit: Seq<u8>, dist: Seq<u8>|
            #[trigger] built_for(tokens, lit, dist) && !dynamic_is_cheaper(tokens, lit, dist)
    }
}

/// Makes the tokens a block: in the given codes if that takes fewer bits
/// than in the fixed codes, else in the fixed codes.
pub fn choose_block(
    tokens: Vec<Token>,
    literal_code_lens: Vec<u8>,
    distance_code_lens: Vec<u8>,
) -> (block: Block)
    requires
        tokens@.len() < u32::MAX,
        dynamic_lengths_ok(literal_code_lens@, distance_code_lens@),
    ensures
        block@.tokens() == tokens@,
        block@.is_dynamic() <==> dynamic_is_cheaper(
            tokens@,
            literal_code_lens@,
            distance_code_lens@,
        ),
        block@.is_dynamic() ==> block@.literal_lens() == literal_code_lens@
            && block@.distance_lens() == distance_code_lens@,
{
    let fixed_literal = fixed_literal_lengths();
    let fixed_distance = fixed_distance_lengths();
    let dynamic_cost = tokens_cost(
        tokens.as_slice(),
        literal_code_lens.as_slice(),
        distance_code_lens.as_slice(),
    );
    let fixed_cost = tokens_cost(
        tokens.as_slice(),
        fixed_literal.as_slice(),
        fixed_distance.as_slice(),
    );
    proof {
        let dynamic = BlockView::DynamicCodes {
            tokens: tokens@,
            literal_code_lens: literal_code_lens@,
            distance_code_lens: distance_code_lens@,
        };
        let fixed = BlockView::FixedCodes { tokens: tokens@ };
        lemma_preamble_len(literal_code_lens@, distance_code_lens@);
        lemma_code_bits_len(literal_code_lens@, 256);
        lemma_code_bits_len(fixed_literal_lens(), 256);
        if dynamic.wf() {
            assert forall|i: int| 0 <= i < tokens@.len() implies encodable(
                fixed_literal_lens(),
                fixed_distance_lens(),
                #[trigger] tokens@[i],
            ) by {
                assert(encodable(
                    dynamic.literal_lens(),
                    dynamic.distance_lens(),
                    dynamic.tokens()[i],
                ));
                lemma_fixed_codes_encode(tokens@[i]);
            }
        }
    }
    let dynamic = match (dynamic_cost, fixed_cost) {
        (Some(d), Some(f)) => 1335 + d + (literal_code_lens[END_OF_BLOCK] as u64) < f + 7,
        _ => false,
    };
    if dynamic {
        Block::DynamicCodes { tokens, literal_code_lens, distance_code_lens }
    } else {
        Block::FixedCodes { tokens }
    }
}

/// Makes the tokens a block, in the codes that take fewer bits: Huffman
/// codes built for the tokens, or the fixed codes. A dynamic block is
/// taken only where it is the shorter of the two.
pub fn make_block(tokens: Vec<Token>) -> (block: Block)
    requires
        tokens@.len() < u32::MAX,
    ensures
        block@.tokens() == tokens@,
        well_chosen(block@),
        (forall|i: int| 0 <= i < tokens@.len() ==> in_range(#[trigger] tokens@[i]))
            ==> block@.decodable(),
{
    let (literal_code_lens, distance_code_lens) = dynamic_code_lengths(tokens.as_slice());
    proof {
        lemma_built_lengths(tokens@, literal_code_lens@, distance_code_lens@);
        assert forall|i: int| 0 <= i < tokens@.len() && in_range(
            #[trigger] tokens@[i],
        ) implies encodable(fixed_literal_lens(), fixed_distance_lens(), tokens@[i]) by {
            lemma_fixed_codes_encode(tokens@[i]);
        }
    }
    let ghost all = tokens@;
    let block = choose_block(tokens, literal_code_lens, distance_code_lens);
    proof {
        reveal(well_chosen);
        if block@.is_dynamic() {
            assert(block@ == (BlockView::DynamicCodes {
                tokens: all,
                literal_code_lens: literal_code_lens@,
                distance_code_lens: distance_code_lens@,
            }));
        } else {
            assert(built_for(all, literal_code_lens@, distance_code_lens@) && !dynamic_is_cheaper(
                all,
                literal_code_lens@,
                distance_code_lens@,
            ));
        }
    }
    block
}

/// Tokens that can stand where they do are within the format's ranges.
pub proof fn lemma_well_formed_in_range(out: Seq<u8>, tokens: Seq<Token>)
    requires
        well_formed_from(out, tokens),
    ensures
        forall|i: int| 0 <= i < tokens.len() ==> in_range(#[trigger] tokens[i]),
    decreases tokens.len(),
{
    if tokens.len() > 0 {
        lemma_well_formed_in_range(apply_token(out, tokens[0]), tokens.skip(1));
        assert forall|i: int| 0 <= i < tokens.len() implies in_range(#[trigger] tokens[i]) by {
            if i > 0 {
                assert(tokens[i] == tokens.skip(1)[i - 1]);
            }
        }
    }
}

/// The `j`-th run of at most [`BLOCK_TOKENS`] tokens.
pub open spec fn chunk(tokens: Seq<Token>, j: int) -> Seq<Token> {
    tokens.subrange(
        j * BLOCK_TOKENS,
        if (j + 1) * BLOCK_TOKENS < tokens.len() {
            (j + 1) * BLOCK_TOKENS
        } else {
            tokens.len() as int
        },
    )
}

/// The blocks hold the tokens in runs of [`BLOCK_TOKENS`], but for the
/// last, which may hold fewer; there is one block at least.
pub open spec fn split_of(tokens: Seq<Token>, blocks: Seq<BlockView>) -> bool {
    &&& blocks.len() >= 1
    &&& all_tokens(blocks) == tokens
    &&& (blocks.len() - 1) * BLOCK_TOKENS < tokens.len() || blocks.len() == 1
    &&& tokens.len() <= blocks.len() * BLOCK_TOKENS
    &&& forall|j: int| 0 <= j < blocks.len() ==> (#[trigger] blocks[j]).tokens() == chunk(tokens, j)
}

/// The tokens of a set of blocks are the tokens of all but the last block
/// followed by those of the last.
proof fn lemma_all_tokens_push(blocks: Seq<Block>, block: Block)
    ensures
        all_tokens(block_views(blocks.push(block))) == all_tokens(block_views(blocks))
            + block@.tokens(),
{
    assert(block_views(blocks.push(block)).drop_last() =~= block_views(blocks));
}

/// Cuts the tokens into blocks of [`BLOCK_TOKENS`] tokens, but for the
/// last, which may hold fewer; an empty one if there are no tokens. Each
/// block gets the codes that take fewer bits: Huffman codes built for the
/// block, or the fixed codes.
pub fn block_split(tokens: &[Token]) -> (blocks: Vec<Block>)
    ensures
        split_of(tokens@, block_views(blocks@)),
        blocks@.len() >= 1,
        all_tokens(block_views(blocks@)) == tokens@,
        (blocks@.len() - 1) * BLOCK_TOKENS < tokens@.len() || blocks@.len() == 1,
        tokens@.len() <= blocks@.len() * BLOCK_TOKENS,
        forall|j: int|
            0 <= j < blocks@.len() ==> (#[trigger] blocks@[j])@.tokens() == chunk(tokens@, j),
        forall|j: int| 0 <= j < blocks@.len() ==> well_chosen((#[trigger] blocks@[j])@),
        (forall|i: int| 0 <= i < tokens@.len() ==> in_range(#[trigger] tokens@[i])) ==> forall|
            j: int,
        |
            0 <= j < blocks@.len() ==> (#[trigger] blocks@[j])@.decodable(),
{
    let n = tokens.len();
    let mut blocks: Vec<Block> = Vec::new();
    let mut start: usize = 0;
    assert(tokens@.take(0) =~= Seq::<Token>::empty());
    loop
        invariant_except_break
            start == blocks@.len() * BLOCK_TOKENS,
            blocks@.len() > 0 ==> start < n,
        invariant
            n == tokens@.len(),
            start <= n,
            all_tokens(block_views(blocks@)) == tokens@.take(start as int),
            forall|j: int|
                0 <= j < blocks@.len() ==> (#[trigger] blocks@[j])@.tokens() == chunk(tokens@, j),
            forall|j: int| 0 <= j < blocks@.len() ==> well_chosen((#[trigger] blocks@[j])@),
            (forall|i: int| 0 <= i < tokens@.len() ==> in_range(#[trigger] tokens@[i])) ==> forall|
                j: int,
            |
                0 <= j < blocks@.len() ==> (#[trigger] blocks@[j])@.decodable(),
        ensures
            blocks@.len() >= 1,
            start == n,
            (blocks@.len() - 1) * BLOCK_TOKENS < n || blocks@.len() == 1,
            n <= blocks@.len() * BLOCK_TOKENS,
        decreases n - start,
    {
        let end: usize = if n - start > BLOCK_TOKENS { start + BLOCK_TOKENS } else { n };
        let mut run: Vec<Token> = Vec::new();
        let mut i: usize = start;
        while i < end
            invariant
                start <= i <= end <= n == tokens@.len(),
                run@ == tokens@.subrange(start as int, i as int),
            decreases end - i,
        {
            run.push(tokens[i]);
            assert(run@ =~= tokens@.subrange(start as int, i + 1));
            i = i + 1;
        }
        let block = make_block(run);
        proof {
            lemma_all_tokens_push(blocks@, block);
            assert(tokens@.take(start as int) + tokens@.subrange(start as int, end as int)
                =~= tokens@.take(end as int));
            assert(block@.tokens() == chunk(tokens@, blocks@.len() as int));
        }
        blocks.push(block);
        start = end;
        if start >= n {
            break;
        }
    }
    proof {
        assert(tokens@.take(n as int) =~= tokens@);
        let views = block_views(blocks@);
        assert forall|j: int| 0 <= j < views.len() implies (#[trigger] views[j]).tokens() == chunk(
            tokens@,
            j,
        ) by {
            assert(views[j] == blocks@[j]@);
        }
    }
    blocks
}

} // verus!
