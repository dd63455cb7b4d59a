//! Canonical Huffman codes built from code lengths.

use crate::bits::{
    lemma_lsb_bits_of_value, lemma_lsb_value_bound, lemma_msb_bits_grow,
    lemma_msb_bits_injective, lemma_msb_bits_len, lemma_msb_bits_take, lemma_pow2_add,
    lemma_pow2_monotonic, lemma_pow2_positive, lemma_pow2_values, lemma_shr_bound,
    lemma_shr_lower, lemma_shr_step, lsb_bits, lsb_value, msb_bits, pow2, shr,
};
use crate::error::DeflateError;
use vstd::prelude::*;

verus! {

/// The longest code word the format allows.
pub const MAX_CODE_LENGTH: u8 = 15;

/// One code word. `length == 0` marks a symbol that is not used; its `code`
/// is then zero. Otherwise `code` holds the code word with its first bit in
/// the lowest position, so that writing `code` least significant bit first
/// puts the code word on the wire in its own order.
#[derive(Clone, Copy, Debug, PartialEq, Eq)]
pub struct HuffmanCode {
    pub code: u32,
    pub length: u8,
}

/// The code words of an alphabet, by symbol.
pub type Tree = Vec<HuffmanCode>;

/// How many symbols of `lens` have length `l`.
pub open spec fn count_len(lens: Seq<u8>, l: nat) -> nat
    decreases lens.len(),
{
    if lens.len() == 0 {
        0
    } else {
        count_len(lens.drop_last(), l) + if lens.last() == l { 1nat } else { 0nat }
    }
}

/// The smallest code word of length `l`, as a number.
pub open spec fn first_code(lens: Seq<u8>, l: nat) -> nat
    decreases l,
{
    if l <= 1 {
        0
    } else {
        2 * (first_code(lens, (l - 1) as nat) + count_len(lens, (l - 1) as nat))
    }
}

/// The code word of symbol `s`, as a number: code words of one length are
/// consecutive and ordered by symbol.
pub open spec fn canonical_code(lens: Seq<u8>, s: int) -> nat {
    first_code(lens, lens[s] as nat) + count_len(lens.take(s), lens[s] as nat)
}

/// The sum of `2^(n - len)` over the symbols with a length in `1..=n`: the
/// Kraft sum of the code in units of `2^-n`.
pub open spec fn kraft_sum(lens: Seq<u8>, n: nat) -> nat
    decreases lens.len(),
{
    if lens.len() == 0 {
        0
    } else {
        kraft_sum(lens.drop_last(), n) + if 1 <= lens.last() <= n {
            pow2((n - lens.last()) as nat)
        } else {
            0nat
        }
    }
}

/// The lengths are at most 15 and their Kraft sum is at most one. These are
/// the lengths for which no canonical code word overflows its length, see
/// [`lemma_codes_fit`] and [`lemma_overflow_is_invalid`].
#[verifier::opaque]
pub open spec fn valid_lengths(lens: Seq<u8>) -> bool {
    &&& forall|s: int| 0 <= s < lens.len() ==> #[trigger] lens[s] <= 15
    &&& kraft_sum(lens, 15) <= pow2(15)
}

/// The code leaves no bit pattern unused: its Kraft sum is one.
pub open spec fn full_code(lens: Seq<u8>) -> bool {
    kraft_sum(lens, 15) == pow2(15)
}

/// The code has a single code word, and that of one bit.
pub open spec fn lone_code(lens: Seq<u8>) -> bool {
    exists|s: int|
        0 <= s < lens.len() && #[trigger] lens[s] == 1 && forall|t: int|
            0 <= t < lens.len() && t != s ==> #[trigger] lens[t] == 0
}

/// The code has no code word.
pub open spec fn empty_code(lens: Seq<u8>) -> bool {
    forall|s: int| 0 <= s < lens.len() ==> #[trigger] lens[s] == 0
}

/// The code word of symbol `s` in the order in which it is sent.
#[verifier::opaque]
pub open spec fn code_bits(lens: Seq<u8>, s: int) -> Seq<bool> {
    msb_bits(canonical_code(lens, s), lens[s] as nat)
}

/// The entry of symbol `s` in the table of code words.
pub open spec fn code_entry(lens: Seq<u8>, s: int) -> HuffmanCode {
    HuffmanCode { code: lsb_value(code_bits(lens, s)) as u32, length: lens[s] }
}

/// The table of code words for `lens`.
pub open spec fn tree_of(lens: Seq<u8>) -> Seq<HuffmanCode> {
    Seq::new(lens.len(), |s: int| code_entry(lens, s))
}

/// The lengths that a table of code words was built from.
pub open spec fn lengths_of(tree: Seq<HuffmanCode>) -> Seq<u8> {
    Seq::new(tree.len(), |s: int| tree[s].length)
}

/// One symbol more counts if it has the length.
pub proof fn lemma_count_len_take(lens: Seq<u8>, k: int, l: nat)
    requires
        0 <= k < lens.len(),
    ensures
        count_len(lens.take(k + 1), l) == count_len(lens.take(k), l) + if lens[k] == l {
            1nat
        } else {
            0nat
        },
{
    assert(lens.take(k + 1).drop_last() =~= lens.take(k));
}

/// Among the first symbols no more have the length than among all.
pub proof fn lemma_count_len_monotonic(lens: Seq<u8>, k: int, l: nat)
    requires
        0 <= k <= lens.len(),
    ensures
        count_len(lens.take(k), l) <= count_len(lens, l),
    decreases lens.len() - k,
{
    if k < lens.len() {
        lemma_count_len_take(lens, k, l);
        lemma_count_len_monotonic(lens, k + 1, l);
    } else {
        assert(lens.take(k) =~= lens);
    }
}

/// A symbol's code word is below the end of the code words of its length.
pub proof fn lemma_canonical_code_bound(lens: Seq<u8>, s: int)
    requires
        0 <= s < lens.len(),
    ensures
        canonical_code(lens, s) < first_code(lens, lens[s] as nat) + count_len(
            lens,
            lens[s] as nat,
        ),
{
    lemma_count_len_take(lens, s, lens[s] as nat);
    lemma_count_len_monotonic(lens, s + 1, lens[s] as nat);
}

/// Reverses the low `len` bits of `code`.
fn reverse_bits(code: u32, len: u8) -> (r: u32)
    requires
        len <= MAX_CODE_LENGTH,
    ensures
        r == lsb_value(msb_bits(code as nat, len as nat)),
{
    let mut r: u32 = 0;
    let mut c: u32 = code;
    let mut i: u8 = 0;
    while i < len
        invariant
            i <= len <= 15,
            c == shr(code as nat, i as nat),
            r == lsb_value(msb_bits(code as nat, i as nat)),
        decreases len - i,
    {
        proof {
            let prev = msb_bits(code as nat, i as nat);
            let next = msb_bits(code as nat, (i + 1) as nat);
            lemma_msb_bits_grow(code as nat, i as nat);
            lemma_shr_step(code as nat, i as nat);
            lemma_msb_bits_len(code as nat, i as nat);
            lemma_lsb_value_bound(prev);
            lemma_pow2_monotonic(i as nat, 15);
            lemma_pow2_values();
            assert(next.skip(1) =~= prev);
        }
        r = r * 2 + c % 2;
        c = c / 2;
        i = i + 1;
    }
    r
}

/// Counts the symbols of each length; `None` if a length is above 15.
fn count_lengths(lens: &[u8]) -> (res: Option<Vec<usize>>)
    ensures
        match res {
            Some(count) => {
                &&& count@.len() == 16
                &&& forall|s: int| 0 <= s < lens@.len() ==> #[trigger] lens@[s] <= 15
                &&& forall|l: int|
                    0 <= l < 16 ==> #[trigger] count@[l] == count_len(lens@, l as nat)
            },
            None => exists|s: int| 0 <= s < lens@.len() && #[trigger] lens@[s] > 15,
        },
{
    let n = lens.len();
    let mut count: Vec<usize> = vec![0usize; 16];
    let mut s: usize = 0;
    while s < n
        invariant
            s <= n == lens@.len(),
            count@.len() == 16,
            forall|t: int| 0 <= t < s ==> #[trigger] lens@[t] <= 15,
            forall|l: int|
                0 <= l < 16 ==> #[trigger] count@[l] == count_len(lens@.take(s as int), l as nat),
        decreases n - s,
    {
        let l = lens[s];
        if l > MAX_CODE_LENGTH {
            return None;
        }
        proof {
            assert forall|k: int| 0 <= k < 16 implies #[trigger] count_len(
                lens@.take(s + 1),
                k as nat,
            ) == count_len(lens@.take(s as int), k as nat) + if lens@[s as int] == k {
                1nat
            } else {
                0nat
            } by {
                lemma_count_len_take(lens@, s as int, k as nat);
            }
            lemma_count_len_bound(lens@.take(s + 1), l as nat);
        }
        count[l as usize] = count[l as usize] + 1;
        s = s + 1;
    }
    assert(lens@.take(n as int) =~= lens@);
    Some(count)
}

/// Computes the first code word of each length from the counts; `None` if
/// the code words of some length overflow it.
fn first_codes(count: &Vec<usize>, Ghost(lens): Ghost<Seq<u8>>) -> (res: Option<Vec<u32>>)
    requires
        count@.len() == 16,
        forall|l: int| 0 <= l < 16 ==> #[trigger] count@[l] == count_len(lens, l as nat),
    ensures
        match res {
            Some(next_code) => {
                &&& next_code@.len() == 16
                &&& kraft_sum(lens, 15) <= pow2(15)
                &&& forall|l: int|
                    1 <= l < 16 ==> #[trigger] next_code@[l] == first_code(lens, l as nat)
            },
            None => kraft_sum(lens, 15) > pow2(15),
        },
{
    let mut next_code: Vec<u32> = vec![0u32; 16];
    let mut end: u32 = 0;
    let mut limit: u32 = 1;
    let mut l: usize = 1;
    proof {
        lemma_kraft_sum_zero(lens);
    }
    while l < 16
        invariant
            1 <= l <= 16,
            count@.len() == 16,
            next_code@.len() == 16,
            forall|k: int| 0 <= k < 16 ==> #[trigger] count@[k] == count_len(lens, k as nat),
            limit == pow2((l - 1) as nat),
            end == kraft_sum(lens, (l - 1) as nat),
            end <= limit,
            forall|k: int| 1 <= k < l ==> #[trigger] next_code@[k] == first_code(lens, k as nat),
        decreases 16 - l,
    {
        proof {
            lemma_pow2_values();
            lemma_pow2_monotonic((l - 1) as nat, 15);
            lemma_kraft_sum_step(lens, l as nat);
            if l > 1 {
                lemma_kraft_sum_is_code_end(lens, (l - 1) as nat);
            } else {
                lemma_kraft_sum_zero(lens);
            }
        }
        let code: u32 = end * 2;
        limit = limit * 2;
        assert(code == first_code(lens, l as nat));
        assert(count@[l as int] == count_len(lens, l as nat));
        if count[l] > (limit - code) as usize {
            proof {
                lemma_overflow_is_invalid(lens, l as nat);
            }
            return None;
        }
        next_code[l] = code;
        end = code + count[l] as u32;
        l = l + 1;
    }
    Some(next_code)
}

/// Builds the canonical code words for the code lengths `lens`.
///
/// Fails exactly when a length is above 15 or the lengths are over-full.
pub fn calc_codes(lens: &[u8]) -> (res: Result<Tree, DeflateError>)
    ensures
        match res {
            Ok(tree) => valid_lengths(lens@) && tree@ == tree_of(lens@),
            Err(e) => !valid_lengths(lens@) && e == DeflateError::InvalidCodeLengths,
        },
{
    let count = match count_lengths(lens) {
        Some(count) => count,
        None => {
            proof {
                reveal(valid_lengths);
            }
            return Err(DeflateError::InvalidCodeLengths);
        },
    };
    let mut next_code = match first_codes(&count, Ghost(lens@)) {
        Some(next_code) => next_code,
        None => {
            proof {
                reveal(valid_lengths);
            }
            return Err(DeflateError::InvalidCodeLengths);
        },
    };
    let n = lens.len();
    let mut tree: Vec<HuffmanCode> = Vec::new();
    let mut s: usize = 0;
    proof {
        reveal(valid_lengths);
        assert(lens@.take(0) =~= Seq::<u8>::empty());
    }
    while s < n
        invariant
            s <= n == lens@.len(),
            next_code@.len() == 16,
            valid_lengths(lens@),
            forall|k: int|
                1 <= k < 16 ==> #[trigger] next_code@[k] == first_code(lens@, k as nat) + count_len(
                    lens@.take(s as int),
                    k as nat,
                ),
            tree@.len() == s,
            forall|t: int| 0 <= t < s ==> #[trigger] tree@[t] == code_entry(lens@, t),
        decreases n - s,
    {
        let l = lens[s];
        proof {
            reveal(valid_lengths);
            reveal(code_bits);
        }
        assert(lens@[s as int] <= 15);
        let entry = if l == 0 {
            assert(code_bits(lens@, s as int) =~= Seq::<bool>::empty());
            HuffmanCode { code: 0, length: 0 }
        } else {
            let c = next_code[l as usize];
            proof {
                lemma_canonical_code_bound(lens@, s as int);
                lemma_codes_fit(lens@, l as nat);
                lemma_pow2_values();
                lemma_pow2_monotonic(l as nat, 15);
                lemma_msb_bits_len(c as nat, l as nat);
                lemma_lsb_value_bound(msb_bits(c as nat, l as nat));
            }
            next_code[l as usize] = c + 1;
            HuffmanCode { code: reverse_bits(c, l), length: l }
        };
        proof {
            assert forall|k: int| 1 <= k < 16 implies #[trigger] next_code@[k] == first_code(
                lens@,
                k as nat,
            ) + count_len(lens@.take(s + 1), k as nat) by {
                lemma_count_len_take(lens@, s as int, k as nat);
            }
        }
        tree.push(entry);
        s = s + 1;
    }
    assert(tree@ =~= tree_of(lens@));
    Ok(tree)
}

/// Valid lengths are at most 15.
pub proof fn lemma_valid_lengths_bound(lens: Seq<u8>)
    requires
        valid_lengths(lens),
    ensures
        forall|s: int| 0 <= s < lens.len() ==> #[trigger] lens[s] <= 15,
{
    reveal(valid_lengths);
}

/// The length of a code word is the symbol's code length.
pub proof fn lemma_code_bits_len(lens: Seq<u8>, s: int)
    ensures
        code_bits(lens, s).len() == lens[s],
{
    reveal(code_bits);
    lemma_msb_bits_len(canonical_code(lens, s), lens[s] as nat);
}

/// No more symbols have the length than there are.
pub proof fn lemma_count_len_bound(lens: Seq<u8>, l: nat)
    ensures
        count_len(lens, l) <= lens.len(),
    decreases lens.len(),
{
    if lens.len() > 0 {
        lemma_count_len_bound(lens.drop_last(), l);
    }
}

/// Writing a table entry's `code` in `length` bits, least significant bit
/// first, puts the symbol's code word on the wire.
pub proof fn lemma_tree_entry_bits(lens: Seq<u8>, s: int)
    requires
        valid_lengths(lens),
        0 <= s < lens.len(),
    ensures
        lsb_bits(tree_of(lens)[s].code as nat, tree_of(lens)[s].length as nat) == code_bits(
            lens,
            s,
        ),
        lengths_of(tree_of(lens)) == lens,
{
    reveal(valid_lengths);
    reveal(code_bits);
    let word = code_bits(lens, s);
    assert(lens[s] <= 15);
    lemma_msb_bits_len(canonical_code(lens, s), lens[s] as nat);
    lemma_lsb_value_bound(word);
    lemma_pow2_monotonic(lens[s] as nat, 15);
    lemma_pow2_values();
    lemma_lsb_bits_of_value(word);
    assert(lengths_of(tree_of(lens)) =~= lens);
}

/// The symbol `s` has a code word, and `bits` begins with it.
pub open spec fn begins_with_code(lens: Seq<u8>, s: int, bits: Seq<bool>) -> bool {
    &&& 0 <= s < lens.len()
    &&& lens[s] > 0
    &&& code_bits(lens, s).is_prefix_of(bits)
}

/// The symbol that `bits` begins with, if there is one. For valid lengths
/// there is at most one, see [`lemma_decode_symbol`].
pub open spec fn decode_symbol(lens: Seq<u8>, bits: Seq<bool>) -> Option<int> {
    if exists|s: int| begins_with_code(lens, s, bits) {
        Some(choose|s: int| begins_with_code(lens, s, bits))
    } else {
        None
    }
}

proof fn lemma_count_len_takes(lens: Seq<u8>, a: int, b: int, l: nat)
    requires
        0 <= a <= b <= lens.len(),
    ensures
        count_len(lens.take(a), l) <= count_len(lens.take(b), l),
{
    lemma_count_len_monotonic(lens.take(b), a, l);
    assert(lens.take(b).take(a) =~= lens.take(a));
}

/// Among symbols of one length, code words increase with the symbol.
pub proof fn lemma_codes_increase(lens: Seq<u8>, s: int, t: int)
    requires
        0 <= s < t < lens.len(),
        lens[s] == lens[t],
    ensures
        canonical_code(lens, s) < canonical_code(lens, t),
{
    lemma_count_len_take(lens, s, lens[s] as nat);
    lemma_count_len_takes(lens, s + 1, t, lens[s] as nat);
}

/// The code words of a longer length start beyond every shorter code word
/// extended to that length.
proof fn lemma_first_code_grows(lens: Seq<u8>, a: nat, b: nat)
    requires
        1 <= a < b,
    ensures
        first_code(lens, b) >= (first_code(lens, a) + count_len(lens, a)) * pow2((b - a) as nat),
    decreases b,
{
    let end_a = first_code(lens, a) + count_len(lens, a);
    if b == a + 1 {
        assert(pow2(1) == 2) by {
            lemma_pow2_values();
        }
        assert(end_a * 2 == 2 * end_a);
    } else {
        let b1 = (b - 1) as nat;
        lemma_first_code_grows(lens, a, b1);
        let d1 = (b1 - a) as nat;
        assert(pow2((b - a) as nat) == 2 * pow2(d1));
        assert(end_a * (2 * pow2(d1)) == 2 * (end_a * pow2(d1))) by (nonlinear_arith);
    }
}

/// No code word is the beginning of another.
pub proof fn lemma_prefix_free(lens: Seq<u8>, s: int, t: int)
    requires
        valid_lengths(lens),
        0 <= s < lens.len(),
        0 <= t < lens.len(),
        s != t,
        lens[s] > 0,
        lens[t] > 0,
    ensures
        !code_bits(lens, s).is_prefix_of(code_bits(lens, t)),
{
    reveal(valid_lengths);
    reveal(code_bits);
    let ls = lens[s] as nat;
    let lt = lens[t] as nat;
    let cs = canonical_code(lens, s);
    let ct = canonical_code(lens, t);
    lemma_msb_bits_len(cs, ls);
    lemma_msb_bits_len(ct, lt);
    lemma_canonical_code_bound(lens, s);
    lemma_canonical_code_bound(lens, t);
    assert(lens[s] <= 15 && lens[t] <= 15);
    lemma_codes_fit(lens, ls);
    lemma_codes_fit(lens, lt);
    if code_bits(lens, s).is_prefix_of(code_bits(lens, t)) {
        assert(ls <= lt);
        if ls == lt {
            assert(code_bits(lens, t).subrange(0, ls as int) =~= code_bits(lens, t));
            lemma_msb_bits_injective(cs, ct, ls);
            if s < t {
                lemma_codes_increase(lens, s, t);
            } else {
                lemma_codes_increase(lens, t, s);
            }
        } else {
            let d = (lt - ls) as nat;
            lemma_msb_bits_take(ct, lt, ls);
            lemma_shr_bound(ct, lt, d);
            assert(code_bits(lens, t).subrange(0, ls as int) =~= msb_bits(ct, lt).take(ls as int));
            lemma_msb_bits_injective(shr(ct, d), cs, ls);
            lemma_first_code_grows(lens, ls, lt);
            let end_s = first_code(lens, ls) + count_len(lens, ls);
            assert((cs + 1) * pow2(d) <= end_s * pow2(d)) by (nonlinear_arith)
                requires
                    cs + 1 <= end_s,
            ;
            lemma_shr_lower(ct, cs + 1, d);
        }
    }
}

/// A stream that begins with the code word of `s` decodes to `s`.
pub proof fn lemma_decode_symbol(lens: Seq<u8>, s: int, rest: Seq<bool>)
    requires
        valid_lengths(lens),
        0 <= s < lens.len(),
        lens[s] > 0,
    ensures
        decode_symbol(lens, code_bits(lens, s) + rest) == Some(s),
{
    let bits = code_bits(lens, s) + rest;
    assert(bits.subrange(0, code_bits(lens, s).len() as int) =~= code_bits(lens, s));
    assert(begins_with_code(lens, s, bits));
    let t = choose|t: int| begins_with_code(lens, t, bits);
    if t != s {
        let a = code_bits(lens, s);
        let b = code_bits(lens, t);
        if a.len() <= b.len() {
            assert(b.subrange(0, a.len() as int) =~= bits.subrange(0, a.len() as int));
            lemma_prefix_free(lens, s, t);
        } else {
            assert(a.subrange(0, b.len() as int) =~= bits.subrange(0, b.len() as int));
            lemma_prefix_free(lens, t, s);
        }
    }
}

/// The Kraft sum in units of `2^-n` is where the code words of length `n` end.
pub proof fn lemma_kraft_sum_is_code_end(lens: Seq<u8>, n: nat)
    requires
        n >= 1,
    ensures
        kraft_sum(lens, n) == first_code(lens, n) + count_len(lens, n),
    decreases n,
{
    lemma_kraft_sum_step(lens, n);
    if n > 1 {
        lemma_kraft_sum_is_code_end(lens, (n - 1) as nat);
    } else {
        lemma_kraft_sum_zero(lens);
    }
}

proof fn lemma_kraft_sum_zero(lens: Seq<u8>)
    ensures
        kraft_sum(lens, 0) == 0,
    decreases lens.len(),
{
    if lens.len() > 0 {
        lemma_kraft_sum_zero(lens.drop_last());
    }
}

proof fn lemma_kraft_sum_step(lens: Seq<u8>, n: nat)
    requires
        n >= 1,
    ensures
        kraft_sum(lens, n) == 2 * kraft_sum(lens, (n - 1) as nat) + count_len(lens, n),
    decreases lens.len(),
{
    if lens.len() > 0 {
        lemma_kraft_sum_step(lens.drop_last(), n);
        let l = lens.last() as nat;
        if 1 <= l < n {
            assert(pow2((n - l) as nat) == 2 * pow2((n - 1 - l) as nat));
        } else if l == n {
            assert(pow2(0) == 1);
        }
    }
}

/// Under valid lengths the code words of each length fit that length.
pub proof fn lemma_codes_fit(lens: Seq<u8>, l: nat)
    requires
        valid_lengths(lens),
        1 <= l <= 15,
    ensures
        first_code(lens, l) + count_len(lens, l) <= pow2(l),
{
    reveal(valid_lengths);
    lemma_kraft_sum_is_code_end(lens, l);
    lemma_kraft_sum_scales(lens, l, 15);
    lemma_pow2_add(l, (15 - l) as nat);
    let d = pow2((15 - l) as nat);
    lemma_pow2_positive((15 - l) as nat);
    assert(kraft_sum(lens, l) <= pow2(l)) by (nonlinear_arith)
        requires
            kraft_sum(lens, l) * d <= pow2(l) * d,
            d > 0,
    ;
}

/// Lengths whose code words of some length overflow that length are not
/// valid.
pub proof fn lemma_overflow_is_invalid(lens: Seq<u8>, l: nat)
    requires
        1 <= l <= 15,
        first_code(lens, l) + count_len(lens, l) > pow2(l),
    ensures
        kraft_sum(lens, 15) > pow2(15),
{
    lemma_kraft_sum_is_code_end(lens, l);
    lemma_kraft_sum_scales(lens, l, 15);
    lemma_pow2_add(l, (15 - l) as nat);
    let d = pow2((15 - l) as nat);
    lemma_pow2_positive((15 - l) as nat);
    assert(kraft_sum(lens, l) * d > pow2(l) * d) by (nonlinear_arith)
        requires
            kraft_sum(lens, l) > pow2(l),
            d > 0,
    ;
}

proof fn lemma_kraft_sum_scales(lens: Seq<u8>, a: nat, b: nat)
    requires
        a <= b,
    ensures
        kraft_sum(lens, a) * pow2((b - a) as nat) <= kraft_sum(lens, b),
    decreases b - a,
{
    if a < b {
        lemma_kraft_sum_scales(lens, a + 1, b);
        lemma_kraft_sum_step(lens, a + 1);
        let d = pow2((b - a - 1) as nat);
        assert(pow2((b - a) as nat) == 2 * d);
        assert(kraft_sum(lens, a) * (2 * d) <= kraft_sum(lens, a + 1) * d) by (nonlinear_arith)
            requires
                2 * kraft_sum(lens, a) <= kraft_sum(lens, a + 1),
        ;
        assert(kraft_sum(lens, a) * pow2((b - a) as nat) == kraft_sum(lens, a) * (2 * d));
    } else {
        assert(pow2((b - a) as nat) == 1);
        assert(kraft_sum(lens, a) * 1 == kraft_sum(lens, a));
    }
}

/// The literal/length code lengths of a block with fixed codes.
pub open spec fn fixed_literal_lens() -> Seq<u8> {
    Seq::new(
        288,
        |s: int|
            if s < 144 {
                8u8
            } else if s < 256 {
                9u8
            } else if s < 280 {
                7u8
            } else {
                8u8
            },
    )
}

/// The distance code lengths of a block with fixed codes.
pub open spec fn fixed_distance_lens() -> Seq<u8> {
    Seq::new(30, |s: int| 5u8)
}

/// The literal/length code lengths of a block with fixed codes.
pub fn fixed_literal_lengths() -> (lens: Vec<u8>)
    ensures
        lens@ == fixed_literal_lens(),
{
    let mut lens: Vec<u8> = Vec::new();
    let mut s: usize = 0;
    while s < 288
        invariant
            s <= 288,
            lens@.len() == s,
            forall|t: int| 0 <= t < s ==> lens@[t] == fixed_literal_lens()[t],
        decreases 288 - s,
    {
        let l: u8 = if s < 144 {
            8
        } else if s < 256 {
            9
        } else if s < 280 {
            7
        } else {
            8
        };
        lens.push(l);
        s = s + 1;
    }
    assert(lens@ =~= fixed_literal_lens());
    lens
}

/// The distance code lengths of a block with fixed codes.
pub fn fixed_distance_lengths() -> (lens: Vec<u8>)
    ensures
        lens@ == fixed_distance_lens(),
{
    let lens: Vec<u8> = vec![5u8; 30];
    assert(lens@ =~= fixed_distance_lens());
    lens
}

proof fn lemma_fixed_literal_kraft(k: int)
    requires
        0 <= k <= 288,
    ensures
        kraft_sum(fixed_literal_lens().take(k), 15) == if k <= 144 {
            128 * k
        } else if k <= 256 {
            18432 + 64 * (k - 144)
        } else if k <= 280 {
            25600 + 256 * (k - 256)
        } else {
            31744 + 128 * (k - 280)
        },
    decreases k,
{
    lemma_pow2_values();
    if k > 0 {
        lemma_fixed_literal_kraft(k - 1);
        assert(fixed_literal_lens().take(k).drop_last() =~= fixed_literal_lens().take(k - 1));
    }
}

/// The fixed literal/length code is valid.
pub proof fn lemma_fixed_literal_valid()
    ensures
        valid_lengths(fixed_literal_lens()),
{
    reveal(valid_lengths);
    lemma_fixed_literal_kraft(288);
    assert(fixed_literal_lens().take(288) =~= fixed_literal_lens());
    lemma_pow2_values();
}

proof fn lemma_fixed_distance_kraft(k: int)
    requires
        0 <= k <= 30,
    ensures
        kraft_sum(fixed_distance_lens().take(k), 15) == 1024 * k,
    decreases k,
{
    lemma_pow2_values();
    if k > 0 {
        lemma_fixed_distance_kraft(k - 1);
        assert(fixed_distance_lens().take(k).drop_last() =~= fixed_distance_lens().take(k - 1));
    }
}

/// The fixed distance code is valid.
pub proof fn lemma_fixed_distance_valid()
    ensures
        valid_lengths(fixed_distance_lens()),
{
    reveal(valid_lengths);
    lemma_fixed_distance_kraft(30);
    assert(fixed_distance_lens().take(30) =~= fixed_distance_lens());
    lemma_pow2_values();
}

} // verus!
