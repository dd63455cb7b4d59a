//! Code lengths for a histogram: a Huffman code with no code word longer
//! than 15 bits.

use crate::bits::{lemma_pow2_add, lemma_pow2_monotonic, lemma_pow2_std, lemma_pow2_values, pow2};
use crate::error::DeflateError;
use crate::huffman::{MAX_CODE_LENGTH, empty_code, full_code, kraft_sum, lone_code, valid_lengths};
use vstd::prelude::*;

verus! {

/// The largest number of symbols that a code of at most 15 bits can hold.
pub const MAX_SYMBOLS: usize = 32768;

/// How many symbols of the histogram occur.
pub open spec fn used_count(freq: Seq<u32>) -> nat
    decreases freq.len(),
{
    if freq.len() == 0 {
        0
    } else {
        used_count(freq.drop_last()) + if freq.last() > 0 { 1nat } else { 0nat }
    }
}

/// The Kraft sum, in units of `2^-15`, of a code that leaves no bit pattern
/// unused: one for two symbols or more. A single symbol takes one bit and
/// leaves half unused; no symbol, all.
pub open spec fn full_sum(used: nat) -> nat {
    if used == 0 {
        0
    } else if used == 1 {
        16384
    } else {
        32768
    }
}

/// The lengths are a code for the histogram: the symbols that occur, and
/// only they, have a code word; none is longer than 15 bits; and the code is
/// full.
pub open spec fn fits_histogram(freq: Seq<u32>, lens: Seq<u8>) -> bool {
    &&& lens.len() == freq.len()
    &&& forall|s: int|
        0 <= s < lens.len() ==> ((#[trigger] lens[s]) > 0 <==> freq[s] > 0) && lens[s] <= 15
    &&& kraft_sum(lens, 15) == full_sum(used_count(freq))
}

/// No symbol has a shorter code word than one that comes after it in the
/// order of rarity.
pub open spec fn rarer_is_longer(freq: Seq<u32>, lens: Seq<u8>) -> bool {
    forall|s: int, t: int|
        0 <= s < lens.len() && 0 <= t < lens.len() && freq[s] > 0 && freq[t] > 0 && rarer(
            freq,
            s,
            t,
        ) ==> #[trigger] lens[s] >= #[trigger] lens[t]
}

/// The depths do not grow along the sequence.
pub open spec fn descending(depths: Seq<u8>) -> bool {
    forall|i: int, j: int|
        0 <= i < j < depths.len() ==> #[trigger] depths[i] >= #[trigger] depths[j]
}

/// A code for a histogram is valid.
pub proof fn lemma_fitting_lengths_valid(freq: Seq<u32>, lens: Seq<u8>)
    requires
        fits_histogram(freq, lens),
    ensures
        valid_lengths(lens),
{
    reveal(valid_lengths);
    lemma_pow2_values();
}

/// A code for a histogram is full, or has a single code word of one bit,
/// or none.
pub proof fn lemma_fitting_lengths_full(freq: Seq<u32>, lens: Seq<u8>)
    requires
        fits_histogram(freq, lens),
    ensures
        used_count(freq) >= 2 ==> full_code(lens),
        used_count(freq) == 1 ==> lone_code(lens),
        used_count(freq) == 0 ==> empty_code(lens),
{
    lemma_pow2_values();
    if used_count(freq) == 0 {
        lemma_none_used(freq);
    } else if used_count(freq) == 1 {
        lemma_one_used(freq, lens);
        let s = choose|s: int|
            0 <= s < lens.len() && #[trigger] lens[s] > 0 && kraft_sum(lens, 15) == pow2(
                (15 - lens[s]) as nat,
            ) && forall|t: int| 0 <= t < lens.len() && t != s ==> #[trigger] lens[t] == 0;
        if lens[s] >= 2 {
            lemma_pow2_monotonic((15 - lens[s]) as nat, 13);
        }
        assert(lens[s] == 1);
    }
}

/// In a histogram in which no symbol occurs every count is zero.
proof fn lemma_none_used(freq: Seq<u32>)
    requires
        used_count(freq) == 0,
    ensures
        forall|s: int| 0 <= s < freq.len() ==> #[trigger] freq[s] == 0,
    decreases freq.len(),
{
    if freq.len() > 0 {
        lemma_none_used(freq.drop_last());
        assert forall|s: int| 0 <= s < freq.len() implies #[trigger] freq[s] == 0 by {
            if s < freq.len() - 1 {
                assert(freq[s] == freq.drop_last()[s]);
            }
        }
    }
}

/// Lengths that are all zero have the Kraft sum zero.
proof fn lemma_no_code_words(lens: Seq<u8>)
    requires
        forall|s: int| 0 <= s < lens.len() ==> #[trigger] lens[s] == 0,
    ensures
        kraft_sum(lens, 15) == 0,
    decreases lens.len(),
{
    if lens.len() > 0 {
        assert forall|s: int| 0 <= s < lens.len() - 1 implies #[trigger] lens.drop_last()[s]
            == 0 by {
            assert(lens.drop_last()[s] == lens[s]);
        }
        lemma_no_code_words(lens.drop_last());
    }
}

/// With one symbol in use, its code word alone makes the Kraft sum.
proof fn lemma_one_used(freq: Seq<u32>, lens: Seq<u8>)
    requires
        lens.len() == freq.len(),
        forall|s: int|
            0 <= s < lens.len() ==> ((#[trigger] lens[s]) > 0 <==> freq[s] > 0) && lens[s] <= 15,
        used_count(freq) == 1,
    ensures
        exists|s: int|
            0 <= s < lens.len() && #[trigger] lens[s] > 0 && kraft_sum(lens, 15) == pow2(
                (15 - lens[s]) as nat,
            ) && forall|t: int| 0 <= t < lens.len() && t != s ==> #[trigger] lens[t] == 0,
    decreases lens.len(),
{
    let n = lens.len() - 1;
    let first = lens.drop_last();
    assert forall|s: int| 0 <= s < n implies ((#[trigger] first[s]) > 0 <==> freq.drop_last()[s]
        > 0) && first[s] <= 15 by {
        assert(first[s] == lens[s]);
    }
    if freq.last() > 0 {
        lemma_none_used(freq.drop_last());
        assert forall|t: int| 0 <= t < n implies #[trigger] first[t] == 0 by {
            assert(freq.drop_last()[t] == 0);
        }
        lemma_no_code_words(first);
        assert(lens[n] > 0);
        assert forall|t: int| 0 <= t < lens.len() && t != n implies #[trigger] lens[t] == 0 by {
            assert(first[t] == 0);
        }
    } else {
        lemma_one_used(freq.drop_last(), first);
        let s = choose|s: int|
            0 <= s < n && #[trigger] first[s] > 0 && kraft_sum(first, 15) == pow2(
                (15 - first[s]) as nat,
            ) && forall|t: int| 0 <= t < n && t != s ==> #[trigger] first[t] == 0;
        assert(lens[s] == first[s]);
        assert forall|t: int| 0 <= t < lens.len() && t != s implies #[trigger] lens[t] == 0 by {
            if t < n {
                assert(first[t] == 0);
            }
        }
    }
}

/// One length more adds its share to the Kraft sum.
pub proof fn lemma_kraft_sum_take(lens: Seq<u8>, k: int)
    requires
        0 <= k < lens.len(),
    ensures
        kraft_sum(lens.take(k + 1), 15) == kraft_sum(lens.take(k), 15) + if 1 <= lens[k] <= 15 {
            pow2((15 - lens[k]) as nat)
        } else {
            0nat
        },
{
    assert(lens.take(k + 1).drop_last() =~= lens.take(k));
}

/// One symbol more counts if it occurs; of `k` symbols at most `k` occur.
pub proof fn lemma_used_count_take(freq: Seq<u32>, k: int)
    requires
        0 <= k < freq.len(),
    ensures
        used_count(freq.take(k + 1)) == used_count(freq.take(k)) + if freq[k] > 0 {
            1nat
        } else {
            0nat
        },
        used_count(freq.take(k)) <= k,
    decreases k,
{
    assert(freq.take(k + 1).drop_last() =~= freq.take(k));
    if k > 0 {
        lemma_used_count_take(freq, k - 1);
    }
}

/// The share of a code word of `len` bits in the Kraft sum, in units of
/// `2^-15`.
fn kraft_unit(len: u8) -> (unit: u32)
    requires
        1 <= len <= 15,
    ensures
        unit == pow2((15 - len) as nat),
        1 <= unit <= 16384,
{
    let shift: u32 = (MAX_CODE_LENGTH - len) as u32;
    proof {
        lemma_pow2_std(shift as nat);
        lemma_pow2_monotonic(shift as nat, 14);
        lemma_pow2_values();
        crate::bits::lemma_pow2_positive(shift as nat);
        vstd::bits::lemma_u32_shl_is_mul(1, shift);
    }
    1u32 << shift
}

/// Counts the symbols that occur.
pub fn count_used(freq: &[u32]) -> (used: usize)
    ensures
        used == used_count(freq@),
{
    let mut used: usize = 0;
    let mut s: usize = 0;
    assert(freq@.take(0) =~= Seq::<u32>::empty());
    while s < freq.len()
        invariant
            s <= freq@.len(),
            used == used_count(freq@.take(s as int)),
            used <= s,
        decreases freq@.len() - s,
    {
        proof {
            lemma_used_count_take(freq@, s as int);
        }
        if freq[s] > 0 {
            used = used + 1;
        }
        s = s + 1;
    }
    assert(freq@.take(freq@.len() as int) =~= freq@);
    used
}

/// No more symbols occur than there are.
pub proof fn lemma_used_count_bound(freq: Seq<u32>)
    ensures
        used_count(freq) <= freq.len(),
    decreases freq.len(),
{
    if freq.len() > 0 {
        lemma_used_count_bound(freq.drop_last());
    }
}

/// The symbol `s` comes before `t` in the order of rarity: it is rarer,
/// or as rare and the lower symbol.
pub open spec fn rarer(freq: Seq<u32>, s: int, t: int) -> bool {
    freq[s] < freq[t] || (freq[s] == freq[t] && s < t)
}

/// The symbols that occur, each once, from the rarest to the most
/// frequent, and from the lowest to the highest among those as frequent.
pub open spec fn by_rarity(freq: Seq<u32>, order: Seq<usize>) -> bool {
    &&& forall|i: int|
        0 <= i < order.len() ==> (#[trigger] order[i]) < freq.len() && freq[order[i] as int] > 0
    &&& forall|i: int, j: int|
        0 <= i < j < order.len() ==> rarer(
            freq,
            #[trigger] order[i] as int,
            #[trigger] order[j] as int,
        )
    &&& forall|s: int| 0 <= s < freq.len() && freq[s] > 0 ==> #[trigger] order.contains(s as usize)
}

/// Lists the symbols that occur by rarity.
fn symbols_by_frequency(freq: &[u32]) -> (order: Vec<usize>)
    ensures
        by_rarity(freq@, order@),
        order@.len() == used_count(freq@),
{
    let mut order: Vec<usize> = Vec::new();
    let mut s: usize = 0;
    assert(freq@.take(0) =~= Seq::<u32>::empty());
    while s < freq.len()
        invariant
            s <= freq@.len(),
            order@.len() == used_count(freq@.take(s as int)),
            forall|i: int|
                0 <= i < order@.len() ==> (#[trigger] order@[i]) < s && freq@[order@[i] as int] > 0,
            forall|i: int, j: int|
                0 <= i < j < order@.len() ==> rarer(
                    freq@,
                    #[trigger] order@[i] as int,
                    #[trigger] order@[j] as int,
                ),
            forall|t: int| 0 <= t < s && freq@[t] > 0 ==> #[trigger] order@.contains(t as usize),
        decreases freq@.len() - s,
    {
        proof {
            lemma_used_count_take(freq@, s as int);
        }
        if freq[s] > 0 {
            let mut j: usize = order.len();
            while j > 0 && freq[order[j - 1]] > freq[s]
                invariant
                    j <= order@.len(),
                    s < freq@.len(),
                    forall|i: int| 0 <= i < order@.len() ==> (#[trigger] order@[i]) < s,
                    forall|i: int|
                        j <= i < order@.len() ==> freq@[#[trigger] order@[i] as int]
                            > freq@[s as int],
                decreases j,
            {
                j = j - 1;
            }
            let ghost before = order@;
            order.insert(j, s);
            proof {
                let after = order@;
                assert forall|i: int| 0 <= i < after.len() implies (#[trigger] after[i]) < s + 1
                    && freq@[after[i] as int] > 0 by {
                    if i < j {
                        assert(after[i] == before[i]);
                    } else if i > j {
                        assert(after[i] == before[i - 1]);
                    }
                }
                assert forall|a: int, b: int| 0 <= a < b < after.len() implies rarer(
                    freq@,
                    #[trigger] after[a] as int,
                    #[trigger] after[b] as int,
                ) by {
                    if b < j {
                        assert(after[a] == before[a] && after[b] == before[b]);
                    } else if b == j {
                        assert(after[a] == before[a]);
                        if a < j - 1 {
                            assert(rarer(freq@, before[a] as int, before[j - 1] as int));
                        }
                        assert(before[a] < s);
                    } else if a < j {
                        assert(after[a] == before[a] && after[b] == before[b - 1]);
                    } else if a == j {
                        assert(after[b] == before[b - 1]);
                    } else {
                        assert(after[a] == before[a - 1] && after[b] == before[b - 1]);
                    }
                }
                assert forall|t: int| 0 <= t < s + 1 && freq@[t] > 0 implies #[trigger] after.contains(
                    t as usize,
                ) by {
                    if t == s {
                        assert(after[j as int] == s);
                    } else {
                        assert(before.contains(t as usize));
                        let i = choose|i: int| 0 <= i < before.len() && before[i] == t as usize;
                        if i < j {
                            assert(after[i] == before[i]);
                        } else {
                            assert(after[i + 1] == before[i]);
                        }
                    }
                }
            }
        }
        s = s + 1;
    }
    assert(freq@.take(freq@.len() as int) =~= freq@);
    order
}

/// The share of a code length in the Kraft sum, in units of `2^-15`.
pub open spec fn unit(len: u8) -> nat {
    if 1 <= len <= 15 {
        pow2((15 - len) as nat)
    } else {
        0
    }
}

/// Changing one length changes the Kraft sum by the difference of the
/// shares.
proof fn lemma_kraft_sum_update(lens: Seq<u8>, i: int, len: u8)
    requires
        0 <= i < lens.len(),
    ensures
        kraft_sum(lens.update(i, len), 15) + unit(lens[i]) == kraft_sum(lens, 15) + unit(len),
    decreases lens.len(),
{
    let changed = lens.update(i, len);
    if i == lens.len() - 1 {
        assert(changed.drop_last() =~= lens.drop_last());
    } else {
        assert(changed.drop_last() =~= lens.drop_last().update(i, len));
        lemma_kraft_sum_update(lens.drop_last(), i, len);
    }
}

/// Code words of 15 bits have one unit each.
proof fn lemma_all_deepest(lens: Seq<u8>)
    requires
        forall|i: int| 0 <= i < lens.len() ==> #[trigger] lens[i] == 15,
    ensures
        kraft_sum(lens, 15) == lens.len(),
    decreases lens.len(),
{
    if lens.len() > 0 {
        assert forall|i: int| 0 <= i < lens.len() - 1 implies #[trigger] lens.drop_last()[i]
            == 15 by {
            assert(lens.drop_last()[i] == lens[i]);
        }
        lemma_all_deepest(lens.drop_last());
        assert(lens.last() == lens[lens.len() - 1]);
        assert(pow2(0) == 1);
    }
}

/// Code words of one bit have half of the whole each.
proof fn lemma_all_shallowest(lens: Seq<u8>)
    requires
        forall|i: int| 0 <= i < lens.len() ==> #[trigger] lens[i] == 1,
    ensures
        kraft_sum(lens, 15) == lens.len() * 16384,
    decreases lens.len(),
{
    if lens.len() > 0 {
        assert forall|i: int| 0 <= i < lens.len() - 1 implies #[trigger] lens.drop_last()[i]
            == 1 by {
            assert(lens.drop_last()[i] == lens[i]);
        }
        lemma_all_shallowest(lens.drop_last());
        assert(lens.last() == lens[lens.len() - 1]);
        lemma_pow2_values();
    }
}

/// The Kraft sum of lengths up to `m` is a multiple of the share of `m`.
proof fn lemma_kraft_sum_rescale(lens: Seq<u8>, m: nat)
    requires
        1 <= m <= 15,
        forall|i: int| 0 <= i < lens.len() ==> #[trigger] lens[i] <= m,
    ensures
        kraft_sum(lens, 15) == kraft_sum(lens, m) * pow2((15 - m) as nat),
    decreases lens.len(),
{
    let p = pow2((15 - m) as nat);
    if lens.len() > 0 {
        assert forall|i: int| 0 <= i < lens.len() - 1 implies #[trigger] lens.drop_last()[i]
            <= m by {
            assert(lens.drop_last()[i] == lens[i]);
        }
        lemma_kraft_sum_rescale(lens.drop_last(), m);
        let l = lens.last();
        assert(l == lens[lens.len() - 1]);
        let rest = kraft_sum(lens.drop_last(), m);
        if l >= 1 {
            lemma_pow2_add((m - l) as nat, (15 - m) as nat);
            let q = pow2((m - l) as nat);
            assert((rest + q) * p == rest * p + q * p) by (nonlinear_arith);
        }
    } else {
        assert(0 * p == 0) by (nonlinear_arith);
    }
}

/// The greatest of the lengths.
pub open spec fn deepest(lens: Seq<u8>) -> u8
    decreases lens.len(),
{
    if lens.len() == 0 {
        0
    } else if lens.last() >= deepest(lens.drop_last()) {
        lens.last()
    } else {
        deepest(lens.drop_last())
    }
}

proof fn lemma_deepest(lens: Seq<u8>)
    requires
        lens.len() > 0,
    ensures
        forall|i: int| 0 <= i < lens.len() ==> #[trigger] lens[i] <= deepest(lens),
        exists|i: int| 0 <= i < lens.len() && #[trigger] lens[i] == deepest(lens),
    decreases lens.len(),
{
    let first = lens.drop_last();
    if first.len() > 0 {
        lemma_deepest(first);
        assert forall|i: int| 0 <= i < lens.len() implies #[trigger] lens[i] <= deepest(lens) by {
            if i < lens.len() - 1 {
                assert(lens[i] == first[i]);
            }
        }
        if lens.last() >= deepest(first) {
            assert(lens[lens.len() - 1] == deepest(lens));
        } else {
            let i = choose|i: int| 0 <= i < first.len() && #[trigger] first[i] == deepest(first);
            assert(lens[i] == deepest(lens));
        }
    } else {
        assert(deepest(first) == 0);
        assert(lens.last() == lens[0]);
        assert(lens[0] == deepest(lens));
    }
}

/// While the Kraft sum of two code words or more is below one, there is
/// room to shorten a code word: a longest one will do.
proof fn lemma_room_to_shorten(lens: Seq<u8>)
    requires
        lens.len() >= 2,
        forall|i: int| 0 <= i < lens.len() ==> 1 <= #[trigger] lens[i] <= 15,
        kraft_sum(lens, 15) < 32768,
    ensures
        exists|i: int|
            0 <= i < lens.len() && (#[trigger] lens[i]) > 1 && kraft_sum(lens, 15) + unit(lens[i])
                <= 32768,
{
    lemma_deepest(lens);
    lemma_pow2_values();
    let m = deepest(lens);
    let i = choose|i: int| 0 <= i < lens.len() && #[trigger] lens[i] == m;
    if m == 1 {
        assert forall|k: int| 0 <= k < lens.len() implies #[trigger] lens[k] == 1 by {}
        lemma_all_shallowest(lens);
    } else {
        lemma_kraft_sum_rescale(lens, m as nat);
        lemma_pow2_add(m as nat, (15 - m) as nat);
        let p = pow2((15 - m) as nat);
        let k = kraft_sum(lens, m as nat);
        crate::bits::lemma_pow2_positive((15 - m) as nat);
        assert((k + 1) * p <= pow2(m as nat) * p) by (nonlinear_arith)
            requires
                k * p < pow2(m as nat) * p,
                p > 0,
        ;
        assert((k + 1) * p == k * p + p) by (nonlinear_arith);
    }
}

/// Takes the lighter of the next leaf and the next inner node of a Huffman
/// tree under construction, the leaf if they weigh the same, and steps past
/// it. The leaves stand in `weight[..leaves]` and the inner nodes made so
/// far in `weight[leaves..made]`.
fn take_lightest(
    weight: &Vec<u64>,
    leaves: usize,
    made: usize,
    leaf: &mut usize,
    node: &mut usize,
) -> (taken: usize)
    requires
        leaves <= made <= weight@.len(),
        *old(leaf) <= leaves,
        leaves <= *old(node) <= made,
        *old(leaf) < leaves || *old(node) < made,
    ensures
        taken < made,
        if *old(leaf) < leaves && (*old(node) >= made || weight@[*old(leaf) as int]
            <= weight@[*old(node) as int]) {
            taken == *old(leaf) && *final(leaf) == taken + 1 && *final(node) == *old(node)
        } else {
            taken == *old(node) && *final(node) == taken + 1 && *final(leaf) == *old(leaf)
        },
{
    if *leaf < leaves && (*node >= made || weight[*leaf] <= weight[*node]) {
        let taken = *leaf;
        *leaf = taken + 1;
        taken
    } else {
        let taken = *node;
        *node = taken + 1;
        taken
    }
}

/// Makes the Kraft sum of the depths one: lengthens code words, the rarest
/// that are not yet of 15 bits first, while the sum is above one, and then
/// shortens the most frequent ones that the sum has room for. The depths
/// stand by rarity, and stay in descending order.
fn fill_kraft_sum(depths: &mut Vec<u8>)
    requires
        2 <= old(depths)@.len() <= MAX_SYMBOLS,
        forall|i: int| 0 <= i < old(depths)@.len() ==> 1 <= #[trigger] old(depths)@[i] <= 15,
        descending(old(depths)@),
    ensures
        final(depths)@.len() == old(depths)@.len(),
        forall|i: int| 0 <= i < final(depths)@.len() ==> 1 <= #[trigger] final(depths)@[i] <= 15,
        full_code(final(depths)@),
        descending(final(depths)@),
{
    let n = depths.len();
    let mut sum: u64 = 0;
    let mut i: usize = 0;
    assert(depths@.take(0) =~= Seq::<u8>::empty());
    while i < n
        invariant
            i <= n == depths@.len() <= 32768,
            sum == kraft_sum(depths@.take(i as int), 15),
            sum <= i * 16384,
            forall|i: int| 0 <= i < depths@.len() ==> 1 <= #[trigger] depths@[i] <= 15,
            descending(depths@),
        decreases n - i,
    {
        proof {
            lemma_kraft_sum_take(depths@, i as int);
        }
        sum = sum + kraft_unit(depths[i]) as u64;
        i = i + 1;
    }
    assert(depths@.take(n as int) =~= depths@);
    while sum > 32768
        invariant
            2 <= n == depths@.len() <= 32768,
            sum == kraft_sum(depths@, 15),
            forall|i: int| 0 <= i < depths@.len() ==> 1 <= #[trigger] depths@[i] <= 15,
            descending(depths@),
        decreases sum,
    {
        let mut i: usize = 0;
        while i < n && depths[i] >= MAX_CODE_LENGTH
            invariant
                i <= n == depths@.len(),
                forall|k: int| 0 <= k < i ==> #[trigger] depths@[k] >= 15,
            decreases n - i,
        {
            i = i + 1;
        }
        proof {
            if i == n {
                assert forall|k: int| 0 <= k < n implies #[trigger] depths@[k] == 15 by {}
                lemma_all_deepest(depths@);
            }
        }
        let deeper: u8 = depths[i] + 1;
        let ghost before = depths@;
        proof {
            lemma_kraft_sum_update(depths@, i as int, deeper);
            assert(pow2((15 - depths@[i as int]) as nat) == 2 * pow2((15 - deeper) as nat));
        }
        depths[i] = deeper;
        sum = sum - kraft_unit(deeper) as u64;
        proof {
            assert forall|a: int, b: int| 0 <= a < b < n implies #[trigger] depths@[a]
                >= #[trigger] depths@[b] by {
                assert(before[a] >= before[b]);
                if a < i {
                    assert(before[a] >= 15);
                }
            }
        }
    }
    while sum < 32768
        invariant
            2 <= n == depths@.len() <= 32768,
            sum == kraft_sum(depths@, 15),
            sum <= 32768,
            forall|i: int| 0 <= i < depths@.len() ==> 1 <= #[trigger] depths@[i] <= 15,
            descending(depths@),
        decreases 32768 - sum,
    {
        let mut i: usize = n;
        while i > 0 && (depths[i - 1] <= 1 || sum + kraft_unit(depths[i - 1]) as u64 > 32768)
            invariant
                i <= n == depths@.len(),
                sum < 32768,
                forall|i: int| 0 <= i < depths@.len() ==> 1 <= #[trigger] depths@[i] <= 15,
                forall|k: int|
                    i <= k < n ==> (#[trigger] depths@[k]) <= 1 || sum + unit(depths@[k]) > 32768,
            decreases i,
        {
            i = i - 1;
        }
        proof {
            lemma_room_to_shorten(depths@);
        }
        let shorter: u8 = depths[i - 1] - 1;
        let ghost before = depths@;
        proof {
            lemma_kraft_sum_update(depths@, i - 1, shorter);
            assert(pow2((15 - shorter) as nat) == 2 * pow2((15 - depths@[i - 1]) as nat));
        }
        sum = sum + kraft_unit(depths[i - 1]) as u64;
        depths[i - 1] = shorter;
        proof {
            assert forall|a: int, b: int| 0 <= a < b < n implies #[trigger] depths@[a]
                >= #[trigger] depths@[b] by {
                assert(before[a] >= before[b]);
                if a == i - 1 {
                    assert(before[i as int] <= before[i - 1]);
                    assert(before[i as int] >= before[b]);
                }
            }
        }
    }
    proof {
        lemma_pow2_values();
    }
}

/// The depth below `depth`: one more, but never more than 15.
pub open spec fn one_below(depth: u8) -> u8 {
    if depth < 15 {
        (depth + 1) as u8
    } else {
        15
    }
}

/// The depths of the leaves of a Huffman tree over the weights, which are
/// in ascending order; with the depths beyond 15 cut to 15, and the others
/// changed by [`fill_kraft_sum`] to make up for it. A lighter leaf lies no
/// higher than a heavier one.
fn huffman_depths(weights: &Vec<u32>) -> (depths: Vec<u8>)
    requires
        2 <= weights@.len() <= MAX_SYMBOLS,
    ensures
        depths@.len() == weights@.len(),
        forall|i: int| 0 <= i < depths@.len() ==> 1 <= #[trigger] depths@[i] <= 15,
        full_code(depths@),
        descending(depths@),
{
    let leaves = weights.len();
    let total = 2 * leaves - 1;
    let mut weight: Vec<u64> = Vec::new();
    let mut parent: Vec<usize> = Vec::new();
    let mut i: usize = 0;
    while i < total
        invariant
            i <= total,
            total == 2 * leaves - 1,
            leaves == weights@.len(),
            weight@.len() == i,
            parent@.len() == i,
        decreases total - i,
    {
        weight.push(if i < leaves { weights[i] as u64 } else { 0 });
        parent.push(total - 1);
        i = i + 1;
    }
    // Join the two lightest nodes until one is left. The leaves and the
    // inner nodes make two queues, each in ascending order, so that the nodes
    // of each queue are joined in their order: a node gets no earlier parent
    // than the node before it.
    let mut leaf: usize = 0;
    let mut node: usize = leaves;
    let mut made: usize = leaves;
    while made < total
        invariant
            2 <= leaves <= made <= total,
            total == 2 * leaves - 1,
            weight@.len() == total,
            parent@.len() == total,
            leaf <= leaves,
            leaves <= node <= made,
            made > leaves ==> node < made,
            leaf + node == 2 * (made - leaves) + leaves,
            forall|j: int| 0 <= j < leaf ==> leaves <= #[trigger] parent@[j] < made,
            forall|j: int| leaves <= j < node ==> j < #[trigger] parent@[j] < made,
            forall|a: int, b: int|
                0 <= a < b < leaf ==> #[trigger] parent@[a] <= #[trigger] parent@[b],
            forall|a: int, b: int|
                leaves <= a < b < node ==> #[trigger] parent@[a] <= #[trigger] parent@[b],
        decreases total - made,
    {
        let first = take_lightest(&weight, leaves, made, &mut leaf, &mut node);
        let second = take_lightest(&weight, leaves, made, &mut leaf, &mut node);
        let joined = weight[first].saturating_add(weight[second]);
        weight[made] = joined;
        parent[first] = made;
        parent[second] = made;
        made = made + 1;
    }
    // A node lies one below its parent, and parents come after their
    // children. Along each queue the depths do not grow.
    let mut depth: Vec<u8> = vec![0u8; total];
    let mut i: usize = total - 1;
    while i > 0
        invariant
            i < total,
            2 <= leaves,
            total == 2 * leaves - 1,
            depth@.len() == total,
            parent@.len() == total,
            forall|j: int| 0 <= j < leaves ==> leaves <= #[trigger] parent@[j] < total,
            forall|j: int| leaves <= j < total - 1 ==> j < #[trigger] parent@[j] < total,
            forall|a: int, b: int|
                0 <= a < b < leaves ==> #[trigger] parent@[a] <= #[trigger] parent@[b],
            forall|a: int, b: int|
                leaves <= a < b < total - 1 ==> #[trigger] parent@[a] <= #[trigger] parent@[b],
            depth@[total - 1] == 0,
            forall|j: int| 0 <= j < total ==> #[trigger] depth@[j] <= 15,
            forall|j: int|
                i <= j < total - 1 ==> #[trigger] depth@[j] == one_below(depth@[parent@[j] as int]),
            forall|a: int, b: int|
                i <= a < b < total && leaves <= a ==> #[trigger] depth@[a] >= #[trigger] depth@[b],
            forall|a: int, b: int|
                i <= a < b < leaves ==> #[trigger] depth@[a] >= #[trigger] depth@[b],
        decreases i,
    {
        i = i - 1;
        let above = depth[parent[i]];
        let below: u8 = if above < MAX_CODE_LENGTH { above + 1 } else { MAX_CODE_LENGTH };
        assert(below == one_below(above));
        let ghost before = depth@;
        depth[i] = below;
        proof {
            let up = parent@[i as int] as int;
            assert forall|j: int| i <= j < total - 1 implies #[trigger] depth@[j] == one_below(
                depth@[parent@[j] as int],
            ) by {
                assert(parent@[j] != i);
            }
            assert forall|a: int, b: int| i <= a < b < total && leaves <= a implies #[trigger] depth@[a]
                >= #[trigger] depth@[b] by {
                if a == i && b < total - 1 {
                    assert(parent@[a] <= parent@[b]);
                    let other = parent@[b] as int;
                    if up < other {
                        assert(before[up] >= before[other]);
                    }
                } else if a > i {
                    assert(before[a] >= before[b]);
                }
            }
            assert forall|a: int, b: int| i <= a < b < leaves implies #[trigger] depth@[a]
                >= #[trigger] depth@[b] by {
                if a == i {
                    assert(parent@[a] <= parent@[b]);
                    let other = parent@[b] as int;
                    if up < other {
                        assert(before[up] >= before[other]);
                    }
                } else {
                    assert(before[a] >= before[b]);
                }
            }
        }
    }
    depth.truncate(leaves);
    proof {
        assert forall|j: int| 0 <= j < leaves implies 1 <= #[trigger] depth@[j] <= 15 by {}
    }
    fill_kraft_sum(&mut depth);
    depth
}

/// Builds the code lengths for a histogram: those of a Huffman code, with
/// no code word longer than 15 bits.
///
/// Fails exactly when more symbols occur than a code of 15 bits can hold.
pub fn build_code_lengths(freq: &[u32]) -> (res: Result<Vec<u8>, DeflateError>)
    ensures
        match res {
            Ok(lens) => {
                &&& used_count(freq@) <= MAX_SYMBOLS
                &&& fits_histogram(freq@, lens@)
                &&& rarer_is_longer(freq@, lens@)
            },
            Err(e) => used_count(freq@) > MAX_SYMBOLS && e == DeflateError::InvalidCodeLengths,
        },
{
    let order = symbols_by_frequency(freq);
    let used = order.len();
    if used > MAX_SYMBOLS {
        return Err(DeflateError::InvalidCodeLengths);
    }
    let mut lens: Vec<u8> = vec![0u8; freq.len()];
    proof {
        lemma_no_code_words(lens@);
        lemma_pow2_values();
        if used == 0 {
            lemma_none_used(freq@);
        }
    }
    if used == 1 {
        proof {
            lemma_kraft_sum_update(lens@, order@[0] as int, 1);
            assert forall|s: int| 0 <= s < freq@.len() && freq@[s] > 0 implies s == order@[0] by {
                assert(order@.contains(s as usize));
            }
        }
        lens[order[0]] = 1;
    } else if used >= 2 {
        let mut weights: Vec<u32> = Vec::new();
        let mut i: usize = 0;
        while i < used
            invariant
                i <= used == order@.len(),
                weights@.len() == i,
                forall|i: int| 0 <= i < order@.len() ==> #[trigger] order@[i] < freq@.len(),
            decreases used - i,
        {
            weights.push(freq[order[i]]);
            i = i + 1;
        }
        let depths = huffman_depths(&weights);
        let mut i: usize = 0;
        assert(depths@.take(0) =~= Seq::<u8>::empty());
        while i < used
            invariant
                i <= used == order@.len() == depths@.len(),
                lens@.len() == freq@.len(),
                by_rarity(freq@, order@),
                forall|k: int| 0 <= k < depths@.len() ==> 1 <= #[trigger] depths@[k] <= 15,
                forall|s: int|
                    0 <= s < lens@.len() ==> ((#[trigger] lens@[s]) > 0 <==> exists|k: int|
                        0 <= k < i && order@[k] == s) && lens@[s] <= 15,
                forall|k: int| 0 <= k < i ==> lens@[#[trigger] order@[k] as int] == depths@[k],
                kraft_sum(lens@, 15) == kraft_sum(depths@.take(i as int), 15),
                descending(depths@),
            decreases used - i,
        {
            let symbol = order[i];
            proof {
                if lens@[symbol as int] > 0 {
                    let k = choose|k: int| 0 <= k < i && order@[k] == symbol;
                    assert(rarer(freq@, order@[k] as int, order@[i as int] as int));
                }
                lemma_kraft_sum_update(lens@, symbol as int, depths@[i as int]);
                lemma_kraft_sum_take(depths@, i as int);
            }
            let ghost before = lens@;
            lens[symbol] = depths[i];
            proof {
                assert forall|s: int| 0 <= s < lens@.len() implies ((#[trigger] lens@[s]) > 0
                    <==> exists|k: int| 0 <= k < i + 1 && order@[k] == s) && lens@[s] <= 15 by {
                    if s == symbol {
                        assert(order@[i as int] == s);
                    } else {
                        assert(lens@[s] == before[s]);
                        if before[s] > 0 {
                            let k = choose|k: int| 0 <= k < i && order@[k] == s;
                            assert(0 <= k < i + 1 && order@[k] == s);
                        }
                    }
                }
                assert forall|k: int| 0 <= k < i + 1 implies lens@[#[trigger] order@[k] as int]
                    == depths@[k] by {
                    if k < i {
                        assert(rarer(freq@, order@[k] as int, order@[i as int] as int));
                        assert(before[order@[k] as int] == depths@[k]);
                    }
                }
            }
            i = i + 1;
        }
        proof {
            lemma_pow2_values();
            assert(depths@.take(used as int) =~= depths@);
            assert forall|s: int| 0 <= s < lens@.len() implies ((#[trigger] lens@[s]) > 0
                <==> freq@[s] > 0) by {
                if freq@[s] > 0 {
                    assert(order@.contains(s as usize));
                }
                if lens@[s] > 0 {
                    let k = choose|k: int| 0 <= k < used && order@[k] == s;
                    assert(freq@[order@[k] as int] > 0);
                }
            }
            assert forall|s: int, t: int|
                0 <= s < lens@.len() && 0 <= t < lens@.len() && freq@[s] > 0 && freq@[t] > 0
                    && rarer(freq@, s, t) implies #[trigger] lens@[s] >= #[trigger] lens@[t] by {
                assert(order@.contains(s as usize));
                assert(order@.contains(t as usize));
                let a = choose|a: int| 0 <= a < order@.len() && order@[a] == s as usize;
                let b = choose|b: int| 0 <= b < order@.len() && order@[b] == t as usize;
                if b < a {
                    assert(rarer(freq@, order@[b] as int, order@[a] as int));
                }
                assert(lens@[order@[a] as int] == depths@[a]);
                assert(lens@[order@[b] as int] == depths@[b]);
                if a < b {
                    assert(depths@[a] >= depths@[b]);
                }
            }
        }
    }
    Ok(lens)
}

} // verus!
