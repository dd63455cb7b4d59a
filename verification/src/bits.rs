//! Bit sequences: how numbers and bytes are laid out in a DEFLATE stream.
//!
//! A stream is modelled as a `Seq<bool>` in the order in which a decoder
//! consumes it. Bytes contribute their bits starting from the least
//! significant one. Plain numbers (header fields, extra bits) are stored
//! least significant bit first; Huffman codes are stored most significant
//! bit first.

use vstd::prelude::*;

verus! {

/// Two to the power `n`.
pub open spec fn pow2(n: nat) -> nat
    decreases n,
{
    if n == 0 {
        1
    } else {
        2 * pow2((n - 1) as nat)
    }
}

/// `v` with its `k` lowest bits dropped.
pub open spec fn shr(v: nat, k: nat) -> nat
    decreases k,
{
    if k == 0 {
        v
    } else {
        shr(v / 2, (k - 1) as nat)
    }
}

/// The low `n` bits of `v`, least significant bit first.
pub open spec fn lsb_bits(v: nat, n: nat) -> Seq<bool>
    decreases n,
{
    if n == 0 {
        Seq::empty()
    } else {
        seq![v % 2 == 1] + lsb_bits(v / 2, (n - 1) as nat)
    }
}

/// The low `n` bits of `v`, most significant bit first.
pub open spec fn msb_bits(v: nat, n: nat) -> Seq<bool>
    decreases n,
{
    if n == 0 {
        Seq::empty()
    } else {
        msb_bits(v / 2, (n - 1) as nat).push(v % 2 == 1)
    }
}

/// The number whose bits, least significant first, are `bits`.
pub open spec fn lsb_value(bits: Seq<bool>) -> nat
    decreases bits.len(),
{
    if bits.len() == 0 {
        0
    } else {
        (if bits[0] { 1nat } else { 0nat }) + 2 * lsb_value(bits.skip(1))
    }
}

/// `n` zero bits.
pub open spec fn zero_bits(n: nat) -> Seq<bool> {
    Seq::new(n, |i: int| false)
}

/// The bits of a byte string in stream order.
pub open spec fn byte_bits(bytes: Seq<u8>) -> Seq<bool>
    decreases bytes.len(),
{
    if bytes.len() == 0 {
        Seq::empty()
    } else {
        byte_bits(bytes.drop_last()) + lsb_bits(bytes.last() as nat, 8)
    }
}

/// A power of two is positive.
pub proof fn lemma_pow2_positive(n: nat)
    ensures
        pow2(n) > 0,
    decreases n,
{
    if n > 0 {
        lemma_pow2_positive((n - 1) as nat);
    }
}

/// A greater exponent gives no smaller power.
pub proof fn lemma_pow2_monotonic(a: nat, b: nat)
    requires
        a <= b,
    ensures
        pow2(a) <= pow2(b),
    decreases b,
{
    if a < b {
        lemma_pow2_monotonic(a, (b - 1) as nat);
    }
}

/// The power of a sum is the product of the powers.
pub proof fn lemma_pow2_add(a: nat, b: nat)
    ensures
        pow2(a + b) == pow2(a) * pow2(b),
    decreases a,
{
    if a > 0 {
        let a1 = (a - 1) as nat;
        lemma_pow2_add(a1, b);
        assert(pow2(a + b) == 2 * pow2(a1 + b));
        assert(pow2(a) == 2 * pow2(a1));
        assert(2 * (pow2(a1) * pow2(b)) == (2 * pow2(a1)) * pow2(b)) by (nonlinear_arith);
    } else {
        assert(pow2(a) == 1);
        assert(a + b == b);
    }
}

/// The powers of two that the format's field widths and code lengths need.
pub proof fn lemma_pow2_values()
    ensures
        pow2(0) == 1,
        pow2(1) == 2,
        pow2(2) == 4,
        pow2(3) == 8,
        pow2(4) == 16,
        pow2(5) == 32,
        pow2(6) == 64,
        pow2(7) == 128,
        pow2(8) == 256,
        pow2(9) == 512,
        pow2(10) == 1024,
        pow2(11) == 2048,
        pow2(12) == 4096,
        pow2(13) == 8192,
        pow2(14) == 16384,
        pow2(15) == 32768,
        pow2(16) == 65536,
{
    reveal_with_fuel(pow2, 17);
}

/// A number of `n` bits without its `k` lowest has `n - k` bits.
pub proof fn lemma_shr_bound(v: nat, n: nat, k: nat)
    requires
        k <= n,
        v < pow2(n),
    ensures
        shr(v, k) < pow2((n - k) as nat),
    decreases k,
{
    if k > 0 {
        lemma_shr_bound(v / 2, (n - 1) as nat, (k - 1) as nat);
    }
}

/// Dropping `k` bits of a number that is at least `c * 2^k` leaves at least `c`.
pub proof fn lemma_shr_lower(v: nat, c: nat, k: nat)
    requires
        v >= c * pow2(k),
    ensures
        shr(v, k) >= c,
    decreases k,
{
    if k > 0 {
        assert(c * pow2(k) == 2 * (c * pow2((k - 1) as nat))) by (nonlinear_arith)
            requires
                pow2(k) == 2 * pow2((k - 1) as nat),
        ;
        lemma_shr_lower(v / 2, c, (k - 1) as nat);
        assert(shr(v, k) == shr(v / 2, (k - 1) as nat));
    } else {
        assert(pow2(0) == 1);
        assert(c * 1 == c);
    }
}

/// Dropping one bit more halves the number.
pub proof fn lemma_shr_step(v: nat, k: nat)
    ensures
        shr(v, k + 1) == shr(v, k) / 2,
    decreases k,
{
    if k > 0 {
        lemma_shr_step(v / 2, (k - 1) as nat);
        assert(shr(v, k + 1) == shr(v / 2, k));
        assert(shr(v, k) == shr(v / 2, (k - 1) as nat));
    } else {
        assert(shr(v, 1) == shr(v / 2, 0));
    }
}

/// `n` bits are `n` bits.
pub proof fn lemma_lsb_bits_len(v: nat, n: nat)
    ensures
        lsb_bits(v, n).len() == n,
    decreases n,
{
    if n > 0 {
        lemma_lsb_bits_len(v / 2, (n - 1) as nat);
    }
}

/// `n` bits are `n` bits, in this order too.
pub proof fn lemma_msb_bits_len(v: nat, n: nat)
    ensures
        msb_bits(v, n).len() == n,
    decreases n,
{
    if n > 0 {
        lemma_msb_bits_len(v / 2, (n - 1) as nat);
    }
}

/// Writing `a` in `k` bits and then `b` in `n` bits is writing `a + 2^k * b`
/// in `k + n` bits.
pub proof fn lemma_lsb_bits_concat(a: nat, k: nat, b: nat, n: nat)
    requires
        a < pow2(k),
    ensures
        lsb_bits(a + pow2(k) * b, k + n) == lsb_bits(a, k) + lsb_bits(b, n),
    decreases k,
{
    if k == 0 {
        assert(pow2(0) * b == b);
        assert(lsb_bits(a, 0) + lsb_bits(b, n) =~= lsb_bits(b, n));
    } else {
        let k1 = (k - 1) as nat;
        let sum = a + pow2(k) * b;
        assert(pow2(k) * b == 2 * (pow2(k1) * b)) by (nonlinear_arith)
            requires
                pow2(k) == 2 * pow2(k1),
        ;
        assert(sum % 2 == a % 2);
        assert(sum / 2 == a / 2 + pow2(k1) * b);
        lemma_lsb_bits_concat(a / 2, k1, b, n);
        assert(lsb_bits(sum, k + n) == seq![sum % 2 == 1] + lsb_bits(sum / 2, k1 + n));
        assert(lsb_bits(sum, k + n) =~= lsb_bits(a, k) + lsb_bits(b, n));
    }
}

/// The bits of zero are zero.
pub proof fn lemma_lsb_bits_zero(n: nat)
    ensures
        lsb_bits(0, n) == zero_bits(n),
    decreases n,
{
    if n > 0 {
        lemma_lsb_bits_zero((n - 1) as nat);
    }
    assert(lsb_bits(0, n) =~= zero_bits(n));
}

/// A number below `2^n` written in more than `n` bits ends in zeros.
pub proof fn lemma_lsb_bits_pad(v: nat, n: nat, m: nat)
    requires
        v < pow2(n),
    ensures
        lsb_bits(v, n + m) == lsb_bits(v, n) + zero_bits(m),
{
    lemma_lsb_bits_concat(v, n, 0, m);
    lemma_lsb_bits_zero(m);
    assert(pow2(n) * 0 == 0);
}

/// The value of `n` bits is below `2^n`.
pub proof fn lemma_lsb_value_bound(bits: Seq<bool>)
    ensures
        lsb_value(bits) < pow2(bits.len()),
    decreases bits.len(),
{
    if bits.len() > 0 {
        lemma_lsb_value_bound(bits.skip(1));
    }
}

/// Reading back the bits of a number that fits gives the number.
pub proof fn lemma_lsb_value_of_bits(v: nat, n: nat)
    requires
        v < pow2(n),
    ensures
        lsb_value(lsb_bits(v, n)) == v,
    decreases n,
{
    if n > 0 {
        let s = lsb_bits(v, n);
        lemma_lsb_bits_len(v, n);
        assert(s.skip(1) =~= lsb_bits(v / 2, (n - 1) as nat));
        lemma_lsb_value_of_bits(v / 2, (n - 1) as nat);
    }
}

/// Writing the value of a bit string in as many bits gives the string.
pub proof fn lemma_lsb_bits_of_value(bits: Seq<bool>)
    ensures
        lsb_bits(lsb_value(bits), bits.len()) == bits,
    decreases bits.len(),
{
    if bits.len() > 0 {
        lemma_lsb_bits_of_value(bits.skip(1));
        assert(lsb_bits(lsb_value(bits), bits.len()) =~= bits);
    } else {
        assert(lsb_bits(lsb_value(bits), bits.len()) =~= bits);
    }
}

/// The first `k` of the `n` low bits of `v`, most significant first, are the
/// `k` low bits of `v` without its `n - k` lowest.
pub proof fn lemma_msb_bits_take(v: nat, n: nat, k: nat)
    requires
        k <= n,
    ensures
        msb_bits(v, n).take(k as int) == msb_bits(shr(v, (n - k) as nat), k),
    decreases n,
{
    lemma_msb_bits_len(v, n);
    if k == n {
        assert(msb_bits(v, n).take(k as int) =~= msb_bits(v, n));
    } else {
        let n1 = (n - 1) as nat;
        lemma_msb_bits_len(v / 2, n1);
        lemma_msb_bits_take(v / 2, n1, k);
        assert(msb_bits(v, n).take(k as int) =~= msb_bits(v / 2, n1).take(k as int));
    }
}

/// Two numbers that fit in `n` bits and have the same bits are equal.
pub proof fn lemma_msb_bits_injective(a: nat, b: nat, n: nat)
    requires
        a < pow2(n),
        b < pow2(n),
        msb_bits(a, n) == msb_bits(b, n),
    ensures
        a == b,
    decreases n,
{
    if n > 0 {
        let n1 = (n - 1) as nat;
        let sa = msb_bits(a, n);
        let sb = msb_bits(b, n);
        lemma_msb_bits_len(a / 2, n1);
        lemma_msb_bits_len(b / 2, n1);
        assert(sa.last() == (a % 2 == 1));
        assert(sb.last() == (b % 2 == 1));
        assert(sa.drop_last() =~= msb_bits(a / 2, n1));
        assert(sb.drop_last() =~= msb_bits(b / 2, n1));
        lemma_msb_bits_injective(a / 2, b / 2, n1);
    }
}

/// Adding bit `n` in front of the `n` low bits, most significant first.
pub proof fn lemma_msb_bits_grow(v: nat, n: nat)
    ensures
        msb_bits(v, n + 1) == seq![shr(v, n) % 2 == 1] + msb_bits(v, n),
    decreases n,
{
    if n == 0 {
        assert(msb_bits(v, 1) == msb_bits(v / 2, 0).push(v % 2 == 1));
        assert(msb_bits(v, 1) =~= seq![v % 2 == 1] + msb_bits(v, 0));
    } else {
        lemma_msb_bits_grow(v / 2, (n - 1) as nat);
        assert(msb_bits(v, n + 1) =~= seq![shr(v, n) % 2 == 1] + msb_bits(v, n));
    }
}

/// Only the `n` low bits of a number show in its `n` low bits.
pub proof fn lemma_lsb_bits_mod(v: nat, n: nat)
    ensures
        lsb_bits(v % pow2(n), n) == lsb_bits(v, n),
{
    lemma_pow2_positive(n);
    let low = v % pow2(n);
    let high = v / pow2(n);
    vstd::arithmetic::div_mod::lemma_fundamental_div_mod(v as int, pow2(n) as int);
    lemma_lsb_bits_concat(low, n, high, 0);
    assert(lsb_bits(low, n) + lsb_bits(high, 0) =~= lsb_bits(low, n));
}

/// The `n >= 8` low bits of a number are its low byte followed by the rest.
pub proof fn lemma_lsb_bits_split_byte(v: nat, n: nat)
    requires
        n >= 8,
    ensures
        lsb_bits(v, n) == lsb_bits(v % 256, 8) + lsb_bits(v / 256, (n - 8) as nat),
{
    lemma_pow2_values();
    lemma_lsb_bits_concat(v % 256, 8, v / 256, (n - 8) as nat);
}

/// `pow2` is the power of two of the standard library.
pub proof fn lemma_pow2_std(n: nat)
    ensures
        pow2(n) == vstd::arithmetic::power2::pow2(n),
    decreases n,
{
    if n == 0 {
        vstd::arithmetic::power2::lemma2_to64();
    } else {
        lemma_pow2_std((n - 1) as nat);
        vstd::arithmetic::power2::lemma_pow2_unfold(n);
    }
}

/// A byte has eight bits.
pub proof fn lemma_byte_bits_len(bytes: Seq<u8>)
    ensures
        byte_bits(bytes).len() == 8 * bytes.len(),
    decreases bytes.len(),
{
    if bytes.len() > 0 {
        lemma_byte_bits_len(bytes.drop_last());
        lemma_lsb_bits_len(bytes.last() as nat, 8);
    }
}

/// A byte more is its eight bits more, the lowest first.
pub proof fn lemma_byte_bits_push(bytes: Seq<u8>, b: u8)
    ensures
        byte_bits(bytes.push(b)) == byte_bits(bytes) + lsb_bits(b as nat, 8),
{
    assert(bytes.push(b).drop_last() =~= bytes);
}

} // verus!
