//! Shifts, leading zeros and powers of two.
use vstd::arithmetic::div_mod::*;
use vstd::arithmetic::mul::*;
use vstd::arithmetic::power2::*;
use vstd::bits::*;
use vstd::prelude::*;
use vstd::std_specs::bits::*;

verus! {

/// `x << n` multiplies by `2^n` when nothing is shifted out.
pub proof fn lemma_shl128(x: u128, n: u32)
    requires
        n < 128,
        x * pow2(n as nat) <= u128::MAX,
    ensures
        x << n == x * pow2(n as nat),
    decreases n,
{
    if n == 0 {
        assert(x << 0u32 == x) by (bit_vector);
        lemma2_to64();
    } else {
        let p: u32 = (n - 1) as u32;
        lemma_pow2_unfold(n as nat);
        assert(x * pow2(n as nat) == 2 * (x * pow2(p as nat))) by (nonlinear_arith)
            requires
                pow2(n as nat) == 2 * pow2(p as nat),
        ;
        lemma_shl128(x, p);
        let y = x << p;
        assert(x << n == (x << p) << 1u32) by (bit_vector)
            requires
                n == p + 1,
                n < 128,
        ;
        assert(y << 1u32 == y + y) by (bit_vector)
            requires
                y <= 0x7fff_ffff_ffff_ffff_ffff_ffff_ffff_ffffu128,
        ;
    }
}

/// `x >> n` is the quotient by `2^n`.
pub proof fn lemma_shr128(x: u128, n: u32)
    requires
        n < 128,
    ensures
        x >> n == x as int / pow2(n as nat) as int,
{
    lemma_u128_shr_is_div(x, n as u128);
}

/// The position of the highest set bit.
pub proof fn lemma_top_bit64(x: u64)
    requires
        x > 0,
    ensures
        0 <= u64_leading_zeros(x) < 64,
        pow2((63 - u64_leading_zeros(x)) as nat) <= x < pow2((64 - u64_leading_zeros(x)) as nat),
    decreases x,
{
    reveal(u64_leading_zeros);
    axiom_u64_leading_zeros(x);
    lemma2_to64();
    if x > 1 {
        lemma_top_bit64(x / 2);
        let l = u64_leading_zeros(x);
        assert(u64_leading_zeros(x / 2) == l + 1);
        lemma_pow2_unfold((63 - l) as nat);
        lemma_pow2_unfold((64 - l) as nat);
    } else {
        assert(x / 2 == 0);
        assert(u64_leading_zeros(0) == 64);
    }
}

/// Powers of two that the field layouts and the staging use.
pub proof fn lemma_pow2_values()
    ensures
        pow2(0) == 1,
        pow2(1) == 2,
        pow2(11) == 0x800,
        pow2(12) == 0x1000,
        pow2(23) == 0x80_0000,
        pow2(24) == 0x100_0000,
        pow2(29) == 0x2000_0000,
        pow2(32) == 0x1_0000_0000,
        pow2(52) == 0x10_0000_0000_0000,
        pow2(53) == 0x20_0000_0000_0000,
        pow2(61) == 0x2000_0000_0000_0000,
        pow2(62) == 0x4000_0000_0000_0000,
        pow2(63) == 0x8000_0000_0000_0000,
        pow2(64) == 0x1_0000_0000_0000_0000,
        pow2(116) == 0x10_0000_0000_0000_0000_0000_0000_0000,
        pow2(117) == 0x20_0000_0000_0000_0000_0000_0000_0000,
        pow2(128) == 0x1_0000_0000_0000_0000_0000_0000_0000_0000,
{
    lemma2_to64();
    lemma2_to64_rest();
    lemma_pow2_adds(64, 52);
    lemma_pow2_adds(64, 53);
    lemma_pow2_adds(64, 64);
}

/// `x / 2^n` with the lost bits folded into the lowest one: the quotient if it
/// is exact, else the odd one of the two integers around it.
pub open spec fn jam(x: int, n: nat) -> int {
    let q = x / pow2(n) as int;
    if x % pow2(n) as int == 0 || q % 2 == 1 {
        q
    } else {
        q + 1
    }
}

/// Folding keeps the order against every even number.
pub proof fn lemma_jam(x: int, n: nat, y: int)
    requires
        x >= 0,
        y % 2 == 0,
    ensures
        jam(x, n) >= 0,
        (x < y * pow2(n)) == (jam(x, n) < y),
        (x > y * pow2(n)) == (jam(x, n) > y),
{
    let d = pow2(n) as int;
    let q = x / d;
    lemma_pow2_pos(n);
    lemma_fundamental_div_mod(x, d);
    lemma_div_pos_is_pos(x, d);
    assert(y <= q ==> y * d <= d * q) by (nonlinear_arith)
        requires
            d > 0,
    ;
    assert(y >= q + 1 ==> y * d >= d * q + d) by (nonlinear_arith)
        requires
            d > 0,
    ;
    assert(y < q ==> y * d < d * q) by (nonlinear_arith)
        requires
            d > 0,
    ;
    assert(y == q ==> y * d == d * q) by (nonlinear_arith);
}

/// Without a shift nothing is folded.
pub proof fn lemma_jam_none(x: int)
    ensures
        jam(x, 0) == x,
{
    lemma2_to64();
    assert(x / 1 == x && x % 1 == 0);
    assert(pow2(0) as int == 1);
}

/// Shifts right by `n` and folds the bits that fall off into the lowest bit.
pub fn shift_right_jam(x: u128, n: u32) -> (r: u128)
    ensures
        r == jam(x as int, n as nat),
{
    proof {
        lemma_pow2_pos(n as nat);
        lemma_pow2_values();
    }
    if n >= 128 {
        proof {
            if n > 128 {
                lemma_pow2_strictly_increases(128, n as nat);
            }
            lemma_basic_div(x as int, pow2(n as nat) as int);
            lemma_small_mod(x as nat, pow2(n as nat));
        }
        if x != 0 {
            1
        } else {
            0
        }
    } else {
        let shifted: u128 = x >> n;
        proof {
            lemma_shr128(x, n);
            lemma_fundamental_div_mod(x as int, pow2(n as nat) as int);
            lemma_mul_is_commutative(shifted as int, pow2(n as nat) as int);
            lemma_shl128(shifted, n);
        }
        let kept: u128 = shifted << n;
        if kept != x {
            assert((shifted | 1) == if shifted % 2 == 0 {
                (shifted + 1) as u128
            } else {
                shifted
            }) by (bit_vector);
            shifted | 1
        } else {
            shifted
        }
    }
}

/// The position of the highest set bit.
pub fn top_bit(x: u128) -> (p: u32)
    requires
        x > 0,
    ensures
        p < 128,
        pow2(p as nat) <= x < pow2((p + 1) as nat),
{
    let hi: u64 = (x >> 64u32) as u64;
    proof {
        lemma_shr128(x, 64);
        lemma_pow2_values();
        assert(x / 0x1_0000_0000_0000_0000 < 0x1_0000_0000_0000_0000);
    }
    if hi != 0 {
        proof {
            lemma_top_bit64(hi);
            let l = u64_leading_zeros(hi);
            lemma_pow2_adds((63 - l) as nat, 64);
            lemma_pow2_adds((64 - l) as nat, 64);
            assert(hi == x as int / 0x1_0000_0000_0000_0000);
        }
        127 - hi.leading_zeros()
    } else {
        let lo: u64 = x as u64;
        proof {
            lemma_top_bit64(lo);
        }
        63 - lo.leading_zeros()
    }
}

} // verus!
