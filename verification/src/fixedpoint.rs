//! Fixed-point integer arithmetic: floor square root and a natural
//! logarithm in millionths, computed by binary digit recurrences.

use vstd::arithmetic::div_mod::{
    lemma_div_is_ordered, lemma_div_multiples_vanish, lemma_multiply_divide_lt,
};
use vstd::arithmetic::power2::{
    lemma2_to64, lemma2_to64_rest, lemma_pow2_pos, lemma_pow2_strictly_increases,
    lemma_pow2_unfold, pow2,
};
use vstd::prelude::*;

verus! {

/// The floor of the square root of `x`.
pub open spec fn sqrt_floor(x: nat) -> nat
    decreases x,
{
    if x == 0 {
        0
    } else {
        let s = sqrt_floor((x - 1) as nat);
        if (s + 1) * (s + 1) <= x {
            s + 1
        } else {
            s
        }
    }
}

/// `sqrt_floor(x)` squared is at most `x`, and the next square is above it.
pub proof fn lemma_sqrt_floor_bounds(x: nat)
    ensures
        sqrt_floor(x) * sqrt_floor(x) <= x,
        (sqrt_floor(x) + 1) * (sqrt_floor(x) + 1) > x,
    decreases x,
{
    if x == 0 {
        assert(sqrt_floor(0) == 0);
        assert((0 + 1) * (0 + 1) == 1) by (nonlinear_arith);
    } else {
        lemma_sqrt_floor_bounds((x - 1) as nat);
        let s = sqrt_floor((x - 1) as nat);
        if (s + 1) * (s + 1) <= x {
            assert(sqrt_floor(x) == s + 1);
            assert((s + 1) * (s + 1) == x);
            assert((s + 2) * (s + 2) > (s + 1) * (s + 1)) by (nonlinear_arith);
            assert((sqrt_floor(x) + 1) * (sqrt_floor(x) + 1) == (s + 2) * (s + 2));
        } else {
            assert(sqrt_floor(x) == s);
            assert(s * s <= x - 1 <= x);
        }
    }
}

/// The two bounds of `lemma_sqrt_floor_bounds` determine the root.
pub proof fn lemma_sqrt_floor_unique(x: nat, r: nat)
    requires
        r * r <= x,
        (r + 1) * (r + 1) > x,
    ensures
        r == sqrt_floor(x),
{
    lemma_sqrt_floor_bounds(x);
    let s = sqrt_floor(x);
    if r < s {
        assert((r + 1) * (r + 1) <= s * s) by (nonlinear_arith)
            requires
                r + 1 <= s,
        ;
    }
    if r > s {
        assert((s + 1) * (s + 1) <= r * r) by (nonlinear_arith)
            requires
                s + 1 <= r,
        ;
    }
}

/// Floor square root, one result bit per step from the highest down.
pub fn isqrt(x: u64) -> (r: u64)
    ensures
        r == sqrt_floor(x as nat),
{
    let mut r: u64 = 0;
    let mut bit: u64 = 2147483648;
    let ghost mut e: int = 31;
    proof {
        lemma2_to64();
        assert((0x1_0000_0000 as nat) * (0x1_0000_0000 as nat) > u64::MAX as nat)
            by (nonlinear_arith);
    }
    while bit > 0
        invariant
            (r as nat) * (r as nat) <= x as nat,
            r + 2 * bit <= 0x1_0000_0000u64,
            bit > 0 ==> 0 <= e <= 31 && bit == pow2(e as nat) && ((r + 2 * bit) as nat) * ((r + 2
                * bit) as nat) > x as nat,
            bit == 0 ==> ((r + 1) as nat) * ((r + 1) as nat) > x as nat,
        decreases bit,
    {
        let cand = r + bit;
        proof {
            assert((cand as nat) * (cand as nat) < u128::MAX as nat) by (nonlinear_arith)
                requires
                    cand <= 0x1_0000_0000u64,
            ;
        }
        let ghost r_old = r;
        let ghost bit_old = bit;
        let took = (cand as u128) * (cand as u128) <= x as u128;
        if took {
            r = cand;
        }
        proof {
            lemma2_to64();
            if e >= 1 {
                lemma_pow2_unfold(e as nat);
                lemma_pow2_pos((e - 1) as nat);
                lemma_div_multiples_vanish(pow2((e - 1) as nat) as int, 2);
            }
            e = e - 1;
        }
        bit = bit / 2;
        proof {
            if bit > 0 {
                assert(2 * bit == bit_old);
                if took {
                    assert(r + 2 * bit == r_old + 2 * bit_old);
                } else {
                    assert(((r + 2 * bit) as nat) * ((r + 2 * bit) as nat) == ((r_old
                        + bit_old) as nat) * ((r_old + bit_old) as nat));
                }
            } else {
                assert(bit_old == 1);
                if took {
                    assert(r + 1 == r_old + 2 * bit_old);
                } else {
                    assert(((r + 1) as nat) * ((r + 1) as nat) == ((r_old + bit_old) as nat) * ((
                    r_old + bit_old) as nat));
                }
            }
        }
    }
    proof {
        lemma_sqrt_floor_unique(x as nat, r as nat);
    }
    r
}

/// The floor of the base-two logarithm of `n` (0 for `n == 0`).
pub open spec fn log2_floor(n: nat) -> nat
    decreases n,
{
    if n < 2 {
        0
    } else {
        1 + log2_floor(n / 2)
    }
}

/// `n` lies between the consecutive powers of two around `log2_floor(n)`.
pub proof fn lemma_log2_floor_bounds(n: nat)
    requires
        n >= 1,
    ensures
        pow2(log2_floor(n)) <= n < pow2(log2_floor(n) + 1),
    decreases n,
{
    if n < 2 {
        lemma2_to64();
    } else {
        lemma_log2_floor_bounds(n / 2);
        lemma_pow2_unfold(log2_floor(n) + 1);
        lemma_pow2_unfold(log2_floor(n));
    }
}

/// Base-two logarithms of 64-bit values fit in six bits.
pub proof fn lemma_log2_floor_le_63(n: nat)
    requires
        1 <= n <= u64::MAX,
    ensures
        log2_floor(n) <= 63,
{
    lemma_log2_floor_bounds(n);
    if log2_floor(n) >= 64 {
        lemma2_to64();
        if log2_floor(n) > 64 {
            lemma_pow2_strictly_increases(64, log2_floor(n));
        }
    }
}

/// One squaring step of the binary-logarithm recurrence on a Q32 mantissa.
pub open spec fn mantissa_step(m: nat) -> nat {
    let s = (m * m) / 0x1_0000_0000;
    if s >= 0x2_0000_0000 {
        s / 2
    } else {
        s
    }
}

/// The output bit of one squaring step.
pub open spec fn mantissa_bit(m: nat) -> nat {
    if (m * m) / 0x1_0000_0000 >= 0x2_0000_0000 {
        1
    } else {
        0
    }
}

/// The next `count` fraction bits of the binary logarithm of `m / 2^32`,
/// as an integer of `count` bits.
pub open spec fn log2_fraction(m: nat, count: nat) -> nat
    decreases count,
{
    if count == 0 {
        0
    } else {
        mantissa_bit(m) * pow2((count - 1) as nat) + log2_fraction(
            mantissa_step(m),
            (count - 1) as nat,
        )
    }
}

/// A `count`-bit fraction is below `2^count`.
pub proof fn lemma_log2_fraction_bound(m: nat, count: nat)
    ensures
        log2_fraction(m, count) < pow2(count),
    decreases count,
{
    lemma_pow2_pos(count);
    if count > 0 {
        lemma_log2_fraction_bound(mantissa_step(m), (count - 1) as nat);
        lemma_pow2_unfold(count);
        let b = mantissa_bit(m);
        assert(b * pow2((count - 1) as nat) <= pow2((count - 1) as nat)) by (nonlinear_arith)
            requires
                b <= 1,
        ;
    }
}

/// The fraction bits of zero are zero.
proof fn lemma_log2_fraction_zero(count: nat)
    ensures
        log2_fraction(0, count) == 0,
    decreases count,
{
    if count > 0 {
        vstd::arithmetic::div_mod::lemma_div_of0(0x1_0000_0000);
        assert(mantissa_step(0) == 0);
        assert(mantissa_bit(0) == 0);
        lemma_log2_fraction_zero((count - 1) as nat);
    }
}

/// By convention the logarithm of zero is zero: every part of the
/// recurrence collapses.
pub proof fn lemma_ln_micro_spec_zero()
    ensures
        ln_micro_spec(0) == 0,
{
    lemma2_to64();
    vstd::arithmetic::div_mod::lemma_div_of0(0x1_0000_0000);
    assert(log2_floor(0) == 0);
    assert(mantissa_q32(0) == 0 * 0x1_0000_0000 / pow2(0));
    assert(0nat * 0x1_0000_0000 == 0) by (nonlinear_arith);
    vstd::arithmetic::div_mod::lemma_div_by_self(1);
    assert(mantissa_q32(0) == 0);
    lemma_log2_fraction_zero(32);
    assert((0nat * 0x1_0000_0000 + 0) * 693147 == 0) by (nonlinear_arith);
}

/// The mantissa of `n >= 1` scaled to Q32: `n * 2^32 / 2^log2_floor(n)`,
/// a value in `[2^32, 2^33)`.
pub open spec fn mantissa_q32(n: nat) -> nat {
    n * 0x1_0000_0000 / pow2(log2_floor(n))
}

/// The natural logarithm of `n` in millionths: the binary logarithm of `n`
/// in Q32 (six integer bits, 32 fraction bits) times `ln 2` in millionths,
/// scaled back down.
pub open spec fn ln_micro_spec(n: nat) -> nat {
    (log2_floor(n) * 0x1_0000_0000 + log2_fraction(mantissa_q32(n), 32)) * 693147 / 0x1_0000_0000
}

/// Natural logarithm of `n` in millionths.  `ln_micro(1) == 0`; values
/// never exceed `64 * ln 2 * 10^6`.
pub fn ln_micro(n: u64) -> (r: u64)
    requires
        n >= 1,
    ensures
        r == ln_micro_spec(n as nat),
        r <= 45_000_000,
{
    proof {
        lemma_log2_floor_le_63(n as nat);
    }
    // integer part of the binary logarithm
    let mut k: u64 = 0;
    let mut v: u64 = n;
    while v >= 2
        invariant
            v >= 1,
            log2_floor(n as nat) == k + log2_floor(v as nat),
            log2_floor(n as nat) <= 63,
        decreases v,
    {
        v = v / 2;
        k = k + 1;
    }
    // 2^k as an exec value
    let mut p: u64 = 1;
    let mut j: u64 = 0;
    proof {
        lemma2_to64();
        lemma2_to64_rest();
    }
    while j < k
        invariant
            j <= k,
            k <= 63,
            p == pow2(j as nat),
        decreases k - j,
    {
        proof {
            lemma2_to64();
            lemma2_to64_rest();
            if (j as nat) < 62 {
                lemma_pow2_strictly_increases(j as nat, 62);
            }
            lemma_pow2_unfold((j + 1) as nat);
        }
        p = p * 2;
        j = j + 1;
    }
    // mantissa in [2^32, 2^33)
    let ghost nn = n as nat;
    let ghost pp = p as nat;
    proof {
        lemma_log2_floor_bounds(nn);
        lemma_pow2_unfold(log2_floor(nn) + 1);
        assert(pp <= nn < 2 * pp);
        assert(pp * 0x1_0000_0000 <= nn * 0x1_0000_0000) by (nonlinear_arith)
            requires
                pp <= nn,
        ;
        lemma_div_is_ordered((pp * 0x1_0000_0000) as int, (nn * 0x1_0000_0000) as int, pp as int);
        lemma_div_multiples_vanish(0x1_0000_0000, pp as int);
        assert((pp * 0x1_0000_0000) as int == (pp as int) * 0x1_0000_0000);
        assert(nn * 0x1_0000_0000 < pp * 0x2_0000_0000) by (nonlinear_arith)
            requires
                nn < 2 * pp,
        ;
        lemma_multiply_divide_lt((nn * 0x1_0000_0000) as int, pp as int, 0x2_0000_0000);
        assert((nn as u128) * 0x1_0000_0000 < u128::MAX) by (nonlinear_arith)
            requires
                nn <= u64::MAX,
        ;
    }
    let m128: u128 = (n as u128) * 0x1_0000_0000 / (p as u128);
    let mut m: u64 = m128 as u64;
    proof {
        assert(m == mantissa_q32(nn));
    }
    // 32 fraction bits of the binary logarithm
    let ghost m0 = m as nat;
    let mut acc: u64 = 0;
    let mut i: u64 = 0;
    proof {
        lemma2_to64();
    }
    while i < 32
        invariant
            i <= 32,
            0x1_0000_0000 <= m < 0x2_0000_0000u64,
            acc < pow2(i as nat),
            log2_fraction(m0, 32) == acc * pow2((32 - i) as nat) + log2_fraction(
                m as nat,
                (32 - i) as nat,
            ),
        decreases 32 - i,
    {
        let ghost m_prev = m as nat;
        let ghost acc_prev = acc as nat;
        proof {
            assert((m as nat) * (m as nat) < u128::MAX as nat && (m as nat) * (m as nat)
                >= 0x1_0000_0000 * 0x1_0000_0000 && (m as nat) * (m as nat) < 0x2_0000_0000
                * 0x2_0000_0000) by (nonlinear_arith)
                requires
                    0x1_0000_0000 <= (m as nat) < 0x2_0000_0000,
            ;
            lemma_div_is_ordered(
                0x1_0000_0000int * 0x1_0000_0000,
                ((m as nat) * (m as nat)) as int,
                0x1_0000_0000,
            );
            lemma_div_multiples_vanish(0x1_0000_0000, 0x1_0000_0000);
            lemma_multiply_divide_lt(((m as nat) * (m as nat)) as int, 0x1_0000_0000, 0x4_0000_0000);
        }
        let s: u128 = ((m as u128) * (m as u128)) / 0x1_0000_0000;
        let bit: u64 = if s >= 0x2_0000_0000 {
            m = (s / 2) as u64;
            1
        } else {
            m = s as u64;
            0
        };
        proof {
            assert(m as nat == mantissa_step(m_prev));
            assert(bit as nat == mantissa_bit(m_prev));
            lemma2_to64();
            lemma2_to64_rest();
            if (i as nat) < 31 {
                lemma_pow2_strictly_increases(i as nat, 31);
            }
            // acc < pow2(31), so doubling and adding the bit stays in u64
            lemma_pow2_unfold((i + 1) as nat);
        }
        acc = acc * 2 + bit;
        i = i + 1;
        proof {
            let rem = (32 - i) as nat;
            lemma_pow2_unfold((rem + 1) as nat);
            assert(log2_fraction(m_prev, rem + 1) == mantissa_bit(m_prev) * pow2(rem)
                + log2_fraction(mantissa_step(m_prev), rem));
            assert(acc_prev * (2 * pow2(rem)) == 2 * acc_prev * pow2(rem)) by (nonlinear_arith);
            assert(acc * pow2(rem) == 2 * acc_prev * pow2(rem) + (bit as nat) * pow2(rem))
                by (nonlinear_arith)
                requires
                    acc == 2 * acc_prev + bit,
            ;
            assert((bit as nat) * pow2(rem) == mantissa_bit(m_prev) * pow2(rem));
        }
    }
    proof {
        lemma2_to64();
        assert(log2_fraction(m0, 32) == acc * pow2(0) + log2_fraction(m as nat, 0));
        assert(acc * 1 == acc) by (nonlinear_arith);
        lemma_log2_fraction_bound(m0, 32);
    }
    // scale the Q32 binary logarithm by ln 2 in millionths
    let q: u64 = k * 0x1_0000_0000 + acc;
    proof {
        let qq = q as nat;
        assert(k * 0x1_0000_0000 <= 63 * 0x1_0000_0000) by (nonlinear_arith)
            requires
                k <= 63u64,
        ;
        assert(qq * 693147 <= 0x40_0000_0000 * 693147) by (nonlinear_arith)
            requires
                qq <= 0x40_0000_0000,
        ;
        lemma_div_is_ordered((qq * 693147) as int, 0x40_0000_0000int * 693147, 0x1_0000_0000);
        assert(0x40_0000_0000int * 693147 / 0x1_0000_0000 == 44361408) by (nonlinear_arith);
    }
    let r128: u128 = (q as u128) * 693147 / 0x1_0000_0000;
    r128 as u64
}

} // verus!
