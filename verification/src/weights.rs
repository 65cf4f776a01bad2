//! Exact fixed-point arithmetic for term weights and scores.
//!
//! Weights and scores are held in thousandth units (milli). The inverse
//! document frequency `ln((n + 1) / (df + 1)) + 1` is computed in milli
//! units by a binary-logarithm iteration: the ratio is normalized into
//! [1, 2) by doubling the denominator, thirty fraction bits of its base-two
//! logarithm are extracted by repeated squaring, and the result is scaled by
//! the constant ln 2. Sums and products that could exceed the machine word
//! saturate at the largest representable value.
use vstd::prelude::*;

use vstd::arithmetic::div_mod::lemma_fundamental_div_mod;
use vstd::arithmetic::div_mod::lemma_mod_bound;
use vstd::arithmetic::mul::lemma_mul_inequality;
use vstd::arithmetic::power2::lemma2_to64;
use vstd::arithmetic::power2::lemma_pow2_adds;
use vstd::arithmetic::power2::lemma_pow2_strictly_increases;
use vstd::arithmetic::power2::pow2;

verus! {

/// `a + b`, saturating at the largest `u64`.
pub open spec fn sat_add64(a: u64, b: u64) -> u64 {
    if a + b > u64::MAX {
        u64::MAX
    } else {
        (a + b) as u64
    }
}

/// `a * b`, saturating at the largest `u64`.
pub open spec fn sat_mul64(a: u64, b: u64) -> u64 {
    if a * b > u64::MAX {
        u64::MAX
    } else {
        (a * b) as u64
    }
}

/// Computes `sat_add64(a, b)`.
pub fn add_sat(a: u64, b: u64) -> (r: u64)
    ensures
        r == sat_add64(a, b),
{
    if b > u64::MAX - a {
        u64::MAX
    } else {
        a + b
    }
}

/// Computes `sat_mul64(a, b)`.
pub fn mul_sat(a: u64, b: u64) -> (r: u64)
    ensures
        r == sat_mul64(a, b),
{
    if a == 0 || b == 0 {
        return 0;
    }
    let q = u64::MAX / a;
    proof {
        lemma_fundamental_div_mod(u64::MAX as int, a as int);
        lemma_mod_bound(u64::MAX as int, a as int);
        assert(u64::MAX as int == a as int * (q as int) + u64::MAX as int % (a as int));
        if b <= q {
            lemma_mul_inequality(b as int, q as int, a as int);
            assert(b as int * (a as int) <= q as int * (a as int));
            assert(q as int * (a as int) == a as int * (q as int)) by (nonlinear_arith);
            assert(a as int * (b as int) == b as int * (a as int)) by (nonlinear_arith);
            assert(a as int * (b as int) <= u64::MAX as int);
        } else {
            lemma_mul_inequality(q as int + 1, b as int, a as int);
            assert((q as int + 1) * (a as int) <= b as int * (a as int));
            assert((q as int + 1) * (a as int) == q as int * (a as int) + a as int)
                by (nonlinear_arith);
            assert(q as int * (a as int) == a as int * (q as int)) by (nonlinear_arith);
            assert(a as int * (b as int) == b as int * (a as int)) by (nonlinear_arith);
            assert(a as int * (b as int) > u64::MAX as int);
        }
    }
    if b > q {
        u64::MAX
    } else {
        a * b
    }
}

/// Doublings of `bb` that still fit under `a`: the normalization shift.
pub open spec fn norm_shift(a: int, bb: int) -> int
    decreases a - bb,
{
    if 1 <= bb && 2 * bb <= a {
        1 + norm_shift(a, 2 * bb)
    } else {
        0
    }
}

/// Thirty squaring steps: `m` is a mantissa in [2^30, 2^31), `f` the
/// base-two logarithm bits gathered so far.
pub open spec fn frac_iter(m: int, f: int, t: nat) -> (int, int)
    decreases t,
{
    if t == 0 {
        (m, f)
    } else {
        let m2 = (m * m) / 1073741824;
        if m2 >= 2147483648 {
            frac_iter(m2 / 2, 2 * f + 1, (t - 1) as nat)
        } else {
            frac_iter(m2, 2 * f, (t - 1) as nat)
        }
    }
}

/// `ln(a / b)` in milli units, for `1 <= b <= a`: the base-two logarithm
/// with thirty fraction bits, scaled by ln 2.
pub open spec fn spec_milli_ln(a: int, b: int) -> int {
    let k = norm_shift(a, b);
    let bb = b * pow2(k as nat);
    let m0 = (a * 1073741824) / bb;
    let mf = frac_iter(m0, 0, 30);
    let log2fp = k * 1073741824 + mf.1;
    (log2fp * 693147181) / 1073741824000000
}

/// Computes `spec_milli_ln(a, b)`.
#[verifier::loop_isolation(false)]
pub fn milli_ln_ratio(a: u64, b: u64) -> (r: u64)
    requires
        1 <= b,
        b <= a,
    ensures
        r as int == spec_milli_ln(a as int, b as int),
        r < 100000,
{
    let a128 = a as u128;
    let mut bb: u128 = b as u128;
    let mut k: u64 = 0;
    proof {
        lemma2_to64();
        assert(pow2(0) == 1);
        assert(bb as int == b as int * pow2(0));
    }
    while bb * 2 <= a128
        invariant
            1 <= bb <= a128,
            a128 == a as u128,
            b as u128 <= bb,
            bb as int == b as int * pow2(k as nat),
            norm_shift(a as int, b as int) == k + norm_shift(a as int, bb as int),
            k < 64,
        decreases a128 - bb,
    {
        proof {
            lemma_pow2_adds(k as nat, 1);
            lemma2_to64();
            assert(pow2((k + 1) as nat) == 2 * pow2(k as nat));
            assert(2 * (bb as int) == b as int * pow2((k + 1) as nat)) by (nonlinear_arith)
                requires
                    bb as int == b as int * pow2(k as nat),
                    pow2((k + 1) as nat) == 2 * pow2(k as nat),
            ;
            assert(norm_shift(a as int, bb as int) == 1 + norm_shift(a as int, 2 * bb as int));
            assert(pow2((k + 1) as nat) <= 2 * (bb as int)) by (nonlinear_arith)
                requires
                    2 * (bb as int) == b as int * pow2((k + 1) as nat),
                    b >= 1,
                    pow2((k + 1) as nat) >= 0,
            ;
            if k + 1 >= 64 {
                lemma_pow2_strictly_increases(63, (k + 1) as nat);
                assert(pow2((k + 1) as nat) >= pow2(64));
                assert(false);
            }
        }
        bb = bb * 2;
        k = k + 1;
    }
    proof {
        assert(norm_shift(a as int, bb as int) == 0);
        assert(k as int == norm_shift(a as int, b as int));
    }
    let m0: u128 = (a128 * 1073741824) / bb;
    proof {
        assert(a128 as int * 1073741824 == a as int * 1073741824);
        assert(m0 >= 1073741824) by {
            lemma_mul_inequality(bb as int, a as int, 1073741824);
            assert(bb as int * 1073741824 <= a as int * 1073741824);
            assert((bb as int * 1073741824) / bb as int <= (a as int * 1073741824) / bb as int)
                by {
                vstd::arithmetic::div_mod::lemma_div_is_ordered(
                    bb as int * 1073741824,
                    a as int * 1073741824,
                    bb as int,
                );
            }
            assert((bb as int * 1073741824) / bb as int == 1073741824) by {
                vstd::arithmetic::div_mod::lemma_div_by_multiple(1073741824, bb as int);
            }
        }
        assert(m0 < 2147483648) by {
            assert(a as int * 1073741824 < bb as int * 2147483648) by (nonlinear_arith)
                requires
                    (a as int) < 2 * (bb as int),
                    bb >= 1,
            ;
            vstd::arithmetic::div_mod::lemma_multiply_divide_lt(
                a as int * 1073741824,
                bb as int,
                2147483648,
            );
        }
    }
    let mut m: u128 = m0;
    let mut f: u64 = 0;
    let mut t: usize = 0;
    while t < 30
        invariant
            t <= 30,
            1073741824 <= m < 2147483648,
            f < pow2(t as nat),
            frac_iter(m0 as int, 0, 30) == frac_iter(m as int, f as int, (30 - t) as nat),
        decreases 30 - t,
    {
        proof {
            lemma2_to64();
            lemma_pow2_adds(t as nat, 1);
            assert(m as int * (m as int) < 2147483648 * 2147483648) by (nonlinear_arith)
                requires
                    (m as int) < 2147483648,
                    m >= 0,
            ;
            assert(m as int * m as int >= 1073741824 * 1073741824) by (nonlinear_arith)
                requires
                    m as int >= 1073741824,
            ;
        }
        let m2: u128 = (m * m) / 1073741824;
        proof {
            assert(m2 >= 1073741824) by {
                vstd::arithmetic::div_mod::lemma_div_is_ordered(
                    1073741824int * 1073741824int,
                    m as int * m as int,
                    1073741824,
                );
            }
            assert(m2 < 4294967296) by {
                vstd::arithmetic::div_mod::lemma_multiply_divide_lt(
                    m as int * m as int,
                    1073741824,
                    4294967296,
                );
            }
        }
        if m2 >= 2147483648 {
            m = m2 / 2;
            f = f * 2 + 1;
        } else {
            m = m2;
            f = f * 2;
        }
        t += 1;
    }
    proof {
        lemma2_to64();
        assert(frac_iter(m as int, f as int, 0) == (m as int, f as int));
        assert(frac_iter(m0 as int, 0, 30).1 == f as int);
        assert(f < 1073741824);
    }
    let log2fp: u128 = (k as u128) * 1073741824 + (f as u128);
    proof {
        assert(log2fp as int == k as int * 1073741824 + f as int);
        assert(log2fp < 64 * 1073741824 + 1073741824);
    }
    let big: u128 = log2fp * 693147181;
    let r128: u128 = big / 1073741824000000;
    proof {
        assert(big as int <= 69793218560int * 693147181int) by {
            lemma_mul_inequality(log2fp as int, 69793218560, 693147181);
        }
        assert(r128 < 100000) by {
            vstd::arithmetic::div_mod::lemma_div_is_ordered(
                big as int,
                69793218560int * 693147181int,
                1073741824000000,
            );
        }
    }
    r128 as u64
}

/// Inverse document frequency in milli units: `ln((n + 1) / (df + 1)) + 1`,
/// where `n` is the note count and `df` the number of notes holding the
/// term. At least one whole unit, since `df <= n`.
pub open spec fn spec_idf_milli(df: int, n: int) -> int {
    1000 + spec_milli_ln(n + 1, df + 1)
}

/// Computes `spec_idf_milli(df, n)`.
pub fn idf_milli(df: u64, n: u64) -> (r: u64)
    requires
        df <= n,
        n < u64::MAX,
    ensures
        r as int == spec_idf_milli(df as int, n as int),
        1000 <= r < 200000,
{
    let ln = milli_ln_ratio(n + 1, df + 1);
    1000 + ln
}

} // verus!
