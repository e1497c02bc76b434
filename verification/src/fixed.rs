//! Fixed-point scalar arithmetic.
//!
//! A scalar is an `i64` counted in `SCALE` units: the integer `v` stands for
//! the real number `v / SCALE`. Products rescale by `SCALE` and divisions
//! round toward zero; every operation either returns the exact rounded result
//! or reports that it does not fit the carrying word.

use vstd::prelude::*;
use vstd::arithmetic::div_mod::lemma_div_is_ordered;
use vstd::arithmetic::mul::lemma_mul_upper_bound;
use vstd::arithmetic::power2::lemma2_to64;
use vstd::arithmetic::power2::lemma_pow2_unfold;
use vstd::arithmetic::power2::pow2;
use vstd::math::abs;

verus! {

/// Number of fixed-point units in one: the scalar `SCALE` stands for 1.0.
pub const SCALE: i64 = 65536;

/// Whether a mathematical integer fits the word that carries scalars.
pub open spec fn fits_i64(x: int) -> bool {
    i64::MIN <= x <= i64::MAX
}

/// Division rounding toward zero, the rounding every scalar operation uses.
pub open spec fn trunc_div(a: int, b: int) -> int
    recommends
        b > 0,
{
    if a >= 0 {
        a / b
    } else {
        -((-a) / b)
    }
}

/// Exact value of the scalar product `a * b` before the overflow check.
pub open spec fn fx_mul_spec(a: int, b: int) -> int {
    trunc_div(a * b, SCALE as int)
}

/// Checked narrowing of an exact result to the carrying word.
pub open spec fn ck(x: int) -> Option<i64> {
    if fits_i64(x) {
        Some(x as i64)
    } else {
        None
    }
}

/// The magnitude of a product is the product of the magnitudes.
proof fn lemma_abs_mul(a: int, b: int)
    ensures
        abs(a * b) == abs(a) * abs(b),
{
    if a >= 0 && b >= 0 {
        assert(a * b >= 0) by (nonlinear_arith)
            requires a >= 0 && b >= 0;
    } else if a >= 0 && b < 0 {
        assert(a * b <= 0 && a * b == -(a * -b)) by (nonlinear_arith)
            requires a >= 0 && b < 0;
    } else if a < 0 && b >= 0 {
        assert(a * b <= 0 && a * b == -(-a * b)) by (nonlinear_arith)
            requires a < 0 && b >= 0;
    } else {
        assert(a * b >= 0 && a * b == -a * -b) by (nonlinear_arith)
            requires a < 0 && b < 0;
    }
}

/// Scaling by one is the identity: a product with `SCALE` rescales back to
/// the other factor unchanged.
pub proof fn lemma_fx_mul_scale_identity(z: int)
    ensures
        fx_mul_spec(z, SCALE as int) == z,
{
    if z >= 0 {
        assert(z * (SCALE as int) == (SCALE as int) * z) by (nonlinear_arith);
        vstd::arithmetic::div_mod::lemma_div_multiples_vanish(z, SCALE as int);
    } else {
        assert(z * (SCALE as int) < 0) by (nonlinear_arith)
            requires z < 0, SCALE == 65536i64;
        assert(-(z * (SCALE as int)) == (SCALE as int) * (-z)) by (nonlinear_arith);
        vstd::arithmetic::div_mod::lemma_div_multiples_vanish(-z, SCALE as int);
    }
}

/// Checked scalar addition.
pub fn fx_add(a: i64, b: i64) -> (r: Option<i64>)
    ensures
        r == ck(a + b),
{
    a.checked_add(b)
}

/// Checked scalar multiplication: `(a * b) / SCALE`, rounded toward zero.
pub fn fx_mul(a: i64, b: i64) -> (r: Option<i64>)
    ensures
        r == ck(fx_mul_spec(a as int, b as int)),
{
    let neg: bool = (a < 0) != (b < 0);
    let ai: i128 = a as i128;
    let bi: i128 = b as i128;
    let ma: u128 = if ai < 0 { (-ai) as u128 } else { ai as u128 };
    let mb: u128 = if bi < 0 { (-bi) as u128 } else { bi as u128 };
    proof {
        assert(ma == abs(a as int));
        assert(mb == abs(b as int));
        lemma_mul_upper_bound(ma as int, 0x8000_0000_0000_0000, mb as int, 0x8000_0000_0000_0000);
        lemma_abs_mul(a as int, b as int);
    }
    let p: u128 = ma * mb;
    let q: u128 = p / 65536;
    proof {
        assert(p == abs((a as int) * (b as int)));
        if (a as int) * (b as int) >= 0 {
            assert(q == trunc_div((a as int) * (b as int), SCALE as int));
        } else {
            assert(q == -trunc_div((a as int) * (b as int), SCALE as int));
        }
    }
    if neg {
        if q > 0x8000_0000_0000_0000 {
            proof {
                if (a as int) * (b as int) >= 0 {
                    assert((a < 0) == (b < 0)) by (nonlinear_arith)
                        requires (a as int) * (b as int) > 0;
                }
            }
            None
        } else if q == 0x8000_0000_0000_0000 {
            proof {
                if (a as int) * (b as int) >= 0 {
                    assert((a < 0) == (b < 0)) by (nonlinear_arith)
                        requires (a as int) * (b as int) > 0;
                }
            }
            Some(i64::MIN)
        } else {
            let v: i64 = -(q as i64);
            proof {
                if (a as int) * (b as int) >= 0 {
                    if (a as int) * (b as int) > 0 {
                        assert((a < 0) == (b < 0)) by (nonlinear_arith)
                            requires (a as int) * (b as int) > 0;
                    }
                }
            }
            Some(v)
        }
    } else {
        if q > 0x7fff_ffff_ffff_ffff {
            proof {
                if (a as int) * (b as int) < 0 {
                    assert((a < 0) != (b < 0)) by (nonlinear_arith)
                        requires (a as int) * (b as int) < 0;
                }
            }
            None
        } else {
            proof {
                if (a as int) * (b as int) < 0 {
                    assert((a < 0) != (b < 0)) by (nonlinear_arith)
                        requires (a as int) * (b as int) < 0;
                }
            }
            Some(q as i64)
        }
    }
}

/// ln(2) in `SCALE` units, rounded down.
pub const LN2_FX: i64 = 45426;

/// Largest argument `ln_fx` accepts, two to the 48th in raw units.
pub const LN_ARG_MAX: i64 = 0x1_0000_0000_0000;

/// How often a mantissa halves until it lies below two.
pub open spec fn norm_shift(m: int) -> nat
    recommends
        m >= SCALE,
    decreases m,
{
    if m < 2 * (SCALE as int) {
        0
    } else {
        1 + norm_shift(m / 2)
    }
}

/// The mantissa in [1, 2) that the halving leaves behind.
pub open spec fn norm_mant(m: int) -> int
    recommends
        m >= SCALE,
    decreases m,
{
    if m < 2 * (SCALE as int) {
        m
    } else {
        norm_mant(m / 2)
    }
}

/// The first `k` fractional bits of the base-two log of a mantissa in
/// [1, 2), read off by repeated squaring.
pub open spec fn frac_bits(m: int, k: nat) -> int
    recommends
        SCALE <= m < 2 * SCALE,
    decreases k,
{
    if k == 0 {
        0
    } else {
        let sq = (m * m) / (SCALE as int);
        if sq >= 2 * (SCALE as int) {
            pow2((k - 1) as nat) + frac_bits(sq / 2, (k - 1) as nat)
        } else {
            frac_bits(sq, (k - 1) as nat)
        }
    }
}

/// Natural log of `x / SCALE`, in `SCALE` units: the base-two log assembled
/// from the shift and sixteen fractional bits, rescaled by ln(2).
pub open spec fn ln_fx_spec(x: int) -> int {
    ((norm_shift(x) * (SCALE as int) + frac_bits(norm_mant(x), 16)) * (LN2_FX as int)) / (
    SCALE as int)
}

/// The fractional bits are never negative.
proof fn lemma_frac_bits_nonneg(m: int, k: nat)
    requires
        m >= 0,
    ensures
        frac_bits(m, k) >= 0,
    decreases k,
{
    if k > 0 {
        let sq = (m * m) / (SCALE as int);
        assert(m * m >= 0) by (nonlinear_arith)
            requires m >= 0;
        assert(sq >= 0);
        if sq >= 2 * (SCALE as int) {
            lemma_frac_bits_nonneg(sq / 2, (k - 1) as nat);
            assert(pow2((k - 1) as nat) >= 0);
        } else {
            lemma_frac_bits_nonneg(sq, (k - 1) as nat);
        }
    }
}

/// Sixteen fractional bits stay below two to the sixteenth.
proof fn lemma_frac_bits_upper(m: int, k: nat)
    requires
        m >= 0,
    ensures
        frac_bits(m, k) < pow2(k),
    decreases k,
{
    lemma2_to64();
    if k == 0 {
        assert(pow2(0) == 1);
    } else {
        let sq = (m * m) / (SCALE as int);
        assert(m * m >= 0) by (nonlinear_arith)
            requires m >= 0;
        lemma_pow2_unfold(k);
        if sq >= 2 * (SCALE as int) {
            lemma_frac_bits_upper(sq / 2, (k - 1) as nat);
        } else {
            lemma_frac_bits_upper(sq, (k - 1) as nat);
        }
    }
}

/// A mantissa below a power-of-two window needs at most that many halvings.
proof fn lemma_norm_shift_bound(x: int, k: nat)
    requires
        0 <= x < 2 * (SCALE as int) * pow2(k),
    ensures
        norm_shift(x) <= k,
    decreases k,
{
    if x < 2 * (SCALE as int) {
    } else {
        lemma2_to64();
        if k == 0 {
            assert(pow2(k) == 1);
            assert(x < 2 * (SCALE as int) * pow2(k));
            assert(x < 131072) by (nonlinear_arith)
                requires x < 2 * (SCALE as int) * pow2(k), pow2(k) == 1;
            assert(false);
        } else {
            lemma_pow2_unfold(k);
            assert(x < 2 * (SCALE as int) * (2 * pow2((k - 1) as nat)));
            assert(x / 2 < 2 * (SCALE as int) * pow2((k - 1) as nat)) by (nonlinear_arith)
                requires
                    x < 2 * (SCALE as int) * (2 * pow2((k - 1) as nat)),
                    x >= 0,
                    pow2((k - 1) as nat) >= 0;
            lemma_norm_shift_bound(x / 2, (k - 1) as nat);
        }
    }
}

/// In the accepted argument range the shift fits in five bits.
pub proof fn lemma_norm_shift_upper(x: int)
    requires
        0 <= x < LN_ARG_MAX,
    ensures
        norm_shift(x) <= 31,
{
    lemma2_to64();
    assert(2 * (SCALE as int) * pow2(31) == 0x1_0000_0000_0000);
    lemma_norm_shift_bound(x, 31);
}

/// The normalized mantissa of a scalar at least one lies in [1, 2).
proof fn lemma_norm_mant_range(x: int)
    requires
        x >= SCALE,
    ensures
        (SCALE as int) <= norm_mant(x) < 2 * (SCALE as int),
    decreases x,
{
    if x >= 2 * (SCALE as int) {
        lemma_norm_mant_range(x / 2);
    }
}

/// The log of one is zero.
pub proof fn lemma_ln_fx_spec_one()
    ensures
        ln_fx_spec(SCALE as int) == 0,
{
    assert(norm_shift(SCALE as int) == 0);
    assert(norm_mant(SCALE as int) == SCALE as int);
    lemma_frac_bits_one((SCALE as int), 16);
}

proof fn lemma_frac_bits_one(m: int, k: nat)
    requires
        m == SCALE as int,
    ensures
        frac_bits(m, k) == 0,
    decreases k,
{
    if k > 0 {
        assert((m * m) / (SCALE as int) == SCALE as int) by (nonlinear_arith)
            requires m == SCALE as int, SCALE == 65536i64;
        lemma_frac_bits_one(m, (k - 1) as nat);
    }
}

/// The log never goes negative on the accepted range.
pub proof fn lemma_ln_fx_spec_nonneg(x: int)
    requires
        (SCALE as int) <= x < LN_ARG_MAX,
    ensures
        ln_fx_spec(x) >= 0,
{
    lemma_norm_mant_range(x);
    lemma_frac_bits_nonneg(norm_mant(x), 16);
    assert(norm_shift(x) * (SCALE as int) >= 0);
    let t = norm_shift(x) * (SCALE as int) + frac_bits(norm_mant(x), 16);
    assert(t * (LN2_FX as int) >= 0) by (nonlinear_arith)
        requires t >= 0, LN2_FX == 45426i64;
}

/// The log stays under its table ceiling on the accepted range.
pub proof fn lemma_ln_fx_spec_upper(x: int)
    requires
        (SCALE as int) <= x < LN_ARG_MAX,
    ensures
        ln_fx_spec(x) <= 1500000,
{
    lemma2_to64();
    lemma_norm_shift_upper(x);
    lemma_norm_mant_range(x);
    lemma_frac_bits_upper(norm_mant(x), 16);
    lemma_frac_bits_nonneg_any(norm_mant(x), 16);
    let t = norm_shift(x) * (SCALE as int) + frac_bits(norm_mant(x), 16);
    assert(0 <= norm_shift(x) * (SCALE as int) <= 31 * (SCALE as int)) by (nonlinear_arith)
        requires norm_shift(x) <= 31, SCALE == 65536i64;
    assert(t <= 31 * 65536 + 65536);
    assert(t * (LN2_FX as int) <= 2097152 * 45426) by (nonlinear_arith)
        requires t <= 2097152, LN2_FX == 45426i64, t >= 0;
    lemma_div_is_ordered(t * (LN2_FX as int), 2097152int * 45426, SCALE as int);
}

proof fn lemma_frac_bits_nonneg_any(m: int, k: nat)
    ensures
        m >= 0 ==> frac_bits(m, k) >= 0,
        m < 0 ==> true,
{
    if m >= 0 {
        lemma_frac_bits_nonneg(m, k);
    }
}

/// Any scalar at least three halves has a log of at least ln(3/2), the
/// fact that keeps the utility normalizer positive.
pub proof fn lemma_ln_fx_spec_lower(x: int)
    requires
        3 * (SCALE as int) / 2 <= x < LN_ARG_MAX,
    ensures
        ln_fx_spec(x) >= 22713,
{
    lemma2_to64();
    lemma_norm_mant_range(x);
    let t = norm_shift(x) * (SCALE as int) + frac_bits(norm_mant(x), 16);
    if x < 2 * (SCALE as int) {
        assert(norm_shift(x) == 0);
        assert(norm_mant(x) == x);
        let sq = (x * x) / (SCALE as int);
        assert(x * x >= 98304 * 98304) by (nonlinear_arith)
            requires x >= 98304;
        lemma_div_is_ordered(98304int * 98304, x * x, SCALE as int);
        assert(sq >= 147456);
        assert(frac_bits(x, 16) == pow2(15) + frac_bits(sq / 2, 15));
        lemma_frac_bits_nonneg_any(sq / 2, 15);
        assert(t >= 32768);
    } else {
        assert(norm_shift(x) >= 1);
        lemma_frac_bits_nonneg_any(norm_mant(x), 16);
        assert(norm_shift(x) * (SCALE as int) >= 1 * (SCALE as int)) by (nonlinear_arith)
            requires norm_shift(x) >= 1, SCALE == 65536i64;
        assert(t >= 32768);
    }
    assert(t * (LN2_FX as int) >= 32768 * 45426) by (nonlinear_arith)
        requires t >= 32768, LN2_FX == 45426i64;
    lemma_div_is_ordered(32768int * 45426, t * (LN2_FX as int), SCALE as int);
}

/// Natural log of `x / SCALE` in `SCALE` units, by mantissa normalization
/// and sixteen squaring steps for the fractional base-two bits.
pub fn ln_fx(x: i64) -> (r: i64)
    requires
        SCALE <= x < LN_ARG_MAX,
    ensures
        r == ln_fx_spec(x as int),
        0 <= r <= 1500000,
{
    proof {
        lemma_ln_fx_spec_nonneg(x as int);
        lemma_ln_fx_spec_upper(x as int);
        lemma_norm_shift_upper(x as int);
    }
    let mut m: u64 = x as u64;
    let mut e: u64 = 0;
    while m >= 131072
        invariant
            65536 <= m,
            m <= x as u64,
            norm_shift(x as int) == e + norm_shift(m as int),
            norm_mant(x as int) == norm_mant(m as int),
            e <= norm_shift(x as int),
            norm_shift(x as int) <= 31,
        decreases m,
    {
        proof {
            assert(norm_shift(m as int) == 1 + norm_shift((m as int) / 2));
            assert(norm_mant(m as int) == norm_mant((m as int) / 2));
        }
        m = m / 2;
        e = e + 1;
    }
    proof {
        assert(norm_shift(m as int) == 0);
        assert(norm_mant(m as int) == m as int);
        assert(e == norm_shift(x as int));
        assert(m as int == norm_mant(x as int));
    }
    let ghost m0 = m as int;
    let mut mm: u64 = m;
    let mut frac: u64 = 0;
    let mut it: u64 = 0;
    proof {
        lemma2_to64();
        assert(frac_bits(m0, 16) == 0 * pow2(16) + frac_bits(m as int, 16));
    }
    while it < 16
        invariant
            it <= 16,
            65536 <= mm < 131072,
            frac < pow2(it as nat),
            frac_bits(m0, 16) == frac * pow2((16 - it) as nat) + frac_bits(
                mm as int,
                (16 - it) as nat,
            ),
        decreases 16 - it,
    {
        proof {
            lemma2_to64();
            if (it as nat) < 15 {
                vstd::arithmetic::power2::lemma_pow2_strictly_increases(it as nat, 15);
            }
            assert(pow2(it as nat) <= pow2(15));
            assert(frac <= 32767);
            assert(mm * mm <= 131071 * 131071) by (nonlinear_arith)
                requires mm <= 131071;
            assert(mm * mm >= 65536 * 65536) by (nonlinear_arith)
                requires mm >= 65536;
            lemma_div_is_ordered(65536int * 65536, (mm as int) * (mm as int), 65536);
        }
        let sq: u64 = (mm * mm) / 65536;
        proof {
            lemma_div_is_ordered((mm as int) * (mm as int), 131071int * 131071, 65536);
            assert(131071int * 131071 / 65536 == 262140);
            assert(sq <= 262140);
            let rem = (16 - it) as nat;
            assert(frac_bits(mm as int, rem) == if (sq as int) >= 131072 {
                pow2((rem - 1) as nat) + frac_bits((sq as int) / 2, (rem - 1) as nat)
            } else {
                frac_bits(sq as int, (rem - 1) as nat)
            });
            lemma_pow2_unfold(rem);
        }
        let ghost frac_pre = frac as int;
        let ghost rem = (16 - it) as nat;
        if sq >= 131072 {
            mm = sq / 2;
            frac = frac * 2 + 1;
            proof {
                assert((2 * frac_pre + 1) * pow2((rem - 1) as nat) + frac_bits(
                    mm as int,
                    (rem - 1) as nat,
                ) == frac_pre * pow2(rem) + pow2((rem - 1) as nat) + frac_bits(
                    mm as int,
                    (rem - 1) as nat,
                )) by (nonlinear_arith)
                    requires pow2(rem) == 2 * pow2((rem - 1) as nat);
            }
        } else {
            mm = sq;
            frac = frac * 2;
            proof {
                assert((2 * frac_pre) * pow2((rem - 1) as nat) + frac_bits(
                    mm as int,
                    (rem - 1) as nat,
                ) == frac_pre * pow2(rem) + frac_bits(mm as int, (rem - 1) as nat))
                    by (nonlinear_arith)
                    requires pow2(rem) == 2 * pow2((rem - 1) as nat);
            }
        }
        it = it + 1;
        proof {
            lemma_pow2_unfold(it as nat);
        }
    }
    proof {
        lemma2_to64();
        assert((16 - it) as nat == 0);
        assert(frac_bits(mm as int, (16 - it) as nat) == 0);
        assert(pow2((16 - it) as nat) == 1);
        assert(frac as int * pow2((16 - it) as nat) == frac as int) by (nonlinear_arith)
            requires pow2((16 - it) as nat) == 1;
        assert(frac_bits(m0, 16) == frac as int);
        assert(frac < 65536);
    }
    let t: u64 = e * 65536 + frac;
    proof {
        assert(e <= 31);
        assert(t == norm_shift(x as int) * 65536 + frac_bits(norm_mant(x as int), 16));
        assert(t <= 31 * 65536 + 65535);
    }
    let r64: u64 = (t * 45426) / 65536;
    proof {
        assert(r64 as int == ln_fx_spec(x as int));
    }
    r64 as i64
}

/// Checked scalar division by a positive population count, toward zero.
pub fn fx_div_count(a: i64, n: u64) -> (r: i64)
    requires
        n >= 1,
    ensures
        r == trunc_div(a as int, n as int),
{
    if a >= 0 {
        let q: u64 = (a as u64) / n;
        q as i64
    } else {
        let ma: u64 = (-(a as i128)) as u64;
        let q: u64 = ma / n;
        if q >= 0x8000_0000_0000_0000 {
            proof {
                assert(ma / (n as u64) <= ma);
            }
            i64::MIN
        } else {
            -(q as i64)
        }
    }
}

} // verus!
