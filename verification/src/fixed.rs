//! Fixed-point scalar arithmetic.
//!
//! A continuous quantity is stored as an `i64` holding the value scaled by
//! [`SCALE`], i.e. rounded to eight decimal places. Multiplication and
//! division round their mathematical result half away from zero to that grid,
//! and every operation saturates at [`FX_SAT`], the edge of the representable
//! range; coordinates that reach it are far outside any grid and are
//! discarded by the bounds checks of the traversal.

use vstd::prelude::*;

verus! {

/// Number of fixed-point units per 1.0 of the continuous value.
pub const SCALE: i64 = 100_000_000;

/// Saturation bound of every fixed-point operation.
pub const FX_SAT: i64 = 4_000_000_000_000_000_000;

/// Magnitude of an integer, as a spec value.
pub open spec fn abs_int(v: int) -> int {
    if v >= 0 {
        v
    } else {
        -v
    }
}

/// Integer division by a positive divisor, rounding half away from zero.
pub open spec fn div_half_away(a: int, d: int) -> int
    recommends
        d > 0,
{
    if a >= 0 {
        (a + d / 2) / d
    } else {
        -((-a + d / 2) / d)
    }
}

/// Truncating (toward zero) division by a positive divisor.
pub open spec fn trunc_div(a: int, d: int) -> int
    recommends
        d > 0,
{
    if a >= 0 {
        a / d
    } else {
        -((-a) / d)
    }
}

/// Remainder of [`trunc_div`]: same sign as the dividend.
pub open spec fn trunc_rem(a: int, d: int) -> int
    recommends
        d > 0,
{
    a - trunc_div(a, d) * d
}

/// Clamp to the representable fixed-point range.
pub open spec fn sat_fx(v: int) -> int {
    if v > FX_SAT {
        FX_SAT as int
    } else if v < -FX_SAT {
        -FX_SAT as int
    } else {
        v
    }
}

/// Whether a value lies within the representable fixed-point range.
pub open spec fn in_fx(v: int) -> bool {
    -FX_SAT <= v <= FX_SAT
}

/// A product of values bounded in magnitude is bounded by the product of the
/// bounds.
pub(crate) proof fn lemma_product_bound(a: int, b: int, ba: int, bb: int)
    by (nonlinear_arith)
    requires
        -ba <= a <= ba,
        -bb <= b <= bb,
        0 <= ba,
        0 <= bb,
    ensures
        -(ba * bb) <= a * b <= ba * bb,
{
}

/// Negating one factor negates the product.
pub(crate) proof fn lemma_neg_mul(a: int, b: int)
    by (nonlinear_arith)
    ensures
        (-a) * b == -(a * b),
{
}

/// Truncating division recovers the factor of an exact multiple, with no
/// remainder.
pub(crate) proof fn lemma_trunc_div_multiple(k: int, d: int)
    requires
        0 < d,
    ensures
        trunc_div(k * d, d) == k,
        trunc_rem(k * d, d) == 0,
{
    if k >= 0 {
        assert(k * d == d * k) by (nonlinear_arith);
        vstd::arithmetic::div_mod::lemma_div_multiples_vanish(k, d);
        assert(k * d >= 0) by (nonlinear_arith)
            requires
                k >= 0,
                d > 0,
        ;
        assert(trunc_div(k * d, d) * d == k * d) by (nonlinear_arith)
            requires
                trunc_div(k * d, d) == k,
        ;
    } else {
        assert(-(k * d) == d * (-k)) by (nonlinear_arith);
        vstd::arithmetic::div_mod::lemma_div_multiples_vanish(-k, d);
        assert(k * d < 0) by (nonlinear_arith)
            requires
                k < 0,
                d > 0,
        ;
        assert(trunc_div(k * d, d) * d == k * d) by (nonlinear_arith)
            requires
                trunc_div(k * d, d) == k,
        ;
    }
}

/// Clamp to the plain 64-bit signed range.
pub open spec fn sat_i64(v: int) -> int {
    if v > i64::MAX {
        i64::MAX as int
    } else if v < i64::MIN {
        i64::MIN as int
    } else {
        v
    }
}

/// Clamp an already-held value to the representable fixed-point range.
pub fn fsat(a: i64) -> (r: i64)
    ensures
        r == sat_fx(a as int),
{
    if a > FX_SAT {
        FX_SAT
    } else if a < -FX_SAT {
        -FX_SAT
    } else {
        a
    }
}

/// Saturating addition of plain 64-bit values (used for tile indices).
pub fn sadd_i64(a: i64, b: i64) -> (r: i64)
    ensures
        r == sat_i64(a + b),
{
    let s: i128 = (a as i128) + (b as i128);
    if s > (i64::MAX as i128) {
        i64::MAX
    } else if s < (i64::MIN as i128) {
        i64::MIN
    } else {
        s as i64
    }
}

/// Squared Euclidean distance between two points given by fixed-point
/// coordinates.
pub fn dist_sq(ax: i64, ay: i64, bx: i64, by: i64) -> (d: u128)
    requires
        in_fx(ax as int),
        in_fx(ay as int),
        in_fx(bx as int),
        in_fx(by as int),
    ensures
        d == (ax - bx) * (ax - bx) + (ay - by) * (ay - by),
{
    let dx: i128 = (ax as i128) - (bx as i128);
    let dy: i128 = (ay as i128) - (by as i128);
    let mx: u128 = if dx < 0 {
        (-dx) as u128
    } else {
        dx as u128
    };
    let my: u128 = if dy < 0 {
        (-dy) as u128
    } else {
        dy as u128
    };
    proof {
        lemma_product_bound(mx as int, mx as int, 2 * FX_SAT, 2 * FX_SAT);
        lemma_product_bound(my as int, my as int, 2 * FX_SAT, 2 * FX_SAT);
        lemma_neg_mul(dx as int, dx as int);
        lemma_neg_mul(dx as int, -(dx as int));
        lemma_neg_mul(dy as int, dy as int);
        lemma_neg_mul(dy as int, -(dy as int));
    }
    mx * mx + my * my
}

/// Integer square root: the largest value whose square does not exceed the
/// argument.
pub fn isqrt128(v: u128) -> (r: u64)
    ensures
        (r as int) * (r as int) <= v,
        v < ((r as int) + 1) * ((r as int) + 1),
{
    let mut lo: u64 = 0;
    let mut hi: u64 = u64::MAX;
    proof {
        assert(v < (hi as int + 1) * (hi as int + 1)) by (nonlinear_arith)
            requires
                v <= u128::MAX,
                hi == u64::MAX,
        ;
    }
    while lo < hi
        invariant
            lo <= hi,
            (lo as int) * (lo as int) <= v,
            v < ((hi as int) + 1) * ((hi as int) + 1),
        decreases hi - lo,
    {
        let mid: u64 = lo + (hi - lo) / 2 + 1;
        proof {
            assert((mid as int) * (mid as int) <= (u64::MAX as int) * (u64::MAX as int)
                < u128::MAX) by (nonlinear_arith)
                requires
                    0 <= mid <= u64::MAX,
            ;
        }
        let sq: u128 = (mid as u128) * (mid as u128);
        if sq <= v {
            lo = mid;
        } else {
            hi = mid - 1;
        }
    }
    lo
}

/// Saturating fixed-point addition.
pub fn fadd(a: i64, b: i64) -> (r: i64)
    ensures
        r == sat_fx(a + b),
{
    let s: i128 = (a as i128) + (b as i128);
    if s > (FX_SAT as i128) {
        FX_SAT
    } else if s < (-FX_SAT as i128) {
        -FX_SAT
    } else {
        s as i64
    }
}

/// Saturating product of a fixed-point value and a plain integer.
pub fn smul_int(a: i64, k: i64) -> (r: i64)
    ensures
        r == sat_fx(a * k),
{
    proof {
        lemma_product_bound(a as int, k as int, 0x8000_0000_0000_0000, 0x8000_0000_0000_0000);
    }
    let p: i128 = (a as i128) * (k as i128);
    if p > (FX_SAT as i128) {
        FX_SAT
    } else if p < (-FX_SAT as i128) {
        -FX_SAT
    } else {
        p as i64
    }
}

/// Rounded magnitude quotient: (m + d/2) / d on magnitudes.
fn mag_div_half(m: u128, d: u128) -> (q: u128)
    requires
        d > 0,
        m + d / 2 <= u128::MAX,
    ensures
        q == (m + d / 2) as int / (d as int),
{
    (m + d / 2) / d
}

/// The value [`fmul`] returns: the product scaled back down, rounded half
/// away from zero, saturated.
pub open spec fn fmul_spec(a: int, b: int) -> int {
    sat_fx(div_half_away(a * b, SCALE as int))
}

/// Fixed-point multiplication: `a * b / SCALE`, rounded half away from zero,
/// saturated.
pub fn fmul(a: i64, b: i64) -> (r: i64)
    ensures
        r == fmul_spec(a as int, b as int),
{
    proof {
        lemma_product_bound(a as int, b as int, 0x8000_0000_0000_0000, 0x8000_0000_0000_0000);
    }
    let p: i128 = (a as i128) * (b as i128);
    let neg: bool = p < 0;
    let m: u128 = if neg {
        (-p) as u128
    } else {
        p as u128
    };
    let q: u128 = mag_div_half(m, SCALE as u128);
    if neg {
        if q > (FX_SAT as u128) {
            -FX_SAT
        } else {
            -((q as i128) as i64)
        }
    } else {
        if q > (FX_SAT as u128) {
            FX_SAT
        } else {
            q as i64
        }
    }
}

/// Signed quotient with rounding half away from zero, as a spec value:
/// the sign is the product of the operands' signs, the magnitude is the
/// rounded magnitude quotient.
pub open spec fn fdiv_spec(a: int, b: int) -> int
    recommends
        b != 0,
{
    if (a < 0) == (b < 0) {
        div_half_away(abs_int(a) * SCALE, abs_int(b))
    } else {
        -div_half_away(abs_int(a) * SCALE, abs_int(b))
    }
}

/// The value [`fdiv`] returns, division by zero included.
pub open spec fn fdiv_total_spec(a: int, b: int) -> int {
    if b == 0 {
        if a > 0 {
            FX_SAT as int
        } else if a < 0 {
            -FX_SAT as int
        } else {
            0int
        }
    } else {
        sat_fx(fdiv_spec(a, b))
    }
}

/// Fixed-point division: `a * SCALE / b`, rounded half away from zero,
/// saturated. Division by zero saturates in the direction of the dividend's
/// sign (the continuous analogue of an infinite quotient).
pub fn fdiv(a: i64, b: i64) -> (r: i64)
    ensures
        r == fdiv_total_spec(a as int, b as int),
{
    if b == 0 {
        if a > 0 {
            FX_SAT
        } else if a < 0 {
            -FX_SAT
        } else {
            0
        }
    } else {
        let neg: bool = (a < 0) != (b < 0);
        let ma: u128 = if a < 0 {
            (-(a as i128)) as u128
        } else {
            a as u128
        };
        let mb: u128 = if b < 0 {
            (-(b as i128)) as u128
        } else {
            b as u128
        };
        proof {
            lemma_product_bound(ma as int, SCALE as int, 0x8000_0000_0000_0000, SCALE as int);
        }
        let q: u128 = mag_div_half(ma * (SCALE as u128), mb);
        proof {
            if a >= 0 {
                assert(ma == abs_int(a as int));
            } else {
                assert(ma == abs_int(a as int));
            }
            lemma_neg_mul(-(a as int), SCALE as int);
        }
        if neg {
            if q > (FX_SAT as u128) {
                -FX_SAT
            } else {
                -((q as i128) as i64)
            }
        } else {
            if q > (FX_SAT as u128) {
                FX_SAT
            } else {
                q as i64
            }
        }
    }
}

/// Truncating division of a fixed-point value by a positive one, with the
/// remainder: the whole-unit count and sub-unit rest of `a` measured in
/// units of `d`.
pub fn fdivmod_trunc(a: i64, d: i64) -> (r: (i64, i64))
    requires
        d > 0,
        in_fx(a as int),
    ensures
        r.0 == trunc_div(a as int, d as int),
        r.1 == trunc_rem(a as int, d as int),
        a == r.0 * d + r.1,
        abs_int(r.1 as int) < d,
        abs_int(r.0 as int) <= abs_int(a as int),
        a >= 0 ==> r.1 >= 0 && r.0 >= 0,
        a <= 0 ==> r.1 <= 0 && r.0 <= 0,
{
    let neg: bool = a < 0;
    let ma: u64 = if neg {
        (-(a as i128)) as u64
    } else {
        a as u64
    };
    let q: u64 = ma / (d as u64);
    let m: u64 = ma % (d as u64);
    proof {
        assert(d * ((ma as int) / (d as int)) + ((ma as int) % (d as int)) == ma) by {
            vstd::arithmetic::div_mod::lemma_fundamental_div_mod(ma as int, d as int);
        }
        assert(q <= ma) by {
            vstd::arithmetic::div_mod::lemma_div_is_ordered_by_denominator(
                ma as int,
                1,
                d as int,
            );
            vstd::arithmetic::div_mod::lemma_div_by_self(1);
        }
        assert(d * (q as int) == (q as int) * d) by (nonlinear_arith);
        lemma_neg_mul(q as int, d as int);
        if neg {
            assert(trunc_div(a as int, d as int) == -(q as int));
            assert(a == (-(q as int)) * d + (-(m as int)));
        } else {
            assert(trunc_div(a as int, d as int) == q);
            assert(a == (q as int) * d + m);
        }
    }
    if neg {
        (-(q as i64), -(m as i64))
    } else {
        (q as i64, m as i64)
    }
}

/// Round a fixed-point value to a multiple of `unit` (e.g.
/// `unit == 100_000` rounds to three decimal places), half away from zero.
pub fn fround_unit(a: i64, unit: i64) -> (r: i64)
    requires
        0 < unit <= SCALE,
        in_fx(a as int),
    ensures
        r == div_half_away(a as int, unit as int) * unit,
{
    let neg: bool = a < 0;
    let ma: u64 = if neg {
        (-(a as i128)) as u64
    } else {
        a as u64
    };
    let q: u64 = (ma + (unit as u64) / 2) / (unit as u64);
    proof {
        assert(q * unit <= ma + unit / 2) by {
            vstd::arithmetic::div_mod::lemma_fundamental_div_mod(
                ma + unit / 2,
                unit as int,
            );
            vstd::arithmetic::div_mod::lemma_mod_bound(ma + unit / 2, unit as int);
        }
    }
    let ru: u64 = q * (unit as u64);
    proof {
        lemma_neg_mul(q as int, unit as int);
    }
    if neg {
        -(ru as i64)
    } else {
        ru as i64
    }
}

} // verus!
