//! Constant-product pricing: exact-in and exact-out amounts for one pool.
//!
//! A pool holding `reserve_in` of the input token and `reserve_out` of the
//! output token, charging `fee` out of [`FEE_BASE`], quotes
//!
//! * `amount_out = (x·(10000−fee)·R_out) / (R_in·10000 + x·(10000−fee))`
//! * `amount_in  = (R_in·y·10000) / ((R_out−y)·(10000−fee)) + 1`
//!
//! with truncating division. All intermediate products are checked and
//! reported as errors instead of panicking.

use vstd::prelude::*;
use vstd::arithmetic::div_mod::{
    lemma_fundamental_div_mod, lemma_div_is_ordered, lemma_div_denominator,
    lemma_div_multiples_vanish, lemma_div_pos_is_pos, lemma_div_basics_5, lemma_mod_bound,
    lemma_multiply_divide_lt,
};
use vstd::arithmetic::mul::{
    lemma_mul_is_commutative, lemma_mul_strictly_positive, lemma_mul_by_zero_is_zero,
    lemma_mul_nonnegative,
};
use crate::pair::ArbitrageError;

verus! {

/// Fees are denominated out of this base: a fee of 30 is 0.3%.
pub const FEE_BASE: u32 = 10000;

/// Mathematical exact-in quote, ignoring machine limits:
/// `(x·(10000−fee)·R_out) / (R_in·10000 + x·(10000−fee))`.
pub open spec fn math_out(rin: int, rout: int, x: int, fee: int) -> int {
    (x * (10000 - fee) * rout) / (rin * 10000 + x * (10000 - fee))
}

/// Mathematical exact-out quote, ignoring machine limits:
/// `(R_in·y·10000) / ((R_out−y)·(10000−fee)) + 1`.
pub open spec fn math_in(rin: int, rout: int, y: int, fee: int) -> int {
    (rin * y * 10000) / ((rout - y) * (10000 - fee)) + 1
}

/// What [`get_amount_out`] returns, including every failure case, in the
/// order the checks are made.
pub open spec fn amount_out_spec(rin: int, rout: int, x: int, fee: int) -> Result<
    u128,
    ArbitrageError,
> {
    let f = 10000 - fee;
    if rin == 0 || rout == 0 {
        Err(ArbitrageError::NoLiquidity)
    } else if fee > 10000 {
        Err(ArbitrageError::MathUnderflow)
    } else if x * f > u128::MAX {
        Err(ArbitrageError::MathOverflow)
    } else if x * f * rout > u128::MAX {
        Err(ArbitrageError::MathOverflow)
    } else if rin * 10000 > u128::MAX {
        Err(ArbitrageError::MathOverflow)
    } else if x * f + rin * 10000 > u128::MAX {
        Err(ArbitrageError::MathUnderflow)
    } else {
        Ok(math_out(rin, rout, x, fee) as u128)
    }
}

/// What [`get_amount_in`] returns, including every failure case, in the
/// order the checks are made. The final `+ 1` saturates at `u128::MAX`.
pub open spec fn amount_in_spec(rin: int, rout: int, y: int, fee: int) -> Result<
    u128,
    ArbitrageError,
> {
    let f = 10000 - fee;
    if rin == 0 || rout == 0 {
        Err(ArbitrageError::NoLiquidity)
    } else if y >= rout {
        Err(ArbitrageError::NoLiquidity)
    } else if fee > 10000 {
        Err(ArbitrageError::MathUnderflow)
    } else if rin * y > u128::MAX {
        Err(ArbitrageError::MathOverflow)
    } else if rin * y * 10000 > u128::MAX {
        Err(ArbitrageError::MathOverflow)
    } else if (rout - y) * f > u128::MAX {
        Err(ArbitrageError::MathOverflow)
    } else if f == 0 {
        Err(ArbitrageError::DivideByZero)
    } else if math_in(rin, rout, y, fee) > u128::MAX {
        Ok(u128::MAX)
    } else {
        Ok(math_in(rin, rout, y, fee) as u128)
    }
}

/// Exact-in quote with checked arithmetic.
///
/// Returns exactly [`amount_out_spec`]: `NoLiquidity` on an empty side,
/// `MathUnderflow` for a fee over the base (or, as a historical quirk kept
/// for parity, an overflowing denominator sum), `MathOverflow` for any
/// product that exceeds 128 bits, and otherwise the truncated quote.
pub fn get_amount_out(reserve_in: u128, reserve_out: u128, amount_in: u128, fee: u32) -> (r:
    Result<u128, ArbitrageError>)
    ensures
        r == amount_out_spec(reserve_in as int, reserve_out as int, amount_in as int, fee as int),
{
    if reserve_in == 0 || reserve_out == 0 {
        return Err(ArbitrageError::NoLiquidity);
    }
    let fee_ratio: u32 = match FEE_BASE.checked_sub(fee) {
        Some(f) => f,
        None => {
            return Err(ArbitrageError::MathUnderflow);
        },
    };
    let amount_with_fee: u128 = match amount_in.checked_mul(fee_ratio as u128) {
        Some(v) => v,
        None => {
            return Err(ArbitrageError::MathOverflow);
        },
    };
    let numerator: u128 = match amount_with_fee.checked_mul(reserve_out) {
        Some(v) => v,
        None => {
            return Err(ArbitrageError::MathOverflow);
        },
    };
    let denom_multi: u128 = match reserve_in.checked_mul(FEE_BASE as u128) {
        Some(v) => v,
        None => {
            return Err(ArbitrageError::MathOverflow);
        },
    };
    let denominator: u128 = match amount_with_fee.checked_add(denom_multi) {
        Some(v) => v,
        None => {
            return Err(ArbitrageError::MathUnderflow);
        },
    };
    proof {
        lemma_div_pos_is_pos(numerator as int, denominator as int);
        lemma_div_basics_5(numerator as int, denominator as int);
    }
    Ok(numerator / denominator)
}

/// Exact-out quote with checked arithmetic.
///
/// Returns exactly [`amount_in_spec`]: `NoLiquidity` on an empty side or a
/// requested output the pool cannot deliver (`y >= R_out`), `MathUnderflow`
/// for a fee over the base, `MathOverflow` for any product that exceeds 128
/// bits, `DivideByZero` when the whole trade is fee, and otherwise the
/// rounded-up quote, saturating at `u128::MAX`.
pub fn get_amount_in(reserve_in: u128, reserve_out: u128, amount_out: u128, fee: u32) -> (r:
    Result<u128, ArbitrageError>)
    ensures
        r == amount_in_spec(reserve_in as int, reserve_out as int, amount_out as int, fee as int),
{
    if reserve_in == 0 || reserve_out == 0 {
        return Err(ArbitrageError::NoLiquidity);
    }
    if amount_out >= reserve_out {
        return Err(ArbitrageError::NoLiquidity);
    }
    let fee_ratio: u32 = match FEE_BASE.checked_sub(fee) {
        Some(f) => f,
        None => {
            return Err(ArbitrageError::MathUnderflow);
        },
    };
    let part: u128 = match reserve_in.checked_mul(amount_out) {
        Some(v) => v,
        None => {
            return Err(ArbitrageError::MathOverflow);
        },
    };
    let numerator: u128 = match part.checked_mul(FEE_BASE as u128) {
        Some(v) => v,
        None => {
            return Err(ArbitrageError::MathOverflow);
        },
    };
    let denom_sub: u128 = reserve_out - amount_out;
    let denominator: u128 = match denom_sub.checked_mul(fee_ratio as u128) {
        Some(v) => v,
        None => {
            return Err(ArbitrageError::MathOverflow);
        },
    };
    if denominator == 0 {
        proof {
            lemma_mul_strictly_positive(denom_sub as int, fee_ratio as int);
        }
        return Err(ArbitrageError::DivideByZero);
    }
    let quotient: u128 = numerator / denominator;
    proof {
        if fee_ratio == 0 {
            lemma_mul_by_zero_is_zero(denom_sub as int);
        }
        lemma_div_pos_is_pos(numerator as int, denominator as int);
        lemma_div_basics_5(numerator as int, denominator as int);
    }
    match quotient.checked_add(1) {
        Some(v) => Ok(v),
        None => Ok(u128::MAX),
    }
}

/// A pool never quotes out more than its output reserve; the quote is also
/// never negative.
pub proof fn lemma_amount_out_lt_rout(rin: int, rout: int, x: int, fee: int)
    requires
        0 < rin,
        0 < rout,
        0 <= x,
        0 <= fee <= 10000,
    ensures
        0 <= math_out(rin, rout, x, fee) < rout,
{
    let f = 10000 - fee;
    let n = x * f * rout;
    let d = rin * 10000 + x * f;
    assert(0 < d && 0 <= n && n < d * rout) by (nonlinear_arith)
        requires
            0 < rin,
            0 < rout,
            0 <= x,
            0 <= f,
            n == x * f * rout,
            d == rin * 10000 + x * f,
    ;
    lemma_div_pos_is_pos(n, d);
    lemma_multiply_divide_lt(n, d, rout);
}

/// A zero input buys nothing: `amount_out(_, _, 0, _) == 0` wherever the
/// quote succeeds at all.
pub proof fn lemma_amount_out_zero(rin: int, rout: int, fee: int)
    requires
        0 < rin,
        0 < rout,
        0 <= fee <= 10000,
        rin * 10000 <= u128::MAX,
    ensures
        amount_out_spec(rin, rout, 0, fee) == Ok::<u128, ArbitrageError>(0),
{
    let f = 10000 - fee;
    assert(0 * f == 0) by (nonlinear_arith);
    assert(0 * f * rout == 0) by (nonlinear_arith);
    assert(0 < rin * 10000) by (nonlinear_arith)
        requires
            0 < rin,
    ;
    assert(0int / (rin * 10000 + 0 * f) == 0) by {
        vstd::arithmetic::div_mod::lemma_div_basics_1(rin * 10000 + 0 * f);
    }
}

/// A zero requested output costs exactly one unit:
/// `amount_in(_, _, 0, _) == 1` wherever the quote succeeds at all.
pub proof fn lemma_amount_in_zero(rin: int, rout: int, fee: int)
    requires
        0 < rin,
        0 < rout,
        0 <= fee < 10000,
        rout * (10000 - fee) <= u128::MAX,
    ensures
        amount_in_spec(rin, rout, 0, fee) == Ok::<u128, ArbitrageError>(1),
{
    let f = 10000 - fee;
    assert(rin * 0 == 0) by (nonlinear_arith);
    assert(rin * 0 * 10000 == 0) by (nonlinear_arith);
    assert(0 < (rout - 0) * f) by (nonlinear_arith)
        requires
            0 < rout,
            0 < f,
    ;
    assert(0int / ((rout - 0) * f) == 0) by {
        vstd::arithmetic::div_mod::lemma_div_basics_1((rout - 0) * f);
    }
}

/// A successful quote for a zero input is zero, whatever the reserves.
pub proof fn lemma_math_out_zero_input(rin: int, rout: int, fee: int)
    requires
        0 < rin,
        fee <= 10000,
    ensures
        math_out(rin, rout, 0, fee) == 0,
{
    let f = 10000 - fee;
    assert(0 * f == 0) by (nonlinear_arith);
    assert(0 * f * rout == 0) by (nonlinear_arith);
    assert(0 < rin * 10000) by (nonlinear_arith)
        requires
            0 < rin,
    ;
    assert(0int / (rin * 10000 + 0 * f) == 0) by {
        vstd::arithmetic::div_mod::lemma_div_basics_1(rin * 10000 + 0 * f);
    }
}

/// The exact-in quote is monotone non-decreasing in the input amount.
pub proof fn lemma_amount_out_monotone(rin: int, rout: int, fee: int, x1: int, x2: int)
    requires
        0 < rin,
        0 <= rout,
        0 <= fee <= 10000,
        0 <= x1 <= x2,
    ensures
        math_out(rin, rout, x1, fee) <= math_out(rin, rout, x2, fee),
{
    let f = 10000 - fee;
    let n1 = x1 * f * rout;
    let d1 = rin * 10000 + x1 * f;
    let n2 = x2 * f * rout;
    let d2 = rin * 10000 + x2 * f;
    assert(0 < d1 && 0 < d2 && 0 <= n1 && 0 <= n2 && n1 * d2 <= n2 * d1) by (nonlinear_arith)
        requires
            0 < rin,
            0 <= rout,
            0 <= f,
            0 <= x1 <= x2,
            n1 == x1 * f * rout,
            d1 == rin * 10000 + x1 * f,
            n2 == x2 * f * rout,
            d2 == rin * 10000 + x2 * f,
    ;
    lemma_mul_strictly_positive(d1, d2);
    lemma_mul_nonnegative(n1, d2);
    lemma_div_is_ordered(n1 * d2, n2 * d1, d1 * d2);
    lemma_div_denominator(n1 * d2, d2, d1);
    lemma_mul_is_commutative(n1, d2);
    lemma_div_multiples_vanish(n1, d2);
    lemma_mul_is_commutative(d2, d1);
    lemma_div_denominator(n2 * d1, d1, d2);
    lemma_mul_is_commutative(n2, d1);
    lemma_div_multiples_vanish(n2, d1);
    assert(n1 / d1 == (n1 * d2) / (d1 * d2));
    assert(n2 / d2 == (n2 * d1) / (d1 * d2));
}

/// Round-trip safety. If the exact-in quote strictly increased at `x` (that
/// is, `x` is the smallest input buying its own output), then quoting the
/// input needed for that output demands at least `x` back. Inputs on a
/// plateau of the truncated quote are excluded: for them a smaller input
/// already buys the same output, so the reverse quote is below `x`.
pub proof fn lemma_round_trip(rin: int, rout: int, x: int, fee: int)
    requires
        0 < rin,
        0 < rout,
        0 < x,
        0 <= fee < 10000,
        math_out(rin, rout, x - 1, fee) < math_out(rin, rout, x, fee),
    ensures
        math_in(rin, rout, math_out(rin, rout, x, fee), fee) >= x,
{
    let f = 10000 - fee;
    let a = rin * 10000;
    let y = math_out(rin, rout, x, fee);
    let yp = math_out(rin, rout, x - 1, fee);
    let np = (x - 1) * f * rout;
    let dp = a + (x - 1) * f;
    assert(0 < dp && 0 <= np) by (nonlinear_arith)
        requires
            0 < rin,
            0 < rout,
            0 < f,
            0 < x,
            np == (x - 1) * f * rout,
            dp == rin * 10000 + (x - 1) * f,
            a == rin * 10000,
    ;
    lemma_fundamental_div_mod(np, dp);
    lemma_mod_bound(np, dp);
    let rp = np % dp;
    assert(np < dp * y) by (nonlinear_arith)
        requires
            np == dp * yp + rp,
            0 <= rp < dp,
            yp < y,
            0 < dp,
    ;
    assert((x - 1) * f * (rout - y) < a * y) by (nonlinear_arith)
        requires
            np == (x - 1) * f * rout,
            dp == a + (x - 1) * f,
            np < dp * y,
    ;
    lemma_amount_out_lt_rout(rin, rout, x, fee);
    let den = (rout - y) * f;
    let num = rin * y * 10000;
    assert(0 < den && num == a * y && (x - 1) * den < num) by (nonlinear_arith)
        requires
            0 < f,
            0 <= y < rout,
            num == rin * y * 10000,
            a == rin * 10000,
            den == (rout - y) * f,
            (x - 1) * f * (rout - y) < a * y,
    ;
    lemma_fundamental_div_mod(num, den);
    lemma_mod_bound(num, den);
    let q = num / den;
    let rr = num % den;
    assert(q >= x - 1) by (nonlinear_arith)
        requires
            num == den * q + rr,
            0 <= rr < den,
            (x - 1) * den < num,
            0 < den,
    ;
}

} // verus!
