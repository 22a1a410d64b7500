//! Two-phase evaluation of a parsed expression, as the puzzle defines it:
//! first checked 32-bit integer arithmetic, where every division must be
//! exact; when a division is inexact the whole expression is re-evaluated
//! with exact rationals, and the final value must then be an integer.

use vstd::prelude::*;
use vstd::arithmetic::div_mod::{lemma_fundamental_div_mod, lemma_fundamental_div_mod_converse};
use crate::parse::{
    Expr, IntOutcome, in_i32, iabs, int_div, eval_i32_s, eval_rat_s, rat_fits_s, sp_parse,
    ex_parse,
};
use crate::ratio::{rat_add_ex, rat_sub_ex, rat_mul_ex, rat_div_ex, rat_pow_ex, rat_to_int_ex};
use crate::text::str_chars;

verus! {

/// Why an equation string was rejected.
#[derive(Debug, Clone, Copy, PartialEq, Eq)]
pub enum EvalError {
    /// The grammar rejects the string, or characters are left over.
    SyntaxError,
    /// A checked operation overflowed, a division by zero was attempted, or
    /// the rational fallback could not recover a value.
    ArithmeticOverflow,
    /// The rational pass completed but the final value is not an integer.
    NonIntegerResult,
}

/// Failure of the integer pass alone.
enum PassErr {
    Overflow,
    NonIntDiv,
}

/// Fraction equality is transitive; the middle denominator must be nonzero.
proof fn lemma_frac_trans(a: int, b: int, c: int, d: int, e: int, f: int)
    requires
        d != 0,
        a * d == c * b,
        c * f == e * d,
    ensures
        a * f == e * b,
{
    assert(a * f * d == e * b * d) by (nonlinear_arith)
        requires
            a * d == c * b,
            c * f == e * d,
    ;
    assert(a * f == e * b) by (nonlinear_arith)
        requires
            d != 0,
            a * f * d == e * b * d,
    ;
}

/// The exact sum of two fractions equals the sum of equal fractions.
proof fn lemma_add_cong(
    n1: int, d1: int, sn1: int, sd1: int,
    n2: int, d2: int, sn2: int, sd2: int,
    n: int, d: int,
)
    requires
        d1 != 0,
        d2 != 0,
        sd1 != 0,
        sd2 != 0,
        n1 * sd1 == sn1 * d1,
        n2 * sd2 == sn2 * d2,
        n * (d1 * d2) == (n1 * d2 + n2 * d1) * d,
    ensures
        n * (sd1 * sd2) == (sn1 * sd2 + sn2 * sd1) * d,
        sd1 * sd2 != 0,
{
    assert((n1 * d2) * (sd1 * sd2) == (sn1 * sd2) * (d1 * d2)) by (nonlinear_arith)
        requires
            n1 * sd1 == sn1 * d1,
    ;
    assert((n2 * d1) * (sd1 * sd2) == (sn2 * sd1) * (d1 * d2)) by (nonlinear_arith)
        requires
            n2 * sd2 == sn2 * d2,
    ;
    assert((n1 * d2 + n2 * d1) * (sd1 * sd2) == (sn1 * sd2 + sn2 * sd1) * (d1 * d2))
        by (nonlinear_arith)
        requires
            (n1 * d2) * (sd1 * sd2) == (sn1 * sd2) * (d1 * d2),
            (n2 * d1) * (sd1 * sd2) == (sn2 * sd1) * (d1 * d2),
    ;
    assert(d1 * d2 != 0) by (nonlinear_arith)
        requires
            d1 != 0,
            d2 != 0,
    ;
    assert(sd1 * sd2 != 0) by (nonlinear_arith)
        requires
            sd1 != 0,
            sd2 != 0,
    ;
    lemma_frac_trans(n, d, n1 * d2 + n2 * d1, d1 * d2, sn1 * sd2 + sn2 * sd1, sd1 * sd2);
}

/// The exact difference of two fractions equals the difference of equal
/// fractions.
proof fn lemma_sub_cong(
    n1: int, d1: int, sn1: int, sd1: int,
    n2: int, d2: int, sn2: int, sd2: int,
    n: int, d: int,
)
    requires
        d1 != 0,
        d2 != 0,
        sd1 != 0,
        sd2 != 0,
        n1 * sd1 == sn1 * d1,
        n2 * sd2 == sn2 * d2,
        n * (d1 * d2) == (n1 * d2 - n2 * d1) * d,
    ensures
        n * (sd1 * sd2) == (sn1 * sd2 - sn2 * sd1) * d,
        sd1 * sd2 != 0,
{
    assert((n1 * d2) * (sd1 * sd2) == (sn1 * sd2) * (d1 * d2)) by (nonlinear_arith)
        requires
            n1 * sd1 == sn1 * d1,
    ;
    assert((n2 * d1) * (sd1 * sd2) == (sn2 * sd1) * (d1 * d2)) by (nonlinear_arith)
        requires
            n2 * sd2 == sn2 * d2,
    ;
    assert((n1 * d2 - n2 * d1) * (sd1 * sd2) == (sn1 * sd2 - sn2 * sd1) * (d1 * d2))
        by (nonlinear_arith)
        requires
            (n1 * d2) * (sd1 * sd2) == (sn1 * sd2) * (d1 * d2),
            (n2 * d1) * (sd1 * sd2) == (sn2 * sd1) * (d1 * d2),
    ;
    assert(d1 * d2 != 0) by (nonlinear_arith)
        requires
            d1 != 0,
            d2 != 0,
    ;
    assert(sd1 * sd2 != 0) by (nonlinear_arith)
        requires
            sd1 != 0,
            sd2 != 0,
    ;
    lemma_frac_trans(n, d, n1 * d2 - n2 * d1, d1 * d2, sn1 * sd2 - sn2 * sd1, sd1 * sd2);
}

/// The exact product of two fractions equals the product of equal fractions.
proof fn lemma_mul_cong(
    n1: int, d1: int, sn1: int, sd1: int,
    n2: int, d2: int, sn2: int, sd2: int,
    n: int, d: int,
)
    requires
        d1 != 0,
        d2 != 0,
        sd1 != 0,
        sd2 != 0,
        n1 * sd1 == sn1 * d1,
        n2 * sd2 == sn2 * d2,
        n * (d1 * d2) == (n1 * n2) * d,
    ensures
        n * (sd1 * sd2) == (sn1 * sn2) * d,
        sd1 * sd2 != 0,
{
    assert((n1 * sd1) * (n2 * sd2) == (sn1 * d1) * (sn2 * d2)) by (nonlinear_arith)
        requires
            n1 * sd1 == sn1 * d1,
            n2 * sd2 == sn2 * d2,
    ;
    assert((n1 * n2) * (sd1 * sd2) == (sn1 * sn2) * (d1 * d2)) by (nonlinear_arith)
        requires
            (n1 * sd1) * (n2 * sd2) == (sn1 * d1) * (sn2 * d2),
    ;
    assert(d1 * d2 != 0) by (nonlinear_arith)
        requires
            d1 != 0,
            d2 != 0,
    ;
    assert(sd1 * sd2 != 0) by (nonlinear_arith)
        requires
            sd1 != 0,
            sd2 != 0,
    ;
    lemma_frac_trans(n, d, n1 * n2, d1 * d2, sn1 * sn2, sd1 * sd2);
}

/// The exact quotient of two fractions equals the quotient of equal
/// fractions; the divisor must be nonzero.
proof fn lemma_div_cong(
    n1: int, d1: int, sn1: int, sd1: int,
    n2: int, d2: int, sn2: int, sd2: int,
    n: int, d: int,
)
    requires
        d1 != 0,
        d2 != 0,
        sd1 != 0,
        sd2 != 0,
        n2 != 0,
        sn2 != 0,
        n1 * sd1 == sn1 * d1,
        n2 * sd2 == sn2 * d2,
        n * (d1 * n2) == (n1 * d2) * d,
    ensures
        n * (sd1 * sn2) == (sn1 * sd2) * d,
        sd1 * sn2 != 0,
{
    assert((n1 * sd1) * (d2 * sn2) == (sn1 * d1) * (d2 * sn2)) by (nonlinear_arith)
        requires
            n1 * sd1 == sn1 * d1,
    ;
    assert((d2 * sn2) * (sn1 * d1) == (sd2 * n2) * (sn1 * d1)) by (nonlinear_arith)
        requires
            n2 * sd2 == sn2 * d2,
    ;
    assert((n1 * d2) * (sd1 * sn2) == (sn1 * sd2) * (d1 * n2)) by (nonlinear_arith)
        requires
            (n1 * sd1) * (d2 * sn2) == (sn1 * d1) * (d2 * sn2),
            (d2 * sn2) * (sn1 * d1) == (sd2 * n2) * (sn1 * d1),
    ;
    assert(d1 * n2 != 0) by (nonlinear_arith)
        requires
            d1 != 0,
            n2 != 0,
    ;
    assert(sd1 * sn2 != 0) by (nonlinear_arith)
        requires
            sd1 != 0,
            sn2 != 0,
    ;
    lemma_frac_trans(n, d, n1 * d2, d1 * n2, sn1 * sd2, sd1 * sn2);
}

/// The exact square of a fraction equals the square of an equal fraction.
proof fn lemma_square_cong(n1: int, d1: int, sn1: int, sd1: int, n: int, d: int)
    requires
        d1 != 0,
        sd1 != 0,
        n1 * sd1 == sn1 * d1,
        n * (d1 * d1) == (n1 * n1) * d,
    ensures
        n * (sd1 * sd1) == (sn1 * sn1) * d,
        sd1 * sd1 != 0,
{
    lemma_mul_cong(n1, d1, sn1, sd1, n1, d1, sn1, sd1, n, d);
}

/// The exact cube of a fraction equals the cube of an equal fraction.
proof fn lemma_cube_cong(n1: int, d1: int, sn1: int, sd1: int, n: int, d: int)
    requires
        d1 != 0,
        sd1 != 0,
        n1 * sd1 == sn1 * d1,
        n * (d1 * d1 * d1) == (n1 * n1 * n1) * d,
    ensures
        n * (sd1 * sd1 * sd1) == (sn1 * sn1 * sn1) * d,
        sd1 * sd1 * sd1 != 0,
{
    assert((n1 * n1 * n1) * (sd1 * sd1 * sd1) == (sn1 * sn1 * sn1) * (d1 * d1 * d1))
        by (nonlinear_arith)
        requires
            n1 * sd1 == sn1 * d1,
    ;
    assert(d1 * d1 * d1 != 0) by (nonlinear_arith)
        requires
            d1 != 0,
    ;
    assert(sd1 * sd1 * sd1 != 0) by (nonlinear_arith)
        requires
            sd1 != 0,
    ;
    lemma_frac_trans(n, d, n1 * n1 * n1, d1 * d1 * d1, sn1 * sn1 * sn1, sd1 * sd1 * sd1);
}

/// Bounds of the Euclidean remainder, for either sign of the divisor.
#[verifier::nonlinear]
proof fn lemma_mod_range_any(x: int, d: int)
    requires
        d != 0,
    ensures
        0 <= x % d < iabs(d),
{
}

/// Whether one fraction is an integer transfers along fraction equality.
proof fn lemma_divisibility_transfer(n: int, d: int, sn: int, sd: int)
    requires
        d > 0,
        sd != 0,
        n * sd == sn * d,
    ensures
        (n % d == 0) <==> (sn % sd == 0),
        n % d == 0 ==> (n / d) * sd == sn,
{
    if n % d == 0 {
        lemma_fundamental_div_mod(n, d);
        let v = n / d;
        assert(n == d * v);
        assert(v * sd * d == sn * d) by (nonlinear_arith)
            requires
                n == d * v,
                n * sd == sn * d,
        ;
        assert(v * sd == sn) by (nonlinear_arith)
            requires
                d != 0,
                v * sd * d == sn * d,
        ;
        lemma_fundamental_div_mod(sn, sd);
        lemma_mod_range_any(sn, sd);
        let q = sn / sd;
        let m = sn % sd;
        assert(m == 0) by (nonlinear_arith)
            requires
                sd != 0,
                sn == sd * q + m,
                0 <= m < iabs(sd),
                sn == v * sd,
        ;
    } else {
        if sn % sd == 0 {
            lemma_fundamental_div_mod(sn, sd);
            let w = sn / sd;
            assert(sn == sd * w);
            assert(n * sd == w * d * sd) by (nonlinear_arith)
                requires
                    sn == sd * w,
                    n * sd == sn * d,
            ;
            assert(n == w * d) by (nonlinear_arith)
                requires
                    sd != 0,
                    n * sd == w * d * sd,
            ;
            lemma_fundamental_div_mod_converse(n, d, w, 0);
            assert(n % d == 0);
        }
    }
}

/// Checked 32-bit multiplication, proved against the mathematical product.
fn checked_mul_i32(x: i32, y: i32) -> (r: Option<i32>)
    ensures
        match r {
            Some(v) => in_i32((x as int) * (y as int)) && v as int == (x as int) * (y as int),
            None => !in_i32((x as int) * (y as int)),
        },
{
    proof {
        assert(-0x4000_0000_0000_0000 <= (x as int) * (y as int) <= 0x4000_0000_0000_0000)
            by (nonlinear_arith)
            requires
                -0x8000_0000 <= x as int <= 0x7fff_ffff,
                -0x8000_0000 <= y as int <= 0x7fff_ffff,
        ;
    }
    let s = x as i64 * y as i64;
    if s < -0x8000_0000i64 || s > 0x7fff_ffffi64 {
        None
    } else {
        Some(s as i32)
    }
}

/// Exact signed division: the distinguished inexact signal, or the quotient.
fn exact_div_i32(x: i32, y: i32) -> (r: Result<i32, PassErr>)
    ensures
        match int_div(IntOutcome::Val(x as int), IntOutcome::Val(y as int)) {
            IntOutcome::Val(v) => r matches Ok(q) && q as int == v,
            IntOutcome::NonIntDiv => r == Err::<i32, PassErr>(PassErr::NonIntDiv),
            IntOutcome::Hard => r == Err::<i32, PassErr>(PassErr::Overflow),
        },
{
    if y == 0 {
        return Err(PassErr::Overflow);
    }
    let xa: u64 = if x >= 0 {
        x as u64
    } else {
        (-(x as i64)) as u64
    };
    let ya: u64 = if y >= 0 {
        y as u64
    } else {
        (-(y as i64)) as u64
    };
    let rem = xa % ya;
    if rem != 0 {
        return Err(PassErr::NonIntDiv);
    }
    let qm = xa / ya;
    proof {
        lemma_fundamental_div_mod(xa as int, ya as int);
        assert(qm as int <= xa as int) by (nonlinear_arith)
            requires
                xa as int == ya as int * (qm as int) + 0,
                ya as int >= 1,
                qm as int >= 0,
        ;
    }
    let neg = (x < 0) != (y < 0);
    let q: i64 = if neg {
        -(qm as i64)
    } else {
        qm as i64
    };
    if q < -0x8000_0000i64 || q > 0x7fff_ffffi64 {
        Err(PassErr::Overflow)
    } else {
        Ok(q as i32)
    }
}

/// The integer pass: checked 32-bit arithmetic with exact division only.
#[verifier::rlimit(30)]
fn eval_int(e: &Expr) -> (r: Result<i32, PassErr>)
    ensures
        match eval_i32_s(*e) {
            IntOutcome::Val(v) => r matches Ok(x) && x as int == v,
            IntOutcome::NonIntDiv => r == Err::<i32, PassErr>(PassErr::NonIntDiv),
            IntOutcome::Hard => r == Err::<i32, PassErr>(PassErr::Overflow),
        },
    decreases *e,
{
    match e {
        Expr::Lit(v) => Ok(*v),
        Expr::Add(a, b) => {
            let x = match eval_int(&**a) {
                Ok(v) => v,
                Err(er) => return Err(er),
            };
            let y = match eval_int(&**b) {
                Ok(v) => v,
                Err(er) => return Err(er),
            };
            let s = x as i64 + y as i64;
            if s < -0x8000_0000i64 || s > 0x7fff_ffffi64 {
                Err(PassErr::Overflow)
            } else {
                Ok(s as i32)
            }
        },
        Expr::Sub(a, b) => {
            let x = match eval_int(&**a) {
                Ok(v) => v,
                Err(er) => return Err(er),
            };
            let y = match eval_int(&**b) {
                Ok(v) => v,
                Err(er) => return Err(er),
            };
            let s = x as i64 - y as i64;
            if s < -0x8000_0000i64 || s > 0x7fff_ffffi64 {
                Err(PassErr::Overflow)
            } else {
                Ok(s as i32)
            }
        },
        Expr::Mul(a, b) => {
            let x = match eval_int(&**a) {
                Ok(v) => v,
                Err(er) => return Err(er),
            };
            let y = match eval_int(&**b) {
                Ok(v) => v,
                Err(er) => return Err(er),
            };
            match checked_mul_i32(x, y) {
                Some(v) => Ok(v),
                None => Err(PassErr::Overflow),
            }
        },
        Expr::Div(a, b) => {
            let x = match eval_int(&**a) {
                Ok(v) => v,
                Err(er) => return Err(er),
            };
            let y = match eval_int(&**b) {
                Ok(v) => v,
                Err(er) => return Err(er),
            };
            exact_div_i32(x, y)
        },
        Expr::Square(a) => {
            let x = match eval_int(&**a) {
                Ok(v) => v,
                Err(er) => return Err(er),
            };
            match checked_mul_i32(x, x) {
                Some(v) => Ok(v),
                None => Err(PassErr::Overflow),
            }
        },
        Expr::Cube(a) => {
            let x = match eval_int(&**a) {
                Ok(v) => v,
                Err(er) => return Err(er),
            };
            let s2 = match checked_mul_i32(x, x) {
                Some(v) => v,
                None => return Err(PassErr::Overflow),
            };
            match checked_mul_i32(s2, x) {
                Some(v) => Ok(v),
                None => Err(PassErr::Overflow),
            }
        },
    }
}


/// Magnitude is multiplicative.
proof fn lemma_abs_mul(x: int, y: int)
    ensures
        iabs(x * y) == iabs(x) * iabs(y),
{
    if x >= 0 && y >= 0 {
        assert(x * y >= 0) by (nonlinear_arith)
            requires
                x >= 0,
                y >= 0,
        ;
    } else if x < 0 && y >= 0 {
        assert(x * y <= 0 && (-x) * y == -(x * y)) by (nonlinear_arith)
            requires
                x < 0,
                y >= 0,
        ;
    } else if x >= 0 && y < 0 {
        assert(x * y <= 0 && x * (-y) == -(x * y)) by (nonlinear_arith)
            requires
                x >= 0,
                y < 0,
        ;
    } else {
        assert(x * y >= 0 && (-x) * (-y) == x * y) by (nonlinear_arith)
            requires
                x < 0,
                y < 0,
        ;
    }
}

/// Bounded factors give a bounded product.
proof fn lemma_mul_mag_le(x: int, y: int, xb: int, yb: int)
    requires
        iabs(x) <= xb,
        iabs(y) <= yb,
    ensures
        iabs(x * y) <= xb * yb,
{
    lemma_abs_mul(x, y);
    assert(iabs(x) * iabs(y) <= xb * yb) by (nonlinear_arith)
        requires
            0 <= iabs(x) <= xb,
            0 <= iabs(y) <= yb,
    ;
}

/// A fraction equal to another, with a denominator no larger in magnitude,
/// has a numerator no larger in magnitude.
proof fn lemma_frac_mag(n: int, d: int, sn: int, sd: int)
    requires
        d > 0,
        sd != 0,
        d <= iabs(sd),
        n * sd == sn * d,
    ensures
        iabs(n) <= iabs(sn),
{
    lemma_abs_mul(n, sd);
    lemma_abs_mul(sn, d);
    assert(iabs(n * sd) == iabs(sn * d));
    assert(iabs(n) <= iabs(sn)) by (nonlinear_arith)
        requires
            iabs(n) * iabs(sd) == iabs(sn) * d,
            0 < d <= iabs(sd),
            0 <= iabs(n),
            0 <= iabs(sn),
    ;
}

/// The unreduced executable sum and difference equal the specification's as
/// fractions.
proof fn lemma_addsub_mid(
    n1: int, d1: int, sn1: int, sd1: int,
    n2: int, d2: int, sn2: int, sd2: int,
)
    requires
        n1 * sd1 == sn1 * d1,
        n2 * sd2 == sn2 * d2,
    ensures
        (n1 * d2 + n2 * d1) * (sd1 * sd2) == (sn1 * sd2 + sn2 * sd1) * (d1 * d2),
        (n1 * d2 - n2 * d1) * (sd1 * sd2) == (sn1 * sd2 - sn2 * sd1) * (d1 * d2),
{
    assert((n1 * d2) * (sd1 * sd2) == (sn1 * sd2) * (d1 * d2)) by (nonlinear_arith)
        requires
            n1 * sd1 == sn1 * d1,
    ;
    assert((n2 * d1) * (sd1 * sd2) == (sn2 * sd1) * (d1 * d2)) by (nonlinear_arith)
        requires
            n2 * sd2 == sn2 * d2,
    ;
    assert((n1 * d2 + n2 * d1) * (sd1 * sd2) == (sn1 * sd2 + sn2 * sd1) * (d1 * d2)
        && (n1 * d2 - n2 * d1) * (sd1 * sd2) == (sn1 * sd2 - sn2 * sd1) * (d1 * d2))
        by (nonlinear_arith)
        requires
            (n1 * d2) * (sd1 * sd2) == (sn1 * sd2) * (d1 * d2),
            (n2 * d1) * (sd1 * sd2) == (sn2 * sd1) * (d1 * d2),
    ;
}

/// The executable operands of a binary rational step stay within the
/// magnitudes of the specification's unreduced products.
proof fn lemma_pair_ready(
    n1: int, d1: int, sn1: int, sd1: int,
    n2: int, d2: int, sn2: int, sd2: int,
)
    requires
        d1 > 0,
        d2 > 0,
        sd1 != 0,
        sd2 != 0,
        d1 <= iabs(sd1),
        d2 <= iabs(sd2),
        n1 * sd1 == sn1 * d1,
        n2 * sd2 == sn2 * d2,
    ensures
        iabs(n1 * d2) <= iabs(sn1 * sd2),
        iabs(n2 * d1) <= iabs(sn2 * sd1),
        iabs(n1 * n2) <= iabs(sn1 * sn2),
        iabs(d1 * n2) <= iabs(sd1 * sn2),
        d1 * d2 <= iabs(sd1 * sd2),
        d1 * d2 > 0,
        sd1 * sd2 != 0,
        iabs(n1 * d2 + n2 * d1) <= iabs(sn1 * sd2 + sn2 * sd1),
        iabs(n1 * d2 - n2 * d1) <= iabs(sn1 * sd2 - sn2 * sd1),
{
    lemma_frac_mag(n1, d1, sn1, sd1);
    lemma_frac_mag(n2, d2, sn2, sd2);
    lemma_mul_mag_le(n1, d2, iabs(sn1), iabs(sd2));
    lemma_abs_mul(sn1, sd2);
    lemma_mul_mag_le(n2, d1, iabs(sn2), iabs(sd1));
    lemma_abs_mul(sn2, sd1);
    lemma_mul_mag_le(n1, n2, iabs(sn1), iabs(sn2));
    lemma_abs_mul(sn1, sn2);
    lemma_mul_mag_le(d1, n2, iabs(sd1), iabs(sn2));
    lemma_abs_mul(sd1, sn2);
    lemma_mul_mag_le(d1, d2, iabs(sd1), iabs(sd2));
    lemma_abs_mul(sd1, sd2);
    assert(d1 * d2 > 0 && iabs(d1 * d2) == d1 * d2) by (nonlinear_arith)
        requires
            d1 > 0,
            d2 > 0,
    ;
    assert(sd1 * sd2 != 0) by (nonlinear_arith)
        requires
            sd1 != 0,
            sd2 != 0,
    ;
    lemma_addsub_mid(n1, d1, sn1, sd1, n2, d2, sn2, sd2);
    lemma_frac_mag(n1 * d2 + n2 * d1, d1 * d2, sn1 * sd2 + sn2 * sd1, sd1 * sd2);
    lemma_frac_mag(n1 * d2 - n2 * d1, d1 * d2, sn1 * sd2 - sn2 * sd1, sd1 * sd2);
}

/// The executable operand of a power step stays within the magnitudes of the
/// specification's unreduced powers.
proof fn lemma_pow_ready(n1: int, d1: int, sn1: int, sd1: int)
    requires
        d1 > 0,
        sd1 != 0,
        d1 <= iabs(sd1),
        n1 * sd1 == sn1 * d1,
    ensures
        iabs(n1 * n1) <= iabs(sn1 * sn1),
        d1 * d1 <= iabs(sd1 * sd1),
        iabs(n1 * n1 * n1) <= iabs(sn1 * sn1 * sn1),
        d1 * d1 * d1 <= iabs(sd1 * sd1 * sd1),
        d1 * d1 > 0,
        sd1 * sd1 != 0,
        sd1 * sd1 * sd1 != 0,
        d1 * d1 * d1 > 0,
{
    lemma_frac_mag(n1, d1, sn1, sd1);
    lemma_mul_mag_le(n1, n1, iabs(sn1), iabs(sn1));
    lemma_abs_mul(sn1, sn1);
    lemma_mul_mag_le(n1 * n1, n1, iabs(sn1 * sn1), iabs(sn1));
    lemma_abs_mul(sn1 * sn1, sn1);
    lemma_mul_mag_le(d1, d1, iabs(sd1), iabs(sd1));
    lemma_abs_mul(sd1, sd1);
    lemma_mul_mag_le(d1 * d1, d1, iabs(sd1 * sd1), iabs(sd1));
    lemma_abs_mul(sd1 * sd1, sd1);
    assert(d1 * d1 > 0 && d1 * d1 * d1 > 0 && iabs(d1 * d1) == d1 * d1 && iabs(d1 * d1 * d1)
        == d1 * d1 * d1) by (nonlinear_arith)
        requires
            d1 > 0,
    ;
    assert(sd1 * sd1 != 0 && sd1 * sd1 * sd1 != 0) by (nonlinear_arith)
        requires
            sd1 != 0,
    ;
}

/// The rational pass: a returned pair is the exact value of the expression,
/// with a positive denominator. `None` covers division by zero and any
/// overflow of the 32-bit rational representation.
fn eval_rat(e: &Expr) -> (r: Option<(i32, i32)>)
    ensures
        r matches Some((n, d)) ==> d > 0 && (eval_rat_s(*e) matches Some((sn, sd)) && sd != 0 && (
        n as int) * sd == sn * (d as int) && (d as int) <= iabs(sd)),
        rat_fits_s(*e) && eval_rat_s(*e) is Some ==> r is Some,
    decreases *e,
{
    match e {
        Expr::Lit(v) => Some((*v, 1)),
        Expr::Add(a, b) => {
            let (n1, d1) = match eval_rat(&**a) {
                Some(p) => p,
                None => {
                    return None;
                },
            };
            let (n2, d2) = match eval_rat(&**b) {
                Some(p) => p,
                None => {
                    return None;
                },
            };
            let r = rat_add_ex(n1, d1, n2, d2);
            proof {
                let (sn1, sd1) = eval_rat_s(**a)->Some_0;
                let (sn2, sd2) = eval_rat_s(**b)->Some_0;
                lemma_pair_ready(
                    n1 as int, d1 as int, sn1, sd1,
                    n2 as int, d2 as int, sn2, sd2,
                );
                lemma_abs_mul(sd1, sd2);
                if let Some((n, d)) = r {
                    lemma_add_cong(
                        n1 as int, d1 as int, sn1, sd1,
                        n2 as int, d2 as int, sn2, sd2,
                        n as int, d as int,
                    );
                }
                if rat_fits_s(*e) && eval_rat_s(*e) is Some {
                    assert(r is Some);
                }
            }
            r
        },
        Expr::Sub(a, b) => {
            let (n1, d1) = match eval_rat(&**a) {
                Some(p) => p,
                None => {
                    return None;
                },
            };
            let (n2, d2) = match eval_rat(&**b) {
                Some(p) => p,
                None => {
                    return None;
                },
            };
            let r = rat_sub_ex(n1, d1, n2, d2);
            proof {
                let (sn1, sd1) = eval_rat_s(**a)->Some_0;
                let (sn2, sd2) = eval_rat_s(**b)->Some_0;
                lemma_pair_ready(
                    n1 as int, d1 as int, sn1, sd1,
                    n2 as int, d2 as int, sn2, sd2,
                );
                lemma_abs_mul(sd1, sd2);
                if let Some((n, d)) = r {
                    lemma_sub_cong(
                        n1 as int, d1 as int, sn1, sd1,
                        n2 as int, d2 as int, sn2, sd2,
                        n as int, d as int,
                    );
                }
                if rat_fits_s(*e) && eval_rat_s(*e) is Some {
                    assert(r is Some);
                }
            }
            r
        },
        Expr::Mul(a, b) => {
            let (n1, d1) = match eval_rat(&**a) {
                Some(p) => p,
                None => {
                    return None;
                },
            };
            let (n2, d2) = match eval_rat(&**b) {
                Some(p) => p,
                None => {
                    return None;
                },
            };
            let r = rat_mul_ex(n1, d1, n2, d2);
            proof {
                let (sn1, sd1) = eval_rat_s(**a)->Some_0;
                let (sn2, sd2) = eval_rat_s(**b)->Some_0;
                lemma_pair_ready(
                    n1 as int, d1 as int, sn1, sd1,
                    n2 as int, d2 as int, sn2, sd2,
                );
                lemma_abs_mul(sd1, sd2);
                if let Some((n, d)) = r {
                    lemma_mul_cong(
                        n1 as int, d1 as int, sn1, sd1,
                        n2 as int, d2 as int, sn2, sd2,
                        n as int, d as int,
                    );
                }
                if rat_fits_s(*e) && eval_rat_s(*e) is Some {
                    assert(r is Some);
                }
            }
            r
        },
        Expr::Div(a, b) => {
            let (n1, d1) = match eval_rat(&**a) {
                Some(p) => p,
                None => {
                    return None;
                },
            };
            let (n2, d2) = match eval_rat(&**b) {
                Some(p) => p,
                None => {
                    return None;
                },
            };
            if n2 == 0 {
                proof {
                    let (sn2, sd2) = eval_rat_s(**b)->Some_0;
                    assert(sn2 == 0) by (nonlinear_arith)
                        requires
                            0 * sd2 == sn2 * (d2 as int),
                            d2 > 0,
                    ;
                }
                return None;
            }
            let r = rat_div_ex(n1, d1, n2, d2);
            proof {
                let (sn1, sd1) = eval_rat_s(**a)->Some_0;
                let (sn2, sd2) = eval_rat_s(**b)->Some_0;
                assert(sn2 != 0) by (nonlinear_arith)
                    requires
                        (n2 as int) * sd2 == sn2 * (d2 as int),
                        n2 != 0,
                        sd2 != 0,
                        d2 > 0,
                ;
                lemma_pair_ready(
                    n1 as int, d1 as int, sn1, sd1,
                    n2 as int, d2 as int, sn2, sd2,
                );
                lemma_abs_mul(sd1, sn2);
                lemma_frac_mag(n2 as int, d2 as int, sn2, sd2);
                if let Some((n, d)) = r {
                    lemma_div_cong(
                        n1 as int, d1 as int, sn1, sd1,
                        n2 as int, d2 as int, sn2, sd2,
                        n as int, d as int,
                    );
                    assert((d as int) <= iabs(sd1 * sn2)) by (nonlinear_arith)
                        requires
                            (d as int) <= (d1 as int) * iabs(n2 as int),
                            0 < d1 as int <= iabs(sd1),
                            0 <= iabs(n2 as int) <= iabs(sn2),
                            iabs(sd1 * sn2) == iabs(sd1) * iabs(sn2),
                    ;
                }
                if rat_fits_s(*e) && eval_rat_s(*e) is Some {
                    assert(r is Some);
                }
            }
            r
        },
        Expr::Square(a) => {
            let (n1, d1) = match eval_rat(&**a) {
                Some(p) => p,
                None => {
                    return None;
                },
            };
            let r = rat_pow_ex(n1, d1, 2);
            proof {
                let (sn1, sd1) = eval_rat_s(**a)->Some_0;
                lemma_pow_ready(n1 as int, d1 as int, sn1, sd1);
                lemma_abs_mul(sd1, sd1);
                if let Some((n, d)) = r {
                    lemma_square_cong(n1 as int, d1 as int, sn1, sd1, n as int, d as int);
                }
                if rat_fits_s(*e) && eval_rat_s(*e) is Some {
                    assert(r is Some);
                }
            }
            r
        },
        Expr::Cube(a) => {
            let (n1, d1) = match eval_rat(&**a) {
                Some(p) => p,
                None => {
                    return None;
                },
            };
            let r = rat_pow_ex(n1, d1, 3);
            proof {
                let (sn1, sd1) = eval_rat_s(**a)->Some_0;
                lemma_pow_ready(n1 as int, d1 as int, sn1, sd1);
                lemma_abs_mul(sd1 * sd1, sd1);
                lemma_abs_mul(sd1, sd1);
                if let Some((n, d)) = r {
                    lemma_cube_cong(n1 as int, d1 as int, sn1, sd1, n as int, d as int);
                }
                if rat_fits_s(*e) && eval_rat_s(*e) is Some {
                    assert(r is Some);
                }
            }
            r
        },
    }
}

/// What `eval` promises of its result, over the parse of the input.
pub open spec fn eval_ensures(s: Seq<char>, r: Result<i32, EvalError>) -> bool {
    match sp_parse(s) {
        None => r == Err::<i32, EvalError>(EvalError::SyntaxError),
        Some((iv, rv, fits)) => match iv {
            IntOutcome::Val(v) => r matches Ok(x) && x as int == v,
            IntOutcome::Hard => r == Err::<i32, EvalError>(EvalError::ArithmeticOverflow),
            IntOutcome::NonIntDiv => (match r {
                Ok(x) => rv matches Some((sn, sd)) && sd != 0 && (x as int) * sd == sn,
                Err(e) => (e == EvalError::NonIntegerResult || e == EvalError::ArithmeticOverflow)
                    && (e == EvalError::NonIntegerResult ==> (rv matches Some((sn, sd)) && sn % sd
                    != 0)),
            }) && (fits ==> match rv {
                Some((sn, sd)) => if sn % sd == 0 {
                    r matches Ok(x) && (x as int) * sd == sn
                } else {
                    r == Err::<i32, EvalError>(EvalError::NonIntegerResult)
                },
                None => r == Err::<i32, EvalError>(EvalError::ArithmeticOverflow),
            }),
        },
    }
}

/// Evaluate a character vector under the two-phase policy.
pub fn eval_chars(s: &Vec<char>) -> (r: Result<i32, EvalError>)
    ensures
        eval_ensures(s@, r),
{
    match ex_parse(s) {
        None => Err(EvalError::SyntaxError),
        Some(e) => match eval_int(&e) {
            Ok(v) => Ok(v),
            Err(PassErr::Overflow) => Err(EvalError::ArithmeticOverflow),
            Err(PassErr::NonIntDiv) => match eval_rat(&e) {
                None => Err(EvalError::ArithmeticOverflow),
                Some((n, d)) => {
                    let r = rat_to_int_ex(n, d);
                    proof {
                        let (sn, sd) = eval_rat_s(e)->Some_0;
                        lemma_divisibility_transfer(n as int, d as int, sn, sd);
                    }
                    match r {
                        Some(v) => Ok(v),
                        None => Err(EvalError::NonIntegerResult),
                    }
                },
            },
        },
    }
}

/// Evaluate an equation side, returning its integer value or the reason it
/// has none.
pub fn eval(input: &str) -> (r: Result<i32, EvalError>)
    ensures
        eval_ensures(input@, r),
{
    let chars = str_chars(input);
    eval_chars(&chars)
}

} // verus!
