//! Exact rational arithmetic over 32-bit numerators and denominators, done by
//! `num_rational`. Each wrapper takes and returns plain `(numerator,
//! denominator)` pairs. Denominators handed in must be positive: `Ratio`'s
//! own normalization negates a negative denominator, which would overflow on
//! `i32::MIN`; with positive denominators every internal step divides values
//! down before multiplying, so the stated bounds also give a success
//! condition. A returned pair always carries a positive denominator and
//! stands for the exact mathematical result, which the contracts state by
//! cross-multiplication. `None` reports that the crate could not represent
//! the result (an intermediate overflow, or division by zero).

use vstd::prelude::*;
use crate::parse::iabs;

verus! {

/// Relies on `num_rational::Rational32::checked_add` (operands built with
/// `Ratio::new`, which only reduces): when a value comes back it is the exact
/// sum, reduced, with a positive denominator no larger than the product of
/// the given ones; and a value does come back whenever the unreduced cross
/// products and their sum fit, since the crate only ever forms divided-down
/// versions of them.
#[verifier::external_body]
pub(crate) fn rat_add_ex(n1: i32, d1: i32, n2: i32, d2: i32) -> (r: Option<(i32, i32)>)
    requires
        d1 > 0,
        d2 > 0,
    ensures
        r matches Some((n, d)) ==> d > 0 && (d as int) <= (d1 as int) * (d2 as int) && (n as int)
            * ((d1 as int) * (d2 as int)) == ((n1 as int) * (d2 as int) + (n2 as int)
            * (d1 as int)) * (d as int),
        iabs((n1 as int) * (d2 as int)) <= 0x7fff_ffff && iabs((n2 as int) * (d1 as int))
            <= 0x7fff_ffff && iabs((n1 as int) * (d2 as int) + (n2 as int) * (d1 as int))
            <= 0x7fff_ffff && (d1 as int) * (d2 as int) <= 0x7fff_ffff ==> r is Some,
{
    let a = num_rational::Rational32::new(n1, d1);
    let b = num_rational::Rational32::new(n2, d2);
    num_traits::CheckedAdd::checked_add(&a, &b).map(|q| (*q.numer(), *q.denom()))
}

/// Relies on `num_rational::Rational32::checked_sub`: as for the sum, with
/// the difference of the cross products.
#[verifier::external_body]
pub(crate) fn rat_sub_ex(n1: i32, d1: i32, n2: i32, d2: i32) -> (r: Option<(i32, i32)>)
    requires
        d1 > 0,
        d2 > 0,
    ensures
        r matches Some((n, d)) ==> d > 0 && (d as int) <= (d1 as int) * (d2 as int) && (n as int)
            * ((d1 as int) * (d2 as int)) == ((n1 as int) * (d2 as int) - (n2 as int)
            * (d1 as int)) * (d as int),
        iabs((n1 as int) * (d2 as int)) <= 0x7fff_ffff && iabs((n2 as int) * (d1 as int))
            <= 0x7fff_ffff && iabs((n1 as int) * (d2 as int) - (n2 as int) * (d1 as int))
            <= 0x7fff_ffff && (d1 as int) * (d2 as int) <= 0x7fff_ffff ==> r is Some,
{
    let a = num_rational::Rational32::new(n1, d1);
    let b = num_rational::Rational32::new(n2, d2);
    num_traits::CheckedSub::checked_sub(&a, &b).map(|q| (*q.numer(), *q.denom()))
}

/// Relies on `num_rational::Rational32::checked_mul`: when a value comes back
/// it is the exact product, reduced, with a positive denominator no larger
/// than the product of the given ones; and a value does come back whenever
/// the unreduced numerator and denominator products fit.
#[verifier::external_body]
pub(crate) fn rat_mul_ex(n1: i32, d1: i32, n2: i32, d2: i32) -> (r: Option<(i32, i32)>)
    requires
        d1 > 0,
        d2 > 0,
    ensures
        r matches Some((n, d)) ==> d > 0 && (d as int) <= (d1 as int) * (d2 as int) && (n as int)
            * ((d1 as int) * (d2 as int)) == ((n1 as int) * (n2 as int)) * (d as int),
        iabs((n1 as int) * (n2 as int)) <= 0x7fff_ffff && (d1 as int) * (d2 as int)
            <= 0x7fff_ffff ==> r is Some,
{
    let a = num_rational::Rational32::new(n1, d1);
    let b = num_rational::Rational32::new(n2, d2);
    num_traits::CheckedMul::checked_mul(&a, &b).map(|q| (*q.numer(), *q.denom()))
}

/// Relies on `num_rational::Rational32::checked_div`: a zero divisor always
/// comes back as `None`; a returned value is the exact quotient, reduced,
/// with a positive denominator no larger than `d1 * |n2|`; and a value does
/// come back whenever the divisor is nonzero and the unreduced cross
/// products fit.
#[verifier::external_body]
pub(crate) fn rat_div_ex(n1: i32, d1: i32, n2: i32, d2: i32) -> (r: Option<(i32, i32)>)
    requires
        d1 > 0,
        d2 > 0,
    ensures
        n2 == 0 ==> r is None,
        r matches Some((n, d)) ==> d > 0 && (d as int) <= (d1 as int) * iabs(n2 as int) && (
        n as int) * ((d1 as int) * (n2 as int)) == ((n1 as int) * (d2 as int)) * (d as int),
        n2 != 0 && iabs((n1 as int) * (d2 as int)) <= 0x7fff_ffff && iabs(
            (d1 as int) * (n2 as int),
        ) <= 0x7fff_ffff ==> r is Some,
{
    let a = num_rational::Rational32::new(n1, d1);
    let b = num_rational::Rational32::new(n2, d2);
    num_traits::CheckedDiv::checked_div(&a, &b).map(|q| (*q.numer(), *q.denom()))
}

/// Relies on `num_traits::checked_pow` on a `Rational32`: for the square and
/// cube used here, a returned value is the exact power, reduced, with a
/// positive denominator no larger than the power of the given one; and a
/// value does come back whenever the unreduced powers (intermediate square
/// included) fit.
#[verifier::external_body]
pub(crate) fn rat_pow_ex(n1: i32, d1: i32, k: u32) -> (r: Option<(i32, i32)>)
    requires
        d1 > 0,
        k == 2 || k == 3,
    ensures
        k == 2 ==> (r matches Some((n, d)) ==> d > 0 && (d as int) <= (d1 as int) * (d1 as int)
            && (n as int) * ((d1 as int) * (d1 as int)) == ((n1 as int) * (n1 as int)) * (
        d as int)),
        k == 3 ==> (r matches Some((n, d)) ==> d > 0 && (d as int) <= (d1 as int) * (d1 as int) * (
        d1 as int) && (n as int) * ((d1 as int) * (d1 as int) * (d1 as int)) == ((n1 as int) * (
        n1 as int) * (n1 as int)) * (d as int)),
        k == 2 && iabs((n1 as int) * (n1 as int)) <= 0x7fff_ffff && (d1 as int) * (d1 as int)
            <= 0x7fff_ffff ==> r is Some,
        k == 3 && iabs((n1 as int) * (n1 as int)) <= 0x7fff_ffff && (d1 as int) * (d1 as int)
            <= 0x7fff_ffff && iabs((n1 as int) * (n1 as int) * (n1 as int)) <= 0x7fff_ffff && (
        d1 as int) * (d1 as int) * (d1 as int) <= 0x7fff_ffff ==> r is Some,
{
    let a = num_rational::Rational32::new(n1, d1);
    num_traits::checked_pow(a, k as usize).map(|q| (*q.numer(), *q.denom()))
}

/// Relies on `num_rational::Rational32::is_integer` and `to_integer` (after a
/// reducing `Ratio::new`): the value comes back exactly when the denominator
/// divides the numerator, and is then the exact quotient.
#[verifier::external_body]
pub(crate) fn rat_to_int_ex(n: i32, d: i32) -> (r: Option<i32>)
    requires
        d > 0,
    ensures
        r matches Some(v) ==> (n as int) % (d as int) == 0 && v as int == (n as int) / (d as int),
        r is None ==> (n as int) % (d as int) != 0,
{
    let q = num_rational::Rational32::new(n, d);
    if q.is_integer() {
        Some(q.to_integer())
    } else {
        None
    }
}

} // verus!
