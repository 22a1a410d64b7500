//! The equation grammar and its meaning.
//!
//! `expr := term (('+'|'-') term)*`, `term := exponent (('*'|'/') exponent)*`,
//! `exponent := factor ('²'|'³')*`, `factor := integer | '(' expr ')'`, with
//! spaces allowed around tokens and `s`/`c` accepted for the power glyphs.
//!
//! The specification-level parser consumes the input once and yields, for the
//! parsed prefix, the outcome of both numeric interpretations at the same
//! time: the checked 32-bit integer pass (which signals an inexact division
//! specially) and the exact rational value. The executable parser builds an
//! expression tree and is proved to agree with the specification exactly.

use vstd::prelude::*;
use crate::text::{is_digit_char, digit_val};

verus! {

/// Outcome of evaluating under checked 32-bit integer arithmetic: a value,
/// the distinguished inexact-division signal, or a hard failure (overflow or
/// division by zero).
pub enum IntOutcome {
    Val(int),
    NonIntDiv,
    Hard,
}

/// An exact rational value `n/d` with `d != 0`, or `None` after a division by
/// zero.
pub type RatV = Option<(int, int)>;

/// Both interpretations of one subexpression, and whether every unreduced
/// rational intermediate so far fits in 32 bits — the condition under which
/// the rational pass is guaranteed to produce its value.
pub type EvalPair = (IntOutcome, RatV, bool);

pub open spec fn in_i32(v: int) -> bool {
    -0x8000_0000 <= v <= 0x7fff_ffff
}

pub open spec fn int_add(a: IntOutcome, b: IntOutcome) -> IntOutcome {
    match a {
        IntOutcome::Val(x) => match b {
            IntOutcome::Val(y) => if in_i32(x + y) {
                IntOutcome::Val(x + y)
            } else {
                IntOutcome::Hard
            },
            _ => b,
        },
        _ => a,
    }
}

pub open spec fn int_sub(a: IntOutcome, b: IntOutcome) -> IntOutcome {
    match a {
        IntOutcome::Val(x) => match b {
            IntOutcome::Val(y) => if in_i32(x - y) {
                IntOutcome::Val(x - y)
            } else {
                IntOutcome::Hard
            },
            _ => b,
        },
        _ => a,
    }
}

pub open spec fn int_mul(a: IntOutcome, b: IntOutcome) -> IntOutcome {
    match a {
        IntOutcome::Val(x) => match b {
            IntOutcome::Val(y) => if in_i32(x * y) {
                IntOutcome::Val(x * y)
            } else {
                IntOutcome::Hard
            },
            _ => b,
        },
        _ => a,
    }
}

pub open spec fn iabs(v: int) -> int {
    if v < 0 {
        -v
    } else {
        v
    }
}

/// The exact signed quotient of `x` by `y`, assuming `y` divides `x`.
pub open spec fn exact_quot(x: int, y: int) -> int {
    if (x < 0) != (y < 0) {
        -(iabs(x) / iabs(y))
    } else {
        iabs(x) / iabs(y)
    }
}

/// Division requires a nonzero divisor and exactness; an inexact division is
/// the signal that triggers the rational pass.
pub open spec fn int_div(a: IntOutcome, b: IntOutcome) -> IntOutcome {
    match a {
        IntOutcome::Val(x) => match b {
            IntOutcome::Val(y) => if y == 0 {
                IntOutcome::Hard
            } else if iabs(x) % iabs(y) != 0 {
                IntOutcome::NonIntDiv
            } else if !in_i32(exact_quot(x, y)) {
                IntOutcome::Hard
            } else {
                IntOutcome::Val(exact_quot(x, y))
            },
            _ => b,
        },
        _ => a,
    }
}

pub open spec fn int_square(a: IntOutcome) -> IntOutcome {
    match a {
        IntOutcome::Val(x) => if in_i32(x * x) {
            IntOutcome::Val(x * x)
        } else {
            IntOutcome::Hard
        },
        _ => a,
    }
}

/// Cubing squares first and then multiplies once more, so either product
/// overflowing is a hard failure.
pub open spec fn int_cube(a: IntOutcome) -> IntOutcome {
    match a {
        IntOutcome::Val(x) => if in_i32(x * x) && in_i32(x * x * x) {
            IntOutcome::Val(x * x * x)
        } else {
            IntOutcome::Hard
        },
        _ => a,
    }
}

/// A rational with a guaranteed nonzero denominator.
pub open spec fn rat_mk(n: int, d: int) -> RatV {
    if d == 0 {
        None
    } else {
        Some((n, d))
    }
}

pub open spec fn rat_add(a: RatV, b: RatV) -> RatV {
    match (a, b) {
        (Some((n1, d1)), Some((n2, d2))) => rat_mk(n1 * d2 + n2 * d1, d1 * d2),
        _ => None,
    }
}

pub open spec fn rat_sub(a: RatV, b: RatV) -> RatV {
    match (a, b) {
        (Some((n1, d1)), Some((n2, d2))) => rat_mk(n1 * d2 - n2 * d1, d1 * d2),
        _ => None,
    }
}

pub open spec fn rat_mul(a: RatV, b: RatV) -> RatV {
    match (a, b) {
        (Some((n1, d1)), Some((n2, d2))) => rat_mk(n1 * n2, d1 * d2),
        _ => None,
    }
}

pub open spec fn rat_div(a: RatV, b: RatV) -> RatV {
    match (a, b) {
        (Some((n1, d1)), Some((n2, d2))) => if n2 == 0 {
            None
        } else {
            rat_mk(n1 * d2, d1 * n2)
        },
        _ => None,
    }
}

pub open spec fn rat_square(a: RatV) -> RatV {
    match a {
        Some((n, d)) => rat_mk(n * n, d * d),
        None => None,
    }
}

pub open spec fn rat_cube(a: RatV) -> RatV {
    match a {
        Some((n, d)) => rat_mk(n * n * n, d * d * d),
        None => None,
    }
}

/// The unreduced rational sum stays within 32 bits.
pub open spec fn rat_add_fits(a: RatV, b: RatV) -> bool {
    match (a, b) {
        (Some((n1, d1)), Some((n2, d2))) => iabs(n1 * d2) <= 0x7fff_ffff && iabs(n2 * d1)
            <= 0x7fff_ffff && iabs(n1 * d2 + n2 * d1) <= 0x7fff_ffff && iabs(d1 * d2)
            <= 0x7fff_ffff,
        _ => true,
    }
}

/// The unreduced rational difference stays within 32 bits.
pub open spec fn rat_sub_fits(a: RatV, b: RatV) -> bool {
    match (a, b) {
        (Some((n1, d1)), Some((n2, d2))) => iabs(n1 * d2) <= 0x7fff_ffff && iabs(n2 * d1)
            <= 0x7fff_ffff && iabs(n1 * d2 - n2 * d1) <= 0x7fff_ffff && iabs(d1 * d2)
            <= 0x7fff_ffff,
        _ => true,
    }
}

/// The unreduced rational product stays within 32 bits.
pub open spec fn rat_mul_fits(a: RatV, b: RatV) -> bool {
    match (a, b) {
        (Some((n1, d1)), Some((n2, d2))) => iabs(n1 * n2) <= 0x7fff_ffff && iabs(d1 * d2)
            <= 0x7fff_ffff,
        _ => true,
    }
}

/// The unreduced rational quotient stays within 32 bits.
pub open spec fn rat_div_fits(a: RatV, b: RatV) -> bool {
    match (a, b) {
        (Some((n1, d1)), Some((n2, d2))) => iabs(n1 * d2) <= 0x7fff_ffff && iabs(d1 * n2)
            <= 0x7fff_ffff,
        _ => true,
    }
}

/// The unreduced rational square stays within 32 bits.
pub open spec fn rat_square_fits(a: RatV) -> bool {
    match a {
        Some((n, d)) => iabs(n * n) <= 0x7fff_ffff && iabs(d * d) <= 0x7fff_ffff,
        None => true,
    }
}

/// The unreduced rational cube (intermediate square included) stays within
/// 32 bits.
pub open spec fn rat_cube_fits(a: RatV) -> bool {
    match a {
        Some((n, d)) => iabs(n * n) <= 0x7fff_ffff && iabs(d * d) <= 0x7fff_ffff && iabs(
            n * n * n,
        ) <= 0x7fff_ffff && iabs(d * d * d) <= 0x7fff_ffff,
        None => true,
    }
}

pub open spec fn pair_add(a: EvalPair, b: EvalPair) -> EvalPair {
    (int_add(a.0, b.0), rat_add(a.1, b.1), a.2 && b.2 && rat_add_fits(a.1, b.1))
}

pub open spec fn pair_sub(a: EvalPair, b: EvalPair) -> EvalPair {
    (int_sub(a.0, b.0), rat_sub(a.1, b.1), a.2 && b.2 && rat_sub_fits(a.1, b.1))
}

pub open spec fn pair_mul(a: EvalPair, b: EvalPair) -> EvalPair {
    (int_mul(a.0, b.0), rat_mul(a.1, b.1), a.2 && b.2 && rat_mul_fits(a.1, b.1))
}

pub open spec fn pair_div(a: EvalPair, b: EvalPair) -> EvalPair {
    (int_div(a.0, b.0), rat_div(a.1, b.1), a.2 && b.2 && rat_div_fits(a.1, b.1))
}

pub open spec fn pair_square(a: EvalPair) -> EvalPair {
    (int_square(a.0), rat_square(a.1), a.2 && rat_square_fits(a.1))
}

pub open spec fn pair_cube(a: EvalPair) -> EvalPair {
    (int_cube(a.0), rat_cube(a.1), a.2 && rat_cube_fits(a.1))
}

pub open spec fn is_space(c: char) -> bool {
    c == ' ' || c == '\t'
}

/// First position at or after `i` holding no space.
pub open spec fn skip_spaces(s: Seq<char>, i: int) -> int
    decreases s.len() - i,
{
    if 0 <= i < s.len() && is_space(s[i]) {
        skip_spaces(s, i + 1)
    } else {
        i
    }
}

pub proof fn lemma_skip_spaces(s: Seq<char>, i: int)
    requires
        0 <= i <= s.len(),
    ensures
        i <= skip_spaces(s, i) <= s.len(),
        forall|k: int| i <= k < skip_spaces(s, i) ==> is_space(#[trigger] s[k]),
    decreases s.len() - i,
{
    if i < s.len() && is_space(s[i]) {
        lemma_skip_spaces(s, i + 1);
    }
}

/// First position at or after `i` holding no decimal digit.
pub open spec fn digit_run_end(s: Seq<char>, i: int) -> int
    decreases s.len() - i,
{
    if 0 <= i < s.len() && is_digit_char(s[i]) {
        digit_run_end(s, i + 1)
    } else {
        i
    }
}

pub proof fn lemma_digit_run(s: Seq<char>, i: int)
    requires
        0 <= i <= s.len(),
    ensures
        i <= digit_run_end(s, i) <= s.len(),
        forall|k: int| i <= k < digit_run_end(s, i) ==> is_digit_char(#[trigger] s[k]),
    decreases s.len() - i,
{
    if i < s.len() && is_digit_char(s[i]) {
        lemma_digit_run(s, i + 1);
    }
}

/// The decimal value of `s[i..j]`, most significant digit first.
pub open spec fn digits_value(s: Seq<char>, i: int, j: int) -> int
    decreases j - i,
{
    if i >= j {
        0
    } else {
        digits_value(s, i, j - 1) * 10 + digit_val(s[j - 1])
    }
}

pub proof fn lemma_digits_value_nonneg(s: Seq<char>, i: int, j: int)
    requires
        i <= j,
        forall|k: int| i <= k < j ==> is_digit_char(#[trigger] s[k]),
    ensures
        0 <= digits_value(s, i, j),
    decreases j - i,
{
    if i < j {
        lemma_digits_value_nonneg(s, i, j - 1);
    }
}

/// Extending a digit run never shrinks its value.
pub proof fn lemma_digits_value_mono(s: Seq<char>, i: int, j1: int, j2: int)
    requires
        i <= j1 <= j2,
        forall|k: int| i <= k < j2 ==> is_digit_char(#[trigger] s[k]),
    ensures
        digits_value(s, i, j1) <= digits_value(s, i, j2),
    decreases j2 - j1,
{
    if j1 < j2 {
        lemma_digits_value_mono(s, i, j1, j2 - 1);
        lemma_digits_value_nonneg(s, i, j2 - 1);
    }
}

/// `factor`: an integer literal that fits in an `i32`, or a parenthesized
/// expression; spaces around either are consumed.
pub open spec fn sp_factor(s: Seq<char>, i: int) -> Option<(EvalPair, int)>
    decreases s.len() - i, 0int,
{
    let k = skip_spaces(s, i);
    if k < i {
        None
    } else if k < s.len() && is_digit_char(s[k]) {
        let e = digit_run_end(s, k);
        let v = digits_value(s, k, e);
        if v > 0x7fff_ffff {
            None
        } else {
            Some(((IntOutcome::Val(v), rat_mk(v, 1), true), skip_spaces(s, e)))
        }
    } else if k < s.len() && s[k] == '(' {
        match sp_expr(s, k + 1) {
            None => None,
            Some((p, j)) => if j < s.len() && s[j] == ')' {
                Some((p, skip_spaces(s, j + 1)))
            } else {
                None
            },
        }
    } else {
        None
    }
}

/// `exponent`: a factor with any chain of square or cube marks applied left
/// to right.
pub open spec fn sp_exponent(s: Seq<char>, i: int) -> Option<(EvalPair, int)>
    decreases s.len() - i, 1int,
{
    match sp_factor(s, i) {
        None => None,
        Some((p, j)) => if j > i && j <= s.len() {
            Some(sp_exponent_rest(s, p, j))
        } else {
            Some((p, j))
        },
    }
}

pub open spec fn sp_exponent_rest(s: Seq<char>, acc: EvalPair, i: int) -> (EvalPair, int)
    decreases s.len() - i, 2int,
{
    if 0 <= i < s.len() && (s[i] == '²' || s[i] == 's') {
        sp_exponent_rest(s, pair_square(acc), i + 1)
    } else if 0 <= i < s.len() && (s[i] == '³' || s[i] == 'c') {
        sp_exponent_rest(s, pair_cube(acc), i + 1)
    } else {
        (acc, i)
    }
}

/// `term`: exponents folded left to right under `*` and `/`.
pub open spec fn sp_term(s: Seq<char>, i: int) -> Option<(EvalPair, int)>
    decreases s.len() - i, 3int,
{
    match sp_exponent(s, i) {
        None => None,
        Some((p, j)) => if j > i && j <= s.len() {
            Some(sp_term_rest(s, p, j))
        } else {
            Some((p, j))
        },
    }
}

pub open spec fn sp_term_rest(s: Seq<char>, acc: EvalPair, i: int) -> (EvalPair, int)
    decreases s.len() - i, 4int,
{
    if 0 <= i < s.len() && (s[i] == '*' || s[i] == '/') {
        match sp_exponent(s, i + 1) {
            None => (acc, i),
            Some((p, j)) => if j > i && j <= s.len() {
                sp_term_rest(s, if s[i] == '*' {
                    pair_mul(acc, p)
                } else {
                    pair_div(acc, p)
                }, j)
            } else {
                (acc, i)
            },
        }
    } else {
        (acc, i)
    }
}

/// `expr`: terms folded left to right under `+` and `-`.
pub open spec fn sp_expr(s: Seq<char>, i: int) -> Option<(EvalPair, int)>
    decreases s.len() - i, 5int,
{
    match sp_term(s, i) {
        None => None,
        Some((p, j)) => if j > i && j <= s.len() {
            Some(sp_expr_rest(s, p, j))
        } else {
            Some((p, j))
        },
    }
}

pub open spec fn sp_expr_rest(s: Seq<char>, acc: EvalPair, i: int) -> (EvalPair, int)
    decreases s.len() - i, 6int,
{
    if 0 <= i < s.len() && (s[i] == '+' || s[i] == '-') {
        match sp_term(s, i + 1) {
            None => (acc, i),
            Some((p, j)) => if j > i && j <= s.len() {
                sp_expr_rest(s, if s[i] == '+' {
                    pair_add(acc, p)
                } else {
                    pair_sub(acc, p)
                }, j)
            } else {
                (acc, i)
            },
        }
    } else {
        (acc, i)
    }
}

/// The whole string as one expression: `None` exactly when the grammar
/// rejects it or leaves trailing characters.
pub open spec fn sp_parse(s: Seq<char>) -> Option<EvalPair> {
    match sp_expr(s, 0) {
        None => None,
        Some((p, j)) => if j == s.len() {
            Some(p)
        } else {
            None
        },
    }
}

proof fn lemma_no_eq_factor(s: Seq<char>, i: int)
    requires
        0 <= i <= s.len(),
    ensures
        sp_factor(s, i) matches Some((p, j)) ==> i <= j <= s.len() && (forall|k: int|
            i <= k < j ==> s[k] != '='),
    decreases s.len() - i, 0int,
{
    lemma_skip_spaces(s, i);
    let k0 = skip_spaces(s, i);
    if k0 < s.len() && is_digit_char(s[k0]) {
        lemma_digit_run(s, k0);
        let e = digit_run_end(s, k0);
        lemma_skip_spaces(s, e);
        if digits_value(s, k0, e) > 0x7fff_ffff {
        } else {
            let j = skip_spaces(s, e);
            assert forall|k: int| i <= k < j implies s[k] != '=' by {
                if k < k0 {
                    assert(is_space(s[k]));
                } else if k < e {
                    assert(is_digit_char(s[k]));
                } else {
                    assert(is_space(s[k]));
                }
            }
        }
    } else if k0 < s.len() && s[k0] == '(' {
        lemma_no_eq_expr(s, k0 + 1);
        match sp_expr(s, k0 + 1) {
            None => {},
            Some((p, j1)) => {
                if j1 < s.len() && s[j1] == ')' {
                    lemma_skip_spaces(s, j1 + 1);
                    let j = skip_spaces(s, j1 + 1);
                    assert forall|k: int| i <= k < j implies s[k] != '=' by {
                        if k < k0 {
                            assert(is_space(s[k]));
                        } else if k == k0 {
                        } else if k < j1 {
                        } else if k == j1 {
                        } else {
                            assert(is_space(s[k]));
                        }
                    }
                }
            },
        }
    }
}

proof fn lemma_no_eq_exponent_rest(s: Seq<char>, acc: EvalPair, i: int)
    requires
        0 <= i <= s.len(),
    ensures
        ({
            let (p, j) = sp_exponent_rest(s, acc, i);
            i <= j <= s.len() && (forall|k: int| i <= k < j ==> s[k] != '=')
        }),
    decreases s.len() - i, 2int,
{
    if i < s.len() && (s[i] == '²' || s[i] == 's') {
        lemma_no_eq_exponent_rest(s, pair_square(acc), i + 1);
    } else if i < s.len() && (s[i] == '³' || s[i] == 'c') {
        lemma_no_eq_exponent_rest(s, pair_cube(acc), i + 1);
    }
}

proof fn lemma_no_eq_exponent(s: Seq<char>, i: int)
    requires
        0 <= i <= s.len(),
    ensures
        sp_exponent(s, i) matches Some((p, j)) ==> i <= j <= s.len() && (forall|k: int|
            i <= k < j ==> s[k] != '='),
    decreases s.len() - i, 1int,
{
    lemma_no_eq_factor(s, i);
    match sp_factor(s, i) {
        None => {},
        Some((p, j)) => {
            if j > i && j <= s.len() {
                lemma_no_eq_exponent_rest(s, p, j);
            }
        },
    }
}

proof fn lemma_no_eq_term_rest(s: Seq<char>, acc: EvalPair, i: int)
    requires
        0 <= i <= s.len(),
    ensures
        ({
            let (p, j) = sp_term_rest(s, acc, i);
            i <= j <= s.len() && (forall|k: int| i <= k < j ==> s[k] != '=')
        }),
    decreases s.len() - i, 4int,
{
    if i < s.len() && (s[i] == '*' || s[i] == '/') {
        lemma_no_eq_exponent(s, i + 1);
        match sp_exponent(s, i + 1) {
            None => {},
            Some((p, j)) => {
                if j > i && j <= s.len() {
                    let acc2 = if s[i] == '*' {
                        pair_mul(acc, p)
                    } else {
                        pair_div(acc, p)
                    };
                    lemma_no_eq_term_rest(s, acc2, j);
                }
            },
        }
    }
}

proof fn lemma_no_eq_term(s: Seq<char>, i: int)
    requires
        0 <= i <= s.len(),
    ensures
        sp_term(s, i) matches Some((p, j)) ==> i <= j <= s.len() && (forall|k: int|
            i <= k < j ==> s[k] != '='),
    decreases s.len() - i, 3int,
{
    lemma_no_eq_exponent(s, i);
    match sp_exponent(s, i) {
        None => {},
        Some((p, j)) => {
            if j > i && j <= s.len() {
                lemma_no_eq_term_rest(s, p, j);
            }
        },
    }
}

proof fn lemma_no_eq_expr_rest(s: Seq<char>, acc: EvalPair, i: int)
    requires
        0 <= i <= s.len(),
    ensures
        ({
            let (p, j) = sp_expr_rest(s, acc, i);
            i <= j <= s.len() && (forall|k: int| i <= k < j ==> s[k] != '=')
        }),
    decreases s.len() - i, 6int,
{
    if i < s.len() && (s[i] == '+' || s[i] == '-') {
        lemma_no_eq_term(s, i + 1);
        match sp_term(s, i + 1) {
            None => {},
            Some((p, j)) => {
                if j > i && j <= s.len() {
                    let acc2 = if s[i] == '+' {
                        pair_add(acc, p)
                    } else {
                        pair_sub(acc, p)
                    };
                    lemma_no_eq_expr_rest(s, acc2, j);
                }
            },
        }
    }
}

proof fn lemma_no_eq_expr(s: Seq<char>, i: int)
    requires
        0 <= i <= s.len(),
    ensures
        sp_expr(s, i) matches Some((p, j)) ==> i <= j <= s.len() && (forall|k: int|
            i <= k < j ==> s[k] != '='),
    decreases s.len() - i, 5int,
{
    lemma_no_eq_term(s, i);
    match sp_term(s, i) {
        None => {},
        Some((p, j)) => {
            if j > i && j <= s.len() {
                lemma_no_eq_expr_rest(s, p, j);
            }
        },
    }
}

/// A string the grammar accepts holds no `=` sign.
pub proof fn lemma_parse_no_eq(s: Seq<char>)
    ensures
        sp_parse(s) is Some ==> forall|k: int| 0 <= k < s.len() ==> s[k] != '=',
{
    if sp_parse(s) is Some {
        lemma_no_eq_expr(s, 0);
    }
}

/// An expression tree of the grammar; the executable evaluator walks it.
pub enum Expr {
    Lit(i32),
    Add(Box<Expr>, Box<Expr>),
    Sub(Box<Expr>, Box<Expr>),
    Mul(Box<Expr>, Box<Expr>),
    Div(Box<Expr>, Box<Expr>),
    Square(Box<Expr>),
    Cube(Box<Expr>),
}

/// The checked 32-bit integer meaning of a tree.
pub open spec fn eval_i32_s(e: Expr) -> IntOutcome
    decreases e,
{
    match e {
        Expr::Lit(v) => IntOutcome::Val(v as int),
        Expr::Add(a, b) => int_add(eval_i32_s(*a), eval_i32_s(*b)),
        Expr::Sub(a, b) => int_sub(eval_i32_s(*a), eval_i32_s(*b)),
        Expr::Mul(a, b) => int_mul(eval_i32_s(*a), eval_i32_s(*b)),
        Expr::Div(a, b) => int_div(eval_i32_s(*a), eval_i32_s(*b)),
        Expr::Square(a) => int_square(eval_i32_s(*a)),
        Expr::Cube(a) => int_cube(eval_i32_s(*a)),
    }
}

/// The exact rational meaning of a tree.
pub open spec fn eval_rat_s(e: Expr) -> RatV
    decreases e,
{
    match e {
        Expr::Lit(v) => rat_mk(v as int, 1),
        Expr::Add(a, b) => rat_add(eval_rat_s(*a), eval_rat_s(*b)),
        Expr::Sub(a, b) => rat_sub(eval_rat_s(*a), eval_rat_s(*b)),
        Expr::Mul(a, b) => rat_mul(eval_rat_s(*a), eval_rat_s(*b)),
        Expr::Div(a, b) => rat_div(eval_rat_s(*a), eval_rat_s(*b)),
        Expr::Square(a) => rat_square(eval_rat_s(*a)),
        Expr::Cube(a) => rat_cube(eval_rat_s(*a)),
    }
}

/// Every unreduced rational intermediate of the tree fits in 32 bits; under
/// this condition the executable rational pass cannot fail for want of
/// representation.
pub open spec fn rat_fits_s(e: Expr) -> bool
    decreases e,
{
    match e {
        Expr::Lit(v) => true,
        Expr::Add(a, b) => rat_fits_s(*a) && rat_fits_s(*b) && rat_add_fits(
            eval_rat_s(*a),
            eval_rat_s(*b),
        ),
        Expr::Sub(a, b) => rat_fits_s(*a) && rat_fits_s(*b) && rat_sub_fits(
            eval_rat_s(*a),
            eval_rat_s(*b),
        ),
        Expr::Mul(a, b) => rat_fits_s(*a) && rat_fits_s(*b) && rat_mul_fits(
            eval_rat_s(*a),
            eval_rat_s(*b),
        ),
        Expr::Div(a, b) => rat_fits_s(*a) && rat_fits_s(*b) && rat_div_fits(
            eval_rat_s(*a),
            eval_rat_s(*b),
        ),
        Expr::Square(a) => rat_fits_s(*a) && rat_square_fits(eval_rat_s(*a)),
        Expr::Cube(a) => rat_fits_s(*a) && rat_cube_fits(eval_rat_s(*a)),
    }
}

pub open spec fn pair_of(e: Expr) -> EvalPair {
    (eval_i32_s(e), eval_rat_s(e), rat_fits_s(e))
}

fn ex_is_digit(c: char) -> (r: bool)
    ensures
        r == is_digit_char(c),
{
    let u = c as u32;
    48 <= u && u <= 57
}

fn ex_skip_spaces(s: &Vec<char>, i: usize) -> (r: usize)
    requires
        i <= s.len(),
    ensures
        i <= r <= s.len(),
        r as int == skip_spaces(s@, i as int),
    decreases s.len() - i,
{
    if i < s.len() && (s[i] == ' ' || s[i] == '\t') {
        ex_skip_spaces(s, i + 1)
    } else {
        i
    }
}

fn ex_digit_run_end(s: &Vec<char>, i: usize) -> (r: usize)
    requires
        i <= s.len(),
    ensures
        i <= r <= s.len(),
        r as int == digit_run_end(s@, i as int),
    decreases s.len() - i,
{
    if i < s.len() && ex_is_digit(s[i]) {
        ex_digit_run_end(s, i + 1)
    } else {
        i
    }
}

fn ex_factor(s: &Vec<char>, i: usize) -> (r: Option<(Expr, usize)>)
    requires
        i <= s.len(),
    ensures
        match r {
            None => sp_factor(s@, i as int) is None,
            Some((e, j)) => i < j <= s.len() && sp_factor(s@, i as int) == Some(
                (pair_of(e), j as int),
            ),
        },
    decreases s.len() - i, 0int,
{
    let k = ex_skip_spaces(s, i);
    if k < s.len() && ex_is_digit(s[k]) {
        let e = ex_digit_run_end(s, k);
        proof {
            lemma_digit_run(s@, k as int);
            lemma_digit_run(s@, k as int + 1);
            assert(digit_run_end(s@, k as int) == digit_run_end(s@, k as int + 1));
            assert(e as int >= k as int + 1);
        }
        let mut val: u32 = 0;
        let mut idx: usize = k;
        while idx < e
            invariant
                i <= k <= idx <= e <= s.len(),
                k as int == skip_spaces(s@, i as int),
                k < s.len(),
                is_digit_char(s@[k as int]),
                e as int == digit_run_end(s@, k as int),
                forall|t: int| k <= t < e ==> is_digit_char(#[trigger] s@[t]),
                val as int == digits_value(s@, k as int, idx as int),
                val <= 0x7fff_ffff,
            decreases e - idx,
        {
            proof {
                assert(is_digit_char(s@[idx as int]));
            }
            let d = (s[idx] as u32) - 48;
            let nv = (val as u64) * 10 + (d as u64);
            proof {
                assert(digits_value(s@, k as int, idx as int + 1) == digits_value(
                    s@,
                    k as int,
                    idx as int,
                ) * 10 + digit_val(s@[idx as int]));
                assert(nv as int == digits_value(s@, k as int, idx as int + 1));
            }
            if nv > 0x7fff_ffff {
                proof {
                    lemma_digits_value_mono(s@, k as int, idx as int + 1, e as int);
                    assert(digits_value(s@, k as int, e as int) > 0x7fff_ffff);
                    assert(sp_factor(s@, i as int) is None);
                }
                return None;
            }
            val = nv as u32;
            idx = idx + 1;
        }
        let m = ex_skip_spaces(s, e);
        Some((Expr::Lit(val as i32), m))
    } else if k < s.len() && s[k] == '(' {
        match ex_expr(s, k + 1) {
            None => None,
            Some((e, j)) => {
                if j < s.len() && s[j] == ')' {
                    let m = ex_skip_spaces(s, j + 1);
                    Some((e, m))
                } else {
                    None
                }
            },
        }
    } else {
        None
    }
}

fn ex_exponent(s: &Vec<char>, i: usize) -> (r: Option<(Expr, usize)>)
    requires
        i <= s.len(),
    ensures
        match r {
            None => sp_exponent(s@, i as int) is None,
            Some((e, j)) => i < j <= s.len() && sp_exponent(s@, i as int) == Some(
                (pair_of(e), j as int),
            ),
        },
    decreases s.len() - i, 1int,
{
    match ex_factor(s, i) {
        None => None,
        Some((e0, j0)) => {
            let ghost p0 = pair_of(e0);
            let ghost i0 = j0 as int;
            let mut acc = e0;
            let mut j = j0;
            while j < s.len() && (s[j] == '²' || s[j] == 's' || s[j] == '³' || s[j] == 'c')
                invariant
                    i < j <= s.len(),
                    sp_exponent_rest(s@, pair_of(acc), j as int) == sp_exponent_rest(s@, p0, i0),
                decreases s.len() - j,
            {
                let c = s[j];
                if c == '²' || c == 's' {
                    let prev = acc;
                    acc = Expr::Square(Box::new(prev));
                } else {
                    let prev = acc;
                    acc = Expr::Cube(Box::new(prev));
                }
                j = j + 1;
            }
            Some((acc, j))
        },
    }
}

fn ex_term(s: &Vec<char>, i: usize) -> (r: Option<(Expr, usize)>)
    requires
        i <= s.len(),
    ensures
        match r {
            None => sp_term(s@, i as int) is None,
            Some((e, j)) => i < j <= s.len() && sp_term(s@, i as int) == Some(
                (pair_of(e), j as int),
            ),
        },
    decreases s.len() - i, 2int,
{
    match ex_exponent(s, i) {
        None => None,
        Some((e0, j0)) => {
            let ghost p0 = pair_of(e0);
            let ghost i0 = j0 as int;
            let mut acc = e0;
            let mut j = j0;
            while j < s.len() && (s[j] == '*' || s[j] == '/')
                invariant_except_break
                    i < j <= s.len(),
                    sp_term_rest(s@, pair_of(acc), j as int) == sp_term_rest(s@, p0, i0),
                ensures
                    i < j <= s.len(),
                    sp_term_rest(s@, p0, i0) == (pair_of(acc), j as int),
                decreases s.len() - j,
            {
                let op = s[j];
                match ex_exponent(s, j + 1) {
                    None => {
                        break ;
                    },
                    Some((rhs, j2)) => {
                        let prev = acc;
                        acc = if op == '*' {
                            Expr::Mul(Box::new(prev), Box::new(rhs))
                        } else {
                            Expr::Div(Box::new(prev), Box::new(rhs))
                        };
                        j = j2;
                    },
                }
            }
            Some((acc, j))
        },
    }
}

fn ex_expr(s: &Vec<char>, i: usize) -> (r: Option<(Expr, usize)>)
    requires
        i <= s.len(),
    ensures
        match r {
            None => sp_expr(s@, i as int) is None,
            Some((e, j)) => i < j <= s.len() && sp_expr(s@, i as int) == Some(
                (pair_of(e), j as int),
            ),
        },
    decreases s.len() - i, 3int,
{
    match ex_term(s, i) {
        None => None,
        Some((e0, j0)) => {
            let ghost p0 = pair_of(e0);
            let ghost i0 = j0 as int;
            let mut acc = e0;
            let mut j = j0;
            while j < s.len() && (s[j] == '+' || s[j] == '-')
                invariant_except_break
                    i < j <= s.len(),
                    sp_expr_rest(s@, pair_of(acc), j as int) == sp_expr_rest(s@, p0, i0),
                ensures
                    i < j <= s.len(),
                    sp_expr_rest(s@, p0, i0) == (pair_of(acc), j as int),
                decreases s.len() - j,
            {
                let op = s[j];
                match ex_term(s, j + 1) {
                    None => {
                        break ;
                    },
                    Some((rhs, j2)) => {
                        let prev = acc;
                        acc = if op == '+' {
                            Expr::Add(Box::new(prev), Box::new(rhs))
                        } else {
                            Expr::Sub(Box::new(prev), Box::new(rhs))
                        };
                        j = j2;
                    },
                }
            }
            Some((acc, j))
        },
    }
}

/// Parse the whole character vector, or report that the grammar rejects it.
pub fn ex_parse(s: &Vec<char>) -> (r: Option<Expr>)
    ensures
        match r {
            None => sp_parse(s@) is None,
            Some(e) => sp_parse(s@) == Some(pair_of(e)),
        },
{
    match ex_expr(s, 0) {
        None => None,
        Some((e, j)) => {
            if j == s.len() {
                Some(e)
            } else {
                None
            }
        },
    }
}

} // verus!
