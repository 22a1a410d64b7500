//! Exhaustive generation of valid equations of a fixed length, by
//! character-by-character backtracking over the grammar.
//!
//! The contracts work on two levels. Unconditionally, every string pushed to
//! the output is a well-formed equation: one `=`, a left side the evaluator
//! accepts, and the canonical decimal digits of its non-negative value
//! filling the remaining slots exactly (`equation_ok`). On top of that, the
//! `m_*` functions state the search itself: for each generator, exactly
//! which strings it appends and in which order. Those model contracts are
//! conditional on the run being determined by the specification — the flag
//! carried by the model is false only where a prefix takes the rational
//! evaluation pass outside the fitting bounds, where success depends on the
//! arithmetic crate's internal reductions. Within the determined realm
//! (which covers the puzzle's real slot counts), the output sequence is
//! pinned exactly, so the emission counts and run-to-run determinism follow
//! from the contract.
//!
//! The generated strings use `s` and `c` in place of the square and cube
//! glyphs, which the evaluator accepts as aliases.

use vstd::prelude::*;
use vstd::arithmetic::div_mod::lemma_fundamental_div_mod;
use crate::parse::{sp_parse, IntOutcome, lemma_parse_no_eq};
use crate::text::{
    dec_digits, lemma_dec_digits_are_digits, is_digit_char, int_to_digits, chars_to_string,
    digit_to_char, digit_char,
};
use crate::eval::eval_chars;

verus! {

/// `s` splits at `k`: an `=` there and nowhere else, the left side accepted
/// by the evaluator with value `v`, and the right side the canonical decimal
/// digits of `v`.
pub open spec fn eq_split(s: Seq<char>, k: int, v: int) -> bool {
    &&& 0 <= k < s.len()
    &&& s[k] == '='
    &&& forall|j: int| 0 <= j < s.len() && j != k ==> s[j] != '='
    &&& v >= 0
    &&& match sp_parse(s.take(k)) {
        Some((iv, rv, fits)) => iv == IntOutcome::Val(v) || (iv is NonIntDiv && (rv matches Some(
            (sn, sd),
        ) && v * sd == sn)),
        None => false,
    }
    &&& s.skip(k + 1) == dec_digits(v as nat)
}

/// A valid equation filling exactly `slots` characters.
pub open spec fn equation_ok(s: Seq<char>, slots: nat) -> bool {
    s.len() == slots && exists|k: int, v: int| #[trigger] eq_split(s, k, v)
}

/// The output only grew, and everything added is a valid equation of the
/// requested length.
pub open spec fn gen_extends(o: Seq<String>, n: Seq<String>, slots: nat) -> bool {
    &&& o.len() <= n.len()
    &&& forall|i: int| 0 <= i < o.len() ==> n[i] == o[i]
    &&& forall|i: int| o.len() <= i < n.len() ==> equation_ok(#[trigger] n[i]@, slots)
}

pub proof fn lemma_gen_extends_trans(o: Seq<String>, m: Seq<String>, n: Seq<String>, slots: nat)
    requires
        gen_extends(o, m, slots),
        gen_extends(m, n, slots),
    ensures
        gen_extends(o, n, slots),
{
    assert forall|i: int| o.len() <= i < n.len() implies equation_ok(#[trigger] n[i]@, slots) by {
        if i < m.len() {
            assert(equation_ok(m[i]@, slots));
            assert(n[i] == m[i]);
        }
    }
}


/// The corpus a generator run has produced, as mathematics.
pub open spec fn out_view(o: Seq<String>) -> Seq<Seq<char>> {
    o.map_values(|s: String| s@)
}

/// The one equation closing prefix `p` with value `v` yields, when the
/// digits fill the remaining slots exactly.
pub open spec fn m_emit(p: Seq<char>, v: int, slots: nat) -> Seq<Seq<char>> {
    if v >= 0 && p.len() + 1 + dec_digits(v as nat).len() == slots {
        seq![p + seq!['='] + dec_digits(v as nat)]
    } else {
        Seq::empty()
    }
}

/// What closing the equation after prefix `p` appends. The flag says the
/// outcome is determined by the specification; it is false only when the
/// prefix takes the rational pass outside the fitting bounds, where success
/// depends on the arithmetic crate's internal reductions.
pub open spec fn m_try(p: Seq<char>, depth: int, slots: nat) -> (Seq<Seq<char>>, bool) {
    if depth > 0 {
        (Seq::empty(), true)
    } else {
        match sp_parse(p) {
            None => (Seq::empty(), true),
            Some((iv, rv, fits)) => match iv {
                IntOutcome::Val(v) => (m_emit(p, v, slots), true),
                IntOutcome::Hard => (Seq::empty(), true),
                IntOutcome::NonIntDiv => if fits {
                    match rv {
                        Some((sn, sd)) => if sn % sd == 0 {
                            (m_emit(p, sn / sd, slots), true)
                        } else {
                            (Seq::empty(), true)
                        },
                        None => (Seq::empty(), true),
                    }
                } else {
                    (Seq::empty(), false)
                },
            },
        }
    }
}


/// Concatenate two model outputs; the combination is determined only when
/// both parts are.
pub open spec fn m_comb(a: (Seq<Seq<char>>, bool), b: (Seq<Seq<char>>, bool)) -> (
    Seq<Seq<char>>,
    bool,
) {
    (a.0 + b.0, a.1 && b.1)
}

/// No emission, determined.
pub open spec fn m_nothing() -> (Seq<Seq<char>>, bool) {
    (Seq::<Seq<char>>::empty(), true)
}

/// Everything the search emits after placing nonzero digits at the next
/// slot, in emission order.
pub open spec fn m_nz(p: Seq<char>, depth: int, ext: bool, slots: nat) -> (Seq<Seq<char>>, bool)
    decreases slots - p.len(), 2int, 0int,
{
    if p.len() + 2 >= slots {
        m_nothing()
    } else {
        m_nz_from(p, depth, ext, slots, 1)
    }
}

/// Everything one digit placement explores: closing, a longer number, an
/// operator, and (in extended positions) the power marks and a closing
/// parenthesis.
pub open spec fn m_step_body(p2: Seq<char>, depth: int, nd: int, ext: bool, slots: nat) -> (
    Seq<Seq<char>>,
    bool,
)
    decreases slots - p2.len(), 3int, 0int,
{
    if p2.len() > slots {
        m_nothing()
    } else {
        m_comb(
            m_try(p2, depth, slots),
            m_comb(
                m_digit(p2, depth, nd, ext, slots),
                m_comb(
                    m_oper(p2, depth, ext, slots),
                    if ext {
                        m_comb(
                            m_sq(p2, depth, slots),
                            m_comb(
                                m_cu(p2, depth, slots),
                                if depth > 0 {
                                    m_close(p2, depth, slots)
                                } else {
                                    m_nothing()
                                },
                            ),
                        )
                    } else {
                        m_nothing()
                    },
                ),
            ),
        )
    }
}

pub open spec fn m_nz_from(p: Seq<char>, depth: int, ext: bool, slots: nat, i: int) -> (
    Seq<Seq<char>>,
    bool,
)
    decreases slots - p.len(), 1int, 10 - i,
{
    if !(1 <= i < 10) || p.len() + 2 >= slots {
        m_nothing()
    } else {
        m_comb(
            m_step_body(p.push(digit_char(i)), depth, 1, ext, slots),
            m_nz_from(p, depth, ext, slots, i + 1),
        )
    }
}

/// Everything the search emits after extending a number with another digit
/// (nonzero digits first, then zero), with the digit-run pruning.
pub open spec fn m_digit(p: Seq<char>, depth: int, nd: int, ext: bool, slots: nat) -> (
    Seq<Seq<char>>,
    bool,
)
    decreases slots - p.len(), 2int, 0int,
{
    if p.len() + 2 >= slots || nd >= (slots - 2) / 2 {
        m_nothing()
    } else {
        m_digit_from(p, depth, nd, ext, slots, 0)
    }
}

pub open spec fn m_digit_from(p: Seq<char>, depth: int, nd: int, ext: bool, slots: nat, i: int) -> (
    Seq<Seq<char>>,
    bool,
)
    decreases slots - p.len(), 1int, 10 - i,
{
    if !(0 <= i < 10) || p.len() + 2 >= slots {
        m_nothing()
    } else {
        let d = if i == 9 {
            0int
        } else {
            i + 1
        };
        m_comb(
            m_step_body(p.push(digit_char(d)), depth, nd + 1, ext, slots),
            m_digit_from(p, depth, nd, ext, slots, i + 1),
        )
    }
}

pub open spec fn oper_char(i: int) -> char {
    if i == 0 {
        '-'
    } else if i == 1 {
        '+'
    } else if i == 2 {
        '*'
    } else {
        '/'
    }
}

/// Everything the search emits after placing an operator at the next slot.
pub open spec fn m_oper(p: Seq<char>, depth: int, ext: bool, slots: nat) -> (Seq<Seq<char>>, bool)
    decreases slots - p.len(), 2int, 0int,
{
    if p.len() + 3 > slots {
        m_nothing()
    } else {
        m_oper_from(p, depth, ext, slots, 0)
    }
}

pub open spec fn m_oper_from(p: Seq<char>, depth: int, ext: bool, slots: nat, i: int) -> (
    Seq<Seq<char>>,
    bool,
)
    decreases slots - p.len(), 1int, 4 - i,
{
    if !(0 <= i < 4) || p.len() + 3 > slots {
        m_nothing()
    } else {
        let p2 = p.push(oper_char(i));
        m_comb(
            m_nz(p2, depth, ext, slots),
            m_comb(m_open(p2, depth, slots), m_oper_from(p, depth, ext, slots, i + 1)),
        )
    }
}

/// Everything the search emits after placing a square mark at the next slot.
pub open spec fn m_sq(p: Seq<char>, depth: int, slots: nat) -> (Seq<Seq<char>>, bool)
    decreases slots - p.len(), 2int, 0int,
{
    if p.len() + 2 > slots {
        m_nothing()
    } else {
        let p2 = p.push('s');
        m_comb(
            if p.len() >= 3 {
                m_try(p2, depth, slots)
            } else {
                m_nothing()
            },
            m_comb(
                m_oper(p2, depth, true, slots),
                if depth > 0 {
                    m_close(p2, depth, slots)
                } else {
                    m_nothing()
                },
            ),
        )
    }
}

/// Everything the search emits after placing a cube mark at the next slot.
pub open spec fn m_cu(p: Seq<char>, depth: int, slots: nat) -> (Seq<Seq<char>>, bool)
    decreases slots - p.len(), 2int, 0int,
{
    if p.len() + 2 > slots {
        m_nothing()
    } else {
        let p2 = p.push('c');
        m_comb(
            if p.len() >= 2 {
                m_try(p2, depth, slots)
            } else {
                m_nothing()
            },
            m_comb(
                m_oper(p2, depth, true, slots),
                if depth > 0 {
                    m_close(p2, depth, slots)
                } else {
                    m_nothing()
                },
            ),
        )
    }
}

/// Everything the search emits after opening a parenthesis at the next slot.
pub open spec fn m_open(p: Seq<char>, depth: int, slots: nat) -> (Seq<Seq<char>>, bool)
    decreases slots - p.len(), 2int, 0int,
{
    if p.len() + 3 > slots {
        m_nothing()
    } else {
        let p2 = p.push('(');
        m_comb(m_nz(p2, depth + 1, true, slots), m_open(p2, depth + 1, slots))
    }
}

/// Everything the search emits after closing a parenthesis at the next slot.
pub open spec fn m_close(p: Seq<char>, depth: int, slots: nat) -> (Seq<Seq<char>>, bool)
    decreases slots - p.len(), 2int, 0int,
{
    if p.len() + 2 > slots {
        m_nothing()
    } else {
        let p2 = p.push(')');
        m_comb(
            m_try(p2, depth - 1, slots),
            m_comb(
                m_oper(p2, depth - 1, true, slots),
                m_comb(
                    m_sq(p2, depth - 1, slots),
                    m_comb(
                        m_cu(p2, depth - 1, slots),
                        if depth - 1 > 0 {
                            m_close(p2, depth - 1, slots)
                        } else {
                            m_nothing()
                        },
                    ),
                ),
            ),
        )
    }
}

/// The whole run: every equation of the requested length, in emission order.
pub open spec fn m_gen(slots: nat, ext: bool) -> (Seq<Seq<char>>, bool) {
    m_comb(
        m_nz(Seq::empty(), 0, ext, slots),
        if ext {
            m_open(Seq::empty(), 0, slots)
        } else {
            m_nothing()
        },
    )
}

/// A product pinned against a divisible fraction names its quotient.
proof fn lemma_pin_quot(x: int, sn: int, sd: int)
    requires
        sd != 0,
        x * sd == sn,
        sn % sd == 0,
    ensures
        x == sn / sd,
{
    lemma_fundamental_div_mod(sn, sd);
    assert(x == sn / sd) by (nonlinear_arith)
        requires
            sd != 0,
            x * sd == sn,
            sn == sd * (sn / sd) + 0,
    ;
}

/// Try to close the equation at `index`: evaluate the prefix and, when its
/// value's digits fill the remaining slots exactly, emit.
#[verifier::loop_isolation(false)]
pub fn try_gen_eq(index: usize, depth: usize, buf: &Vec<char>, out: &mut Vec<String>)
    requires
        index <= buf.len(),
    ensures
        gen_extends(old(out)@, final(out)@, buf.len() as nat),
        final(out)@.len() <= old(out)@.len() + 1,
        ({
            let m = m_try(buf@.take(index as int), depth as int, buf.len() as nat);
            m.1 ==> out_view(final(out)@) == out_view(old(out)@) + m.0
        }),
{
    proof {
        assert(out_view(out@) =~= out_view(out@) + Seq::<Seq<char>>::empty());
    }
    if depth > 0 {
        return ;
    }
    let mut prefix: Vec<char> = Vec::new();
    let mut i: usize = 0;
    while i < index
        invariant
            i <= index,
            prefix@ == buf@.take(i as int),
        decreases index - i,
    {
        prefix.push(buf[i]);
        i = i + 1;
        assert(prefix@ =~= buf@.take(i as int));
    }
    let ghost p = buf@.take(index as int);
    let ghost m = m_try(p, depth as int, buf.len() as nat);
    let r = eval_chars(&prefix);
    proof {
        // in the determined non-integer-division case, the result value is
        // the exact quotient of the parse's rational value
        if m.1 && r is Ok {
            if let Some((iv, rv, fits)) = sp_parse(p) {
                if iv is NonIntDiv {
                    let (sn, sd) = rv->Some_0;
                    lemma_pin_quot(r->Ok_0 as int, sn, sd);
                }
            }
        }
    }
    match r {
        Err(_) => {
            proof {
                if m.1 {
                    assert(m.0 =~= Seq::<Seq<char>>::empty());
                    assert(out_view(out@) =~= out_view(out@) + m.0);
                }
            }
        },
        Ok(v) => {
            if v < 0 {
                proof {
                    if m.1 {
                        assert(m.0 =~= Seq::<Seq<char>>::empty());
                        assert(out_view(out@) =~= out_view(out@) + m.0);
                    }
                }
                return ;
            }
            let digits = int_to_digits(v as u32);
            if index < buf.len() && digits.len() == buf.len() - index - 1 {
                let mut eqn = prefix;
                eqn.push('=');
                let mut digs = digits;
                eqn.append(&mut digs);
                let s = chars_to_string(&eqn);
                proof {
                    let sv = eqn@;
                    let ki = index as int;
                    let pv = buf@.take(ki);
                    assert(sv.take(ki) =~= pv);
                    assert(sv.skip(ki + 1) =~= dec_digits(v as nat));
                    lemma_parse_no_eq(pv);
                    lemma_dec_digits_are_digits(v as nat);
                    assert forall|j: int| 0 <= j < sv.len() && j != ki implies sv[j] != '=' by {
                        if j < ki {
                            assert(sv[j] == pv[j]);
                        } else {
                            assert(sv[j] == dec_digits(v as nat)[j - ki - 1]);
                            assert(is_digit_char(sv[j]));
                        }
                    }
                    assert(eq_split(sv, ki, v as int));
                    assert(equation_ok(sv, buf.len() as nat));
                    assert(s@ == sv);
                    if m.1 {
                        assert(sv =~= p + seq!['='] + dec_digits(v as nat));
                        assert(m.0 =~= seq![sv]);
                    }
                }
                out.push(s);
                proof {
                    if m.1 {
                        assert(out_view(out@) =~= out_view(old(out)@) + m.0);
                    }
                }
            } else {
                proof {
                    if m.1 {
                        assert(m.0 =~= Seq::<Seq<char>>::empty());
                        assert(out_view(out@) =~= out_view(out@) + m.0);
                    }
                }
            }
        },
    }
}

/// Place digit `d` at `index` and explore every continuation from there:
/// closing the equation, a longer number, an operator, and in extended
/// positions the power marks and a closing parenthesis.
#[verifier::rlimit(100)]
#[verifier::spinoff_prover]
fn gen_digit_step(
    index: usize,
    depth: usize,
    nd: usize,
    buf: &mut Vec<char>,
    out: &mut Vec<String>,
    extended: bool,
    d: u32,
)
    requires
        old(buf).len() >= 3,
        index < old(buf).len() - 2,
        depth <= index,
        d < 10,
    ensures
        final(buf).len() == old(buf).len(),
        final(buf)@.take(index as int) == old(buf)@.take(index as int),
        gen_extends(old(out)@, final(out)@, old(buf).len() as nat),
        ({
            let m = m_step_body(
                old(buf)@.take(index as int).push(digit_char(d as int)),
                depth as int,
                nd as int,
                extended,
                old(buf).len() as nat,
            );
            m.1 ==> out_view(final(out)@) == out_view(old(out)@) + m.0
        }),
    decreases old(buf).len() - index, 0int,
{
    let ghost out0 = out@;
    let ghost slots = buf.len() as nat;
    let ghost p0 = buf@.take(index as int);
    buf[index] = digit_to_char(d);
    proof {
        assert(buf@.take(index as int) =~= p0);
        assert(buf@.take(index as int + 1) =~= p0.push(digit_char(d as int)));
    }
    let ghost p2 = p0.push(digit_char(d as int));
    let ghost m = m_step_body(p2, depth as int, nd as int, extended, slots);
    let ghost ov0 = out@;
    try_gen_eq(index + 1, depth, buf, out);
    proof {
        lemma_gen_extends_trans(out0, ov0, out@, slots);
    }
    let ghost o2 = out@;
    gen_digit(index + 1, depth, nd, buf, out, extended);
    proof {
        lemma_gen_extends_trans(out0, o2, out@, slots);
        assert(buf@.take(index as int + 1) =~= p2);
        assert(buf@.take(index as int) =~= p0);
    }
    let ghost o3 = out@;
    gen_oper(index + 1, depth, buf, out, extended);
    proof {
        lemma_gen_extends_trans(out0, o3, out@, slots);
        assert(buf@.take(index as int + 1) =~= p2);
        assert(buf@.take(index as int) =~= p0);
    }
    if extended {
        let ghost o4 = out@;
        gen_squared(index + 1, depth, buf, out);
        proof {
            lemma_gen_extends_trans(out0, o4, out@, slots);
            assert(buf@.take(index as int + 1) =~= p2);
            assert(buf@.take(index as int) =~= p0);
        }
        let ghost o5 = out@;
        gen_cubed(index + 1, depth, buf, out);
        proof {
            lemma_gen_extends_trans(out0, o5, out@, slots);
            assert(buf@.take(index as int + 1) =~= p2);
            assert(buf@.take(index as int) =~= p0);
        }
        if depth > 0 {
            let ghost o6 = out@;
            gen_close(index + 1, depth, buf, out);
            proof {
                lemma_gen_extends_trans(out0, o6, out@, slots);
                assert(buf@.take(index as int + 1) =~= p2);
                assert(buf@.take(index as int) =~= p0);
            }
        }
    }
    proof {
        if m.1 {
            assert(out_view(out@) =~= out_view(out0) + m.0);
        }
    }
}

/// Place a nonzero digit at `index` and explore every continuation.
#[verifier::rlimit(100)]
#[verifier::spinoff_prover]
pub fn gen_nz_digit(
    index: usize,
    depth: usize,
    buf: &mut Vec<char>,
    out: &mut Vec<String>,
    extended: bool,
)
    requires
        old(buf).len() >= 3,
        index <= old(buf).len(),
        depth <= index,
    ensures
        final(buf).len() == old(buf).len(),
        final(buf)@.take(index as int) == old(buf)@.take(index as int),
        gen_extends(old(out)@, final(out)@, old(buf).len() as nat),
        ({
            let m = m_nz(
                old(buf)@.take(index as int),
                depth as int,
                extended,
                old(buf).len() as nat,
            );
            m.1 ==> out_view(final(out)@) == out_view(old(out)@) + m.0
        }),
    decreases old(buf).len() - index, 2int,
{
    let ghost out0 = out@;
    let ghost slots = buf.len() as nat;
    let ghost p0 = buf@.take(index as int);
    if index >= buf.len() - 2 {
        proof {
            assert(out_view(out@) =~= out_view(out0) + m_nz(p0, depth as int, extended, slots).0);
        }
        return ;
    }
    let mut i: u32 = 1;
    while i < 10
        invariant
            1 <= i <= 10,
            buf.len() == old(buf).len(),
            buf.len() >= 3,
            index < buf.len() - 2,
            depth <= index,
            slots == buf.len() as nat,
            buf@.take(index as int) == p0,
            gen_extends(out0, out@, slots),
            ({
                let m1 = m_nz_from(p0, depth as int, extended, slots, 1);
                let mi = m_nz_from(p0, depth as int, extended, slots, i as int);
                m1.1 ==> (mi.1 && out_view(out@) + mi.0 == out_view(out0) + m1.0)
            }),
        decreases 10 - i,
    {
        let ghost m1 = m_nz_from(p0, depth as int, extended, slots, 1);
        let ghost mi = m_nz_from(p0, depth as int, extended, slots, i as int);
        let ghost mn = m_nz_from(p0, depth as int, extended, slots, i as int + 1);
        let ghost ov0 = out@;
        gen_digit_step(index, depth, 1, buf, out, extended, i);
        proof {
            lemma_gen_extends_trans(out0, ov0, out@, slots);
            if m1.1 {
                assert(out_view(out@) + mn.0 =~= out_view(out0) + m1.0);
            }
        }
        i = i + 1;
    }
    proof {
        let m1 = m_nz_from(p0, depth as int, extended, slots, 1);
        if m1.1 {
            assert(out_view(out@) =~= out_view(out@) + m_nz_from(
                p0,
                depth as int,
                extended,
                slots,
                10,
            ).0);
            assert(out_view(out@) == out_view(out0) + m1.0);
        }
    }
}

/// Place any digit at `index` (nonzero digits first, then zero) and explore
/// every continuation; digit runs longer than half the left side are pruned,
/// since their value could never fit on the right.
#[verifier::rlimit(100)]
#[verifier::spinoff_prover]
pub fn gen_digit(
    index: usize,
    depth: usize,
    ndigits: usize,
    buf: &mut Vec<char>,
    out: &mut Vec<String>,
    extended: bool,
)
    requires
        old(buf).len() >= 3,
        index <= old(buf).len(),
        depth <= index,
    ensures
        final(buf).len() == old(buf).len(),
        final(buf)@.take(index as int) == old(buf)@.take(index as int),
        gen_extends(old(out)@, final(out)@, old(buf).len() as nat),
        ({
            let m = m_digit(
                old(buf)@.take(index as int),
                depth as int,
                ndigits as int,
                extended,
                old(buf).len() as nat,
            );
            m.1 ==> out_view(final(out)@) == out_view(old(out)@) + m.0
        }),
    decreases old(buf).len() - index, 1int,
{
    let ghost out0 = out@;
    let ghost slots = buf.len() as nat;
    let ghost p0 = buf@.take(index as int);
    if index >= buf.len() - 2 {
        proof {
            assert(out_view(out@) =~= out_view(out0) + m_digit(
                p0,
                depth as int,
                ndigits as int,
                extended,
                slots,
            ).0);
        }
        return ;
    }
    if ndigits >= (buf.len() - 2) / 2 {
        proof {
            assert(out_view(out@) =~= out_view(out0) + m_digit(
                p0,
                depth as int,
                ndigits as int,
                extended,
                slots,
            ).0);
        }
        return ;
    }
    let mut i: u32 = 0;
    while i < 10
        invariant
            i <= 10,
            buf.len() == old(buf).len(),
            buf.len() >= 3,
            index < buf.len() - 2,
            depth <= index,
            ndigits < (buf.len() - 2) / 2,
            slots == buf.len() as nat,
            buf@.take(index as int) == p0,
            gen_extends(out0, out@, slots),
            ({
                let m1 = m_digit_from(p0, depth as int, ndigits as int, extended, slots, 0);
                let mi = m_digit_from(p0, depth as int, ndigits as int, extended, slots, i as int);
                m1.1 ==> (mi.1 && out_view(out@) + mi.0 == out_view(out0) + m1.0)
            }),
        decreases 10 - i,
    {
        let ghost m1 = m_digit_from(p0, depth as int, ndigits as int, extended, slots, 0);
        let ghost mi = m_digit_from(p0, depth as int, ndigits as int, extended, slots, i as int);
        let ghost mn = m_digit_from(
            p0,
            depth as int,
            ndigits as int,
            extended,
            slots,
            i as int + 1,
        );
        let d: u32 = if i == 9 {
            0
        } else {
            i + 1
        };
        let ghost ov0 = out@;
        gen_digit_step(index, depth, ndigits + 1, buf, out, extended, d);
        proof {
            lemma_gen_extends_trans(out0, ov0, out@, slots);
            if m1.1 {
                assert(out_view(out@) + mn.0 =~= out_view(out0) + m1.0);
            }
        }
        i = i + 1;
    }
    proof {
        let m1 = m_digit_from(p0, depth as int, ndigits as int, extended, slots, 0);
        if m1.1 {
            assert(out_view(out@) =~= out_view(out@) + m_digit_from(
                p0,
                depth as int,
                ndigits as int,
                extended,
                slots,
                10,
            ).0);
            assert(out_view(out@) == out_view(out0) + m1.0);
        }
    }
}

/// Place one of the four operators at `index` and explore what may follow:
/// a number, or a parenthesized group. A group emitted here turns the
/// extended alphabet on for everything inside it, whatever the mode; only a
/// group in the very first slot is reserved to extended mode.
#[verifier::rlimit(100)]
#[verifier::spinoff_prover]
pub fn gen_oper(
    index: usize,
    depth: usize,
    buf: &mut Vec<char>,
    out: &mut Vec<String>,
    extended: bool,
)
    requires
        old(buf).len() >= 3,
        index <= old(buf).len(),
        depth <= index,
    ensures
        final(buf).len() == old(buf).len(),
        final(buf)@.take(index as int) == old(buf)@.take(index as int),
        gen_extends(old(out)@, final(out)@, old(buf).len() as nat),
        ({
            let m = m_oper(
                old(buf)@.take(index as int),
                depth as int,
                extended,
                old(buf).len() as nat,
            );
            m.1 ==> out_view(final(out)@) == out_view(old(out)@) + m.0
        }),
    decreases old(buf).len() - index, 3int,
{
    let ghost out0 = out@;
    let ghost slots = buf.len() as nat;
    let ghost p0 = buf@.take(index as int);
    if index > buf.len() - 3 {
        proof {
            assert(out_view(out@) =~= out_view(out0) + m_oper(
                p0,
                depth as int,
                extended,
                slots,
            ).0);
        }
        return ;
    }
    let mut i: u32 = 0;
    while i < 4
        invariant
            i <= 4,
            buf.len() == old(buf).len(),
            buf.len() >= 3,
            index + 3 <= buf.len(),
            depth <= index,
            slots == buf.len() as nat,
            buf@.take(index as int) == p0,
            gen_extends(out0, out@, slots),
            ({
                let m1 = m_oper_from(p0, depth as int, extended, slots, 0);
                let mi = m_oper_from(p0, depth as int, extended, slots, i as int);
                m1.1 ==> (mi.1 && out_view(out@) + mi.0 == out_view(out0) + m1.0)
            }),
        decreases 4 - i,
    {
        let ghost m1 = m_oper_from(p0, depth as int, extended, slots, 0);
        let ghost mi = m_oper_from(p0, depth as int, extended, slots, i as int);
        let ghost mn = m_oper_from(p0, depth as int, extended, slots, i as int + 1);
        let op: char = if i == 0 {
            '-'
        } else if i == 1 {
            '+'
        } else if i == 2 {
            '*'
        } else {
            '/'
        };
        buf[index] = op;
        proof {
            assert(op == oper_char(i as int));
            assert(buf@.take(index as int) =~= p0);
            assert(buf@.take(index as int + 1) =~= p0.push(oper_char(i as int)));
        }
        let ghost p2 = p0.push(oper_char(i as int));
        let ghost ov0 = out@;
        gen_nz_digit(index + 1, depth, buf, out, extended);
        proof {
            lemma_gen_extends_trans(out0, ov0, out@, slots);
            assert(buf@.take(index as int + 1) =~= p2);
            assert(buf@.take(index as int) =~= p0);
            if m1.1 {
                assert(out_view(out@) =~= out_view(ov0) + m_nz(p2, depth as int, extended, slots).0);
            }
        }
        let ghost o2 = out@;
        gen_open(index + 1, depth, buf, out);
        proof {
            lemma_gen_extends_trans(out0, o2, out@, slots);
            assert(buf@.take(index as int + 1) =~= p2);
            assert(buf@.take(index as int) =~= p0);
            if m1.1 {
                assert(out_view(out@) =~= out_view(ov0) + m_nz(p2, depth as int, extended, slots).0
                    + m_open(p2, depth as int, slots).0);
                assert(out_view(out@) + mn.0 =~= out_view(out0) + m1.0);
            }
        }
        i = i + 1;
    }
    proof {
        let m1 = m_oper_from(p0, depth as int, extended, slots, 0);
        if m1.1 {
            assert(out_view(out@) =~= out_view(out@) + m_oper_from(
                p0,
                depth as int,
                extended,
                slots,
                4,
            ).0);
            assert(out_view(out@) == out_view(out0) + m1.0);
        }
    }
}

/// Place a square mark (`s`) at `index` and explore every continuation.
#[verifier::loop_isolation(false)]
pub fn gen_squared(index: usize, depth: usize, buf: &mut Vec<char>, out: &mut Vec<String>)
    requires
        old(buf).len() >= 3,
        index <= old(buf).len(),
        depth <= index,
    ensures
        final(buf).len() == old(buf).len(),
        final(buf)@.take(index as int) == old(buf)@.take(index as int),
        gen_extends(old(out)@, final(out)@, old(buf).len() as nat),
        ({
            let m = m_sq(old(buf)@.take(index as int), depth as int, old(buf).len() as nat);
            m.1 ==> out_view(final(out)@) == out_view(old(out)@) + m.0
        }),
    decreases old(buf).len() - index, 4int,
{
    let ghost out0 = out@;
    let ghost slots = buf.len() as nat;
    let ghost p0 = buf@.take(index as int);
    let ghost m = m_sq(p0, depth as int, slots);
    if index > buf.len() - 2 {
        proof {
            assert(out_view(out@) =~= out_view(out0) + m.0);
        }
        return ;
    }
    buf[index] = 's';
    proof {
        assert(buf@.take(index as int) =~= p0);
        assert(buf@.take(index as int + 1) =~= p0.push('s'));
    }
    let ghost p2 = p0.push('s');
    let ghost ov0 = out@;
    if index >= 3 {
        try_gen_eq(index + 1, depth, buf, out);
        proof {
            lemma_gen_extends_trans(out0, ov0, out@, slots);
        }
    }
    proof {
        if m.1 {
            if index >= 3 {
                assert(out_view(out@) =~= out_view(ov0) + m_try(p2, depth as int, slots).0);
            } else {
                assert(out_view(out@) =~= out_view(ov0));
            }
        }
    }
    let ghost o2 = out@;
    gen_oper(index + 1, depth, buf, out, true);
    proof {
        lemma_gen_extends_trans(out0, o2, out@, slots);
        assert(buf@.take(index as int + 1) =~= p2);
        assert(buf@.take(index as int) =~= p0);
        if m.1 {
            assert(out_view(out@) =~= out_view(o2) + m_oper(p2, depth as int, true, slots).0);
        }
    }
    if depth > 0 {
        let ghost o3 = out@;
        gen_close(index + 1, depth, buf, out);
        proof {
            lemma_gen_extends_trans(out0, o3, out@, slots);
            assert(buf@.take(index as int + 1) =~= p2);
            assert(buf@.take(index as int) =~= p0);
            if m.1 {
                assert(out_view(out@) =~= out_view(o3) + m_close(p2, depth as int, slots).0);
            }
        }
    }
    proof {
        if m.1 {
            assert(out_view(out@) =~= out_view(out0) + m.0);
        }
    }
}

/// Place a cube mark (`c`) at `index` and explore every continuation.
#[verifier::loop_isolation(false)]
pub fn gen_cubed(index: usize, depth: usize, buf: &mut Vec<char>, out: &mut Vec<String>)
    requires
        old(buf).len() >= 3,
        index <= old(buf).len(),
        depth <= index,
    ensures
        final(buf).len() == old(buf).len(),
        final(buf)@.take(index as int) == old(buf)@.take(index as int),
        gen_extends(old(out)@, final(out)@, old(buf).len() as nat),
        ({
            let m = m_cu(old(buf)@.take(index as int), depth as int, old(buf).len() as nat);
            m.1 ==> out_view(final(out)@) == out_view(old(out)@) + m.0
        }),
    decreases old(buf).len() - index, 4int,
{
    let ghost out0 = out@;
    let ghost slots = buf.len() as nat;
    let ghost p0 = buf@.take(index as int);
    let ghost m = m_cu(p0, depth as int, slots);
    if index > buf.len() - 2 {
        proof {
            assert(out_view(out@) =~= out_view(out0) + m.0);
        }
        return ;
    }
    buf[index] = 'c';
    proof {
        assert(buf@.take(index as int) =~= p0);
        assert(buf@.take(index as int + 1) =~= p0.push('c'));
    }
    let ghost p2 = p0.push('c');
    let ghost ov0 = out@;
    if index >= 2 {
        try_gen_eq(index + 1, depth, buf, out);
        proof {
            lemma_gen_extends_trans(out0, ov0, out@, slots);
        }
    }
    proof {
        if m.1 {
            if index >= 2 {
                assert(out_view(out@) =~= out_view(ov0) + m_try(p2, depth as int, slots).0);
            } else {
                assert(out_view(out@) =~= out_view(ov0));
            }
        }
    }
    let ghost o2 = out@;
    gen_oper(index + 1, depth, buf, out, true);
    proof {
        lemma_gen_extends_trans(out0, o2, out@, slots);
        assert(buf@.take(index as int + 1) =~= p2);
        assert(buf@.take(index as int) =~= p0);
        if m.1 {
            assert(out_view(out@) =~= out_view(o2) + m_oper(p2, depth as int, true, slots).0);
        }
    }
    if depth > 0 {
        let ghost o3 = out@;
        gen_close(index + 1, depth, buf, out);
        proof {
            lemma_gen_extends_trans(out0, o3, out@, slots);
            assert(buf@.take(index as int + 1) =~= p2);
            assert(buf@.take(index as int) =~= p0);
            if m.1 {
                assert(out_view(out@) =~= out_view(o3) + m_close(p2, depth as int, slots).0);
            }
        }
    }
    proof {
        if m.1 {
            assert(out_view(out@) =~= out_view(out0) + m.0);
        }
    }
}

/// Place an opening parenthesis at `index` and explore every continuation.
#[verifier::loop_isolation(false)]
pub fn gen_open(index: usize, depth: usize, buf: &mut Vec<char>, out: &mut Vec<String>)
    requires
        old(buf).len() >= 3,
        index <= old(buf).len(),
        depth <= index,
    ensures
        final(buf).len() == old(buf).len(),
        final(buf)@.take(index as int) == old(buf)@.take(index as int),
        gen_extends(old(out)@, final(out)@, old(buf).len() as nat),
        ({
            let m = m_open(old(buf)@.take(index as int), depth as int, old(buf).len() as nat);
            m.1 ==> out_view(final(out)@) == out_view(old(out)@) + m.0
        }),
    decreases old(buf).len() - index, 3int,
{
    let ghost out0 = out@;
    let ghost slots = buf.len() as nat;
    let ghost p0 = buf@.take(index as int);
    let ghost m = m_open(p0, depth as int, slots);
    if index > buf.len() - 3 {
        proof {
            assert(out_view(out@) =~= out_view(out0) + m.0);
        }
        return ;
    }
    buf[index] = '(';
    proof {
        assert(buf@.take(index as int) =~= p0);
        assert(buf@.take(index as int + 1) =~= p0.push('('));
    }
    let ghost p2 = p0.push('(');
    let ghost ov0 = out@;
    gen_nz_digit(index + 1, depth + 1, buf, out, true);
    proof {
        lemma_gen_extends_trans(out0, ov0, out@, slots);
        assert(buf@.take(index as int + 1) =~= p2);
        assert(buf@.take(index as int) =~= p0);
        if m.1 {
            assert(out_view(out@) =~= out_view(ov0) + m_nz(p2, depth as int + 1, true, slots).0);
        }
    }
    let ghost o2 = out@;
    gen_open(index + 1, depth + 1, buf, out);
    proof {
        lemma_gen_extends_trans(out0, o2, out@, slots);
        assert(buf@.take(index as int + 1) =~= p2);
        assert(buf@.take(index as int) =~= p0);
        if m.1 {
            assert(out_view(out@) =~= out_view(o2) + m_open(p2, depth as int + 1, slots).0);
            assert(out_view(out@) =~= out_view(out0) + m.0);
        }
    }
}

/// Place a closing parenthesis at `index` and explore every continuation.
#[verifier::loop_isolation(false)]
#[verifier::rlimit(100)]
#[verifier::spinoff_prover]
pub fn gen_close(index: usize, depth: usize, buf: &mut Vec<char>, out: &mut Vec<String>)
    requires
        old(buf).len() >= 3,
        index <= old(buf).len(),
        depth >= 1,
        depth <= index,
    ensures
        final(buf).len() == old(buf).len(),
        final(buf)@.take(index as int) == old(buf)@.take(index as int),
        gen_extends(old(out)@, final(out)@, old(buf).len() as nat),
        ({
            let m = m_close(old(buf)@.take(index as int), depth as int, old(buf).len() as nat);
            m.1 ==> out_view(final(out)@) == out_view(old(out)@) + m.0
        }),
    decreases old(buf).len() - index, 4int,
{
    let ghost out0 = out@;
    let ghost slots = buf.len() as nat;
    let ghost p0 = buf@.take(index as int);
    let ghost m = m_close(p0, depth as int, slots);
    if index > buf.len() - 2 {
        proof {
            assert(out_view(out@) =~= out_view(out0) + m.0);
        }
        return ;
    }
    buf[index] = ')';
    proof {
        assert(buf@.take(index as int) =~= p0);
        assert(buf@.take(index as int + 1) =~= p0.push(')'));
    }
    let ghost p2 = p0.push(')');
    let ghost ov0 = out@;
    try_gen_eq(index + 1, depth - 1, buf, out);
    proof {
        lemma_gen_extends_trans(out0, ov0, out@, slots);
        if m.1 {
            assert(out_view(out@) =~= out_view(ov0) + m_try(p2, depth as int - 1, slots).0);
        }
    }
    let ghost o2 = out@;
    gen_oper(index + 1, depth - 1, buf, out, true);
    proof {
        lemma_gen_extends_trans(out0, o2, out@, slots);
        assert(buf@.take(index as int + 1) =~= p2);
        assert(buf@.take(index as int) =~= p0);
        if m.1 {
            assert(out_view(out@) =~= out_view(o2) + m_oper(p2, depth as int - 1, true, slots).0);
        }
    }
    let ghost o3 = out@;
    gen_squared(index + 1, depth - 1, buf, out);
    proof {
        lemma_gen_extends_trans(out0, o3, out@, slots);
        assert(buf@.take(index as int + 1) =~= p2);
        assert(buf@.take(index as int) =~= p0);
        if m.1 {
            assert(out_view(out@) =~= out_view(o3) + m_sq(p2, depth as int - 1, slots).0);
        }
    }
    let ghost o4 = out@;
    gen_cubed(index + 1, depth - 1, buf, out);
    proof {
        lemma_gen_extends_trans(out0, o4, out@, slots);
        assert(buf@.take(index as int + 1) =~= p2);
        assert(buf@.take(index as int) =~= p0);
        if m.1 {
            assert(out_view(out@) =~= out_view(o4) + m_cu(p2, depth as int - 1, slots).0);
        }
    }
    if depth - 1 > 0 {
        let ghost o5 = out@;
        gen_close(index + 1, depth - 1, buf, out);
        proof {
            lemma_gen_extends_trans(out0, o5, out@, slots);
            assert(buf@.take(index as int + 1) =~= p2);
            assert(buf@.take(index as int) =~= p0);
            if m.1 {
                assert(out_view(out@) =~= out_view(o5) + m_close(p2, depth as int - 1, slots).0);
            }
        }
    }
    proof {
        if m.1 {
            assert(out_view(out@) =~= out_view(out0) + m.0);
        }
    }
}

/// Push every valid equation of exactly `slots` characters onto `out`, in a
/// fixed deterministic order. With `extended` set, parentheses and the
/// square/cube marks take part.
#[verifier::loop_isolation(false)]
pub fn gen(slots: usize, out: &mut Vec<String>, extended: bool)
    requires
        slots >= 3,
    ensures
        gen_extends(old(out)@, final(out)@, slots as nat),
        ({
            let m = m_gen(slots as nat, extended);
            m.1 ==> out_view(final(out)@) == out_view(old(out)@) + m.0
        }),
{
    let mut buf: Vec<char> = Vec::new();
    let mut i: usize = 0;
    while i < slots
        invariant
            i <= slots,
            buf.len() == i,
        decreases slots - i,
    {
        buf.push('0');
        i = i + 1;
    }
    let ghost out0 = out@;
    let ghost m = m_gen(slots as nat, extended);
    proof {
        assert(buf@.take(0) =~= Seq::<char>::empty());
    }
    gen_nz_digit(0, 0, &mut buf, out, extended);
    proof {
        if m.1 {
            assert(out_view(out@) =~= out_view(out0) + m_nz(
                Seq::empty(),
                0,
                extended,
                slots as nat,
            ).0);
        }
    }
    if extended {
        let ghost o1 = out@;
        gen_open(0, 0, &mut buf, out);
        proof {
            lemma_gen_extends_trans(out0, o1, out@, slots as nat);
            assert(buf@.take(0) =~= Seq::<char>::empty());
            if m.1 {
                assert(out_view(out@) =~= out_view(o1) + m_open(Seq::empty(), 0, slots as nat).0);
            }
        }
    }
    proof {
        if m.1 {
            assert(out_view(out@) =~= out_view(out0) + m.0);
        }
    }
}

} // verus!
