//! Feedback masks: scoring a guess against a truth with duplicate-aware
//! multiset accounting, testing a candidate against a mask, and parsing an
//! operator-entered mask string.
//!
//! A mask partitions the guess's `(position, character)` pairs into three
//! sets: correct, present-elsewhere ("incorrect" position), and absent. A
//! character of the guess is present-elsewhere only while the truth still
//! has an unconsumed occurrence of it outside the correct positions; each
//! truth occurrence is consumed at most once, scanning left to right.

use vstd::prelude::*;
use crate::text::{str_chars, spec_normalize_power, normalize_power};

verus! {

/// The mathematical content of a mask: the three pair sequences, in
/// position order.
pub type MasksV = (Seq<(usize, char)>, Seq<(usize, char)>, Seq<(usize, char)>);

/// Occurrences of `c` in the truth at guess-mismatched positions before `i`.
pub open spec fn cnt_truth_upto(g: Seq<char>, t: Seq<char>, c: char, i: int) -> int
    decreases i,
{
    if i <= 0 {
        0
    } else {
        cnt_truth_upto(g, t, c, i - 1) + if g[i - 1] != t[i - 1] && t[i - 1] == c {
            1int
        } else {
            0int
        }
    }
}

/// All unconsumed-eligible occurrences of `c` in the truth.
pub open spec fn cnt_truth(g: Seq<char>, t: Seq<char>, c: char) -> int {
    cnt_truth_upto(g, t, c, g.len() as int)
}

/// How many guess positions before `i` holding `c` were classified
/// present-elsewhere: each consumes one eligible truth occurrence, so the
/// count stops growing once it reaches `cnt_truth`.
pub open spec fn inc_upto(g: Seq<char>, t: Seq<char>, c: char, i: int) -> int
    decreases i,
{
    if i <= 0 {
        0
    } else {
        inc_upto(g, t, c, i - 1) + if g[i - 1] != t[i - 1] && g[i - 1] == c && inc_upto(
            g,
            t,
            c,
            i - 1,
        ) < cnt_truth(g, t, c) {
            1int
        } else {
            0int
        }
    }
}

pub open spec fn is_correct_at(g: Seq<char>, t: Seq<char>, j: int) -> bool {
    g[j] == t[j]
}

pub open spec fn is_incorrect_at(g: Seq<char>, t: Seq<char>, j: int) -> bool {
    g[j] != t[j] && inc_upto(g, t, g[j], j) < cnt_truth(g, t, g[j])
}

pub open spec fn is_absent_at(g: Seq<char>, t: Seq<char>, j: int) -> bool {
    g[j] != t[j] && !(inc_upto(g, t, g[j], j) < cnt_truth(g, t, g[j]))
}

pub open spec fn score_correct(g: Seq<char>, t: Seq<char>, i: int) -> Seq<(usize, char)>
    decreases i,
{
    if i <= 0 {
        Seq::empty()
    } else {
        score_correct(g, t, i - 1) + if is_correct_at(g, t, i - 1) {
            seq![(((i - 1) as usize), g[i - 1])]
        } else {
            Seq::empty()
        }
    }
}

pub open spec fn score_incorrect(g: Seq<char>, t: Seq<char>, i: int) -> Seq<(usize, char)>
    decreases i,
{
    if i <= 0 {
        Seq::empty()
    } else {
        score_incorrect(g, t, i - 1) + if is_incorrect_at(g, t, i - 1) {
            seq![(((i - 1) as usize), g[i - 1])]
        } else {
            Seq::empty()
        }
    }
}

pub open spec fn score_absent(g: Seq<char>, t: Seq<char>, i: int) -> Seq<(usize, char)>
    decreases i,
{
    if i <= 0 {
        Seq::empty()
    } else {
        score_absent(g, t, i - 1) + if is_absent_at(g, t, i - 1) {
            seq![(((i - 1) as usize), g[i - 1])]
        } else {
            Seq::empty()
        }
    }
}

/// The mask that scoring `g` against `t` yields.
pub open spec fn spec_score(g: Seq<char>, t: Seq<char>) -> MasksV {
    (
        score_correct(g, t, g.len() as int),
        score_incorrect(g, t, g.len() as int),
        score_absent(g, t, g.len() as int),
    )
}

/// How many pairs of `s` carry the character `c`.
pub open spec fn pair_count(s: Seq<(usize, char)>, c: char) -> int
    decreases s.len(),
{
    if s.len() == 0 {
        0
    } else {
        pair_count(s.drop_last(), c) + if s.last().1 == c {
            1int
        } else {
            0int
        }
    }
}

/// Occurrences of `c` in the candidate before `i`, outside the mask's
/// correct positions.
pub open spec fn avail_upto(
    cand: Seq<char>,
    correct: Seq<(usize, char)>,
    c: char,
    i: int,
) -> int
    decreases i,
{
    if i <= 0 {
        0
    } else {
        avail_upto(cand, correct, c, i - 1) + if cand[i - 1] == c && !correct.contains(
            (((i - 1) as usize), cand[i - 1]),
        ) {
            1int
        } else {
            0int
        }
    }
}

pub open spec fn avail(cand: Seq<char>, correct: Seq<(usize, char)>, c: char) -> int {
    avail_upto(cand, correct, c, cand.len() as int)
}

/// A candidate is consistent with a mask: every correct pair matches it
/// exactly; no present-elsewhere or absent pair sits at its recorded
/// position; the candidate has enough non-correct occurrences to feed every
/// present-elsewhere entry of each character; and for an absent character,
/// none is left over after that consumption.
pub open spec fn spec_matches(cand: Seq<char>, m: MasksV) -> bool {
    &&& forall|p: (usize, char)| #[trigger]
        m.0.contains(p) ==> p.0 < cand.len() && cand[p.0 as int] == p.1
    &&& forall|p: (usize, char)| #[trigger]
        m.1.contains(p) ==> !(p.0 < cand.len() && cand[p.0 as int] == p.1)
    &&& forall|p: (usize, char)| #[trigger]
        m.2.contains(p) ==> !(p.0 < cand.len() && cand[p.0 as int] == p.1)
    &&& forall|c: char| #[trigger] pair_count(m.1, c) <= avail(cand, m.0, c)
    &&& forall|p: (usize, char)| #[trigger]
        m.2.contains(p) ==> avail(cand, m.0, p.1) == pair_count(m.1, p.1)
}

/// A feedback mask over a guess: the three disjoint pair sets.
#[derive(Debug)]
pub struct Masks {
    pub correct: Vec<(usize, char)>,
    pub incorrect: Vec<(usize, char)>,
    pub not_present: Vec<(usize, char)>,
}

impl View for Masks {
    type V = MasksV;

    open spec fn view(&self) -> MasksV {
        (self.correct@, self.incorrect@, self.not_present@)
    }
}

fn vec_pairs_eq(a: &Vec<(usize, char)>, b: &Vec<(usize, char)>) -> (r: bool)
    ensures
        r == (a@ == b@),
{
    if a.len() != b.len() {
        return false;
    }
    let mut i: usize = 0;
    while i < a.len()
        invariant
            i <= a.len(),
            a.len() == b.len(),
            forall|k: int| 0 <= k < i ==> a@[k] == b@[k],
        decreases a.len() - i,
    {
        let (p0, p1) = a[i];
        let (q0, q1) = b[i];
        if p0 != q0 || p1 != q1 {
            return false;
        }
        i = i + 1;
    }
    proof {
        assert(a@ =~= b@);
    }
    true
}

impl PartialEq for Masks {
    fn eq(&self, other: &Masks) -> (r: bool) {
        vec_pairs_eq(&self.correct, &other.correct) && vec_pairs_eq(
            &self.incorrect,
            &other.incorrect,
        ) && vec_pairs_eq(&self.not_present, &other.not_present)
    }
}

impl vstd::std_specs::cmp::PartialEqSpecImpl for Masks {
    open spec fn obeys_eq_spec() -> bool {
        true
    }

    open spec fn eq_spec(&self, other: &Masks) -> bool {
        self@ == other@
    }
}

/// Count the eligible occurrences of `c` in the truth.
fn count_truth_ex(gv: &Vec<char>, tv: &Vec<char>, c: char) -> (r: usize)
    requires
        gv.len() == tv.len(),
    ensures
        r as int == cnt_truth(gv@, tv@, c),
{
    let mut r: usize = 0;
    let mut j: usize = 0;
    while j < gv.len()
        invariant
            j <= gv.len(),
            gv.len() == tv.len(),
            r as int == cnt_truth_upto(gv@, tv@, c, j as int),
            r <= j,
        decreases gv.len() - j,
    {
        if gv[j] != tv[j] && tv[j] == c {
            r = r + 1;
        }
        j = j + 1;
    }
    r
}

/// Count the pairs of `v` that carry `c`.
fn count_char_pairs(v: &Vec<(usize, char)>, c: char) -> (r: usize)
    ensures
        r as int == pair_count(v@, c),
{
    let mut r: usize = 0;
    let mut j: usize = 0;
    while j < v.len()
        invariant
            j <= v.len(),
            r as int == pair_count(v@.take(j as int), c),
            r <= j,
        decreases v.len() - j,
    {
        proof {
            assert(v@.take(j as int + 1).drop_last() =~= v@.take(j as int));
            assert(v@.take(j as int + 1).last() == v@[j as int]);
        }
        if v[j].1 == c {
            r = r + 1;
        }
        j = j + 1;
    }
    proof {
        assert(v@.take(v@.len() as int) =~= v@);
    }
    r
}

/// The present-elsewhere pairs before `i` carrying `c` are exactly the
/// consumption count.
proof fn lemma_pair_count_incorrect(g: Seq<char>, t: Seq<char>, c: char, i: int)
    ensures
        pair_count(score_incorrect(g, t, i), c) == inc_upto(g, t, c, i),
    decreases i,
{
    if i <= 0 {
    } else {
        lemma_pair_count_incorrect(g, t, c, i - 1);
        let prev = score_incorrect(g, t, i - 1);
        if is_incorrect_at(g, t, i - 1) {
            let p = (((i - 1) as usize), g[i - 1]);
            assert((prev + seq![p]).drop_last() =~= prev);
            assert((prev + seq![p]).last() == p);
        } else {
            assert(prev + Seq::<(usize, char)>::empty() =~= prev);
        }
    }
}

/// Consumption never exceeds what the truth offers, and never shrinks.
proof fn lemma_inc_upto_bounds(g: Seq<char>, t: Seq<char>, c: char, i: int)
    ensures
        inc_upto(g, t, c, i) <= cnt_truth(g, t, c) || inc_upto(g, t, c, i) <= 0,
        forall|i2: int| i <= i2 ==> inc_upto(g, t, c, i) <= #[trigger] inc_upto(g, t, c, i2),
        0 <= inc_upto(g, t, c, i),
    decreases i,
{
    if i <= 0 {
        assert forall|i2: int| i <= i2 implies inc_upto(g, t, c, i) <= #[trigger] inc_upto(
            g,
            t,
            c,
            i2,
        ) by {
            lemma_inc_upto_nonneg(g, t, c, i2);
        }
    } else {
        lemma_inc_upto_bounds(g, t, c, i - 1);
        assert forall|i2: int| i <= i2 implies inc_upto(g, t, c, i) <= #[trigger] inc_upto(
            g,
            t,
            c,
            i2,
        ) by {
            lemma_inc_upto_step_mono(g, t, c, i, i2);
        }
    }
}

proof fn lemma_inc_upto_nonneg(g: Seq<char>, t: Seq<char>, c: char, i: int)
    ensures
        0 <= inc_upto(g, t, c, i),
    decreases i,
{
    if i > 0 {
        lemma_inc_upto_nonneg(g, t, c, i - 1);
    }
}

proof fn lemma_inc_upto_step_mono(g: Seq<char>, t: Seq<char>, c: char, i: int, i2: int)
    requires
        i <= i2,
    ensures
        inc_upto(g, t, c, i) <= inc_upto(g, t, c, i2),
    decreases i2 - i,
{
    if i < i2 {
        lemma_inc_upto_step_mono(g, t, c, i, i2 - 1);
    }
}

/// Score a guess against the truth, reconciling duplicate characters
/// against the truth's multiset of eligible occurrences.
pub fn score(guess: &str, truth: &str) -> (m: Masks)
    requires
        guess@.len() == truth@.len(),
    ensures
        m@ == spec_score(guess@, truth@),
{
    let gv = str_chars(guess);
    let tv = str_chars(truth);
    let n = gv.len();
    let mut correct: Vec<(usize, char)> = Vec::new();
    let mut i: usize = 0;
    while i < n
        invariant
            i <= n,
            n == gv.len(),
            gv.len() == tv.len(),
            gv@ == guess@,
            tv@ == truth@,
            correct@ == score_correct(gv@, tv@, i as int),
        decreases n - i,
    {
        if gv[i] == tv[i] {
            correct.push((i, gv[i]));
            proof {
                assert(correct@ =~= score_correct(gv@, tv@, i as int + 1));
            }
        } else {
            proof {
                assert(correct@ =~= score_correct(gv@, tv@, i as int + 1));
            }
        }
        i = i + 1;
    }
    let mut incorrect: Vec<(usize, char)> = Vec::new();
    let mut not_present: Vec<(usize, char)> = Vec::new();
    let mut i: usize = 0;
    while i < n
        invariant
            i <= n,
            n == gv.len(),
            gv.len() == tv.len(),
            gv@ == guess@,
            tv@ == truth@,
            incorrect@ == score_incorrect(gv@, tv@, i as int),
            not_present@ == score_absent(gv@, tv@, i as int),
        decreases n - i,
    {
        if gv[i] != tv[i] {
            let c = gv[i];
            let total = count_truth_ex(&gv, &tv, c);
            let used = count_char_pairs(&incorrect, c);
            proof {
                lemma_pair_count_incorrect(gv@, tv@, c, i as int);
            }
            if used < total {
                incorrect.push((i, c));
            } else {
                not_present.push((i, c));
            }
        }
        proof {
            assert(incorrect@ =~= score_incorrect(gv@, tv@, i as int + 1));
            assert(not_present@ =~= score_absent(gv@, tv@, i as int + 1));
        }
        i = i + 1;
    }
    Masks { correct, incorrect, not_present }
}

proof fn lemma_cnt_truth_nonneg(g: Seq<char>, t: Seq<char>, c: char, i: int)
    ensures
        0 <= cnt_truth_upto(g, t, c, i),
    decreases i,
{
    if i > 0 {
        lemma_cnt_truth_nonneg(g, t, c, i - 1);
    }
}

proof fn lemma_pair_count_nonneg(s: Seq<(usize, char)>, c: char)
    ensures
        0 <= pair_count(s, c),
    decreases s.len(),
{
    if s.len() > 0 {
        lemma_pair_count_nonneg(s.drop_last(), c);
    }
}

proof fn lemma_avail_nonneg(cand: Seq<char>, correct: Seq<(usize, char)>, c: char, i: int)
    ensures
        0 <= avail_upto(cand, correct, c, i),
    decreases i,
{
    if i > 0 {
        lemma_avail_nonneg(cand, correct, c, i - 1);
    }
}

proof fn lemma_pair_count_pos_mem(s: Seq<(usize, char)>, c: char)
    requires
        pair_count(s, c) > 0,
    ensures
        exists|k: int| 0 <= k < s.len() && s[k].1 == c,
    decreases s.len(),
{
    if s.len() > 0 {
        if s.last().1 == c {
            assert(s[s.len() - 1].1 == c);
        } else {
            lemma_pair_count_pos_mem(s.drop_last(), c);
            let k = choose|k: int|
                0 <= k < s.drop_last().len() && s.drop_last()[k].1 == c;
            assert(s[k].1 == c);
        }
    }
}

proof fn lemma_correct_mem(g: Seq<char>, t: Seq<char>, i: int)
    requires
        0 <= i <= g.len(),
        g.len() <= usize::MAX,
    ensures
        forall|p: (usize, char)| #[trigger]
            score_correct(g, t, i).contains(p) ==> p.0 < i && is_correct_at(g, t, p.0 as int)
                && p.1 == g[p.0 as int],
        forall|j: int|
            0 <= j < i && is_correct_at(g, t, j) ==> score_correct(g, t, i).contains(
                (#[trigger] (j as usize), g[j]),
            ),
    decreases i,
{
    if i > 0 {
        lemma_correct_mem(g, t, i - 1);
        let prev = score_correct(g, t, i - 1);
        let cur = score_correct(g, t, i);
        if is_correct_at(g, t, i - 1) {
            let p = (((i - 1) as usize), g[i - 1]);
            assert(cur == prev + seq![p]);
            assert forall|q: (usize, char)| #[trigger]
                cur.contains(q) implies q.0 < i && is_correct_at(g, t, q.0 as int) && q.1 == g[q.0 as int] by {
                let k = choose|k: int| 0 <= k < cur.len() && cur[k] == q;
                if k < prev.len() {
                    assert(prev[k] == q);
                    assert(prev.contains(q));
                } else {
                    assert(q == p);
                }
            }
            assert forall|j: int| 0 <= j < i && is_correct_at(g, t, j) implies cur.contains(
                ((j as usize), g[j]),
            ) by {
                if j < i - 1 {
                    assert(prev.contains(((j as usize), g[j])));
                    let k = choose|k: int| 0 <= k < prev.len() && prev[k] == ((j as usize), g[j]);
                    assert(cur[k] == ((j as usize), g[j]));
                } else {
                    assert(cur[prev.len() as int] == p);
                }
            }
        } else {
            assert(cur =~= prev);
        }
    }
}

proof fn lemma_incorrect_mem(g: Seq<char>, t: Seq<char>, i: int)
    requires
        0 <= i <= g.len(),
        g.len() <= usize::MAX,
    ensures
        forall|p: (usize, char)| #[trigger]
            score_incorrect(g, t, i).contains(p) ==> p.0 < i && is_incorrect_at(g, t, p.0 as int)
                && p.1 == g[p.0 as int],
        forall|j: int|
            0 <= j < i && is_incorrect_at(g, t, j) ==> score_incorrect(g, t, i).contains(
                (#[trigger] (j as usize), g[j]),
            ),
    decreases i,
{
    if i > 0 {
        lemma_incorrect_mem(g, t, i - 1);
        let prev = score_incorrect(g, t, i - 1);
        let cur = score_incorrect(g, t, i);
        if is_incorrect_at(g, t, i - 1) {
            let p = (((i - 1) as usize), g[i - 1]);
            assert(cur == prev + seq![p]);
            assert forall|q: (usize, char)| #[trigger]
                cur.contains(q) implies q.0 < i && is_incorrect_at(g, t, q.0 as int) && q.1 == g[q.0 as int] by {
                let k = choose|k: int| 0 <= k < cur.len() && cur[k] == q;
                if k < prev.len() {
                    assert(prev[k] == q);
                    assert(prev.contains(q));
                } else {
                    assert(q == p);
                }
            }
            assert forall|j: int| 0 <= j < i && is_incorrect_at(g, t, j) implies cur.contains(
                ((j as usize), g[j]),
            ) by {
                if j < i - 1 {
                    assert(prev.contains(((j as usize), g[j])));
                    let k = choose|k: int| 0 <= k < prev.len() && prev[k] == ((j as usize), g[j]);
                    assert(cur[k] == ((j as usize), g[j]));
                } else {
                    assert(cur[prev.len() as int] == p);
                }
            }
        } else {
            assert(cur =~= prev);
        }
    }
}

proof fn lemma_absent_mem(g: Seq<char>, t: Seq<char>, i: int)
    requires
        0 <= i <= g.len(),
        g.len() <= usize::MAX,
    ensures
        forall|p: (usize, char)| #[trigger]
            score_absent(g, t, i).contains(p) ==> p.0 < i && is_absent_at(g, t, p.0 as int) && p.1
                == g[p.0 as int],
        forall|j: int|
            0 <= j < i && is_absent_at(g, t, j) ==> score_absent(g, t, i).contains(
                (#[trigger] (j as usize), g[j]),
            ),
    decreases i,
{
    if i > 0 {
        lemma_absent_mem(g, t, i - 1);
        let prev = score_absent(g, t, i - 1);
        let cur = score_absent(g, t, i);
        if is_absent_at(g, t, i - 1) {
            let p = (((i - 1) as usize), g[i - 1]);
            assert(cur == prev + seq![p]);
            assert forall|q: (usize, char)| #[trigger]
                cur.contains(q) implies q.0 < i && is_absent_at(g, t, q.0 as int) && q.1 == g[q.0 as int] by {
                let k = choose|k: int| 0 <= k < cur.len() && cur[k] == q;
                if k < prev.len() {
                    assert(prev[k] == q);
                    assert(prev.contains(q));
                } else {
                    assert(q == p);
                }
            }
            assert forall|j: int| 0 <= j < i && is_absent_at(g, t, j) implies cur.contains(
                ((j as usize), g[j]),
            ) by {
                if j < i - 1 {
                    assert(prev.contains(((j as usize), g[j])));
                    let k = choose|k: int| 0 <= k < prev.len() && prev[k] == ((j as usize), g[j]);
                    assert(cur[k] == ((j as usize), g[j]));
                } else {
                    assert(cur[prev.len() as int] == p);
                }
            }
        } else {
            assert(cur =~= prev);
        }
    }
}

/// On the truth itself, the candidate occurrences outside correct positions
/// are exactly the eligible truth occurrences.
proof fn lemma_avail_eq_cnt(g: Seq<char>, t: Seq<char>, c: char, i: int)
    requires
        g.len() == t.len(),
        0 <= i <= t.len(),
        g.len() <= usize::MAX,
    ensures
        avail_upto(t, score_correct(g, t, g.len() as int), c, i) == cnt_truth_upto(g, t, c, i),
    decreases i,
{
    if i > 0 {
        lemma_avail_eq_cnt(g, t, c, i - 1);
        let cseq = score_correct(g, t, g.len() as int);
        lemma_correct_mem(g, t, g.len() as int);
        if g[i - 1] == t[i - 1] {
            assert(cseq.contains((((i - 1) as usize), g[i - 1])));
        } else {
            if cseq.contains((((i - 1) as usize), t[i - 1])) {
                assert(is_correct_at(g, t, i - 1));
            }
        }
    }
}

/// The truth is always consistent with the mask its own scoring yields.
pub proof fn lemma_score_matches_truth(g: Seq<char>, t: Seq<char>)
    requires
        g.len() == t.len(),
        g.len() <= usize::MAX,
    ensures
        spec_matches(t, spec_score(g, t)),
{
    let n = g.len() as int;
    let m = spec_score(g, t);
    lemma_correct_mem(g, t, n);
    lemma_incorrect_mem(g, t, n);
    lemma_absent_mem(g, t, n);
    assert forall|c: char| #[trigger] pair_count(m.1, c) <= avail(t, m.0, c) by {
        lemma_pair_count_incorrect(g, t, c, n);
        lemma_inc_upto_bounds(g, t, c, n);
        lemma_cnt_truth_nonneg(g, t, c, n);
        lemma_avail_eq_cnt(g, t, c, t.len() as int);
    }
    assert forall|p: (usize, char)| #[trigger]
        m.2.contains(p) implies avail(t, m.0, p.1) == pair_count(m.1, p.1) by {
        let j = p.0 as int;
        let c = p.1;
        assert(is_absent_at(g, t, j) && c == g[j]);
        lemma_pair_count_incorrect(g, t, c, n);
        lemma_inc_upto_bounds(g, t, c, j);
        lemma_inc_upto_bounds(g, t, c, n);
        lemma_cnt_truth_nonneg(g, t, c, n);
        lemma_avail_eq_cnt(g, t, c, t.len() as int);
        assert(inc_upto(g, t, c, j) >= cnt_truth(g, t, c));
        assert(inc_upto(g, t, c, n) >= inc_upto(g, t, c, j));
        assert(inc_upto(g, t, c, n) <= cnt_truth(g, t, c));
    }
}

fn contains_pair(v: &Vec<(usize, char)>, pos: usize, c: char) -> (r: bool)
    ensures
        r == v@.contains((pos, c)),
{
    let mut j: usize = 0;
    while j < v.len()
        invariant
            j <= v.len(),
            forall|k: int| 0 <= k < j ==> v@[k] != (pos, c),
        decreases v.len() - j,
    {
        let (p0, p1) = v[j];
        if p0 == pos && p1 == c {
            return true;
        }
        j = j + 1;
    }
    false
}

/// Count occurrences of `c` in the candidate outside the mask's correct
/// positions.
fn count_avail(cv: &Vec<char>, correct: &Vec<(usize, char)>, c: char) -> (r: usize)
    ensures
        r as int == avail(cv@, correct@, c),
{
    let mut r: usize = 0;
    let mut i: usize = 0;
    while i < cv.len()
        invariant
            i <= cv.len(),
            r as int == avail_upto(cv@, correct@, c, i as int),
            r <= i,
        decreases cv.len() - i,
    {
        if cv[i] == c && !contains_pair(correct, i, cv[i]) {
            r = r + 1;
        }
        i = i + 1;
    }
    r
}

/// Whether a candidate is consistent with the mask, by count-based
/// duplicate accounting.
pub fn matches_mask(candidate: &str, m: &Masks) -> (r: bool)
    ensures
        r == spec_matches(candidate@, m@),
{
    let cv = str_chars(candidate);
    let mut idx: usize = 0;
    while idx < m.correct.len()
        invariant
            idx <= m.correct.len(),
            cv@ == candidate@,
            forall|k: int|
                0 <= k < idx ==> (#[trigger] m.correct@[k]).0 < cv@.len() && cv@[m.correct@[k].0 as int]
                    == m.correct@[k].1,
        decreases m.correct.len() - idx,
    {
        let (pos, c) = m.correct[idx];
        if !(pos < cv.len() && cv[pos] == c) {
            proof {
                assert(m@.0.contains(m.correct@[idx as int]));
            }
            return false;
        }
        idx = idx + 1;
    }
    let mut idx: usize = 0;
    while idx < m.incorrect.len()
        invariant
            idx <= m.incorrect.len(),
            cv@ == candidate@,
            forall|k: int|
                0 <= k < idx ==> !((#[trigger] m.incorrect@[k]).0 < cv@.len() && cv@[m.incorrect@[k].0 as int]
                    == m.incorrect@[k].1),
        decreases m.incorrect.len() - idx,
    {
        let (pos, c) = m.incorrect[idx];
        if pos < cv.len() && cv[pos] == c {
            proof {
                assert(m@.1.contains(m.incorrect@[idx as int]));
            }
            return false;
        }
        idx = idx + 1;
    }
    let mut idx: usize = 0;
    while idx < m.not_present.len()
        invariant
            idx <= m.not_present.len(),
            cv@ == candidate@,
            forall|k: int|
                0 <= k < idx ==> !((#[trigger] m.not_present@[k]).0 < cv@.len()
                    && cv@[m.not_present@[k].0 as int] == m.not_present@[k].1),
        decreases m.not_present.len() - idx,
    {
        let (pos, c) = m.not_present[idx];
        if pos < cv.len() && cv[pos] == c {
            proof {
                assert(m@.2.contains(m.not_present@[idx as int]));
            }
            return false;
        }
        idx = idx + 1;
    }
    let mut idx: usize = 0;
    while idx < m.incorrect.len()
        invariant
            idx <= m.incorrect.len(),
            cv@ == candidate@,
            forall|k: int|
                0 <= k < idx ==> pair_count(m.incorrect@, (#[trigger] m.incorrect@[k]).1) <= avail(
                    cv@,
                    m.correct@,
                    m.incorrect@[k].1,
                ),
        decreases m.incorrect.len() - idx,
    {
        let (_, c) = m.incorrect[idx];
        let pc = count_char_pairs(&m.incorrect, c);
        let av = count_avail(&cv, &m.correct, c);
        if pc > av {
            proof {
                assert(pair_count(m@.1, c) > avail(candidate@, m@.0, c));
            }
            return false;
        }
        idx = idx + 1;
    }
    let mut idx: usize = 0;
    while idx < m.not_present.len()
        invariant
            idx <= m.not_present.len(),
            cv@ == candidate@,
            forall|k: int|
                0 <= k < idx ==> avail(cv@, m.correct@, (#[trigger] m.not_present@[k]).1)
                    == pair_count(m.incorrect@, m.not_present@[k].1),
        decreases m.not_present.len() - idx,
    {
        let (_, c) = m.not_present[idx];
        let pc = count_char_pairs(&m.incorrect, c);
        let av = count_avail(&cv, &m.correct, c);
        if av != pc {
            proof {
                assert(m@.2.contains(m.not_present@[idx as int]));
                assert(avail(candidate@, m@.0, c) != pair_count(m@.1, c));
            }
            return false;
        }
        idx = idx + 1;
    }
    proof {
        assert forall|p: (usize, char)| #[trigger] m@.0.contains(p) implies p.0 < cv@.len()
            && cv@[p.0 as int] == p.1 by {
            let k = choose|k: int| 0 <= k < m.correct@.len() && m.correct@[k] == p;
        }
        assert forall|p: (usize, char)| #[trigger] m@.1.contains(p) implies !(p.0 < cv@.len()
            && cv@[p.0 as int] == p.1) by {
            let k = choose|k: int| 0 <= k < m.incorrect@.len() && m.incorrect@[k] == p;
        }
        assert forall|p: (usize, char)| #[trigger] m@.2.contains(p) implies !(p.0 < cv@.len()
            && cv@[p.0 as int] == p.1) by {
            let k = choose|k: int| 0 <= k < m.not_present@.len() && m.not_present@[k] == p;
        }
        assert forall|c: char| #[trigger] pair_count(m@.1, c) <= avail(cv@, m@.0, c) by {
            lemma_pair_count_nonneg(m@.1, c);
            lemma_avail_nonneg(cv@, m@.0, c, cv@.len() as int);
            if pair_count(m@.1, c) > 0 {
                lemma_pair_count_pos_mem(m@.1, c);
                let k = choose|k: int| 0 <= k < m.incorrect@.len() && m.incorrect@[k].1 == c;
            }
        }
        assert forall|p: (usize, char)| #[trigger] m@.2.contains(p) implies avail(cv@, m@.0, p.1)
            == pair_count(m@.1, p.1) by {
            let k = choose|k: int| 0 <= k < m.not_present@.len() && m.not_present@[k] == p;
        }
    }
    true
}

pub open spec fn is_correct_code(c: char) -> bool {
    c == '2' || c == 'C' || c == 'c' || c == 'G' || c == 'g'
}

pub open spec fn is_present_code(c: char) -> bool {
    c == '1' || c == 'I' || c == 'i' || c == 'P' || c == 'p'
}

pub open spec fn is_absent_code(c: char) -> bool {
    c == '0' || c == 'N' || c == 'n' || c == 'B' || c == 'b' || c == 'R' || c == 'r' || c == ' '
}

pub open spec fn is_mask_code(c: char) -> bool {
    is_correct_code(c) || is_present_code(c) || is_absent_code(c)
}

pub open spec fn mask_correct(g: Seq<char>, mk: Seq<char>, i: int) -> Seq<(usize, char)>
    decreases i,
{
    if i <= 0 {
        Seq::empty()
    } else {
        mask_correct(g, mk, i - 1) + if is_correct_code(mk[i - 1]) {
            seq![(((i - 1) as usize), spec_normalize_power(g[i - 1]))]
        } else {
            Seq::empty()
        }
    }
}

pub open spec fn mask_present(g: Seq<char>, mk: Seq<char>, i: int) -> Seq<(usize, char)>
    decreases i,
{
    if i <= 0 {
        Seq::empty()
    } else {
        mask_present(g, mk, i - 1) + if is_present_code(mk[i - 1]) {
            seq![(((i - 1) as usize), spec_normalize_power(g[i - 1]))]
        } else {
            Seq::empty()
        }
    }
}

pub open spec fn mask_absent(g: Seq<char>, mk: Seq<char>, i: int) -> Seq<(usize, char)>
    decreases i,
{
    if i <= 0 {
        Seq::empty()
    } else {
        mask_absent(g, mk, i - 1) + if is_absent_code(mk[i - 1]) {
            seq![(((i - 1) as usize), spec_normalize_power(g[i - 1]))]
        } else {
            Seq::empty()
        }
    }
}

/// The input string accepted as a mask over this guess: same length, every
/// code recognized.
pub open spec fn mask_input_valid(g: Seq<char>, mk: Seq<char>) -> bool {
    g.len() == mk.len() && forall|j: int| 0 <= j < mk.len() ==> is_mask_code(#[trigger] mk[j])
}

/// The mask an accepted input denotes.
pub open spec fn mask_of_input(g: Seq<char>, mk: Seq<char>) -> MasksV {
    (
        mask_correct(g, mk, mk.len() as int),
        mask_present(g, mk, mk.len() as int),
        mask_absent(g, mk, mk.len() as int),
    )
}

fn code_class(c: char) -> (r: u8)
    ensures
        r == 2 <==> is_correct_code(c),
        r == 1 <==> is_present_code(c),
        r == 0 <==> is_absent_code(c),
        r == 3 <==> !is_mask_code(c),
{
    if c == '2' || c == 'C' || c == 'c' || c == 'G' || c == 'g' {
        2
    } else if c == '1' || c == 'I' || c == 'i' || c == 'P' || c == 'p' {
        1
    } else if c == '0' || c == 'N' || c == 'n' || c == 'B' || c == 'b' || c == 'R' || c == 'r'
        || c == ' ' {
        0
    } else {
        3
    }
}

/// Read an operator-entered mask over a guess. Correct is `2 C c G g`,
/// present-elsewhere `1 I i P p`, absent `0 N n B b R r` or a space. A
/// length mismatch or an unrecognized code rejects the whole input. The
/// guess's ASCII power placeholders are normalized to the glyphs.
pub fn parse_mask_results(guess: &str, mask: &str) -> (r: Option<Masks>)
    ensures
        r is Some <==> mask_input_valid(guess@, mask@),
        r matches Some(m) ==> m@ == mask_of_input(guess@, mask@),
{
    let gv = str_chars(guess);
    let mv = str_chars(mask);
    if gv.len() != mv.len() {
        return None;
    }
    let n = gv.len();
    let mut correct: Vec<(usize, char)> = Vec::new();
    let mut incorrect: Vec<(usize, char)> = Vec::new();
    let mut not_present: Vec<(usize, char)> = Vec::new();
    let mut i: usize = 0;
    while i < n
        invariant
            i <= n,
            n == gv.len(),
            gv.len() == mv.len(),
            gv@ == guess@,
            mv@ == mask@,
            forall|j: int| 0 <= j < i ==> is_mask_code(#[trigger] mv@[j]),
            correct@ == mask_correct(gv@, mv@, i as int),
            incorrect@ == mask_present(gv@, mv@, i as int),
            not_present@ == mask_absent(gv@, mv@, i as int),
        decreases n - i,
    {
        let cls = code_class(mv[i]);
        if cls == 3 {
            return None;
        }
        let ch = normalize_power(gv[i]);
        if cls == 2 {
            correct.push((i, ch));
        } else if cls == 1 {
            incorrect.push((i, ch));
        } else {
            not_present.push((i, ch));
        }
        proof {
            assert(correct@ =~= mask_correct(gv@, mv@, i as int + 1));
            assert(incorrect@ =~= mask_present(gv@, mv@, i as int + 1));
            assert(not_present@ =~= mask_absent(gv@, mv@, i as int + 1));
        }
        i = i + 1;
    }
    Some(Masks { correct, incorrect, not_present })
}

} // verus!
