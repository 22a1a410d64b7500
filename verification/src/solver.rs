//! The solving side: shrinking a corpus by a feedback mask, the integer
//! groundwork of the information-gain ranking, and the interactive session's
//! state machine.
//!
//! The expected-information score of a guess is a sum of `count *
//! -log2(matching)` terms over the distinct masks the guess can receive.
//! Everything up to the logarithm is integer arithmetic and lives here,
//! verified: the distinct masks in first-appearance order, how often each
//! arises, and how many candidates each leaves. The floating-point
//! combination of those parts stays outside the verified core.

use vstd::prelude::*;
use crate::mask::{
    Masks, MasksV, spec_matches, spec_score, matches_mask, score, parse_mask_results,
    mask_input_valid, mask_of_input,
};

verus! {

/// The corpus as mathematics: each string as its character sequence.
pub open spec fn corpus_view(c: Seq<String>) -> Seq<Seq<char>> {
    c.map_values(|s: String| s@)
}

/// The candidates of `cs` consistent with the mask, in order.
pub open spec fn filter_masked(cs: Seq<Seq<char>>, m: MasksV) -> Seq<Seq<char>>
    decreases cs.len(),
{
    if cs.len() == 0 {
        Seq::empty()
    } else {
        filter_masked(cs.drop_last(), m) + if spec_matches(cs.last(), m) {
            seq![cs.last()]
        } else {
            Seq::empty()
        }
    }
}

/// Filtering never grows the corpus.
pub proof fn lemma_filter_monotonic(cs: Seq<Seq<char>>, m: MasksV)
    ensures
        filter_masked(cs, m).len() <= cs.len(),
    decreases cs.len(),
{
    if cs.len() > 0 {
        lemma_filter_monotonic(cs.drop_last(), m);
    }
}

/// Everything filtering keeps is consistent with the mask.
pub proof fn lemma_filter_members(cs: Seq<Seq<char>>, m: MasksV)
    ensures
        forall|k: int|
            0 <= k < filter_masked(cs, m).len() ==> spec_matches(
                #[trigger] filter_masked(cs, m)[k],
                m,
            ),
    decreases cs.len(),
{
    if cs.len() > 0 {
        lemma_filter_members(cs.drop_last(), m);
        let f = filter_masked(cs, m);
        let fp = filter_masked(cs.drop_last(), m);
        assert forall|k: int| 0 <= k < f.len() implies spec_matches(f[k], m) by {
            if k < fp.len() {
                assert(f[k] == fp[k]);
            } else {
                assert(f[k] == cs.last());
            }
        }
    }
}

/// Filtering a corpus whose members all match leaves it unchanged.
proof fn lemma_filter_all_match(cs: Seq<Seq<char>>, m: MasksV)
    requires
        forall|k: int| 0 <= k < cs.len() ==> spec_matches(#[trigger] cs[k], m),
    ensures
        filter_masked(cs, m) == cs,
    decreases cs.len(),
{
    if cs.len() > 0 {
        assert(spec_matches(cs.last(), m));
        assert forall|k: int| 0 <= k < cs.drop_last().len() implies spec_matches(
            #[trigger] cs.drop_last()[k],
            m,
        ) by {
            assert(cs.drop_last()[k] == cs[k]);
        }
        lemma_filter_all_match(cs.drop_last(), m);
        assert(filter_masked(cs, m) =~= cs);
    } else {
        assert(filter_masked(cs, m) =~= cs);
    }
}

/// Filtering twice with one mask is the same as filtering once.
pub proof fn lemma_filter_idempotent(cs: Seq<Seq<char>>, m: MasksV)
    ensures
        filter_masked(filter_masked(cs, m), m) == filter_masked(cs, m),
{
    lemma_filter_members(cs, m);
    lemma_filter_all_match(filter_masked(cs, m), m);
}

/// Keep the candidates consistent with the mask.
pub fn filter_corpus(corpus: &Vec<String>, m: &Masks) -> (r: Vec<String>)
    ensures
        corpus_view(r@) == filter_masked(corpus_view(corpus@), m@),
        r@.len() <= corpus@.len(),
{
    let ghost cv = corpus_view(corpus@);
    let mut r: Vec<String> = Vec::new();
    let mut i: usize = 0;
    while i < corpus.len()
        invariant
            i <= corpus.len(),
            cv == corpus_view(corpus@),
            corpus_view(r@) == filter_masked(cv.take(i as int), m@),
            r@.len() <= i,
        decreases corpus.len() - i,
    {
        proof {
            assert(cv.take(i as int + 1).drop_last() =~= cv.take(i as int));
            assert(cv.take(i as int + 1).last() == corpus@[i as int]@);
        }
        if matches_mask(corpus[i].as_str(), m) {
            let s = corpus[i].clone();
            r.push(s);
            proof {
                assert(corpus_view(r@) =~= filter_masked(cv.take(i as int + 1), m@));
            }
        } else {
            proof {
                assert(corpus_view(r@) =~= filter_masked(cv.take(i as int + 1), m@));
            }
        }
        i = i + 1;
    }
    proof {
        assert(cv.take(corpus@.len() as int) =~= cv);
        lemma_filter_monotonic(cv, m@);
    }
    r
}

/// The distinct values of `s`, in order of first appearance.
pub open spec fn uniq(s: Seq<MasksV>) -> Seq<MasksV>
    decreases s.len(),
{
    if s.len() == 0 {
        Seq::empty()
    } else {
        uniq(s.drop_last()) + if s.drop_last().contains(s.last()) {
            Seq::empty()
        } else {
            seq![s.last()]
        }
    }
}

/// How many entries of `s` equal `x`.
pub open spec fn count_eq(s: Seq<MasksV>, x: MasksV) -> int
    decreases s.len(),
{
    if s.len() == 0 {
        0
    } else {
        count_eq(s.drop_last(), x) + if s.last() == x {
            1int
        } else {
            0int
        }
    }
}

/// The mask each corpus entry answers the guess with.
pub open spec fn masks_of(g: Seq<char>, cs: Seq<Seq<char>>) -> Seq<MasksV> {
    cs.map_values(|t: Seq<char>| spec_score(g, t))
}

proof fn lemma_uniq_contains(s: Seq<MasksV>, x: MasksV)
    ensures
        uniq(s).contains(x) <==> s.contains(x),
    decreases s.len(),
{
    if s.len() > 0 {
        lemma_uniq_contains(s.drop_last(), x);
        let u = uniq(s);
        let up = uniq(s.drop_last());
        if s.drop_last().contains(s.last()) {
            assert(u =~= up);
            if s.contains(x) {
                let k = choose|k: int| 0 <= k < s.len() && s[k] == x;
                if k < s.len() - 1 {
                    assert(s.drop_last()[k] == x);
                    assert(s.drop_last().contains(x));
                } else {
                    assert(s.drop_last().contains(x));
                }
            }
            if up.contains(x) {
                let k = choose|k: int| 0 <= k < up.len() && up[k] == x;
                assert(s.drop_last().contains(x));
                let k2 = choose|k2: int| 0 <= k2 < s.drop_last().len() && s.drop_last()[k2] == x;
                assert(s[k2] == x);
            }
        } else {
            if s.contains(x) {
                let k = choose|k: int| 0 <= k < s.len() && s[k] == x;
                if k < s.len() - 1 {
                    assert(s.drop_last()[k] == x);
                    assert(s.drop_last().contains(x));
                    let k3 = choose|k3: int| 0 <= k3 < up.len() && up[k3] == x;
                    assert(u[k3] == x);
                } else {
                    assert(u[u.len() - 1] == x);
                }
                assert(u.contains(x));
            }
            if u.contains(x) {
                let k = choose|k: int| 0 <= k < u.len() && u[k] == x;
                if k < up.len() {
                    assert(up[k] == x);
                    assert(up.contains(x));
                    let k2 = choose|k2: int|
                        0 <= k2 < s.drop_last().len() && s.drop_last()[k2] == x;
                    assert(s[k2] == x);
                } else {
                    assert(x == s.last());
                    assert(s[s.len() - 1] == x);
                }
                assert(s.contains(x));
            }
        }
    }
}

proof fn lemma_uniq_distinct(s: Seq<MasksV>)
    ensures
        forall|i: int, j: int| 0 <= i < j < uniq(s).len() ==> uniq(s)[i] != uniq(s)[j],
    decreases s.len(),
{
    if s.len() > 0 {
        lemma_uniq_distinct(s.drop_last());
        let u = uniq(s);
        let up = uniq(s.drop_last());
        if s.drop_last().contains(s.last()) {
            assert(u =~= up);
        } else {
            lemma_uniq_contains(s.drop_last(), s.last());
            assert(!up.contains(s.last()));
            assert forall|i: int, j: int| 0 <= i < j < u.len() implies u[i] != u[j] by {
                if j < up.len() {
                    assert(u[i] == up[i] && u[j] == up[j]);
                } else {
                    assert(u[j] == s.last());
                    assert(u[i] == up[i]);
                    if up[i] == s.last() {
                        assert(up.contains(s.last()));
                    }
                }
            }
        }
    }
}

proof fn lemma_count_eq_nonneg(s: Seq<MasksV>, x: MasksV)
    ensures
        0 <= count_eq(s, x),
    decreases s.len(),
{
    if s.len() > 0 {
        lemma_count_eq_nonneg(s.drop_last(), x);
    }
}

proof fn lemma_count_eq_bound(s: Seq<MasksV>, x: MasksV)
    ensures
        count_eq(s, x) <= s.len(),
    decreases s.len(),
{
    if s.len() > 0 {
        lemma_count_eq_bound(s.drop_last(), x);
    }
}

/// The integer parts of a guess's information score against a corpus: for
/// each distinct mask, in order of first appearance, how many corpus
/// entries answer with it, and how many corpus entries remain consistent
/// with it.
pub fn entropy_parts(guess: &str, corpus: &Vec<String>) -> (r: Vec<(usize, usize)>)
    requires
        forall|k: int| 0 <= k < corpus@.len() ==> (#[trigger] corpus@[k])@.len() == guess@.len(),
    ensures
        ({
            let ms = masks_of(guess@, corpus_view(corpus@));
            let u = uniq(ms);
            &&& r@.len() == u.len()
            &&& forall|i: int|
                0 <= i < u.len() ==> (#[trigger] r@[i]).0 as int == count_eq(ms, u[i]) && r@[i].1
                    as int == filter_masked(corpus_view(corpus@), u[i]).len()
        }),
{
    let ghost cv = corpus_view(corpus@);
    let ghost ms = masks_of(guess@, cv);
    let mut reps: Vec<Masks> = Vec::new();
    let mut counts: Vec<usize> = Vec::new();
    let mut i: usize = 0;
    while i < corpus.len()
        invariant
            i <= corpus.len(),
            cv == corpus_view(corpus@),
            ms == masks_of(guess@, cv),
            forall|k: int| 0 <= k < corpus@.len() ==> (#[trigger] corpus@[k])@.len()
                == guess@.len(),
            counts.len() == reps.len(),
            reps@.map_values(|m: Masks| m@) =~= uniq(ms.take(i as int)),
            forall|j: int|
                0 <= j < reps@.len() ==> (#[trigger] counts@[j]) as int == count_eq(
                    ms.take(i as int),
                    uniq(ms.take(i as int))[j],
                ),
            forall|j: int| 0 <= j < counts@.len() ==> (#[trigger] counts@[j]) as int <= i as int,
        decreases corpus.len() - i,
    {
        let mk = score(guess, corpus[i].as_str());
        proof {
            assert(ms.take(i as int + 1).drop_last() =~= ms.take(i as int));
            assert(ms.take(i as int + 1).last() == spec_score(guess@, corpus@[i as int]@));
            assert(mk@ == ms[i as int]);
            lemma_uniq_distinct(ms.take(i as int));
            lemma_uniq_contains(ms.take(i as int), mk@);
        }
        let mut found: bool = false;
        let mut j: usize = 0;
        while j < reps.len() && !found
            invariant
                j <= reps.len(),
                counts.len() == reps.len(),
                !found ==> forall|k: int| 0 <= k < j ==> (#[trigger] reps@[k])@ != mk@,
                found ==> j < reps.len() && reps@[j as int]@ == mk@,
            decreases reps.len() - j + if found {
                0int
            } else {
                1int
            },
        {
            if reps[j] == mk {
                found = true;
            } else {
                j = j + 1;
            }
        }
        let ghost u_old = uniq(ms.take(i as int));
        if found {
            proof {
                assert(u_old[j as int] == mk@);
                assert(u_old.contains(mk@)) by {
                    assert(u_old[j as int] == mk@);
                }
                assert(ms.take(i as int).contains(mk@));
                assert(uniq(ms.take(i as int + 1)) =~= u_old);
                assert(counts@[j as int] as int <= i as int);
            }
            let c = counts[j];
            counts[j] = c + 1;
            proof {
                assert forall|k: int| 0 <= k < reps@.len() implies (#[trigger] counts@[k]) as int
                    == count_eq(ms.take(i as int + 1), u_old[k]) by {
                    if k == j as int {
                        assert(ms.take(i as int + 1).last() == u_old[k]);
                    } else {
                        assert(u_old[k] != mk@);
                    }
                }
            }
        } else {
            proof {
                assert(forall|k: int| 0 <= k < reps@.len() ==> (#[trigger] reps@[k])@ != mk@);
                assert(!u_old.contains(mk@)) by {
                    if u_old.contains(mk@) {
                        let k = choose|k: int| 0 <= k < u_old.len() && u_old[k] == mk@;
                        assert(reps@[k]@ == mk@);
                    }
                }
                assert(!ms.take(i as int).contains(mk@));
                assert(uniq(ms.take(i as int + 1)) =~= u_old + seq![mk@]);
            }
            reps.push(mk);
            counts.push(1);
            proof {
                assert(reps@.map_values(|m: Masks| m@) =~= uniq(ms.take(i as int + 1)));
                let u_new = uniq(ms.take(i as int + 1));
                assert forall|k: int| 0 <= k < reps@.len() implies (#[trigger] counts@[k]) as int
                    == count_eq(ms.take(i as int + 1), u_new[k]) by {
                    lemma_count_eq_nonneg(ms.take(i as int), u_new[k]);
                    if k < reps@.len() - 1 {
                        assert(u_new[k] == u_old[k]);
                        assert(u_old[k] != mk@) by {
                            if u_old[k] == mk@ {
                                assert(u_old.contains(mk@));
                            }
                        }
                    } else {
                        assert(u_new[k] == mk@);
                        assert(count_eq(ms.take(i as int), mk@) == 0) by {
                            lemma_count_eq_zero(ms.take(i as int), mk@);
                        }
                    }
                }
            }
        }
        i = i + 1;
    }
    proof {
        assert(ms.take(corpus@.len() as int) =~= ms);
    }
    let mut r: Vec<(usize, usize)> = Vec::new();
    let mut j: usize = 0;
    while j < reps.len()
        invariant
            j <= reps.len(),
            cv == corpus_view(corpus@),
            ms == masks_of(guess@, cv),
            counts.len() == reps.len(),
            reps@.map_values(|m: Masks| m@) =~= uniq(ms),
            forall|k: int|
                0 <= k < reps@.len() ==> (#[trigger] counts@[k]) as int == count_eq(
                    ms,
                    uniq(ms)[k],
                ),
            r@.len() == j,
            forall|k: int|
                0 <= k < j ==> (#[trigger] r@[k]).0 as int == count_eq(ms, uniq(ms)[k]) && r@[k].1
                    as int == filter_masked(cv, uniq(ms)[k]).len(),
        decreases reps.len() - j,
    {
        let mut matching: usize = 0;
        let mut t: usize = 0;
        while t < corpus.len()
            invariant
                t <= corpus.len(),
                j < reps.len(),
                cv == corpus_view(corpus@),
                reps@.map_values(|m: Masks| m@) =~= uniq(ms),
                matching as int == filter_masked(cv.take(t as int), reps@[j as int]@).len(),
                matching <= t,
            decreases corpus.len() - t,
        {
            proof {
                assert(cv.take(t as int + 1).drop_last() =~= cv.take(t as int));
                assert(cv.take(t as int + 1).last() == corpus@[t as int]@);
                lemma_filter_monotonic(cv.take(t as int), reps@[j as int]@);
            }
            if matches_mask(corpus[t].as_str(), &reps[j]) {
                matching = matching + 1;
            }
            t = t + 1;
        }
        proof {
            assert(cv.take(corpus@.len() as int) =~= cv);
        }
        r.push((counts[j], matching));
        j = j + 1;
    }
    r
}

proof fn lemma_count_eq_zero(s: Seq<MasksV>, x: MasksV)
    requires
        !s.contains(x),
    ensures
        count_eq(s, x) == 0,
    decreases s.len(),
{
    if s.len() > 0 {
        assert(s[s.len() - 1] != x);
        assert forall|k: int| 0 <= k < s.drop_last().len() implies s.drop_last()[k] != x by {
            assert(s.drop_last()[k] == s[k]);
        }
        lemma_count_eq_zero(s.drop_last(), x);
    }
}

/// Where the interactive session stands.
#[derive(Debug, Clone, Copy, PartialEq, Eq, Structural)]
pub enum SessionState {
    /// A guess may be proposed.
    AwaitingGuess,
    /// A guess is pending; its feedback mask is expected.
    AwaitingFeedback,
    /// Exactly one candidate is left.
    Converged,
    /// No candidate is left: the feedback received was contradictory.
    Exhausted,
}

/// Rejected feedback input: wrong length or an unrecognized code.
#[derive(Debug, Clone, Copy, PartialEq, Eq, Structural)]
pub struct MaskInputError;

/// One interactive solving session: a shrinking corpus and the state of the
/// guess/feedback exchange.
pub struct Session {
    pub corpus: Vec<String>,
    pub state: SessionState,
    pub pending: Option<String>,
}

impl Session {
    /// A feedback mask is only ever awaited while a guess is pending.
    pub open spec fn wf(self) -> bool {
        self.state == SessionState::AwaitingFeedback ==> self.pending is Some
    }

    /// What the corpus size dictates: one candidate means convergence, none
    /// means contradictory feedback.
    pub open spec fn state_for(n: nat) -> SessionState {
        if n == 0 {
            SessionState::Exhausted
        } else if n == 1 {
            SessionState::Converged
        } else {
            SessionState::AwaitingGuess
        }
    }

    /// Open a session over a corpus.
    pub fn new(corpus: Vec<String>) -> (s: Session)
        ensures
            s.wf(),
            s.corpus@ == corpus@,
            s.state == Session::state_for(corpus@.len() as nat),
            s.pending is None,
    {
        let n = corpus.len();
        Session {
            corpus,
            state: if n == 0 {
                SessionState::Exhausted
            } else if n == 1 {
                SessionState::Converged
            } else {
                SessionState::AwaitingGuess
            },
            pending: None,
        }
    }

    /// Propose the next guess; the session then awaits its feedback.
    pub fn propose_guess(&mut self, guess: String)
        requires
            old(self).state == SessionState::AwaitingGuess,
            old(self).wf(),
        ensures
            final(self).wf(),
            final(self).state == SessionState::AwaitingFeedback,
            final(self).pending == Some(guess),
            final(self).corpus@ == old(self).corpus@,
    {
        self.pending = Some(guess);
        self.state = SessionState::AwaitingFeedback;
    }

    /// Apply an operator's feedback mask to the pending guess. Malformed
    /// input changes nothing and is reported; well-formed input filters the
    /// corpus and moves the session on, to `Converged` when one candidate
    /// remains and to `Exhausted` when none does.
    pub fn apply_feedback(&mut self, feedback: &str) -> (r: Result<(), MaskInputError>)
        requires
            old(self).state == SessionState::AwaitingFeedback,
            old(self).wf(),
        ensures
            final(self).wf(),
            ({
                let g = old(self).pending->Some_0;
                match r {
                    Err(_) => !mask_input_valid(g@, feedback@) && *final(self) == *old(self),
                    Ok(_) => {
                        &&& mask_input_valid(g@, feedback@)
                        &&& corpus_view(final(self).corpus@) == filter_masked(
                            corpus_view(old(self).corpus@),
                            mask_of_input(g@, feedback@),
                        )
                        &&& final(self).state == Session::state_for(final(self).corpus@.len() as nat)
                        &&& final(self).pending is None
                    },
                }
            }),
    {
        let guess = match &self.pending {
            Some(g) => g.clone(),
            None => {
                return Err(MaskInputError);
            },
        };
        match parse_mask_results(guess.as_str(), feedback) {
            None => Err(MaskInputError),
            Some(m) => {
                let filtered = filter_corpus(&self.corpus, &m);
                let n = filtered.len();
                self.corpus = filtered;
                self.pending = None;
                self.state = if n == 0 {
                    SessionState::Exhausted
                } else if n == 1 {
                    SessionState::Converged
                } else {
                    SessionState::AwaitingGuess
                };
                Ok(())
            },
        }
    }
}

} // verus!
