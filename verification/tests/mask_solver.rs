use nerdle_solver::mask::{score, matches_mask, parse_mask_results, Masks};
use nerdle_solver::solver::{entropy_parts, filter_corpus, Session, SessionState};

fn corpus(items: &[&str]) -> Vec<String> {
    items.iter().map(|s| s.to_string()).collect()
}

#[test]
fn test_score() {
    let m = score("abc", "cbd");
    assert_eq!(
        m,
        Masks {
            correct: vec![(1, 'b')],
            incorrect: vec![(2, 'c')],
            not_present: vec![(0, 'a')],
        }
    )
}

#[test]
fn test_score_duplicates() {
    // One 'a' of the guess is consumable elsewhere, the second is not.
    let m = score("aab", "aba");
    assert_eq!(
        m,
        Masks {
            correct: vec![(0, 'a')],
            incorrect: vec![(1, 'a'), (2, 'b')],
            not_present: vec![],
        }
    );
    let m = score("aaa", "aba");
    assert_eq!(
        m,
        Masks {
            correct: vec![(0, 'a'), (2, 'a')],
            incorrect: vec![],
            not_present: vec![(1, 'a')],
        }
    );
}

#[test]
fn test_truth_matches_own_mask() {
    let pairs = [
        ("abc", "cbd"),
        ("aab", "aba"),
        ("aaa", "aba"),
        ("1+2=3", "3-2=1"),
        ("12+35=47", "10+35=45"),
    ];
    for (g, t) in pairs {
        let m = score(g, t);
        assert!(matches_mask(t, &m));
    }
}

#[test]
fn test_matches_mask_rejects() {
    let m = score("abc", "abd");
    // The truth's own mask: "abd" and "aba" stay, "abc" does not ('c' is
    // absent).
    assert!(!matches_mask("abc", &m));
    assert!(matches_mask("abd", &m));
    assert!(matches_mask("aba", &m));
}

#[test]
fn test_parse_mask_results() {
    // a literal 'c' in the guess is itself normalized to the cube glyph
    let m = parse_mask_results("abc", "210").unwrap();
    assert_eq!(
        m,
        Masks {
            correct: vec![(0, 'a')],
            incorrect: vec![(1, 'b')],
            not_present: vec![(2, '³')],
        }
    );
    let m = parse_mask_results("abc", "GP ").unwrap();
    assert_eq!(
        m,
        Masks {
            correct: vec![(0, 'a')],
            incorrect: vec![(1, 'b')],
            not_present: vec![(2, '³')],
        }
    );
    // the ASCII power placeholders are normalized to glyphs
    let m = parse_mask_results("1s2", "2cc").unwrap();
    assert_eq!(
        m,
        Masks {
            correct: vec![(0, '1'), (1, '²'), (2, '2')],
            incorrect: vec![],
            not_present: vec![],
        }
    );
    assert!(parse_mask_results("abc", "21").is_none());
    assert!(parse_mask_results("abc", "2100").is_none());
    assert!(parse_mask_results("abc", "2X0").is_none());
}

#[test]
fn test_entropy_parts_values() {
    let c = corpus(&["abc", "abd", "aba"]);
    let parts = entropy_parts("abc", &c);
    assert_eq!(parts, vec![(1, 1), (2, 2)]);
}

fn entropy_from_parts(guess: &str, c: &Vec<String>) -> f64 {
    let mut t = 0.0;
    for (ct, matching) in entropy_parts(guess, c) {
        t += ct as f64 * -((matching as f64).log2());
    }
    t
}

#[test]
fn test_entropy() {
    let c = corpus(&["abc", "abd", "aba"]);
    let e = entropy_from_parts("abc", &c);
    assert_eq!(e, -2.)
}

#[test]
fn test_compute_best_guess() {
    // the highest-entropy guess, ties resolved towards the latest candidate
    let c = corpus(&["abc", "abd", "aba"]);
    let mut best: Option<(&str, f64)> = None;
    for w in &c {
        let e = entropy_from_parts(w, &c);
        match best {
            Some((_, b)) if b > e => {},
            _ => best = Some((w, e)),
        }
    }
    assert_eq!(best.unwrap(), ("aba", -2.));
}

#[test]
fn test_filter_corpus() {
    let c = corpus(&["abc", "abd", "aba"]);
    let m = score("abc", "abd");
    let once = filter_corpus(&c, &m);
    assert_eq!(once, corpus(&["abd", "aba"]));
    assert!(once.len() <= c.len());
    // filtering twice with the same mask changes nothing more
    let twice = filter_corpus(&once, &m);
    assert_eq!(twice, once);
}

#[test]
fn test_session_converges() {
    let mut s = Session::new(corpus(&["1+2=3", "3-2=1", "2+2=4"]));
    assert_eq!(s.state, SessionState::AwaitingGuess);
    s.propose_guess("1+2=3".to_string());
    assert_eq!(s.state, SessionState::AwaitingFeedback);
    // malformed feedback is a no-op and is reported
    assert!(s.apply_feedback("2222").is_err());
    assert_eq!(s.state, SessionState::AwaitingFeedback);
    assert!(s.apply_feedback("22q22").is_err());
    assert_eq!(s.state, SessionState::AwaitingFeedback);
    // '1' present elsewhere, '+' absent, '2' and '=' correct, '3' present
    let r = s.apply_feedback("1B221");
    assert!(r.is_ok());
    assert_eq!(s.corpus, corpus(&["3-2=1"]));
    assert_eq!(s.state, SessionState::Converged);
}

#[test]
fn test_session_exhausts() {
    let mut s = Session::new(corpus(&["1+2=3", "2+2=4"]));
    s.propose_guess("1+2=3".to_string());
    // feedback no candidate satisfies empties the corpus
    let r = s.apply_feedback("BBBBB");
    assert!(r.is_ok());
    assert_eq!(s.corpus.len(), 0);
    assert_eq!(s.state, SessionState::Exhausted);
}

#[test]
fn test_session_initial_states() {
    assert_eq!(Session::new(corpus(&[])).state, SessionState::Exhausted);
    assert_eq!(Session::new(corpus(&["1+2=3"])).state, SessionState::Converged);
    assert_eq!(
        Session::new(corpus(&["1+2=3", "2+2=4"])).state,
        SessionState::AwaitingGuess
    );
}
