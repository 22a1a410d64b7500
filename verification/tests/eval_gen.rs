use nerdle_solver::eval::{eval, EvalError};
use nerdle_solver::text::normalize_equation;
use nerdle_solver::gen::gen;

#[test]
fn test_evaluator() {
    assert_eq!(eval(" (  2 )").unwrap(), 2);
    assert_eq!(eval(" (  2 )").unwrap(), 2);
    assert_eq!(eval(" 2* (  3 + 4 ) ").unwrap(), 14);
    assert_eq!(eval("  2*2 / ( 5 - 1) + 3").unwrap(), 4);
    assert_eq!(eval("(5/4) * (4/5)").unwrap(), 1);
    assert_eq!(eval("0³/15+3²").unwrap(), 9);
    assert!(eval("4/5").is_err());
}

#[test]
fn test_evaluator_plain_values() {
    assert_eq!(eval("2*(3+4)").unwrap(), 14);
    assert_eq!(eval("2*2/(5-1)+3").unwrap(), 4);
    assert_eq!(eval("(5/4)*(4/5)").unwrap(), 1);
    assert_eq!(eval("0³/15+3²").unwrap(), 9);
    assert_eq!(eval("12+34").unwrap(), 46);
    assert_eq!(eval("10-4/2").unwrap(), 8);
    assert_eq!(eval("3c").unwrap(), 27);
    assert_eq!(eval("2ss").unwrap(), 16);
    assert_eq!(eval("(1-3)c").unwrap(), -8);
}

#[test]
fn test_evaluator_error_kinds() {
    assert_eq!(eval("4/5"), Err(EvalError::NonIntegerResult));
    assert_eq!(eval("(1/2)+(1/2)+(1/2)"), Err(EvalError::NonIntegerResult));
    assert_eq!(eval("1/0"), Err(EvalError::ArithmeticOverflow));
    assert_eq!(eval("1/(2-2)"), Err(EvalError::ArithmeticOverflow));
    assert_eq!(eval("2000000000+2000000000"), Err(EvalError::ArithmeticOverflow));
    assert_eq!(eval("100000s"), Err(EvalError::ArithmeticOverflow));
    assert_eq!(eval(""), Err(EvalError::SyntaxError));
    assert_eq!(eval("2+*3"), Err(EvalError::SyntaxError));
    assert_eq!(eval("2+3x"), Err(EvalError::SyntaxError));
    assert_eq!(eval("(2+3"), Err(EvalError::SyntaxError));
    assert_eq!(eval("9999999999"), Err(EvalError::SyntaxError));
}

#[test]
fn test_evaluator_whitespace_and_digits() {
    assert_eq!(eval("007").unwrap(), 7);
    assert_eq!(eval(" \t42 ").unwrap(), 42);
    assert_eq!(eval("2147483647").unwrap(), 2147483647);
    assert_eq!(eval("0-2147483647-1").unwrap(), -2147483648);
}

#[test]
fn test_gen() {
    let mut out = Vec::new();
    gen(
        6,
        &mut out,
        true,
    );

    assert_eq!(out.len(), 404);
}

#[test]
fn test_gen_deterministic() {
    let mut a = Vec::new();
    gen(6, &mut a, true);
    let mut b = Vec::new();
    gen(6, &mut b, true);
    assert_eq!(a, b);
}

#[test]
fn test_gen_micro_count() {
    let mut out = Vec::new();
    gen(5, &mut out, false);
    assert_eq!(out.len(), 127);
    for s in &out {
        assert_eq!(s.chars().count(), 5);
        assert_eq!(s.chars().filter(|&c| c == '=').count(), 1);
    }
}

#[test]
fn test_gen_classic_count() {
    let mut out = Vec::new();
    gen(8, &mut out, false);
    assert_eq!(out.len(), 18_115);
    for s in &out {
        assert_eq!(s.chars().count(), 8);
        assert_eq!(s.chars().filter(|&c| c == '=').count(), 1);
    }
}

#[test]
fn test_gen_entries_evaluate() {
    let mut out = Vec::new();
    gen(5, &mut out, false);
    for s in &out {
        let k: usize = s.find('=').unwrap();
        let lhs = &s[..k];
        let rhs: i32 = s[k + 1..].parse().unwrap();
        assert_eq!(eval(lhs).unwrap(), rhs);
    }
    assert!(out.contains(&"1+2=3".to_string()));
    assert!(out.contains(&"2*3=6".to_string()));
    assert!(out.contains(&"8/4=2".to_string()));
}

#[test]
fn test_normalize_equation() {
    assert_eq!(normalize_equation("3s=9"), "3\u{b2}=9");
    assert_eq!(normalize_equation("2c=8"), "2\u{b3}=8");
    assert_eq!(normalize_equation("1+2=3"), "1+2=3");
}
