//! Tests of degree classification and the closed-form solver.

use poly_solver::token::{Role, Token};
use poly_solver::reduce::parse;
use poly_solver::solve::{get_polynomial_degree, comp_expo, solve, EquationError, SolutionSet};

const UNIT: i128 = 1_000_000_000;

fn num(text: &str) -> Token {
    Token { text: String::from(text), exponent: 0, role: Role::Number }
}

fn ind(exponent: u32) -> Token {
    Token { text: String::from("X"), exponent, role: Role::Indeterminate }
}

fn plus() -> Token {
    Token { text: String::from("+"), exponent: 0, role: Role::Plus }
}

fn minus() -> Token {
    Token { text: String::from("-"), exponent: 0, role: Role::Minus }
}

fn mul() -> Token {
    Token { text: String::from("*"), exponent: 0, role: Role::Multiply }
}

fn eq() -> Token {
    Token { text: String::from("="), exponent: 0, role: Role::Equal }
}

fn roots_of(neg_b: i128, delta: i128, two_c: i128) -> (f64, f64) {
    let sqrt_delta = (delta as f64).sqrt();
    (
        (neg_b as f64 + sqrt_delta) / (two_c as f64),
        (neg_b as f64 - sqrt_delta) / (two_c as f64),
    )
}

#[test]
fn nonzero_coefficients_count_toward_degree() {
    assert!(comp_expo(&1));
    assert!(comp_expo(&-1));
    assert!(!comp_expo(&0));
}

#[test]
fn degree_ignores_zero_entries() {
    // X^3 - X^3 + X = 0 is degree 1 even though exponent 3 has an entry.
    let tokens = vec![ind(3), minus(), ind(3), plus(), ind(1), eq(), num("0")];
    let map = parse(&tokens);
    assert!(map.contains(3));
    assert_eq!(map.get(3), 0);
    assert_eq!(get_polynomial_degree(&map), 1);
}

#[test]
fn degree_three_is_unsupported() {
    // X^3 = 0
    let tokens = vec![ind(3), eq(), num("0")];
    let map = parse(&tokens);
    assert_eq!(get_polynomial_degree(&map), 3);
    assert_eq!(solve(&map), Err(EquationError::UnsupportedDegree));
}

#[test]
fn cancelled_cubic_solves_as_linear() {
    // X^3 - X^3 + X = 0 has the single root 0.
    let tokens = vec![ind(3), minus(), ind(3), plus(), ind(1), eq(), num("0")];
    let map = parse(&tokens);
    match solve(&map) {
        Ok(SolutionSet::OneRoot { num, den }) => {
            assert_eq!(num, 0);
            assert_eq!(den, UNIT);
        },
        other => panic!("expected one root, got {:?}", other),
    }
}

#[test]
fn quadratic_two_roots() {
    // X^2 - 4 = 0 has the roots 2 and -2.
    let tokens = vec![ind(2), minus(), num("4"), eq(), num("0")];
    let map = parse(&tokens);
    assert_eq!(get_polynomial_degree(&map), 2);
    match solve(&map) {
        Ok(SolutionSet::TwoRoots { neg_b, delta, two_c }) => {
            assert!(delta > 0);
            let (r1, r2) = roots_of(neg_b, delta, two_c);
            assert_eq!(r1, 2.0);
            assert_eq!(r2, -2.0);
        },
        other => panic!("expected two roots, got {:?}", other),
    }
}

#[test]
fn quadratic_no_real_solution() {
    // X^2 + 1 = 0 has no real root.
    let tokens = vec![ind(2), plus(), num("1"), eq(), num("0")];
    let map = parse(&tokens);
    assert_eq!(solve(&map), Ok(SolutionSet::NoRealSolution));
}

#[test]
fn quadratic_double_root() {
    // X^2 - 4 * X + 4 = 0 has the single root 2.
    let tokens = vec![
        ind(2),
        minus(),
        num("4"),
        mul(),
        ind(1),
        plus(),
        num("4"),
        eq(),
        num("0"),
    ];
    let map = parse(&tokens);
    match solve(&map) {
        Ok(SolutionSet::OneRoot { num, den }) => {
            assert_eq!(num as f64 / den as f64, 2.0);
        },
        other => panic!("expected one root, got {:?}", other),
    }
}

#[test]
fn linear_single_root() {
    // 2 * X - 6 = 0 has the single root 3.
    let tokens = vec![num("2"), mul(), ind(1), minus(), num("6"), eq(), num("0")];
    let map = parse(&tokens);
    assert_eq!(get_polynomial_degree(&map), 1);
    match solve(&map) {
        Ok(SolutionSet::OneRoot { num, den }) => {
            assert_eq!(num, 6 * UNIT);
            assert_eq!(den, 2 * UNIT);
            assert_eq!(num as f64 / den as f64, 3.0);
        },
        other => panic!("expected one root, got {:?}", other),
    }
}

#[test]
fn constant_equation_infinite_solutions() {
    // 5 = 5 reduces to 0 = 0: every real number is a solution.
    let tokens = vec![num("5"), eq(), num("5")];
    let map = parse(&tokens);
    assert_eq!(map.get(0), 0);
    assert_eq!(solve(&map), Ok(SolutionSet::Infinite));
}

#[test]
fn constant_equation_no_solution() {
    // 5 = 6 reduces to -1 = 0: no solution.
    let tokens = vec![num("5"), eq(), num("6")];
    let map = parse(&tokens);
    assert_eq!(map.get(0), -UNIT);
    assert_eq!(solve(&map), Ok(SolutionSet::NoSolution));
}
