//! Tests of the reducer: token streams folded into coefficient maps.

use poly_solver::token::{Role, Token};
use poly_solver::reduce::{add_coeff_in_table, get_coeff_table, get_exponent, get_coeff, parse};
use poly_solver::literal::parse_units;
use poly_solver::solve::get_polynomial_degree;

const UNIT: i128 = 1_000_000_000;

fn num(text: &str) -> Token {
    Token { text: String::from(text), exponent: 0, role: Role::Number }
}

fn ind(exponent: u32) -> Token {
    Token { text: String::from("X"), exponent, role: Role::Indeterminate }
}

fn plus() -> Token {
    Token { text: String::from("+"), exponent: 0, role: Role::Plus }
}

fn minus() -> Token {
    Token { text: String::from("-"), exponent: 0, role: Role::Minus }
}

fn mul() -> Token {
    Token { text: String::from("*"), exponent: 0, role: Role::Multiply }
}

fn eq() -> Token {
    Token { text: String::from("="), exponent: 0, role: Role::Equal }
}

#[test]
fn coeff_table_signs() {
    // X * 2 - X + 8  ->  [1, -1, 1]
    let tokens = vec![ind(1), mul(), num("2"), minus(), ind(1), plus(), num("8")];
    assert_eq!(get_coeff_table(&tokens), vec![1, -1, 1]);
}

#[test]
fn coeff_table_appends_only_separators() {
    let mut table: Vec<i32> = vec![1];
    add_coeff_in_table(&plus(), &mut table);
    add_coeff_in_table(&mul(), &mut table);
    add_coeff_in_table(&minus(), &mut table);
    assert_eq!(table, vec![1, 1, -1]);
}

#[test]
fn exponent_of_members() {
    assert_eq!(get_exponent(&[num("7")]), 0);
    assert_eq!(get_exponent(&[ind(3)]), 3);
    assert_eq!(get_exponent(&[num("7"), mul(), ind(2)]), 2);
    assert_eq!(get_exponent(&[ind(2), mul(), num("7")]), 2);
}

#[test]
fn coefficient_of_members() {
    assert_eq!(get_coeff(&[num("7")]), 7 * UNIT);
    assert_eq!(get_coeff(&[ind(3)]), UNIT);
    assert_eq!(get_coeff(&[num("2.5"), mul(), ind(2)]), 2_500_000_000);
    assert_eq!(get_coeff(&[ind(2), mul(), num("4")]), 4 * UNIT);
    // The lenient fallback: a malformed literal reads as zero.
    assert_eq!(get_coeff(&[num("abc")]), 0);
}

#[test]
fn literal_parsing_exact() {
    assert_eq!(parse_units("5"), Some(5 * UNIT));
    assert_eq!(parse_units("4.5"), Some(4_500_000_000));
    assert_eq!(parse_units("0.000000001"), Some(1));
    assert_eq!(parse_units("000"), Some(0));
    assert_eq!(parse_units("123456789012345678"), Some(123_456_789_012_345_678 * UNIT));
}

#[test]
fn literal_parsing_rejects_malformed() {
    assert_eq!(parse_units(""), None);
    assert_eq!(parse_units("abc"), None);
    assert_eq!(parse_units("1.2.3"), None);
    assert_eq!(parse_units("5."), None);
    assert_eq!(parse_units(".5"), None);
    // Too many digits for the exact representation.
    assert_eq!(parse_units("1234567890123456789"), None);
    assert_eq!(parse_units("0.0000000001"), None);
}

#[test]
fn reduce_simple_quadratic() {
    // 5 * X^2 + 4 * X - 1 = 0
    let tokens = vec![
        num("5"),
        mul(),
        ind(2),
        plus(),
        num("4"),
        mul(),
        ind(1),
        minus(),
        num("1"),
        eq(),
        num("0"),
    ];
    let map = parse(&tokens);
    assert_eq!(map.get(2), 5 * UNIT);
    assert_eq!(map.get(1), 4 * UNIT);
    assert_eq!(map.get(0), -UNIT);
}

#[test]
fn reduce_moves_right_side_over() {
    // 2 * X = 6  ->  {1: 2, 0: -6}
    let tokens = vec![num("2"), mul(), ind(1), eq(), num("6")];
    let map = parse(&tokens);
    assert_eq!(map.get(1), 2 * UNIT);
    assert_eq!(map.get(0), -6 * UNIT);
}

#[test]
fn identity_reduction_cancels_like_terms() {
    // X^2 - X^2 + 3 = 0 reduces to a zero entry at exponent 2 and {0: 3}.
    let tokens = vec![ind(2), minus(), ind(2), plus(), num("3"), eq(), num("0")];
    let map = parse(&tokens);
    assert!(map.contains(2));
    assert_eq!(map.get(2), 0);
    assert_eq!(map.get(0), 3 * UNIT);
    assert_eq!(get_polynomial_degree(&map), 0);
}

#[test]
fn reduction_is_commutative_in_members() {
    // 3 + 2 * X = 1  against  2 * X + 3 = 1
    let t1 = vec![num("3"), plus(), num("2"), mul(), ind(1), eq(), num("1")];
    let t2 = vec![num("2"), mul(), ind(1), plus(), num("3"), eq(), num("1")];
    let m1 = parse(&t1);
    let m2 = parse(&t2);
    assert_eq!(m1.entries, m2.entries);
}

#[test]
fn reduction_is_commutative_with_signs() {
    // X^2 - 4 + X = 0  against  X^2 + X - 4 = 0
    let t1 = vec![ind(2), minus(), num("4"), plus(), ind(1), eq(), num("0")];
    let t2 = vec![ind(2), plus(), ind(1), minus(), num("4"), eq(), num("0")];
    let m1 = parse(&t1);
    let m2 = parse(&t2);
    assert_eq!(m1.entries, m2.entries);
}
