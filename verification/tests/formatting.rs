//! Tests of the canonical formatter: the reduced form as displayed.

use poly_solver::token::{Role, Token};
use poly_solver::reduce::parse;
use poly_solver::display::{get_reduced_form, display_reduced_eq};

fn num(text: &str) -> Token {
    Token { text: String::from(text), exponent: 0, role: Role::Number }
}

fn ind(exponent: u32) -> Token {
    Token { text: String::from("X"), exponent, role: Role::Indeterminate }
}

fn plus() -> Token {
    Token { text: String::from("+"), exponent: 0, role: Role::Plus }
}

fn minus() -> Token {
    Token { text: String::from("-"), exponent: 0, role: Role::Minus }
}

fn mul() -> Token {
    Token { text: String::from("*"), exponent: 0, role: Role::Multiply }
}

fn eq() -> Token {
    Token { text: String::from("="), exponent: 0, role: Role::Equal }
}

#[test]
fn round_trip_display() {
    // 5 * X^2 + 4 * X - 1 = 0: every term survives the round trip, in
    // ascending exponent order, the negative constant keeping its sign.
    let tokens = vec![
        num("5"),
        mul(),
        ind(2),
        plus(),
        num("4"),
        mul(),
        ind(1),
        minus(),
        num("1"),
        eq(),
        num("0"),
    ];
    let map = parse(&tokens);
    assert_eq!(get_reduced_form(&map), "-1 + 4 * X + 5 * X^2");
    assert_eq!(display_reduced_eq(&map), "-1 + 4 * X + 5 * X^2 = 0");
}

#[test]
fn zero_polynomial_displays_as_zero() {
    // 5 = 5 reduces to all-zero coefficients.
    let tokens = vec![num("5"), eq(), num("5")];
    let map = parse(&tokens);
    assert_eq!(display_reduced_eq(&map), "0 = 0");
}

#[test]
fn cancelled_terms_are_skipped() {
    // X^2 - X^2 + 3 = 0: the zero entry at exponent 2 is not rendered.
    let tokens = vec![ind(2), minus(), ind(2), plus(), num("3"), eq(), num("0")];
    let map = parse(&tokens);
    assert_eq!(display_reduced_eq(&map), "3 = 0");
}

#[test]
fn unit_coefficient_drops_numeral() {
    // X^2 + 1 = 0: coefficient 1.0 renders as a bare term.
    let tokens = vec![ind(2), plus(), num("1"), eq(), num("0")];
    let map = parse(&tokens);
    assert_eq!(display_reduced_eq(&map), "1 + X^2 = 0");
}

#[test]
fn exponent_one_drops_caret() {
    // 2 * X - 6 = 0
    let tokens = vec![num("2"), mul(), ind(1), minus(), num("6"), eq(), num("0")];
    let map = parse(&tokens);
    assert_eq!(display_reduced_eq(&map), "-6 + 2 * X = 0");
}

#[test]
fn fractional_coefficients_render_exactly() {
    // 4.5 * X - 0.5 = 0
    let tokens = vec![
        num("4.5"),
        mul(),
        ind(1),
        minus(),
        num("0.5"),
        eq(),
        num("0"),
    ];
    let map = parse(&tokens);
    assert_eq!(display_reduced_eq(&map), "-0.5 + 4.5 * X = 0");
}

#[test]
fn trailing_fraction_zeros_are_trimmed() {
    // 2.50 * X = 0 renders its coefficient as 2.5.
    let tokens = vec![num("2.50"), mul(), ind(1), eq(), num("0")];
    let map = parse(&tokens);
    assert_eq!(display_reduced_eq(&map), "2.5 * X = 0");
}

#[test]
fn malformed_literal_counts_as_zero() {
    // A malformed numeral is leniently read as zero, so nothing survives.
    let tokens = vec![num("abc"), eq(), num("0")];
    let map = parse(&tokens);
    assert_eq!(display_reduced_eq(&map), "0 = 0");
}

#[test]
fn negative_leading_term_keeps_sign() {
    // 1 = X: the X moves over negated.
    let tokens = vec![num("1"), eq(), ind(1)];
    let map = parse(&tokens);
    assert_eq!(display_reduced_eq(&map), "1 + -1 * X = 0");
}
