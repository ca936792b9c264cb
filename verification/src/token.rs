//! The token alphabet the reducer consumes.
//!
//! Tokens are produced upstream by a lexer and syntax checker that are not
//! part of this crate; the reducer only reads them.

use vstd::prelude::*;

verus! {

/// What kind of atom a token is.
#[derive(Clone, Copy, Debug, PartialEq, Eq, Structural)]
pub enum Role {
    /// A numeric literal such as `5` or `4.5`.
    Number,
    /// The unknown `X`, carrying its exponent (1 for `X`, 2 for `X^2`, ...).
    Indeterminate,
    /// The additive operator `+`.
    Plus,
    /// The additive operator `-`.
    Minus,
    /// The multiplicative operator `*`.
    Multiply,
    /// The exponentiation operator `^`.
    Caret,
    /// The equality sign `=`.
    Equal,
}

/// One typed atom of the equation text.
#[derive(Debug)]
pub struct Token {
    /// The literal text of the token (meaningful for `Number` tokens).
    pub text: String,
    /// The exponent carried by an `Indeterminate` token; 0 otherwise.
    pub exponent: u32,
    /// The token's classification.
    pub role: Role,
}

/// A token that separates two additive members (`+` or `-`).
pub open spec fn is_sep(t: Token) -> bool {
    t.role == Role::Plus || t.role == Role::Minus
}

/// The sign contributed by the additive operator before a member.
pub open spec fn sep_sign(t: Token) -> int {
    if t.role == Role::Minus {
        -1
    } else {
        1
    }
}

/// A token that splits the equation into its two sides.
pub open spec fn is_eq(t: Token) -> bool {
    t.role == Role::Equal
}

pub fn is_plus(t: &Token) -> (r: bool)
    ensures
        r == (t.role == Role::Plus),
{
    t.role == Role::Plus
}

pub fn is_minus(t: &Token) -> (r: bool)
    ensures
        r == (t.role == Role::Minus),
{
    t.role == Role::Minus
}

pub fn is_separator_op(t: &Token) -> (r: bool)
    ensures
        r == is_sep(*t),
{
    t.role == Role::Plus || t.role == Role::Minus
}

pub fn is_equal(t: &Token) -> (r: bool)
    ensures
        r == is_eq(*t),
{
    t.role == Role::Equal
}

/// A numeric-literal token: the member starts with its coefficient.
pub fn is_coefficient(t: &Token) -> (r: bool)
    ensures
        r == (t.role == Role::Number),
{
    t.role == Role::Number
}

pub fn is_indeterminate(t: &Token) -> (r: bool)
    ensures
        r == (t.role == Role::Indeterminate),
{
    t.role == Role::Indeterminate
}

} // verus!
