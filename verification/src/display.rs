//! The canonical formatter: rendering the reduced map as text.
//!
//! Entries are rendered in ascending exponent order, zero coefficients
//! skipped. A term is ` C * X^E +` with the exact special cases of the
//! reduced form: a coefficient of 1.0 drops the numeral, exponent 0 drops
//! the indeterminate, exponent 1 drops the caret. The accumulated string
//! finally loses its leading space and trailing ` +`; if nothing survived,
//! the polynomial reads `0`.

use vstd::prelude::*;
use vstd::string::*;
use crate::literal::{UNIT, pow10, lemma_pow10_constants};
use crate::poly::{PolynomialMap, VAL_LIMIT};

verus! {

/// The character of one decimal digit.
pub open spec fn digit_char(d: int) -> char {
    if d == 0 {
        '0'
    } else if d == 1 {
        '1'
    } else if d == 2 {
        '2'
    } else if d == 3 {
        '3'
    } else if d == 4 {
        '4'
    } else if d == 5 {
        '5'
    } else if d == 6 {
        '6'
    } else if d == 7 {
        '7'
    } else if d == 8 {
        '8'
    } else {
        '9'
    }
}

/// The decimal digits of a non-negative integer, no leading zero.
pub open spec fn nat_digits(n: int) -> Seq<char>
    decreases n,
{
    if n < 10 {
        seq![digit_char(n)]
    } else {
        nat_digits(n / 10).push(digit_char(n % 10))
    }
}

/// Exactly `k` decimal digits of `f`, zero-padded on the left.
pub open spec fn padded_digits(f: int, k: nat) -> Seq<char>
    decreases k,
{
    if k <= 1 {
        seq![digit_char(f)]
    } else {
        padded_digits(f / 10, (k - 1) as nat).push(digit_char(f % 10))
    }
}

/// A `k`-digit fraction with its trailing zeros stripped.
pub open spec fn trimmed_frac(f: int, k: nat) -> Seq<char>
    decreases k,
{
    if k > 1 && f % 10 == 0 {
        trimmed_frac(f / 10, (k - 1) as nat)
    } else {
        padded_digits(f, k)
    }
}

/// The text of a coefficient: optional minus sign, integer part, and a
/// fractional part only when it is non-zero, shortest form. This is the
/// canonical decimal rendering of the exact value `c / 10^9`.
pub open spec fn dec_chars(c: int) -> Seq<char> {
    let m = if c < 0 {
        -c
    } else {
        c
    };
    (if c < 0 {
        seq!['-']
    } else {
        Seq::<char>::empty()
    }) + nat_digits(m / (UNIT as int)) + (if m % (UNIT as int) == 0 {
        Seq::<char>::empty()
    } else {
        seq!['.'] + trimmed_frac(m % (UNIT as int), 9)
    })
}

/// One rendered term, ` ... +`, or nothing for a zero coefficient.
pub open spec fn term_chars(e: u32, c: int) -> Seq<char> {
    if c == 0 {
        Seq::<char>::empty()
    } else {
        seq![' '] + (if c == UNIT {
            if e == 0 {
                seq!['1']
            } else if e == 1 {
                seq!['X']
            } else {
                seq!['X', '^'] + nat_digits(e as int)
            }
        } else {
            if e == 0 {
                dec_chars(c)
            } else if e == 1 {
                dec_chars(c) + seq![' ', '*', ' ', 'X']
            } else {
                dec_chars(c) + seq![' ', '*', ' ', 'X', '^'] + nat_digits(e as int)
            }
        }) + seq![' ', '+']
    }
}

/// All terms of the entry sequence, in order.
pub open spec fn terms_concat(s: Seq<(u32, i128)>) -> Seq<char>
    decreases s.len(),
{
    if s.len() == 0 {
        Seq::<char>::empty()
    } else {
        terms_concat(s.drop_last()) + term_chars(s.last().0, s.last().1 as int)
    }
}

/// The reduced polynomial's display text: the accumulated terms without
/// the leading space and the trailing ` +`, or `0` when every
/// coefficient was zero.
pub open spec fn spec_reduced_form(s: Seq<(u32, i128)>) -> Seq<char> {
    let t = terms_concat(s);
    if t.len() < 2 {
        seq!['0']
    } else {
        t.subrange(1, t.len() - 2)
    }
}

/// The full displayed equation: the reduced polynomial and ` = 0`.
pub open spec fn spec_displayed_equation(s: Seq<(u32, i128)>) -> Seq<char> {
    spec_reduced_form(s) + seq![' ', '=', ' ', '0']
}

/// Appends one decimal digit.
fn push_digit(s: &mut String, d: u8)
    requires
        d < 10,
    ensures
        final(s)@ == old(s)@.push(digit_char(d as int)),
{
    match d {
        0 => s.append("0"),
        1 => s.append("1"),
        2 => s.append("2"),
        3 => s.append("3"),
        4 => s.append("4"),
        5 => s.append("5"),
        6 => s.append("6"),
        7 => s.append("7"),
        8 => s.append("8"),
        _ => s.append("9"),
    }
    proof {
        reveal_strlit("0");
        reveal_strlit("1");
        reveal_strlit("2");
        reveal_strlit("3");
        reveal_strlit("4");
        reveal_strlit("5");
        reveal_strlit("6");
        reveal_strlit("7");
        reveal_strlit("8");
        reveal_strlit("9");
        assert(s@ =~= old(s)@.push(digit_char(d as int)));
    }
}

/// Appends the decimal digits of `n`.
fn push_nat(s: &mut String, n: u128)
    ensures
        final(s)@ == old(s)@ + nat_digits(n as int),
    decreases n,
{
    if n < 10 {
        push_digit(s, n as u8);
        proof {
            assert(s@ =~= old(s)@ + nat_digits(n as int));
        }
    } else {
        push_nat(s, n / 10);
        push_digit(s, (n % 10) as u8);
        proof {
            assert(s@ =~= old(s)@ + nat_digits(n as int));
        }
    }
}

/// Appends exactly `k` digits of `f`, zero-padded.
fn push_padded(s: &mut String, f: u64, k: u32)
    requires
        1 <= k,
        f < pow10(k as nat),
    ensures
        final(s)@ == old(s)@ + padded_digits(f as int, k as nat),
    decreases k,
{
    if k == 1 {
        proof {
            assert(pow10(0) == 1);
            assert(pow10(1) == 10);
        }
        push_digit(s, f as u8);
        proof {
            assert(s@ =~= old(s)@ + padded_digits(f as int, k as nat));
        }
    } else {
        proof {
            assert(pow10(k as nat) == 10 * pow10((k - 1) as nat));
        }
        push_padded(s, f / 10, k - 1);
        push_digit(s, (f % 10) as u8);
        proof {
            assert(s@ =~= old(s)@ + padded_digits(f as int, k as nat));
        }
    }
}

/// Appends the `k`-digit fraction `f` with trailing zeros stripped.
fn push_frac(s: &mut String, f: u64, k: u32)
    requires
        1 <= k,
        f < pow10(k as nat),
    ensures
        final(s)@ == old(s)@ + trimmed_frac(f as int, k as nat),
    decreases k,
{
    if k > 1 && f % 10 == 0 {
        proof {
            assert(pow10(k as nat) == 10 * pow10((k - 1) as nat));
        }
        push_frac(s, f / 10, k - 1);
    } else {
        push_padded(s, f, k);
    }
}

/// A rendered number is at least one character.
proof fn lemma_nat_digits_min(n: int)
    ensures
        nat_digits(n).len() >= 1,
    decreases n,
{
    if n >= 10 {
        lemma_nat_digits_min(n / 10);
    }
}

/// A rendered term is empty or at least four characters, so the
/// accumulated side is never of length 1 or 2.
proof fn lemma_term_len(e: u32, c: int)
    ensures
        term_chars(e, c).len() == 0 || term_chars(e, c).len() >= 4,
{
    if c != 0 {
        lemma_nat_digits_min(e as int);
        let m = if c < 0 {
            -c
        } else {
            c
        };
        lemma_nat_digits_min(m / (UNIT as int));
    }
}

proof fn lemma_terms_concat_len(s: Seq<(u32, i128)>)
    ensures
        terms_concat(s).len() == 0 || terms_concat(s).len() >= 4,
    decreases s.len(),
{
    if s.len() > 0 {
        lemma_terms_concat_len(s.drop_last());
        lemma_term_len(s.last().0, s.last().1 as int);
    }
}

/// Appends the canonical decimal text of the coefficient `c` (in units of
/// `10^-9`).
fn push_units(s: &mut String, c: i128)
    requires
        -VAL_LIMIT <= c <= VAL_LIMIT,
    ensures
        final(s)@ == old(s)@ + dec_chars(c as int),
{
    proof {
        lemma_pow10_constants();
    }
    if c < 0 {
        s.append("-");
        proof {
            reveal_strlit("-");
        }
    }
    let m: u128 = if c < 0 {
        (-c) as u128
    } else {
        c as u128
    };
    let whole: u128 = m / 1_000_000_000;
    let frac: u128 = m % 1_000_000_000;
    push_nat(s, whole);
    if frac > 0 {
        s.append(".");
        proof {
            reveal_strlit(".");
        }
        push_frac(s, frac as u64, 9);
    }
    proof {
        assert(s@ =~= old(s)@ + dec_chars(c as int));
    }
}

/// Appends one rendered term: nothing for a zero coefficient, otherwise
/// ` C * X^E +` with the numeral dropped for coefficient 1.0, the
/// indeterminate dropped for exponent 0 and the caret dropped for
/// exponent 1.
pub fn add_one_factor_to_eq(expo: u32, coeff: i128, s: &mut String)
    requires
        -VAL_LIMIT <= coeff <= VAL_LIMIT,
    ensures
        final(s)@ == old(s)@ + term_chars(expo, coeff as int),
{
    if coeff == 0 {
        proof {
            assert(s@ =~= old(s)@ + term_chars(expo, coeff as int));
        }
        return ;
    }
    if coeff == UNIT {
        match expo {
            0 => {
                s.append(" 1 +");
                proof {
                    reveal_strlit(" 1 +");
                    assert(s@ =~= old(s)@ + term_chars(expo, coeff as int));
                }
            },
            1 => {
                s.append(" X +");
                proof {
                    reveal_strlit(" X +");
                    assert(s@ =~= old(s)@ + term_chars(expo, coeff as int));
                }
            },
            e => {
                s.append(" X^");
                push_nat(s, e as u128);
                s.append(" +");
                proof {
                    reveal_strlit(" X^");
                    reveal_strlit(" +");
                    assert(s@ =~= old(s)@ + term_chars(expo, coeff as int));
                }
            },
        }
    } else {
        match expo {
            0 => {
                s.append(" ");
                push_units(s, coeff);
                s.append(" +");
                proof {
                    reveal_strlit(" ");
                    reveal_strlit(" +");
                    assert(s@ =~= old(s)@ + term_chars(expo, coeff as int));
                }
            },
            1 => {
                s.append(" ");
                push_units(s, coeff);
                s.append(" * X +");
                proof {
                    reveal_strlit(" ");
                    reveal_strlit(" * X +");
                    assert(s@ =~= old(s)@ + term_chars(expo, coeff as int));
                }
            },
            e => {
                s.append(" ");
                push_units(s, coeff);
                s.append(" * X^");
                push_nat(s, e as u128);
                s.append(" +");
                proof {
                    reveal_strlit(" ");
                    reveal_strlit(" * X^");
                    reveal_strlit(" +");
                    assert(s@ =~= old(s)@ + term_chars(expo, coeff as int));
                }
            },
        }
    }
}

/// Renders the reduced polynomial: ascending exponents, zero coefficients
/// skipped, `0` when nothing remains.
#[verifier::loop_isolation(false)]
pub fn get_reduced_form(components: &PolynomialMap) -> (r: String)
    requires
        components.wf(),
    ensures
        r@ == spec_reduced_form(components.entries@),
{
    let ghost s = components.entries@;
    let mut equation = String::new();
    let n = components.entries.len();
    let mut i: usize = 0;
    proof {
        assert(s.take(0) =~= Seq::<(u32, i128)>::empty());
    }
    while i < n
        invariant
            0 <= i <= n,
            equation@ == terms_concat(s.take(i as int)),
        decreases n - i,
    {
        let entry = components.entries[i];
        add_one_factor_to_eq(entry.0, entry.1, &mut equation);
        proof {
            assert(s.take(i + 1).drop_last() =~= s.take(i as int));
            assert(s.take(i + 1).last() == s[i as int]);
        }
        i += 1;
    }
    proof {
        assert(s.take(n as int) =~= s);
    }
    let len = equation.as_str().unicode_len();
    if len < 2 {
        let r = String::from_str("0");
        proof {
            reveal_strlit("0");
            assert(r@ =~= spec_reduced_form(s));
        }
        r
    } else {
        proof {
            lemma_terms_concat_len(s);
        }
        let trimmed = equation.as_str().substring_char(1, len - 2);
        String::from_str(trimmed)
    }
}

/// The reduced equation as displayed to the user: `<polynomial> = 0`.
pub fn display_reduced_eq(components: &PolynomialMap) -> (r: String)
    requires
        components.wf(),
    ensures
        r@ == spec_displayed_equation(components.entries@),
{
    let mut r = get_reduced_form(components);
    r.append(" = 0");
    proof {
        reveal_strlit(" = 0");
        assert(r@ =~= spec_displayed_equation(components.entries@));
    }
    r
}

} // verus!
