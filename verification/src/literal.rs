//! Exact decimal numeric literals.
//!
//! A coefficient is held as an `i128` count of units of `10^-9`: the literal
//! `4.5` becomes `4_500_000_000` units. Every value the reducer produces is
//! a sum of signed literals, so this representation is exact throughout.
//!
//! A well-formed literal is `digits` or `digits.digits`, with at most 18
//! digits before the point and at most 9 after. Anything else is malformed;
//! the term extractor deliberately maps malformed literals to zero (the
//! upstream syntax checker is responsible for rejecting them), so
//! [`parse_units`] reports the distinction through an `Option`.

use vstd::prelude::*;

verus! {

/// Units per 1.0: the fixed denominator `10^9` of every coefficient.
pub const UNIT: i128 = 1_000_000_000;

/// Strict bound on the magnitude of any single parsed literal, in units
/// (`10^27`, from 18 integer digits and 9 fractional ones).
pub const COEFF_LIMIT: i128 = 1_000_000_000_000_000_000_000_000_000;

/// Most digits accepted before the decimal point.
pub const MAX_INT_DIGITS: usize = 18;

/// Most digits accepted after the decimal point.
pub const MAX_FRAC_DIGITS: usize = 9;

pub open spec fn pow10(n: nat) -> int
    decreases n,
{
    if n == 0 {
        1
    } else {
        10 * pow10((n - 1) as nat)
    }
}

pub proof fn lemma_pow10_positive(n: nat)
    ensures
        pow10(n) >= 1,
    decreases n,
{
    if n > 0 {
        lemma_pow10_positive((n - 1) as nat);
    }
}

pub proof fn lemma_pow10_monotone(a: nat, b: nat)
    requires
        a <= b,
    ensures
        pow10(a) <= pow10(b),
    decreases b,
{
    lemma_pow10_positive(a);
    if a < b {
        lemma_pow10_monotone(a, (b - 1) as nat);
        lemma_pow10_positive((b - 1) as nat);
    }
}

pub proof fn lemma_pow10_constants()
    ensures
        pow10(9) == UNIT,
        pow10(18) == 1_000_000_000_000_000_000,
        pow10(27) == COEFF_LIMIT,
{
    reveal_with_fuel(pow10, 28);
}

pub open spec fn is_digit(c: char) -> bool {
    48 <= c as u32 && c as u32 <= 57
}

pub open spec fn digit_val(c: char) -> int {
    c as u32 - 48
}

pub open spec fn all_digits(s: Seq<char>) -> bool {
    forall|i: int| 0 <= i < s.len() ==> is_digit(#[trigger] s[i])
}

/// The number denoted by a run of decimal digits, most significant first.
pub open spec fn digits_val(s: Seq<char>) -> int
    decreases s.len(),
{
    if s.len() == 0 {
        0
    } else {
        10 * digits_val(s.drop_last()) + digit_val(s.last())
    }
}

pub proof fn lemma_digits_val_bound(s: Seq<char>)
    requires
        all_digits(s),
    ensures
        0 <= digits_val(s) < pow10(s.len()),
    decreases s.len(),
{
    if s.len() > 0 {
        assert(all_digits(s.drop_last()));
        lemma_digits_val_bound(s.drop_last());
    }
}

pub open spec fn is_dot(c: char) -> bool {
    c == '.'
}

/// Index of the decimal point, or the literal's length if it has none.
pub open spec fn dot_pos(s: Seq<char>) -> int
    decreases s.len(),
{
    if s.len() == 0 {
        0
    } else if is_dot(s[0]) {
        0
    } else {
        1 + dot_pos(s.skip(1))
    }
}

/// `dot_pos` really is the first index holding a point: nothing before it
/// is one, and it is one itself whenever it is in bounds.
pub proof fn lemma_dot_pos(s: Seq<char>)
    ensures
        0 <= dot_pos(s) <= s.len(),
        forall|j: int| 0 <= j < dot_pos(s) ==> !is_dot(#[trigger] s[j]),
        dot_pos(s) < s.len() ==> is_dot(s[dot_pos(s)]),
    decreases s.len(),
{
    if s.len() != 0 && !is_dot(s[0]) {
        lemma_dot_pos(s.skip(1));
        assert forall|j: int| 0 <= j < dot_pos(s) implies !is_dot(#[trigger] s[j]) by {
            if j > 0 {
                assert(s.skip(1)[j - 1] == s[j]);
            }
        }
        if dot_pos(s) < s.len() {
            assert(s.skip(1)[dot_pos(s) - 1] == s[dot_pos(s)]);
        }
    }
}

/// An index known to be the first point is what `dot_pos` returns.
pub proof fn lemma_dot_pos_unique(s: Seq<char>, i: int)
    requires
        0 <= i <= s.len(),
        forall|j: int| 0 <= j < i ==> !is_dot(#[trigger] s[j]),
        i < s.len() ==> is_dot(s[i]),
    ensures
        dot_pos(s) == i,
{
    lemma_dot_pos(s);
    let f = dot_pos(s);
    if f < i {
        assert(!is_dot(s[f]));
    } else if i < f {
        assert(!is_dot(s[i]));
    }
}

/// The shape of an exactly representable numeric literal.
pub open spec fn wf_literal(s: Seq<char>) -> bool {
    let d = dot_pos(s);
    if d == s.len() {
        1 <= s.len() <= MAX_INT_DIGITS && all_digits(s)
    } else {
        &&& 1 <= d <= MAX_INT_DIGITS
        &&& all_digits(s.take(d))
        &&& d + 2 <= s.len()
        &&& s.len() - (d + 1) <= MAX_FRAC_DIGITS
        &&& all_digits(s.skip(d + 1))
    }
}

/// The value of a well-formed literal, in units of `10^-9`.
pub open spec fn literal_units(s: Seq<char>) -> int {
    let d = dot_pos(s);
    if d == s.len() {
        digits_val(s) * UNIT
    } else {
        digits_val(s.take(d)) * UNIT + digits_val(s.skip(d + 1)) * pow10(
            (MAX_FRAC_DIGITS - (s.len() - d - 1)) as nat,
        )
    }
}

/// What the term extractor uses: the literal's value, or zero for a
/// malformed literal (the documented lenient fallback).
pub open spec fn literal_or_zero(s: Seq<char>) -> int {
    if wf_literal(s) {
        literal_units(s)
    } else {
        0
    }
}

pub proof fn lemma_literal_units_bound(s: Seq<char>)
    requires
        wf_literal(s),
    ensures
        0 <= literal_units(s) < COEFF_LIMIT,
{
    lemma_pow10_constants();
    let d = dot_pos(s);
    if d == s.len() {
        lemma_digits_val_bound(s);
        lemma_pow10_monotone(s.len() as nat, 18);
    } else {
        let fl = (s.len() - d - 1) as nat;
        lemma_digits_val_bound(s.take(d));
        lemma_digits_val_bound(s.skip(d + 1));
        lemma_pow10_monotone(d as nat, 18);
        lemma_pow10_positive(fl);
        lemma_pow10_positive((9 - fl) as nat);
        assert(digits_val(s.skip(d + 1)) * pow10((9 - fl) as nat) < pow10(fl) * pow10(
            (9 - fl) as nat,
        )) by (nonlinear_arith)
            requires
                0 <= digits_val(s.skip(d + 1)) < pow10(fl),
                pow10((9 - fl) as nat) >= 1,
        ;
        assert(pow10(fl) * pow10((9 - fl) as nat) == pow10(9)) by {
            lemma_pow10_mul(fl, (9 - fl) as nat);
        }
        assert(digits_val(s.take(d)) * UNIT <= (pow10(18) - 1) * UNIT) by (nonlinear_arith)
            requires
                0 <= digits_val(s.take(d)) <= pow10(18) - 1,
        ;
    }
}

pub proof fn lemma_pow10_mul(a: nat, b: nat)
    ensures
        pow10(a) * pow10(b) == pow10(a + b),
    decreases a,
{
    if a == 0 {
    } else {
        lemma_pow10_mul((a - 1) as nat, b);
        assert(pow10(a) * pow10(b) == 10 * (pow10((a - 1) as nat) * pow10(b)))
            by (nonlinear_arith)
            requires
                pow10(a) == 10 * pow10((a - 1) as nat),
        ;
    }
}

/// Parses a numeric literal exactly, yielding its value in units of
/// `10^-9`, or `None` when the literal is not well formed.
#[verifier::loop_isolation(false)]
pub fn parse_units(word: &str) -> (r: Option<i128>)
    ensures
        r is Some <==> wf_literal(word@),
        r is Some ==> r->Some_0 == literal_units(word@) && 0 <= r->Some_0 < COEFF_LIMIT,
{
    let s = word;
    let n = s.unicode_len();
    proof {
        lemma_pow10_constants();
    }
    // Locate the decimal point.
    let mut d: usize = 0;
    while d < n && s.get_char(d) != '.'
        invariant
            0 <= d <= n,
            n == s@.len(),
            forall|j: int| 0 <= j < d ==> !is_dot(#[trigger] s@[j]),
        decreases n - d,
    {
        d += 1;
    }
    proof {
        lemma_dot_pos_unique(s@, d as int);
    }
    let intlen = d;
    if intlen < 1 || intlen > MAX_INT_DIGITS {
        return None;
    }
    // Integer part.
    let mut acc: i128 = 0;
    let mut i: usize = 0;
    while i < intlen
        invariant
            0 <= i <= intlen <= MAX_INT_DIGITS,
            intlen <= n,
            n == s@.len(),
            all_digits(s@.take(i as int)),
            acc == digits_val(s@.take(i as int)),
            0 <= acc < pow10(i as nat),
            pow10(18) == 1_000_000_000_000_000_000,
        decreases intlen - i,
    {
        let c = s.get_char(i);
        let v = c as u32;
        if v < 48 || v > 57 {
            proof {
                if wf_literal(s@) {
                    if d == n {
                        assert(s@.take(intlen as int) =~= s@);
                        assert(is_digit(s@[i as int]));
                    } else {
                        assert(is_digit(s@.take(d as int)[i as int]));
                    }
                }
            }
            return None;
        }
        proof {
            assert(s@.take(i + 1).drop_last() =~= s@.take(i as int));
            assert(s@.take(i + 1).last() == s@[i as int]);
            lemma_pow10_monotone((i + 1) as nat, 18);
        }
        acc = acc * 10 + ((v - 48) as i128);
        i += 1;
    }
    proof {
        lemma_pow10_monotone(intlen as nat, 18);
    }
    if d == n {
        proof {
            assert(s@.take(intlen as int) =~= s@);
        }
        return Some(acc * UNIT);
    }
    // Fractional part.
    let fl = n - d - 1;
    if fl < 1 || fl > MAX_FRAC_DIGITS {
        return None;
    }
    let mut f: i128 = 0;
    let mut j: usize = d + 1;
    while j < n
        invariant
            d + 1 <= j <= n,
            n == s@.len(),
            fl == n - d - 1,
            fl <= MAX_FRAC_DIGITS,
            all_digits(s@.subrange(d + 1, j as int)),
            f == digits_val(s@.subrange(d + 1, j as int)),
            0 <= f < pow10((j - d - 1) as nat),
            pow10(18) == 1_000_000_000_000_000_000,
        decreases n - j,
    {
        let c = s.get_char(j);
        let v = c as u32;
        if v < 48 || v > 57 {
            proof {
                if wf_literal(s@) {
                    assert(is_digit(s@.skip(d + 1)[j - d - 1]));
                }
            }
            return None;
        }
        proof {
            assert(s@.subrange(d + 1, j + 1).drop_last() =~= s@.subrange(d + 1, j as int));
            assert(s@.subrange(d + 1, j + 1).last() == s@[j as int]);
            lemma_pow10_monotone((j - d) as nat, 18);
        }
        f = f * 10 + ((v - 48) as i128);
        j += 1;
    }
    // Scale the fraction up to 9 digits.
    let mut sc: usize = fl;
    let mut f2: i128 = f;
    proof {
        assert(pow10((sc - fl) as nat) == 1);
        assert(f2 == digits_val(s@.subrange(d + 1, n as int)) * pow10((sc - fl) as nat))
            by (nonlinear_arith)
            requires
                f2 == digits_val(s@.subrange(d + 1, n as int)),
                pow10((sc - fl) as nat) == 1,
        ;
    }
    while sc < MAX_FRAC_DIGITS
        invariant
            fl <= sc <= MAX_FRAC_DIGITS,
            f2 == digits_val(s@.subrange(d + 1, n as int)) * pow10((sc - fl) as nat),
            0 <= f2 < pow10(sc as nat),
            pow10(18) == 1_000_000_000_000_000_000,
        decreases MAX_FRAC_DIGITS - sc,
    {
        proof {
            lemma_pow10_monotone((sc + 1) as nat, 18);
            assert(digits_val(s@.subrange(d + 1, n as int)) * pow10((sc + 1 - fl) as nat)
                == (digits_val(s@.subrange(d + 1, n as int)) * pow10((sc - fl) as nat)) * 10)
                by (nonlinear_arith)
                requires
                    pow10((sc + 1 - fl) as nat) == 10 * pow10((sc - fl) as nat),
            ;
        }
        f2 = f2 * 10;
        sc += 1;
    }
    proof {
        assert(s@.subrange(d + 1, n as int) =~= s@.skip(d + 1));
        assert(acc * UNIT <= (pow10(18) - 1) * UNIT) by (nonlinear_arith)
            requires
                0 <= acc <= pow10(18) - 1,
        ;
        lemma_pow10_monotone(9, 18);
    }
    Some(acc * UNIT + f2)
}

} // verus!

