//! Degree classification and the closed-form solver.
//!
//! The effective degree of the reduced map is the highest exponent whose
//! coefficient is non-zero: an entry that cancelled to exactly zero does
//! not count. The solver dispatches on that degree: constant equations
//! have every real or no real as solution, linear ones a single root,
//! quadratic ones zero, one or two real roots by the sign of the
//! discriminant, and any higher degree is rejected.

use vstd::prelude::*;
use crate::poly::{PolynomialMap, val_or_zero, VAL_LIMIT, lemma_key_unique};

verus! {

/// The solutions of the reduced equation `P(X) = 0`.
///
/// Roots are carried exactly, in the map's coefficient units, which cancel
/// in each quotient: a single root is the rational `num / den`, and the
/// two quadratic roots are `(neg_b + sqrt(delta)) / two_c` and
/// `(neg_b - sqrt(delta)) / two_c`.
#[derive(Clone, Copy, Debug, PartialEq, Eq, Structural)]
pub enum SolutionSet {
    /// Degree 0 reducing to `0 = 0`: every real number is a solution.
    Infinite,
    /// Degree 0 with a non-zero constant: no real number is a solution.
    NoSolution,
    /// Degree 2 with a negative discriminant: no real root.
    NoRealSolution,
    /// Exactly one real root, the quotient `num / den` (`den != 0`).
    OneRoot { num: i128, den: i128 },
    /// Exactly two real roots, `(neg_b ± sqrt(delta)) / two_c`
    /// (`delta > 0`, `two_c != 0`).
    TwoRoots { neg_b: i128, delta: i128, two_c: i128 },
}

/// Why the solver refused an equation.
#[derive(Clone, Copy, Debug, PartialEq, Eq, Structural)]
pub enum EquationError {
    /// The reduced equation has degree greater than 2.
    UnsupportedDegree,
    /// An exact discriminant value does not fit the 128-bit coefficient
    /// representation. The upstream reduction is exact, so this is the
    /// one numeric limit the solver has.
    NumericOverflow,
}

/// The effective degree of a sorted entry sequence: the key of the last
/// (hence highest) entry with a non-zero coefficient, or 0 if none is.
pub open spec fn seq_degree(s: Seq<(u32, i128)>) -> u32
    decreases s.len(),
{
    if s.len() == 0 {
        0
    } else if s.last().1 != 0 {
        s.last().0
    } else {
        seq_degree(s.drop_last())
    }
}

/// The effective degree of the reduced map.
pub open spec fn spec_degree(m: PolynomialMap) -> u32 {
    seq_degree(m.entries@)
}

/// A value is representable as an `i128`.
pub open spec fn fits_i128(x: int) -> bool {
    i128::MIN <= x <= i128::MAX
}

/// The degree really is the largest exponent with a non-zero coefficient:
/// no non-zero entry lies above it, and unless every coefficient is zero
/// (in which case the degree reads 0) the entry at the degree is non-zero.
pub proof fn lemma_seq_degree_props(s: Seq<(u32, i128)>)
    requires
        forall|p: int, q: int| 0 <= p < q < s.len() ==> (#[trigger] s[p]).0 < (#[trigger] s[q]).0,
    ensures
        forall|j: int| 0 <= j < s.len() && (#[trigger] s[j]).1 != 0 ==> s[j].0 <= seq_degree(s),
        (exists|j: int| 0 <= j < s.len() && (#[trigger] s[j]).1 != 0) ==> (exists|i: int|
            0 <= i < s.len() && (#[trigger] s[i]).0 == seq_degree(s) && s[i].1 != 0),
        (forall|j: int| 0 <= j < s.len() ==> (#[trigger] s[j]).1 == 0) ==> seq_degree(s) == 0,
    decreases s.len(),
{
    if s.len() == 0 {
    } else if s.last().1 != 0 {
        assert forall|j: int| 0 <= j < s.len() && (#[trigger] s[j]).1 != 0 implies s[j].0
            <= seq_degree(s) by {
            if j < s.len() - 1 {
                assert(s[j].0 < s[s.len() - 1].0);
            }
        }
        assert(s[s.len() - 1].0 == seq_degree(s) && s[s.len() - 1].1 != 0);
    } else {
        let t = s.drop_last();
        lemma_seq_degree_props(t);
        assert forall|j: int| 0 <= j < s.len() && (#[trigger] s[j]).1 != 0 implies s[j].0
            <= seq_degree(s) by {
            assert(j < s.len() - 1);
            assert(t[j] == s[j]);
        }
        if exists|j: int| 0 <= j < s.len() && (#[trigger] s[j]).1 != 0 {
            let j = choose|j: int| 0 <= j < s.len() && (#[trigger] s[j]).1 != 0;
            assert(t[j] == s[j]);
            let i = choose|i: int|
                0 <= i < t.len() && (#[trigger] t[i]).0 == seq_degree(t) && t[i].1 != 0;
            assert(s[i] == t[i]);
        }
    }
}

/// Every coefficient the map can report stays within the accumulation
/// bound.
pub proof fn lemma_val_bound(m: PolynomialMap)
    requires
        m.wf(),
    ensures
        forall|e: u32| -VAL_LIMIT <= #[trigger] val_or_zero(m@, e) <= VAL_LIMIT,
{
    assert forall|e: u32| -VAL_LIMIT <= #[trigger] val_or_zero(m@, e) <= VAL_LIMIT by {
        if m@.dom().contains(e) {
            let k = choose|k: int|
                0 <= k < m.entries@.len() && (#[trigger] m.entries@[k]).0 == e;
            lemma_key_unique(m.entries@, e, k);
        }
    }
}

/// The non-zero coefficient standing at the degree, read through the map
/// view.
pub proof fn lemma_degree_coeff(m: PolynomialMap)
    requires
        m.wf(),
        exists|j: int| 0 <= j < m.entries@.len() && (#[trigger] m.entries@[j]).1 != 0,
    ensures
        val_or_zero(m@, spec_degree(m)) != 0,
{
    lemma_seq_degree_props(m.entries@);
    let i = choose|i: int|
        0 <= i < m.entries@.len() && (#[trigger] m.entries@[i]).0 == spec_degree(m)
            && m.entries@[i].1 != 0;
    m.lemma_view_entries();
}

/// True exactly when the coefficient is non-zero, i.e. when its entry
/// counts toward the degree.
pub fn comp_expo(coeff: &i128) -> (r: bool)
    ensures
        r == (*coeff != 0),
{
    if *coeff == 0 {
        return false;
    }
    true
}

/// The effective degree: the highest exponent whose coefficient is
/// non-zero, 0 when every coefficient is zero.
#[verifier::loop_isolation(false)]
pub fn get_polynomial_degree(components: &PolynomialMap) -> (d: u32)
    requires
        components.wf(),
    ensures
        d == spec_degree(*components),
        (exists|j: int|
            0 <= j < components.entries@.len() && (#[trigger] components.entries@[j]).1 != 0)
            ==> val_or_zero(components@, d) != 0,
        forall|e: u32| degree_bounds_coeff(*components, d, e),
{
    let ghost s = components.entries@;
    proof {
        lemma_seq_degree_props(s);
        if exists|j: int| 0 <= j < s.len() && (#[trigger] s[j]).1 != 0 {
            lemma_degree_coeff(*components);
        }
        components.lemma_view_entries();
        assert forall|e: u32| degree_bounds_coeff(*components, seq_degree(s), e) by {
            if components@.dom().contains(e) && components@[e] != 0 {
                let k = choose|k: int| 0 <= k < s.len() && (#[trigger] s[k]).0 == e;
                lemma_key_unique(s, e, k);
            }
        }
    }
    let n = components.entries.len();
    proof {
        assert(s.take(n as int) =~= s);
    }
    let mut i: usize = n;
    while i > 0
        invariant
            0 <= i <= n,
            seq_degree(s) == seq_degree(s.take(i as int)),
        decreases i,
    {
        let entry = components.entries[i - 1];
        if comp_expo(&entry.1) {
            proof {
                assert(s.take(i as int).last() == s[i - 1]);
            }
            return entry.0;
        }
        proof {
            assert(s.take(i as int).drop_last() =~= s.take(i - 1));
            assert(s.take(i as int).last() == s[i - 1]);
        }
        i -= 1;
    }
    proof {
        assert(s.take(0) =~= Seq::<(u32, i128)>::empty());
    }
    0
}

/// A coefficient above the degree is zero.
pub open spec fn degree_bounds_coeff(m: PolynomialMap, d: u32, e: u32) -> bool {
    (#[trigger] val_or_zero(m@, e)) != 0 ==> e <= d
}

/// Solves the reduced equation by its effective degree.
///
/// Degree 0 distinguishes `0 = 0` (every real) from `c = 0` (none);
/// degree 1 yields the single root `-a / b`; degree 2 computes the exact
/// discriminant `b^2 - 4ca` and yields two roots, one root or no real
/// root by its sign; any higher degree is refused. The only other refusal
/// is an exact discriminant value outside the 128-bit range.
pub fn solve(components: &PolynomialMap) -> (r: Result<SolutionSet, EquationError>)
    requires
        components.wf(),
    ensures
        ({
            let d = spec_degree(*components);
            let a = val_or_zero(components@, 0);
            let b = val_or_zero(components@, 1);
            let c = val_or_zero(components@, 2);
            let delta = b * b - 4 * (c * a);
            let ok = fits_i128(b * b) && fits_i128(c * a) && fits_i128(4 * (c * a)) && fits_i128(
                delta,
            ) && fits_i128(2 * c);
            &&& (d > 2 <==> r == Err::<SolutionSet, EquationError>(
                EquationError::UnsupportedDegree,
            ))
            &&& d == 0 ==> r == Ok::<SolutionSet, EquationError>(
                if a == 0 {
                    SolutionSet::Infinite
                } else {
                    SolutionSet::NoSolution
                },
            )
            &&& d == 1 ==> b != 0 && r == Ok::<SolutionSet, EquationError>(
                SolutionSet::OneRoot { num: (-a) as i128, den: b as i128 },
            )
            &&& d == 2 ==> c != 0 && (if !ok {
                r == Err::<SolutionSet, EquationError>(EquationError::NumericOverflow)
            } else if delta > 0 {
                r == Ok::<SolutionSet, EquationError>(
                    SolutionSet::TwoRoots {
                        neg_b: (-b) as i128,
                        delta: delta as i128,
                        two_c: (2 * c) as i128,
                    },
                )
            } else if delta == 0 {
                r == Ok::<SolutionSet, EquationError>(
                    SolutionSet::OneRoot { num: (-b) as i128, den: (2 * c) as i128 },
                )
            } else {
                r == Ok::<SolutionSet, EquationError>(SolutionSet::NoRealSolution)
            })
        }),
{
    proof {
        lemma_val_bound(*components);
    }
    let degree = get_polynomial_degree(components);
    proof {
        if !(exists|j: int|
            0 <= j < components.entries@.len() && (#[trigger] components.entries@[j]).1 != 0) {
            lemma_seq_degree_props(components.entries@);
            assert(degree == 0);
        }
    }
    if degree > 2 {
        return Err(EquationError::UnsupportedDegree);
    }
    let a = components.get(0);
    if degree == 0 {
        if a == 0 {
            Ok(SolutionSet::Infinite)
        } else {
            Ok(SolutionSet::NoSolution)
        }
    } else if degree == 1 {
        let b = components.get(1);
        Ok(SolutionSet::OneRoot { num: -a, den: b })
    } else {
        let b = components.get(1);
        let c = components.get(2);
        let bb = match b.checked_mul(b) {
            Some(v) => v,
            None => {
                return Err(EquationError::NumericOverflow);
            },
        };
        let ca = match c.checked_mul(a) {
            Some(v) => v,
            None => {
                return Err(EquationError::NumericOverflow);
            },
        };
        let four_ca = match ca.checked_mul(4) {
            Some(v) => v,
            None => {
                return Err(EquationError::NumericOverflow);
            },
        };
        let delta = match bb.checked_sub(four_ca) {
            Some(v) => v,
            None => {
                return Err(EquationError::NumericOverflow);
            },
        };
        let two_c = match c.checked_mul(2) {
            Some(v) => v,
            None => {
                return Err(EquationError::NumericOverflow);
            },
        };
        if delta > 0 {
            Ok(SolutionSet::TwoRoots { neg_b: -b, delta, two_c })
        } else if delta == 0 {
            Ok(SolutionSet::OneRoot { num: -b, den: two_c })
        } else {
            Ok(SolutionSet::NoRealSolution)
        }
    }
}

} // verus!
