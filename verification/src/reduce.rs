//! The polynomial reducer: folding a token sequence into the coefficient
//! map.
//!
//! An equation `A = B` is reduced to `A - B = 0`: the token sequence is
//! split at its single equality sign, each side is split into additive
//! members, and every member contributes `sign * side * coefficient` to the
//! entry at its exponent, where `sign` comes from the additive operator
//! before the member and `side` is `+1` on the left, `-1` on the right.
//!
//! The input is assumed to have passed an upstream syntax checker: exactly
//! one equality sign, and every member shaped as the term extractor
//! expects. That assumption is [`wf_equation`].

use vstd::prelude::*;
use vstd::slice::{slice_index_get, slice_subrange};
use crate::token::{Token, Role, is_sep, sep_sign, is_eq, is_plus, is_minus, is_separator_op,
    is_equal, is_coefficient, is_indeterminate};
use crate::literal::{UNIT, COEFF_LIMIT, literal_or_zero, lemma_literal_units_bound, parse_units};
use crate::poly::{PolynomialMap, val_or_zero, VAL_LIMIT};

verus! {

/// Most tokens the reducer accepts in one equation. Any sequence that fits
/// in memory is far below this; the bound keeps every accumulated
/// coefficient (at most one literal per token) inside [`VAL_LIMIT`].
pub const MAX_TOKENS: u64 = 100_000_000_000;

// ---------------------------------------------------------------------------
// Splitting positions
// ---------------------------------------------------------------------------

/// Index of the first additive separator, or `s.len()` if there is none.
pub open spec fn first_sep(s: Seq<Token>) -> int
    decreases s.len(),
{
    if s.len() == 0 {
        0
    } else if is_sep(s[0]) {
        0
    } else {
        1 + first_sep(s.skip(1))
    }
}

pub proof fn lemma_first_sep(s: Seq<Token>)
    ensures
        0 <= first_sep(s) <= s.len(),
        forall|j: int| 0 <= j < first_sep(s) ==> !is_sep(#[trigger] s[j]),
        first_sep(s) < s.len() ==> is_sep(s[first_sep(s)]),
    decreases s.len(),
{
    if s.len() != 0 && !is_sep(s[0]) {
        lemma_first_sep(s.skip(1));
        assert forall|j: int| 0 <= j < first_sep(s) implies !is_sep(#[trigger] s[j]) by {
            if j > 0 {
                assert(s.skip(1)[j - 1] == s[j]);
            }
        }
        if first_sep(s) < s.len() {
            assert(s.skip(1)[first_sep(s) - 1] == s[first_sep(s)]);
        }
    }
}

pub proof fn lemma_first_sep_unique(s: Seq<Token>, i: int)
    requires
        0 <= i <= s.len(),
        forall|j: int| 0 <= j < i ==> !is_sep(#[trigger] s[j]),
        i < s.len() ==> is_sep(s[i]),
    ensures
        first_sep(s) == i,
{
    lemma_first_sep(s);
    if first_sep(s) < i {
        assert(!is_sep(s[first_sep(s)]));
    } else if i < first_sep(s) {
        assert(!is_sep(s[i]));
    }
}

/// Index of the first equality sign, or `s.len()` if there is none.
pub open spec fn eq_pos(s: Seq<Token>) -> int
    decreases s.len(),
{
    if s.len() == 0 {
        0
    } else if is_eq(s[0]) {
        0
    } else {
        1 + eq_pos(s.skip(1))
    }
}

pub proof fn lemma_eq_pos(s: Seq<Token>)
    ensures
        0 <= eq_pos(s) <= s.len(),
        forall|j: int| 0 <= j < eq_pos(s) ==> !is_eq(#[trigger] s[j]),
        eq_pos(s) < s.len() ==> is_eq(s[eq_pos(s)]),
    decreases s.len(),
{
    if s.len() != 0 && !is_eq(s[0]) {
        lemma_eq_pos(s.skip(1));
        assert forall|j: int| 0 <= j < eq_pos(s) implies !is_eq(#[trigger] s[j]) by {
            if j > 0 {
                assert(s.skip(1)[j - 1] == s[j]);
            }
        }
        if eq_pos(s) < s.len() {
            assert(s.skip(1)[eq_pos(s) - 1] == s[eq_pos(s)]);
        }
    }
}

pub proof fn lemma_eq_pos_unique(s: Seq<Token>, i: int)
    requires
        0 <= i <= s.len(),
        forall|j: int| 0 <= j < i ==> !is_eq(#[trigger] s[j]),
        i < s.len() ==> is_eq(s[i]),
    ensures
        eq_pos(s) == i,
{
    lemma_eq_pos(s);
    if eq_pos(s) < i {
        assert(!is_eq(s[eq_pos(s)]));
    } else if i < eq_pos(s) {
        assert(!is_eq(s[i]));
    }
}

// ---------------------------------------------------------------------------
// Members: the term extractor's model
// ---------------------------------------------------------------------------

/// The member shapes the term extractor understands: a bare literal `5`, a
/// bare indeterminate `X^e`, or either scaled by the other across a
/// multiplication (`5 * X^e`, `X^e * 5`).
pub open spec fn wf_member(m: Seq<Token>) -> bool {
    &&& m.len() >= 1
    &&& if m[0].role == Role::Number {
        m.len() == 1 || (m.len() >= 3 && m[2].role == Role::Indeterminate)
    } else if m[0].role == Role::Indeterminate {
        m.len() == 1 || (m.len() >= 3 && m[2].role == Role::Number)
    } else {
        false
    }
}

/// The exponent of a member: 0 for a bare constant, otherwise the exponent
/// field of its indeterminate token.
pub open spec fn spec_exponent(m: Seq<Token>) -> u32 {
    if m[0].role == Role::Number {
        if m.len() == 1 {
            0
        } else {
            m[2].exponent
        }
    } else {
        m[0].exponent
    }
}

/// The unsigned coefficient of a member, in units: 1.0 for a bare
/// indeterminate, otherwise its numeric literal (zero if malformed).
pub open spec fn member_units(m: Seq<Token>) -> int {
    if m[0].role == Role::Indeterminate {
        if m.len() == 1 {
            UNIT as int
        } else {
            literal_or_zero(m[2].text@)
        }
    } else {
        literal_or_zero(m[0].text@)
    }
}

pub proof fn lemma_member_units_bound(m: Seq<Token>)
    requires
        wf_member(m),
    ensures
        0 <= member_units(m) <= COEFF_LIMIT,
{
    if m[0].role == Role::Indeterminate && m.len() != 1 {
        if crate::literal::wf_literal(m[2].text@) {
            lemma_literal_units_bound(m[2].text@);
        }
    } else if m[0].role == Role::Number {
        if crate::literal::wf_literal(m[0].text@) {
            lemma_literal_units_bound(m[0].text@);
        }
    }
}

// ---------------------------------------------------------------------------
// Sides: sign tables, member lists, contributions
// ---------------------------------------------------------------------------

/// The signs of the additive separators of a side, in order.
pub open spec fn sep_signs(s: Seq<Token>) -> Seq<i32>
    decreases s.len(),
{
    if s.len() == 0 {
        Seq::empty()
    } else {
        sep_signs(s.drop_last()) + (if is_sep(s.last()) {
            seq![(if s.last().role == Role::Minus { -1i32 } else { 1i32 })]
        } else {
            Seq::<i32>::empty()
        })
    }
}

/// A side is well formed when each of its members (maximal separator-free
/// runs) has a shape the term extractor understands. Since members are
/// non-empty, a side never starts or ends with a separator, nor holds two
/// in a row.
pub open spec fn wf_side(s: Seq<Token>) -> bool
    decreases s.len(),
{
    let i = first_sep(s);
    if 0 <= i && i < s.len() {
        wf_member(s.take(i)) && wf_side(s.skip(i + 1))
    } else {
        wf_member(s)
    }
}

/// How many members a side splits into.
pub open spec fn member_count(s: Seq<Token>) -> nat
    decreases s.len(),
{
    let i = first_sep(s);
    if 0 <= i && i < s.len() {
        1 + member_count(s.skip(i + 1))
    } else {
        1
    }
}

pub proof fn lemma_member_count_le_len(s: Seq<Token>)
    requires
        wf_side(s),
    ensures
        1 <= member_count(s) <= s.len(),
    decreases s.len(),
{
    lemma_first_sep(s);
    let i = first_sep(s);
    if i < s.len() {
        lemma_member_count_le_len(s.skip(i + 1));
    }
}

/// The (exponent, signed coefficient) contributions of a side, member by
/// member. `sign` is the sign the preceding separator gave the first
/// member (`+1` at the start of the side); `side` is `+1` left of the
/// equality sign and `-1` right of it.
pub open spec fn side_contribs(s: Seq<Token>, sign: int, side: int) -> Seq<(u32, int)>
    decreases s.len(),
{
    let i = first_sep(s);
    if 0 <= i && i < s.len() {
        seq![(spec_exponent(s.take(i)), sign * side * member_units(s.take(i)))]
            + side_contribs(s.skip(i + 1), sep_sign(s[i]), side)
    } else {
        seq![(spec_exponent(s), sign * side * member_units(s))]
    }
}

pub proof fn lemma_side_contribs_len(s: Seq<Token>, sign: int, side: int)
    ensures
        side_contribs(s, sign, side).len() == member_count(s),
    decreases s.len(),
{
    let i = first_sep(s);
    lemma_first_sep(s);
    if i < s.len() {
        lemma_side_contribs_len(s.skip(i + 1), sep_sign(s[i]), side);
    }
}

/// Every contribution of a well-formed side is a single literal's worth.
pub proof fn lemma_side_contribs_bound(s: Seq<Token>, sign: int, side: int)
    requires
        wf_side(s),
        sign == 1 || sign == -1,
        side == 1 || side == -1,
    ensures
        forall|k: int|
            0 <= k < side_contribs(s, sign, side).len() ==> -COEFF_LIMIT <= (
            #[trigger] side_contribs(s, sign, side)[k]).1 <= COEFF_LIMIT,
    decreases s.len(),
{
    let i = first_sep(s);
    lemma_first_sep(s);
    if i >= s.len() {
        lemma_member_units_bound(s);
        assert(-COEFF_LIMIT <= sign * side * member_units(s) <= COEFF_LIMIT)
            by (nonlinear_arith)
            requires
                sign == 1 || sign == -1,
                side == 1 || side == -1,
                0 <= member_units(s) <= COEFF_LIMIT,
        ;
    } else {
        lemma_member_units_bound(s.take(i));
        assert(-COEFF_LIMIT <= sign * side * member_units(s.take(i)) <= COEFF_LIMIT)
            by (nonlinear_arith)
            requires
                sign == 1 || sign == -1,
                side == 1 || side == -1,
                0 <= member_units(s.take(i)) <= COEFF_LIMIT,
        ;
        lemma_side_contribs_bound(s.skip(i + 1), sep_sign(s[i]), side);
        assert forall|k: int| 0 <= k < side_contribs(s, sign, side).len() implies -COEFF_LIMIT <= (
        #[trigger] side_contribs(s, sign, side)[k]).1 <= COEFF_LIMIT by {
            if k > 0 {
                assert(side_contribs(s, sign, side)[k] == side_contribs(
                    s.skip(i + 1),
                    sep_sign(s[i]),
                    side,
                )[k - 1]);
            }
        }
    }
}

// ---------------------------------------------------------------------------
// Accumulation: what the contributions make of the map
// ---------------------------------------------------------------------------

/// Some contribution targets exponent `e`.
pub open spec fn has_expo(cs: Seq<(u32, int)>, e: u32) -> bool {
    exists|i: int| 0 <= i < cs.len() && (#[trigger] cs[i]).0 == e
}

/// The sum of the contributions targeting exponent `e`.
pub open spec fn sum_at(cs: Seq<(u32, int)>, e: u32) -> int
    decreases cs.len(),
{
    if cs.len() == 0 {
        0
    } else {
        sum_at(cs.drop_last(), e) + (if cs.last().0 == e {
            cs.last().1
        } else {
            0
        })
    }
}

/// The map after folding the contributions `cs` into `m`: an entry for
/// every exponent touched, holding the old value plus the matching sum.
pub open spec fn add_contribs(m: Map<u32, int>, cs: Seq<(u32, int)>) -> Map<u32, int> {
    Map::new(
        |e: u32| m.dom().contains(e) || has_expo(cs, e),
        |e: u32| val_or_zero(m, e) + sum_at(cs, e),
    )
}

pub proof fn lemma_sum_at_absent(cs: Seq<(u32, int)>, e: u32)
    requires
        !has_expo(cs, e),
    ensures
        sum_at(cs, e) == 0,
    decreases cs.len(),
{
    if cs.len() > 0 {
        assert(!has_expo(cs.drop_last(), e)) by {
            if has_expo(cs.drop_last(), e) {
                let i = choose|i: int|
                    0 <= i < cs.drop_last().len() && (#[trigger] cs.drop_last()[i]).0 == e;
                assert(cs[i].0 == e);
            }
        }
        lemma_sum_at_absent(cs.drop_last(), e);
        assert(cs.last().0 != e);
    }
}

pub proof fn lemma_sum_at_concat(a: Seq<(u32, int)>, b: Seq<(u32, int)>, e: u32)
    ensures
        sum_at(a + b, e) == sum_at(a, e) + sum_at(b, e),
    decreases b.len(),
{
    if b.len() == 0 {
        assert(a + b =~= a);
    } else {
        assert((a + b).drop_last() =~= a + b.drop_last());
        assert((a + b).last() == b.last());
        lemma_sum_at_concat(a, b.drop_last(), e);
    }
}

pub proof fn lemma_has_expo_concat(a: Seq<(u32, int)>, b: Seq<(u32, int)>, e: u32)
    ensures
        has_expo(a + b, e) <==> (has_expo(a, e) || has_expo(b, e)),
{
    if has_expo(a + b, e) {
        let i = choose|i: int| 0 <= i < (a + b).len() && (#[trigger] (a + b)[i]).0 == e;
        if i < a.len() {
            assert(a[i].0 == e);
        } else {
            assert(b[i - a.len()].0 == e);
        }
    }
    if has_expo(a, e) {
        let i = choose|i: int| 0 <= i < a.len() && (#[trigger] a[i]).0 == e;
        assert((a + b)[i].0 == e);
    }
    if has_expo(b, e) {
        let i = choose|i: int| 0 <= i < b.len() && (#[trigger] b[i]).0 == e;
        assert((a + b)[a.len() + i].0 == e);
    }
}

/// Folding a concatenation is folding its parts in order.
pub proof fn lemma_add_contribs_concat(m: Map<u32, int>, a: Seq<(u32, int)>, b: Seq<(u32, int)>)
    ensures
        add_contribs(m, a + b) == add_contribs(add_contribs(m, a), b),
{
    assert forall|e: u32| true implies #[trigger] sum_at(a + b, e) == sum_at(a, e) + sum_at(
        b,
        e,
    ) by {
        lemma_sum_at_concat(a, b, e);
    }
    assert forall|e: u32| true implies #[trigger] has_expo(a + b, e) == (has_expo(a, e)
        || has_expo(b, e)) by {
        lemma_has_expo_concat(a, b, e);
    }
    assert forall|e: u32| !has_expo(a, e) implies sum_at(a, e) == 0 by {
        lemma_sum_at_absent(a, e);
    }
    assert(add_contribs(m, a + b) =~= add_contribs(add_contribs(m, a), b));
}

/// Folding a single contribution is one combine-like-terms update.
pub proof fn lemma_add_contribs_one(m: Map<u32, int>, c: (u32, int))
    ensures
        add_contribs(m, seq![c]) == m.insert(c.0, val_or_zero(m, c.0) + c.1),
{
    assert forall|e: u32| true implies #[trigger] sum_at(seq![c], e) == (if c.0 == e {
        c.1
    } else {
        0
    }) by {
        assert(seq![c].drop_last() =~= Seq::<(u32, int)>::empty());
        assert(seq![c].last() == c);
        assert(sum_at(Seq::<(u32, int)>::empty(), e) == 0);
    }
    assert forall|e: u32| true implies #[trigger] has_expo(seq![c], e) == (c.0 == e) by {
        if has_expo(seq![c], e) {
            let i = choose|i: int| 0 <= i < seq![c].len() && (#[trigger] seq![c][i]).0 == e;
            assert(seq![c][i] == c);
        }
        if c.0 == e {
            assert(seq![c][0].0 == e);
        }
    }
    assert(add_contribs(m, seq![c]) =~= m.insert(c.0, val_or_zero(m, c.0) + c.1));
}

/// The whole equation's contributions: left side then right side, the
/// right side carrying `-1` since `A = B` is reduced as `A - B = 0`.
pub open spec fn contribs(s: Seq<Token>) -> Seq<(u32, int)> {
    side_contribs(s.take(eq_pos(s)), 1, 1) + side_contribs(s.skip(eq_pos(s) + 1), 1, -1)
}

/// The input contract the upstream syntax checker guarantees: exactly one
/// equality sign, and a well-formed run of members on each side.
pub open spec fn wf_equation(s: Seq<Token>) -> bool {
    let k = eq_pos(s);
    &&& k < s.len()
    &&& forall|j: int| k < j < s.len() ==> !is_eq(#[trigger] s[j])
    &&& wf_side(s.take(k))
    &&& wf_side(s.skip(k + 1))
}

/// The reduced form of the equation: the coefficient map every member has
/// been folded into.
pub open spec fn spec_reduce(s: Seq<Token>) -> Map<u32, int> {
    add_contribs(Map::empty(), contribs(s))
}

// ---------------------------------------------------------------------------
// Executable reducer
// ---------------------------------------------------------------------------

/// Appends the sign of an additive operator to the sign table; any other
/// token leaves the table unchanged.
pub fn add_coeff_in_table(token: &Token, vec_coeff: &mut Vec<i32>)
    ensures
        final(vec_coeff)@ == old(vec_coeff)@ + (if is_sep(*token) {
            seq![(if token.role == Role::Minus { -1i32 } else { 1i32 })]
        } else {
            Seq::<i32>::empty()
        }),
{
    if is_plus(token) {
        vec_coeff.push(1);
    } else if is_minus(token) {
        vec_coeff.push(-1);
    }
    proof {
        if !is_sep(*token) {
            assert(vec_coeff@ =~= old(vec_coeff)@ + Seq::<i32>::empty());
        }
    }
}

/// The sign table of one side: entry 0 is `+1` (the first member carries
/// no operator), and each later entry is the sign of the separator before
/// that member.
#[verifier::loop_isolation(false)]
pub fn get_coeff_table(tokens: &[Token]) -> (r: Vec<i32>)
    ensures
        r@ == seq![1i32] + sep_signs(tokens@),
{
    let mut vec_coeff: Vec<i32> = Vec::new();
    vec_coeff.push(1);  // first member
    proof {
        assert(vec_coeff@ =~= seq![1i32] + sep_signs(tokens@.take(0)));
    }
    let n = tokens.len();
    let mut i: usize = 0;
    while i < n
        invariant
            0 <= i <= n,
            vec_coeff@ == seq![1i32] + sep_signs(tokens@.take(i as int)),
        decreases n - i,
    {
        add_coeff_in_table(slice_index_get(tokens, i), &mut vec_coeff);
        proof {
            assert(tokens@.take(i + 1).drop_last() =~= tokens@.take(i as int));
            assert(tokens@.take(i + 1).last() == tokens@[i as int]);
            assert(vec_coeff@ =~= seq![1i32] + sep_signs(tokens@.take(i + 1)));
        }
        i += 1;
    }
    proof {
        assert(tokens@.take(n as int) =~= tokens@);
    }
    vec_coeff
}

/// The exponent of one member, read off the indeterminate token (or 0 for
/// a bare constant).
pub fn get_exponent(member: &[Token]) -> (r: u32)
    requires
        wf_member(member@),
    ensures
        r == spec_exponent(member@),
{
    if is_coefficient(slice_index_get(member, 0)) {
        match member.len() {
            1 => 0,
            _ => slice_index_get(member, 2).exponent,
        }
    } else {
        slice_index_get(member, 0).exponent
    }
}

/// The unsigned coefficient of one member, in units: a bare indeterminate
/// counts 1.0, and a malformed literal counts 0 (the documented lenient
/// fallback; the upstream syntax checker rejects such input).
pub fn get_coeff(member: &[Token]) -> (r: i128)
    requires
        wf_member(member@),
    ensures
        r == member_units(member@),
        0 <= r <= COEFF_LIMIT,
{
    proof {
        lemma_member_units_bound(member@);
    }
    if is_indeterminate(slice_index_get(member, 0)) {
        match member.len() {
            1 => UNIT,
            _ => parse_units_or_zero(slice_index_get(member, 2).text.as_str()),
        }
    } else {
        parse_units_or_zero(slice_index_get(member, 0).text.as_str())
    }
}

/// The lenient literal reading: a malformed literal counts as zero.
fn parse_units_or_zero(word: &str) -> (r: i128)
    ensures
        r == literal_or_zero(word@),
{
    match parse_units(word) {
        Some(v) => v,
        None => 0,
    }
}

/// Folds the members of one side into the map, the first member carrying
/// `sign`, recursing past each separator with that separator's sign.
#[verifier::loop_isolation(false)]
fn parse_members(tokens: &[Token], sign: i32, side: i32, components: &mut PolynomialMap)
    requires
        wf_side(tokens@),
        sign == 1 || sign == -1,
        side == 1 || side == -1,
        old(components).wf(),
        forall|e: u32|
            -VAL_LIMIT + member_count(tokens@) * COEFF_LIMIT <= #[trigger] val_or_zero(
                old(components)@,
                e,
            ) <= VAL_LIMIT - member_count(tokens@) * COEFF_LIMIT,
    ensures
        final(components).wf(),
        final(components)@ == add_contribs(
            old(components)@,
            side_contribs(tokens@, sign as int, side as int),
        ),
    decreases tokens@.len(),
{
    let n = tokens.len();
    proof {
        lemma_first_sep(tokens@);
        lemma_member_count_le_len(tokens@);
    }
    // Find the end of the first member.
    let mut j: usize = 0;
    while j < n && !is_separator_op(slice_index_get(tokens, j))
        invariant
            0 <= j <= n,
            forall|k: int| 0 <= k < j ==> !is_sep(#[trigger] tokens@[k]),
        decreases n - j,
    {
        j += 1;
    }
    proof {
        lemma_first_sep_unique(tokens@, j as int);
    }
    let member = slice_subrange(tokens, 0, j);
    let expo = get_exponent(member);
    let units = get_coeff(member);
    let signed: i128 = if sign * side == 1 {
        units
    } else {
        -units
    };
    let ghost cs = side_contribs(tokens@, sign as int, side as int);
    proof {
        assert(signed as int == (sign as int) * (side as int) * member_units(member@))
            by (nonlinear_arith)
            requires
                sign == 1 || sign == -1,
                side == 1 || side == -1,
                (sign * side == 1 ==> signed == units),
                (sign * side != 1 ==> signed == -units),
                units == member_units(member@),
        ;
        assert(member_count(tokens@) * COEFF_LIMIT >= 1 * COEFF_LIMIT) by (nonlinear_arith)
            requires
                member_count(tokens@) >= 1,
        ;
    }
    components.add_term(expo, signed);
    if j < n {
        let next_sign: i32 = if is_minus(slice_index_get(tokens, j)) {
            -1
        } else {
            1
        };
        let rest = slice_subrange(tokens, j + 1, n);
        proof {
            assert(member_count(rest@) == member_count(tokens@) - 1);
            assert forall|e: u32|
                -VAL_LIMIT + member_count(rest@) * COEFF_LIMIT <= #[trigger] val_or_zero(
                    components@,
                    e,
                ) <= VAL_LIMIT - member_count(rest@) * COEFF_LIMIT by {
                assert((member_count(tokens@) - 1) * COEFF_LIMIT == member_count(tokens@)
                    * COEFF_LIMIT - COEFF_LIMIT) by (nonlinear_arith);
                assert(val_or_zero(components@, e) == val_or_zero(old(components)@, e) + (if e
                    == expo {
                    signed as int
                } else {
                    0
                }));
            }
        }
        parse_members(rest, next_sign, side, components);
        proof {
            let c0 = (spec_exponent(member@), (sign as int) * (side as int) * member_units(
                member@,
            ));
            assert(cs =~= seq![c0] + side_contribs(rest@, sep_sign(tokens@[j as int]), side as int));
            lemma_add_contribs_one(old(components)@, c0);
            lemma_add_contribs_concat(
                old(components)@,
                seq![c0],
                side_contribs(rest@, sep_sign(tokens@[j as int]), side as int),
            );
        }
    } else {
        proof {
            assert(member@ =~= tokens@);
            let c0 = (spec_exponent(tokens@), (sign as int) * (side as int) * member_units(
                tokens@,
            ));
            assert(cs =~= seq![c0]);
            lemma_add_contribs_one(old(components)@, c0);
        }
    }
}

/// Folds one whole side of the equation into the map; `side_coeff` is `+1`
/// for the left side and `-1` for the right side.
pub fn parse_sub_eq(tokens: &[Token], components: &mut PolynomialMap, side_coeff: i32)
    requires
        wf_side(tokens@),
        side_coeff == 1 || side_coeff == -1,
        old(components).wf(),
        forall|e: u32|
            -VAL_LIMIT + member_count(tokens@) * COEFF_LIMIT <= #[trigger] val_or_zero(
                old(components)@,
                e,
            ) <= VAL_LIMIT - member_count(tokens@) * COEFF_LIMIT,
    ensures
        final(components).wf(),
        final(components)@ == add_contribs(
            old(components)@,
            side_contribs(tokens@, 1, side_coeff as int),
        ),
{
    parse_members(tokens, 1, side_coeff, components);
}

/// Reduces the equation: splits the tokens at the equality sign and folds
/// both sides into a single exponent-keyed coefficient map.
#[verifier::loop_isolation(false)]
pub fn parse(tokens: &Vec<Token>) -> (components: PolynomialMap)
    requires
        wf_equation(tokens@),
        tokens@.len() <= MAX_TOKENS,
    ensures
        components.wf(),
        components@ == spec_reduce(tokens@),
{
    let n = tokens.len();
    // Locate the equality sign.
    let mut k: usize = 0;
    while k < n && !is_equal(slice_index_get(tokens.as_slice(), k))
        invariant
            0 <= k <= n,
            forall|j: int| 0 <= j < k ==> !is_eq(#[trigger] tokens@[j]),
        decreases n - k,
    {
        k += 1;
    }
    proof {
        lemma_eq_pos_unique(tokens@, k as int);
    }
    let left = slice_subrange(tokens.as_slice(), 0, k);
    let right = slice_subrange(tokens.as_slice(), k + 1, n);
    let mut components = PolynomialMap::new();
    let ghost lcs = side_contribs(left@, 1, 1);
    let ghost rcs = side_contribs(right@, 1, -1);
    proof {
        lemma_member_count_le_len(left@);
        lemma_member_count_le_len(right@);
        assert(member_count(left@) * COEFF_LIMIT + member_count(right@) * COEFF_LIMIT
            <= MAX_TOKENS * COEFF_LIMIT) by (nonlinear_arith)
            requires
                member_count(left@) + member_count(right@) <= MAX_TOKENS,
                COEFF_LIMIT > 0,
        ;
    }
    parse_sub_eq(left, &mut components, 1);
    proof {
        lemma_side_contribs_len(left@, 1, 1);
        lemma_side_contribs_bound(left@, 1, 1);
        assert forall|e: u32|
            -VAL_LIMIT + member_count(right@) * COEFF_LIMIT <= #[trigger] val_or_zero(
                components@,
                e,
            ) <= VAL_LIMIT - member_count(right@) * COEFF_LIMIT by {
            lemma_sum_bound(lcs, e);
            if !components@.dom().contains(e) {
                lemma_sum_at_absent(lcs, e);
            }
            assert(val_or_zero(components@, e) == sum_at(lcs, e));
        }
    }
    parse_sub_eq(right, &mut components, -1);
    proof {
        lemma_add_contribs_concat(Map::empty(), lcs, rcs);
        assert(left@ =~= tokens@.take(k as int));
        assert(right@ =~= tokens@.skip(k + 1));
        assert(components@ == spec_reduce(tokens@));
    }
    components
}

/// The sum of contributions at any exponent is at most one literal's worth
/// per contribution.
pub proof fn lemma_sum_bound(cs: Seq<(u32, int)>, e: u32)
    requires
        forall|k: int|
            0 <= k < cs.len() ==> -COEFF_LIMIT <= (#[trigger] cs[k]).1 <= COEFF_LIMIT,
    ensures
        -(cs.len() * COEFF_LIMIT) <= sum_at(cs, e) <= cs.len() * COEFF_LIMIT,
    decreases cs.len(),
{
    if cs.len() > 0 {
        lemma_sum_bound(cs.drop_last(), e);
        assert((cs.len() - 1) * COEFF_LIMIT == cs.len() * COEFF_LIMIT - COEFF_LIMIT)
            by (nonlinear_arith);
    }
}

} // verus!
