//! Library-wide laws: properties relating the reducer and the formatter
//! beyond the individual function contracts.

use vstd::prelude::*;
use vstd::seq_lib::{lemma_multiset_commutative, lemma_seq_union_to_multiset_commutative};
use crate::token::{Token, Role, is_sep, is_eq, sep_sign};
use crate::reduce::{contribs, spec_reduce, sum_at, has_expo, side_contribs, spec_exponent,
    member_units, sep_signs, member_count, first_sep, lemma_first_sep, lemma_eq_pos_unique,
    lemma_first_sep_unique};
use crate::display::{spec_reduced_form, spec_displayed_equation, terms_concat, term_chars};

verus! {

/// Removing one contribution removes exactly its share of the sum.
proof fn lemma_sum_at_remove(s: Seq<(u32, int)>, j: int, e: u32)
    requires
        0 <= j < s.len(),
    ensures
        sum_at(s.remove(j), e) == sum_at(s, e) - (if s[j].0 == e {
            s[j].1
        } else {
            0
        }),
    decreases s.len(),
{
    if j == s.len() - 1 {
        assert(s.remove(j) =~= s.drop_last());
    } else {
        assert(s.remove(j).drop_last() =~= s.drop_last().remove(j));
        assert(s.remove(j).last() == s.last());
        lemma_sum_at_remove(s.drop_last(), j, e);
        assert(s.drop_last()[j] == s[j]);
    }
}

/// The per-exponent sum of a contribution sequence depends only on which
/// contributions occur, not on their order: addition is commutative.
pub proof fn lemma_sum_at_permutation(c1: Seq<(u32, int)>, c2: Seq<(u32, int)>, e: u32)
    requires
        c1.to_multiset() == c2.to_multiset(),
    ensures
        sum_at(c1, e) == sum_at(c2, e),
    decreases c1.len(),
{
    c1.to_multiset_ensures();
    c2.to_multiset_ensures();
    if c1.len() == 0 {
        assert(c2.len() == 0);
    } else {
        let p = c1.last();
        assert(c1[c1.len() - 1] == p);
        assert(c1.contains(p));
        assert(c1.to_multiset().count(p) > 0);
        assert(c2.to_multiset().count(p) > 0);
        assert(c2.contains(p));
        let j = choose|j: int| 0 <= j < c2.len() && c2[j] == p;
        let c1d = c1.drop_last();
        let c2r = c2.remove(j);
        c1d.to_multiset_ensures();
        assert(c1d.push(p) =~= c1);
        assert(c1d.push(p).to_multiset() =~= c1d.to_multiset().insert(p));
        assert(c2r.to_multiset() =~= c2.to_multiset().remove(p));
        assert forall|x: (u32, int)| true implies c1d.to_multiset().count(x)
            == c2r.to_multiset().count(x) by {
            if x == p {
            }
        }
        assert(c1d.to_multiset() =~= c2r.to_multiset());
        lemma_sum_at_permutation(c1d, c2r, e);
        lemma_sum_at_remove(c2, j, e);
        assert(c2[j].0 == p.0 && c2[j].1 == p.1);
    }
}

/// Which exponents occur likewise depends only on the collection of
/// contributions.
proof fn lemma_has_expo_permutation(c1: Seq<(u32, int)>, c2: Seq<(u32, int)>, e: u32)
    requires
        c1.to_multiset() == c2.to_multiset(),
    ensures
        has_expo(c1, e) == has_expo(c2, e),
{
    c1.to_multiset_ensures();
    c2.to_multiset_ensures();
    if has_expo(c1, e) {
        let i = choose|i: int| 0 <= i < c1.len() && (#[trigger] c1[i]).0 == e;
        assert(c1.contains(c1[i]));
        assert(c1.to_multiset().count(c1[i]) > 0);
        assert(c2.to_multiset().count(c1[i]) > 0);
        assert(c2.contains(c1[i]));
        let j = choose|j: int| 0 <= j < c2.len() && c2[j] == c1[i];
        assert(c2[j].0 == e);
    }
    if has_expo(c2, e) {
        let i = choose|i: int| 0 <= i < c2.len() && (#[trigger] c2[i]).0 == e;
        assert(c2.contains(c2[i]));
        assert(c2.to_multiset().count(c2[i]) > 0);
        assert(c1.to_multiset().count(c2[i]) > 0);
        assert(c1.contains(c2[i]));
        let j = choose|j: int| 0 <= j < c1.len() && c1[j] == c2[i];
        assert(c1[j].0 == e);
    }
}

/// Commutativity of reduction: two equations whose members contribute the
/// same collection of (exponent, signed coefficient) pairs — for
/// instance `A + B = C` and `B + A = C`, or any other reordering of the
/// members of either side — reduce to the same polynomial map.
pub proof fn lemma_reduce_commutes(t1: Seq<Token>, t2: Seq<Token>)
    requires
        contribs(t1).to_multiset() == contribs(t2).to_multiset(),
    ensures
        spec_reduce(t1) == spec_reduce(t2),
{
    assert forall|e: u32| true implies #[trigger] sum_at(contribs(t1), e) == sum_at(
        contribs(t2),
        e,
    ) by {
        lemma_sum_at_permutation(contribs(t1), contribs(t2), e);
    }
    assert forall|e: u32| true implies #[trigger] has_expo(contribs(t1), e) == has_expo(
        contribs(t2),
        e,
    ) by {
        lemma_has_expo_permutation(contribs(t1), contribs(t2), e);
    }
    assert(spec_reduce(t1) =~= spec_reduce(t2));
}

proof fn lemma_terms_concat_zero(s: Seq<(u32, i128)>)
    requires
        forall|i: int| 0 <= i < s.len() ==> (#[trigger] s[i]).1 == 0,
    ensures
        terms_concat(s) == Seq::<char>::empty(),
    decreases s.len(),
{
    if s.len() > 0 {
        lemma_terms_concat_zero(s.drop_last());
        assert(term_chars(s.last().0, s.last().1 as int) == Seq::<char>::empty());
        assert(terms_concat(s) =~= Seq::<char>::empty());
    }
}

/// The zero polynomial: a map whose coefficients all cancelled to zero
/// displays as `0`, whatever entries it holds, and its equation as
/// `0 = 0`.
pub proof fn lemma_zero_polynomial_displays_zero(s: Seq<(u32, i128)>)
    requires
        forall|i: int| 0 <= i < s.len() ==> (#[trigger] s[i]).1 == 0,
    ensures
        spec_reduced_form(s) == seq!['0'],
        spec_displayed_equation(s) == seq!['0', ' ', '=', ' ', '0'],
{
    lemma_terms_concat_zero(s);
    assert(spec_displayed_equation(s) =~= seq!['0', ' ', '=', ' ', '0']);
}

/// A sequence without separators contributes nothing to the sign table.
proof fn lemma_sep_signs_sep_free(s: Seq<Token>)
    requires
        forall|j: int| 0 <= j < s.len() ==> !is_sep(#[trigger] s[j]),
    ensures
        sep_signs(s) == Seq::<i32>::empty(),
    decreases s.len(),
{
    if s.len() > 0 {
        lemma_sep_signs_sep_free(s.drop_last());
        assert(sep_signs(s) =~= Seq::<i32>::empty());
    }
}

/// The sign table of a concatenation is the tables of the parts.
proof fn lemma_sep_signs_concat(a: Seq<Token>, b: Seq<Token>)
    ensures
        sep_signs(a + b) == sep_signs(a) + sep_signs(b),
    decreases b.len(),
{
    if b.len() == 0 {
        assert(a + b =~= a);
        assert(sep_signs(a) + sep_signs(b) =~= sep_signs(a));
    } else {
        assert((a + b).drop_last() =~= a + b.drop_last());
        assert((a + b).last() == b.last());
        lemma_sep_signs_concat(a, b.drop_last());
        assert(sep_signs(a + b) =~= sep_signs(a) + sep_signs(b));
    }
}

/// The sign table is exactly one entry per member: the leading `+1` and
/// one sign per separator, matching how the side splits.
pub proof fn lemma_sign_table_matches_members(s: Seq<Token>)
    ensures
        1 + sep_signs(s).len() == member_count(s),
    decreases s.len(),
{
    let i = first_sep(s);
    lemma_first_sep(s);
    if i < s.len() {
        assert(s =~= (s.take(i) + seq![s[i]]) + s.skip(i + 1));
        lemma_sep_signs_concat(s.take(i) + seq![s[i]], s.skip(i + 1));
        lemma_sep_signs_concat(s.take(i), seq![s[i]]);
        lemma_sep_signs_sep_free(s.take(i));
        assert(seq![s[i]].drop_last() =~= Seq::<Token>::empty());
        assert(sep_signs(Seq::<Token>::empty()) == Seq::<i32>::empty());
        assert(seq![s[i]].last() == s[i]);
        assert(sep_signs(seq![s[i]]).len() == 1);
        lemma_sign_table_matches_members(s.skip(i + 1));
    } else {
        lemma_sep_signs_sep_free(s);
    }
}

/// A maximal run of tokens forming one member: non-empty, holding neither
/// an additive separator nor an equality sign.
pub open spec fn member_run(s: Seq<Token>) -> bool {
    s.len() >= 1 && forall|i: int|
        0 <= i < s.len() ==> !is_sep(#[trigger] s[i]) && !is_eq(s[i])
}

/// The contribution one member makes when it carries a plus sign on the
/// left side of the equation.
pub open spec fn plus_member_contrib(s: Seq<Token>) -> (u32, int) {
    (spec_exponent(s), member_units(s))
}

/// A side consisting of a single member contributes exactly that member.
proof fn lemma_single_member_side(s: Seq<Token>)
    requires
        member_run(s),
    ensures
        side_contribs(s, 1, 1) == seq![plus_member_contrib(s)],
{
    lemma_first_sep_unique(s, s.len() as int);
    assert(side_contribs(s, 1, 1).len() == 1);
    assert(side_contribs(s, 1, 1)[0].1 == member_units(s));
    assert(side_contribs(s, 1, 1) =~= seq![plus_member_contrib(s)]);
}

/// The concrete member-swap instance of commutativity: the equations
/// `A + B = C` and `B + A = C` reduce to the same polynomial map.
pub proof fn lemma_member_swap_commutes(
    a: Seq<Token>,
    plus_tok: Token,
    b: Seq<Token>,
    eq_tok: Token,
    c: Seq<Token>,
)
    requires
        member_run(a),
        member_run(b),
        plus_tok.role == Role::Plus,
        eq_tok.role == Role::Equal,
    ensures
        spec_reduce(a + seq![plus_tok] + b + seq![eq_tok] + c) == spec_reduce(
            b + seq![plus_tok] + a + seq![eq_tok] + c,
        ),
{
    let pa = plus_member_contrib(a);
    let pb = plus_member_contrib(b);
    let rest = side_contribs(c, 1, -1);
    lemma_one_ordering(a, plus_tok, b, eq_tok, c);
    lemma_one_ordering(b, plus_tok, a, eq_tok, c);
    assert(seq![pa] + seq![pb] =~= seq![pa, pb]);
    assert(seq![pb] + seq![pa] =~= seq![pb, pa]);
    lemma_seq_union_to_multiset_commutative(seq![pa], seq![pb]);
    lemma_multiset_commutative(seq![pa, pb], rest);
    lemma_multiset_commutative(seq![pb, pa], rest);
    lemma_reduce_commutes(
        a + seq![plus_tok] + b + seq![eq_tok] + c,
        b + seq![plus_tok] + a + seq![eq_tok] + c,
    );
}

/// The contributions of `A + B = C`: member `A`, member `B`, then the
/// right side.
proof fn lemma_one_ordering(
    a: Seq<Token>,
    plus_tok: Token,
    b: Seq<Token>,
    eq_tok: Token,
    c: Seq<Token>,
)
    requires
        member_run(a),
        member_run(b),
        plus_tok.role == Role::Plus,
        eq_tok.role == Role::Equal,
    ensures
        contribs(a + seq![plus_tok] + b + seq![eq_tok] + c) == seq![
            plus_member_contrib(a),
            plus_member_contrib(b),
        ] + side_contribs(c, 1, -1),
{
    let t = a + seq![plus_tok] + b + seq![eq_tok] + c;
    let k = a.len() + 1 + b.len();
    assert forall|j: int| 0 <= j < k implies !is_eq(#[trigger] t[j]) by {
        if j < a.len() {
            assert(t[j] == a[j]);
        } else if j == a.len() {
            assert(t[j] == plus_tok);
        } else {
            assert(t[j] == b[j - a.len() - 1]);
        }
    }
    assert(is_eq(t[k as int]));
    lemma_eq_pos_unique(t, k as int);
    let left = t.take(k as int);
    assert(left =~= a + seq![plus_tok] + b);
    assert(t.skip(k + 1 as int) =~= c);
    // The left side splits at the plus: member A, then member B.
    assert forall|j: int| 0 <= j < a.len() implies !is_sep(#[trigger] left[j]) by {
        assert(left[j] == a[j]);
    }
    assert(is_sep(left[a.len() as int]));
    lemma_first_sep_unique(left, a.len() as int);
    assert(left.take(a.len() as int) =~= a);
    assert(left.skip(a.len() + 1 as int) =~= b);
    lemma_single_member_side(b);
    assert(sep_sign(plus_tok) == 1);
    assert(side_contribs(left, 1, 1) == seq![plus_member_contrib(a)] + seq![
        plus_member_contrib(b),
    ]);
    assert(contribs(t) =~= seq![plus_member_contrib(a), plus_member_contrib(b)]
        + side_contribs(c, 1, -1));
}

} // verus!
