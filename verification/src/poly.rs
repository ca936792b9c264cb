//! The sparse polynomial representation: exponent-keyed coefficients.
//!
//! A [`PolynomialMap`] holds `(exponent, coefficient)` entries sorted by
//! strictly ascending exponent, coefficients in units of `10^-9` (see the
//! literal module). A coefficient that cancels to exactly zero stays present
//! as an entry; it is ignored only when displaying and when classifying the
//! degree. Its abstract view is the map from exponents to coefficients.

use vstd::prelude::*;

verus! {

/// Bound on the magnitude of any accumulated coefficient: the largest
/// number of members an equation may contribute (`10^11`) times the largest
/// single literal (`10^27` units). It stays comfortably inside `i128`.
pub const VAL_LIMIT: i128 = 100_000_000_000_000_000_000_000_000_000_000_000_000;

/// Index of the first entry of `s` keyed by exponent `e`, or `s.len()` if
/// none is.
pub open spec fn first_key(s: Seq<(u32, i128)>, e: u32) -> int
    decreases s.len(),
{
    if s.len() == 0 {
        0
    } else if s[0].0 == e {
        0
    } else {
        1 + first_key(s.skip(1), e)
    }
}

/// Some entry of `s` is keyed by exponent `e`.
pub open spec fn has_key(s: Seq<(u32, i128)>, e: u32) -> bool {
    exists|i: int| 0 <= i < s.len() && (#[trigger] s[i]).0 == e
}

/// `first_key` really is the first index keyed by `e`.
pub proof fn lemma_first_key(s: Seq<(u32, i128)>, e: u32)
    ensures
        0 <= first_key(s, e) <= s.len(),
        forall|j: int| 0 <= j < first_key(s, e) ==> (#[trigger] s[j]).0 != e,
        first_key(s, e) < s.len() ==> s[first_key(s, e)].0 == e,
    decreases s.len(),
{
    if s.len() != 0 && s[0].0 != e {
        lemma_first_key(s.skip(1), e);
        assert forall|j: int| 0 <= j < first_key(s, e) implies (#[trigger] s[j]).0 != e by {
            if j > 0 {
                assert(s.skip(1)[j - 1] == s[j]);
            }
        }
        if first_key(s, e) < s.len() {
            assert(s.skip(1)[first_key(s, e) - 1] == s[first_key(s, e)]);
        }
    }
}

/// In a strictly sorted entry sequence a key occurs at most once, so any
/// index holding `e` is the one `first_key` finds.
pub proof fn lemma_key_unique(s: Seq<(u32, i128)>, e: u32, i: int)
    requires
        forall|p: int, q: int| 0 <= p < q < s.len() ==> (#[trigger] s[p]).0 < (#[trigger] s[q]).0,
        0 <= i < s.len(),
        s[i].0 == e,
    ensures
        first_key(s, e) == i,
{
    lemma_first_key(s, e);
    let f = first_key(s, e);
    if f < i {
        assert(s[f].0 != e);
    } else if i < f {
        assert(s[i].0 != e);
    }
}

/// The coefficient of `m` at exponent `e`, an absent key counting as zero.
pub open spec fn val_or_zero(m: Map<u32, int>, e: u32) -> int {
    if m.dom().contains(e) {
        m[e]
    } else {
        0
    }
}

/// Exponent-to-coefficient mapping, entries sorted by ascending exponent.
pub struct PolynomialMap {
    pub entries: Vec<(u32, i128)>,
}

impl View for PolynomialMap {
    type V = Map<u32, int>;

    open spec fn view(&self) -> Map<u32, int> {
        Map::new(
            |e: u32| has_key(self.entries@, e),
            |e: u32| self.entries@[first_key(self.entries@, e)].1 as int,
        )
    }
}

impl PolynomialMap {
    /// Entries are strictly sorted by exponent and every coefficient is
    /// within the reducer's accumulation bound.
    pub open spec fn wf(self) -> bool {
        &&& forall|p: int, q: int|
            0 <= p < q < self.entries@.len() ==> (#[trigger] self.entries@[p]).0 < (
            #[trigger] self.entries@[q]).0
        &&& forall|i: int|
            0 <= i < self.entries@.len() ==> -VAL_LIMIT <= (#[trigger] self.entries@[i]).1
                <= VAL_LIMIT
    }

    /// Every entry is reflected in the view, with its exact coefficient.
    pub proof fn lemma_view_entries(self)
        requires
            self.wf(),
        ensures
            forall|i: int|
                0 <= i < self.entries@.len() ==> self@.dom().contains(
                    (#[trigger] self.entries@[i]).0,
                ) && self@[self.entries@[i].0] == self.entries@[i].1,
    {
        assert forall|i: int| 0 <= i < self.entries@.len() implies self@.dom().contains(
            (#[trigger] self.entries@[i]).0,
        ) && self@[self.entries@[i].0] == self.entries@[i].1 by {
            lemma_key_unique(self.entries@, self.entries@[i].0, i);
        }
    }

    pub fn new() -> (m: Self)
        ensures
            m.wf(),
            m@ == Map::<u32, int>::empty(),
            m.entries@.len() == 0,
    {
        let m = PolynomialMap { entries: Vec::new() };
        proof {
            assert(m@ =~= Map::<u32, int>::empty());
        }
        m
    }

    /// Combine-like-terms update: add `units` into the coefficient at
    /// exponent `expo`, inserting the entry if the exponent is new.
    #[verifier::loop_isolation(false)]
    pub fn add_term(&mut self, expo: u32, units: i128)
        requires
            old(self).wf(),
            -VAL_LIMIT <= val_or_zero(old(self)@, expo) + units <= VAL_LIMIT,
        ensures
            final(self).wf(),
            final(self)@ == old(self)@.insert(expo, val_or_zero(old(self)@, expo) + units),
            final(self).entries@.len() <= old(self).entries@.len() + 1,
    {
        let ghost s_old = self.entries@;
        let n = self.entries.len();
        let mut i: usize = 0;
        while i < n && self.entries[i].0 < expo
            invariant
                0 <= i <= n,
                forall|j: int| 0 <= j < i ==> (#[trigger] self.entries@[j]).0 < expo,
            decreases n - i,
        {
            i += 1;
        }
        if i < n && self.entries[i].0 == expo {
            let v = self.entries[i].1;
            proof {
                lemma_key_unique(s_old, expo, i as int);
            }
            self.entries[i] = (expo, v + units);
            proof {
                let s_new = self.entries@;
                assert forall|e: u32| true implies #[trigger] has_key(s_new, e) == has_key(
                    s_old,
                    e,
                ) by {
                    assert forall|k: int| 0 <= k < s_old.len() implies (#[trigger] s_old[k]).0
                        == s_new[k].0 by {}
                    if has_key(s_new, e) {
                        let k = choose|k: int| 0 <= k < s_new.len() && (#[trigger] s_new[k]).0 == e;
                        assert(s_old[k].0 == e);
                    }
                    if has_key(s_old, e) {
                        let k = choose|k: int| 0 <= k < s_old.len() && (#[trigger] s_old[k]).0 == e;
                        assert(s_new[k].0 == e);
                    }
                }
                assert forall|e: u32| has_key(s_new, e) && e != expo implies s_new[first_key(
                    s_new,
                    e,
                )].1 == s_old[first_key(s_old, e)].1 by {
                    let k = choose|k: int| 0 <= k < s_old.len() && (#[trigger] s_old[k]).0 == e;
                    lemma_key_unique(s_old, e, k);
                    lemma_key_unique(s_new, e, k);
                }
                lemma_key_unique(s_new, expo, i as int);
                assert(self@ =~= old(self)@.insert(expo, val_or_zero(old(self)@, expo) + units));
            }
        } else {
            proof {
                assert forall|k: int| 0 <= k < s_old.len() implies (#[trigger] s_old[k]).0
                    != expo by {
                    if k >= i {
                        assert(s_old[i as int].0 > expo);
                        if k > i {
                            assert(s_old[i as int].0 < s_old[k].0);
                        }
                    }
                }
                assert(!has_key(s_old, expo));
                assert(val_or_zero(old(self)@, expo) == 0);
            }
            self.entries.insert(i, (expo, units));
            proof {
                let s_new = self.entries@;
                s_old.insert_ensures(i as int, (expo, units));
                assert(s_new[i as int] == (expo, units));
                assert(has_key(s_new, expo));
                assert forall|p: int, q: int| 0 <= p < q < s_new.len() implies (
                #[trigger] s_new[p]).0 < (#[trigger] s_new[q]).0 by {
                    if q < i {
                    } else if p < i && q == i {
                    } else if p < i && q > i {
                        assert(s_new[q] == s_old[q - 1]);
                    } else if p == i {
                        assert(s_new[q] == s_old[q - 1]);
                        assert(s_old[q - 1].0 >= s_old[i as int].0);
                    } else {
                        assert(s_new[p] == s_old[p - 1]);
                        assert(s_new[q] == s_old[q - 1]);
                    }
                }
                assert forall|e: u32| has_key(s_new, e) && e != expo implies has_key(s_old, e)
                    && s_new[first_key(s_new, e)].1 == s_old[first_key(s_old, e)].1 by {
                    let k = choose|k: int| 0 <= k < s_new.len() && (#[trigger] s_new[k]).0 == e;
                    if k < i {
                        assert(s_old[k].0 == e);
                        lemma_key_unique(s_old, e, k);
                        lemma_key_unique(s_new, e, k);
                    } else {
                        assert(s_new[k] == s_old[k - 1]);
                        lemma_key_unique(s_old, e, k - 1);
                        lemma_key_unique(s_new, e, k);
                    }
                }
                assert forall|e: u32| has_key(s_old, e) implies has_key(s_new, e) by {
                    let k = choose|k: int| 0 <= k < s_old.len() && (#[trigger] s_old[k]).0 == e;
                    if k < i {
                        assert(s_new[k].0 == e);
                    } else {
                        assert(s_new[k + 1].0 == e);
                    }
                }
                lemma_key_unique(s_new, expo, i as int);
                assert(self@ =~= old(self)@.insert(expo, val_or_zero(old(self)@, expo) + units));
            }
        }
    }

    /// The coefficient at exponent `expo`, an absent key reading as zero.
    #[verifier::loop_isolation(false)]
    pub fn get(&self, expo: u32) -> (r: i128)
        requires
            self.wf(),
        ensures
            r == val_or_zero(self@, expo),
    {
        let n = self.entries.len();
        let mut i: usize = 0;
        while i < n
            invariant
                0 <= i <= n,
                forall|j: int| 0 <= j < i ==> (#[trigger] self.entries@[j]).0 != expo,
            decreases n - i,
        {
            if self.entries[i].0 == expo {
                proof {
                    lemma_key_unique(self.entries@, expo, i as int);
                }
                return self.entries[i].1;
            }
            i += 1;
        }
        0
    }

    /// Whether an entry (possibly zero-valued) is present at `expo`.
    #[verifier::loop_isolation(false)]
    pub fn contains(&self, expo: u32) -> (r: bool)
        ensures
            r == self@.dom().contains(expo),
    {
        let n = self.entries.len();
        let mut i: usize = 0;
        while i < n
            invariant
                0 <= i <= n,
                forall|j: int| 0 <= j < i ==> (#[trigger] self.entries@[j]).0 != expo,
            decreases n - i,
        {
            if self.entries[i].0 == expo {
                return true;
            }
            i += 1;
        }
        false
    }
}

} // verus!
