//! What the invariant of the list says in terms of its views.

use super::SkipList;
use crate::laws::{lemma_lookup_after_insert, lemma_lookup_after_remove, lemma_lookup_matches};
use crate::order::{
    embeds, follows, holds, increasing, is_subsequence, lemma_peak_bounds, lemma_peak_is_reached,
    lookup, peak, rank, strict_total,
};
use vstd::prelude::*;

verus! {

impl<T, F> SkipList<T, F> where F: Fn(&T, &T) -> i32 {
    /// The comparator is consistent, and the order of the list is the one
    /// that it decides by.
    pub proof fn lemma_order(&self)
        requires
            self.wf(),
        ensures
            follows(self.comparator(), self.order()),
            strict_total(self.order()),
    {
    }

    /// The view is the lowest level, and every stored value has a tower.
    pub proof fn lemma_view_is_lowest_level(&self)
        requires
            self.wf(),
        ensures
            self@ == self.level(0),
            self.towers().len() == self@.len(),
    {
    }

    /// The values are strictly increasing.
    pub proof fn lemma_sorted(&self)
        requires
            self.wf(),
        ensures
            increasing(self.order(), self@),
    {
        self.lemma_level_sorted(0);
    }

    /// The values of every level are strictly increasing.
    pub proof fn lemma_level_sorted(&self, l: int)
        requires
            self.wf(),
            0 <= l < self.cap(),
        ensures
            increasing(self.order(), self.level(l)),
    {
        assert(self.ascending(l));
        let s = self.level(l);
        assert forall|i: int, j: int| 0 <= i < j < s.len() implies (self.order())(s[i], s[j]) < 0 by {
            assert(self.below(l, i, self.val(self.row(l)[j])));
        }
    }

    /// Every level above the lowest is a subsequence of the level below it.
    pub proof fn lemma_levels_nest(&self, l: int)
        requires
            self.wf(),
            0 < l < self.cap(),
        ensures
            is_subsequence(self.level(l), self.level(l - 1)),
    {
        let ord = self.order();
        assert(follows(self.comp, ord) && strict_total(ord));
        let upper = self.row(l);
        let lower = self.row(l - 1);
        let at = Seq::new(upper.len(), |k: int| choose|q: int| 0 <= q < lower.len() && lower[q] == upper[k]);
        assert(self.chain(l));
        assert(self.chain(l - 1));
        assert(self.ascending(l));
        assert(self.ascending(l - 1));
        assert forall|k: int| 0 <= k < upper.len() implies 0 <= #[trigger] at[k] < lower.len()
            && lower[at[k]] == upper[k] by {
            let y = upper[k];
            assert(self.linked(l, k));
            assert(self.placed(y, 0));
            assert(self.on(l, y));
            assert(self.on(l - 1, y));
        }
        assert forall|j: int, k: int| 0 <= j < k < upper.len() implies #[trigger] at[j]
            < #[trigger] at[k] by {
            assert(self.below(l, j, self.val(upper[k])));
            if at[j] > at[k] {
                assert(self.below(l - 1, at[k], self.val(lower[at[j]])));
            }
        }
        assert(embeds(self.level(l), self.level(l - 1), at));
    }

    /// A level holds exactly the stored values whose towers reach above it.
    pub proof fn lemma_level_members(&self, l: int, i: int)
        requires
            self.wf(),
            0 <= l < self.cap(),
            0 <= i < self@.len(),
        ensures
            self.level(l).contains(self@[i]) <==> l < self.towers()[i],
    {
        let ord = self.order();
        assert(follows(self.comp, ord) && strict_total(ord));
        let y = self.row(0)[i];
        assert(self.chain(0));
        assert(self.chain(l));
        assert(self.linked(0, i));
        assert(self.placed(y, 0));
        if l < self.tall(y) {
            assert(self.on(l, y));
            let r = self.row(l);
            let q = choose|q: int| 0 <= q < r.len() && r[q] == y;
            assert(self.level(l)[q] == self@[i]);
        }
        if self.level(l).contains(self@[i]) {
            let s = self.level(l);
            let q = choose|q: int| 0 <= q < s.len() && s[q] == self@[i];
            let z = self.row(l)[q];
            assert(self.linked(l, q));
            assert(self.placed(z, 0));
            assert(self.on(l, z));
            assert(self.on(0, z));
            let lowest = self.row(0);
            let p = choose|p: int| 0 <= p < lowest.len() && lowest[p] == z;
            assert(self.ascending(0));
            if p < i {
                assert(self.below(0, p, self.val(lowest[i])));
            } else if i < p {
                assert(self.below(0, i, self.val(lowest[p])));
            }
        }
    }

    /// A level holds something exactly where it lies below the height.
    pub proof fn lemma_levels_in_use(&self, l: int)
        requires
            self.wf(),
            0 <= l < self.cap(),
        ensures
            self.level(l).len() > 0 <==> l < self.top(),
    {
        assert(self.row(l).len() == self.level(l).len());
    }

    /// The height is the tallest tower, at most the cap, and 0 exactly
    /// where the list is empty; a tower has at least one level.
    pub proof fn lemma_height(&self)
        requires
            self.wf(),
        ensures
            self.top() == peak(self.towers()),
            0 <= self.top() <= self.cap(),
            self.top() == 0 <==> self@.len() == 0,
            forall|i: int| 0 <= i < self@.len() ==> 1 <= #[trigger] self.towers()[i] <= self.top(),
    {
        let towers = self.towers();
        assert(self.chain(0));
        assert forall|i: int| 0 <= i < towers.len() implies 1 <= #[trigger] towers[i] <= self.top() by {
            let y = self.row(0)[i];
            assert(self.linked(0, i));
            assert(self.placed(y, 0));
            assert(self.on(self.tall(y) - 1, y));
            assert(self.row(self.tall(y) - 1).len() > 0);
        }
        if self.top() > 0 {
            let l = self.top() - 1;
            assert(self.row(l).len() > 0);
            assert(self.chain(l));
            let y = self.row(l)[0];
            assert(self.linked(l, 0));
            assert(self.placed(y, 0));
            assert(self.on(l, y));
            assert(self.on(0, y));
            let lowest = self.row(0);
            let p = choose|p: int| 0 <= p < lowest.len() && lowest[p] == y;
            assert(towers[p] == self.tall(y));
            lemma_peak_bounds(towers, p);
            let i = lemma_peak_is_reached(towers);
        } else {
            assert(self.row(0).len() == 0);
        }
    }

    /// A value that the list takes in is found again: in the list that the
    /// insertion of `v` leaves, searching for `v` gives `v` itself.
    pub proof fn lemma_inserted_is_found(&self, v: T)
        requires
            self.wf(),
            !holds(self.order(), self@, v),
        ensures
            lookup(self.order(), self@.insert(rank(self.order(), self@, v), v), v) == Some(v),
    {
        self.lemma_sorted();
        lemma_lookup_after_insert(self.order(), self@, v);
    }

    /// A value that the list rejects has its equal in it: searching for `v`
    /// gives the stored value that compares equal to `v`.
    pub proof fn lemma_rejected_is_found(&self, v: T)
        requires
            self.wf(),
            holds(self.order(), self@, v),
        ensures
            lookup(self.order(), self@, v) is Some,
            (self.order())(lookup(self.order(), self@, v)->0, v) == 0,
            self@.contains(lookup(self.order(), self@, v)->0),
    {
        self.lemma_sorted();
        lemma_lookup_matches(self.order(), self@, v);
    }

    /// A value that was deleted is gone: in the list that a deletion of `t`
    /// leaves, whether it found `t` or not, searching for `t` gives nothing.
    pub proof fn lemma_deleted_is_not_found(&self, t: T)
        requires
            self.wf(),
        ensures
            holds(self.order(), self@, t) ==> lookup(
                self.order(),
                self@.remove(rank(self.order(), self@, t)),
                t,
            ) is None,
            !holds(self.order(), self@, t) ==> lookup(self.order(), self@, t) is None,
    {
        self.lemma_sorted();
        if holds(self.order(), self@, t) {
            lemma_lookup_after_remove(self.order(), self@, t);
        }
    }
}

} // verus!
