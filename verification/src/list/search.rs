//! The descent: from the highest level in use down to the lowest, moving
//! forward on each level as long as the next value is less than the target.

use super::SkipList;
use crate::order::{follows, holds, lemma_rank_is_cut, lookup, rank, strict_total};
use vstd::prelude::*;

verus! {

impl<T, F> SkipList<T, F> where F: Fn(&T, &T) -> i32 {
    /// Place `k` cuts level `l` into the values less than `t` and the rest.
    pub(super) open spec fn cut(&self, l: int, k: int, t: T) -> bool {
        &&& 0 <= k <= self.row(l).len()
        &&& forall|i: int| 0 <= i < k ==> #[trigger] self.below(l, i, t)
        &&& forall|i: int| k <= i < self.row(l).len() ==> !#[trigger] self.below(l, i, t)
    }

    /// Walks level `l` from the node before place `k0` to the last node whose
    /// value is less than `target`.
    pub(super) fn advance(
        &self,
        l: usize,
        start: Option<usize>,
        target: &T,
        Ghost(k0): Ghost<int>,
    ) -> (res: (Option<usize>, Ghost<int>))
        requires
            self.shape(),
            l < self.max_level,
            0 <= k0 <= self.row(l as int).len(),
            start == self.at(l as int, k0 - 1),
            forall|i: int| 0 <= i < k0 ==> #[trigger] self.below(l as int, i, *target),
        ensures
            self.cut(l as int, res.1@, *target),
            res.0 == self.at(l as int, res.1@ - 1),
    {
        let mut cur = start;
        let ghost mut k = k0;
        let mut done = false;
        while !done
            invariant
                self.shape(),
                l < self.max_level,
                0 <= k <= self.row(l as int).len(),
                cur == self.at(l as int, k - 1),
                forall|i: int| 0 <= i < k ==> #[trigger] self.below(l as int, i, *target),
                done ==> k == self.row(l as int).len() || !self.below(l as int, k, *target),
            decreases self.row(l as int).len() - k + (if done { 0int } else { 1int }),
        {
            assert(self.chain(l as int));
            let next = self.next_of(l, cur, Ghost(k));
            match next {
                None => {
                    done = true;
                },
                Some(n) => {
                    assert(self.linked(l as int, k));
                    let r = self.compare(self.value_at(n), target);
                    if r < 0 {
                        cur = next;
                        proof {
                            k = k + 1;
                        }
                    } else {
                        done = true;
                    }
                },
            }
        }
        proof {
            let ord = self.order();
            assert(follows(self.comp, ord) && strict_total(ord));
            assert(self.ascending(l as int));
            assert forall|i: int| k <= i < self.row(l as int).len() implies !#[trigger] self.below(
                l as int,
                i,
                *target,
            ) by {
                if i > k {
                    assert(self.below(l as int, k, self.val(self.row(l as int)[i])));
                }
            }
        }
        (cur, Ghost(k))
    }

    /// The node before a cut of level `l` also stands in the level below,
    /// and everything up to it there is less than `t`.
    pub(super) proof fn lemma_descend(&self, l: int, k: int, t: T) -> (k0: int)
        requires
            self.wf(),
            0 < l < self.max_level,
            0 <= k <= self.row(l).len(),
            forall|i: int| 0 <= i < k ==> #[trigger] self.below(l, i, t),
        ensures
            0 <= k0 <= self.row(l - 1).len(),
            self.at(l - 1, k0 - 1) == self.at(l, k - 1),
            forall|i: int| 0 <= i < k0 ==> #[trigger] self.below(l - 1, i, t),
    {
        if k == 0 {
            0
        } else {
            let x = self.row(l)[k - 1];
            let ord = self.order();
            assert(follows(self.comp, ord) && strict_total(ord));
            assert(self.chain(l));
            assert(self.linked(l, k - 1));
            assert(self.placed(x, 0));
            assert(self.on(l, x));
            assert(self.on(l - 1, x));
            let lower = self.row(l - 1);
            let q = choose|q: int| 0 <= q < lower.len() && lower[q] == x;
            assert(self.below(l, k - 1, t));
            assert(self.ascending(l - 1));
            assert forall|i: int| 0 <= i < q + 1 implies #[trigger] self.below(l - 1, i, t) by {
                if i < q {
                    assert(self.below(l - 1, i, self.val(self.row(l - 1)[q])));
                }
            }
            q + 1
        }
    }

    /// For each level in use, the last node whose value is less than
    /// `target`, or `None` where the level starts with a value that is not.
    pub(super) fn find_predecessors(&self, target: &T) -> (res: (Vec<Option<usize>>, Ghost<Seq<int>>))
        requires
            self.wf(),
        ensures
            res.0@.len() == self.height,
            res.1@.len() == self.height,
            forall|l: int|
                0 <= l < self.height ==> self.cut(l, #[trigger] res.1@[l], *target) && res.0@[l]
                    == self.at(l, res.1@[l] - 1),
    {
        let height = self.height as usize;
        let mut update: Vec<Option<usize>> = Vec::new();
        while update.len() < height
            invariant
                update@.len() <= height,
            decreases height - update@.len(),
        {
            update.push(None);
        }
        let ghost mut cuts: Seq<int> = Seq::new(height as nat, |l: int| 0int);
        let mut cur: Option<usize> = None;
        let ghost mut k: int = 0;
        let mut l = height;
        while l > 0
            invariant
                self.wf(),
                height == self.height,
                l <= height,
                update@.len() == height,
                cuts.len() == height,
                forall|j: int|
                    l <= j < height ==> self.cut(j, #[trigger] cuts[j], *target) && update@[j]
                        == self.at(j, cuts[j] - 1),
                l < height ==> cur == update@[l as int] && k == cuts[l as int],
                l == height ==> cur.is_none() && k == 0,
            decreases l,
        {
            let ghost k0 = if l == height {
                0int
            } else {
                self.lemma_descend(l as int, k, *target)
            };
            l = l - 1;
            let (pred, Ghost(reached)) = self.advance(l, cur, target, Ghost(k0));
            cur = pred;
            update[l] = pred;
            proof {
                k = reached;
                cuts = cuts.update(l as int, reached);
            }
        }
        (update, Ghost(cuts))
    }

    /// The stored value that compares equal to `target`, if there is one.
    pub fn search(&self, target: &T) -> (found: Option<&T>)
        requires
            self.wf(),
        ensures
            match found {
                Some(value) => {
                    &&& lookup(self.order(), self@, *target) == Some(*value)
                    &&& (self.order())(*value, *target) == 0
                },
                None => lookup(self.order(), self@, *target) is None,
            },
    {
        let mut cur: Option<usize> = None;
        let ghost mut k: int = 0;
        let mut l = self.height as usize;
        if l == 0 {
            proof {
                assert(self.row(0).len() == 0);
            }
            return None;
        }
        while l > 0
            invariant
                self.wf(),
                l <= self.height,
                l < self.height ==> self.cut(l as int, k, *target) && cur == self.at(l as int, k - 1),
                l == self.height ==> cur.is_none() && k == 0,
            decreases l,
        {
            let ghost k0 = if l == self.height {
                0int
            } else {
                self.lemma_descend(l as int, k, *target)
            };
            l = l - 1;
            let (pred, Ghost(reached)) = self.advance(l, cur, target, Ghost(k0));
            cur = pred;
            proof {
                k = reached;
            }
        }
        assert(self.chain(0));
        let next = self.next_of(0, cur, Ghost(k));
        proof {
            self.lemma_cut_is_rank(k, *target);
        }
        match next {
            None => None,
            Some(n) => {
                assert(self.linked(0, k));
                let v = self.value_at(n);
                let r = self.compare(v, target);
                if r == 0 {
                    Some(v)
                } else {
                    None
                }
            },
        }
    }

    /// A cut of the lowest level is the rank of the target in the view, and
    /// only the value at the cut can compare equal to it.
    pub(super) proof fn lemma_cut_is_rank(&self, k: int, t: T)
        requires
            self.wf(),
            self.cut(0, k, t),
        ensures
            rank(self.order(), self@, t) == k,
            holds(self.order(), self@, t) <==> k < self@.len() && (self.order())(self@[k], t) == 0,
    {
        let ord = self.order();
        assert(follows(self.comp, ord) && strict_total(ord));
        assert(self.ascending(0));
        assert forall|i: int| 0 <= i < k implies ord(#[trigger] self@[i], t) < 0 by {
            assert(self.below(0, i, t));
        }
        assert forall|i: int| k <= i < self@.len() implies ord(#[trigger] self@[i], t) >= 0 by {
            assert(!self.below(0, i, t));
        }
        assert forall|i: int| k < i < self@.len() implies ord(#[trigger] self@[i], t) > 0 by {
            assert(!self.below(0, k, t));
            assert(self.below(0, k, self.val(self.row(0)[i])));
        }
        lemma_rank_is_cut(ord, self@, t, k);
    }
}

} // verus!
