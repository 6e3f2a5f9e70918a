//! Deletion: the descent records the predecessor of the target on each
//! level, the node is unlinked from the lowest level upward, and the levels
//! that it leaves empty are given up.

use super::SkipList;
use crate::error::SkipListError;
use crate::order::{follows, holds, peak, rank, strict_total};
use vstd::prelude::*;

verus! {

impl<T, F> SkipList<T, F> where F: Fn(&T, &T) -> i32 {
    /// A node whose value compares equal to `t` stands right at the cut of
    /// every level that it reaches.
    proof fn lemma_found_at(&self, l: int, k: int, t: T, x: usize)
        requires
            self.wf(),
            self.cut(l, k, t),
            self.live(x),
            (self.order())(self.val(x), t) == 0,
            0 <= l < self.tall(x),
        ensures
            l < self.height,
            k < self.row(l).len(),
            self.row(l)[k] == x,
    {
        let ord = self.order();
        assert(follows(self.comp, ord) && strict_total(ord));
        assert(self.placed(x, 0));
        assert(self.on(l, x));
        let r = self.row(l);
        let q = choose|q: int| 0 <= q < r.len() && r[q] == x;
        assert(r.len() > 0);
        assert(self.ascending(l));
        if q < k {
            assert(self.below(l, q, t));
        } else if q > k {
            assert(!self.below(l, k, t));
            assert(self.below(l, k, self.val(r[q])));
        }
    }

    /// `b` is `a` without the node at place `k` of level `l`.
    spec fn unspliced(a: &Self, b: &Self, l: int, k: int) -> bool {
        &&& a.akin(b)
        &&& b.levels@ == a.levels@.update(l, a.row(l).remove(k))
        &&& forall|j: int| 0 <= j < a.heads@.len() && j != l ==> b.heads@[j] == a.heads@[j]
        &&& b.heads@[l] == if k == 0 {
            a.at(l, 1)
        } else {
            a.heads@[l]
        }
        &&& forall|y: usize, j: int|
            a.live(y) && 0 <= j < a.tall(y) && !(j == l && Some(y) == a.at(l, k - 1))
                ==> #[trigger] b.link(y, j) == a.link(y, j)
        &&& k > 0 ==> b.link(a.row(l)[k - 1], l) == a.at(l, k + 1)
    }

    /// Unlinking a node from one level keeps the shape, and changes nothing
    /// on the other levels.
    proof fn lemma_unsplice(a: &Self, b: &Self, l: int, k: int)
        requires
            a.shape(),
            0 <= l < a.max_level,
            0 <= k < a.row(l).len(),
            Self::unspliced(a, b, l, k),
        ensures
            b.shape(),
            forall|j: int, y: usize|
                0 <= j < a.max_level ==> (#[trigger] b.on(j, y) <==> a.on(j, y) && !(j == l && y
                    == a.row(l)[k])),
            forall|j: int| 0 <= j < a.max_level && j != l ==> #[trigger] b.row(j) == a.row(j),
    {
        let ord = a.order();
        assert(follows(a.comp, ord) && strict_total(ord));
        assert(b.order() == ord);
        let old_row = a.row(l);
        let new_row = b.row(l);
        let x = old_row[k];
        assert(new_row == old_row.remove(k));
        assert(a.chain(l));
        assert(a.ascending(l));
        assert forall|c: int| 0 <= c < new_row.len() implies #[trigger] b.linked(l, c) by {
            if c < k {
                assert(a.linked(l, c));
                assert(new_row[c] == old_row[c]);
            } else {
                assert(a.linked(l, c + 1));
                assert(new_row[c] == old_row[c + 1]);
                if k > 0 {
                    assert(old_row[c + 1] != old_row[k - 1]);
                }
            }
        }
        assert(new_row.no_duplicates()) by {
            assert forall|c: int, d: int|
                0 <= c < new_row.len() && 0 <= d < new_row.len() && c != d implies new_row[c]
                != new_row[d] by {
                let cc = if c < k { c } else { c + 1 };
                let dd = if d < k { d } else { d + 1 };
                assert(old_row[cc] != old_row[dd]);
            }
        }
        assert(b.chain(l));
        assert forall|c: int, d: int| 0 <= c < d < new_row.len() implies #[trigger] b.below(
            l,
            c,
            b.val(new_row[d]),
        ) by {
            let cc = if c < k { c } else { c + 1 };
            let dd = if d < k { d } else { d + 1 };
            assert(a.linked(l, cc));
            assert(a.linked(l, dd));
            assert(a.below(l, cc, a.val(old_row[dd])));
        }
        assert(b.ascending(l));
        assert forall|j: int| 0 <= j < a.max_level && j != l implies #[trigger] b.chain(j) by {
            assert(a.chain(j));
            assert(b.row(j) == a.row(j));
            assert forall|c: int| 0 <= c < b.row(j).len() implies #[trigger] b.linked(j, c) by {
                assert(a.linked(j, c));
            }
        }
        assert forall|j: int| 0 <= j < a.max_level && j != l implies #[trigger] b.ascending(j) by {
            assert(a.chain(j));
            assert(a.ascending(j));
            assert forall|c: int, d: int| 0 <= c < d < b.row(j).len() implies #[trigger] b.below(
                j,
                c,
                b.val(b.row(j)[d]),
            ) by {
                assert(a.linked(j, c));
                assert(a.linked(j, d));
                assert(a.below(j, c, a.val(a.row(j)[d])));
            }
        }
        assert(b.slots()) by {
            assert forall|y: usize| y < b.nodes@.len() implies (#[trigger] b.free@.contains(y)
                <==> b.nodes@[y as int] is None) by {
                assert(a.live(y) <==> b.live(y));
            }
        }
        assert(b.shape());
        assert forall|j: int, y: usize| 0 <= j < a.max_level implies (#[trigger] b.on(j, y) <==> a.on(
            j,
            y,
        ) && !(j == l && y == x)) by {
            if j == l {
                if a.on(l, y) && y != x {
                    let c = choose|c: int| 0 <= c < old_row.len() && old_row[c] == y;
                    assert(new_row[if c < k { c } else { c - 1 }] == y);
                }
                if b.on(l, y) {
                    let c = choose|c: int| 0 <= c < new_row.len() && new_row[c] == y;
                    let cc = if c < k { c } else { c + 1 };
                    assert(old_row[cc] == y);
                    assert(old_row[cc] != old_row[k]);
                }
            } else {
                assert(b.row(j) == a.row(j));
            }
        }
    }

    /// Giving up the slot of a node that stands in no level keeps the shape
    /// and every other node.
    proof fn lemma_freed(a: &Self, b: &Self, x: usize)
        requires
            a.shape(),
            a.live(x),
            forall|j: int| 0 <= j < a.max_level ==> !#[trigger] a.on(j, x),
            b.comp == a.comp,
            b.ord@ == a.ord@,
            b.max_level == a.max_level,
            b.heads@ == a.heads@,
            b.levels@ == a.levels@,
            b.nodes@ == a.nodes@.update(x as int, None),
            b.free@ == a.free@.push(x),
        ensures
            b.shape(),
            !b.live(x),
            forall|y: usize| y != x ==> (#[trigger] b.live(y) <==> a.live(y)),
            forall|y: usize| y != x && a.live(y) ==> #[trigger] b.node(y) == a.node(y),
            forall|y: usize, from: int|
                y != x && a.live(y) && a.placed(y, from) ==> #[trigger] b.placed(y, from),
    {
        assert(b.order() == a.order());
        assert forall|l: int| 0 <= l < b.max_level implies #[trigger] b.chain(l) by {
            assert(a.chain(l));
            assert forall|k: int| 0 <= k < b.row(l).len() implies #[trigger] b.linked(l, k) by {
                assert(a.linked(l, k));
                assert(a.on(l, a.row(l)[k]));
            }
        }
        assert forall|l: int| 0 <= l < b.max_level implies #[trigger] b.ascending(l) by {
            assert(a.chain(l));
            assert(a.ascending(l));
            assert forall|i: int, j: int| 0 <= i < j < b.row(l).len() implies #[trigger] b.below(
                l,
                i,
                b.val(b.row(l)[j]),
            ) by {
                assert(a.linked(l, i));
                assert(a.linked(l, j));
                assert(a.on(l, a.row(l)[i]));
                assert(a.on(l, a.row(l)[j]));
                assert(a.below(l, i, a.val(a.row(l)[j])));
            }
        }
        assert(b.slots()) by {
            let before = a.free@;
            let after = b.free@;
            assert(!before.contains(x));
            assert forall|i: int, j: int| 0 <= i < after.len() && 0 <= j < after.len() && i
                != j implies after[i] != after[j] by {
                if i < before.len() {
                    assert(before.contains(after[i]));
                }
                if j < before.len() {
                    assert(before.contains(after[j]));
                }
            }
            assert forall|y: usize| y < b.nodes@.len() implies (#[trigger] after.contains(y)
                <==> b.nodes@[y as int] is None) by {
                if y == x {
                    assert(after[before.len() as int] == x);
                } else {
                    if before.contains(y) {
                        let i = choose|i: int| 0 <= i < before.len() && before[i] == y;
                        assert(after[i] == y);
                    }
                    if after.contains(y) {
                        let i = choose|i: int| 0 <= i < after.len() && after[i] == y;
                        assert(before[i] == y);
                    }
                }
            }
        }
        assert forall|y: usize, from: int|
            y != x && a.live(y) && a.placed(y, from) implies #[trigger] b.placed(y, from) by {
            assert forall|l: int| 0 <= l < b.max_level implies (#[trigger] b.on(l, y) <==> from <= l
                < b.tall(y)) by {
                assert(a.on(l, y) <==> from <= l < a.tall(y));
            }
        }
    }

    /// Removes the stored value that compares equal to `target`. Where there
    /// is none, the list stays as it is.
    pub fn delete(&mut self, target: &T) -> (res: Result<(), SkipListError>)
        requires
            old(self).wf(),
        ensures
            final(self).wf(),
            final(self).comparator() == old(self).comparator(),
            final(self).order() == old(self).order(),
            final(self).cap() == old(self).cap(),
            res is Ok <==> holds(old(self).order(), old(self)@, *target),
            match res {
                Ok(_) => {
                    let k = rank(old(self).order(), old(self)@, *target);
                    &&& 0 <= k < old(self)@.len()
                    &&& (old(self).order())(old(self)@[k], *target) == 0
                    &&& final(self)@ == old(self)@.remove(k)
                    &&& final(self).towers() == old(self).towers().remove(k)
                    &&& final(self).top() == peak(old(self).towers().remove(k))
                },
                Err(e) => e == SkipListError::NotFound && *final(self) == *old(self),
            },
    {
        let (update, Ghost(cuts)) = self.find_predecessors(target);
        if self.height == 0 {
            proof {
                assert(self.row(0).len() == 0);
            }
            return Err(SkipListError::NotFound);
        }
        let ghost k0 = cuts[0];
        assert(self.chain(0));
        let next = self.next_of(0, update[0], Ghost(k0));
        proof {
            self.lemma_cut_is_rank(k0, *target);
        }
        let x = match next {
            None => {
                return Err(SkipListError::NotFound);
            },
            Some(n) => n,
        };
        assert(self.linked(0, k0));
        if self.compare(self.value_at(x), target) != 0 {
            return Err(SkipListError::NotFound);
        }
        let lv = self.nodes[x].as_ref().unwrap().level();
        let ghost orig = *self;
        proof {
            assert(self.placed(x, 0));
            assert(self.on(lv - 1, x));
            assert(self.row(lv - 1).len() > 0);
            assert forall|j: int| 0 <= j < lv implies 0 <= #[trigger] cuts[j] < self.row(j).len()
                && self.row(j)[cuts[j]] == x && update@[j] == self.at(j, cuts[j] - 1) by {
                self.lemma_found_at(j, cuts[j], *target, x);
            }
        }
        let mut l: usize = 0;
        while l < lv
            invariant
                self.shape(),
                orig.akin(self),
                orig.wf(),
                l <= lv,
                lv <= orig.height,
                lv <= self.max_level,
                update@.len() == orig.height,
                cuts.len() == orig.height,
                self.live(x),
                self.tall(x) == lv,
                forall|j: int| 0 <= j < self.max_level ==> (#[trigger] self.on(j, x) <==> l <= j < lv),
                forall|y: usize| #[trigger] self.live(y) && y != x ==> self.placed(y, 0),
                forall|j: int|
                    l <= j < lv ==> 0 <= #[trigger] cuts[j] < self.row(j).len() && self.row(j)[cuts[j]]
                        == x && update@[j] == self.at(j, cuts[j] - 1),
                forall|j: int| l <= j < self.max_level ==> #[trigger] self.row(j) == orig.row(j),
                l > 0 ==> self.row(0) == orig.row(0).remove(cuts[0]),
            decreases lv - l,
        {
            let ghost a = *self;
            let ghost k = cuts[l as int];
            let pred = update[l];
            assert(self.chain(l as int));
            assert(self.linked(l as int, k));
            let next = self.next_of(l, Some(x), Ghost(k + 1));
            self.levels = Ghost(self.levels@.update(l as int, self.levels@[l as int].remove(k)));
            let ghost shrunk = *self;
            proof {
                Self::lemma_same_arena(&a, &shrunk);
                if k > 0 {
                    assert(a.linked(l as int, k - 1));
                    assert(a.live(pred->0));
                }
            }
            self.set_next(l, pred, next);
            proof {
                Self::lemma_akin_chain(&a, &shrunk, self);
                Self::lemma_akin_chain(&orig, &a, self);
                assert forall|y: usize, j: int|
                    a.live(y) && 0 <= j < a.tall(y) && !(j == l && Some(y) == a.at(l as int, k - 1))
                    implies #[trigger] self.link(y, j) == a.link(y, j) by {
                    assert(shrunk.live(y));
                    assert(self.link(y, j) == shrunk.link(y, j));
                }
                assert(Self::unspliced(&a, self, l as int, k));
                Self::lemma_unsplice(&a, self, l as int, k);
                assert forall|y: usize| #[trigger] self.live(y) && y != x implies self.placed(y, 0) by {
                    assert(a.live(y));
                    assert(a.placed(y, 0));
                    assert forall|j: int| 0 <= j < self.max_level implies (#[trigger] self.on(j, y)
                        <==> 0 <= j < self.tall(y)) by {
                        assert(a.on(j, y) <==> 0 <= j < a.tall(y));
                    }
                }
                assert forall|j: int| 0 <= j < self.max_level implies (#[trigger] self.on(j, x) <==> l
                    + 1 <= j < lv) by {
                    assert(a.on(j, x) <==> l <= j < lv);
                }
            }
            l = l + 1;
        }
        let ghost bare = *self;
        let mut h = self.height;
        while h > 0 && self.heads[(h - 1) as usize].is_none()
            invariant
                self.shape(),
                h <= self.height,
                self.height <= self.max_level,
                forall|j: int| h <= j < self.max_level ==> (#[trigger] self.row(j)).len() == 0,
            decreases h,
        {
            proof {
                assert(self.chain(h - 1));
            }
            h = h - 1;
        }
        proof {
            if h > 0 {
                assert(self.chain(h - 1));
                let y = self.row(h - 1)[0];
                assert(self.linked(h - 1, 0));
                assert(self.on(h - 1, y));
                assert(y != x);
                assert(self.placed(y, 0));
                assert forall|j: int| 0 <= j < h implies (#[trigger] self.row(j)).len() > 0 by {
                    assert(self.on(j, y));
                }
            }
        }
        self.height = h;
        self.size = self.size - 1;
        let ghost trimmed = *self;
        self.nodes[x] = None;
        self.free.push(x);
        proof {
            Self::lemma_same_links(&bare, &trimmed);
            assert forall|j: int| 0 <= j < trimmed.max_level implies !#[trigger] trimmed.on(j, x) by {
                assert(bare.on(j, x) <==> lv <= j < lv);
            }
            Self::lemma_freed(&trimmed, self, x);
            assert forall|y: usize| #[trigger] self.live(y) implies self.placed(y, 0) by {
                assert(trimmed.live(y));
                assert(bare.live(y));
                assert(bare.placed(y, 0));
                assert(trimmed.placed(y, 0));
            }
            assert(self.topped()) by {
                assert forall|j: int| 0 <= j < self.max_level implies (j < self.height <==> (
                #[trigger] self.row(j)).len() > 0) by {
                    assert(self.row(j) == bare.row(j));
                }
            }
            assert(self.row(0) == orig.row(0).remove(k0));
            assert(orig.chain(0));
            assert(self@ =~= orig@.remove(k0)) by {
                assert forall|c: int| 0 <= c < self@.len() implies self@[c] == orig@.remove(k0)[c] by {
                    let cc = if c < k0 { c } else { c + 1 };
                    let y = orig.row(0)[cc];
                    assert(self.row(0)[c] == y);
                    assert(orig.linked(0, cc));
                    assert(y != x);
                    assert(bare.live(y));
                    assert(trimmed.live(y));
                    assert(self.node(y) == trimmed.node(y));
                }
            }
            assert(self.towers() =~= orig.towers().remove(k0)) by {
                assert forall|c: int| 0 <= c < self.towers().len() implies self.towers()[c]
                    == orig.towers().remove(k0)[c] by {
                    let cc = if c < k0 { c } else { c + 1 };
                    let y = orig.row(0)[cc];
                    assert(self.row(0)[c] == y);
                    assert(orig.linked(0, cc));
                    assert(y != x);
                    assert(bare.live(y));
                    assert(trimmed.live(y));
                    assert(self.node(y) == trimmed.node(y));
                }
            }
            self.lemma_height();
        }
        Ok(())
    }
}

} // verus!
