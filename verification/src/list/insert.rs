//! Insertion: the descent records the predecessor of the new value on each
//! level, and the new node is spliced in behind them from the lowest level
//! upward.

use super::SkipList;
use crate::error::SkipListError;
use crate::node::Node;
use crate::order::{follows, holds, rank, strict_total};
use crate::promote::{bounded, climbs, draw_level, PromotionSource};
use vstd::prelude::*;

verus! {

impl<T, F> SkipList<T, F> where F: Fn(&T, &T) -> i32 {
    /// Place `k` cuts level `l` into the values less than `t` and those
    /// greater than `t`.
    pub(super) open spec fn gap(&self, l: int, k: int, t: T) -> bool {
        &&& 0 <= k <= self.row(l).len()
        &&& forall|i: int| 0 <= i < k ==> #[trigger] self.below(l, i, t)
        &&& forall|i: int|
            k <= i < self.row(l).len() ==> (self.order())(t, self.val(#[trigger] self.row(l)[i])) < 0
    }

    /// Where no stored value compares equal to `t`, every cut is a gap.
    pub(super) proof fn lemma_gap(&self, l: int, k: int, t: T)
        requires
            self.wf(),
            0 <= l < self.max_level,
            self.cut(l, k, t),
            !holds(self.order(), self@, t),
        ensures
            self.gap(l, k, t),
    {
        let ord = self.order();
        assert(follows(self.comp, ord) && strict_total(ord));
        assert(self.chain(l));
        assert forall|i: int| k <= i < self.row(l).len() implies ord(
            t,
            self.val(#[trigger] self.row(l)[i]),
        ) < 0 by {
            let y = self.row(l)[i];
            assert(self.linked(l, i));
            assert(self.placed(y, 0));
            assert(self.on(l, y));
            assert(self.on(0, y));
            let lowest = self.row(0);
            let q = choose|q: int| 0 <= q < lowest.len() && lowest[q] == y;
            assert(self@[q] == self.val(y));
            assert(!self.below(l, i, t));
        }
    }

    /// `b` is `a` with node `x` put at place `k` of level `l`.
    pub(super) open spec fn spliced(a: &Self, b: &Self, l: int, k: int, x: usize) -> bool {
        &&& a.akin(b)
        &&& b.levels@ == a.levels@.update(l, a.row(l).insert(k, x))
        &&& forall|j: int| 0 <= j < a.heads@.len() && j != l ==> b.heads@[j] == a.heads@[j]
        &&& b.heads@[l] == if k == 0 {
            Some(x)
        } else {
            a.heads@[l]
        }
        &&& forall|y: usize, j: int|
            a.live(y) && 0 <= j < a.tall(y) && !(j == l && (y == x || Some(y) == a.at(l, k - 1)))
                ==> #[trigger] b.link(y, j) == a.link(y, j)
        &&& b.link(x, l) == a.at(l, k)
        &&& k > 0 ==> b.link(a.row(l)[k - 1], l) == Some(x)
    }

    /// Splicing a node into a gap of one level keeps the shape, and changes
    /// nothing on the other levels.
    pub(super) proof fn lemma_splice(a: &Self, b: &Self, l: int, k: int, x: usize)
        requires
            a.shape(),
            0 <= l < a.max_level,
            a.live(x),
            l < a.tall(x),
            !a.on(l, x),
            a.gap(l, k, a.val(x)),
            Self::spliced(a, b, l, k, x),
        ensures
            b.shape(),
            forall|j: int, y: usize|
                0 <= j < a.max_level ==> (#[trigger] b.on(j, y) <==> a.on(j, y) || (j == l && y == x)),
            forall|j: int| 0 <= j < a.max_level && j != l ==> #[trigger] b.row(j) == a.row(j),
            forall|j: int, c: int, t: T|
                0 <= j < a.max_level && j != l && a.gap(j, c, t) ==> #[trigger] b.gap(j, c, t),
            forall|j: int, c: int|
                0 <= j < a.max_level && j != l ==> #[trigger] b.at(j, c) == a.at(j, c),
    {
        let ord = a.order();
        assert(follows(a.comp, ord) && strict_total(ord));
        assert(b.order() == ord);
        let old_row = a.row(l);
        let new_row = b.row(l);
        assert(new_row == old_row.insert(k, x));
        assert(a.chain(l));
        assert(a.ascending(l));
        assert forall|c: int| 0 <= c < new_row.len() implies #[trigger] b.linked(l, c) by {
            if c < k {
                assert(a.linked(l, c));
                assert(new_row[c] == old_row[c]);
            } else if c == k {
                assert(new_row[c] == x);
            } else {
                assert(a.linked(l, c - 1));
                assert(new_row[c] == old_row[c - 1]);
            }
        }
        assert(new_row.no_duplicates()) by {
            assert forall|c: int, d: int|
                0 <= c < new_row.len() && 0 <= d < new_row.len() && c != d implies new_row[c]
                != new_row[d] by {
                let cc = if c < k { c } else { c - 1 };
                let dd = if d < k { d } else { d - 1 };
                if c != k && d != k {
                    assert(old_row[cc] != old_row[dd]);
                } else if c == k {
                    assert(old_row.contains(old_row[dd]));
                } else {
                    assert(old_row.contains(old_row[cc]));
                }
            }
        }
        assert(b.chain(l));
        assert forall|c: int, d: int| 0 <= c < d < new_row.len() implies #[trigger] b.below(
            l,
            c,
            b.val(new_row[d]),
        ) by {
            let cc = if c < k { c } else { c - 1 };
            let dd = if d < k { d } else { d - 1 };
            if c != k {
                assert(a.linked(l, cc));
            }
            if d != k {
                assert(a.linked(l, dd));
            }
            if c != k && d != k {
                assert(a.below(l, cc, a.val(old_row[dd])));
            } else if d == k {
                assert(a.below(l, cc, a.val(x)));
            } else {
                assert(ord(a.val(x), a.val(old_row[dd])) < 0);
            }
        }
        assert(b.ascending(l));
        assert forall|j: int| 0 <= j < a.max_level && j != l implies #[trigger] b.chain(j) by {
            assert(a.chain(j));
            assert(b.row(j) == a.row(j));
            assert forall|c: int| 0 <= c < b.row(j).len() implies #[trigger] b.linked(j, c) by {
                assert(a.linked(j, c));
            }
        }
        assert forall|j: int| 0 <= j < a.max_level && j != l implies #[trigger] b.ascending(j) by {
            assert(a.chain(j));
            assert(a.ascending(j));
            assert forall|c: int, d: int| 0 <= c < d < b.row(j).len() implies #[trigger] b.below(
                j,
                c,
                b.val(b.row(j)[d]),
            ) by {
                assert(a.linked(j, c));
                assert(a.linked(j, d));
                assert(a.below(j, c, a.val(a.row(j)[d])));
            }
        }
        assert(b.slots()) by {
            assert forall|y: usize| y < b.nodes@.len() implies (#[trigger] b.free@.contains(y)
                <==> b.nodes@[y as int] is None) by {
                assert(a.live(y) <==> b.live(y));
            }
        }
        assert(b.levels@.len() == b.max_level);
        assert(b.heads@.len() == b.max_level);
        assert(forall|j: int| 0 <= j < b.max_level ==> #[trigger] b.chain(j));
        assert(forall|j: int| 0 <= j < b.max_level ==> #[trigger] b.ascending(j));
        assert(b.shape());
        assert forall|j: int, y: usize| 0 <= j < a.max_level implies (#[trigger] b.on(j, y) <==> a.on(
            j,
            y,
        ) || (j == l && y == x)) by {
            if j == l {
                if a.on(l, y) {
                    let c = choose|c: int| 0 <= c < old_row.len() && old_row[c] == y;
                    assert(new_row[if c < k { c } else { c + 1 }] == y);
                }
                if y == x {
                    assert(new_row[k] == x);
                }
                if b.on(l, y) {
                    let c = choose|c: int| 0 <= c < new_row.len() && new_row[c] == y;
                    if c != k {
                        assert(old_row[if c < k { c } else { c - 1 }] == y);
                    }
                }
            } else {
                assert(b.row(j) == a.row(j));
            }
        }
        assert forall|j: int, c: int, t: T|
            0 <= j < a.max_level && j != l && a.gap(j, c, t) implies #[trigger] b.gap(j, c, t) by {
            assert(a.chain(j));
            assert(b.row(j) == a.row(j));
            assert forall|i: int| 0 <= i < c implies #[trigger] b.below(j, i, t) by {
                assert(a.linked(j, i));
                assert(a.below(j, i, t));
            }
            assert forall|i: int| c <= i < b.row(j).len() implies ord(
                t,
                b.val(#[trigger] b.row(j)[i]),
            ) < 0 by {
                assert(a.linked(j, i));
                assert(a.row(j)[i] == b.row(j)[i]);
            }
        }
    }

    /// Putting a node into the arena keeps the shape, the rows and every
    /// node that was there.
    pub(super) proof fn lemma_stored(a: &Self, b: &Self, x: usize)
        requires
            a.wf(),
            b.slots(),
            b.comp == a.comp,
            b.ord@ == a.ord@,
            b.max_level == a.max_level,
            b.heads@ == a.heads@,
            b.levels@ == a.levels@,
            !a.live(x),
            b.live(x),
            forall|y: usize| y != x ==> (#[trigger] b.live(y) <==> a.live(y)),
            forall|y: usize| y != x && a.live(y) ==> #[trigger] b.node(y) == a.node(y),
        ensures
            b.shape(),
            forall|j: int| 0 <= j < a.max_level ==> !#[trigger] b.on(j, x),
            forall|y: usize| #[trigger] b.live(y) && y != x ==> b.placed(y, 0),
            forall|j: int, c: int, t: T|
                0 <= j < a.max_level && a.cut(j, c, t) ==> #[trigger] b.cut(j, c, t),
            forall|j: int, c: int, t: T|
                0 <= j < a.max_level && a.gap(j, c, t) ==> #[trigger] b.gap(j, c, t),
            forall|j: int, c: int| 0 <= j < a.max_level ==> #[trigger] b.at(j, c) == a.at(j, c),
            forall|c: int| 0 <= c < a.row(0).len() ==> b.val(#[trigger] a.row(0)[c]) == a.val(a.row(0)[c]),
            forall|c: int| 0 <= c < a.row(0).len() ==> b.tall(#[trigger] a.row(0)[c]) == a.tall(a.row(0)[c]),
    {
        let ord = a.order();
        assert(b.order() == ord);
        assert forall|j: int| 0 <= j < a.max_level implies #[trigger] b.chain(j) by {
            assert(a.chain(j));
            assert(b.row(j) == a.row(j));
            assert forall|c: int| 0 <= c < b.row(j).len() implies #[trigger] b.linked(j, c) by {
                assert(a.linked(j, c));
            }
        }
        assert forall|j: int| 0 <= j < a.max_level implies #[trigger] b.ascending(j) by {
            assert(a.chain(j));
            assert(a.ascending(j));
            assert forall|c: int, d: int| 0 <= c < d < b.row(j).len() implies #[trigger] b.below(
                j,
                c,
                b.val(b.row(j)[d]),
            ) by {
                assert(a.linked(j, c));
                assert(a.linked(j, d));
                assert(a.below(j, c, a.val(a.row(j)[d])));
            }
        }
        assert forall|j: int| 0 <= j < a.max_level implies !#[trigger] b.on(j, x) by {
            assert(a.chain(j));
            if b.on(j, x) {
                let r = a.row(j);
                let c = choose|c: int| 0 <= c < r.len() && r[c] == x;
                assert(a.linked(j, c));
            }
        }
        assert forall|y: usize| #[trigger] b.live(y) && y != x implies b.placed(y, 0) by {
            assert(a.live(y));
            assert(a.placed(y, 0));
            assert forall|j: int| 0 <= j < b.max_level implies (#[trigger] b.on(j, y) <==> 0 <= j
                < b.tall(y)) by {
                assert(a.on(j, y) <==> 0 <= j < a.tall(y));
            }
        }
        assert forall|j: int, c: int, t: T| 0 <= j < a.max_level && a.cut(j, c, t) implies #[trigger] b.cut(
            j,
            c,
            t,
        ) by {
            assert(a.chain(j));
            assert forall|i: int| 0 <= i < c implies #[trigger] b.below(j, i, t) by {
                assert(a.linked(j, i));
                assert(a.below(j, i, t));
            }
            assert forall|i: int| c <= i < b.row(j).len() implies !#[trigger] b.below(j, i, t) by {
                assert(a.linked(j, i));
                assert(!a.below(j, i, t));
            }
        }
        assert forall|j: int, c: int, t: T| 0 <= j < a.max_level && a.gap(j, c, t) implies #[trigger] b.gap(
            j,
            c,
            t,
        ) by {
            assert(a.chain(j));
            assert forall|i: int| 0 <= i < c implies #[trigger] b.below(j, i, t) by {
                assert(a.linked(j, i));
                assert(a.below(j, i, t));
            }
            assert forall|i: int| c <= i < b.row(j).len() implies ord(
                t,
                b.val(#[trigger] b.row(j)[i]),
            ) < 0 by {
                assert(a.linked(j, i));
                assert(a.row(j)[i] == b.row(j)[i]);
            }
        }
        assert forall|c: int| 0 <= c < a.row(0).len() implies b.val(#[trigger] a.row(0)[c]) == a.val(
            a.row(0)[c],
        ) && b.tall(a.row(0)[c]) == a.tall(a.row(0)[c]) by {
            assert(a.chain(0));
            assert(a.linked(0, c));
        }
    }

    /// The predecessors of `value` on the levels in use, or `None` where a
    /// stored value compares equal to it.
    fn locate(&self, value: &T) -> (res: Option<(Vec<Option<usize>>, Ghost<Seq<int>>)>)
        requires
            self.wf(),
        ensures
            res is None <==> holds(self.order(), self@, *value),
            match res {
                Some((update, cuts)) => {
                    &&& update@.len() == self.height
                    &&& cuts@.len() == self.height
                    &&& forall|l: int|
                        0 <= l < self.height ==> self.cut(l, #[trigger] cuts@[l], *value)
                            && update@[l] == self.at(l, cuts@[l] - 1)
                    &&& self.height > 0 ==> cuts@[0] == rank(self.order(), self@, *value)
                    &&& self.height == 0 ==> rank(self.order(), self@, *value) == 0
                },
                None => true,
            },
    {
        let (update, Ghost(cuts)) = self.find_predecessors(value);
        if self.height > 0 {
            assert(self.chain(0));
            let next = self.next_of(0, update[0], Ghost(cuts[0]));
            proof {
                self.lemma_cut_is_rank(cuts[0], *value);
            }
            match next {
                Some(n) => {
                    assert(self.linked(0, cuts[0]));
                    let r = self.compare(self.value_at(n), value);
                    if r == 0 {
                        return None;
                    }
                },
                None => {},
            }
        } else {
            proof {
                assert(self.row(0).len() == 0);
                assert(self.cut(0, 0, *value));
                self.lemma_cut_is_rank(0, *value);
            }
        }
        Some((update, Ghost(cuts)))
    }

    /// Makes a node of `lv` levels for `value` and links it in behind the
    /// predecessors that the descent recorded.
    fn splice(&mut self, value: T, lv: u32, recorded: Vec<Option<usize>>, Ghost(found): Ghost<Seq<int>>)
        requires
            old(self).wf(),
            old(self)@.len() < u32::MAX,
            1 <= lv <= old(self).max_level,
            !holds(old(self).order(), old(self)@, value),
            recorded@.len() == old(self).height,
            found.len() == old(self).height,
            forall|l: int|
                0 <= l < old(self).height ==> old(self).cut(l, #[trigger] found[l], value)
                    && recorded@[l] == old(self).at(l, found[l] - 1),
        ensures
            final(self).wf(),
            final(self).comp == old(self).comp,
            final(self).ord@ == old(self).ord@,
            final(self).max_level == old(self).max_level,
            final(self).height == if lv > old(self).height { lv } else { old(self).height },
            ({
                let k = if old(self).height > 0 { found[0] } else { 0 };
                &&& final(self)@ == old(self)@.insert(k, value)
                &&& final(self).towers() == old(self).towers().insert(k, lv as int)
            }),
    {
        let ghost v = value;
        let ghost h0 = self.height as int;
        let top = lv as usize;
        let mut update = recorded;
        let ghost cuts: Seq<int> = Seq::new(
            if top > h0 { top as nat } else { h0 as nat },
            |l: int| if l < h0 { found[l] } else { 0 },
        );
        while update.len() < top
            invariant
                h0 == recorded@.len(),
                update@.len() >= h0,
                forall|l: int| 0 <= l < h0 ==> update@[l] == recorded@[l],
                forall|l: int| h0 <= l < update@.len() ==> update@[l] is None,
            decreases top - update@.len(),
        {
            update.push(None);
        }
        let mut node = Node::new(value);
        while node.level() < top
            invariant
                node.item() == v,
                node.links().len() <= top,
            decreases top - node.links().len(),
        {
            node.raise(None);
        }
        if lv > self.height {
            self.height = lv;
        }
        self.size = self.size + 1;
        let x = self.store(node);
        let ghost base = *self;
        proof {
            let a = old(self);
            Self::lemma_stored(a, &base, x);
            assert forall|j: int| 0 <= j < top implies base.gap(j, #[trigger] cuts[j], v) && update@[j]
                == base.at(j, cuts[j] - 1) by {
                if j < h0 {
                    assert(a.cut(j, found[j], v));
                    a.lemma_gap(j, cuts[j], v);
                } else {
                    assert(a.row(j).len() == 0);
                    assert(a.gap(j, 0, v));
                }
                assert(base.gap(j, cuts[j], v));
                assert(base.at(j, cuts[j] - 1) == a.at(j, cuts[j] - 1));
            }
        }
        let mut l: usize = 0;
        while l < top
            invariant
                self.shape(),
                base.akin(self),
                l <= top,
                top == lv,
                1 <= top <= self.max_level,
                update@.len() >= top,
                cuts.len() >= top,
                self.live(x),
                self.tall(x) == top,
                self.val(x) == v,
                forall|j: int| 0 <= j < self.max_level ==> (#[trigger] self.on(j, x) <==> j < l),
                forall|y: usize| #[trigger] self.live(y) && y != x ==> self.placed(y, 0),
                forall|j: int|
                    l <= j < top ==> self.gap(j, #[trigger] cuts[j], v) && update@[j] == self.at(
                        j,
                        cuts[j] - 1,
                    ),
                forall|j: int| l <= j < self.max_level ==> #[trigger] self.row(j) == base.row(j),
                l > 0 ==> self.row(0) == base.row(0).insert(cuts[0], x),
            decreases top - l,
        {
            let ghost a = *self;
            let ghost k = cuts[l as int];
            let pred = update[l];
            assert(self.chain(l as int));
            assert(self.gap(l as int, k, v));
            let next = self.next_of(l, pred, Ghost(k));
            self.levels = Ghost(self.levels@.update(l as int, self.levels@[l as int].insert(k, x)));
            let ghost grown = *self;
            proof {
                Self::lemma_same_arena(&a, &grown);
            }
            self.set_next(l, Some(x), next);
            let ghost mid = *self;
            proof {
                Self::lemma_akin_chain(&a, &grown, &mid);
                if k > 0 {
                    assert(a.linked(l as int, k - 1));
                    assert(a.live(pred->0));
                }
            }
            self.set_next(l, pred, Some(x));
            proof {
                Self::lemma_akin_chain(&a, &mid, self);
                assert forall|y: usize, j: int|
                    a.live(y) && 0 <= j < a.tall(y) && !(j == l && (y == x || Some(y) == a.at(
                        l as int,
                        k - 1,
                    ))) implies #[trigger] self.link(y, j) == a.link(y, j) by {
                    assert(mid.live(y));
                    assert(self.link(y, j) == mid.link(y, j));
                    assert(grown.live(y));
                    assert(mid.link(y, j) == grown.link(y, j));
                }
                assert(!a.on(l as int, x));
                if k > 0 {
                    assert(a.row(l as int).contains(a.row(l as int)[k - 1]));
                    assert(a.row(l as int)[k - 1] != x);
                }
                assert(pred != Some(x));
                assert(self.link(x, l as int) == a.at(l as int, k)) by {
                    assert(mid.link(x, l as int) == next);
                    assert(mid.live(x));
                }
                assert(Self::spliced(&a, self, l as int, k, x));
                Self::lemma_splice(&a, self, l as int, k, x);
                assert forall|y: usize| #[trigger] self.live(y) && y != x implies self.placed(y, 0) by {
                    assert(a.live(y));
                    assert(a.placed(y, 0));
                    assert forall|j: int| 0 <= j < self.max_level implies (#[trigger] self.on(j, y)
                        <==> 0 <= j < self.tall(y)) by {
                        assert(a.on(j, y) <==> 0 <= j < a.tall(y));
                    }
                }
                assert forall|j: int| 0 <= j < self.max_level implies (#[trigger] self.on(j, x) <==> j
                    < l + 1) by {
                    assert(a.on(j, x) <==> j < l);
                }
            }
            l = l + 1;
        }
        proof {
            let a = old(self);
            assert(self.topped()) by {
                assert forall|j: int| 0 <= j < self.max_level implies (j < self.height <==> (
                #[trigger] self.row(j)).len() > 0) by {
                    if j < top {
                        assert(self.on(j, x));
                    } else {
                        assert(self.row(j) == base.row(j));
                        assert(base.row(j) == a.row(j));
                    }
                }
            }
            assert forall|y: usize| #[trigger] self.live(y) implies self.placed(y, 0) by {
                if y == x {
                    assert forall|j: int| 0 <= j < self.max_level implies (#[trigger] self.on(j, x)
                        <==> 0 <= j < self.tall(x)) by {}
                }
            }
            let k0 = if h0 > 0 { found[0] } else { 0 };
            assert(cuts[0] == k0);
            assert(base.row(0) == a.row(0));
            assert(self.row(0) == a.row(0).insert(k0, x));
            assert(self@ =~= a@.insert(k0, v)) by {
                assert forall|c: int| 0 <= c < self@.len() implies self@[c] == a@.insert(k0, v)[c] by {
                    if c != k0 {
                        let cc = if c < k0 { c } else { c - 1 };
                        assert(self.row(0)[c] == a.row(0)[cc]);
                        assert(base.val(a.row(0)[cc]) == a.val(a.row(0)[cc]));
                        assert(a.chain(0));
                        assert(a.linked(0, cc));
                        assert(base.live(a.row(0)[cc]));
                    }
                }
            }
            assert(self.towers() =~= a.towers().insert(k0, lv as int)) by {
                assert forall|c: int| 0 <= c < self.towers().len() implies self.towers()[c]
                    == a.towers().insert(k0, lv as int)[c] by {
                    if c != k0 {
                        let cc = if c < k0 { c } else { c - 1 };
                        assert(self.row(0)[c] == a.row(0)[cc]);
                        assert(base.tall(a.row(0)[cc]) == a.tall(a.row(0)[cc]));
                        assert(a.chain(0));
                        assert(a.linked(0, cc));
                        assert(base.live(a.row(0)[cc]));
                    }
                }
            }
        }
    }

    /// Inserts `value` with a node that stands in `level` levels, taken as
    /// at least 1 and at most the cap of the list. A value that compares
    /// equal to a stored one is rejected, and the list stays as it is.
    pub fn insert_with_level(&mut self, value: T, level: u32) -> (res: Result<(), SkipListError>)
        requires
            old(self).wf(),
            old(self)@.len() < u32::MAX,
        ensures
            final(self).wf(),
            final(self).comparator() == old(self).comparator(),
            final(self).order() == old(self).order(),
            final(self).cap() == old(self).cap(),
            res is Err <==> holds(old(self).order(), old(self)@, value),
            match res {
                Ok(_) => {
                    let k = rank(old(self).order(), old(self)@, value);
                    let lv = bounded(level as int, old(self).cap());
                    &&& final(self)@ == old(self)@.insert(k, value)
                    &&& final(self).towers() == old(self).towers().insert(k, lv)
                    &&& final(self).top() == if lv > old(self).top() {
                        lv
                    } else {
                        old(self).top()
                    }
                },
                Err(e) => e == SkipListError::DuplicateKey && *final(self) == *old(self),
            },
    {
        match self.locate(&value) {
            None => Err(SkipListError::DuplicateKey),
            Some((update, cuts)) => {
                let lv: u32 = if level < 1 {
                    1
                } else if level > self.max_level {
                    self.max_level
                } else {
                    level
                };
                self.splice(value, lv, update, cuts);
                Ok(())
            },
        }
    }

    /// Inserts `value` with a node whose number of levels is drawn from
    /// `source`. A value that compares equal to a stored one is rejected
    /// before anything is drawn, and the list stays as it is.
    pub fn insert<R: PromotionSource>(&mut self, value: T, source: &mut R) -> (res: Result<
        (),
        SkipListError,
    >)
        requires
            old(self).wf(),
            old(self)@.len() < u32::MAX,
        ensures
            final(self).wf(),
            final(self).comparator() == old(self).comparator(),
            final(self).order() == old(self).order(),
            final(self).cap() == old(self).cap(),
            res is Err <==> holds(old(self).order(), old(self)@, value),
            match res {
                Ok(_) => {
                    let k = rank(old(self).order(), old(self)@, value);
                    let lv = final(self).towers()[k];
                    &&& final(self)@ == old(self)@.insert(k, value)
                    &&& final(self).towers() == old(self).towers().insert(k, lv)
                    &&& 1 <= lv <= old(self).cap()
                    &&& climbs(*old(source), *final(source), 1, lv, old(self).cap())
                    &&& final(self).top() == if lv > old(self).top() {
                        lv
                    } else {
                        old(self).top()
                    }
                },
                Err(e) => {
                    &&& e == SkipListError::DuplicateKey
                    &&& *final(self) == *old(self)
                    &&& *final(source) == *old(source)
                },
            },
    {
        match self.locate(&value) {
            None => Err(SkipListError::DuplicateKey),
            Some((update, cuts)) => {
                let lv = draw_level(source, self.max_level);
                self.splice(value, lv, update, cuts);
                proof {
                    old(self).lemma_view_is_lowest_level();
                    let k = rank(old(self).order(), old(self)@, value);
                    assert(self.towers() == old(self).towers().insert(k, lv as int));
                    assert(self.towers()[k] == lv);
                }
                Ok(())
            },
        }
    }
}

} // verus!
