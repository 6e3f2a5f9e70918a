//! The list itself: an arena of nodes, one entry point for each level, and
//! the invariant that ties them together.

use crate::node::Node;
use crate::order::{consistent, follows, order_of, peak, sign, strict_total};
use vstd::prelude::*;

mod delete;
mod insert;
mod invariants;
mod search;
mod traverse;

pub use self::traverse::Traversal;

verus! {

/// The number of levels that a list uses at most unless it is told otherwise.
pub const DEFAULT_MAX_LEVEL: u32 = 32;

/// An ordered collection of values, kept sorted by a comparator given at
/// construction. No two stored values compare equal.
#[verifier::reject_recursive_types(T)]
pub struct SkipList<T, F> where F: Fn(&T, &T) -> i32 {
    nodes: Vec<Option<Node<T>>>,
    free: Vec<usize>,
    heads: Vec<Option<usize>>,
    size: u32,
    height: u32,
    max_level: u32,
    comp: F,
    levels: Ghost<Seq<Seq<usize>>>,
    ord: Ghost<spec_fn(T, T) -> int>,
}

impl<T, F> View for SkipList<T, F> where F: Fn(&T, &T) -> i32 {
    type V = Seq<T>;

    /// The stored values in the order of the lowest level.
    closed spec fn view(&self) -> Seq<T> {
        self.level(0)
    }
}

impl<T, F> SkipList<T, F> where F: Fn(&T, &T) -> i32 {
    /// The comparator that the list was made with.
    pub closed spec fn comparator(&self) -> F {
        self.comp
    }

    /// The order by which the list is sorted: one that the comparator
    /// decides by.
    pub closed spec fn order(&self) -> spec_fn(T, T) -> int {
        self.ord@
    }

    /// The largest number of levels that the list may use.
    pub closed spec fn cap(&self) -> int {
        self.max_level as int
    }

    /// The number of levels in use.
    pub closed spec fn top(&self) -> int {
        self.height as int
    }

    /// The values reachable from the entry point of level `l`, in the order
    /// of their links.
    pub closed spec fn level(&self, l: int) -> Seq<T> {
        Seq::new(self.row(l).len(), |k: int| self.val(self.row(l)[k]))
    }

    /// For each stored value, in the order of the view, the number of levels
    /// that its node stands in.
    pub closed spec fn towers(&self) -> Seq<int> {
        Seq::new(self.row(0).len(), |k: int| self.tall(self.row(0)[k]))
    }

    spec fn live(&self, x: usize) -> bool {
        x < self.nodes@.len() && self.nodes@[x as int] is Some
    }

    spec fn node(&self, x: usize) -> Node<T> {
        self.nodes@[x as int]->0
    }

    spec fn val(&self, x: usize) -> T {
        self.node(x).item()
    }

    spec fn link(&self, x: usize, l: int) -> Option<usize> {
        self.node(x).links()[l]
    }

    spec fn tall(&self, x: usize) -> int {
        self.node(x).links().len() as int
    }

    /// The handles of the nodes of level `l`, in the order of their links.
    spec fn row(&self, l: int) -> Seq<usize> {
        self.levels@[l]
    }

    /// The node at place `k` of level `l`, if the level is that long.
    spec fn at(&self, l: int, k: int) -> Option<usize> {
        if 0 <= k < self.row(l).len() {
            Some(self.row(l)[k])
        } else {
            None
        }
    }

    /// The node at place `k` of level `l` is in the arena, reaches up to that
    /// level, and leads to the node at the next place.
    spec fn linked(&self, l: int, k: int) -> bool {
        let x = self.row(l)[k];
        &&& self.live(x)
        &&& l < self.tall(x)
        &&& self.link(x, l) == self.at(l, k + 1)
    }

    /// The links of level `l` spell out its row.
    spec fn chain(&self, l: int) -> bool {
        &&& self.heads@[l] == self.at(l, 0)
        &&& forall|k: int| 0 <= k < self.row(l).len() ==> #[trigger] self.linked(l, k)
        &&& self.row(l).no_duplicates()
    }

    /// The value at place `i` of level `l` is less than `t`.
    spec fn below(&self, l: int, i: int, t: T) -> bool {
        (self.order())(self.val(self.row(l)[i]), t) < 0
    }

    /// Level `l` is strictly increasing.
    spec fn ascending(&self, l: int) -> bool {
        forall|i: int, j: int|
            0 <= i < j < self.row(l).len() ==> #[trigger] self.below(
                l,
                i,
                self.val(self.row(l)[j]),
            )
    }

    /// Node `x` stands in level `l`.
    spec fn on(&self, l: int, x: usize) -> bool {
        self.row(l).contains(x)
    }

    /// Node `x` stands in the levels from `from` up to its own height, and in
    /// no other.
    spec fn placed(&self, x: usize, from: int) -> bool {
        &&& 1 <= self.tall(x) <= self.max_level
        &&& forall|l: int|
            0 <= l < self.max_level ==> (#[trigger] self.on(l, x) <==> from <= l < self.tall(x))
    }

    /// The free list names the empty slots of the arena, each once.
    spec fn slots(&self) -> bool {
        &&& self.free@.no_duplicates()
        &&& forall|i: int| 0 <= i < self.free@.len() ==> #[trigger] self.free@[i] < self.nodes@.len()
        &&& forall|x: usize|
            x < self.nodes@.len() ==> (#[trigger] self.free@.contains(x) <==> self.nodes@[x as int] is None)
    }

    /// What holds of the links at every moment, also in the middle of an
    /// insertion or a deletion.
    spec fn shape(&self) -> bool {
        &&& follows(self.comp, self.ord@)
        &&& strict_total(self.ord@)
        &&& 1 <= self.max_level
        &&& self.heads@.len() == self.max_level
        &&& self.levels@.len() == self.max_level
        &&& self.slots()
        &&& forall|l: int| 0 <= l < self.max_level ==> #[trigger] self.chain(l)
        &&& forall|l: int| 0 <= l < self.max_level ==> #[trigger] self.ascending(l)
    }

    /// The levels in use are the lowest `height` ones.
    spec fn topped(&self) -> bool {
        &&& self.height <= self.max_level
        &&& forall|l: int|
            0 <= l < self.max_level ==> (l < self.height <==> (#[trigger] self.row(l)).len() > 0)
    }

    /// The invariant of the list.
    pub closed spec fn wf(&self) -> bool {
        &&& self.shape()
        &&& self.topped()
        &&& self.size == self.row(0).len()
        &&& forall|x: usize| #[trigger] self.live(x) ==> self.placed(x, 0)
    }

    /// Asks the comparator.
    fn compare(&self, a: &T, b: &T) -> (r: i32)
        requires
            follows(self.comp, self.order()),
        ensures
            sign(r) == (self.order())(*a, *b),
    {
        (self.comp)(a, b)
    }

    /// The value of a node of the arena.
    fn value_at(&self, x: usize) -> (v: &T)
        requires
            self.live(x),
        ensures
            *v == self.val(x),
    {
        self.nodes[x].as_ref().unwrap().value()
    }

    /// The successor at level `l` of the node before place `k`, or the entry
    /// point of the level where `k` is 0.
    fn next_of(&self, l: usize, pred: Option<usize>, Ghost(k): Ghost<int>) -> (next: Option<usize>)
        requires
            l < self.heads@.len(),
            self.chain(l as int),
            0 <= k <= self.row(l as int).len(),
            pred == self.at(l as int, k - 1),
        ensures
            next == self.at(l as int, k),
    {
        match pred {
            None => self.heads[l],
            Some(p) => {
                assert(self.linked(l as int, k - 1));
                self.nodes[p].as_ref().unwrap().next(l)
            },
        }
    }

    /// Everything but the links, the entry points and the rows is the same
    /// in `self` and in `b`.
    spec fn akin(&self, b: &Self) -> bool {
        &&& b.comp == self.comp
        &&& b.ord@ == self.ord@
        &&& b.max_level == self.max_level
        &&& b.size == self.size
        &&& b.height == self.height
        &&& b.free@ == self.free@
        &&& b.heads@.len() == self.heads@.len()
        &&& b.levels@.len() == self.levels@.len()
        &&& b.nodes@.len() == self.nodes@.len()
        &&& forall|y: usize| #[trigger] self.live(y) <==> b.live(y)
        &&& forall|y: usize|
            #[trigger] self.live(y) ==> b.val(y) == self.val(y) && b.tall(y) == self.tall(y)
    }

    /// Being akin carries over.
    proof fn lemma_akin_chain(a: &Self, b: &Self, c: &Self)
        requires
            a.akin(b),
            b.akin(c),
        ensures
            a.akin(c),
    {
        assert forall|y: usize| #[trigger] a.live(y) <==> c.live(y) by {
            assert(a.live(y) <==> b.live(y));
            assert(b.live(y) <==> c.live(y));
        }
        assert forall|y: usize| #[trigger] a.live(y) implies c.val(y) == a.val(y) && c.tall(y)
            == a.tall(y) by {
            assert(b.live(y));
        }
    }

    /// Two lists with the same arena and the same entry points are akin and
    /// have the same links.
    proof fn lemma_same_arena(a: &Self, b: &Self)
        requires
            b.comp == a.comp,
            b.ord@ == a.ord@,
            b.max_level == a.max_level,
            b.size == a.size,
            b.height == a.height,
            b.free@ == a.free@,
            b.heads@ == a.heads@,
            b.nodes@ == a.nodes@,
            b.levels@.len() == a.levels@.len(),
        ensures
            a.akin(b),
            forall|y: usize, j: int| #[trigger] b.link(y, j) == a.link(y, j),
    {
        assert forall|y: usize| #[trigger] a.live(y) <==> b.live(y) by {}
        assert forall|y: usize| #[trigger] a.live(y) implies b.val(y) == a.val(y) && b.tall(y)
            == a.tall(y) by {}
        assert forall|y: usize, j: int| #[trigger] b.link(y, j) == a.link(y, j) by {}
    }

    /// What is said of the links alone holds of two lists with the same
    /// arena, entry points and rows.
    proof fn lemma_same_links(a: &Self, b: &Self)
        requires
            b.comp == a.comp,
            b.ord@ == a.ord@,
            b.max_level == a.max_level,
            b.free@ == a.free@,
            b.heads@ == a.heads@,
            b.nodes@ == a.nodes@,
            b.levels@ == a.levels@,
        ensures
            a.shape() ==> b.shape(),
            b@ == a@,
            b.towers() == a.towers(),
            forall|y: usize| #[trigger] b.live(y) <==> a.live(y),
            forall|y: usize, from: int| a.placed(y, from) ==> #[trigger] b.placed(y, from),
            forall|j: int| #[trigger] b.row(j) == a.row(j),
    {
        assert(b.order() == a.order());
        assert forall|y: usize| #[trigger] b.live(y) <==> a.live(y) by {}
        assert forall|y: usize, from: int| a.placed(y, from) implies #[trigger] b.placed(y, from) by {
            assert forall|l: int| 0 <= l < b.max_level implies (#[trigger] b.on(l, y) <==> from <= l
                < b.tall(y)) by {
                assert(a.on(l, y) <==> from <= l < a.tall(y));
            }
        }
        assert(b@ =~= a@);
        assert(b.towers() =~= a.towers());
        if a.shape() {
            assert forall|l: int| 0 <= l < b.max_level implies #[trigger] b.chain(l) by {
                assert(a.chain(l));
                assert forall|k: int| 0 <= k < b.row(l).len() implies #[trigger] b.linked(l, k) by {
                    assert(a.linked(l, k));
                }
            }
            assert forall|l: int| 0 <= l < b.max_level implies #[trigger] b.ascending(l) by {
                assert(a.ascending(l));
                assert forall|i: int, j: int| 0 <= i < j < b.row(l).len() implies #[trigger] b.below(
                    l,
                    i,
                    b.val(b.row(l)[j]),
                ) by {
                    assert(a.below(l, i, a.val(a.row(l)[j])));
                }
            }
            assert(b.slots());
        }
    }

    /// Sets the successor at level `l` of the node `pred`, or the entry
    /// point of the level where `pred` is `None`.
    fn set_next(&mut self, l: usize, pred: Option<usize>, next: Option<usize>)
        requires
            l < old(self).heads@.len(),
            pred is Some ==> old(self).live(pred->0) && l < old(self).tall(pred->0),
        ensures
            old(self).akin(final(self)),
            final(self).levels@ == old(self).levels@,
            forall|j: int|
                0 <= j < old(self).heads@.len() && !(pred is None && j == l) ==> final(self).heads@[j]
                    == old(self).heads@[j],
            pred is None ==> final(self).heads@[l as int] == next,
            forall|y: usize, j: int|
                old(self).live(y) && 0 <= j < old(self).tall(y) && !(pred == Some(y) && j == l)
                    ==> #[trigger] final(self).link(y, j) == old(self).link(y, j),
            pred is Some ==> final(self).link(pred->0, l as int) == next,
    {
        match pred {
            None => {
                self.heads[l] = next;
            },
            Some(p) => {
                match &mut self.nodes[p] {
                    Some(node) => {
                        node.relink(l, next);
                    },
                    None => {},
                }
                assert(self.nodes@.len() == old(self).nodes@.len());
                assert(forall|y: int|
                    0 <= y < self.nodes@.len() && y != p ==> self.nodes@[y] == old(self).nodes@[y]);
                assert(self.nodes@[p as int] is Some);
            },
        }
    }

    /// Puts `node` into an empty slot of the arena, or into a new one.
    fn store(&mut self, node: Node<T>) -> (x: usize)
        requires
            old(self).slots(),
        ensures
            final(self).slots(),
            final(self).comp == old(self).comp,
            final(self).ord@ == old(self).ord@,
            final(self).max_level == old(self).max_level,
            final(self).size == old(self).size,
            final(self).height == old(self).height,
            final(self).heads@ == old(self).heads@,
            final(self).levels@ == old(self).levels@,
            final(self).nodes@.len() >= old(self).nodes@.len(),
            !old(self).live(x),
            final(self).live(x),
            final(self).node(x) == node,
            forall|y: usize| y != x ==> (#[trigger] final(self).live(y) <==> old(self).live(y)),
            forall|y: usize| y != x && old(self).live(y) ==> #[trigger] final(self).node(y) == old(self).node(y),
    {
        match self.free.pop() {
            Some(x) => {
                proof {
                    let before = old(self).free@;
                    assert(before[before.len() - 1] == x);
                    assert(before.contains(x));
                    assert forall|y: usize| y < self.nodes@.len() && y != x implies (
                    #[trigger] self.free@.contains(y) <==> before.contains(y)) by {
                        if before.contains(y) {
                            let i = choose|i: int| 0 <= i < before.len() && before[i] == y;
                            assert(self.free@[i] == y);
                        }
                    }
                    assert(!self.free@.contains(x)) by {
                        if self.free@.contains(x) {
                            let i = choose|i: int| 0 <= i < self.free@.len() && self.free@[i] == x;
                            assert(before[i] == x);
                        }
                    }
                }
                self.nodes[x] = Some(node);
                x
            },
            None => {
                proof {
                    assert(old(self).free@.len() == 0);
                    assert forall|y: usize| y < self.nodes@.len() implies !#[trigger] self.free@.contains(y) by {}
                }
                self.nodes.push(Some(node));
                self.nodes.len() - 1
            },
        }
    }

    /// An empty list that keeps its values in the order of `comp` and uses
    /// at most [`DEFAULT_MAX_LEVEL`] levels.
    pub fn new(comp: F) -> (list: Self)
        requires
            consistent(comp),
        ensures
            list.wf(),
            list.comparator() == comp,
            list.order() == order_of(comp),
            list.cap() == DEFAULT_MAX_LEVEL,
            list.top() == 0,
            list@ == Seq::<T>::empty(),
            list.towers() == Seq::<int>::empty(),
    {
        Self::with_max_level(comp, DEFAULT_MAX_LEVEL)
    }

    /// An empty list that uses at most `max_level` levels, and at most one
    /// where `max_level` is 0.
    pub fn with_max_level(comp: F, max_level: u32) -> (list: Self)
        requires
            consistent(comp),
        ensures
            list.wf(),
            list.comparator() == comp,
            list.order() == order_of(comp),
            list.cap() == if max_level == 0 { 1 } else { max_level as int },
            list.top() == 0,
            list@ == Seq::<T>::empty(),
            list.towers() == Seq::<int>::empty(),
    {
        Self::with_order(comp, max_level, Ghost(order_of(comp)))
    }

    /// An empty list as [`SkipList::with_max_level`] makes it, for a caller
    /// that knows an order which the comparator decides by: the list is
    /// then sorted by that very order.
    pub fn with_order(comp: F, max_level: u32, Ghost(ord): Ghost<spec_fn(T, T) -> int>) -> (list: Self)
        requires
            follows(comp, ord),
            strict_total(ord),
        ensures
            list.wf(),
            list.comparator() == comp,
            list.order() == ord,
            list.cap() == if max_level == 0 { 1 } else { max_level as int },
            list.top() == 0,
            list@ == Seq::<T>::empty(),
            list.towers() == Seq::<int>::empty(),
    {
        let cap: u32 = if max_level == 0 { 1 } else { max_level };
        let mut heads: Vec<Option<usize>> = Vec::new();
        while heads.len() < cap as usize
            invariant
                heads@.len() <= cap,
                forall|l: int| 0 <= l < heads@.len() ==> heads@[l] is None,
            decreases cap - heads@.len(),
        {
            heads.push(None);
        }
        let list = SkipList {
            nodes: Vec::new(),
            free: Vec::new(),
            heads,
            size: 0,
            height: 0,
            max_level: cap,
            comp,
            levels: Ghost(Seq::new(cap as nat, |l: int| Seq::<usize>::empty())),
            ord: Ghost(ord),
        };
        proof {
            assert forall|l: int| 0 <= l < cap implies #[trigger] list.chain(l) by {}
            assert forall|l: int| 0 <= l < cap implies #[trigger] list.ascending(l) by {}
            assert(list@ =~= Seq::<T>::empty());
            assert(list.towers() =~= Seq::<int>::empty());
        }
        list
    }

    /// The number of values in the list.
    pub fn size(&self) -> (count: u32)
        requires
            self.wf(),
        ensures
            count == self@.len(),
    {
        self.size
    }

    /// The number of levels in use: the number of levels of the tallest
    /// node, and 0 where the list is empty.
    pub fn height(&self) -> (count: u32)
        requires
            self.wf(),
        ensures
            count == self.top(),
            count == peak(self.towers()),
            count <= self.cap(),
            count == 0 <==> self@.len() == 0,
    {
        proof {
            self.lemma_height();
        }
        self.height
    }

    /// The largest number of levels that the list may use.
    pub fn max_level(&self) -> (count: u32)
        requires
            self.wf(),
        ensures
            count == self.cap(),
            count >= 1,
    {
        self.max_level
    }
}

} // verus!
