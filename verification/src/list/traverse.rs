//! Forward traversal of one level, one value at a time.

use super::SkipList;
use crate::order::increasing;
use vstd::prelude::*;

verus! {

/// A walk along one level of a list. It hands out the values of the level
/// in the order of their links, each when it is asked for; a new walk
/// starts at the entry point again.
#[verifier::reject_recursive_types(T)]
pub struct Traversal<'a, T, F> where F: Fn(&T, &T) -> i32 {
    list: &'a SkipList<T, F>,
    level: usize,
    cursor: Option<usize>,
    place: Ghost<int>,
}

impl<'a, T, F> Traversal<'a, T, F> where F: Fn(&T, &T) -> i32 {
    /// The invariant of the walk.
    pub closed spec fn wf(&self) -> bool {
        &&& self.list.wf()
        &&& self.level < self.list.max_level
        &&& 0 <= self.place@ <= self.list.row(self.level as int).len()
        &&& self.cursor == self.list.at(self.level as int, self.place@)
    }

    /// The values that the walk has yet to hand out.
    pub closed spec fn remaining(&self) -> Seq<T> {
        self.list.level(self.level as int).skip(self.place@)
    }

    /// The next value of the level, or `None` at its end.
    pub fn next(&mut self) -> (item: Option<&'a T>)
        requires
            old(self).wf(),
        ensures
            final(self).wf(),
            match item {
                Some(value) => {
                    &&& old(self).remaining().len() > 0
                    &&& *value == old(self).remaining()[0]
                    &&& final(self).remaining() == old(self).remaining().skip(1)
                },
                None => {
                    &&& old(self).remaining().len() == 0
                    &&& final(self).remaining() == old(self).remaining()
                },
            },
    {
        let list = self.list;
        match self.cursor {
            None => None,
            Some(x) => {
                let ghost k = self.place@;
                assert(list.chain(self.level as int));
                assert(list.linked(self.level as int, k));
                let value = list.value_at(x);
                let next = list.next_of(self.level, self.cursor, Ghost(k + 1));
                self.cursor = next;
                self.place = Ghost(k + 1);
                assert(self.remaining() =~= old(self).remaining().skip(1));
                Some(value)
            },
        }
    }
}

impl<T, F> SkipList<T, F> where F: Fn(&T, &T) -> i32 {
    /// A walk over all the values, in sorted order.
    pub fn traverse(&self) -> (walk: Traversal<'_, T, F>)
        requires
            self.wf(),
        ensures
            walk.wf(),
            walk.remaining() == self@,
            increasing(self.order(), walk.remaining()),
    {
        let walk = Traversal { list: self, level: 0, cursor: self.heads[0], place: Ghost(0) };
        proof {
            assert(self.chain(0));
            assert(walk.remaining() =~= self@);
            self.lemma_sorted();
        }
        walk
    }

    /// A walk over the values of level `level`, in sorted order. A level
    /// that the list cannot have holds nothing.
    pub fn traverse_level(&self, level: u32) -> (walk: Traversal<'_, T, F>)
        requires
            self.wf(),
        ensures
            walk.wf(),
            walk.remaining() == if level < self.cap() {
                self.level(level as int)
            } else {
                Seq::<T>::empty()
            },
    {
        if level < self.max_level {
            let walk = Traversal {
                list: self,
                level: level as usize,
                cursor: self.heads[level as usize],
                place: Ghost(0),
            };
            proof {
                assert(self.chain(level as int));
                assert(walk.remaining() =~= self.level(level as int));
            }
            walk
        } else {
            let walk = Traversal {
                list: self,
                level: 0,
                cursor: None,
                place: Ghost(self.row(0).len() as int),
            };
            proof {
                assert(walk.remaining() =~= Seq::<T>::empty());
            }
            walk
        }
    }
}

} // verus!
