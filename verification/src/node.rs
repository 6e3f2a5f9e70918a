//! One stored value with its forward links, one link for each level that the
//! node stands in.

use vstd::prelude::*;

verus! {

/// An entry of the list. Its links are handles into the arena of the list
/// that owns it; the entry at index `i` leads to the next node of level `i`,
/// and is `None` where the node is the last of that level.
pub struct Node<T> {
    next_list: Vec<Option<usize>>,
    value: T,
}

impl<T> Node<T> {
    /// The stored value.
    pub closed spec fn item(&self) -> T {
        self.value
    }

    /// The forward links, lowest level first.
    pub closed spec fn links(&self) -> Seq<Option<usize>> {
        self.next_list@
    }

    /// A node that holds `value` and stands in no level yet.
    pub fn new(value: T) -> (node: Self)
        ensures
            node.item() == value,
            node.links() == Seq::<Option<usize>>::empty(),
    {
        Node { next_list: Vec::new(), value }
    }

    /// The number of levels that the node stands in.
    pub fn level(&self) -> (count: usize)
        ensures
            count == self.links().len(),
    {
        self.next_list.len()
    }

    /// The forward links, lowest level first.
    pub fn next_list(&self) -> (links: &Vec<Option<usize>>)
        ensures
            links@ == self.links(),
    {
        &self.next_list
    }

    /// The stored value.
    pub fn value(&self) -> (value: &T)
        ensures
            *value == self.item(),
    {
        &self.value
    }

    /// The node's successor at `level`.
    pub fn next(&self, level: usize) -> (next: Option<usize>)
        requires
            level < self.links().len(),
        ensures
            next == self.links()[level as int],
    {
        self.next_list[level]
    }

    /// Lets the node stand in one more level, with `next` as its successor
    /// there.
    pub fn raise(&mut self, next: Option<usize>)
        ensures
            final(self).item() == old(self).item(),
            final(self).links() == old(self).links().push(next),
    {
        self.next_list.push(next);
    }

    /// Replaces the node's successor at `level`.
    pub fn relink(&mut self, level: usize, next: Option<usize>)
        requires
            level < old(self).links().len(),
        ensures
            final(self).item() == old(self).item(),
            final(self).links() == old(self).links().update(level as int, next),
    {
        self.next_list[level] = next;
    }
}

} // verus!
