//! A sparse set of small integers: `dense` lists the elements, and `sparse` maps an element to
//! its position in `dense`.
use vstd::prelude::*;

verus! {

/// A set of integers smaller than its capacity, stored as a dense list and a sparse index.
#[derive(Debug)]
pub struct SparseSet {
    dense: Vec<usize>,
    sparse: Vec<usize>,
}

/// Whether `element` is in the set given by `dense` and `sparse`: its slot in `sparse` points
/// at a position of `dense` that holds it.
pub open spec fn set_contains(dense: Seq<usize>, sparse: Seq<usize>, element: usize) -> bool {
    element < sparse.len() && sparse[element as int] < dense.len()
        && dense[sparse[element as int] as int] == element
}

impl SparseSet {
    /// The list of elements.
    pub closed spec fn dense_view(&self) -> Seq<usize> {
        self.dense@
    }

    /// The index from an element to its position in the list.
    pub closed spec fn sparse_view(&self) -> Seq<usize> {
        self.sparse@
    }

    /// Whether `element` is in the set.
    pub open spec fn has(&self, element: usize) -> bool {
        set_contains(self.dense_view(), self.sparse_view(), element)
    }

    /// An empty set for elements below `capacity`.
    pub fn new(capacity: usize) -> (r: Self)
        ensures
            r.dense_view() == Seq::<usize>::empty(),
            r.sparse_view() == Seq::new(capacity as nat, |i: int| 0usize),
    {
        let mut sparse: Vec<usize> = Vec::new();
        let mut i: usize = 0;
        while i < capacity
            invariant
                i <= capacity,
                sparse@ == Seq::new(i as nat, |j: int| 0usize),
            decreases capacity - i,
        {
            sparse.push(0);
            i = i + 1;
        }
        SparseSet { sparse, dense: Vec::new() }
    }

    /// The list of elements.
    pub fn dense(&self) -> (r: &Vec<usize>)
        ensures
            r@ == self.dense_view(),
    {
        &self.dense
    }

    /// The index from elements to positions in the list.
    pub fn sparse(&self) -> (r: &Vec<usize>)
        ensures
            r@ == self.sparse_view(),
    {
        &self.sparse
    }

    /// Adds `element`, unless it is in the set already: it goes at the end of the list, and
    /// its position is inserted into the index at the element's slot.
    pub fn insert(&mut self, element: usize)
        requires
            element < old(self).sparse_view().len(),
        ensures
            old(self).has(element) ==> final(self).dense_view() == old(self).dense_view()
                && final(self).sparse_view() == old(self).sparse_view(),
            !old(self).has(element) ==> final(self).dense_view() == old(
                self,
            ).dense_view().push(element) && final(self).sparse_view() == old(
                self,
            ).sparse_view().insert(element as int, old(self).dense_view().len() as usize),
            final(self).has(element),
    {
        if self.contains(element) {
            return;
        }
        let index = self.dense.len();
        self.dense.push(element);
        self.sparse.insert(element, index);
        assert(self.sparse@[element as int] == index);
    }

    /// Removes the element at the position that `element`'s slot points to: the last element
    /// of the list takes its place, and a zero is inserted into the index at that position.
    pub fn remove(&mut self, element: usize)
        requires
            element < old(self).sparse_view().len(),
            old(self).sparse_view()[element as int] < old(self).dense_view().len(),
            old(self).sparse_view()[element as int] <= old(self).sparse_view().len(),
        ensures
            ({
                let index = old(self).sparse_view()[element as int] as int;
                &&& final(self).dense_view() == old(self).dense_view().update(
                    index,
                    old(self).dense_view().last(),
                ).drop_last()
                &&& final(self).sparse_view() == old(self).sparse_view().insert(index, 0usize)
            }),
    {
        let index = self.sparse[element];
        self.dense.swap_remove(index);
        self.sparse.insert(index, 0);
    }

    /// Whether `element` is in the set. An element beyond the index is not.
    pub fn contains(&self, element: usize) -> (r: bool)
        ensures
            r == self.has(element),
    {
        if element >= self.sparse.len() {
            return false;
        }
        let index = self.sparse[element];
        if index >= self.dense.len() {
            return false;
        }
        self.dense[index] == element
    }
}

} // verus!
