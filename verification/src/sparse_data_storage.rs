//! A sparse set of small integers that stores a value with each element: `dense` lists the
//! elements, `data` their values at the same positions, and `sparse` maps an element to its
//! position.
use vstd::prelude::*;

verus! {

/// A map from integers smaller than its capacity to values, stored densely.
#[derive(Debug)]
pub struct SparseDataSet<T> {
    sparse: Vec<usize>,
    dense: Vec<usize>,
    data: Vec<T>,
}

impl<T> SparseDataSet<T> {
    /// The list of elements.
    pub closed spec fn dense_view(&self) -> Seq<usize> {
        self.dense@
    }

    /// The values, at the positions of their elements.
    pub closed spec fn data_view(&self) -> Seq<T> {
        self.data@
    }

    /// The index from an element to its position.
    pub closed spec fn sparse_view(&self) -> Seq<usize> {
        self.sparse@
    }

    /// Every element has a value.
    pub open spec fn wf(&self) -> bool {
        self.dense_view().len() == self.data_view().len()
    }

    /// The position that `element`'s slot points to, if it is a position of the list.
    pub open spec fn index_of(&self, element: usize) -> Option<usize> {
        if self.sparse_view()[element as int] < self.dense_view().len() {
            Some(self.sparse_view()[element as int])
        } else {
            None
        }
    }

    /// Whether `element` is stored: its slot points at a position that holds it.
    pub open spec fn has(&self, element: usize) -> bool {
        match self.index_of(element) {
            Some(i) => self.dense_view()[i as int] == element,
            None => false,
        }
    }

    /// An empty set for elements below `capacity`.
    pub fn new(capacity: usize) -> (r: Self)
        ensures
            r.wf(),
            r.dense_view() == Seq::<usize>::empty(),
            r.data_view() == Seq::<T>::empty(),
            r.sparse_view() == Seq::new(capacity as nat, |i: int| 0usize),
    {
        let mut sparse: Vec<usize> = Vec::new();
        let mut i: usize = 0;
        while i < capacity
            invariant
                i <= capacity,
                sparse@ == Seq::new(i as nat, |j: int| 0usize),
            decreases capacity - i,
        {
            sparse.push(0);
            i = i + 1;
        }
        Self { sparse, dense: Vec::new(), data: Vec::new() }
    }

    /// The list of elements.
    pub fn dense(&self) -> (r: &Vec<usize>)
        ensures
            r@ == self.dense_view(),
    {
        &self.dense
    }

    /// The values, at the positions of their elements.
    pub fn data(&self) -> (r: &Vec<T>)
        ensures
            r@ == self.data_view(),
    {
        &self.data
    }

    /// Stores `data` for `element`: a stored element gets the new value in place; a new one
    /// goes at the end of the list, and its slot is set to that position.
    pub fn insert(&mut self, element: usize, data: T)
        requires
            old(self).wf(),
            element < old(self).sparse_view().len(),
        ensures
            final(self).wf(),
            final(self).has(element),
            old(self).has(element) ==> {
                &&& final(self).dense_view() == old(self).dense_view()
                &&& final(self).sparse_view() == old(self).sparse_view()
                &&& final(self).data_view() == old(self).data_view().update(
                    old(self).sparse_view()[element as int] as int,
                    data,
                )
            },
            !old(self).has(element) ==> {
                &&& final(self).dense_view() == old(self).dense_view().push(element)
                &&& final(self).data_view() == old(self).data_view().push(data)
                &&& final(self).sparse_view()[element as int] == old(self).dense_view().len()
                &&& final(self).sparse_view() == old(self).sparse_view().update(
                    element as int,
                    final(self).sparse_view()[element as int],
                )
            },
    {
        if self.contains(element) {
            let index = self.sparse[element];
            self.data.set(index, data);
        } else {
            let index = self.dense.len();
            self.dense.push(element);
            self.data.push(data);
            self.sparse.set(element, index);
        }
    }

    /// Removes `element` if it is stored: the last element and its value take its place, and
    /// a zero is inserted into the index at that position.
    pub fn remove(&mut self, element: usize)
        requires
            old(self).wf(),
            element < old(self).sparse_view().len(),
            old(self).has(element) ==> old(self).sparse_view()[element as int] <= old(
                self,
            ).sparse_view().len(),
        ensures
            final(self).wf(),
            !old(self).has(element) ==> *final(self) == *old(self),
            old(self).has(element) ==> ({
                let index = old(self).sparse_view()[element as int] as int;
                &&& final(self).dense_view() == old(self).dense_view().update(
                    index,
                    old(self).dense_view().last(),
                ).drop_last()
                &&& final(self).data_view() == old(self).data_view().update(
                    index,
                    old(self).data_view().last(),
                ).drop_last()
                &&& final(self).sparse_view() == old(self).sparse_view().insert(index, 0usize)
            }),
    {
        if self.contains(element) {
            let index = self.sparse[element];
            self.dense.swap_remove(index);
            self.data.swap_remove(index);
            self.sparse.insert(index, 0);
        }
    }

    /// The position that `element`'s slot points to, if it is a position of the list.
    pub fn get_index(&self, element: usize) -> (r: Option<usize>)
        requires
            element < self.sparse_view().len(),
        ensures
            r == self.index_of(element),
    {
        let index = self.sparse[element];
        if index >= self.dense.len() {
            return None;
        }
        Some(index)
    }

    /// Whether `element` is stored.
    pub fn contains(&self, element: usize) -> (r: bool)
        requires
            element < self.sparse_view().len(),
        ensures
            r == self.has(element),
    {
        match self.get_index(element) {
            Some(index) => self.dense[index] == element,
            None => false,
        }
    }

    /// The value at the position that `element`'s slot points to, if there is one.
    pub fn get(&self, element: usize) -> (r: Option<&T>)
        requires
            self.wf(),
            element < self.sparse_view().len(),
        ensures
            r == (match self.index_of(element) {
                Some(i) => Some(&self.data_view()[i as int]),
                None => None,
            }),
    {
        match self.get_index(element) {
            Some(index) => Some(&self.data[index]),
            None => None,
        }
    }

    /// A mutable borrow of the value at the position that `element`'s slot points to, if
    /// there is one; what is written through it becomes that value.
    pub fn get_mut(&mut self, element: usize) -> (r: Option<&mut T>)
        requires
            old(self).wf(),
            element < old(self).sparse_view().len(),
        ensures
            match old(self).index_of(element) {
                Some(i) => r is Some && *r->0 == old(self).data_view()[i as int]
                    && final(self).data_view() == old(self).data_view().update(i as int, *final(r->0))
                    && final(self).dense_view() == old(self).dense_view()
                    && final(self).sparse_view() == old(self).sparse_view(),
                None => r is None && *final(self) == *old(self),
            },
    {
        match self.get_index(element) {
            Some(index) => Some(&mut self.data[index]),
            None => None,
        }
    }
}

} // verus!
