//! A column of a table: one optional value per row, all of one component type.
use std::any::TypeId;
use vstd::prelude::*;

verus! {

/// A column of cells that each may hold a value of the column's component type.
pub trait Column: Sized {
    /// The type of the values in the cells.
    type Value;

    /// The component type that the column stores.
    spec fn column_type(&self) -> TypeId;

    /// The cells, row by row.
    spec fn cells(&self) -> Seq<Option<Self::Value>>;

    /// An empty column of the same component type. The capacity is only a hint.
    fn empty_copy(&self, capacity: usize) -> (r: Self)
        ensures
            r.column_type() == self.column_type(),
            r.cells() == Seq::<Option<Self::Value>>::empty(),
    ;

    /// Removes the cell at `index`; the last cell takes its place.
    fn swap_remove(&mut self, index: usize)
        requires
            index < old(self).cells().len(),
        ensures
            final(self).column_type() == old(self).column_type(),
            final(self).cells() == old(self).cells().update(
                index as int,
                old(self).cells().last(),
            ).drop_last(),
    ;

    /// Adds an empty cell at the end.
    fn add_empty_cell(&mut self)
        ensures
            final(self).column_type() == old(self).column_type(),
            final(self).cells() == old(self).cells().push(None),
    ;

    /// The component type that the column stores.
    fn stored_type_id(&self) -> (r: TypeId)
        ensures
            r == self.column_type(),
    ;
}

/// A column with its component type and its cells.
#[derive(Debug)]
pub struct TypedColumn<C> {
    pub component_type: TypeId,
    pub cells: Vec<Option<C>>,
}

impl<C> Column for TypedColumn<C> {
    type Value = C;

    open spec fn column_type(&self) -> TypeId {
        self.component_type
    }

    open spec fn cells(&self) -> Seq<Option<C>> {
        self.cells@
    }

    fn empty_copy(&self, capacity: usize) -> (r: Self) {
        TypedColumn { component_type: self.component_type, cells: Vec::new() }
    }

    fn swap_remove(&mut self, index: usize) {
        self.cells.swap_remove(index);
    }

    fn add_empty_cell(&mut self) {
        self.cells.push(None);
    }

    fn stored_type_id(&self) -> (r: TypeId) {
        self.component_type
    }
}

/// A column of component type `component_type` with `capacity` empty cells.
pub fn new_empty_column<C>(component_type: TypeId, capacity: usize) -> (r: TypedColumn<C>)
    ensures
        r.component_type == component_type,
        r.cells@ == Seq::new(capacity as nat, |i: int| None::<C>),
{
    let mut cells: Vec<Option<C>> = Vec::new();
    let mut i: usize = 0;
    while i < capacity
        invariant
            i <= capacity,
            cells@ == Seq::new(i as nat, |j: int| None::<C>),
        decreases capacity - i,
    {
        cells.push(None);
        i = i + 1;
    }
    TypedColumn { component_type, cells }
}

} // verus!
