//! Archetypes linked into a graph: an archetype made by adding a component type to another
//! remembers that one as the archetype reached by removing the type, and the other way round.
use crate::type_key::index_of_type;
use crate::Entity;
use std::any::TypeId;
use vstd::prelude::*;

verus! {

/// An archetype: the component types of its columns, its entities, and its neighbours in the
/// graph.
#[derive(Debug)]
pub struct Archetype<'a> {
    pub a_id: usize,
    pub entities: Vec<Entity>,
    pub columns: Vec<TypeId>,
    pub add_edge: Vec<&'a Archetype<'a>>,
    pub remove_edge: Vec<&'a Archetype<'a>>,
}

/// The component types of the columns of an archetype under construction.
#[derive(Debug)]
pub struct ColumnsBuilder(pub Vec<TypeId>);

/// A copy of a list of component types.
fn copy_columns(columns: &Vec<TypeId>) -> (r: Vec<TypeId>)
    ensures
        r@ == columns@,
{
    let mut r: Vec<TypeId> = Vec::new();
    let mut i: usize = 0;
    while i < columns.len()
        invariant
            i <= columns.len(),
            r@ == columns@.take(i as int),
        decreases columns.len() - i,
    {
        r.push(columns[i]);
        assert(columns@.take(i + 1) == columns@.take(i as int).push(columns@[i as int]));
        i = i + 1;
    }
    assert(columns@.take(columns.len() as int) == columns@);
    r
}

impl<'a> Archetype<'a> {
    /// The archetype with the columns of `from_archetype` and one more of type
    /// `component_type`, which `from_archetype` must not have; removing that type leads back
    /// to `from_archetype`.
    pub fn new_from_add(from_archetype: &'a Archetype<'a>, component_type: TypeId) -> (r: Archetype<
        'a,
    >)
        requires
            !from_archetype.columns@.contains(component_type),
        ensures
            r.columns@ == from_archetype.columns@.push(component_type),
            r.a_id == r.columns@.len(),
            r.entities@ == Seq::<Entity>::empty(),
            r.add_edge@ == Seq::<&'a Archetype<'a>>::empty(),
            r.remove_edge@ == seq![from_archetype],
    {
        let mut columns = copy_columns(&from_archetype.columns);
        columns.push(component_type);
        let mut remove_edge: Vec<&'a Archetype<'a>> = Vec::new();
        remove_edge.push(from_archetype);
        Archetype {
            a_id: columns.len(),
            entities: Vec::new(),
            columns,
            add_edge: Vec::new(),
            remove_edge,
        }
    }

    /// The archetype with the columns of `from_archetype` but its first column of type
    /// `component_type`, which `from_archetype` must have; adding that type leads back to
    /// `from_archetype`.
    pub fn new_from_remove(from_archetype: &'a Archetype<'a>, component_type: TypeId) -> (r:
        Archetype<'a>)
        requires
            from_archetype.columns@.contains(component_type),
        ensures
            exists|i: int|
                0 <= i < from_archetype.columns@.len() && from_archetype.columns@[i]
                    == component_type && !from_archetype.columns@.take(i).contains(component_type)
                    && r.columns@ == from_archetype.columns@.remove(i),
            r.a_id == r.columns@.len(),
            r.entities@ == Seq::<Entity>::empty(),
            r.add_edge@ == seq![from_archetype],
            r.remove_edge@ == Seq::<&'a Archetype<'a>>::empty(),
    {
        let mut columns = copy_columns(&from_archetype.columns);
        let index = match index_of_type(&columns, &component_type) {
            Some(index) => index,
            None => {
                proof {
                    assert(false);
                }
                0
            },
        };
        proof {
            assert(!columns@.take(index as int).contains(component_type)) by {
                if columns@.take(index as int).contains(component_type) {
                    let j = choose|j: int| 0 <= j < index && columns@.take(index as int)[j] == component_type;
                    assert(columns@[j] == component_type);
                }
            }
        }
        let ghost before = columns@;
        columns.remove(index);
        let mut add_edge: Vec<&'a Archetype<'a>> = Vec::new();
        add_edge.push(from_archetype);
        Archetype {
            a_id: columns.len(),
            entities: Vec::new(),
            columns,
            add_edge,
            remove_edge: Vec::new(),
        }
    }

    /// A builder of the columns of a new archetype, without columns yet.
    pub fn builder() -> (r: ColumnsBuilder)
        ensures
            r.0@ == Seq::<TypeId>::empty(),
    {
        ColumnsBuilder(Vec::new())
    }

    /// An archetype with the built columns, no entities and no neighbours.
    pub fn new_from_columns(columns: ColumnsBuilder) -> (r: Archetype<'a>)
        ensures
            r.columns@ == columns.0@,
            r.a_id == columns.0@.len(),
            r.entities@ == Seq::<Entity>::empty(),
            r.add_edge@ == Seq::<&'a Archetype<'a>>::empty(),
            r.remove_edge@ == Seq::<&'a Archetype<'a>>::empty(),
    {
        let a_id = columns.0.len();
        Archetype {
            a_id,
            entities: Vec::new(),
            columns: columns.0,
            add_edge: Vec::new(),
            remove_edge: Vec::new(),
        }
    }
}

impl ColumnsBuilder {
    /// Adds a column of type `component_type`, which must not be among the columns yet.
    pub fn with_column_type(self, component_type: TypeId) -> (r: Self)
        requires
            !self.0@.contains(component_type),
        ensures
            r.0@ == self.0@.push(component_type),
    {
        let mut columns = self.0;
        columns.push(component_type);
        ColumnsBuilder(columns)
    }
}

/// Adding a component type to an archetype's columns and then removing that type gives back
/// the columns: the type occurs in the new columns only at the end, which is where
/// `new_from_remove` takes it from.
pub proof fn lemma_add_then_remove_columns(columns: Seq<TypeId>, component_type: TypeId, i: int)
    requires
        !columns.contains(component_type),
        0 <= i < columns.len() + 1,
        columns.push(component_type)[i] == component_type,
    ensures
        columns.push(component_type).remove(i) == columns,
{
    if i < columns.len() {
        assert(columns[i] == component_type);
    }
    assert(columns.push(component_type).remove(i) =~= columns);
}

} // verus!
