//! An archetype that keeps one vector of components per component type, and a single map from
//! entity id to the index at which the entity's components were stored.
use crate::type_key::same_type;
use std::any::TypeId;
use std::collections::HashMap;
use vstd::prelude::*;

verus! {

broadcast use vstd::std_specs::hash::group_hash_axioms;

/// What `slice::sort` makes of a sequence of type ids.
pub uninterp spec fn sorted_type_ids(ids: Seq<TypeId>) -> Seq<TypeId>;

/// Sorts `ids` in place with `slice::sort`. The contract claims that the result is
/// `sorted_type_ids` of the input and holds the same ids as many times each. It does not say
/// which order that is: std leaves the order of `TypeId` values unspecified.
#[verifier::external_body]
fn sort_type_ids(ids: &mut Vec<TypeId>)
    ensures
        final(ids)@ == sorted_type_ids(old(ids)@),
        final(ids)@.to_multiset() == old(ids)@.to_multiset(),
{
    ids.sort();
}

/// The components of one component type, in the order in which they were stored.
#[derive(Debug)]
pub struct ComponentVector<C> {
    pub component_type: TypeId,
    pub components: Vec<C>,
}

/// Component vectors as pairs of a component type and its components.
pub type VectorsView<C> = Seq<(TypeId, Seq<C>)>;

/// Whether some vector holds components of type `t`.
pub open spec fn has_vector<C>(vs: VectorsView<C>, t: TypeId) -> bool {
    exists|k: int| 0 <= k < vs.len() && (#[trigger] vs[k]).0 == t
}

/// The position of the vector of component type `t`.
pub open spec fn vector_of<C>(vs: VectorsView<C>, t: TypeId) -> int {
    choose|k: int| 0 <= k < vs.len() && (#[trigger] vs[k]).0 == t
}

/// No two vectors hold the same component type.
pub open spec fn vector_types_distinct<C>(vs: VectorsView<C>) -> bool {
    forall|i: int, j: int| 0 <= i < j < vs.len() ==> vs[i].0 != vs[j].0
}

/// With distinct component types, the vector of type `t` is the one at position `k`.
pub proof fn lemma_vector_of_unique<C>(vs: VectorsView<C>, t: TypeId, k: int)
    requires
        vector_types_distinct(vs),
        0 <= k < vs.len(),
        vs[k].0 == t,
    ensures
        has_vector(vs, t),
        vector_of(vs, t) == k,
{
    assert(has_vector(vs, t));
    let c = vector_of(vs, t);
    if c != k {
        if c < k {
            assert(vs[c].0 != vs[k].0);
        } else {
            assert(vs[k].0 != vs[c].0);
        }
    }
}

/// The component of type `t` that the index map leads to for `entity_id`: present when the
/// entity has an index, there is a vector of type `t`, and the index lies inside it.
pub open spec fn lookup_in<C>(
    vs: VectorsView<C>,
    index: Map<usize, usize>,
    entity_id: usize,
    t: TypeId,
) -> Option<C> {
    if index.contains_key(entity_id) && has_vector(vs, t) && index[entity_id] < vs[vector_of(
        vs,
        t,
    )].1.len() {
        Some(vs[vector_of(vs, t)].1[index[entity_id] as int])
    } else {
        None
    }
}

/// The vectors after storing `component` of type `t`: pushed onto the vector of `t`, or a new
/// vector of `t` holding only it.
pub open spec fn vectors_after_insert<C>(vs: VectorsView<C>, t: TypeId, component: C) -> VectorsView<C> {
    if has_vector(vs, t) {
        let k = vector_of(vs, t);
        vs.update(k, (t, vs[k].1.push(component)))
    } else {
        vs.push((t, seq![component]))
    }
}

/// The index map after storing a component of type `t` for `entity_id`: the entity's index
/// becomes that of the stored component.
pub open spec fn index_after_insert<C>(
    vs: VectorsView<C>,
    index: Map<usize, usize>,
    entity_id: usize,
    t: TypeId,
) -> Map<usize, usize> {
    if has_vector(vs, t) {
        index.insert(entity_id, vs[vector_of(vs, t)].1.len() as usize)
    } else {
        index.insert(entity_id, 0)
    }
}

/// After a component is stored for an entity, looking up that entity and type gives it back.
pub proof fn lemma_lookup_after_insert<C>(
    vs: VectorsView<C>,
    index: Map<usize, usize>,
    entity_id: usize,
    t: TypeId,
    component: C,
)
    requires
        vector_types_distinct(vs),
        has_vector(vs, t) ==> vs[vector_of(vs, t)].1.len() < usize::MAX,
    ensures
        vector_types_distinct(vectors_after_insert(vs, t, component)),
        lookup_in(
            vectors_after_insert(vs, t, component),
            index_after_insert(vs, index, entity_id, t),
            entity_id,
            t,
        ) == Some(component),
{
    let ws = vectors_after_insert(vs, t, component);
    if has_vector(vs, t) {
        let k = vector_of(vs, t);
        assert(ws[k].0 == t);
        lemma_vector_of_unique(ws, t, k);
    } else {
        let k = vs.len() as int;
        assert forall|i: int, j: int| 0 <= i < j < ws.len() implies ws[i].0 != ws[j].0 by {
            if j == k {
                assert(vs[i].0 != t);
            }
        }
        assert(ws[k].0 == t);
        lemma_vector_of_unique(ws, t, k);
        assert(ws[k].1 == seq![component]);
    }
}

/// An archetype with per-type component vectors and a shared entity index map.
#[derive(Debug)]
pub struct Archetype<C> {
    pub archetype_id: Vec<TypeId>,
    pub entity_to_component_index: HashMap<usize, usize>,
    pub component_id_to_component_vector: Vec<ComponentVector<C>>,
}

impl<C> Archetype<C> {
    /// The component vectors as pairs of a component type and its components.
    pub open spec fn vectors(&self) -> VectorsView<C> {
        self.component_id_to_component_vector@.map_values(
            |v: ComponentVector<C>| (v.component_type, v.components@),
        )
    }

    /// No two component vectors hold the same type.
    pub open spec fn wf(&self) -> bool {
        vector_types_distinct(self.vectors())
    }

    /// The component of type `t` stored for `entity_id`, as the index map leads to it.
    pub open spec fn lookup(&self, entity_id: usize, t: TypeId) -> Option<C> {
        lookup_in(self.vectors(), self.entity_to_component_index@, entity_id, t)
    }

    /// Whether a read of `entity_id` and `t` stays inside the vector of `t`: the index map does
    /// not record the type an index belongs to, so an index taken from a longer vector can
    /// point past the end of a shorter one.
    pub open spec fn index_in_bounds(&self, entity_id: usize, t: TypeId) -> bool {
        let vs = self.vectors();
        let index = self.entity_to_component_index@;
        index.contains_key(entity_id) && has_vector(vs, t) ==> index[entity_id] < vs[vector_of(
            vs,
            t,
        )].1.len()
    }

    /// An archetype of the given id, with no components and no entities.
    pub fn new(archetype_id: Vec<TypeId>) -> (r: Self)
        ensures
            r.wf(),
            r.archetype_id@ == archetype_id@,
            r.entity_to_component_index@ == Map::<usize, usize>::empty(),
            r.vectors() == Seq::<(TypeId, Seq<C>)>::empty(),
    {
        let r = Self {
            archetype_id,
            entity_to_component_index: HashMap::new(),
            component_id_to_component_vector: Vec::new(),
        };
        assert(r.vectors() =~= Seq::<(TypeId, Seq<C>)>::empty());
        r
    }

    /// The position of the vector of component type `t`, if there is one.
    fn vector_index(&self, t: &TypeId) -> (r: Option<usize>)
        requires
            self.wf(),
        ensures
            match r {
                Some(k) => has_vector(self.vectors(), *t) && k == vector_of(self.vectors(), *t),
                None => !has_vector(self.vectors(), *t),
            },
    {
        let mut k: usize = 0;
        while k < self.component_id_to_component_vector.len()
            invariant
                self.wf(),
                k <= self.component_id_to_component_vector.len(),
                forall|j: int| 0 <= j < k ==> self.vectors()[j].0 != *t,
            decreases self.component_id_to_component_vector.len() - k,
        {
            if same_type(&self.component_id_to_component_vector[k].component_type, t) {
                assert(self.vectors()[k as int].0 == *t);
                proof {
                    lemma_vector_of_unique(self.vectors(), *t, k as int);
                }
                return Some(k);
            }
            k = k + 1;
        }
        None
    }

    /// A mutable borrow of the vector of component type `t`, if there is one; what is written
    /// through it becomes that vector.
    pub fn get_component_vector_mut(&mut self, t: &TypeId) -> (r: Option<&mut Vec<C>>)
        requires
            old(self).wf(),
        ensures
            match r {
                Some(v) => {
                    let k = vector_of(old(self).vectors(), *t);
                    &&& has_vector(old(self).vectors(), *t)
                    &&& v@ == old(self).vectors()[k].1
                    &&& final(self).vectors() == old(self).vectors().update(k, (*t, final(v)@))
                    &&& final(self).archetype_id@ == old(self).archetype_id@
                    &&& final(self).entity_to_component_index@
                        == old(self).entity_to_component_index@
                },
                None => !has_vector(old(self).vectors(), *t) && *final(self) == *old(self),
            },
    {
        match self.vector_index(t) {
            Some(k) => {
                proof {
                    assert(old(self).vectors()[k as int].0 == *t);
                }
                Some(&mut self.component_id_to_component_vector[k].components)
            },
            None => None,
        }
    }

    /// Stores `component`, of component type `component_type`, for `entity_id`: it is pushed
    /// onto the vector of its type and the entity's index becomes its position there. A type
    /// without a vector gets a new one holding only the component, and joins the archetype id,
    /// which is then sorted.
    pub fn insert(&mut self, entity_id: usize, component_type: TypeId, component: C)
        requires
            old(self).wf(),
            has_vector(old(self).vectors(), component_type) ==> old(self).vectors()[vector_of(
                old(self).vectors(),
                component_type,
            )].1.len() < usize::MAX,
        ensures
            final(self).wf(),
            final(self).vectors() == vectors_after_insert(
                old(self).vectors(),
                component_type,
                component,
            ),
            final(self).entity_to_component_index@ == index_after_insert(
                old(self).vectors(),
                old(self).entity_to_component_index@,
                entity_id,
                component_type,
            ),
            has_vector(old(self).vectors(), component_type) ==> final(self).archetype_id@
                == old(self).archetype_id@,
            !has_vector(old(self).vectors(), component_type) ==> final(self).archetype_id@
                == sorted_type_ids(old(self).archetype_id@.push(component_type)),
            final(self).lookup(entity_id, component_type) == Some(component),
            final(self).index_in_bounds(entity_id, component_type),
    {
        proof {
            lemma_lookup_after_insert(
                old(self).vectors(),
                old(self).entity_to_component_index@,
                entity_id,
                component_type,
                component,
            );
        }
        let ghost vs0 = self.vectors();
        match self.vector_index(&component_type) {
            Some(k) => {
                let index = self.component_id_to_component_vector[k].components.len();
                self.component_id_to_component_vector[k].components.push(component);
                self.entity_to_component_index.insert(entity_id, index);
                proof {
                    assert(self.vectors() =~= vectors_after_insert(vs0, component_type, component));
                }
            },
            None => {
                let mut components: Vec<C> = Vec::new();
                components.push(component);
                self.component_id_to_component_vector.push(
                    ComponentVector { component_type, components },
                );
                self.entity_to_component_index.insert(entity_id, 0);
                self.archetype_id.push(component_type);
                sort_type_ids(&mut self.archetype_id);
                proof {
                    assert(self.vectors() =~= vectors_after_insert(vs0, component_type, component));
                }
            },
        }
    }

    /// The component of type `t` stored for `entity_id`, if the entity has an index and the
    /// type a vector.
    pub fn get_ref(&self, entity_id: usize, t: &TypeId) -> (r: Option<&C>)
        requires
            self.wf(),
            self.index_in_bounds(entity_id, *t),
        ensures
            match r {
                Some(c) => self.lookup(entity_id, *t) == Some(*c),
                None => self.lookup(entity_id, *t) is None,
            },
    {
        match self.entity_to_component_index.get(&entity_id) {
            Some(index) => match self.vector_index(t) {
                Some(k) => Some(&self.component_id_to_component_vector[k].components[*index]),
                None => None,
            },
            None => None,
        }
    }

    /// A mutable borrow of the component of type `t` stored for `entity_id`, if the entity has
    /// an index and the type a vector; what is written through it replaces that component.
    pub fn get_mut(&mut self, entity_id: usize, t: &TypeId) -> (r: Option<&mut C>)
        requires
            old(self).wf(),
            old(self).index_in_bounds(entity_id, *t),
        ensures
            match r {
                Some(c) => {
                    let k = vector_of(old(self).vectors(), *t);
                    let i = old(self).entity_to_component_index@[entity_id] as int;
                    &&& old(self).lookup(entity_id, *t) == Some(*c)
                    &&& final(self).vectors() == old(self).vectors().update(
                        k,
                        (*t, old(self).vectors()[k].1.update(i, *final(c))),
                    )
                    &&& final(self).archetype_id@ == old(self).archetype_id@
                    &&& final(self).entity_to_component_index@
                        == old(self).entity_to_component_index@
                },
                None => old(self).lookup(entity_id, *t) is None && *final(self) == *old(self),
            },
    {
        let found = self.entity_to_component_index.get(&entity_id);
        match found {
            Some(index) => {
                let index = *index;
                match self.vector_index(t) {
                    Some(k) => {
                        proof {
                            assert(old(self).vectors()[k as int].0 == *t);
                        }
                        Some(&mut self.component_id_to_component_vector[k].components[index])
                    },
                    None => None,
                }
            },
            None => None,
        }
    }
}

} // verus!
