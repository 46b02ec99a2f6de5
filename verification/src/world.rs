//! The world: every entity, the archetypes that store their components, and the indices
//! that find archetypes by component type.
use crate::archetypes::{
    col_index, lemma_row_map_append, lemma_row_map_dom, row_map, row_types, without_types, Archetype,
};
use crate::type_key::{
    contains_type, copy_types, first_duplicate, first_duplicate_of, index_of_type, lemma_remove_to_set,
    same_type_set,
};
use crate::{ArchetypeIndex, ComponentIndex, Entity, WorldError, WorldResult};
use std::any::TypeId;
use std::collections::HashMap;
use std::collections::HashSet;
use vstd::std_specs::iter::IteratorSpec;
use vstd::prelude::*;

verus! {

broadcast use vstd::std_specs::hash::group_hash_axioms;

/// Newly created entities with no components on them, are placed in this archetype.
pub const EMPTY_ENTITY_ARCHETYPE_INDEX: ArchetypeIndex = 0;

/// The archetype registered first for exactly the set of types `s`, if any.
pub open spec fn first_match(sigs: Seq<(Vec<TypeId>, ArchetypeIndex)>, s: Set<TypeId>) -> Option<
    ArchetypeIndex,
>
    decreases sigs.len(),
{
    if sigs.len() == 0 {
        None
    } else if sigs[0].0@.to_set() == s {
        Some(sigs[0].1)
    } else {
        first_match(sigs.drop_first(), s)
    }
}

proof fn lemma_first_match_some(sigs: Seq<(Vec<TypeId>, ArchetypeIndex)>, s: Set<TypeId>)
    ensures
        first_match(sigs, s) is Some ==> exists|k: int|
            0 <= k < sigs.len() && #[trigger] sigs[k].0@.to_set() == s && sigs[k].1 == first_match(
                sigs,
                s,
            )->0,
        first_match(sigs, s) is None ==> forall|k: int|
            0 <= k < sigs.len() ==> #[trigger] sigs[k].0@.to_set() != s,
    decreases sigs.len(),
{
    if sigs.len() > 0 {
        lemma_first_match_some(sigs.drop_first(), s);
        if sigs[0].0@.to_set() != s {
            if first_match(sigs, s) is Some {
                let k = choose|k: int|
                    0 <= k < sigs.drop_first().len() && #[trigger] sigs.drop_first()[k].0@.to_set() == s
                        && sigs.drop_first()[k].1 == first_match(sigs, s)->0;
                assert(sigs[k + 1] == sigs.drop_first()[k]);
            } else {
                assert forall|k: int| 0 <= k < sigs.len() implies #[trigger] sigs[k].0@.to_set() != s by {
                    if k > 0 {
                        assert(sigs[k] == sigs.drop_first()[k - 1]);
                    }
                }
            }
        }
    }
}

proof fn lemma_first_match_push(
    sigs: Seq<(Vec<TypeId>, ArchetypeIndex)>,
    p: (Vec<TypeId>, ArchetypeIndex),
    s: Set<TypeId>,
)
    ensures
        first_match(sigs.push(p), s) == (if first_match(sigs, s) is Some {
            first_match(sigs, s)
        } else if p.0@.to_set() == s {
            Some(p.1)
        } else {
            None
        }),
    decreases sigs.len(),
{
    if sigs.len() == 0 {
        assert(sigs.push(p)[0] == p);
        assert(sigs.push(p).drop_first() == Seq::<(Vec<TypeId>, ArchetypeIndex)>::empty());
        assert(first_match(Seq::<(Vec<TypeId>, ArchetypeIndex)>::empty(), s) is None);
        assert(first_match(sigs, s) is None);
    } else {
        assert(sigs.push(p)[0] == sigs[0]);
        assert(sigs.push(p).drop_first() == sigs.drop_first().push(p));
        lemma_first_match_push(sigs.drop_first(), p, s);
    }
}

proof fn lemma_addition_failures_empty(source: Set<TypeId>, types: Seq<TypeId>)
    ensures
        addition_failures(source, types).len() == 0 <==> source.disjoint(types.to_set()),
    decreases types.len(),
{
    if types.len() > 0 {
        let prefix = types.drop_last();
        lemma_addition_failures_empty(source, prefix);
        assert(types.to_set() =~= prefix.to_set().insert(types.last())) by {
            assert(types == prefix.push(types.last()));
            prefix.lemma_push_to_set_commute(types.last());
        }
    } else {
        assert(types.to_set() =~= Set::<TypeId>::empty());
    }
}

proof fn lemma_removal_failures_empty(source: Set<TypeId>, types: Seq<TypeId>)
    ensures
        removal_failures(source, types).len() == 0 <==> (types.no_duplicates() && types.to_set().subset_of(source)),
    decreases types.len(),
{
    if types.len() > 0 {
        let prefix = types.drop_last();
        let t = types.last();
        lemma_removal_failures_empty(source, prefix);
        assert(types == prefix.push(t));
        assert(types.to_set() =~= prefix.to_set().insert(t)) by {
            prefix.lemma_push_to_set_commute(t);
        }
        if types.no_duplicates() {
            assert(prefix.no_duplicates());
            assert(!prefix.contains(t)) by {
                if prefix.contains(t) {
                    let j = choose|j: int| 0 <= j < prefix.len() && prefix[j] == t;
                    assert(types[j] == types[types.len() - 1]);
                }
            }
        }
        if prefix.no_duplicates() && !prefix.contains(t) {
            assert forall|i: int, j: int| 0 <= i < types.len() && 0 <= j < types.len() && i != j implies types[i]
                != types[j] by {
                if i == types.len() - 1 {
                    assert(types[j] == prefix[j]);
                } else if j == types.len() - 1 {
                    assert(types[i] == prefix[i]);
                } else {
                    assert(types[i] == prefix[i] && types[j] == prefix[j]);
                }
            }
        }
    } else {
        assert(types.to_set() =~= Set::<TypeId>::empty());
    }
}

/// Which kind of change is made to an entity's set of component types.
pub enum EntityComponentMutation<'a> {
    /// The given component types are removed from the entity.
    Removal(Entity, &'a [TypeId]),
    /// The given component types are added to the entity.
    Addition(Entity, &'a [TypeId]),
}

/// The types that cannot be removed, walking through `types` with `source` the types present
/// at the start: those not present, or already removed by an earlier occurrence.
pub open spec fn removal_failures(source: Set<TypeId>, types: Seq<TypeId>) -> Seq<TypeId>
    decreases types.len(),
{
    if types.len() == 0 {
        Seq::empty()
    } else {
        let f = removal_failures(source, types.drop_last());
        if source.contains(types.last()) && !types.drop_last().contains(types.last()) {
            f
        } else {
            f.push(types.last())
        }
    }
}

/// The types that cannot be added, because they are already present in `source`.
pub open spec fn addition_failures(source: Set<TypeId>, types: Seq<TypeId>) -> Seq<TypeId>
    decreases types.len(),
{
    if types.len() == 0 {
        Seq::empty()
    } else {
        let f = addition_failures(source, types.drop_last());
        if source.contains(types.last()) {
            f.push(types.last())
        } else {
            f
        }
    }
}

/// The types that cannot be added are exactly those of `types` already present in `source`, in
/// the order in which they are listed.
pub proof fn lemma_addition_failures_are_present(source: Set<TypeId>, types: Seq<TypeId>)
    ensures
        addition_failures(source, types) == types.filter(|t: TypeId| source.contains(t)),
    decreases types.len(),
{
    reveal(Seq::filter);
    if types.len() > 0 {
        lemma_addition_failures_are_present(source, types.drop_last());
    }
}

/// The positions of `types` whose type cannot be removed from `source`: it is not present,
/// or it was listed earlier.
pub open spec fn unremovable_at(source: Set<TypeId>, types: Seq<TypeId>, i: int) -> bool {
    !source.contains(types[i]) || types.take(i).contains(types[i])
}

/// Among the first `k` types, those that cannot be removed are those at the unremovable
/// positions below `k`, in order.
proof fn lemma_removal_failures_prefix(source: Set<TypeId>, types: Seq<TypeId>, k: int)
    requires
        0 <= k <= types.len(),
    ensures
        removal_failures(source, types.take(k)) == Seq::new(k as nat, |i: int| i).filter(
            |i: int| unremovable_at(source, types, i),
        ).map_values(|i: int| types[i]),
    decreases k,
{
    reveal(Seq::filter);
    let pos = Seq::new(k as nat, |i: int| i);
    let p = |i: int| unremovable_at(source, types, i);
    if k == 0 {
        assert(pos.filter(p) =~= Seq::<int>::empty());
        assert(pos.filter(p).map_values(|i: int| types[i]) =~= Seq::<TypeId>::empty());
    } else {
        lemma_removal_failures_prefix(source, types, k - 1);
        let prev = Seq::new((k - 1) as nat, |i: int| i);
        assert(pos.drop_last() =~= prev);
        assert(pos.last() == k - 1);
        assert(types.take(k).drop_last() =~= types.take(k - 1));
        assert(types.take(k).last() == types[k - 1]);
        let f = prev.filter(p);
        if p(k - 1) {
            assert(pos.filter(p) == f.push(k - 1));
            assert(f.push(k - 1).map_values(|i: int| types[i]) =~= f.map_values(|i: int| types[i]).push(types[k - 1]));
        } else {
            assert(pos.filter(p) == f);
        }
    }
}

/// The types that cannot be removed are exactly those of `types` at positions where the type
/// is not present in `source` or was already listed before, in the order in which they are
/// listed.
pub proof fn lemma_removal_failures_are_unremovable(source: Set<TypeId>, types: Seq<TypeId>)
    ensures
        removal_failures(source, types) == Seq::new(types.len(), |i: int| i).filter(
            |i: int| unremovable_at(source, types, i),
        ).map_values(|i: int| types[i]),
{
    lemma_removal_failures_prefix(source, types, types.len() as int);
    assert(types.take(types.len() as int) =~= types);
}

/// The errors reported for types that could not be removed from `entity`.
pub open spec fn removal_errors(entity: Entity, failed: Seq<TypeId>) -> Seq<WorldError> {
    failed.map_values(|t: TypeId| WorldError::ComponentTypeNotPresentForEntity(entity, t))
}

/// The errors reported for types that could not be added to `entity`.
pub open spec fn addition_errors(entity: Entity, failed: Seq<TypeId>) -> Seq<WorldError> {
    failed.map_values(|t: TypeId| WorldError::ComponentTypeAlreadyExistsForEntity(entity, t))
}

/// The elements common to all of `sets`; none when there are no sets.
pub fn intersection_of_multiple_sets(sets: &[HashSet<usize>]) -> (r: HashSet<usize>)
    ensures
        r@ == (if sets@.len() == 0 {
            Set::<usize>::empty()
        } else {
            Set::new(|x: usize| forall|i: int| 0 <= i < sets@.len() ==> #[trigger] sets@[i]@.contains(x))
        }),
{
    broadcast use vstd::std_specs::hash::axiom_spec_hash_keys_iter;

    let mut result: HashSet<usize> = HashSet::new();
    if sets.len() == 0 {
        return result;
    }
    let ghost all = Set::new(
        |x: usize| forall|i: int| 0 <= i < sets@.len() ==> #[trigger] sets@[i]@.contains(x),
    );
    let first = &sets[0];
    let ghost keys: Seq<usize> = vstd::std_specs::hash::spec_hash_keys_iter(first).remaining().unref();
    let ghost mut seen: Seq<usize> = Seq::empty();
    for x in it: first.iter()
        invariant
            sets@.len() > 0,
            first == sets@[0],
            it.seq() == vstd::std_specs::hash::spec_hash_keys_iter(first).remaining(),
            keys == it.seq().unref(),
            keys.to_set() == first@,
            seen == it.seq().take(it.index()).unref(),
            all == Set::new(
                |x: usize| forall|i: int| 0 <= i < sets@.len() ==> #[trigger] sets@[i]@.contains(x),
            ),
            forall|y: usize| #[trigger] result@.contains(y) <==> (seen.contains(y) && all.contains(y)),
    {
        let mut in_all = true;
        let mut i: usize = 1;
        while i < sets.len()
            invariant
                1 <= i <= sets@.len(),
                first == sets@[0],
                first@.contains(*x),
                in_all == forall|j: int| 0 <= j < i ==> #[trigger] sets@[j]@.contains(*x),
            decreases sets.len() - i,
        {
            if !sets[i].contains(x) {
                in_all = false;
            }
            i = i + 1;
        }
        assert(in_all == all.contains(*x));
        let ghost before = result@;
        if in_all {
            result.insert(*x);
        }
        proof {
            assert(result@ == if in_all { before.insert(*x) } else { before });
            assert(it.seq().take(it.index() + 1).unref() =~= seen.push(*x));
            assert forall|y: usize| #[trigger] result@.contains(y) <==> (seen.push(*x).contains(y) && all.contains(y)) by {
                let pushed = seen.push(*x);
                if seen.contains(y) {
                    let k = choose|k: int| 0 <= k < seen.len() && seen[k] == y;
                    assert(pushed[k] == y);
                }
                if y == *x {
                    assert(pushed[seen.len() as int] == y);
                }
                if pushed.contains(y) {
                    let k = choose|k: int| 0 <= k < pushed.len() && pushed[k] == y;
                    if k < seen.len() {
                        assert(seen[k] == y);
                    }
                }
            }
            seen = seen.push(*x);
        }
    }
    proof {
        assert(seen == keys);
        assert forall|y: usize| result@.contains(y) <==> all.contains(y) by {
            if all.contains(y) {
                assert(sets@[0]@.contains(y));
                assert(keys.to_set().contains(y));
            }
        }
        assert(result@ =~= all);
    }
    result
}

/// Adding a component of a new type to an entity and then removing that type gives back the
/// world as it was: the two changes that `add_component_to_entity` and
/// `remove_component_type_from_entity` make to the world's view undo each other.
pub proof fn lemma_add_then_remove_restores<C>(
    view: Map<Entity, Map<TypeId, C>>,
    entity: Entity,
    component_type: TypeId,
    component: C,
)
    requires
        view.contains_key(entity),
        !view[entity].contains_key(component_type),
    ensures
        ({
            let added = view.insert(entity, view[entity].insert(component_type, component));
            let removed = added.insert(entity, added[entity].remove(component_type));
            &&& added[entity][component_type] == component
            &&& removed == view
        }),
{
    let added = view.insert(entity, view[entity].insert(component_type, component));
    let removed = added.insert(entity, added[entity].remove(component_type));
    assert(added[entity].remove(component_type) =~= view[entity]);
    assert(removed =~= view);
}

/// Removing a component type from an entity and adding a component of that type back gives
/// the world as it was, with the new value in place of the removed one.
pub proof fn lemma_remove_then_add_replaces<C>(
    view: Map<Entity, Map<TypeId, C>>,
    entity: Entity,
    component_type: TypeId,
    component: C,
)
    requires
        view.contains_key(entity),
        view[entity].contains_key(component_type),
    ensures
        ({
            let removed = view.insert(entity, view[entity].remove(component_type));
            let added = removed.insert(entity, removed[entity].insert(component_type, component));
            added == view.insert(entity, view[entity].insert(component_type, component))
        }),
{
    let removed = view.insert(entity, view[entity].remove(component_type));
    let added = removed.insert(entity, removed[entity].insert(component_type, component));
    assert(removed[entity].insert(component_type, component) =~= view[entity].insert(
        component_type,
        component,
    ));
    assert(added =~= view.insert(entity, view[entity].insert(component_type, component)));
}

/// Represents the simulated world.
#[derive(Debug)]
pub struct World<C> {
    entities: Vec<Entity>,
    /// Relates a unique `Entity Id` to the `Archetype` that stores it.
    entity_to_archetype_index: HashMap<usize, ArchetypeIndex>,
    /// Stores all `Archetypes`; index 0 is the archetype of entities without components.
    archetypes: Vec<Archetype<C>>,
    /// Relates each component type to the archetypes that store it.
    component_typeid_to_archetype_indices: Vec<(TypeId, Vec<ArchetypeIndex>)>,
    /// Relates a set of component types to the archetype that stores exactly them.
    component_typeids_set_to_archetype_index: Vec<(Vec<TypeId>, ArchetypeIndex)>,
}

impl<C> View for World<C> {
    type V = Map<Entity, Map<TypeId, C>>;

    /// Every entity of the world, with its components by type.
    closed spec fn view(&self) -> Map<Entity, Map<TypeId, C>> {
        Map::new(
            |e: Entity| self.entity_to_archetype_index@.contains_key(e.id),
            |e: Entity|
                self.archetypes@[self.entity_to_archetype_index@[e.id] as int].contents()[e],
        )
    }
}

impl<C> Default for World<C> {
    /// A world with only the archetype of entities without components.
    fn default() -> (r: Self)
        ensures
            r.wf(),
            r@ == Map::<Entity, Map<TypeId, C>>::empty(),
            r.archetype_count() == 1,
            r.entity_list() == Seq::<Entity>::empty(),
    {
        World::new()
    }
}

impl<C> World<C> {
    /// Whether this world has the archetypes, entities and bookkeeping of `other`: the same
    /// archetypes with the same component types and entities, the same entities, each in the
    /// same archetype. Only component values may differ.
    pub open spec fn shape_unchanged(&self, other: Self) -> bool {
        &&& self.archetype_count() == other.archetype_count()
        &&& forall|j: int|
            0 <= j < other.archetype_count() ==> (#[trigger] self.archetype_at(j)).types()
                == other.archetype_at(j).types() && self.archetype_at(j).entity_seq()
                == other.archetype_at(j).entity_seq()
        &&& self.entity_list() == other.entity_list()
        &&& self@.dom() == other@.dom()
        &&& forall|e: Entity| #[trigger] other@.contains_key(e) ==> self.archetype_index_of(e) == other.archetype_index_of(e)
    }

    /// Whether `after` is this world with `entity` moved to the archetype at `target` (a new
    /// one when `target` is the number of archetypes): in its old archetype the last entity
    /// takes its place, in the target archetype it comes last, and no other archetype changes.
    pub open spec fn entity_moved(&self, after: Self, entity: Entity, target: int) -> bool {
        let source = self.archetype_index_of(entity) as int;
        let old_order = self.archetype_at(source).entity_seq();
        let position = self.archetype_at(source).index_map()[entity.id] as int;
        &&& after.archetype_at(source).entity_seq() == old_order.update(
            position,
            old_order.last(),
        ).drop_last()
        &&& after.archetype_at(target).entity_seq() == (if target < self.archetype_count() {
            self.archetype_at(target).entity_seq()
        } else {
            Seq::<Entity>::empty()
        }).push(entity)
        &&& forall|j: int|
            0 <= j < self.archetype_count() && j != source && j != target ==> #[trigger] after.archetype_at(j)
                == self.archetype_at(j)
    }

    /// The number of archetypes.
    pub closed spec fn archetype_count(&self) -> nat {
        self.archetypes@.len()
    }

    /// The archetype at an index.
    pub closed spec fn archetype_at(&self, i: int) -> Archetype<C> {
        self.archetypes@[i]
    }

    /// The index of the archetype that stores an entity.
    pub closed spec fn archetype_index_of(&self, e: Entity) -> ArchetypeIndex {
        self.entity_to_archetype_index@[e.id]
    }

    /// All entities ever created, in order of creation.
    pub closed spec fn entity_list(&self) -> Seq<Entity> {
        self.entities@
    }

    /// The archetype that entities with exactly the component types `s` are moved to, if it
    /// exists already.
    pub closed spec fn matching_archetype(&self, s: Set<TypeId>) -> Option<ArchetypeIndex> {
        if s == Set::<TypeId>::empty() {
            Some(EMPTY_ENTITY_ARCHETYPE_INDEX)
        } else {
            first_match(self.component_typeids_set_to_archetype_index@, s)
        }
    }

    /// The archetypes whose types include all of `signature`.
    pub closed spec fn archetypes_with(&self, signature: Set<TypeId>) -> Set<ArchetypeIndex> {
        Set::new(
            |a: ArchetypeIndex|
                a < self.archetypes@.len() && signature.subset_of(
                    self.archetypes@[a as int].types().to_set(),
                ),
        )
    }

    spec fn sigs_wf(&self) -> bool {
        &&& forall|k: int|
            0 <= k < self.component_typeids_set_to_archetype_index@.len() ==> {
                let p = #[trigger] self.component_typeids_set_to_archetype_index@[k];
                &&& p.1 < self.archetypes@.len()
                &&& p.0@.no_duplicates()
                &&& p.0@.to_set() == self.archetypes@[p.1 as int].types().to_set()
            }
        &&& self.all_registered()
        &&& self.distinct_sets()
    }

    /// The set of component types of the archetype at `a`.
    spec fn type_set(&self, a: int) -> Set<TypeId> {
        self.archetypes@[a].types().to_set()
    }

    /// No two archetypes store the same set of component types.
    spec fn distinct_sets(&self) -> bool {
        forall|a: int, b: int|
            0 <= a < self.archetypes@.len() && 0 <= b < self.archetypes@.len() && a != b
                ==> #[trigger] self.type_set(a) != #[trigger] self.type_set(b)
    }

    /// Distinct type sets are kept by changes that keep every archetype's component types.
    proof fn lemma_distinct_kept(&self, after: Self)
        requires
            self.distinct_sets(),
            after.archetypes@.len() == self.archetypes@.len(),
            forall|a: int|
                0 <= a < self.archetypes@.len() ==> (#[trigger] after.archetypes@[a]).types()
                    == self.archetypes@[a].types(),
        ensures
            after.distinct_sets(),
    {
        assert forall|a: int, b: int|
            0 <= a < after.archetypes@.len() && 0 <= b < after.archetypes@.len() && a != b
            implies #[trigger] after.type_set(a) != #[trigger] after.type_set(b) by {
            assert(after.archetypes@[a].types() == self.archetypes@[a].types());
            assert(after.archetypes@[b].types() == self.archetypes@[b].types());
            assert(self.type_set(a) != self.type_set(b));
        }
    }

    /// Every archetype but the first is registered under its set of component types.
    spec fn all_registered(&self) -> bool {
        forall|a: int| 1 <= a < self.archetypes@.len() ==> #[trigger] self.registered(a)
    }

    /// Archetype `a` is registered under some set of component types.
    spec fn registered(&self, a: int) -> bool {
        exists|k: int|
            0 <= k < self.component_typeids_set_to_archetype_index@.len()
                && #[trigger] self.component_typeids_set_to_archetype_index@[k].1 == a
    }

    /// Registration is kept by changes that keep the number of archetypes and the registry.
    proof fn lemma_registered_kept(&self, after: Self)
        requires
            self.all_registered(),
            after.archetypes@.len() == self.archetypes@.len(),
            after.component_typeids_set_to_archetype_index@
                == self.component_typeids_set_to_archetype_index@,
        ensures
            after.all_registered(),
    {
        assert forall|a: int| 1 <= a < after.archetypes@.len() implies #[trigger] after.registered(a) by {
            assert(self.registered(a));
        }
    }

    spec fn type_index_wf(&self) -> bool {
        let tidx = self.component_typeid_to_archetype_indices@;
        &&& forall|k: int|
            0 <= k < tidx.len() ==> (#[trigger] tidx[k]).1@.no_duplicates()
        &&& forall|k: int, j: int|
            0 <= k < tidx.len() && 0 <= j < tidx[k].1@.len() ==> {
                let a = #[trigger] tidx[k].1@[j];
                &&& a < self.archetypes@.len()
                &&& self.archetypes@[a as int].types().contains(tidx[k].0)
            }
        &&& forall|k1: int, k2: int|
            0 <= k1 < tidx.len() && 0 <= k2 < tidx.len() && k1 != k2 ==> #[trigger] tidx[k1].0
                != #[trigger] tidx[k2].0
        &&& forall|a: int, t: TypeId|
            0 <= a < self.archetypes@.len() && #[trigger] self.archetypes@[a].types().contains(t)
                ==> exists|k: int|
                0 <= k < tidx.len() && #[trigger] tidx[k].0 == t && tidx[k].1@.contains(
                    a as ArchetypeIndex,
                )
    }

    /// The world's internal invariant.
    pub closed spec fn wf(&self) -> bool {
        let e2a = self.entity_to_archetype_index@;
        &&& self.archetypes@.len() >= 1
        &&& self.archetypes@[0].types().len() == 0
        &&& forall|a: int| 0 <= a < self.archetypes@.len() ==> #[trigger] self.archetypes@[a].wf()
        &&& forall|i: int| 0 <= i < self.entities@.len() ==> #[trigger] self.entities@[i].id == i
        &&& forall|id: usize| #[trigger] e2a.contains_key(id) <==> id < self.entities@.len()
        &&& forall|id: usize| #[trigger]
            e2a.contains_key(id) ==> e2a[id] < self.archetypes@.len()
                && self.archetypes@[e2a[id] as int].contents().contains_key(Entity { id })
        &&& forall|a: int, e: Entity|
            0 <= a < self.archetypes@.len() && #[trigger] self.archetypes@[a].contents().contains_key(
                e,
            ) ==> e2a.contains_key(e.id) && e2a[e.id] == a
        &&& self.sigs_wf()
        &&& self.type_index_wf()
    }

    /// Creates a world with only the archetype of entities without components.
    pub fn new() -> (r: Self)
        ensures
            r.wf(),
            r@ == Map::<Entity, Map<TypeId, C>>::empty(),
            r.archetype_count() == 1,
            r.entity_list() == Seq::<Entity>::empty(),
    {
        let mut archetypes: Vec<Archetype<C>> = Vec::new();
        archetypes.push(Archetype::new(Vec::new()));
        let r = World {
            archetypes,
            component_typeid_to_archetype_indices: Vec::new(),
            component_typeids_set_to_archetype_index: Vec::new(),
            entities: Vec::new(),
            entity_to_archetype_index: HashMap::new(),
        };
        assert(r@ =~= Map::<Entity, Map<TypeId, C>>::empty());
        r
    }

    /// All entities ever created, in order of creation.
    pub fn entities(&self) -> (r: &Vec<Entity>)
        ensures
            r@ == self.entity_list(),
    {
        &self.entities
    }

    /// The number of archetypes.
    pub fn archetype_len(&self) -> (r: usize)
        ensures
            r == self.archetype_count(),
    {
        self.archetypes.len()
    }

    /// Gets the archetype at an index.
    pub fn get_archetype(&self, archetype_index: ArchetypeIndex) -> (r: WorldResult<&Archetype<C>>)
        ensures
            match r {
                Ok(a) => archetype_index < self.archetype_count() && *a == self.archetype_at(
                    archetype_index as int,
                ),
                Err(WorldError::ArchetypeDoesNotExist(i)) => i == archetype_index && archetype_index
                    >= self.archetype_count(),
                Err(_) => false,
            },
    {
        if archetype_index < self.archetypes.len() {
            Ok(&self.archetypes[archetype_index])
        } else {
            Err(WorldError::ArchetypeDoesNotExist(archetype_index))
        }
    }

    /// Whether `after` is this world with only archetype `a` changed, and there only the
    /// component of type `t` of entity `e`.
    spec fn component_replaced(self, a: int, e: Entity, t: TypeId, after: Self) -> bool {
        let before_arch = self.archetypes@[a];
        let after_arch = after.archetypes@[a];
        &&& after.entities == self.entities
        &&& after.entity_to_archetype_index == self.entity_to_archetype_index
        &&& after.component_typeid_to_archetype_indices == self.component_typeid_to_archetype_indices
        &&& after.component_typeids_set_to_archetype_index
            == self.component_typeids_set_to_archetype_index
        &&& after.archetypes@ == self.archetypes@.update(a, after_arch)
        &&& after_arch.wf()
        &&& after_arch.types() == before_arch.types()
        &&& after_arch.entity_seq() == before_arch.entity_seq()
        &&& after_arch.index_map() == before_arch.index_map()
        &&& after_arch.contents() == before_arch.contents().insert(
            e,
            before_arch.contents()[e].insert(t, after_arch.contents()[e][t]),
        )
    }

    /// Replacing one component of an entity stored in archetype `a` keeps the world's
    /// invariant, and changes only that component of that entity.
    proof fn lemma_component_write(self, a: int, e: Entity, t: TypeId)
        requires
            self.wf(),
            0 <= a < self.archetypes@.len(),
            self.archetypes@[a].contents().contains_key(e),
            self.archetypes@[a].types().contains(t),
        ensures
            self@.contains_key(e),
            self.archetype_index_of(e) == a,
            forall|after: Self|
                #![trigger after.wf()]
                #![trigger after.view()]
                self.component_replaced(a, e, t, after) ==> {
                    &&& after.wf()
                    &&& after@ == self@.insert(
                        e,
                        self@[e].insert(t, after.archetypes@[a].contents()[e][t]),
                    )
                },
    {
        assert(Entity { id: e.id } == e);
        assert forall|after: Self| self.component_replaced(a, e, t, after) implies {
            &&& after.wf()
            &&& after@ == self@.insert(e, self@[e].insert(t, after.archetypes@[a].contents()[e][t]))
        } by {
            let v = after.archetypes@[a].contents()[e][t];
            let e2a = self.entity_to_archetype_index@;
            assert forall|j: int| 0 <= j < after.archetypes@.len() implies #[trigger] after.archetypes@[j].wf() by {
                if j != a {
                    assert(after.archetypes@[j] == self.archetypes@[j]);
                }
            }
            assert forall|id: usize| #[trigger] e2a.contains_key(id) implies after.archetypes@[e2a[id] as int].contents().contains_key(Entity { id }) by {
                assert(self.archetypes@[e2a[id] as int].contents().contains_key(Entity { id }));
            }
            assert forall|j: int, e3: Entity|
                0 <= j < after.archetypes@.len() && #[trigger] after.archetypes@[j].contents().contains_key(e3)
                implies e2a.contains_key(e3.id) && e2a[e3.id] == j by {
                assert(self.archetypes@[j].contents().contains_key(e3));
            }
            self.lemma_registered_kept(after);
            assert forall|j: int| 0 <= j < self.archetypes@.len() implies (#[trigger] after.archetypes@[j]).types()
                == self.archetypes@[j].types() by {
                if j != a {
                    assert(after.archetypes@[j] == self.archetypes@[j]);
                }
            }
            self.lemma_distinct_kept(after);
            assert(after.sigs_wf());
            assert(after.type_index_wf());
            assert(after.wf());
            assert forall|e2: Entity| #[trigger] after@.contains_key(e2) implies after@[e2] == self@.insert(
                e,
                self@[e].insert(t, v),
            )[e2] by {
                let j = e2a[e2.id] as int;
                if j != a {
                    assert(after.archetypes@[j] == self.archetypes@[j]);
                } else if e2 != e {
                    assert(after.archetypes@[a].contents()[e2] == self.archetypes@[a].contents()[e2]);
                }
            }
            assert(after@ =~= self@.insert(e, self@[e].insert(t, v)));
        }
    }

    /// A mutable borrow of the component of type `component_type` at `component_index` of the
    /// archetype at `archetype_index`, if there is one; what is written through it replaces
    /// that component of the entity stored there, and nothing else in the world changes.
    pub fn get_component_mut(
        &mut self,
        archetype_index: ArchetypeIndex,
        component_type: &TypeId,
        component_index: ComponentIndex,
    ) -> (r: Option<&mut C>)
        requires
            old(self).wf(),
        ensures
            match r {
                Some(c) => {
                    let arch = old(self).archetype_at(archetype_index as int);
                    let e = arch.entity_seq()[component_index as int];
                    &&& archetype_index < old(self).archetype_count()
                    &&& arch.types().contains(*component_type)
                    &&& component_index < arch.entity_seq().len()
                    &&& *c == arch.columns()[col_index(
                        arch.types(),
                        *component_type,
                    )][component_index as int]
                    &&& final(self).wf()
                    &&& old(self)@.contains_key(e)
                    &&& old(self).archetype_index_of(e) == archetype_index
                    &&& final(self)@ == old(self)@.insert(
                        e,
                        old(self)@[e].insert(*component_type, *final(c)),
                    )
                    &&& final(self).shape_unchanged(*old(self))
                },
                None => (archetype_index >= old(self).archetype_count() || !old(self).archetype_at(
                    archetype_index as int,
                ).types().contains(*component_type) || component_index >= old(self).archetype_at(
                    archetype_index as int,
                ).entity_seq().len()) && *final(self) == *old(self),
            },
    {
        if archetype_index >= self.archetypes.len() {
            return None;
        }
        let ghost a = archetype_index as int;
        let ghost arch = self.archetypes@[a];
        if !self.archetypes[archetype_index].contains_component_type_id(component_type)
            || component_index >= self.archetypes[archetype_index].entities().len() {
            return None;
        }
        proof {
            arch.lemma_wf_contents();
            let e = arch.entity_seq()[component_index as int];
            assert(arch.contents().contains_key(e));
            self.lemma_component_write(a, e, *component_type);
        }
        self.archetypes[archetype_index].get_component_mut(component_type, component_index)
    }

    /// Gets the archetypes at the given indices, failing on the first index that does not exist.
    pub fn get_archetypes(&self, archetype_indices: &[ArchetypeIndex]) -> (r: WorldResult<
        Vec<&Archetype<C>>,
    >)
        ensures
            match r {
                Ok(v) => v@.len() == archetype_indices@.len() && forall|i: int|
                    0 <= i < v@.len() ==> archetype_indices@[i] < self.archetype_count()
                        && *#[trigger] v@[i] == self.archetype_at(archetype_indices@[i] as int),
                Err(WorldError::ArchetypeDoesNotExist(i)) => exists|k: int|
                    0 <= k < archetype_indices@.len() && archetype_indices@[k] == i && i
                        >= self.archetype_count() && forall|j: int|
                        0 <= j < k ==> #[trigger] archetype_indices@[j] < self.archetype_count(),
                Err(_) => false,
            },
    {
        let mut result: Vec<&Archetype<C>> = Vec::new();
        let mut k: usize = 0;
        while k < archetype_indices.len()
            invariant
                k <= archetype_indices@.len(),
                result@.len() == k,
                forall|i: int| 0 <= i < k ==> #[trigger] archetype_indices@[i] < self.archetype_count(),
                forall|i: int|
                    0 <= i < k ==> *#[trigger] result@[i] == self.archetype_at(
                        archetype_indices@[i] as int,
                    ),
            decreases archetype_indices@.len() - k,
        {
            let index = archetype_indices[k];
            match self.get_archetype(index) {
                Ok(a) => {
                    let ghost before = result@;
                    result.push(a);
                    assert(result@[k as int] == a);
                    assert(forall|i: int| 0 <= i < k ==> result@[i] == before[i]);
                },
                Err(e) => {
                    assert(archetype_indices@[k as int] == index);
                    assert(forall|j: int|
                        0 <= j < k ==> #[trigger] archetype_indices@[j] < self.archetype_count());
                    return Err(e);
                },
            }
            k = k + 1;
        }
        Ok(result)
    }

    /// Gets the index of the archetype that stores the given entity.
    pub fn get_archetype_index_of_entity(&self, entity: Entity) -> (r: WorldResult<ArchetypeIndex>)
        requires
            self.wf(),
        ensures
            match r {
                Ok(i) => self@.contains_key(entity) && i == self.archetype_index_of(entity),
                Err(WorldError::EntityDoesNotExist(e)) => e == entity && !self@.contains_key(entity),
                Err(_) => false,
            },
    {
        match self.entity_to_archetype_index.get(&entity.id) {
            Some(i) => Ok(*i),
            None => Err(WorldError::EntityDoesNotExist(entity)),
        }
    }

    /// Gets the archetype that stores the given entity.
    pub fn get_archetype_of_entity(&self, entity: Entity) -> (r: WorldResult<&Archetype<C>>)
        requires
            self.wf(),
        ensures
            match r {
                Ok(a) => self@.contains_key(entity) && *a == self.archetype_at(
                    self.archetype_index_of(entity) as int,
                ) && a.contents()[entity] == self@[entity],
                Err(WorldError::EntityDoesNotExist(e)) => e == entity && !self@.contains_key(entity),
                Err(_) => false,
            },
    {
        let source_archetype_index = self.get_archetype_index_of_entity(entity)?;
        let source_archetype = self.get_archetype(source_archetype_index)?;
        Ok(source_archetype)
    }

    /// Finds the archetype that stores exactly the given component types, in any order. A list
    /// that names a type twice matches no archetype.
    pub fn get_exactly_matching_archetype(&self, component_type_ids: &Vec<TypeId>) -> (r: Option<
        ArchetypeIndex,
    >)
        requires
            self.wf(),
        ensures
            r == if component_type_ids@.no_duplicates() {
                self.matching_archetype(component_type_ids@.to_set())
            } else {
                None
            },
    {
        if component_type_ids.len() == 0 {
            assert(component_type_ids@.to_set() =~= Set::<TypeId>::empty());
            return Some(EMPTY_ENTITY_ARCHETYPE_INDEX);
        }
        if first_duplicate(component_type_ids).is_some() {
            return None;
        }
        assert(component_type_ids@.to_set().contains(component_type_ids@[0]));
        let ghost s = component_type_ids@.to_set();
        let ghost sigs = self.component_typeids_set_to_archetype_index@;
        let mut k: usize = 0;
        assert(sigs.subrange(0, sigs.len() as int) == sigs);
        while k < self.component_typeids_set_to_archetype_index.len()
            invariant
                k <= sigs.len(),
                sigs == self.component_typeids_set_to_archetype_index@,
                first_match(sigs, s) == first_match(sigs.subrange(k as int, sigs.len() as int), s),
                component_type_ids@.no_duplicates(),
                s == component_type_ids@.to_set(),
                s.contains(component_type_ids@[0]),
                self.wf(),
            decreases sigs.len() - k,
        {
            let ghost rest = sigs.subrange(k as int, sigs.len() as int);
            assert(rest.drop_first() == sigs.subrange(k + 1, sigs.len() as int));
            assert(sigs[k as int].0@.no_duplicates());
            assert(rest[0] == sigs[k as int]);
            if same_type_set(&self.component_typeids_set_to_archetype_index[k].0, component_type_ids) {
                assert(s != Set::<TypeId>::empty());
                return Some(self.component_typeids_set_to_archetype_index[k].1);
            }
            k = k + 1;
        }
        None
    }
    /// The archetype matching a set of types stores exactly that set of types, and when some
    /// archetype stores exactly that set, there is a matching one; no two archetypes store the
    /// same set, so the matching archetype is the only one with that set. The empty set is
    /// matched by archetype 0, the archetype of entities without components.
    pub proof fn lemma_matching_archetype(&self, s: Set<TypeId>)
        requires
            self.wf(),
        ensures
            self.matching_archetype(Set::<TypeId>::empty()) == Some(EMPTY_ENTITY_ARCHETYPE_INDEX),
            self.archetype_at(0).types().len() == 0,
            self.matching_archetype(s) matches Some(i) ==> i < self.archetype_count()
                && self.archetype_at(i as int).types().to_set() == s,
            (exists|a: int|
                0 <= a < self.archetype_count() && #[trigger] self.archetype_at(a).types().to_set()
                    == s) ==> self.matching_archetype(s) is Some,
            forall|a: int, b: int|
                0 <= a < self.archetype_count() && 0 <= b < self.archetype_count() && #[trigger] self.archetype_at(a).types().to_set()
                    == #[trigger] self.archetype_at(b).types().to_set() ==> a == b,
    {
        assert forall|a: int, b: int|
            0 <= a < self.archetype_count() && 0 <= b < self.archetype_count() && #[trigger] self.archetype_at(a).types().to_set()
                == #[trigger] self.archetype_at(b).types().to_set() implies a == b by {
            if a != b {
                assert(self.type_set(a) != self.type_set(b));
            }
        }
        assert(self.archetypes@[0].types().to_set() =~= Set::<TypeId>::empty());
        if s != Set::<TypeId>::empty() {
            let sigs = self.component_typeids_set_to_archetype_index@;
            lemma_first_match_some(sigs, s);
            if exists|a: int|
                0 <= a < self.archetype_count() && #[trigger] self.archetype_at(a).types().to_set()
                    == s {
                let a = choose|a: int|
                    0 <= a < self.archetype_count() && #[trigger] self.archetype_at(a).types().to_set()
                        == s;
                assert(a != 0);
                assert(self.registered(a));
                let k = choose|k: int| 0 <= k < sigs.len() && #[trigger] sigs[k].1 == a;
                assert(sigs[k].0@.to_set() == s);
            }
        }
    }

    /// An index is among `archetypes_with(signature)` exactly when it names an archetype whose
    /// component types include all of `signature`.
    pub proof fn lemma_archetypes_with(&self, signature: Set<TypeId>)
        ensures
            forall|a: ArchetypeIndex|
                #[trigger] self.archetypes_with(signature).contains(a) <==> (a < self.archetype_count()
                    && signature.subset_of(self.archetype_at(a as int).types().to_set())),
    {
    }

    /// In a well-formed world every archetype is well formed, archetype 0 stores no component
    /// types, and each entity's id is its position in the entity list, so no entity occurs in
    /// it twice.
    pub proof fn lemma_world_parts(&self)
        requires
            self.wf(),
        ensures
            self.archetype_count() >= 1,
            self.archetype_at(0).types().len() == 0,
            forall|a: int| 0 <= a < self.archetype_count() ==> #[trigger] self.archetype_at(a).wf(),
            forall|i: int| 0 <= i < self.entity_list().len() ==> #[trigger] self.entity_list()[i].id == i,
            self.entity_list().no_duplicates(),
            forall|e: Entity| #[trigger] self@.contains_key(e) <==> e.id < self.entity_list().len(),
    {
        assert forall|i: int, j: int| 0 <= i < self.entity_list().len() && 0 <= j < self.entity_list().len() && i != j
            implies self.entity_list()[i] != self.entity_list()[j] by {
            assert(self.entities@[i].id == i && self.entities@[j].id == j);
        }
    }

    /// The components of a stored entity are exactly those of its archetype's types.
    pub proof fn lemma_entity_types(&self, e: Entity)
        requires
            self.wf(),
            self@.contains_key(e),
        ensures
            self.archetype_index_of(e) < self.archetype_count(),
            self.archetype_at(self.archetype_index_of(e) as int).contents().contains_key(e),
            self.archetype_at(self.archetype_index_of(e) as int).contents()[e] == self@[e],
            self@[e].dom() == self.archetype_at(self.archetype_index_of(e) as int).types().to_set(),
            self.archetype_at(self.archetype_index_of(e) as int).types().no_duplicates(),
    {
        let a = self.entity_to_archetype_index@[e.id] as int;
        assert(Entity { id: e.id } == e);
        self.archetypes@[a].lemma_wf_contents();
    }

    /// Finds the archetype for an entity after a change of its component types, together
    /// with its current component types and the component types after the change.
    pub fn find_target_archetype(&self, mutation: EntityComponentMutation) -> (r: WorldResult<
        (Option<ArchetypeIndex>, Vec<TypeId>, Vec<TypeId>),
    >)
        requires
            self.wf(),
        ensures
            match mutation {
                EntityComponentMutation::Removal(entity, types) => match r {
                    Ok((m, source, target)) => {
                        &&& self@.contains_key(entity)
                        &&& source@ == self.archetype_at(self.archetype_index_of(entity) as int).types()
                        &&& removal_failures(source@.to_set(), types@).len() == 0
                        &&& target@.no_duplicates()
                        &&& target@.to_set() == source@.to_set().difference(types@.to_set())
                        &&& m == self.matching_archetype(target@.to_set())
                    },
                    Err(WorldError::EntityDoesNotExist(e)) => e == entity && !self@.contains_key(
                        entity,
                    ),
                    Err(WorldError::ComponentMutationFailed(errors)) => {
                        let source = self.archetype_at(self.archetype_index_of(entity) as int).types();
                        &&& self@.contains_key(entity)
                        &&& removal_failures(source.to_set(), types@).len() > 0
                        &&& errors@ == removal_errors(
                            entity,
                            removal_failures(source.to_set(), types@),
                        )
                    },
                    Err(_) => false,
                },
                EntityComponentMutation::Addition(entity, types) => match r {
                    Ok((m, source, target)) => {
                        &&& self@.contains_key(entity)
                        &&& source@ == self.archetype_at(self.archetype_index_of(entity) as int).types()
                        &&& addition_failures(source@.to_set(), types@).len() == 0
                        &&& target@.no_duplicates()
                        &&& target@.to_set() == source@.to_set().union(types@.to_set())
                        &&& m == self.matching_archetype(target@.to_set())
                    },
                    Err(WorldError::EntityDoesNotExist(e)) => e == entity && !self@.contains_key(
                        entity,
                    ),
                    Err(WorldError::ComponentMutationFailed(errors)) => {
                        let source = self.archetype_at(self.archetype_index_of(entity) as int).types();
                        &&& self@.contains_key(entity)
                        &&& addition_failures(source.to_set(), types@).len() > 0
                        &&& errors@ == addition_errors(
                            entity,
                            addition_failures(source.to_set(), types@),
                        )
                    },
                    Err(_) => false,
                },
            },
    {
        match mutation {
            EntityComponentMutation::Removal(entity, component_types) => {
                let source_archetype = self.get_archetype_of_entity(entity)?;
                proof {
                    self.lemma_entity_types(entity);
                }
                let source_archetype_type_ids = copy_types(source_archetype.component_types());
                let ghost source = source_archetype_type_ids@.to_set();
                let mut target_archetype_type_ids = copy_types(&source_archetype_type_ids);
                let mut failed_removals: Vec<WorldError> = Vec::new();
                let mut i: usize = 0;
                while i < component_types.len()
                    invariant
                        i <= component_types@.len(),
                        source == source_archetype_type_ids@.to_set(),
                        source_archetype_type_ids@.no_duplicates(),
                        target_archetype_type_ids@.no_duplicates(),
                        target_archetype_type_ids@.to_set() == source.difference(
                            component_types@.subrange(0, i as int).to_set(),
                        ),
                        failed_removals@ == removal_errors(
                            entity,
                            removal_failures(source, component_types@.subrange(0, i as int)),
                        ),
                    decreases component_types@.len() - i,
                {
                    let type_to_remove = component_types[i];
                    let ghost prefix = component_types@.subrange(0, i as int);
                    let ghost next = component_types@.subrange(0, i + 1);
                    assert(next.drop_last() == prefix);
                    assert(next.last() == type_to_remove);
                    proof {
                        assert(next.to_set() =~= prefix.to_set().insert(type_to_remove));
                    }
                    match index_of_type(&target_archetype_type_ids, &type_to_remove) {
                        Some(j) => {
                            proof {
                                lemma_remove_to_set(target_archetype_type_ids@, j as int);
                                assert(target_archetype_type_ids@.to_set().contains(type_to_remove));
                            }
                            target_archetype_type_ids.remove(j);
                            proof {
                                assert(source.contains(type_to_remove) && !prefix.contains(
                                    type_to_remove,
                                ));
                                assert(target_archetype_type_ids@.to_set() =~= source.difference(
                                    next.to_set(),
                                ));
                            }
                        },
                        None => {
                            failed_removals.push(
                                WorldError::ComponentTypeNotPresentForEntity(entity, type_to_remove),
                            );
                            proof {
                                assert(!target_archetype_type_ids@.to_set().contains(type_to_remove));
                                assert(!(source.contains(type_to_remove) && !prefix.contains(
                                    type_to_remove,
                                )));
                                assert(target_archetype_type_ids@.to_set() =~= source.difference(
                                    next.to_set(),
                                ));
                                assert(failed_removals@ =~= removal_errors(
                                    entity,
                                    removal_failures(source, next),
                                ));
                            }
                        },
                    }
                    i = i + 1;
                }
                assert(component_types@.subrange(0, i as int) == component_types@);
                if failed_removals.len() > 0 {
                    return Err(WorldError::ComponentMutationFailed(failed_removals));
                }
                let maybe_target_archetype = self.get_exactly_matching_archetype(
                    &target_archetype_type_ids,
                );
                Ok((maybe_target_archetype, source_archetype_type_ids, target_archetype_type_ids))
            },
            EntityComponentMutation::Addition(entity, component_types) => {
                let source_archetype = self.get_archetype_of_entity(entity)?;
                proof {
                    self.lemma_entity_types(entity);
                }
                let source_archetype_type_ids = copy_types(source_archetype.component_types());
                let ghost source = source_archetype_type_ids@.to_set();
                let mut target_archetype_type_ids = copy_types(&source_archetype_type_ids);
                let mut already_added_components: Vec<WorldError> = Vec::new();
                let mut i: usize = 0;
                while i < component_types.len()
                    invariant
                        i <= component_types@.len(),
                        source == source_archetype_type_ids@.to_set(),
                        source_archetype_type_ids@.no_duplicates(),
                        target_archetype_type_ids@.no_duplicates(),
                        target_archetype_type_ids@.to_set() == source.union(
                            component_types@.subrange(0, i as int).to_set(),
                        ),
                        already_added_components@ == addition_errors(
                            entity,
                            addition_failures(source, component_types@.subrange(0, i as int)),
                        ),
                    decreases component_types@.len() - i,
                {
                    let type_to_add = component_types[i];
                    let ghost prefix = component_types@.subrange(0, i as int);
                    let ghost next = component_types@.subrange(0, i + 1);
                    assert(next.drop_last() == prefix);
                    assert(next.last() == type_to_add);
                    proof {
                        assert(next.to_set() =~= prefix.to_set().insert(type_to_add));
                    }
                    if contains_type(&source_archetype_type_ids, &type_to_add) {
                        already_added_components.push(
                            WorldError::ComponentTypeAlreadyExistsForEntity(entity, type_to_add),
                        );
                        proof {
                            assert(source.contains(type_to_add));
                            assert(already_added_components@ =~= addition_errors(
                                entity,
                                addition_failures(source, next),
                            ));
                        }
                    }
                    if !contains_type(&target_archetype_type_ids, &type_to_add) {
                        let ghost before = target_archetype_type_ids@;
                        target_archetype_type_ids.push(type_to_add);
                        proof {
                            before.lemma_push_to_set_commute(type_to_add);
                            assert(target_archetype_type_ids@.to_set() =~= source.union(
                                next.to_set(),
                            ));
                        }
                    } else {
                        proof {
                            assert(target_archetype_type_ids@.to_set().contains(type_to_add));
                            assert(target_archetype_type_ids@.to_set() == source.union(prefix.to_set()));
                            assert(next.to_set() == prefix.to_set().insert(type_to_add));
                            assert(target_archetype_type_ids@.to_set() =~= source.union(
                                next.to_set(),
                            ));
                        }
                    }
                    i = i + 1;
                }
                assert(component_types@.subrange(0, i as int) == component_types@);
                if already_added_components.len() > 0 {
                    return Err(WorldError::ComponentMutationFailed(already_added_components));
                }
                let maybe_target_archetype = self.get_exactly_matching_archetype(
                    &target_archetype_type_ids,
                );
                Ok((maybe_target_archetype, source_archetype_type_ids, target_archetype_type_ids))
            },
        }
    }
    /// The component vectors of type `component_type` of the archetypes at
    /// `archetype_indices`, in order; `None` for an archetype without that type.
    pub fn borrow_component_vecs(
        &self,
        archetype_indices: &[ArchetypeIndex],
        component_type: TypeId,
    ) -> (r: WorldResult<Vec<Option<&Vec<C>>>>)
        requires
            self.wf(),
        ensures
            match r {
                Ok(v) => v@.len() == archetype_indices@.len() && forall|i: int|
                    0 <= i < v@.len() ==> archetype_indices@[i] < self.archetype_count() && {
                        let a = self.archetype_at(archetype_indices@[i] as int);
                        match #[trigger] v@[i] {
                            Some(c) => a.types().contains(component_type) && c@ == a.columns()[col_index(
                                a.types(),
                                component_type,
                            )],
                            None => !a.types().contains(component_type),
                        }
                    },
                Err(WorldError::ArchetypeDoesNotExist(i)) => exists|k: int|
                    0 <= k < archetype_indices@.len() && archetype_indices@[k] == i && i
                        >= self.archetype_count() && forall|j: int|
                        0 <= j < k ==> #[trigger] archetype_indices@[j] < self.archetype_count(),
                Err(_) => false,
            },
    {
        let archetypes = match self.get_archetypes(archetype_indices) {
            Ok(archetypes) => archetypes,
            Err(e) => {
                return Err(e);
            },
        };
        assert forall|i: int| 0 <= i < archetypes@.len() implies #[trigger] archetype_indices@[i] < self.archetype_count() by {
            assert(*archetypes@[i] == self.archetype_at(archetype_indices@[i] as int));
        }
        let mut result: Vec<Option<&Vec<C>>> = Vec::new();
        let mut k: usize = 0;
        while k < archetypes.len()
            invariant
                self.wf(),
                archetypes@.len() == archetype_indices@.len(),
                forall|i: int|
                    0 <= i < archetypes@.len() ==> #[trigger] archetype_indices@[i] < self.archetype_count(),
                forall|i: int|
                    0 <= i < archetypes@.len() ==> *#[trigger] archetypes@[i] == self.archetype_at(archetype_indices@[i] as int),
                k <= archetypes@.len(),
                result@.len() == k,
                forall|i: int|
                    0 <= i < k ==> {
                        let a = self.archetype_at(archetype_indices@[i] as int);
                        match #[trigger] result@[i] {
                            Some(c) => a.types().contains(component_type) && c@ == a.columns()[col_index(
                                a.types(),
                                component_type,
                            )],
                            None => !a.types().contains(component_type),
                        }
                    },
            decreases archetypes@.len() - k,
        {
            let archetype = archetypes[k];
            proof {
                assert(*archetypes@[k as int] == self.archetypes@[archetype_indices@[k as int] as int]);
                assert(self.archetypes@[archetype_indices@[k as int] as int].wf());
            }
            let ghost before = result@;
            result.push(archetype.borrow_component_vec(&component_type));
            assert(forall|i: int| 0 <= i < k ==> result@[i] == before[i]);
            k = k + 1;
        }
        Ok(result)
    }

    /// The archetypes that store the component type at position `k` of the type index.
    fn archetypes_of_type_entry(&self, k: usize) -> (r: HashSet<ArchetypeIndex>)
        requires
            self.wf(),
            k < self.component_typeid_to_archetype_indices@.len(),
        ensures
            r@ == self.archetypes_with(set![self.component_typeid_to_archetype_indices@[k as int].0]),
    {
        let list = &self.component_typeid_to_archetype_indices[k].1;
        let ghost t = self.component_typeid_to_archetype_indices@[k as int].0;
        let mut r: HashSet<ArchetypeIndex> = HashSet::new();
        let mut j: usize = 0;
        while j < list.len()
            invariant
                self.wf(),
                k < self.component_typeid_to_archetype_indices@.len(),
                list == self.component_typeid_to_archetype_indices@[k as int].1,
                t == self.component_typeid_to_archetype_indices@[k as int].0,
                j <= list.len(),
                r@ == list@.take(j as int).to_set(),
            decreases list.len() - j,
        {
            r.insert(list[j]);
            proof {
                assert(list@.take(j + 1) == list@.take(j as int).push(list@[j as int]));
                list@.take(j as int).lemma_push_to_set_commute(list@[j as int]);
            }
            j = j + 1;
        }
        proof {
            assert(list@.take(list.len() as int) == list@);
            let tidx = self.component_typeid_to_archetype_indices@;
            assert forall|a: ArchetypeIndex| r@.contains(a) <==> self.archetypes_with(set![t]).contains(a) by {
                if r@.contains(a) {
                    let x = choose|x: int| 0 <= x < list@.len() && list@[x] == a;
                    assert(tidx[k as int].1@[x] == a);
                    assert(set![t].subset_of(self.archetypes@[a as int].types().to_set())) by {
                        assert(self.archetypes@[a as int].types().contains(t));
                    }
                }
                if self.archetypes_with(set![t]).contains(a) {
                    assert(set![t].contains(t));
                    assert(self.archetypes@[a as int].types().to_set().contains(t));
                    assert(self.archetypes@[a as int].types().contains(t));
                    let k2 = choose|k2: int|
                        0 <= k2 < tidx.len() && #[trigger] tidx[k2].0 == t && tidx[k2].1@.contains(a);
                    if k2 != k {
                        assert(tidx[k2].0 != tidx[k as int].0);
                    }
                }
            }
            assert(r@ =~= self.archetypes_with(set![t]));
        }
        r
    }

    /// The indices of all archetypes that store the component type `component_type`.
    pub fn archetypes_with_component_type(&self, component_type: TypeId) -> (r: HashSet<
        ArchetypeIndex,
    >)
        requires
            self.wf(),
        ensures
            r@ == self.archetypes_with(set![component_type]),
    {
        match self.type_index_position(&component_type) {
            Some(k) => self.archetypes_of_type_entry(k),
            None => {
                proof {
                    assert forall|a: ArchetypeIndex| !self.archetypes_with(set![component_type]).contains(a) by {
                        if self.archetypes_with(set![component_type]).contains(a) {
                            assert(set![component_type].contains(component_type));
                            assert(self.archetypes@[a as int].types().to_set().contains(component_type));
                            assert(self.archetypes@[a as int].types().contains(component_type));
                            let k2 = choose|k2: int|
                                0 <= k2 < self.component_typeid_to_archetype_indices@.len()
                                    && #[trigger] self.component_typeid_to_archetype_indices@[k2].0 == component_type
                                    && self.component_typeid_to_archetype_indices@[k2].1@.contains(a);
                        }
                    }
                    assert(self.archetypes_with(set![component_type]) =~= Set::<ArchetypeIndex>::empty());
                }
                HashSet::new()
            },
        }
    }

    /// The indices of all archetypes whose component types include all of `signature`; none
    /// when the signature is empty.
    pub fn get_archetype_indices(&self, signature: &[TypeId]) -> (r: HashSet<ArchetypeIndex>)
        requires
            self.wf(),
        ensures
            r@ == (if signature@.len() == 0 {
                Set::<ArchetypeIndex>::empty()
            } else {
                self.archetypes_with(signature@.to_set())
            }),
    {
        let mut sets: Vec<HashSet<ArchetypeIndex>> = Vec::new();
        let mut i: usize = 0;
        while i < signature.len()
            invariant
                self.wf(),
                i <= signature.len(),
                sets@.len() == i,
                forall|j: int| 0 <= j < i ==> (#[trigger] sets@[j])@ == self.archetypes_with(set![signature@[j]]),
            decreases signature.len() - i,
        {
            match self.type_index_position(&signature[i]) {
                Some(k) => {
                    sets.push(self.archetypes_of_type_entry(k));
                },
                None => {
                    proof {
                        let t = signature@[i as int];
                        assert forall|a: ArchetypeIndex| !self.archetypes_with(signature@.to_set()).contains(a) by {
                            if self.archetypes_with(signature@.to_set()).contains(a) {
                                assert(signature@.to_set().contains(t));
                                assert(self.archetypes@[a as int].types().to_set().contains(t));
                                assert(self.archetypes@[a as int].types().contains(t));
                                let k2 = choose|k2: int|
                                    0 <= k2 < self.component_typeid_to_archetype_indices@.len()
                                        && #[trigger] self.component_typeid_to_archetype_indices@[k2].0 == t
                                        && self.component_typeid_to_archetype_indices@[k2].1@.contains(a);
                            }
                        }
                        assert(self.archetypes_with(signature@.to_set()) =~= Set::<ArchetypeIndex>::empty());
                    }
                    return HashSet::new();
                },
            }
            i = i + 1;
        }
        let r = intersection_of_multiple_sets(sets.as_slice());
        proof {
            if signature@.len() > 0 {
                let sig = signature@.to_set();
                assert forall|a: ArchetypeIndex| r@.contains(a) <==> self.archetypes_with(sig).contains(a) by {
                    if r@.contains(a) {
                        assert(sets@[0]@.contains(a));
                        assert forall|t: TypeId| sig.contains(t) implies self.archetypes@[a as int].types().to_set().contains(t) by {
                            let j = choose|j: int| 0 <= j < signature@.len() && signature@[j] == t;
                            assert(sets@[j]@.contains(a));
                            assert(set![signature@[j]].contains(t));
                        }
                    }
                    if self.archetypes_with(sig).contains(a) {
                        assert forall|j: int| 0 <= j < sets@.len() implies #[trigger] sets@[j]@.contains(a) by {
                            assert(sig.contains(signature@[j]));
                            assert(set![signature@[j]].subset_of(self.archetypes@[a as int].types().to_set()));
                        }
                    }
                }
                assert(r@ =~= self.archetypes_with(sig));
            }
        }
        r
    }

    /// What the world stores for an entity is what its view says: the value of each of the
    /// entity's component types sits in that type's component vector of the entity's
    /// archetype, at the entity's component index there. So after `add_component_to_entity`
    /// has succeeded, borrowing the component vector gives back the value that was added.
    pub proof fn lemma_storage_matches_view(&self, e: Entity, t: TypeId)
        requires
            self.wf(),
            self@.contains_key(e),
            self@[e].contains_key(t),
        ensures
            ({
                let a = self.archetype_at(self.archetype_index_of(e) as int);
                let k = col_index(a.types(), t);
                &&& self.archetype_index_of(e) < self.archetype_count()
                &&& a.types().contains(t)
                &&& a.index_map().contains_key(e.id)
                &&& 0 <= k < a.columns().len()
                &&& a.index_map()[e.id] < a.columns()[k].len()
                &&& a.columns()[k][a.index_map()[e.id] as int] == self@[e][t]
            }),
    {
        self.lemma_entity_types(e);
        let a = self.archetype_at(self.archetype_index_of(e) as int);
        assert(a.types().to_set().contains(t));
        assert(a.types().contains(t));
        assert(a.wf());
        a.lemma_stored_value(e, t);
    }

    /// The position of the entry for `t` in the index from component types to archetypes.
    fn type_index_position(&self, t: &TypeId) -> (r: Option<usize>)
        ensures
            match r {
                Some(k) => k < self.component_typeid_to_archetype_indices@.len()
                    && self.component_typeid_to_archetype_indices@[k as int].0 == *t,
                None => forall|k: int|
                    0 <= k < self.component_typeid_to_archetype_indices@.len()
                        ==> #[trigger] self.component_typeid_to_archetype_indices@[k].0 != *t,
            },
    {
        let mut k: usize = 0;
        while k < self.component_typeid_to_archetype_indices.len()
            invariant
                k <= self.component_typeid_to_archetype_indices@.len(),
                forall|j: int|
                    0 <= j < k ==> #[trigger] self.component_typeid_to_archetype_indices@[j].0 != *t,
            decreases self.component_typeid_to_archetype_indices@.len() - k,
        {
            if crate::type_key::same_type(&self.component_typeid_to_archetype_indices[k].0, t) {
                return Some(k);
            }
            k = k + 1;
        }
        None
    }

    /// Registers a new archetype that stores exactly the given component types.
    fn create_archetype(&mut self, component_types: Vec<TypeId>) -> (r: ArchetypeIndex)
        requires
            old(self).wf(),
            component_types@.no_duplicates(),
            component_types@.len() > 0,
            old(self).matching_archetype(component_types@.to_set()) is None,
        ensures
            final(self).wf(),
            r == old(self).archetype_count(),
            final(self)@ == old(self)@,
            final(self).archetype_count() == old(self).archetype_count() + 1,
            final(self).archetype_at(r as int).types() == component_types@,
            final(self).archetype_at(r as int).contents() == Map::<Entity, Map<TypeId, C>>::empty(),
            final(self).archetype_at(r as int).entity_seq() == Seq::<Entity>::empty(),
            forall|i: int|
                0 <= i < old(self).archetype_count() ==> #[trigger] final(self).archetype_at(i)
                    == old(self).archetype_at(i),
            final(self).entities == old(self).entities,
            final(self).entity_to_archetype_index == old(self).entity_to_archetype_index,
            forall|s: Set<TypeId>|
                #[trigger] final(self).matching_archetype(s) == if s == component_types@.to_set() {
                    Some(r)
                } else {
                    old(self).matching_archetype(s)
                },
    {
        let new_archetype_index = self.archetypes.len();
        let key = copy_types(&component_types);
        let listed = copy_types(&component_types);
        let ghost types = component_types@;
        self.archetypes.push(Archetype::new(component_types));
        self.component_typeids_set_to_archetype_index.push((key, new_archetype_index));
        let ghost a = new_archetype_index as int;
        proof {
            assert(self.archetypes@[a].types() == types);
            assert forall|i: int| 0 <= i < old(self).archetype_count() implies #[trigger] self.archetype_at(i)
                == old(self).archetype_at(i) by {
                assert(self.archetypes@[i] == old(self).archetypes@[i]);
            }
            let tidx0 = self.component_typeid_to_archetype_indices@;
            assert forall|b: int, t: TypeId|
                0 <= b < self.archetypes@.len() && #[trigger] self.archetypes@[b].types().contains(t)
                    && (b != a || listed@.subrange(0, 0).contains(t)) implies exists|k: int|
                    0 <= k < tidx0.len() && #[trigger] tidx0[k].0 == t && tidx0[k].1@.contains(
                        b as ArchetypeIndex,
                    ) by {
                assert(b != a);
                assert(self.archetypes@[b] == old(self).archetypes@[b]);
                assert(old(self).archetypes@[b].types().contains(t));
            }
            assert forall|k: int, j: int|
                #![trigger tidx0[k].1@[j]]
                0 <= k < tidx0.len() && 0 <= j < tidx0[k].1@.len() implies {
                    &&& tidx0[k].1@[j] < self.archetypes@.len()
                    &&& self.archetypes@[tidx0[k].1@[j] as int].types().contains(tidx0[k].0)
                    &&& tidx0[k].1@[j] != a
                } by {
                let b = tidx0[k].1@[j] as int;
                assert(self.archetypes@[b] == old(self).archetypes@[b]);
            }
        }
        let mut i: usize = 0;
        while i < listed.len()
            invariant
                i <= listed@.len(),
                listed@ == types,
                types.no_duplicates(),
                a == old(self).archetypes@.len(),
                a == new_archetype_index as int,
                self.archetypes@ == old(self).archetypes@.push(self.archetypes@[a]),
                self.archetypes@[a].types() == types,
                self.archetypes@[a].wf(),
                self.archetypes@[a].contents() == Map::<Entity, Map<TypeId, C>>::empty(),
                self.archetypes@[a].entity_seq() == Seq::<Entity>::empty(),
                self.component_typeids_set_to_archetype_index@ == old(self).component_typeids_set_to_archetype_index@.push((key, a as ArchetypeIndex)),
                self.entities == old(self).entities,
                self.entity_to_archetype_index == old(self).entity_to_archetype_index,
                old(self).wf(),
                forall|k: int|
                    0 <= k < self.component_typeid_to_archetype_indices@.len() ==> (#[trigger] self.component_typeid_to_archetype_indices@[k]).1@.no_duplicates(),
                forall|k: int, j: int|
                    #![trigger self.component_typeid_to_archetype_indices@[k].1@[j]]
                    0 <= k < self.component_typeid_to_archetype_indices@.len() && 0 <= j
                        < self.component_typeid_to_archetype_indices@[k].1@.len() ==> {
                        &&& self.component_typeid_to_archetype_indices@[k].1@[j] < self.archetypes@.len()
                        &&& self.archetypes@[self.component_typeid_to_archetype_indices@[k].1@[j] as int].types().contains(
                            self.component_typeid_to_archetype_indices@[k].0,
                        )
                        &&& self.component_typeid_to_archetype_indices@[k].1@[j] == a ==> listed@.subrange(0, i as int).contains(
                            self.component_typeid_to_archetype_indices@[k].0,
                        )
                    },
                forall|k1: int, k2: int|
                    0 <= k1 < self.component_typeid_to_archetype_indices@.len() && 0 <= k2
                        < self.component_typeid_to_archetype_indices@.len() && k1 != k2
                        ==> #[trigger] self.component_typeid_to_archetype_indices@[k1].0
                        != #[trigger] self.component_typeid_to_archetype_indices@[k2].0,
                forall|b: int, t: TypeId|
                    0 <= b < self.archetypes@.len() && #[trigger] self.archetypes@[b].types().contains(
                        t,
                    ) && (b != a || listed@.subrange(0, i as int).contains(t)) ==> exists|k: int|
                        0 <= k < self.component_typeid_to_archetype_indices@.len()
                            && #[trigger] self.component_typeid_to_archetype_indices@[k].0 == t
                            && self.component_typeid_to_archetype_indices@[k].1@.contains(
                            b as ArchetypeIndex,
                        ),
            decreases listed@.len() - i,
        {
            let t = listed[i];
            let ghost tidx = self.component_typeid_to_archetype_indices@;
            let ghost prefix = listed@.subrange(0, i as int);
            let ghost next = listed@.subrange(0, i + 1);
            assert(next == prefix.push(t));
            assert(!prefix.contains(t)) by {
                if prefix.contains(t) {
                    let j = choose|j: int| 0 <= j < prefix.len() && prefix[j] == t;
                    assert(listed@[j] == listed@[i as int]);
                }
            }
            match self.type_index_position(&t) {
                Some(k) => {
                    assert(!tidx[k as int].1@.contains(new_archetype_index)) by {
                        if tidx[k as int].1@.contains(new_archetype_index) {
                            let j = choose|j: int| 0 <= j < tidx[k as int].1@.len() && tidx[k as int].1@[j] == new_archetype_index;
                            assert(self.component_typeid_to_archetype_indices@[k as int].1@[j] == new_archetype_index);
                            assert(self.component_typeid_to_archetype_indices@[k as int].1@[j] == a);
                            assert(listed@.subrange(0, i as int).contains(self.component_typeid_to_archetype_indices@[k as int].0));
                            assert(prefix.contains(tidx[k as int].0));
                        }
                    }
                    self.component_typeid_to_archetype_indices[k].1.push(new_archetype_index);
                    proof {
                        let nt = self.component_typeid_to_archetype_indices@;
                        assert(forall|k2: int| 0 <= k2 < nt.len() && k2 != k ==> #[trigger] nt[k2] == tidx[k2]);
                        assert(nt[k as int].0 == t);
                        assert(nt[k as int].1@ == tidx[k as int].1@.push(new_archetype_index));
                        assert forall|k2: int, j: int|
                            #![trigger nt[k2].1@[j]]
                            0 <= k2 < nt.len() && 0 <= j < nt[k2].1@.len() implies {
                                &&& nt[k2].1@[j] < self.archetypes@.len()
                                &&& self.archetypes@[nt[k2].1@[j] as int].types().contains(nt[k2].0)
                                &&& nt[k2].1@[j] == a ==> next.contains(nt[k2].0)
                            } by {
                            if k2 == k as int && j == tidx[k as int].1@.len() {
                                assert(types[i as int] == t);
                                assert(next[i as int] == t);
                            } else if k2 == k as int {
                                assert(nt[k2].1@[j] == tidx[k2].1@[j]);
                                if nt[k2].1@[j] == a {
                                    let x = nt[k2].0;
                                    assert(prefix.contains(x));
                                    let w = choose|w: int| 0 <= w < prefix.len() && prefix[w] == x;
                                    assert(next[w] == x);
                                }
                            } else {
                                if nt[k2].1@[j] == a {
                                    let x = nt[k2].0;
                                    assert(prefix.contains(x));
                                    let w = choose|w: int| 0 <= w < prefix.len() && prefix[w] == x;
                                    assert(next[w] == x);
                                }
                            }
                        }
                        assert forall|b: int, t2: TypeId|
                            0 <= b < self.archetypes@.len() && #[trigger] self.archetypes@[b].types().contains(t2)
                                && (b != a || next.contains(t2)) implies exists|k3: int|
                                0 <= k3 < nt.len() && #[trigger] nt[k3].0 == t2 && nt[k3].1@.contains(
                                    b as ArchetypeIndex,
                                ) by {
                            if b == a && t2 == t {
                                assert(nt[k as int].1@[tidx[k as int].1@.len() as int] == new_archetype_index);
                            } else {
                                if b == a {
                                    let w = choose|w: int| 0 <= w < next.len() && next[w] == t2;
                                    assert(w != i as int);
                                    assert(prefix[w] == t2);
                                }
                                let k3 = choose|k3: int|
                                    0 <= k3 < tidx.len() && #[trigger] tidx[k3].0 == t2 && tidx[k3].1@.contains(
                                        b as ArchetypeIndex,
                                    );
                                let j = choose|j: int| 0 <= j < tidx[k3].1@.len() && tidx[k3].1@[j] == b as ArchetypeIndex;
                                assert(nt[k3].1@[j] == b as ArchetypeIndex);
                                assert(nt[k3].0 == t2);
                            }
                        }
                    }
                },
                None => {
                    self.component_typeid_to_archetype_indices.push((t, vec![new_archetype_index]));
                    proof {
                        let nt = self.component_typeid_to_archetype_indices@;
                        let kn = tidx.len() as int;
                        assert(nt == tidx.push((t, nt[kn].1)));
                        assert(nt[kn].1@ == seq![new_archetype_index]);
                        assert forall|k2: int, j: int|
                            #![trigger nt[k2].1@[j]]
                            0 <= k2 < nt.len() && 0 <= j < nt[k2].1@.len() implies {
                                &&& nt[k2].1@[j] < self.archetypes@.len()
                                &&& self.archetypes@[nt[k2].1@[j] as int].types().contains(nt[k2].0)
                                &&& nt[k2].1@[j] == a ==> next.contains(nt[k2].0)
                            } by {
                            if k2 == kn {
                                assert(types[i as int] == t);
                                assert(next[i as int] == t);
                            } else {
                                assert(nt[k2] == tidx[k2]);
                                if nt[k2].1@[j] == a {
                                    let x = nt[k2].0;
                                    assert(prefix.contains(x));
                                    let w = choose|w: int| 0 <= w < prefix.len() && prefix[w] == x;
                                    assert(next[w] == x);
                                }
                            }
                        }
                        assert forall|k1: int, k2: int|
                            0 <= k1 < nt.len() && 0 <= k2 < nt.len() && k1 != k2 implies #[trigger] nt[k1].0
                                != #[trigger] nt[k2].0 by {
                            if k1 != kn && k2 != kn {
                                assert(nt[k1] == tidx[k1] && nt[k2] == tidx[k2]);
                            } else if k1 == kn {
                                assert(nt[k2] == tidx[k2]);
                            } else {
                                assert(nt[k1] == tidx[k1]);
                            }
                        }
                        assert forall|b: int, t2: TypeId|
                            0 <= b < self.archetypes@.len() && #[trigger] self.archetypes@[b].types().contains(t2)
                                && (b != a || next.contains(t2)) implies exists|k3: int|
                                0 <= k3 < nt.len() && #[trigger] nt[k3].0 == t2 && nt[k3].1@.contains(
                                    b as ArchetypeIndex,
                                ) by {
                            if b == a && t2 == t {
                                assert(nt[kn].1@[0] == new_archetype_index);
                            } else {
                                if b == a {
                                    let w = choose|w: int| 0 <= w < next.len() && next[w] == t2;
                                    assert(w != i as int);
                                    assert(prefix[w] == t2);
                                }
                                let k3 = choose|k3: int|
                                    0 <= k3 < tidx.len() && #[trigger] tidx[k3].0 == t2 && tidx[k3].1@.contains(
                                        b as ArchetypeIndex,
                                    );
                                assert(nt[k3] == tidx[k3]);
                            }
                        }
                    }
                },
            }
            i = i + 1;
        }
        proof {
            assert(listed@.subrange(0, listed@.len() as int) == listed@);
            let sigs = self.component_typeids_set_to_archetype_index@;
            let old_sigs = old(self).component_typeids_set_to_archetype_index@;
            assert forall|k: int| 0 <= k < sigs.len() implies {
                let p = #[trigger] sigs[k];
                &&& p.1 < self.archetypes@.len()
                &&& p.0@.no_duplicates()
                &&& p.0@.to_set() == self.archetypes@[p.1 as int].types().to_set()
            } by {
                if k < old_sigs.len() {
                    assert(sigs[k] == old_sigs[k]);
                    assert(self.archetypes@[sigs[k].1 as int] == old(self).archetypes@[sigs[k].1 as int]);
                }
            }
            old(self).lemma_matching_archetype(types.to_set());
            assert forall|x: int, y: int|
                0 <= x < self.archetypes@.len() && 0 <= y < self.archetypes@.len() && x != y
                implies #[trigger] self.type_set(x) != #[trigger] self.type_set(y) by {
                if x < a && y < a {
                    assert(self.archetypes@[x] == old(self).archetypes@[x]);
                    assert(self.archetypes@[y] == old(self).archetypes@[y]);
                    assert(old(self).type_set(x) != old(self).type_set(y));
                } else if x == a {
                    assert(self.archetypes@[y] == old(self).archetypes@[y]);
                    assert(old(self).archetype_at(y).types().to_set() != types.to_set());
                } else {
                    assert(self.archetypes@[x] == old(self).archetypes@[x]);
                    assert(old(self).archetype_at(x).types().to_set() != types.to_set());
                }
            }
            assert forall|b: int| 1 <= b < self.archetypes@.len() implies #[trigger] self.registered(b) by {
                if b == a {
                    assert(sigs[old_sigs.len() as int].1 == b);
                } else {
                    assert(old(self).registered(b));
                    let k = choose|k: int|
                        0 <= k < old_sigs.len() && #[trigger] old_sigs[k].1 == b;
                    assert(sigs[k] == old_sigs[k]);
                }
            }
            assert forall|b: int| 0 <= b < self.archetypes@.len() implies #[trigger] self.archetypes@[b].wf() by {
                if b < a {
                    assert(self.archetypes@[b] == old(self).archetypes@[b]);
                }
            }
            assert forall|b: int, e: Entity|
                0 <= b < self.archetypes@.len() && #[trigger] self.archetypes@[b].contents().contains_key(e)
                    implies self.entity_to_archetype_index@.contains_key(e.id)
                    && self.entity_to_archetype_index@[e.id] == b by {
                if b < a {
                    assert(self.archetypes@[b] == old(self).archetypes@[b]);
                }
            }
            assert forall|id: usize| #[trigger] self.entity_to_archetype_index@.contains_key(id)
                implies self.entity_to_archetype_index@[id] < self.archetypes@.len()
                && self.archetypes@[self.entity_to_archetype_index@[id] as int].contents().contains_key(Entity { id }) by {
                let b = self.entity_to_archetype_index@[id] as int;
                assert(self.archetypes@[b] == old(self).archetypes@[b]);
            }
            assert(self.archetypes@[0] == old(self).archetypes@[0]);
            assert(self@ =~= old(self)@) by {
                assert forall|e: Entity| #[trigger] self@.contains_key(e) implies self@[e] == old(self)@[e] by {
                    let b = self.entity_to_archetype_index@[e.id] as int;
                    assert(self.archetypes@[b] == old(self).archetypes@[b]);
                }
            }
            assert forall|s: Set<TypeId>| #[trigger] self.matching_archetype(s) == if s == types.to_set() {
                Some(a as ArchetypeIndex)
            } else {
                old(self).matching_archetype(s)
            } by {
                lemma_first_match_push(old_sigs, (key, a as ArchetypeIndex), s);
                if s == Set::<TypeId>::empty() {
                    assert(types.to_set().contains(types[0]));
                }
            }
        }
        new_archetype_index
    }
    /// Moves an entity to another archetype: the components of the `removed` types are
    /// dropped, and the `added` components are given to it.
    fn move_entity_components_between_archetypes(
        &mut self,
        entity: Entity,
        target_archetype_index: ArchetypeIndex,
        removed: &[TypeId],
        added: Vec<(TypeId, C)>,
    )
        requires
            old(self).wf(),
            old(self)@.contains_key(entity),
            target_archetype_index < old(self).archetype_count(),
            target_archetype_index != old(self).archetype_index_of(entity),
            row_types(added@).no_duplicates(),
            old(self)@[entity].dom().difference(removed@.to_set()).disjoint(
                row_types(added@).to_set(),
            ),
            old(self).archetype_at(target_archetype_index as int).types().to_set()
                == old(self)@[entity].dom().difference(removed@.to_set()).union(
                row_types(added@).to_set(),
            ),
        ensures
            final(self).wf(),
            final(self)@ == old(self)@.insert(
                entity,
                old(self)@[entity].remove_keys(removed@.to_set()).union_prefer_right(
                    row_map(added@),
                ),
            ),
            final(self).archetype_index_of(entity) == target_archetype_index,
            final(self).archetype_count() == old(self).archetype_count(),
            final(self).entity_list() == old(self).entity_list(),
            final(self).component_typeids_set_to_archetype_index
                == old(self).component_typeids_set_to_archetype_index,
            forall|e: Entity|
                e != entity && #[trigger] old(self)@.contains_key(e) ==> final(self).archetype_index_of(e) == old(self).archetype_index_of(e),
            forall|i: int|
                0 <= i < old(self).archetype_count() && i != target_archetype_index && i
                    != old(self).archetype_index_of(entity) ==> #[trigger] final(self).archetype_at(i)
                    == old(self).archetype_at(i),
            final(self).archetype_at(target_archetype_index as int).entity_seq() == old(self).archetype_at(target_archetype_index as int).entity_seq().push(entity),
            final(self).archetype_at(old(self).archetype_index_of(entity) as int).entity_seq()
                == old(self).archetype_at(
                old(self).archetype_index_of(entity) as int,
            ).entity_seq().update(
                old(self).archetype_at(
                    old(self).archetype_index_of(entity) as int,
                ).index_map()[entity.id] as int,
                old(self).archetype_at(
                    old(self).archetype_index_of(entity) as int,
                ).entity_seq().last(),
            ).drop_last(),
    {
        let source_archetype_index = *self.entity_to_archetype_index.get(&entity.id).unwrap();
        let ghost src = source_archetype_index as int;
        let ghost tgt = target_archetype_index as int;
        let ghost old_row = old(self)@[entity];
        proof {
            old(self).lemma_entity_types(entity);
        }
        let row = self.archetypes[source_archetype_index].take_entity(entity);
        let mut kept = without_types(row, removed);
        let ghost kept_seq = kept@;
        proof {
            lemma_row_map_dom(kept_seq);
            lemma_row_map_dom(added@);
            lemma_row_map_append(kept_seq, added@);
        }
        let mut added = added;
        let ghost added_seq = added@;
        kept.append(&mut added);
        proof {
            assert(kept@ == kept_seq + added_seq);
            assert(old(self).archetypes@[tgt].wf());
            assert(!old(self).archetypes@[tgt].contents().contains_key(entity)) by {
                if old(self).archetypes@[tgt].contents().contains_key(entity) {
                    assert(old(self).entity_to_archetype_index@[entity.id] == tgt);
                }
            }
            assert(self.archetypes@[tgt] == old(self).archetypes@[tgt]);
        }
        self.archetypes[target_archetype_index].push_row(entity, kept);
        self.entity_to_archetype_index.insert(entity.id, target_archetype_index);
        proof {
            let new_row = old_row.remove_keys(removed@.to_set()).union_prefer_right(
                row_map(added_seq),
            );
            let e2a = self.entity_to_archetype_index@;
            let old_e2a = old(self).entity_to_archetype_index@;
            assert(row_map(kept_seq + added_seq) == new_row);
            assert forall|i: int| 0 <= i < self.archetypes@.len() && i != tgt && i != src implies #[trigger] self.archetypes@[i]
                == old(self).archetypes@[i] by {}
            assert forall|a: int| 0 <= a < self.archetypes@.len() implies #[trigger] self.archetypes@[a].wf() by {}
            assert forall|a: int| 0 <= a < self.archetypes@.len() implies #[trigger] self.archetypes@[a].types()
                == old(self).archetypes@[a].types() by {}
            assert(self.archetypes@[0].types().len() == 0);
            assert forall|id: usize| #[trigger] e2a.contains_key(id) implies e2a[id] < self.archetypes@.len()
                && self.archetypes@[e2a[id] as int].contents().contains_key(Entity { id }) by {
                if id == entity.id {
                    assert(Entity { id } == entity);
                } else {
                    assert(Entity { id } != entity);
                }
            }
            assert forall|a: int, e: Entity|
                0 <= a < self.archetypes@.len() && #[trigger] self.archetypes@[a].contents().contains_key(e)
                    implies e2a.contains_key(e.id) && e2a[e.id] == a by {
                if e == entity {
                    if a != tgt {
                        assert(a == src || self.archetypes@[a] == old(self).archetypes@[a]);
                        assert(old(self).archetypes@[a].contents().contains_key(e));
                        assert(old_e2a[e.id] == a);
                    }
                } else {
                    assert(e.id != entity.id);
                    assert(old(self).archetypes@[a].contents().contains_key(e));
                }
            }
            assert forall|k: int| 0 <= k < self.component_typeids_set_to_archetype_index@.len() implies {
                let p = #[trigger] self.component_typeids_set_to_archetype_index@[k];
                &&& p.1 < self.archetypes@.len()
                &&& p.0@.no_duplicates()
                &&& p.0@.to_set() == self.archetypes@[p.1 as int].types().to_set()
            } by {
                let p = self.component_typeids_set_to_archetype_index@[k];
                assert(self.archetypes@[p.1 as int].types() == old(self).archetypes@[p.1 as int].types());
            }
            let tidx = self.component_typeid_to_archetype_indices@;
            assert forall|k: int, j: int|
                0 <= k < tidx.len() && 0 <= j < tidx[k].1@.len() implies {
                    let a = #[trigger] tidx[k].1@[j];
                    &&& a < self.archetypes@.len()
                    &&& self.archetypes@[a as int].types().contains(tidx[k].0)
                } by {
                let a = tidx[k].1@[j];
                assert(self.archetypes@[a as int].types() == old(self).archetypes@[a as int].types());
            }
            assert forall|a: int, t: TypeId|
                0 <= a < self.archetypes@.len() && #[trigger] self.archetypes@[a].types().contains(t)
                    implies exists|k: int|
                    0 <= k < tidx.len() && #[trigger] tidx[k].0 == t && tidx[k].1@.contains(
                        a as ArchetypeIndex,
                    ) by {
                assert(old(self).archetypes@[a].types().contains(t));
            }
            old(self).lemma_registered_kept(*self);
            assert forall|j: int| 0 <= j < old(self).archetypes@.len() implies (#[trigger] self.archetypes@[j]).types()
                == old(self).archetypes@[j].types() by {
                assert(self.archetypes@[j].types() == old(self).archetypes@[j].types());
            }
            old(self).lemma_distinct_kept(*self);
            assert(self.sigs_wf());
            assert(self.type_index_wf());
            assert forall|e: Entity| #[trigger] self@.contains_key(e) implies self@[e] == old(self)@.insert(
                entity,
                new_row,
            )[e] by {
                if e != entity {
                    assert(e.id != entity.id);
                    let a = old_e2a[e.id] as int;
                    assert(Entity { id: e.id } == e);
                    assert(old(self).archetypes@[a].contents().contains_key(e));
                }
            }
            assert(self@ =~= old(self)@.insert(entity, new_row));
            assert forall|e: Entity|
                e != entity && #[trigger] old(self)@.contains_key(e) implies self.archetype_index_of(e)
                    == old(self).archetype_index_of(e) by {
                assert(e.id != entity.id);
            }
        }
    }
    /// Places a new entity without components in the empty-entity archetype.
    fn store_entity_in_archetype(&mut self, entity: Entity, archetype_index: ArchetypeIndex) -> (r:
        WorldResult<()>)
        requires
            old(self).wf(),
            archetype_index == EMPTY_ENTITY_ARCHETYPE_INDEX,
            entity.id == old(self).entities@.len(),
        ensures
            r is Ok,
            final(self).entity_to_archetype_index@ == old(self).entity_to_archetype_index@.insert(
                entity.id,
                archetype_index,
            ),
            final(self).archetypes@ == old(self).archetypes@.update(
                archetype_index as int,
                final(self).archetypes@[archetype_index as int],
            ),
            final(self).archetypes@[archetype_index as int].wf(),
            final(self).archetypes@[archetype_index as int].types() == old(self).archetypes@[archetype_index as int].types(),
            final(self).archetypes@[archetype_index as int].contents() == old(self).archetypes@[archetype_index as int].contents().insert(entity, Map::empty()),
            final(self).archetypes@[archetype_index as int].entity_seq() == old(self).archetypes@[archetype_index as int].entity_seq().push(entity),
            final(self).entities == old(self).entities,
            final(self).component_typeids_set_to_archetype_index
                == old(self).component_typeids_set_to_archetype_index,
            final(self).component_typeid_to_archetype_indices
                == old(self).component_typeid_to_archetype_indices,
    {
        proof {
            assert(!old(self).archetypes@[0].contents().contains_key(entity)) by {
                if old(self).archetypes@[0].contents().contains_key(entity) {
                    assert(old(self).entity_to_archetype_index@.contains_key(entity.id));
                }
            }
            assert(row_types(Seq::<(TypeId, C)>::empty()).to_set() =~= old(self).archetypes@[0].types().to_set());
            assert(row_map(Seq::<(TypeId, C)>::empty()) =~= Map::<TypeId, C>::empty());
        }
        self.archetypes[archetype_index].push_row(entity, Vec::new());
        self.entity_to_archetype_index.insert(entity.id, archetype_index);
        Ok(())
    }

    /// Spawns a new entity, without components.
    pub fn create_empty_entity(&mut self) -> (r: WorldResult<Entity>)
        requires
            old(self).wf(),
            old(self).entity_list().len() < usize::MAX,
        ensures
            final(self).wf(),
            match r {
                Ok(entity) => {
                    &&& entity.id == old(self).entity_list().len()
                    &&& !old(self)@.contains_key(entity)
                    &&& !old(self).entity_list().contains(entity)
                    &&& final(self)@ == old(self)@.insert(entity, Map::empty())
                    &&& final(self).entity_list() == old(self).entity_list().push(entity)
                    &&& final(self).archetype_index_of(entity) == EMPTY_ENTITY_ARCHETYPE_INDEX
                    &&& final(self).archetype_count() == old(self).archetype_count()
                    &&& forall|e: Entity| #[trigger] old(self)@.contains_key(e) ==> final(self).archetype_index_of(e) == old(self).archetype_index_of(e)
                    &&& forall|i: int| 0 < i < old(self).archetype_count() ==> #[trigger] final(self).archetype_at(i) == old(self).archetype_at(i)
                    &&& final(self).archetype_at(0).entity_seq() == old(self).archetype_at(0).entity_seq().push(entity)
                },
                Err(_) => false,
            },
    {
        if self.archetypes.len() == 0 {
            // Insert the "empty entity archetype" if not already created.
            self.archetypes.push(Archetype::new(Vec::new()));
        }
        let entity_id = self.entities.len();
        let entity = Entity { id: entity_id };
        let ghost mid = *self;
        self.store_entity_in_archetype(entity, EMPTY_ENTITY_ARCHETYPE_INDEX)?;
        self.entities.push(entity);
        proof {
            let e2a = self.entity_to_archetype_index@;
            let old_e2a = old(self).entity_to_archetype_index@;
            assert(!old_e2a.contains_key(entity_id));
            assert forall|i: int| 0 <= i < self.entities@.len() implies #[trigger] self.entities@[i].id == i by {
                if i < old(self).entities@.len() {
                    assert(self.entities@[i] == old(self).entities@[i]);
                }
            }
            assert forall|a: int| 0 <= a < self.archetypes@.len() implies #[trigger] self.archetypes@[a].wf() by {
                if a != 0 {
                    assert(self.archetypes@[a] == old(self).archetypes@[a]);
                }
            }
            assert forall|id: usize| #[trigger] e2a.contains_key(id) implies e2a[id] < self.archetypes@.len()
                && self.archetypes@[e2a[id] as int].contents().contains_key(Entity { id }) by {
                if id != entity_id {
                    assert(Entity { id } != entity);
                    let a = e2a[id] as int;
                    if a != 0 {
                        assert(self.archetypes@[a] == old(self).archetypes@[a]);
                    }
                }
            }
            assert forall|a: int, e: Entity|
                0 <= a < self.archetypes@.len() && #[trigger] self.archetypes@[a].contents().contains_key(e)
                    implies e2a.contains_key(e.id) && e2a[e.id] == a by {
                if a != 0 {
                    assert(self.archetypes@[a] == old(self).archetypes@[a]);
                    assert(old(self).archetypes@[a].contents().contains_key(e));
                    assert(e.id != entity_id);
                } else if e != entity {
                    assert(old(self).archetypes@[0].contents().contains_key(e));
                    assert(e.id != entity_id) by {
                        if e.id == entity_id {
                            assert(e == entity);
                        }
                    }
                }
            }
            assert forall|k: int| 0 <= k < self.component_typeids_set_to_archetype_index@.len() implies {
                let p = #[trigger] self.component_typeids_set_to_archetype_index@[k];
                &&& p.1 < self.archetypes@.len()
                &&& p.0@.no_duplicates()
                &&& p.0@.to_set() == self.archetypes@[p.1 as int].types().to_set()
            } by {
                let p = self.component_typeids_set_to_archetype_index@[k];
                if p.1 != 0 {
                    assert(self.archetypes@[p.1 as int] == old(self).archetypes@[p.1 as int]);
                }
            }
            let tidx = self.component_typeid_to_archetype_indices@;
            assert forall|k: int, j: int|
                0 <= k < tidx.len() && 0 <= j < tidx[k].1@.len() implies {
                    let a = #[trigger] tidx[k].1@[j];
                    &&& a < self.archetypes@.len()
                    &&& self.archetypes@[a as int].types().contains(tidx[k].0)
                } by {
                let a = tidx[k].1@[j];
                if a != 0 {
                    assert(self.archetypes@[a as int] == old(self).archetypes@[a as int]);
                }
            }
            assert forall|a: int, t: TypeId|
                0 <= a < self.archetypes@.len() && #[trigger] self.archetypes@[a].types().contains(t)
                    implies exists|k: int|
                    0 <= k < tidx.len() && #[trigger] tidx[k].0 == t && tidx[k].1@.contains(
                        a as ArchetypeIndex,
                    ) by {
                if a != 0 {
                    assert(self.archetypes@[a] == old(self).archetypes@[a]);
                }
            }
            old(self).lemma_registered_kept(*self);
            assert forall|j: int| 0 <= j < old(self).archetypes@.len() implies (#[trigger] self.archetypes@[j]).types()
                == old(self).archetypes@[j].types() by {
                if j != 0 {
                    assert(self.archetypes@[j] == old(self).archetypes@[j]);
                }
            }
            old(self).lemma_distinct_kept(*self);
            assert(self.sigs_wf());
            assert(self.type_index_wf());
            assert forall|e: Entity| #[trigger] self@.contains_key(e) implies self@[e] == old(self)@.insert(
                entity,
                Map::empty(),
            )[e] by {
                if e != entity {
                    assert(e.id != entity_id);
                    let a = old_e2a[e.id] as int;
                    assert(Entity { id: e.id } == e);
                    if a != 0 {
                        assert(self.archetypes@[a] == old(self).archetypes@[a]);
                    }
                    assert(old(self).archetypes@[a].contents().contains_key(e));
                } else {
                    assert(e.id == entity_id);
                }
            }
            assert(self@ =~= old(self)@.insert(entity, Map::empty()));
            assert forall|i: int| 0 < i < old(self).archetype_count() implies #[trigger] self.archetype_at(i) == old(self).archetype_at(i) by {
                assert(self.archetypes@[i] == old(self).archetypes@[i]);
            }
            assert forall|e: Entity| #[trigger] old(self)@.contains_key(e) implies self.archetype_index_of(e) == old(self).archetype_index_of(e) by {
                assert(e.id != entity_id);
            }
        }
        Ok(entity)
    }

    /// Spawns a new entity, without components.
    pub fn create_new_entity(&mut self) -> (r: WorldResult<Entity>)
        requires
            old(self).wf(),
            old(self).entity_list().len() < usize::MAX,
        ensures
            final(self).wf(),
            match r {
                Ok(entity) => {
                    &&& entity.id == old(self).entity_list().len()
                    &&& !old(self)@.contains_key(entity)
                    &&& !old(self).entity_list().contains(entity)
                    &&& final(self)@ == old(self)@.insert(entity, Map::empty())
                    &&& final(self).entity_list() == old(self).entity_list().push(entity)
                    &&& final(self).archetype_index_of(entity) == EMPTY_ENTITY_ARCHETYPE_INDEX
                    &&& final(self).archetype_count() == old(self).archetype_count()
                },
                Err(_) => false,
            },
    {
        self.create_empty_entity()
    }

    /// Adds new components to a given entity, moving it to the archetype of its new set of
    /// component types. Each component is given with its type.
    pub fn add_components_to_entity(&mut self, entity: Entity, components: Vec<(TypeId, C)>) -> (r:
        WorldResult<()>)
        requires
            old(self).wf(),
            old(self)@.contains_key(entity) ==> components@.len() > 0,
        ensures
            final(self).wf(),
            match r {
                Ok(()) => {
                    let target = old(self)@[entity].dom().union(row_types(components@).to_set());
                    &&& old(self)@.contains_key(entity)
                    &&& row_types(components@).no_duplicates()
                    &&& old(self)@[entity].dom().disjoint(row_types(components@).to_set())
                    &&& final(self)@ == old(self)@.insert(
                        entity,
                        old(self)@[entity].union_prefer_right(row_map(components@)),
                    )
                    &&& final(self).archetype_index_of(entity) == match old(self).matching_archetype(target) {
                        Some(i) => i,
                        None => old(self).archetype_count() as ArchetypeIndex,
                    }
                    &&& final(self).archetype_count() == old(self).archetype_count() + if old(self).matching_archetype(target) is None { 1int } else { 0int }
                    &&& final(self).entity_list() == old(self).entity_list()
                    &&& forall|e: Entity| e != entity && #[trigger] old(self)@.contains_key(e) ==> final(self).archetype_index_of(e) == old(self).archetype_index_of(e)
                    &&& old(self).entity_moved(*final(self), entity, final(self).archetype_index_of(entity) as int)
                },
                Err(WorldError::EntityDoesNotExist(e)) => e == entity && !old(self)@.contains_key(entity),
                Err(WorldError::ComponentTypeAlreadyExistsForEntity(e, t)) => {
                    &&& e == entity
                    &&& old(self)@.contains_key(entity)
                    &&& first_duplicate_of(row_types(components@)) == Some(t)
                },
                Err(WorldError::ComponentMutationFailed(errors)) => {
                    &&& old(self)@.contains_key(entity)
                    &&& row_types(components@).no_duplicates()
                    &&& addition_failures(old(self)@[entity].dom(), row_types(components@)).len() > 0
                    &&& errors@ == addition_errors(
                        entity,
                        addition_failures(old(self)@[entity].dom(), row_types(components@)),
                    )
                },
                Err(_) => false,
            },
            r is Err ==> *final(self) == *old(self),
    {
        if self.entity_to_archetype_index.get(&entity.id).is_none() {
            return Err(WorldError::EntityDoesNotExist(entity));
        }
        let mut component_types: Vec<TypeId> = Vec::new();
        let mut i: usize = 0;
        while i < components.len()
            invariant
                i <= components@.len(),
                component_types@ == row_types(components@).subrange(0, i as int),
            decreases components@.len() - i,
        {
            component_types.push(components[i].0);
            i = i + 1;
        }
        assert(component_types@ == row_types(components@));
        if let Some(duplicated_component_type) = first_duplicate(&component_types) {
            return Err(
                WorldError::ComponentTypeAlreadyExistsForEntity(entity, duplicated_component_type),
            );
        }
        proof {
            self.lemma_entity_types(entity);
        }
        let (target_archetype_exists, _source_type_ids, target_type_ids) =
            match self.find_target_archetype(
            EntityComponentMutation::Addition(entity, component_types.as_slice()),
        ) {
            Ok(found) => found,
            Err(error) => {
                return Err(error);
            },
        };
        proof {
            let dom = old(self)@[entity].dom();
            lemma_addition_failures_empty(dom, row_types(components@));
            self.lemma_matching_archetype(target_type_ids@.to_set());
            assert(components@.len() > 0);
            assert(row_types(components@).to_set().contains(row_types(components@)[0]));
            assert(target_type_ids@.to_set() != dom) by {
                let t = row_types(components@)[0];
                assert(target_type_ids@.to_set().contains(t));
            }
        }
        let target_archetype_index = match target_archetype_exists {
            Some(i) => i,
            None => {
                proof {
                    assert(target_type_ids@.to_set().contains(row_types(components@)[0]));
                }
                self.create_archetype(target_type_ids)
            },
        };
        let ghost mid = *self;
        let no_types: Vec<TypeId> = Vec::new();
        proof {
            let dom = old(self)@[entity].dom();
            assert(no_types@.to_set() =~= Set::<TypeId>::empty());
            assert(dom.difference(no_types@.to_set()) =~= dom);
            assert(self@ == old(self)@);
            self.lemma_entity_types(entity);
        }
        self.move_entity_components_between_archetypes(
            entity,
            target_archetype_index,
            no_types.as_slice(),
            components,
        );
        proof {
            let dom = old(self)@[entity].dom();
            assert(old(self)@[entity].remove_keys(Set::<TypeId>::empty()) =~= old(self)@[entity]);
            assert(no_types@.to_set() =~= Set::<TypeId>::empty());
        }
        Ok(())
    }

    /// Adds a new component of the given type to a given entity.
    pub fn add_component_to_entity(&mut self, entity: Entity, component_type: TypeId, component: C) -> (r:
        WorldResult<()>)
        requires
            old(self).wf(),
        ensures
            final(self).wf(),
            match r {
                Ok(()) => {
                    &&& old(self)@.contains_key(entity)
                    &&& !old(self)@[entity].contains_key(component_type)
                    &&& final(self)@ == old(self)@.insert(
                        entity,
                        old(self)@[entity].insert(component_type, component),
                    )
                    &&& final(self).archetype_index_of(entity) == match old(self).matching_archetype(old(self)@[entity].dom().insert(component_type)) {
                        Some(i) => i,
                        None => old(self).archetype_count() as ArchetypeIndex,
                    }
                    &&& final(self).archetype_count() == old(self).archetype_count() + if old(self).matching_archetype(old(self)@[entity].dom().insert(component_type)) is None { 1int } else { 0int }
                    &&& final(self).entity_list() == old(self).entity_list()
                    &&& forall|e: Entity| e != entity && #[trigger] old(self)@.contains_key(e) ==> final(self).archetype_index_of(e) == old(self).archetype_index_of(e)
                    &&& old(self).entity_moved(*final(self), entity, final(self).archetype_index_of(entity) as int)
                },
                Err(WorldError::EntityDoesNotExist(e)) => e == entity && !old(self)@.contains_key(entity),
                Err(WorldError::ComponentMutationFailed(errors)) => {
                    &&& old(self)@.contains_key(entity)
                    &&& old(self)@[entity].contains_key(component_type)
                    &&& errors@ == seq![WorldError::ComponentTypeAlreadyExistsForEntity(entity, component_type)]
                },
                Err(_) => false,
            },
            r is Err ==> *final(self) == *old(self),
    {
        let components = vec![(component_type, component)];
        let ghost cs = components@;
        proof {
            assert(row_types(cs) =~= seq![component_type]);
            assert(row_types(cs).to_set() =~= set![component_type]) by {
                assert(row_types(cs)[0] == component_type);
            }
            crate::archetypes::lemma_row_map_at(cs, 0);
            lemma_row_map_dom(cs);
            assert(row_map(cs) =~= map![component_type => component]);
            assert(row_types(cs).drop_last() =~= Seq::<TypeId>::empty());
            assert(first_duplicate_of(row_types(cs).drop_last()) is None);
            assert(addition_failures(Set::<TypeId>::empty(), Seq::<TypeId>::empty()) =~= Seq::<TypeId>::empty());
        }
        let r = self.add_components_to_entity(entity, components);
        proof {
            if old(self)@.contains_key(entity) {
                let dom = old(self)@[entity].dom();
                assert(dom.insert(component_type) =~= dom.union(set![component_type]));
                assert(old(self)@[entity].union_prefer_right(map![component_type => component]) =~= old(self)@[entity].insert(component_type, component));
                assert(addition_failures(dom, seq![component_type]) =~= if dom.contains(component_type) { seq![component_type] } else { Seq::<TypeId>::empty() }) by {
                    assert(seq![component_type].drop_last() =~= Seq::<TypeId>::empty());
                    assert(addition_failures(dom, Seq::<TypeId>::empty()) =~= Seq::<TypeId>::empty());
                    assert(seq![component_type].last() == component_type);
                }
                assert(row_types(cs) == seq![component_type]);
            }
        }
        r
    }

    /// Removes component types from a given entity, moving it to the archetype of its new set
    /// of component types.
    pub fn remove_component_types_from_entity(&mut self, entity: Entity, component_types: Vec<TypeId>) -> (r:
        WorldResult<()>)
        requires
            old(self).wf(),
            old(self)@.contains_key(entity) ==> component_types@.len() > 0,
        ensures
            final(self).wf(),
            match r {
                Ok(()) => {
                    let target = old(self)@[entity].dom().difference(component_types@.to_set());
                    &&& old(self)@.contains_key(entity)
                    &&& component_types@.no_duplicates()
                    &&& component_types@.to_set().subset_of(old(self)@[entity].dom())
                    &&& final(self)@ == old(self)@.insert(
                        entity,
                        old(self)@[entity].remove_keys(component_types@.to_set()),
                    )
                    &&& final(self).archetype_index_of(entity) == match old(self).matching_archetype(target) {
                        Some(i) => i,
                        None => old(self).archetype_count() as ArchetypeIndex,
                    }
                    &&& final(self).archetype_count() == old(self).archetype_count() + if old(self).matching_archetype(target) is None { 1int } else { 0int }
                    &&& final(self).entity_list() == old(self).entity_list()
                    &&& forall|e: Entity| e != entity && #[trigger] old(self)@.contains_key(e) ==> final(self).archetype_index_of(e) == old(self).archetype_index_of(e)
                    &&& old(self).entity_moved(*final(self), entity, final(self).archetype_index_of(entity) as int)
                },
                Err(WorldError::EntityDoesNotExist(e)) => e == entity && !old(self)@.contains_key(entity),
                Err(WorldError::ComponentMutationFailed(errors)) => {
                    &&& old(self)@.contains_key(entity)
                    &&& removal_failures(old(self)@[entity].dom(), component_types@).len() > 0
                    &&& errors@ == removal_errors(
                        entity,
                        removal_failures(old(self)@[entity].dom(), component_types@),
                    )
                },
                Err(_) => false,
            },
            r is Err ==> *final(self) == *old(self),
    {
        if self.entity_to_archetype_index.get(&entity.id).is_none() {
            return Err(WorldError::EntityDoesNotExist(entity));
        }
        proof {
            self.lemma_entity_types(entity);
        }
        let (target_archetype_exists, _source_type_ids, target_type_ids) =
            match self.find_target_archetype(
            EntityComponentMutation::Removal(entity, component_types.as_slice()),
        ) {
            Ok(found) => found,
            Err(error) => {
                return Err(error);
            },
        };
        proof {
            let dom = old(self)@[entity].dom();
            lemma_removal_failures_empty(dom, component_types@);
            self.lemma_matching_archetype(target_type_ids@.to_set());
            assert(component_types@.to_set().contains(component_types@[0]));
            assert(target_type_ids@.to_set() != dom) by {
                assert(!target_type_ids@.to_set().contains(component_types@[0]));
            }
        }
        let target_archetype_index = match target_archetype_exists {
            Some(i) => i,
            None => {
                proof {
                    if target_type_ids@.len() == 0 {
                        assert(target_type_ids@.to_set() =~= Set::<TypeId>::empty());
                    }
                }
                self.create_archetype(target_type_ids)
            },
        };
        proof {
            let dom = old(self)@[entity].dom();
            assert(self@ == old(self)@);
            self.lemma_entity_types(entity);
            assert(row_types(Seq::<(TypeId, C)>::empty()).to_set() =~= Set::<TypeId>::empty());
            assert(dom.difference(component_types@.to_set()).union(Set::<TypeId>::empty()) =~= dom.difference(component_types@.to_set()));
        }
        self.move_entity_components_between_archetypes(
            entity,
            target_archetype_index,
            component_types.as_slice(),
            Vec::new(),
        );
        proof {
            assert(row_map(Seq::<(TypeId, C)>::empty()) =~= Map::<TypeId, C>::empty());
            assert(old(self)@[entity].remove_keys(component_types@.to_set()).union_prefer_right(Map::<TypeId, C>::empty()) =~= old(self)@[entity].remove_keys(component_types@.to_set()));
        }
        Ok(())
    }

    /// Removes a component type from a given entity.
    pub fn remove_component_type_from_entity(&mut self, entity: Entity, component_type: TypeId) -> (r:
        WorldResult<()>)
        requires
            old(self).wf(),
        ensures
            final(self).wf(),
            match r {
                Ok(()) => {
                    &&& old(self)@.contains_key(entity)
                    &&& old(self)@[entity].contains_key(component_type)
                    &&& final(self)@ == old(self)@.insert(
                        entity,
                        old(self)@[entity].remove(component_type),
                    )
                    &&& final(self).archetype_index_of(entity) == match old(self).matching_archetype(old(self)@[entity].dom().remove(component_type)) {
                        Some(i) => i,
                        None => old(self).archetype_count() as ArchetypeIndex,
                    }
                    &&& final(self).archetype_count() == old(self).archetype_count() + if old(self).matching_archetype(old(self)@[entity].dom().remove(component_type)) is None { 1int } else { 0int }
                    &&& final(self).entity_list() == old(self).entity_list()
                    &&& forall|e: Entity| e != entity && #[trigger] old(self)@.contains_key(e) ==> final(self).archetype_index_of(e) == old(self).archetype_index_of(e)
                    &&& old(self).entity_moved(*final(self), entity, final(self).archetype_index_of(entity) as int)
                },
                Err(WorldError::EntityDoesNotExist(e)) => e == entity && !old(self)@.contains_key(entity),
                Err(WorldError::ComponentMutationFailed(errors)) => {
                    &&& old(self)@.contains_key(entity)
                    &&& !old(self)@[entity].contains_key(component_type)
                    &&& errors@ == seq![WorldError::ComponentTypeNotPresentForEntity(entity, component_type)]
                },
                Err(_) => false,
            },
            r is Err ==> *final(self) == *old(self),
    {
        let types = vec![component_type];
        let ghost ts = types@;
        proof {
            assert(ts =~= seq![component_type]);
            assert(types@.to_set() =~= set![component_type]) by {
                assert(types@[0] == component_type);
            }
            assert(types@.drop_last() =~= Seq::<TypeId>::empty());
            assert(removal_failures(Set::<TypeId>::empty(), Seq::<TypeId>::empty()) =~= Seq::<TypeId>::empty());
        }
        let r = self.remove_component_types_from_entity(entity, types);
        proof {
            if old(self)@.contains_key(entity) {
                let dom = old(self)@[entity].dom();
                assert(dom.remove(component_type) =~= dom.difference(set![component_type]));
                assert(old(self)@[entity].remove_keys(set![component_type]) =~= old(self)@[entity].remove(component_type));
                assert(removal_failures(dom, seq![component_type]) =~= if dom.contains(component_type) { Seq::<TypeId>::empty() } else { seq![component_type] }) by {
                    assert(seq![component_type].drop_last() =~= Seq::<TypeId>::empty());
                    assert(removal_failures(dom, Seq::<TypeId>::empty()) =~= Seq::<TypeId>::empty());
                    assert(seq![component_type].last() == component_type);
                    assert(!Seq::<TypeId>::empty().contains(component_type));
                }
            }
        }
        r
    }
}

} // verus!
