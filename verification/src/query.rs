//! Iteration of a system parameter over the queried archetypes: a cursor walks the borrowed
//! component vectors archetype by archetype, handing out one component per entity.
use crate::archetypes::{col_index, Archetype};
use crate::world::World;
use crate::{ArchetypeIndex, ComponentIndex, Entity, SystemParameterError, WorldError};
use std::any::TypeId;
use vstd::prelude::*;

verus! {

/// The index of an archetype among the borrowed ones.
pub type BorrowedArchetypeIndex = usize;

/// What a cursor will still hand out from archetype `a` on, when each borrowed archetype is
/// at the position stored with it: the rest of each component vector, up to the first
/// archetype whose vector could not be borrowed.
pub open spec fn remaining_from<T>(archetypes: Seq<(ComponentIndex, Option<&Vec<T>>)>, a: int) -> Seq<
    T,
>
    decreases archetypes.len() - a,
{
    if a < 0 || a >= archetypes.len() {
        seq![]
    } else {
        match archetypes[a].1 {
            None => seq![],
            Some(v) => {
                let index = archetypes[a].0 as int;
                (if index < v@.len() {
                    v@.subrange(index, v@.len() as int)
                } else {
                    seq![]
                }) + remaining_from(archetypes, a + 1)
            },
        }
    }
}

/// A cursor over the components of one type in a list of borrowed archetypes.
#[derive(Debug)]
pub struct ComponentCursor<'a, T> {
    current_archetype: BorrowedArchetypeIndex,
    archetypes: Vec<(ComponentIndex, Option<&'a Vec<T>>)>,
}

impl<'a, T> ComponentCursor<'a, T> {
    /// The components the cursor will still hand out, in order.
    pub closed spec fn remaining(&self) -> Seq<T> {
        remaining_from(self.archetypes@, self.current_archetype as int)
    }

    /// The borrowed archetype the cursor is in.
    pub closed spec fn current(&self) -> int {
        self.current_archetype as int
    }

    /// The borrowed archetypes, each with the position the cursor is at in it.
    pub closed spec fn borrowed(&self) -> Seq<(ComponentIndex, Option<&'a Vec<T>>)> {
        self.archetypes@
    }

    /// A cursor at the start of the given component vectors, one per archetype; `None` for an
    /// archetype whose vector could not be borrowed.
    pub fn new(component_vecs: Vec<Option<&'a Vec<T>>>) -> (r: Self)
        ensures
            r.current() == 0,
            r.borrowed() == component_vecs@.map_values(|v: Option<&'a Vec<T>>| (0usize, v)),
            r.remaining() == remaining_from(r.borrowed(), 0),
    {
        let mut archetypes: Vec<(ComponentIndex, Option<&'a Vec<T>>)> = Vec::new();
        let mut i: usize = 0;
        while i < component_vecs.len()
            invariant
                i <= component_vecs@.len(),
                archetypes@ == component_vecs@.take(i as int).map_values(
                    |v: Option<&'a Vec<T>>| (0usize, v),
                ),
            decreases component_vecs@.len() - i,
        {
            archetypes.push((0, component_vecs[i]));
            proof {
                assert(archetypes@ =~= component_vecs@.take(i + 1).map_values(
                    |v: Option<&'a Vec<T>>| (0usize, v),
                ));
            }
            i = i + 1;
        }
        proof {
            assert(component_vecs@.take(component_vecs@.len() as int) == component_vecs@);
        }
        ComponentCursor { current_archetype: 0, archetypes }
    }

    /// Fetches the next component: the one at the current position of the current archetype,
    /// or, at the end of that archetype, the first of the next ones. `None` when nothing is
    /// left.
    pub fn fetch_parameter(&mut self) -> (r: Option<&'a T>)
        ensures
            match r {
                Some(x) => old(self).remaining().len() > 0 && *x == old(self).remaining()[0]
                    && final(self).remaining() == old(self).remaining().drop_first(),
                None => old(self).remaining().len() == 0 && final(self).remaining().len() == 0,
            },
    {
        loop
            invariant
                self.remaining() == old(self).remaining(),
            decreases self.archetypes@.len() - self.current_archetype,
        {
            if self.current_archetype >= self.archetypes.len() {
                return None;
            }
            let (component_index, component_vec) = self.archetypes[self.current_archetype];
            match component_vec {
                None => {
                    return None;
                },
                Some(v) => {
                    if component_index < v.len() {
                        let ghost before = self.archetypes@;
                        let ghost a = self.current_archetype as int;
                        self.archetypes.set(self.current_archetype, (component_index + 1, Some(v)));
                        proof {
                            lemma_remaining_after(before, self.archetypes@, a + 1);
                            let rest = remaining_from(before, a + 1);
                            assert(v@.subrange(component_index as int, v@.len() as int)
                                =~= seq![v@[component_index as int]] + v@.subrange(
                                component_index + 1,
                                v@.len() as int,
                            ));
                            if component_index + 1 < v@.len() {
                                assert(remaining_from(self.archetypes@, a) =~= v@.subrange(
                                    component_index + 1,
                                    v@.len() as int,
                                ) + rest);
                            } else {
                                assert(remaining_from(self.archetypes@, a) =~= rest);
                            }
                            assert(remaining_from(before, a) =~= seq![v@[component_index as int]]
                                + remaining_from(self.archetypes@, a));
                        }
                        return Some(&v[component_index]);
                    }
                    self.current_archetype = self.current_archetype + 1;
                },
            }
        }
    }

    /// Moves the cursor to position `component_index` of the borrowed archetype
    /// `borrowed_archetype_index`.
    pub fn set_archetype_and_component_index(
        &mut self,
        borrowed_archetype_index: BorrowedArchetypeIndex,
        component_index: ComponentIndex,
    )
        ensures
            final(self).current() == borrowed_archetype_index,
            borrowed_archetype_index < old(self).borrowed().len() ==> final(self).borrowed() == old(self).borrowed().update(
                borrowed_archetype_index as int,
                (component_index, old(self).borrowed()[borrowed_archetype_index as int].1),
            ),
            borrowed_archetype_index >= old(self).borrowed().len() ==> final(self).borrowed() == old(self).borrowed(),
            final(self).remaining() == remaining_from(final(self).borrowed(), final(self).current()),
    {
        self.current_archetype = borrowed_archetype_index;
        if borrowed_archetype_index < self.archetypes.len() {
            let (_, component_vec) = self.archetypes[borrowed_archetype_index];
            self.archetypes.set(borrowed_archetype_index, (component_index, component_vec));
        }
    }
}

/// Whether `i` is the first of `indices` that names no archetype of `world`.
pub open spec fn first_missing_archetype<C>(
    world: World<C>,
    indices: Seq<ArchetypeIndex>,
    i: ArchetypeIndex,
) -> bool {
    exists|k: int|
        0 <= k < indices.len() && indices[k] == i && i >= world.archetype_count() && forall|j: int|
            0 <= j < k ==> #[trigger] indices[j] < world.archetype_count()
}

/// Whether `v` is what borrowing the component vector of type `t` of archetype `a` gives: its
/// components, or `None` when the archetype does not store that type.
pub open spec fn borrowed_vec_of<C>(world: World<C>, a: ArchetypeIndex, t: TypeId, v: Option<&Vec<C>>) -> bool {
    a < world.archetype_count() && {
        let arch = world.archetype_at(a as int);
        match v {
            Some(c) => arch.types().contains(t) && c@ == arch.columns()[col_index(arch.types(), t)],
            None => !arch.types().contains(t),
        }
    }
}

/// Whether `v` is the entity list of archetype `a`.
pub open spec fn borrowed_entities_of<C>(world: World<C>, a: ArchetypeIndex, v: Option<&Vec<Entity>>) -> bool {
    a < world.archetype_count() && match v {
        Some(x) => x@ == world.archetype_at(a as int).entity_seq(),
        None => false,
    }
}

/// A read-only access to a component of the given type.
#[derive(Debug)]
pub struct Read<'a, Component> {
    pub output: &'a Component,
}

impl<'a, Component> Read<'a, Component> {
    /// Borrows the component vectors of type `component_type` of the archetypes at
    /// `archetypes`, in order, with a cursor at the start of the first.
    pub fn borrow(
        world: &'a World<Component>,
        archetypes: &[ArchetypeIndex],
        component_type: TypeId,
    ) -> (r: Result<ComponentCursor<'a, Component>, SystemParameterError>)
        requires
            world.wf(),
        ensures
            match r {
                Ok(c) => c.current() == 0 && c.borrowed().len() == archetypes@.len()
                    && c.remaining() == remaining_from(c.borrowed(), 0) && forall|i: int|
                    0 <= i < archetypes@.len() ==> (#[trigger] c.borrowed()[i]).0 == 0
                        && borrowed_vec_of(*world, archetypes@[i], component_type, c.borrowed()[i].1),
                Err(SystemParameterError::BorrowComponentVecs(WorldError::ArchetypeDoesNotExist(i))) =>
                    first_missing_archetype(*world, archetypes@, i),
                Err(_) => false,
            },
    {
        match world.borrow_component_vecs(archetypes, component_type) {
            Ok(component_vecs) => {
                let cursor = ComponentCursor::new(component_vecs);
                assert forall|i: int| 0 <= i < archetypes@.len() implies (#[trigger] cursor.borrowed()[i]).0 == 0
                    && borrowed_vec_of(*world, archetypes@[i], component_type, cursor.borrowed()[i].1) by {
                    assert(cursor.borrowed()[i] == (0usize, component_vecs@[i]));
                }
                Ok(cursor)
            },
            Err(e) => Err(SystemParameterError::BorrowComponentVecs(e)),
        }
    }

    /// Moves the cursor to position `component_index` of the borrowed archetype
    /// `borrowed_archetype_index`, as the cursor's own method does.
    pub fn set_archetype_and_component_index(
        borrowed: &mut ComponentCursor<'a, Component>,
        borrowed_archetype_index: BorrowedArchetypeIndex,
        component_index: ComponentIndex,
    )
        ensures
            final(borrowed).current() == borrowed_archetype_index,
            borrowed_archetype_index < old(borrowed).borrowed().len() ==> final(borrowed).borrowed() == old(borrowed).borrowed().update(
                borrowed_archetype_index as int,
                (component_index, old(borrowed).borrowed()[borrowed_archetype_index as int].1),
            ),
            borrowed_archetype_index >= old(borrowed).borrowed().len() ==> final(borrowed).borrowed() == old(borrowed).borrowed(),
            final(borrowed).remaining() == remaining_from(final(borrowed).borrowed(), final(borrowed).current()),
    {
        borrowed.set_archetype_and_component_index(borrowed_archetype_index, component_index);
    }

    /// Fetches the next component from the borrowed component vectors, as `fetch_parameter`
    /// of the cursor does.
    pub fn fetch_parameter(borrowed: &mut ComponentCursor<'a, Component>) -> (r: Option<Self>)
        ensures
            match r {
                Some(x) => old(borrowed).remaining().len() > 0 && *x.output == old(borrowed).remaining()[0] && final(borrowed).remaining() == old(borrowed).remaining().drop_first(),
                None => old(borrowed).remaining().len() == 0 && final(borrowed).remaining().len() == 0,
            },
            fetched(
                old(borrowed).remaining(),
                final(borrowed).remaining(),
                match r {
                    Some(x) => Some(*x.output),
                    None => None,
                },
            ),
    {
        match borrowed.fetch_parameter() {
            Some(output) => Some(Read { output }),
            None => None,
        }
    }
}

/// Whether `archetype`, when present, names an archetype of `world`.
pub open spec fn archetype_exists<C>(world: World<C>, archetype: Option<ArchetypeIndex>) -> bool {
    match archetype {
        Some(ai) => ai < world.archetype_count(),
        None => true,
    }
}

/// Whether `archetype`, when present, names an archetype of `world` that stores type `t`.
pub open spec fn stores_type<C>(world: World<C>, archetype: Option<ArchetypeIndex>, t: TypeId) -> bool {
    match archetype {
        Some(ai) => ai < world.archetype_count() && world.archetype_at(ai as int).types().contains(t),
        None => true,
    }
}

/// The positions, as pairs of an archetype index and a component index, that a write cursor
/// will still visit from borrowed archetype `a` on: the rest of each archetype's entities, up
/// to the first archetype that does not store the component type.
pub open spec fn slots_from<C>(
    world: World<C>,
    archetypes: Seq<(ComponentIndex, Option<ArchetypeIndex>)>,
    a: int,
) -> Seq<(ArchetypeIndex, int)>
    decreases archetypes.len() - a,
{
    if a < 0 || a >= archetypes.len() {
        seq![]
    } else {
        match archetypes[a].1 {
            None => seq![],
            Some(ai) => {
                let len = world.archetype_at(ai as int).entity_seq().len() as int;
                let index = archetypes[a].0 as int;
                (if index < len {
                    Seq::new((len - index) as nat, |j: int| (ai, index + j))
                } else {
                    seq![]
                }) + slots_from(world, archetypes, a + 1)
            },
        }
    }
}

/// Worlds of the same shape give a cursor the same positions to visit.
pub proof fn lemma_slots_from_shape<C>(
    w1: World<C>,
    w2: World<C>,
    archetypes: Seq<(ComponentIndex, Option<ArchetypeIndex>)>,
    a: int,
)
    requires
        w1.shape_unchanged(w2),
        forall|i: int|
            0 <= i < archetypes.len() ==> archetype_exists(w2, (#[trigger] archetypes[i]).1),
    ensures
        slots_from(w1, archetypes, a) == slots_from(w2, archetypes, a),
    decreases archetypes.len() - a,
{
    if 0 <= a < archetypes.len() {
        lemma_slots_from_shape(w1, w2, archetypes, a + 1);
        if let Some(ai) = archetypes[a].1 {
            assert(w1.archetype_at(ai as int).entity_seq() == w2.archetype_at(ai as int).entity_seq());
        }
    }
}

/// Changing only archetypes before `a` leaves the positions from `a` on unchanged.
proof fn lemma_slots_after<C>(
    world: World<C>,
    before: Seq<(ComponentIndex, Option<ArchetypeIndex>)>,
    after: Seq<(ComponentIndex, Option<ArchetypeIndex>)>,
    a: int,
)
    requires
        before.len() == after.len(),
        0 <= a,
        forall|i: int| a <= i < before.len() ==> before[i] == after[i],
    ensures
        slots_from(world, before, a) == slots_from(world, after, a),
    decreases before.len() - a,
{
    if a < before.len() {
        lemma_slots_after(world, before, after, a + 1);
    }
}

/// A cursor over the components of one type in a list of archetypes of a world, handing out
/// mutable access to one component at a time. It keeps positions only; the world is handed
/// to each fetch.
#[derive(Debug)]
pub struct WriteCursor {
    current_archetype: BorrowedArchetypeIndex,
    archetypes: Vec<(ComponentIndex, Option<ArchetypeIndex>)>,
    component_type: TypeId,
}

impl WriteCursor {
    /// The borrowed archetype the cursor is in.
    pub closed spec fn current(&self) -> int {
        self.current_archetype as int
    }

    /// The borrowed archetypes, each with the position the cursor is at in it, and `None` for
    /// one that does not store the component type.
    pub closed spec fn borrowed(&self) -> Seq<(ComponentIndex, Option<ArchetypeIndex>)> {
        self.archetypes@
    }

    /// The component type the cursor hands out.
    pub closed spec fn component_type(&self) -> TypeId {
        self.component_type
    }

    /// The positions the cursor will still visit in `world`, in order.
    pub closed spec fn slots<C>(&self, world: World<C>) -> Seq<(ArchetypeIndex, int)> {
        slots_from(world, self.archetypes@, self.current_archetype as int)
    }

    /// Whether the borrowed archetypes exist in `world` and store the component type.
    pub open spec fn valid_for<C>(&self, world: World<C>) -> bool {
        forall|i: int|
            0 <= i < self.borrowed().len() ==> stores_type(
                world,
                (#[trigger] self.borrowed()[i]).1,
                self.component_type(),
            )
    }

    /// A cursor at the start of the given archetypes; `None` for one that does not store
    /// `component_type`.
    pub fn new(archetypes: Vec<Option<ArchetypeIndex>>, component_type: TypeId) -> (r: Self)
        ensures
            r.current() == 0,
            r.component_type() == component_type,
            r.borrowed() == archetypes@.map_values(|a: Option<ArchetypeIndex>| (0usize, a)),
    {
        let mut borrowed: Vec<(ComponentIndex, Option<ArchetypeIndex>)> = Vec::new();
        let mut i: usize = 0;
        while i < archetypes.len()
            invariant
                i <= archetypes@.len(),
                borrowed@ == archetypes@.take(i as int).map_values(
                    |a: Option<ArchetypeIndex>| (0usize, a),
                ),
            decreases archetypes@.len() - i,
        {
            borrowed.push((0, archetypes[i]));
            proof {
                assert(borrowed@ =~= archetypes@.take(i + 1).map_values(
                    |a: Option<ArchetypeIndex>| (0usize, a),
                ));
            }
            i = i + 1;
        }
        proof {
            assert(archetypes@.take(archetypes@.len() as int) == archetypes@);
        }
        WriteCursor { current_archetype: 0, archetypes: borrowed, component_type }
    }

    /// Fetches mutable access to the next component: the one at the current position of the
    /// current archetype, or, at the end of that archetype, the first of the next ones. `None`
    /// when nothing is left. What is written through it replaces that component in `world`.
    pub fn fetch_parameter<'w, C>(&mut self, world: &'w mut World<C>) -> (r: Option<&'w mut C>)
        requires
            old(world).wf(),
            old(self).valid_for(*old(world)),
        ensures
            final(self).component_type() == old(self).component_type(),
            final(self).borrowed().len() == old(self).borrowed().len(),
            final(self).valid_for(*old(world)),
            match r {
                Some(c) => {
                    let slot = old(self).slots(*old(world))[0];
                    let arch = old(world).archetype_at(slot.0 as int);
                    let t = old(self).component_type();
                    let e = arch.entity_seq()[slot.1];
                    &&& old(self).slots(*old(world)).len() > 0
                    &&& *c == arch.columns()[col_index(arch.types(), t)][slot.1]
                    &&& final(self).slots(*old(world)) == old(self).slots(*old(world)).drop_first()
                    &&& final(world).wf()
                    &&& old(world)@.contains_key(e)
                    &&& final(world)@ == old(world)@.insert(e, old(world)@[e].insert(t, *final(c)))
                    &&& final(world).shape_unchanged(*old(world))
                },
                None => old(self).slots(*old(world)).len() == 0 && *final(world) == *old(world)
                    && final(self).slots(*old(world)) == old(self).slots(*old(world)),
            },
    {
        loop
            invariant
                *world == *old(world),
                world.wf(),
                self.component_type == old(self).component_type,
                self.archetypes@.len() == old(self).archetypes@.len(),
                self.valid_for(*world),
                self.slots(*world) == old(self).slots(*world),
            decreases self.archetypes@.len() - self.current_archetype,
        {
            if self.current_archetype >= self.archetypes.len() {
                return None;
            }
            let (component_index, archetype) = self.archetypes[self.current_archetype];
            match archetype {
                None => {
                    return None;
                },
                Some(archetype_index) => {
                    let len = match world.get_archetype(archetype_index) {
                        Ok(found) => found.entities().len(),
                        Err(_) => {
                            return None;
                        },
                    };
                    if component_index < len {
                        let ghost before = self.archetypes@;
                        let ghost a = self.current_archetype as int;
                        let ghost w = *world;
                        let ghost t0 = self.component_type;
                        assert forall|i: int| 0 <= i < before.len() implies stores_type(
                            w,
                            #[trigger] before[i].1,
                            t0,
                        ) by {
                            assert(self.borrowed()[i] == before[i]);
                        }
                        self.archetypes.set(
                            self.current_archetype,
                            (component_index + 1, Some(archetype_index)),
                        );
                        proof {
                            lemma_slots_after(w, before, self.archetypes@, a + 1);
                            let rest = slots_from(w, before, a + 1);
                            let l = len as int;
                            let ci = component_index as int;
                            assert(Seq::new((l - ci) as nat, |j: int| (archetype_index, ci + j))
                                =~= seq![(archetype_index, ci)] + Seq::new(
                                (l - (ci + 1)) as nat,
                                |j: int| (archetype_index, ci + 1 + j),
                            ));
                            if ci + 1 < l {
                                assert(slots_from(w, self.archetypes@, a) =~= Seq::new(
                                    (l - (ci + 1)) as nat,
                                    |j: int| (archetype_index, ci + 1 + j),
                                ) + rest);
                            } else {
                                assert(slots_from(w, self.archetypes@, a) =~= rest);
                            }
                            assert(slots_from(w, before, a) =~= seq![(archetype_index, ci)]
                                + slots_from(w, self.archetypes@, a));
                            assert forall|i: int| 0 <= i < self.borrowed().len() implies stores_type(
                                w,
                                (#[trigger] self.borrowed()[i]).1,
                                self.component_type(),
                            ) by {
                                assert(self.borrowed()[i].1 == before[i].1);
                            }
                        }
                        let t = self.component_type;
                        return world.get_component_mut(archetype_index, &t, component_index);
                    }
                    let ghost prev = *self;
                    self.current_archetype = self.current_archetype + 1;
                    assert forall|i: int| 0 <= i < self.borrowed().len() implies stores_type(
                        *world,
                        (#[trigger] self.borrowed()[i]).1,
                        self.component_type(),
                    ) by {
                        assert(prev.borrowed()[i] == self.borrowed()[i]);
                    }
                },
            }
        }
    }

    /// Moves the cursor to position `component_index` of the borrowed archetype
    /// `borrowed_archetype_index`.
    pub fn set_archetype_and_component_index(
        &mut self,
        borrowed_archetype_index: BorrowedArchetypeIndex,
        component_index: ComponentIndex,
    )
        ensures
            final(self).current() == borrowed_archetype_index,
            final(self).component_type() == old(self).component_type(),
            borrowed_archetype_index < old(self).borrowed().len() ==> final(self).borrowed() == old(self).borrowed().update(
                borrowed_archetype_index as int,
                (component_index, old(self).borrowed()[borrowed_archetype_index as int].1),
            ),
            borrowed_archetype_index >= old(self).borrowed().len() ==> final(self).borrowed() == old(self).borrowed(),
    {
        self.current_archetype = borrowed_archetype_index;
        if borrowed_archetype_index < self.archetypes.len() {
            let (_, archetype) = self.archetypes[borrowed_archetype_index];
            self.archetypes.set(borrowed_archetype_index, (component_index, archetype));
        }
    }
}

/// A mutable access to a component of the given type.
#[derive(Debug)]
pub struct Write<'a, Component> {
    pub output: &'a mut Component,
}

impl<'a, Component> Write<'a, Component> {
    /// Borrows, for writing, the components of type `component_type` of the archetypes at
    /// `archetypes`, in order, with a cursor at the start of the first; an archetype that does
    /// not store the type ends what the cursor visits.
    pub fn borrow(
        world: &World<Component>,
        archetypes: &[ArchetypeIndex],
        component_type: TypeId,
    ) -> (r: Result<WriteCursor, SystemParameterError>)
        ensures
            match r {
                Ok(c) => {
                    &&& c.current() == 0
                    &&& c.component_type() == component_type
                    &&& c.borrowed().len() == archetypes@.len()
                    &&& c.valid_for(*world)
                    &&& forall|i: int|
                        0 <= i < archetypes@.len() ==> archetypes@[i] < world.archetype_count()
                            && #[trigger] c.borrowed()[i] == (
                            0usize,
                            if world.archetype_at(archetypes@[i] as int).types().contains(
                                component_type,
                            ) {
                                Some(archetypes@[i])
                            } else {
                                None
                            },
                        )
                },
                Err(SystemParameterError::BorrowComponentVecs(WorldError::ArchetypeDoesNotExist(i))) =>
                    first_missing_archetype(*world, archetypes@, i),
                Err(_) => false,
            },
    {
        let res = world.get_archetypes(archetypes);
        let found = match res {
            Ok(found) => found,
            Err(e) => {
                return Err(SystemParameterError::BorrowComponentVecs(e));
            },
        };
        assert forall|i: int| 0 <= i < found@.len() implies #[trigger] archetypes@[i] < world.archetype_count() by {
            assert(*found@[i] == world.archetype_at(archetypes@[i] as int));
        }
        let mut storing: Vec<Option<ArchetypeIndex>> = Vec::new();
        let mut k: usize = 0;
        while k < found.len()
            invariant
                found@.len() == archetypes@.len(),
                forall|i: int|
                    0 <= i < found@.len() ==> #[trigger] archetypes@[i] < world.archetype_count(),
                forall|i: int|
                    0 <= i < found@.len() ==> *#[trigger] found@[i] == world.archetype_at(archetypes@[i] as int),
                k <= found@.len(),
                storing@.len() == k,
                forall|i: int|
                    0 <= i < k ==> #[trigger] storing@[i] == if world.archetype_at(
                        archetypes@[i] as int,
                    ).types().contains(component_type) {
                        Some(archetypes@[i])
                    } else {
                        None
                    },
            decreases found@.len() - k,
        {
            if found[k].contains_component_type_id(&component_type) {
                storing.push(Some(archetypes[k]));
            } else {
                storing.push(None);
            }
            k = k + 1;
        }
        let cursor = WriteCursor::new(storing, component_type);
        assert forall|i: int| 0 <= i < archetypes@.len() implies archetypes@[i] < world.archetype_count()
            && #[trigger] cursor.borrowed()[i] == (
            0usize,
            if world.archetype_at(archetypes@[i] as int).types().contains(component_type) {
                Some(archetypes@[i])
            } else {
                None
            },
        ) by {
            assert(cursor.borrowed()[i] == (0usize, storing@[i]));
        }
        assert forall|i: int| 0 <= i < cursor.borrowed().len() implies stores_type(
            *world,
            (#[trigger] cursor.borrowed()[i]).1,
            component_type,
        ) by {
            assert(cursor.borrowed()[i] == (0usize, storing@[i]));
        }
        Ok(cursor)
    }

    /// Fetches mutable access to the next component, as `fetch_parameter` of the cursor does;
    /// what is written through it replaces that component in `world`.
    pub fn fetch_parameter(borrowed: &mut WriteCursor, world: &'a mut World<Component>) -> (r: Option<
        Self,
    >)
        requires
            old(world).wf(),
            old(borrowed).valid_for(*old(world)),
        ensures
            final(borrowed).component_type() == old(borrowed).component_type(),
            final(borrowed).borrowed().len() == old(borrowed).borrowed().len(),
            final(borrowed).valid_for(*old(world)),
            match r {
                Some(w) => {
                    let slot = old(borrowed).slots(*old(world))[0];
                    let arch = old(world).archetype_at(slot.0 as int);
                    let t = old(borrowed).component_type();
                    let e = arch.entity_seq()[slot.1];
                    &&& old(borrowed).slots(*old(world)).len() > 0
                    &&& *w.output == arch.columns()[col_index(arch.types(), t)][slot.1]
                    &&& final(borrowed).slots(*old(world)) == old(borrowed).slots(
                        *old(world),
                    ).drop_first()
                    &&& final(world).wf()
                    &&& old(world)@.contains_key(e)
                    &&& final(world)@ == old(world)@.insert(
                        e,
                        old(world)@[e].insert(t, *final(w.output)),
                    )
                    &&& final(world).shape_unchanged(*old(world))
                },
                None => old(borrowed).slots(*old(world)).len() == 0 && *final(world) == *old(world)
                    && final(borrowed).slots(*old(world)) == old(borrowed).slots(*old(world)),
            },
    {
        match borrowed.fetch_parameter(world) {
            Some(output) => Some(Write { output }),
            None => None,
        }
    }

    /// Moves the cursor to position `component_index` of the borrowed archetype
    /// `borrowed_archetype_index`, as the cursor's own method does.
    pub fn set_archetype_and_component_index(
        borrowed: &mut WriteCursor,
        borrowed_archetype_index: BorrowedArchetypeIndex,
        component_index: ComponentIndex,
    )
        ensures
            final(borrowed).current() == borrowed_archetype_index,
            final(borrowed).component_type() == old(borrowed).component_type(),
            borrowed_archetype_index < old(borrowed).borrowed().len() ==> final(borrowed).borrowed() == old(borrowed).borrowed().update(
                borrowed_archetype_index as int,
                (component_index, old(borrowed).borrowed()[borrowed_archetype_index as int].1),
            ),
            borrowed_archetype_index >= old(borrowed).borrowed().len() ==> final(borrowed).borrowed() == old(borrowed).borrowed(),
    {
        borrowed.set_archetype_and_component_index(borrowed_archetype_index, component_index);
    }
}

impl Entity {
    /// Borrows the entity lists of the archetypes at `archetypes`, in order, with a cursor at
    /// the start of the first.
    pub fn borrow<'a, C>(world: &'a World<C>, archetypes: &[ArchetypeIndex]) -> (r: Result<
        ComponentCursor<'a, Entity>,
        SystemParameterError,
    >)
        ensures
            match r {
                Ok(c) => c.current() == 0 && c.borrowed().len() == archetypes@.len()
                    && c.remaining() == remaining_from(c.borrowed(), 0) && forall|i: int|
                    0 <= i < archetypes@.len() ==> (#[trigger] c.borrowed()[i]).0 == 0
                        && borrowed_entities_of(*world, archetypes@[i], c.borrowed()[i].1),
                Err(SystemParameterError::BorrowComponentVecs(WorldError::ArchetypeDoesNotExist(i))) =>
                    first_missing_archetype(*world, archetypes@, i),
                Err(_) => false,
            },
    {
        let res = world.get_archetypes(archetypes);
        let found = match res {
            Ok(found) => found,
            Err(e) => {
                return Err(SystemParameterError::BorrowComponentVecs(e));
            },
        };
        assert forall|i: int| 0 <= i < found@.len() implies #[trigger] archetypes@[i] < world.archetype_count() by {
            assert(*found@[i] == world.archetype_at(archetypes@[i] as int));
        }
        let mut entity_vecs: Vec<Option<&'a Vec<Entity>>> = Vec::new();
        let mut k: usize = 0;
        while k < found.len()
            invariant
                found@.len() == archetypes@.len(),
                forall|i: int|
                    0 <= i < found@.len() ==> #[trigger] archetypes@[i] < world.archetype_count(),
                forall|i: int|
                    0 <= i < found@.len() ==> *#[trigger] found@[i] == world.archetype_at(archetypes@[i] as int),
                k <= found@.len(),
                entity_vecs@.len() == k,
                forall|i: int|
                    0 <= i < k ==> borrowed_entities_of(*world, archetypes@[i], #[trigger] entity_vecs@[i]),
            decreases found@.len() - k,
        {
            entity_vecs.push(Some(found[k].entities()));
            k = k + 1;
        }
        let cursor = ComponentCursor::new(entity_vecs);
        assert forall|i: int| 0 <= i < archetypes@.len() implies (#[trigger] cursor.borrowed()[i]).0 == 0
            && borrowed_entities_of(*world, archetypes@[i], cursor.borrowed()[i].1) by {
            assert(cursor.borrowed()[i] == (0usize, entity_vecs@[i]));
            assert(*found@[i] == world.archetype_at(archetypes@[i] as int));
        }
        Ok(cursor)
    }

    /// Fetches the next entity: the one at the current position of the current archetype, or,
    /// at the end of that archetype, the first of the next ones. `None` when nothing is left.
    pub fn fetch_parameter(borrowed: &mut ComponentCursor<'_, Entity>) -> (r: Option<Entity>)
        ensures
            match r {
                Some(e) => old(borrowed).remaining().len() > 0 && e == old(borrowed).remaining()[0]
                    && final(borrowed).remaining() == old(borrowed).remaining().drop_first(),
                None => old(borrowed).remaining().len() == 0 && final(borrowed).remaining().len() == 0,
            },
    {
        match borrowed.fetch_parameter() {
            Some(entity) => Some(*entity),
            None => None,
        }
    }

    /// Moves the cursor to position `component_index` of the borrowed archetype
    /// `borrowed_archetype_index`, as the cursor's own method does.
    pub fn set_archetype_and_component_index(
        borrowed: &mut ComponentCursor<'_, Entity>,
        borrowed_archetype_index: BorrowedArchetypeIndex,
        component_index: ComponentIndex,
    )
        ensures
            final(borrowed).current() == borrowed_archetype_index,
            borrowed_archetype_index < old(borrowed).borrowed().len() ==> final(borrowed).borrowed() == old(borrowed).borrowed().update(
                borrowed_archetype_index as int,
                (component_index, old(borrowed).borrowed()[borrowed_archetype_index as int].1),
            ),
            borrowed_archetype_index >= old(borrowed).borrowed().len() ==> final(borrowed).borrowed() == old(borrowed).borrowed(),
            final(borrowed).remaining() == remaining_from(final(borrowed).borrowed(), final(borrowed).current()),
    {
        borrowed.set_archetype_and_component_index(borrowed_archetype_index, component_index);
    }
}

/// One fetch from a cursor that would still hand out `before` and afterwards hands out
/// `after`: it gives the first of `before` and drops it, or `None` when `before` is empty.
pub open spec fn fetched<T>(before: Seq<T>, after: Seq<T>, out: Option<T>) -> bool {
    match out {
        Some(x) => before.len() > 0 && x == before[0] && after == before.drop_first(),
        None => before.len() == 0 && after.len() == 0,
    }
}

/// After `k` fetches from what would hand out `states[0]`, what is left is the rest of it.
proof fn lemma_fetched_rest<T>(states: Seq<Seq<T>>, outs: Seq<Option<T>>, k: int)
    requires
        states.len() == outs.len() + 1,
        forall|i: int| 0 <= i < outs.len() ==> #[trigger] fetched(states[i], states[i + 1], outs[i]),
        0 <= k < states.len(),
    ensures
        states[k] == if k <= states[0].len() {
            states[0].skip(k)
        } else {
            Seq::<T>::empty()
        },
    decreases k,
{
    if k == 0 {
        assert(states[0].skip(0) == states[0]);
    } else {
        lemma_fetched_rest(states, outs, k - 1);
        let i = k - 1;
        assert(fetched(states[i], states[i + 1], outs[i]));
        assert(states[i + 1] == states[k]);
        if k <= states[0].len() {
            assert(states[0].skip(k - 1).drop_first() == states[0].skip(k));
        }
    }
}

/// Fetch after fetch, a cursor hands out what it holds in order: the `k`-th call returns the
/// `k`-th component it held at the start, and once those are all handed out every call
/// returns `None`.
pub proof fn lemma_fetches_in_order<T>(states: Seq<Seq<T>>, outs: Seq<Option<T>>)
    requires
        states.len() == outs.len() + 1,
        forall|i: int| 0 <= i < outs.len() ==> #[trigger] fetched(states[i], states[i + 1], outs[i]),
    ensures
        forall|k: int|
            0 <= k < outs.len() ==> #[trigger] outs[k] == if k < states[0].len() {
                Some(states[0][k])
            } else {
                None
            },
{
    assert forall|k: int| 0 <= k < outs.len() implies #[trigger] outs[k] == if k < states[0].len() {
        Some(states[0][k])
    } else {
        None
    } by {
        lemma_fetched_rest(states, outs, k);
        assert(fetched(states[k], states[k + 1], outs[k]));
        if k < states[0].len() {
            assert(states[k][0] == states[0][k]);
        }
    }
}

/// Iterates a query over the borrowed components of one parameter: for a parameter that
/// iterates over entities, one component per entity until none is left; for one that does
/// not, at most once.
#[derive(Debug)]
pub struct QueryIterator<'a, T> {
    borrowed: ComponentCursor<'a, T>,
    iterate_over_entities: bool,
    iterated_once: bool,
}

impl<'a, T> QueryIterator<'a, T> {
    /// What the borrowed data would still hand out, in order.
    pub closed spec fn remaining(&self) -> Seq<T> {
        self.borrowed.remaining()
    }

    /// Whether the query iterates over entities.
    pub closed spec fn over_entities(&self) -> bool {
        self.iterate_over_entities
    }

    /// Whether the query has already handed out its one item, for a query that does not
    /// iterate over entities.
    pub closed spec fn has_iterated(&self) -> bool {
        self.iterated_once
    }

    /// A query iterator over `borrowed` that has handed out nothing yet.
    pub fn new(borrowed: ComponentCursor<'a, T>, iterate_over_entities: bool) -> (r: Self)
        ensures
            r.remaining() == borrowed.remaining(),
            r.over_entities() == iterate_over_entities,
            !r.has_iterated(),
    {
        QueryIterator { borrowed, iterate_over_entities, iterated_once: false }
    }

    /// The next item of the query. Over entities, it is the next component the borrowed data
    /// hands out. Otherwise a component is fetched on every call, and the first call that gets
    /// one returns it; every later call returns `None`.
    pub fn next(&mut self) -> (r: Option<&'a T>)
        ensures
            final(self).over_entities() == old(self).over_entities(),
            old(self).over_entities() ==> final(self).has_iterated() == old(self).has_iterated()
                && fetched(
                old(self).remaining(),
                final(self).remaining(),
                match r {
                    Some(x) => Some(*x),
                    None => None,
                },
            ),
            !old(self).over_entities() ==> {
                &&& old(self).remaining().len() > 0 ==> final(self).remaining()
                    == old(self).remaining().drop_first()
                &&& old(self).remaining().len() == 0 ==> final(self).remaining().len() == 0
                &&& (r is Some <==> !old(self).has_iterated() && old(self).remaining().len() > 0)
                &&& r matches Some(x) ==> *x == old(self).remaining()[0]
                &&& final(self).has_iterated() == (old(self).has_iterated() || r is Some)
            },
    {
        let fetched_item = self.borrowed.fetch_parameter();
        if self.iterate_over_entities {
            fetched_item
        } else {
            match fetched_item {
                Some(item) => {
                    if self.iterated_once {
                        None
                    } else {
                        self.iterated_once = true;
                        Some(item)
                    }
                },
                None => None,
            }
        }
    }
}

/// The vectors of the borrowed archetypes from `a` on, one after the other.
pub open spec fn vectors_from<T>(archetypes: Seq<(ComponentIndex, Option<&Vec<T>>)>, a: int) -> Seq<
    Seq<T>,
> {
    archetypes.subrange(a, archetypes.len() as int).map_values(
        |x: (ComponentIndex, Option<&Vec<T>>)| x.1.unwrap()@,
    )
}

/// When every borrowed archetype stands at its start and has its vector, as after `borrow`
/// of archetypes that all store the type, a cursor hands out, call after call, the vectors'
/// components one after the other: the `k`-th call returns the `k`-th of them, and once they
/// are all handed out every call returns `None`.
pub proof fn lemma_remaining_is_concatenation<T>(
    archetypes: Seq<(ComponentIndex, Option<&Vec<T>>)>,
    a: int,
)
    requires
        0 <= a <= archetypes.len(),
        forall|i: int|
            0 <= i < archetypes.len() ==> (#[trigger] archetypes[i]).0 == 0 && archetypes[i].1 is Some,
    ensures
        remaining_from(archetypes, a) == vectors_from(archetypes, a).flatten(),
    decreases archetypes.len() - a,
{
    if a == archetypes.len() {
        assert(vectors_from(archetypes, a).len() == 0);
    } else {
        lemma_remaining_is_concatenation(archetypes, a + 1);
        let vs = vectors_from(archetypes, a);
        assert(vs.drop_first() =~= vectors_from(archetypes, a + 1));
        let v = archetypes[a].1.unwrap();
        assert(vs.first() == v@);
        assert(archetypes[a].0 == 0);
        if 0 < v@.len() {
            assert(v@.subrange(0, v@.len() as int) =~= v@);
        } else {
            assert(v@ =~= Seq::<T>::empty());
        }
    }
}

/// What a cursor will hand out is what the borrowed vectors hold from its position on.
pub proof fn lemma_remaining_of<'a, T>(cursor: ComponentCursor<'a, T>)
    ensures
        cursor.remaining() == remaining_from(cursor.borrowed(), cursor.current()),
{
}

/// The positions a write cursor will visit in `world` are those of its borrowed archetypes
/// from its position on.
pub proof fn lemma_slots_of<C>(cursor: WriteCursor, world: World<C>)
    ensures
        cursor.slots(world) == slots_from(world, cursor.borrowed(), cursor.current()),
{
}

/// Changing only archetypes before `a` leaves what is handed out from `a` on unchanged.
proof fn lemma_remaining_after<T>(
    before: Seq<(ComponentIndex, Option<&Vec<T>>)>,
    after: Seq<(ComponentIndex, Option<&Vec<T>>)>,
    a: int,
)
    requires
        before.len() == after.len(),
        0 <= a,
        forall|i: int| a <= i < before.len() ==> before[i] == after[i],
    ensures
        remaining_from(before, a) == remaining_from(after, a),
    decreases before.len() - a,
{
    if a < before.len() {
        lemma_remaining_after(before, after, a + 1);
    }
}

} // verus!
