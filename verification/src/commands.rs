//! Commands that systems record to change entities later in the tick, without racing each
//! other: they are played back in batches, all creations first, then removals of entities,
//! then additions of components, then removals of components.
use crate::Entity;
use std::any::TypeId;
use vstd::prelude::*;

verus! {

/// A creation of a new entity with a set of components.
#[derive(Debug)]
pub struct EntityCreation<C> {
    pub components: Vec<(TypeId, C)>,
}

impl<C> EntityCreation<C> {
    /// A creation without components yet.
    pub fn new() -> (r: Self)
        ensures
            r.components@ == Seq::<(TypeId, C)>::empty(),
    {
        EntityCreation { components: Vec::new() }
    }

    /// Includes a component of type `component_type` into the creation of a new [`Entity`].
    pub fn with_component(self, component_type: TypeId, new_component: C) -> (r: Self)
        ensures
            r.components@ == self.components@.push((component_type, new_component)),
    {
        let mut components = self.components;
        components.push((component_type, new_component));
        EntityCreation { components }
    }
}

/// Adds `maybe_component`, or, when there is none, the default that `make_default` gives, to
/// `components` as a component of type `component_type`. `make_default` runs only when it is
/// needed.
pub fn add_component_or_default<C, F: FnOnce() -> C>(
    component_type: TypeId,
    maybe_component: Option<C>,
    make_default: F,
    components: &mut Vec<(TypeId, C)>,
)
    requires
        maybe_component is None ==> call_requires(make_default, ()),
    ensures
        final(components)@.len() == old(components)@.len() + 1,
        final(components)@.drop_last() == old(components)@,
        final(components)@.last().0 == component_type,
        match maybe_component {
            Some(c) => final(components)@.last().1 == c,
            None => call_ensures(make_default, (), final(components)@.last().1),
        },
{
    let component = match maybe_component {
        Some(component) => component,
        None => make_default(),
    };
    components.push((component_type, component));
    assert(components@.drop_last() =~= old(components)@);
}

/// An addition of a specific component to a specific entity.
#[derive(Debug)]
pub struct ComponentAddition<C> {
    pub entity: Entity,
    pub component_type: TypeId,
    pub component: C,
}

impl<C> ComponentAddition<C> {
    /// The addition of `component`, of type `component_type`, to `entity`.
    pub fn new(entity: Entity, component_type: TypeId, component: C) -> (r: Self)
        ensures
            r.entity == entity,
            r.component_type == component_type,
            r.component == component,
    {
        Self { entity, component_type, component }
    }
}

/// A removal of a specific component type from a specific entity.
#[derive(Debug)]
pub struct ComponentRemoval {
    pub entity: Entity,
    pub component_type: TypeId,
}

impl ComponentRemoval {
    /// The removal of the component type `component_type` from `entity`.
    pub fn new(entity: Entity, component_type: TypeId) -> (r: Self)
        ensures
            r.entity == entity,
            r.component_type == component_type,
    {
        Self { entity, component_type }
    }
}

/// An action on an entity.
#[derive(Debug)]
pub enum EntityCommand<C> {
    /// Creates a new [`Entity`] with the given components.
    Create(EntityCreation<C>),
    /// Removes the given [`Entity`], if it still exists.
    Remove(Entity),
    /// Adds the given component to the given [`Entity`], if it still exists.
    AddComponent(ComponentAddition<C>),
    /// Removes the given component from the given [`Entity`], if it still exists.
    RemoveComponent(ComponentRemoval),
}

impl<C> EntityCommand<C> {
    /// The creation, if this command is one.
    pub fn try_into_creation(self) -> (r: Option<EntityCreation<C>>)
        ensures
            r == (match self {
                EntityCommand::Create(c) => Some(c),
                _ => None,
            }),
    {
        match self {
            EntityCommand::Create(components) => Some(components),
            _ => None,
        }
    }

    /// The entity to remove, if this command removes one.
    pub fn try_into_removal(self) -> (r: Option<Entity>)
        ensures
            r == (match self {
                EntityCommand::Remove(e) => Some(e),
                _ => None,
            }),
    {
        match self {
            EntityCommand::Remove(entity) => Some(entity),
            _ => None,
        }
    }

    /// The component addition, if this command is one.
    pub fn try_into_component_addition(self) -> (r: Option<ComponentAddition<C>>)
        ensures
            r == (match self {
                EntityCommand::AddComponent(a) => Some(a),
                _ => None,
            }),
    {
        match self {
            EntityCommand::AddComponent(addition) => Some(addition),
            _ => None,
        }
    }

    /// The component removal, if this command is one.
    pub fn try_into_component_removal(self) -> (r: Option<ComponentRemoval>)
        ensures
            r == (match self {
                EntityCommand::RemoveComponent(r) => Some(r),
                _ => None,
            }),
    {
        match self {
            EntityCommand::RemoveComponent(removal) => Some(removal),
            _ => None,
        }
    }
}

/// The commands of one tick, sorted by kind, each kind in the order in which the commands
/// were recorded. They are played back in the order of the fields.
#[derive(Debug)]
pub struct CommandBatches<C> {
    pub creations: Vec<EntityCreation<C>>,
    pub removals: Vec<Entity>,
    pub additions: Vec<ComponentAddition<C>>,
    pub component_removals: Vec<ComponentRemoval>,
}

/// The creations among `commands`, in order.
pub open spec fn creations_of<C>(commands: Seq<EntityCommand<C>>) -> Seq<EntityCreation<C>>
    decreases commands.len(),
{
    if commands.len() == 0 {
        seq![]
    } else {
        creations_of(commands.drop_last()) + match commands.last() {
            EntityCommand::Create(c) => seq![c],
            _ => seq![],
        }
    }
}

/// The entities to remove among `commands`, in order.
pub open spec fn removals_of<C>(commands: Seq<EntityCommand<C>>) -> Seq<Entity>
    decreases commands.len(),
{
    if commands.len() == 0 {
        seq![]
    } else {
        removals_of(commands.drop_last()) + match commands.last() {
            EntityCommand::Remove(e) => seq![e],
            _ => seq![],
        }
    }
}

/// The component additions among `commands`, in order.
pub open spec fn additions_of<C>(commands: Seq<EntityCommand<C>>) -> Seq<ComponentAddition<C>>
    decreases commands.len(),
{
    if commands.len() == 0 {
        seq![]
    } else {
        additions_of(commands.drop_last()) + match commands.last() {
            EntityCommand::AddComponent(a) => seq![a],
            _ => seq![],
        }
    }
}

/// The component removals among `commands`, in order.
pub open spec fn component_removals_of<C>(commands: Seq<EntityCommand<C>>) -> Seq<
    ComponentRemoval,
>
    decreases commands.len(),
{
    if commands.len() == 0 {
        seq![]
    } else {
        component_removals_of(commands.drop_last()) + match commands.last() {
            EntityCommand::RemoveComponent(r) => seq![r],
            _ => seq![],
        }
    }
}

/// Each batch holds exactly the commands of its kind, in the order in which they were
/// recorded: it is the input with every command of another kind left out.
pub proof fn lemma_batches_keep_recorded_order<C>(commands: Seq<EntityCommand<C>>)
    ensures
        creations_of(commands) == commands.filter_map(|c: EntityCommand<C>| match c {
            EntityCommand::Create(x) => Some(x),
            _ => None,
        }),
        removals_of(commands) == commands.filter_map(|c: EntityCommand<C>| match c {
            EntityCommand::Remove(x) => Some(x),
            _ => None,
        }),
        additions_of(commands) == commands.filter_map(|c: EntityCommand<C>| match c {
            EntityCommand::AddComponent(x) => Some(x),
            _ => None,
        }),
        component_removals_of(commands) == commands.filter_map(|c: EntityCommand<C>| match c {
            EntityCommand::RemoveComponent(x) => Some(x),
            _ => None,
        }),
    decreases commands.len(),
{
    if commands.len() > 0 {
        lemma_batches_keep_recorded_order(commands.drop_last());
    }
}

/// Sorts the commands of a tick into the batches in which they are played back, keeping the
/// order of each kind.
pub fn sort_commands<C>(commands: Vec<EntityCommand<C>>) -> (r: CommandBatches<C>)
    ensures
        r.creations@ == creations_of(commands@),
        r.removals@ == removals_of(commands@),
        r.additions@ == additions_of(commands@),
        r.component_removals@ == component_removals_of(commands@),
        r.creations@.len() + r.removals@.len() + r.additions@.len() + r.component_removals@.len()
            == commands@.len(),
        r.creations@ == commands@.filter_map(|c: EntityCommand<C>| match c {
                EntityCommand::Create(x) => Some(x),
                _ => None,
            }),
        r.removals@ == commands@.filter_map(|c: EntityCommand<C>| match c {
                EntityCommand::Remove(x) => Some(x),
                _ => None,
            }),
        r.additions@ == commands@.filter_map(|c: EntityCommand<C>| match c {
                EntityCommand::AddComponent(x) => Some(x),
                _ => None,
            }),
        r.component_removals@ == commands@.filter_map(|c: EntityCommand<C>| match c {
                EntityCommand::RemoveComponent(x) => Some(x),
                _ => None,
            }),
{
    let ghost all = commands@;
    let mut rest = commands;
    let mut batches = CommandBatches {
        creations: Vec::new(),
        removals: Vec::new(),
        additions: Vec::new(),
        component_removals: Vec::new(),
    };
    let ghost mut k: int = 0;
    while rest.len() > 0
        invariant
            0 <= k <= all.len(),
            rest@ == all.skip(k),
            batches.creations@ == creations_of(all.take(k)),
            batches.removals@ == removals_of(all.take(k)),
            batches.additions@ == additions_of(all.take(k)),
            batches.component_removals@ == component_removals_of(all.take(k)),
            batches.creations@.len() + batches.removals@.len() + batches.additions@.len()
                + batches.component_removals@.len() == k,
        decreases rest.len(),
    {
        let command = rest.remove(0);
        proof {
            assert(all.take(k + 1).drop_last() == all.take(k));
            assert(all.take(k + 1).last() == all[k]);
            assert(command == all[k]);
            assert(rest@ == all.skip(k + 1));
        }
        match command {
            EntityCommand::Create(creation) => batches.creations.push(creation),
            EntityCommand::Remove(entity) => batches.removals.push(entity),
            EntityCommand::AddComponent(addition) => batches.additions.push(addition),
            EntityCommand::RemoveComponent(removal) => batches.component_removals.push(removal),
        }
        proof {
            k = k + 1;
        }
    }
    proof {
        assert(all.take(k) == all);
        lemma_batches_keep_recorded_order(all);
    }
    batches
}

} // verus!
