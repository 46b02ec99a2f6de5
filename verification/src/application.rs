//! The application: a world together with the systems that run in it, and its builder.
use crate::world::World;
use crate::{BasicApplicationError, Entity, WorldError};
use std::any::TypeId;
use std::fmt::Debug;
use vstd::prelude::*;

verus! {

/// The `Debug` form of `value`, as `format!("{value:?}")` writes it. The contract states
/// nothing of the text: what `Debug` writes depends on the type's own implementation, and a
/// name for it would have to be generic.
#[verifier::external_body]
fn debug_text<T: Debug>(value: &T) -> (r: String) {
    format!("{value:?}")
}

/// Constructs a [`BasicApplication`].
#[derive(Debug)]
pub struct BasicApplicationBuilder<S> {
    pub systems: Vec<S>,
}

impl<S> Default for BasicApplicationBuilder<S> {
    /// A builder without systems.
    fn default() -> (r: Self)
        ensures
            r.systems@ == Seq::<S>::empty(),
    {
        BasicApplicationBuilder { systems: Vec::new() }
    }
}

impl<S> BasicApplicationBuilder<S> {
    /// Adds a system to the application.
    pub fn add_system(self, system: S) -> (r: Self)
        ensures
            r.systems@ == self.systems@.push(system),
    {
        let mut systems = self.systems;
        systems.push(system);
        BasicApplicationBuilder { systems }
    }

    /// Adds several systems to the application, in the given order.
    pub fn add_systems(self, systems: Vec<S>) -> (r: Self)
        ensures
            r.systems@ == self.systems@ + systems@,
    {
        let mut all = self.systems;
        let mut added = systems;
        all.append(&mut added);
        BasicApplicationBuilder { systems: all }
    }

    /// Completes the building: an application with an empty world and the added systems.
    pub fn build<C>(self) -> (r: BasicApplication<C, S>)
        ensures
            r.world.wf(),
            r.world@ == Map::<Entity, Map<TypeId, C>>::empty(),
            r.world.archetype_count() == 1,
            r.world.entity_list() == Seq::<Entity>::empty(),
            r.systems@ == self.systems@,
    {
        BasicApplication { world: World::default(), systems: self.systems }
    }
}

/// A basic application: a world and the systems that run in it.
#[derive(Debug)]
pub struct BasicApplication<C, S> {
    /// The place in which all components and entities roam freely, living their best lives.
    pub world: World<C>,
    /// All systems that will be executed in the application's world.
    pub systems: Vec<S>,
}

impl<C, S> BasicApplication<C, S> {
    /// Spawns a new entity in the world.
    pub fn create_entity(&mut self) -> (r: Result<Entity, BasicApplicationError>)
        requires
            old(self).world.wf(),
            old(self).world.entity_list().len() < usize::MAX,
        ensures
            final(self).world.wf(),
            final(self).systems == old(self).systems,
            match r {
                Ok(entity) => {
                    &&& entity.id == old(self).world.entity_list().len()
                    &&& !old(self).world@.contains_key(entity)
                    &&& final(self).world@ == old(self).world@.insert(entity, Map::empty())
                    &&& final(self).world.entity_list() == old(self).world.entity_list().push(
                        entity,
                    )
                },
                Err(_) => false,
            },
    {
        match self.world.create_new_entity() {
            Ok(entity) => Ok(entity),
            Err(error) => Err(BasicApplicationError::World(error)),
        }
    }

    /// Adds a new component, of type `component_type`, to a given entity. A failure carries
    /// the world's error, the component's `Debug` text and the entity.
    pub fn add_component(&mut self, entity: Entity, component_type: TypeId, component: C) -> (r:
        Result<(), BasicApplicationError>) where C: Debug
        requires
            old(self).world.wf(),
        ensures
            final(self).world.wf(),
            final(self).systems == old(self).systems,
            match r {
                Ok(()) => {
                    &&& old(self).world@.contains_key(entity)
                    &&& !old(self).world@[entity].contains_key(component_type)
                    &&& final(self).world@ == old(self).world@.insert(
                        entity,
                        old(self).world@[entity].insert(component_type, component),
                    )
                },
                Err(BasicApplicationError::ComponentAdding(error, _, failed)) => {
                    &&& failed == entity
                    &&& final(self).world == old(self).world
                    &&& match error {
                        WorldError::EntityDoesNotExist(e) => e == entity && !old(
                            self,
                        ).world@.contains_key(entity),
                        WorldError::ComponentMutationFailed(errors) => {
                            &&& old(self).world@.contains_key(entity)
                            &&& old(self).world@[entity].contains_key(component_type)
                            &&& errors@ == seq![
                                WorldError::ComponentTypeAlreadyExistsForEntity(entity, component_type),
                            ]
                        },
                        _ => false,
                    }
                },
                Err(_) => false,
            },
    {
        let component_text = debug_text(&component);
        match self.world.add_component_to_entity(entity, component_type, component) {
            Ok(()) => Ok(()),
            Err(error) => Err(BasicApplicationError::ComponentAdding(error, component_text, entity)),
        }
    }

    /// Removes the component of type `component_type` from a given entity.
    pub fn remove_component(&mut self, entity: Entity, component_type: TypeId) -> (r: Result<
        (),
        BasicApplicationError,
    >)
        requires
            old(self).world.wf(),
        ensures
            final(self).world.wf(),
            final(self).systems == old(self).systems,
            match r {
                Ok(()) => {
                    &&& old(self).world@.contains_key(entity)
                    &&& old(self).world@[entity].contains_key(component_type)
                    &&& final(self).world@ == old(self).world@.insert(
                        entity,
                        old(self).world@[entity].remove(component_type),
                    )
                },
                Err(BasicApplicationError::World(error)) => {
                    &&& final(self).world == old(self).world
                    &&& match error {
                        WorldError::EntityDoesNotExist(e) => e == entity && !old(
                            self,
                        ).world@.contains_key(entity),
                        WorldError::ComponentMutationFailed(errors) => {
                            &&& old(self).world@.contains_key(entity)
                            &&& !old(self).world@[entity].contains_key(component_type)
                            &&& errors@ == seq![
                                WorldError::ComponentTypeNotPresentForEntity(entity, component_type),
                            ]
                        },
                        _ => false,
                    }
                },
                Err(_) => false,
            },
    {
        match self.world.remove_component_type_from_entity(entity, component_type) {
            Ok(()) => Ok(()),
            Err(error) => Err(BasicApplicationError::World(error)),
        }
    }

    /// Adds a new system to the application, after construction has already finished.
    pub fn add_system(&mut self, system: S)
        ensures
            final(self).systems@ == old(self).systems@.push(system),
            final(self).world == old(self).world,
    {
        self.systems.push(system);
    }
}

} // verus!
