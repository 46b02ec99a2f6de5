//! The core Entity Component System of the engine, with its data structures verified.
//!
//! Component types are identified by their `TypeId`, and a store holds every component value
//! as the same carrier type `C`, which is how the type-erased storage of an ECS is modelled here.
pub mod type_key;
pub mod archetypes;
pub mod world;
pub mod scheduler;
pub mod names;
pub mod dag;
pub mod sparse_set;
pub mod sparse_data_storage;
pub mod column;
pub mod table;
pub mod access;
pub mod precedence;
pub mod schedule;
pub mod commands;
pub mod query;
pub mod filter;
pub mod archetype_graph;
pub mod segment;
pub mod archetype_storage;
pub mod systems;
pub mod application;

use crate::schedule::ScheduleError;
use std::any::TypeId;
use vstd::prelude::*;

verus! {

/// The index of an archetype in the world's vector of archetypes.
pub type ArchetypeIndex = usize;

/// Index into a component vector, where the component value of an entity is located.
pub type ComponentIndex = usize;

/// An entity is an identifier that represents a simulated object consisting of multiple
/// different components.
#[derive(Default, Debug, Ord, PartialOrd, Eq, PartialEq, Structural, Copy, Clone, Hash)]
pub struct Entity {
    pub id: usize,
}

impl Entity {
    /// The identifier of the entity.
    pub fn id(&self) -> (r: usize)
        ensures
            r == self.id,
    {
        self.id
    }
}

/// Mutably borrows two separate elements of `items`, the one at `first_index` and the one at
/// `second_index`, in that order; what is written through them becomes those elements.
pub fn get_mut_at_two_indices<T>(first_index: usize, second_index: usize, items: &mut [T]) -> (r: (
    &mut T,
    &mut T,
))
    requires
        first_index != second_index,
        first_index < old(items)@.len(),
        second_index < old(items)@.len(),
    ensures
        *r.0 == old(items)@[first_index as int],
        *r.1 == old(items)@[second_index as int],
        final(items)@ == old(items)@.update(first_index as int, *final(r.0)).update(
            second_index as int,
            *final(r.1),
        ),
{
    let split_at_index = if first_index < second_index {
        second_index
    } else {
        first_index
    };
    let (first_slice, second_slice) = items.split_at_mut(split_at_index);
    if first_index < second_index {
        (&mut first_slice[first_index], &mut second_slice[0])
    } else {
        (&mut second_slice[0], &mut first_slice[second_index])
    }
}

/// An error occurred during a archetype operation.
#[derive(Debug)]
pub enum ArchetypeError {
    /// Could not find component index of entity
    MissingEntityIndex(Entity),
    /// The requested component type, named, is not present
    ComponentTypeNotPresent(&'static str),
    /// Component vec not found for type id
    MissingComponentType(TypeId),
    /// Archetype already contains entity
    EntityAlreadyExists(Entity),
}

/// Whether a archetype operation succeeded.
pub type ArchetypeResult<T> = Result<T, ArchetypeError>;

/// An error occurred during a world operation.
#[derive(Debug)]
pub enum WorldError {
    /// Could not find archetype with the given index.
    ArchetypeDoesNotExist(ArchetypeIndex),
    /// Could not add component to archetype with the given index.
    CouldNotAddComponent(ArchetypeError),
    /// Could not move component to archetype.
    CouldNotMoveComponent(ArchetypeError),
    /// Could not find the given component type.
    ComponentTypeDoesNotExist(TypeId),
    /// Could not find the given entity.
    EntityDoesNotExist(Entity),
    /// Component of same type already exists for entity
    ComponentTypeAlreadyExistsForEntity(Entity, TypeId),
    /// Component type does not exist for entity.
    ComponentTypeNotPresentForEntity(Entity, TypeId),
    /// Some of the requested component mutations of an entity could not be performed.
    ComponentMutationFailed(Vec<WorldError>),
}

/// Whether a world operation succeeded.
pub type WorldResult<T> = Result<T, WorldError>;

/// An error occurred while borrowing what a system parameter needs.
#[derive(Debug)]
pub enum SystemParameterError {
    /// Could not borrow the component vectors of the requested archetypes.
    BorrowComponentVecs(WorldError),
}

/// An error occurred during execution of a system.
#[derive(Debug)]
pub enum SystemError {
    /// Could not execute system due to missing parameter.
    MissingParameter(SystemParameterError),
    /// The system cannot be iterated sequentially.
    CannotRunSequentially,
    /// A system has panicked.
    Panic,
}

/// An error occurred during execution.
#[derive(Debug)]
pub enum ExecutionError {
    /// Could not execute due to error in schedule.
    Schedule(ScheduleError),
    /// Could not execute system.
    System(SystemError),
    /// The executor has not been properly initialized.
    Uninitialized,
}

/// An error in the application.
#[derive(Debug)]
pub enum BasicApplicationError {
    /// Failed to generate schedule for given systems.
    ScheduleGeneration(ScheduleError),
    /// Failed to execute systems.
    Execution(ExecutionError),
    /// Failed to execute world operation.
    World(WorldError),
    /// Failed to add the described component to the entity.
    ComponentAdding(WorldError, String, Entity),
}

} // verus!
