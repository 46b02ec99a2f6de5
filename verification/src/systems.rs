//! Systems: the units of work that run over the world, implemented by the users of the library.
use crate::access::ComponentAccessDescriptor;
use crate::world::World;
use crate::SystemError;
use vstd::prelude::*;

verus! {

/// An executable unit of work that may operate on entities and their component data.
pub trait System<C> {
    /// What the system is called.
    fn name(&self) -> &str;

    /// Which component types the system accesses and in what manner (read/write).
    fn component_accesses(&self) -> Vec<ComponentAccessDescriptor>;

    /// Runs the system once over the world.
    fn run(&self, world: &World<C>) -> Result<(), SystemError>;
}

/// The parameters of a system, taken together: what they access, and whether a system with
/// them may split its iteration over entities between threads.
pub trait SystemParameters {
    /// A description of all of the data that is accessed and how (read/write).
    fn component_accesses() -> Vec<ComponentAccessDescriptor>;

    /// Whether a system with these parameters can use intra-system parallelization.
    fn supports_parallelization() -> bool;
}

/// No parameters access nothing, and there is nothing to split between threads.
impl SystemParameters for () {
    fn component_accesses() -> (r: Vec<ComponentAccessDescriptor>)
        ensures
            r@.len() == 0,
    {
        Vec::new()
    }

    fn supports_parallelization() -> (r: bool)
        ensures
            !r,
    {
        false
    }
}

} // verus!
