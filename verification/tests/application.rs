use ecs::access::ComponentAccessDescriptor;
use ecs::application::{BasicApplication, BasicApplicationBuilder};
use ecs::query::{Read, Write};
use ecs::schedule::{Sequential, Unordered};
use ecs::systems::System;
use ecs::world::World;
use ecs::{ArchetypeIndex, BasicApplicationError, SystemError, WorldError};
use std::any::TypeId;
use std::cell::RefCell;

#[derive(Debug, Clone, Copy, Eq, PartialEq, Ord, PartialOrd)]
struct A;

#[derive(Debug, Clone, Copy, Eq, PartialEq, Ord, PartialOrd)]
struct B(u32, i32);

/// The component values stored in the applications of these tests.
#[derive(Debug, Clone, Copy, PartialEq)]
enum Value {
    A(A),
    B(B),
}

/// Records every value of one component type it reads, one per entity and run.
#[derive(Debug)]
struct ReadingSystem {
    component_type: TypeId,
    read: RefCell<Vec<Value>>,
}

impl ReadingSystem {
    fn new(component_type: TypeId) -> Self {
        Self { component_type, read: RefCell::new(vec![]) }
    }
}

impl System<Value> for ReadingSystem {
    fn name(&self) -> &str {
        "reading"
    }

    fn component_accesses(&self) -> Vec<ComponentAccessDescriptor> {
        vec![ComponentAccessDescriptor::read(self.component_type, "component")]
    }

    fn run(&self, world: &World<Value>) -> Result<(), SystemError> {
        let mut archetypes: Vec<ArchetypeIndex> =
            world.get_archetype_indices(&[self.component_type]).into_iter().collect();
        archetypes.sort();
        let mut borrowed = Read::borrow(world, &archetypes, self.component_type)
            .map_err(SystemError::MissingParameter)?;
        while let Some(read) = Read::fetch_parameter(&mut borrowed) {
            self.read.borrow_mut().push(*read.output);
        }
        Ok(())
    }
}

fn app_with(systems: Vec<ReadingSystem>) -> BasicApplication<Value, ReadingSystem> {
    BasicApplicationBuilder::default().add_systems(systems).build()
}

#[test]
fn application_system_reads_the_component_of_each_entity() {
    let mut app = app_with(vec![ReadingSystem::new(TypeId::of::<A>())]);
    for _ in 0..3 {
        let entity = app.create_entity().unwrap();
        app.add_component(entity, TypeId::of::<A>(), Value::A(A)).unwrap();
    }
    let mut schedule = Unordered::generate(&app.systems).unwrap();
    Sequential::default().execute_once(&mut schedule, &app.world).unwrap();
    assert_eq!(*app.systems[0].read.borrow(), vec![Value::A(A), Value::A(A), Value::A(A)]);
}

#[test]
fn application_components_can_be_mutated_through_write() {
    let mut app = app_with(vec![ReadingSystem::new(TypeId::of::<B>())]);
    for identifier in 0..3 {
        let entity = app.create_entity().unwrap();
        app.add_component(entity, TypeId::of::<B>(), Value::B(B(identifier, 0))).unwrap();
    }
    let archetypes: Vec<ArchetypeIndex> =
        app.world.get_archetype_indices(&[TypeId::of::<B>()]).into_iter().collect();
    let mut borrowed = Write::borrow(&app.world, &archetypes, TypeId::of::<B>()).unwrap();
    while let Some(write) = Write::fetch_parameter(&mut borrowed, &mut app.world) {
        if let Value::B(B(identifier, _)) = *write.output {
            *write.output = Value::B(B(identifier, 100));
        }
    }
    let mut schedule = Unordered::generate(&app.systems).unwrap();
    Sequential::default().execute_once(&mut schedule, &app.world).unwrap();
    assert_eq!(
        *app.systems[0].read.borrow(),
        vec![Value::B(B(0, 100)), Value::B(B(1, 100)), Value::B(B(2, 100))]
    );
}

#[test]
fn application_keeps_systems_in_the_order_they_were_added() {
    let builder = BasicApplicationBuilder::default()
        .add_system(ReadingSystem::new(TypeId::of::<A>()))
        .add_systems(vec![ReadingSystem::new(TypeId::of::<B>()), ReadingSystem::new(TypeId::of::<A>())]);
    let mut app: BasicApplication<Value, ReadingSystem> = builder.build();
    app.add_system(ReadingSystem::new(TypeId::of::<B>()));
    let types: Vec<TypeId> = app.systems.iter().map(|s| s.component_type).collect();
    assert_eq!(
        types,
        vec![TypeId::of::<A>(), TypeId::of::<B>(), TypeId::of::<A>(), TypeId::of::<B>()]
    );
}

#[test]
fn adding_a_component_twice_reports_the_component_and_entity() {
    let mut app = app_with(vec![]);
    let entity = app.create_entity().unwrap();
    app.add_component(entity, TypeId::of::<B>(), Value::B(B(1, -2))).unwrap();
    match app.add_component(entity, TypeId::of::<B>(), Value::B(B(3, 4))) {
        Err(BasicApplicationError::ComponentAdding(
            WorldError::ComponentMutationFailed(errors),
            text,
            failed,
        )) => {
            assert_eq!(text, "B(B(3, 4))");
            assert_eq!(failed, entity);
            assert!(matches!(
                errors.as_slice(),
                [WorldError::ComponentTypeAlreadyExistsForEntity(e, t)] if *e == entity && *t == TypeId::of::<B>()
            ));
        }
        other => panic!("unexpected result {other:?}"),
    }
}

#[test]
fn adding_a_component_to_a_missing_entity_fails() {
    let mut app = app_with(vec![]);
    let entity = app.create_entity().unwrap();
    let missing = ecs::Entity { id: entity.id + 5 };
    assert!(matches!(
        app.add_component(missing, TypeId::of::<A>(), Value::A(A)),
        Err(BasicApplicationError::ComponentAdding(WorldError::EntityDoesNotExist(e), _, f))
            if e == missing && f == missing
    ));
}

#[test]
fn removing_a_missing_component_fails() {
    let mut app = app_with(vec![]);
    let entity = app.create_entity().unwrap();
    app.add_component(entity, TypeId::of::<A>(), Value::A(A)).unwrap();
    app.remove_component(entity, TypeId::of::<A>()).unwrap();
    assert!(matches!(
        app.remove_component(entity, TypeId::of::<A>()),
        Err(BasicApplicationError::World(WorldError::ComponentMutationFailed(_)))
    ));
}
