use ecs::commands::{
    add_component_or_default, sort_commands, ComponentAddition, ComponentRemoval, EntityCommand,
    EntityCreation,
};
use ecs::access::ComponentAccessDescriptor;
use ecs::schedule::{
    Linear, NewTickReaction, ScheduleError, Sequential, TickSynchronizerState, Unordered,
};
use ecs::segment::{SystemSegment, Task};
use ecs::systems::System;
use ecs::world::World;
use ecs::{Entity, ExecutionError, SystemError};
use std::cell::Cell;
use std::any::TypeId;

#[test]
fn unordered_schedule_returns_all_systems() {
    let systems = vec!["a", "b", "c"];
    let mut schedule = Unordered::generate(&systems).unwrap();
    let batch = schedule.currently_executable_systems().unwrap();
    assert_eq!(batch, vec![&"a", &"b", &"c"]);
    let batch = schedule.currently_executable_systems().unwrap();
    assert_eq!(batch.len(), 3);
}

#[test]
fn unordered_schedule_announces_every_new_tick_when_asked_to() {
    let systems = vec![1, 2];
    let mut schedule = Unordered::generate(&systems).unwrap();
    for _ in 0..3 {
        let first = schedule.currently_executable_systems_with_reaction(NewTickReaction::ReturnError);
        assert_eq!(first.unwrap(), vec![&1, &2]);
        let second =
            schedule.currently_executable_systems_with_reaction(NewTickReaction::ReturnError);
        assert!(matches!(second, Err(ScheduleError::NewTick)));
    }
}

#[test]
fn tick_ends_after_every_system_has_run() {
    let mut state = TickSynchronizerState::SystemsLeftToRun(3);
    for _ in 0..3 {
        assert!(state.there_are_systems_left_to_run());
        state = state.system_has_run();
    }
    assert!(!state.there_are_systems_left_to_run());
    assert!(matches!(state, TickSynchronizerState::SystemsLeftToRun(0)));
}

#[test]
fn tick_states_without_a_count_have_nothing_left_to_run() {
    let state = TickSynchronizerState::default();
    assert!(matches!(state, TickSynchronizerState::Uninitialized));
    assert!(!state.there_are_systems_left_to_run());
    assert!(matches!(state.system_has_run(), TickSynchronizerState::Uninitialized));
    let state = TickSynchronizerState::ShuttingDown;
    assert!(!state.there_are_systems_left_to_run());
    assert!(matches!(state.system_has_run(), TickSynchronizerState::ShuttingDown));
}

#[test]
fn commands_are_sorted_by_kind_keeping_their_order() {
    let a = TypeId::of::<u8>();
    let b = TypeId::of::<u16>();
    let commands: Vec<EntityCommand<i32>> = vec![
        EntityCommand::Remove(Entity { id: 3 }),
        EntityCommand::AddComponent(ComponentAddition::new(Entity { id: 1 }, a, 10)),
        EntityCommand::Create(EntityCreation::new().with_component(a, 1).with_component(b, 2)),
        EntityCommand::RemoveComponent(ComponentRemoval::new(Entity { id: 2 }, b)),
        EntityCommand::Remove(Entity { id: 4 }),
        EntityCommand::Create(EntityCreation::new()),
        EntityCommand::AddComponent(ComponentAddition::new(Entity { id: 5 }, b, 20)),
    ];
    let batches = sort_commands(commands);
    assert_eq!(batches.creations.len(), 2);
    assert_eq!(batches.creations[0].components, vec![(a, 1), (b, 2)]);
    assert!(batches.creations[1].components.is_empty());
    assert_eq!(batches.removals, vec![Entity { id: 3 }, Entity { id: 4 }]);
    let added: Vec<(usize, i32)> =
        batches.additions.iter().map(|x| (x.entity.id, x.component)).collect();
    assert_eq!(added, vec![(1, 10), (5, 20)]);
    assert_eq!(batches.component_removals.len(), 1);
    assert_eq!(batches.component_removals[0].entity, Entity { id: 2 });
    assert_eq!(batches.component_removals[0].component_type, b);
}

#[test]
fn commands_can_be_taken_apart_by_kind() {
    let command: EntityCommand<i32> = EntityCommand::Remove(Entity { id: 9 });
    assert_eq!(command.try_into_removal(), Some(Entity { id: 9 }));
    let command: EntityCommand<i32> = EntityCommand::Remove(Entity { id: 9 });
    assert!(command.try_into_creation().is_none());
    let command: EntityCommand<i32> =
        EntityCommand::RemoveComponent(ComponentRemoval::new(Entity { id: 1 }, TypeId::of::<u8>()));
    assert!(command.try_into_component_removal().is_some());
    let command: EntityCommand<i32> = EntityCommand::AddComponent(ComponentAddition::new(
        Entity { id: 1 },
        TypeId::of::<u8>(),
        7,
    ));
    assert_eq!(command.try_into_component_addition().map(|a| a.component), Some(7));
}

#[test]
fn segments_and_tasks_run_their_function() {
    let runs = Cell::new(0);
    let segment = SystemSegment { system_name: "movement", executable: || runs.set(runs.get() + 1) };
    assert_eq!(segment.system_name, "movement");
    segment.execute();
    assert_eq!(runs.get(), 1);

    let task = Task::new(|| runs.set(runs.get() + 10));
    assert_eq!(task.uid, 0);
    task.run();
    assert_eq!(runs.get(), 11);
}

/// A system that counts how often it ran, and fails when told to.
#[derive(Debug)]
struct CountingSystem {
    runs: Cell<u32>,
    fails: bool,
}

impl CountingSystem {
    fn new(fails: bool) -> Self {
        Self { runs: Cell::new(0), fails }
    }
}

impl System<u32> for CountingSystem {
    fn name(&self) -> &str {
        "counting"
    }

    fn component_accesses(&self) -> Vec<ComponentAccessDescriptor> {
        vec![]
    }

    fn run(&self, _world: &World<u32>) -> Result<(), SystemError> {
        self.runs.set(self.runs.get() + 1);
        if self.fails {
            Err(SystemError::Panic)
        } else {
            Ok(())
        }
    }
}

#[test]
fn sequential_tick_runs_every_system_once() {
    let world: World<u32> = World::new();
    let systems = vec![CountingSystem::new(false), CountingSystem::new(false)];
    let mut schedule = Unordered::generate(&systems).unwrap();
    let mut executor = Sequential::default();
    assert!(executor.execute_once(&mut schedule, &world).is_ok());
    assert_eq!(systems.iter().map(|s| s.runs.get()).collect::<Vec<_>>(), vec![1, 1]);
    assert!(executor.execute_once(&mut schedule, &world).is_ok());
    assert_eq!(systems.iter().map(|s| s.runs.get()).collect::<Vec<_>>(), vec![2, 2]);
}

#[test]
fn sequential_tick_stops_at_the_first_failing_system() {
    let world: World<u32> = World::new();
    let systems = vec![
        CountingSystem::new(false),
        CountingSystem::new(true),
        CountingSystem::new(false),
    ];
    let mut schedule = Unordered::generate(&systems).unwrap();
    let mut executor = Sequential::default();
    let result = executor.execute_once(&mut schedule, &world);
    assert!(matches!(result, Err(ExecutionError::System(SystemError::Panic))));
    assert_eq!(systems.iter().map(|s| s.runs.get()).collect::<Vec<_>>(), vec![1, 1, 0]);
    // The failed tick left the schedule about to announce a new tick: the next call only
    // takes that announcement.
    assert!(executor.execute_once(&mut schedule, &world).is_ok());
    assert_eq!(systems.iter().map(|s| s.runs.get()).collect::<Vec<_>>(), vec![1, 1, 0]);
}

#[test]
fn linear_schedule_hands_out_one_system_at_a_time_in_a_cycle() {
    let systems = vec!["a", "b", "c"];
    let mut schedule = Linear::generate(&systems);
    let batches: Vec<Vec<&&str>> = (0..5).map(|_| schedule.next_batch()).collect();
    assert_eq!(batches, vec![vec![&"a"], vec![&"b"], vec![&"c"], vec![&"a"], vec![&"b"]]);
}

#[test]
fn component_or_its_default_is_added() {
    let made = Cell::new(0);
    let make_default = || {
        made.set(made.get() + 1);
        -1
    };
    let mut components: Vec<(TypeId, i32)> = vec![(TypeId::of::<u8>(), 8)];
    add_component_or_default(TypeId::of::<u32>(), Some(32), make_default, &mut components);
    assert_eq!(made.get(), 0);
    add_component_or_default(TypeId::of::<i64>(), None, make_default, &mut components);
    assert_eq!(made.get(), 1);
    assert_eq!(
        components,
        vec![(TypeId::of::<u8>(), 8), (TypeId::of::<u32>(), 32), (TypeId::of::<i64>(), -1)]
    );
}
