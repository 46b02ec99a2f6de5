use ecs::access::{get_function_name, ComponentAccessDescriptor};
use ecs::precedence::{find_overlapping_component_accesses, precedence};
use std::any::TypeId;
use std::cmp::Ordering;

#[derive(Debug, Default)]
pub struct A(i32);
#[derive(Debug, Default)]
pub struct B(String);
#[derive(Debug, Default)]
pub struct C(f32);

fn read<T: 'static>(name: &str) -> ComponentAccessDescriptor {
    ComponentAccessDescriptor::read(TypeId::of::<T>(), name)
}

fn write<T: 'static>(name: &str) -> ComponentAccessDescriptor {
    ComponentAccessDescriptor::write(TypeId::of::<T>(), name)
}

fn read_a_system() -> Vec<ComponentAccessDescriptor> {
    vec![read::<A>("A")]
}

fn write_a_system() -> Vec<ComponentAccessDescriptor> {
    vec![write::<A>("A")]
}

fn read_many_write_a() -> Vec<ComponentAccessDescriptor> {
    vec![read::<B>("B"), write::<A>("A")]
}

fn write_many_read_a() -> Vec<ComponentAccessDescriptor> {
    vec![read::<A>("A"), write::<C>("C")]
}

#[test]
fn system_writing_to_component_precedes_system_reading_from_component() {
    let read_system = read_a_system();
    let write_system = write_a_system();

    let ordering0 = precedence(&read_system, &write_system);
    let ordering1 = precedence(&write_system, &read_system);

    // read_system >= write_system
    assert_eq!(Some(Ordering::Greater), ordering0);
    // write_system <= read_system
    assert_eq!(Some(Ordering::Less), ordering1);
}

#[test]
fn systems_writing_to_component_precede_each_other() {
    let write_system0 = write_a_system();
    let write_system1 = write_a_system();

    let ordering0 = precedence(&write_system0, &write_system1);
    let ordering1 = precedence(&write_system1, &write_system0);

    // write_system >= write_system
    assert_eq!(Some(Ordering::Greater), ordering0);
    assert_eq!(Some(Ordering::Greater), ordering1);
}

#[test]
fn systems_reading_from_component_are_of_equal_precedence() {
    let read_system0 = read_a_system();
    let read_system1 = read_a_system();

    let ordering0 = precedence(&read_system0, &read_system1);
    let ordering1 = precedence(&read_system1, &read_system0);

    assert_eq!(Some(Ordering::Equal), ordering0);
    assert_eq!(Some(Ordering::Equal), ordering1);
}

#[test]
fn system_reading_from_many_and_writing_to_component_precedes_system_read_from_component() {
    let many_system = read_many_write_a();
    let read_system = read_a_system();

    let ordering0 = precedence(&many_system, &read_system);
    let ordering1 = precedence(&read_system, &many_system);

    assert_eq!(Some(Ordering::Less), ordering0);
    assert_eq!(Some(Ordering::Greater), ordering1);
}

#[test]
fn system_reading_from_many_and_writing_to_component_precedes_system_writing_to_many_and_reading_from_component(
) {
    let many_parameters_but_single_write = read_many_write_a();
    let many_parameters_but_single_read = write_many_read_a();

    let ordering0 = precedence(&many_parameters_but_single_write, &many_parameters_but_single_read);
    let ordering1 = precedence(&many_parameters_but_single_read, &many_parameters_but_single_write);

    assert_eq!(Some(Ordering::Less), ordering0);
    assert_eq!(Some(Ordering::Greater), ordering1);
}

#[test]
fn systems_without_common_components_are_of_equal_precedence() {
    let ordering = precedence(&vec![write::<B>("B")], &vec![write::<C>("C")]);
    assert_eq!(Some(Ordering::Equal), ordering);
    assert_eq!(Some(Ordering::Equal), precedence(&vec![], &write_a_system()));
}

#[test]
fn overlapping_accesses_pair_each_access_with_those_to_the_same_type() {
    let a = vec![read::<A>("A"), write::<B>("B"), read::<A>("A2")];
    let b = vec![write::<A>("A"), read::<C>("C"), read::<B>("B")];
    let overlapping = find_overlapping_component_accesses(&a, &b);
    let names: Vec<(String, String)> = overlapping
        .iter()
        .map(|(x, y)| (x.name().to_string(), y.name().to_string()))
        .collect();
    assert_eq!(
        names,
        vec![
            ("A".to_string(), "A".to_string()),
            ("B".to_string(), "B".to_string()),
            ("A2".to_string(), "A".to_string())
        ]
    );
    assert!(overlapping[0].0.is_read());
    assert!(overlapping[0].1.is_write());
}

#[test]
fn descriptors_report_their_kind_type_and_name() {
    let r = read::<A>("ecs::A");
    let w = write::<B>("ecs::B");
    assert!(r.is_read() && !r.is_write());
    assert!(w.is_write() && !w.is_read());
    assert_eq!(r.component_type(), TypeId::of::<A>());
    assert_eq!(w.name(), "ecs::B");
    assert_eq!(r.duplicate(), r);
}

#[test]
fn function_names_are_the_last_path_segment() {
    assert_eq!(get_function_name("my_crate::systems::movement"), "movement");
    assert_eq!(get_function_name("movement"), "movement");
    assert_eq!(get_function_name("a:::b"), "b");
    assert_eq!(get_function_name("a::"), "");
    assert_eq!(get_function_name("ä::ö::ü"), "ü");
}
