use ecs::archetypes::Archetype;
use ecs::query::{ComponentCursor, QueryIterator, Read, Write};
use ecs::world::{intersection_of_multiple_sets, World};
use ecs::{get_mut_at_two_indices, ArchetypeIndex, Entity, SystemParameterError, WorldError};
use std::any::TypeId;
use std::collections::HashSet;

/// The component values stored in the worlds of these tests.
#[derive(Debug, Clone, Copy, PartialEq)]
enum Value {
    Unit,
    U32(u32),
    I32(i32),
    I64(i64),
    Usize(usize),
    F32(f32),
}

#[derive(Debug)]
struct A;

#[derive(Debug)]
struct B;

fn type_of<T: 'static>() -> TypeId {
    TypeId::of::<T>()
}

fn index_of(world: &World<Value>, entity: Entity) -> ArchetypeIndex {
    world.get_archetype_index_of_entity(entity).unwrap()
}

fn values<'a>(archetype: &'a Archetype<Value>, t: TypeId) -> &'a Vec<Value> {
    archetype.borrow_component_vec(&t).unwrap()
}

/// Three entities, each given a `u32` and then an `i32`: they all end in archetype 2.
fn setup_world_with_3_entities_added_one_by_one(
) -> (World<Value>, ArchetypeIndex, Entity, Entity, Entity) {
    let mut world = World::new();

    let entity1 = world.create_new_entity().unwrap();
    let entity2 = world.create_new_entity().unwrap();
    let entity3 = world.create_new_entity().unwrap();

    for (entity, value) in [(entity1, 1), (entity2, 2), (entity3, 3)] {
        world.add_component_to_entity(entity, type_of::<u32>(), Value::U32(value)).unwrap();
        world.add_component_to_entity(entity, type_of::<i32>(), Value::I32(value as i32)).unwrap();
    }

    // All entities in archetype with index 2 now
    (world, 2, entity1, entity2, entity3)
}

/// Three entities, each given a `u32` and an `i32` at once.
fn setup_world_with_3_entities_with_u32_and_i32_components(
) -> (World<Value>, ArchetypeIndex, Entity, Entity, Entity) {
    let mut world = World::new();
    let mut entities = vec![];
    for value in 1..=3 {
        let entity = world.create_new_entity().unwrap();
        world
            .add_components_to_entity(
                entity,
                vec![(type_of::<u32>(), Value::U32(value)), (type_of::<i32>(), Value::I32(value as i32))],
            )
            .unwrap();
        entities.push(entity);
    }
    let archetype_index = index_of(&world, entities[0]);
    (world, archetype_index, entities[0], entities[1], entities[2])
}

fn collect_u32(vecs: Vec<Option<&Vec<Value>>>) -> HashSet<u32> {
    let mut cursor = ComponentCursor::new(vecs);
    let mut result = HashSet::new();
    while let Some(value) = cursor.fetch_parameter() {
        if let Value::U32(v) = value {
            result.insert(*v);
        }
    }
    result
}

#[test]
fn querying_with_archetypes() {
    // Arrange
    let (world, _, _, _, _) = setup_world_with_3_entities_added_one_by_one();

    let archetypes: Vec<ArchetypeIndex> =
        world.get_archetype_indices(&[type_of::<u32>()]).into_iter().collect();

    let borrowed = world.borrow_component_vecs(&archetypes, type_of::<u32>()).unwrap();
    let result = collect_u32(borrowed);

    assert_eq!(result, HashSet::from([1, 2, 3]))
}

#[test]
fn entities_change_archetype_after_component_addition() {
    let mut world = World::new();
    let entity = world.create_new_entity().unwrap();

    world.add_component_to_entity(entity, type_of::<A>(), Value::Unit).unwrap();

    let mut actual_index = index_of(&world, entity);

    assert_eq!(actual_index, 1);

    world.add_component_to_entity(entity, type_of::<B>(), Value::Unit).unwrap();

    actual_index = index_of(&world, entity);

    assert_eq!(actual_index, 2);
}

#[test]
fn entities_change_archetype_after_component_removal() {
    let mut world = World::new();

    let entity = world.create_new_entity().unwrap();

    world.add_component_to_entity(entity, type_of::<A>(), Value::Unit).unwrap();

    let mut actual_index = index_of(&world, entity);

    assert_eq!(actual_index, 1);

    world.remove_component_type_from_entity(entity, type_of::<A>()).unwrap();

    actual_index = index_of(&world, entity);

    assert_eq!(actual_index, 0);
}

#[test]
fn last_entity_in_archetype_moves_between_archetypes_as_expected() {
    let mut world = World::new();

    let entity = world.create_new_entity().unwrap(); // Arch 0

    world.add_component_to_entity(entity, type_of::<A>(), Value::Unit).unwrap(); // Arch 1
    world.add_component_to_entity(entity, type_of::<B>(), Value::Unit).unwrap(); // Arch 2

    let mut actual_index = index_of(&world, entity);

    assert_eq!(actual_index, 2);

    world.remove_component_type_from_entity(entity, type_of::<A>()).unwrap(); // Arch 3

    actual_index = index_of(&world, entity);

    assert_eq!(actual_index, 3);

    world.remove_component_type_from_entity(entity, type_of::<B>()).unwrap(); // Arch 0

    actual_index = index_of(&world, entity);

    assert_eq!(actual_index, 0);
}

#[test]
fn entities_contain_correct_values_after_adding_components() {
    let (world, relevant_archetype_index, _, _, _) = setup_world_with_3_entities_added_one_by_one();

    let archetype = world.get_archetype(relevant_archetype_index).unwrap();

    let u32_values = values(archetype, type_of::<u32>());
    let i32_values = values(archetype, type_of::<i32>());

    assert_eq!(&[Value::U32(1), Value::U32(2), Value::U32(3)], &u32_values[..]);
    assert_eq!(&[Value::I32(1), Value::I32(2), Value::I32(3)], &i32_values[..]);
}

#[test]
fn entity_values_are_removed_from_archetype_after_addition() {
    let (mut world, relevant_archetype_index, entity1, _, _) =
        setup_world_with_3_entities_added_one_by_one();

    // Add component to entity1 causing it to move to Arch_3
    world.add_component_to_entity(entity1, type_of::<usize>(), Value::Usize(1)).unwrap();

    let archetype = world.get_archetype(relevant_archetype_index).unwrap();

    let u32_values = values(archetype, type_of::<u32>());
    let i32_values = values(archetype, type_of::<i32>());

    assert!(u32_values.get(2).is_none());
    assert!(i32_values.get(2).is_none());
}

#[test]
fn values_swap_index_after_entity_has_been_moved_by_addition() {
    let (mut world, relevant_archetype_index, entity1, _, _) =
        setup_world_with_3_entities_added_one_by_one();

    // Add component to entity1 causing it to move to Arch_3
    world.add_component_to_entity(entity1, type_of::<usize>(), Value::Usize(1)).unwrap();

    let archetype = world.get_archetype(relevant_archetype_index).unwrap();

    let u32_values = values(archetype, type_of::<u32>());
    let i32_values = values(archetype, type_of::<i32>());

    assert_eq!(&u32_values[..2], &[Value::U32(3), Value::U32(2)]);
    assert_eq!(&i32_values[..2], &[Value::I32(3), Value::I32(2)]);
}

#[test]
fn entities_are_added_to_worlds_entity_list() {
    let (mut world, _, entity1, entity2, entity3) = setup_world_with_3_entities_added_one_by_one();

    // Add component to entity1 causing it to move to Arch_3
    world.add_component_to_entity(entity1, type_of::<usize>(), Value::Usize(1)).unwrap();

    assert_eq!(*world.entities(), vec![entity1, entity2, entity3]);
}

#[test]
fn entity_to_archetype_index_is_updated_correctly_after_move_by_addition() {
    let (mut world, _, entity1, entity2, entity3) = setup_world_with_3_entities_added_one_by_one();

    // Add component to entity1 causing it to move to Arch_3
    world.add_component_to_entity(entity1, type_of::<usize>(), Value::Usize(1)).unwrap();

    assert_eq!(index_of(&world, entity1), 3_usize);
    assert_eq!(index_of(&world, entity2), 2_usize);
    assert_eq!(index_of(&world, entity3), 2_usize);
}

#[test]
fn entities_contain_correct_values_after_removing_components() {
    let (mut world, relevant_archetype_index, entity1, _, _) =
        setup_world_with_3_entities_added_one_by_one();

    world.remove_component_type_from_entity(entity1, type_of::<u32>()).unwrap();

    let archetype_2 = world.get_archetype(relevant_archetype_index).unwrap();

    let archetype_3 = world.get_archetype(3).unwrap();

    let arch_3_i32_values = values(archetype_3, type_of::<i32>());

    let arch_2_u32_values = values(archetype_2, type_of::<u32>());
    let arch_2_i32_values = values(archetype_2, type_of::<i32>());

    assert_eq!([Value::U32(3), Value::U32(2)], arch_2_u32_values[..]);
    assert_eq!([Value::I32(3), Value::I32(2)], arch_2_i32_values[..]);
    assert_eq!([Value::I32(1)], arch_3_i32_values[..]);
}

#[test]
fn entity_values_are_removed_from_archetype_after_removal() {
    let (mut world, relevant_archetype_index, entity1, _, _) =
        setup_world_with_3_entities_added_one_by_one();

    world.remove_component_type_from_entity(entity1, type_of::<u32>()).unwrap();

    let archetype = world.get_archetype(relevant_archetype_index).unwrap();

    let u32_values = values(archetype, type_of::<u32>());
    let i32_values = values(archetype, type_of::<i32>());

    assert!(u32_values.get(2).is_none());
    assert!(i32_values.get(2).is_none());
}

#[test]
fn values_swap_index_after_entity_has_been_moved_by_removal() {
    let (mut world, relevant_archetype_index, entity1, _, _) =
        setup_world_with_3_entities_added_one_by_one();

    world.remove_component_type_from_entity(entity1, type_of::<u32>()).unwrap();

    let archetype = world.get_archetype(relevant_archetype_index).unwrap();

    let u32_values = values(archetype, type_of::<u32>());
    let i32_values = values(archetype, type_of::<i32>());

    assert_eq!(&u32_values[..2], &[Value::U32(3), Value::U32(2)]);
    assert_eq!(&i32_values[..2], &[Value::I32(3), Value::I32(2)]);
}

#[test]
fn entity_to_archetype_index_is_updated_correctly_after_move_by_removal() {
    let (mut world, _, entity1, entity2, entity3) = setup_world_with_3_entities_added_one_by_one();

    // Remove component from entity1 causing it to move to Arch_3
    world.remove_component_type_from_entity(entity1, type_of::<u32>()).unwrap();

    assert_eq!(index_of(&world, entity1), 3_usize);
    assert_eq!(index_of(&world, entity2), 2_usize);
    assert_eq!(index_of(&world, entity3), 2_usize);
}

#[test]
fn adding_an_existing_component_type_is_an_error() {
    let mut world = World::new();
    let entity = world.create_new_entity().unwrap();

    world.add_component_to_entity(entity, type_of::<usize>(), Value::Usize(10)).unwrap();
    let result = world.add_component_to_entity(entity, type_of::<usize>(), Value::Usize(20));

    assert!(result.is_err());
    assert_eq!(index_of(&world, entity), 1);
}

#[test]
fn removing_a_missing_component_type_is_an_error() {
    let mut world: World<Value> = World::new();
    let entity = world.create_new_entity().unwrap();

    let result = world.remove_component_type_from_entity(entity, type_of::<i32>());

    assert!(result.is_err());
}

#[test]
fn unknown_entities_are_reported() {
    let mut world: World<Value> = World::new();
    let stranger = Entity { id: 4 };
    assert!(matches!(
        world.get_archetype_index_of_entity(stranger),
        Err(WorldError::EntityDoesNotExist(e)) if e == stranger
    ));
    assert!(matches!(
        world.add_component_to_entity(stranger, type_of::<A>(), Value::Unit),
        Err(WorldError::EntityDoesNotExist(_))
    ));
}

#[test]
fn entities_maintain_component_values_after_moving() {
    let mut world = World::new();

    let entity = world.create_new_entity().unwrap(); // arch_0

    world.add_component_to_entity(entity, type_of::<usize>(), Value::Usize(10)).unwrap(); // arch_1
    world.add_component_to_entity(entity, type_of::<f32>(), Value::F32(123_f32)).unwrap(); // arch_2
    world.add_component_to_entity(entity, type_of::<i64>(), Value::I64(321)).unwrap(); // arch_3

    world.remove_component_type_from_entity(entity, type_of::<f32>()).unwrap(); // arch_4

    // fetch values from arch_4
    let archetype_4 = world.get_archetype(4).unwrap();

    let value_usize = values(archetype_4, type_of::<usize>()).first().unwrap();
    let value_i64 = values(archetype_4, type_of::<i64>()).first().unwrap();

    assert_eq!(*value_usize, Value::Usize(10));
    assert_eq!(*value_i64, Value::I64(321));
}

#[test]
fn world_does_not_panic_when_trying_to_immutably_borrow_same_components_twice() {
    let (world, _, _, _, _) = setup_world_with_3_entities_with_u32_and_i32_components();
    let indices: Vec<ArchetypeIndex> =
        world.get_archetype_indices(&[type_of::<u32>()]).into_iter().collect();

    let _first = world.borrow_component_vecs(&indices, type_of::<u32>());
    let _second = world.borrow_component_vecs(&indices, type_of::<u32>());
}

#[test]
fn type_id_order_does_not_affect_fetching_of_correct_archetype() {
    let (world, _, _, _, _) = setup_world_with_3_entities_with_u32_and_i32_components();

    let type_vector_1 = vec![type_of::<u32>(), type_of::<i32>()];
    let type_vector_2 = vec![type_of::<i32>(), type_of::<u32>()];
    let result_1 = world.get_exactly_matching_archetype(&type_vector_1).unwrap();
    let result_2 = world.get_exactly_matching_archetype(&type_vector_2).unwrap();

    assert_eq!(result_1, result_2);
}

#[test]
fn a_type_list_with_a_repeat_matches_no_archetype() {
    let (world, archetype, _, _, _) = setup_world_with_3_entities_with_u32_and_i32_components();
    let repeated = vec![type_of::<u32>(), type_of::<i32>(), type_of::<u32>()];
    assert_eq!(world.get_exactly_matching_archetype(&repeated), None);
    assert_eq!(world.get_exactly_matching_archetype(&vec![]), Some(0));
    assert_eq!(
        world.get_exactly_matching_archetype(&vec![type_of::<i32>(), type_of::<u32>()]),
        Some(archetype)
    );
}

#[test]
fn entities_are_in_expected_order_according_to_when_components_were_added() {
    let (world, relevant_archetype_index, entity1, entity2, entity3) =
        setup_world_with_3_entities_with_u32_and_i32_components();

    let archetype = world.get_archetype(relevant_archetype_index).unwrap();

    assert_eq!(*archetype.entities(), vec![entity1, entity2, entity3]);
}

#[test]
fn entity_order_swap_index_after_entity_has_been_moved_by_addition() {
    let (mut world, relevant_archetype_index, entity1, entity2, entity3) =
        setup_world_with_3_entities_with_u32_and_i32_components();

    world.add_component_to_entity(entity1, type_of::<usize>(), Value::Usize(1)).unwrap();

    let archetype = world.get_archetype(relevant_archetype_index).unwrap();

    assert_eq!(*archetype.entities(), vec![entity3, entity2]);
}

#[test]
fn entity_order_swap_index_after_entity_has_been_moved_by_removal() {
    let (mut world, relevant_archetype_index, entity1, entity2, entity3) =
        setup_world_with_3_entities_with_u32_and_i32_components();

    world.remove_component_type_from_entity(entity1, type_of::<u32>()).unwrap();

    let archetype = world.get_archetype(relevant_archetype_index).unwrap();

    assert_eq!(*archetype.entities(), vec![entity3, entity2]);
}

#[test]
fn entity_to_component_index_gives_expected_values_after_addition() {
    let (world, relevant_archetype_index, entity1, entity2, entity3) =
        setup_world_with_3_entities_with_u32_and_i32_components();

    let archetype = world.get_archetype(relevant_archetype_index).unwrap();

    assert_eq!(archetype.get_component_index_of(entity1).ok(), Some(0));
    assert_eq!(archetype.get_component_index_of(entity2).ok(), Some(1));
    assert_eq!(archetype.get_component_index_of(entity3).ok(), Some(2));
}

#[test]
fn entity_to_component_index_is_updated_after_move_by_removal() {
    let (mut world, relevant_archetype_index, entity1, entity2, entity3) =
        setup_world_with_3_entities_with_u32_and_i32_components();

    world.remove_component_type_from_entity(entity1, type_of::<u32>()).unwrap();

    let archetype = world.get_archetype(relevant_archetype_index).unwrap();

    assert!(archetype.get_component_index_of(entity1).is_err());
    assert_eq!(archetype.get_component_index_of(entity2).ok(), Some(1));
    assert_eq!(archetype.get_component_index_of(entity3).ok(), Some(0));
}

#[test]
fn entity_to_component_index_is_updated_after_move_by_addition() {
    let (mut world, relevant_archetype_index, entity1, entity2, entity3) =
        setup_world_with_3_entities_with_u32_and_i32_components();

    world.add_component_to_entity(entity1, type_of::<usize>(), Value::Usize(1)).unwrap();

    let archetype = world.get_archetype(relevant_archetype_index).unwrap();

    assert!(archetype.get_component_index_of(entity1).is_err());
    assert_eq!(archetype.get_component_index_of(entity2).ok(), Some(1));
    assert_eq!(archetype.get_component_index_of(entity3).ok(), Some(0));
}

#[test]
fn entity_to_component_index_gives_expected_values_after_removal() {
    let (mut world, relevant_archetype_index, entity1, entity2, entity3) =
        setup_world_with_3_entities_with_u32_and_i32_components();

    world.remove_component_type_from_entity(entity1, type_of::<u32>()).unwrap();

    let archetype_1 = world.get_archetype_of_entity(entity1).unwrap();
    let archetype_2 = world.get_archetype(relevant_archetype_index).unwrap();

    assert_eq!(archetype_1.get_component_index_of(entity1).ok(), Some(0));
    assert!(archetype_2.get_component_index_of(entity1).is_err());
    assert_eq!(archetype_2.get_component_index_of(entity2).ok(), Some(1));
    assert_eq!(archetype_2.get_component_index_of(entity3).ok(), Some(0));
}

#[test]
fn borrow_with_signature_returns_expected_values() {
    // Arrange
    let (world, _, _, _, _) = setup_world_with_3_entities_with_u32_and_i32_components();

    // Act
    let indices: Vec<ArchetypeIndex> =
        world.get_archetype_indices(&[type_of::<u32>()]).into_iter().collect();
    let vecs_u32 = world.borrow_component_vecs(&indices, type_of::<u32>()).unwrap();
    println!("vecs_u32 = {vecs_u32:#?}");

    // Assert
    let result = collect_u32(vecs_u32);
    println!("{result:?}");

    assert_eq!(result, HashSet::from([1, 2, 3]))
}

#[test]
fn borrowing_non_existent_component_returns_empty_vec() {
    // Arrange
    let (world, _, _, _, _) = setup_world_with_3_entities_with_u32_and_i32_components();

    // Act
    let indices: Vec<ArchetypeIndex> =
        world.get_archetype_indices(&[type_of::<f32>()]).into_iter().collect();
    let vecs_f32 = world.borrow_component_vecs(&indices, type_of::<f32>()).unwrap();
    println!("vecs_f32 = {vecs_f32:#?}");

    // Assert
    assert!(vecs_f32.is_empty())
}

#[test]
fn get_entity_from_component_index() {
    let (world, _, _, _, _) = setup_world_with_3_entities_with_u32_and_i32_components();

    //Get the first entity added to world
    let comp_entity = world.entities().get(0).copied().unwrap();

    //Get the archetype index of the archetype that stores that entity
    let archetype = world.get_archetype_of_entity(comp_entity).unwrap();

    //Get the first entity stored in that archetype, check that it is the same
    let get_entity = archetype.get_entity(0).unwrap();

    assert_eq!(comp_entity, get_entity);
}

#[test]
fn archetype_indices_need_every_type_of_the_signature() {
    let (world, _, _, _, _) = setup_world_with_3_entities_added_one_by_one();
    let with_u32 = world.get_archetype_indices(&[type_of::<u32>()]);
    let with_both = world.get_archetype_indices(&[type_of::<i32>(), type_of::<u32>()]);
    assert_eq!(with_u32, HashSet::from([1, 2]));
    assert_eq!(with_both, HashSet::from([2]));
    assert!(world.get_archetype_indices(&[]).is_empty());
    assert!(world.get_archetype_indices(&[type_of::<u32>(), type_of::<f32>()]).is_empty());
}

#[test]
fn intersection_returns_expected_values() {
    let cases: Vec<(Vec<Vec<usize>>, Vec<usize>)> = vec![
        (vec![vec![1, 2, 3]], vec![1, 2, 3]),
        (vec![vec![1, 2, 3], vec![1, 2, 3]], vec![1, 2, 3]),
        (vec![vec![1], vec![2, 3], vec![4]], vec![]),
        (vec![vec![1, 2], vec![2, 3], vec![3, 4]], vec![]),
        (vec![vec![1, 2, 3, 4], vec![2, 3], vec![3, 4]], vec![3]),
        (vec![vec![]], vec![]),
        (vec![vec![], vec![], vec![], vec![]], vec![]),
        (vec![vec![], vec![1, 2, 3, 4]], vec![]),
        (vec![vec![2, 1, 1, 1, 1], vec![1, 1, 1, 1, 2], vec![1, 1, 2, 1, 1]], vec![2, 1, 1, 1, 1]),
        (vec![], vec![]),
    ];
    for (test_vecs, expected_value) in cases {
        let sets: Vec<HashSet<usize>> =
            test_vecs.iter().map(|vec| HashSet::from_iter(vec.clone())).collect();
        let expected: HashSet<usize> = expected_value.into_iter().collect();

        let result = intersection_of_multiple_sets(&sets);

        assert_eq!(result, expected);
    }
}

#[test]
fn cursor_stops_at_an_archetype_without_the_component() {
    let first = vec![Value::U32(1), Value::U32(2)];
    let third = vec![Value::U32(5)];
    let mut cursor = ComponentCursor::new(vec![Some(&first), None, Some(&third)]);
    assert_eq!(cursor.fetch_parameter(), Some(&Value::U32(1)));
    assert_eq!(cursor.fetch_parameter(), Some(&Value::U32(2)));
    assert_eq!(cursor.fetch_parameter(), None);

    let mut cursor = ComponentCursor::new(vec![Some(&first), Some(&third)]);
    cursor.set_archetype_and_component_index(0, 1);
    assert_eq!(cursor.fetch_parameter(), Some(&Value::U32(2)));
    assert_eq!(cursor.fetch_parameter(), Some(&Value::U32(5)));
    assert_eq!(cursor.fetch_parameter(), None);
}

#[test]
fn two_mutable_borrows_write_their_own_elements() {
    let mut items = vec![1, 2, 3, 4];
    let (first, second) = get_mut_at_two_indices(3, 1, &mut items);
    assert_eq!((*first, *second), (4, 2));
    *first = 40;
    *second = 20;
    assert_eq!(items, vec![1, 20, 3, 40]);
    let (first, second) = get_mut_at_two_indices(0, 2, &mut items);
    std::mem::swap(first, second);
    assert_eq!(items, vec![3, 20, 1, 40]);
}

#[test]
fn read_parameter_hands_out_each_component_once() {
    let (world, archetype, _, _, _) = setup_world_with_3_entities_added_one_by_one();
    let mut borrowed = Read::borrow(&world, &[archetype], type_of::<u32>()).unwrap();
    let mut seen = vec![];
    while let Some(read) = Read::fetch_parameter(&mut borrowed) {
        seen.push(*read.output);
    }
    assert_eq!(seen, vec![Value::U32(1), Value::U32(2), Value::U32(3)]);

    Read::set_archetype_and_component_index(&mut borrowed, 0, 2);
    assert_eq!(Read::fetch_parameter(&mut borrowed).map(|r| *r.output), Some(Value::U32(3)));
    assert!(Read::fetch_parameter(&mut borrowed).is_none());
}

#[test]
fn read_parameter_of_missing_archetype_is_an_error() {
    let (world, _, _, _, _) = setup_world_with_3_entities_added_one_by_one();
    let result = Read::borrow(&world, &[0, 17, 18], type_of::<u32>());
    assert!(matches!(
        result,
        Err(SystemParameterError::BorrowComponentVecs(WorldError::ArchetypeDoesNotExist(17)))
    ));
}

#[test]
fn entity_parameter_hands_out_entities_in_storage_order() {
    let (world, archetype, entity1, entity2, entity3) = setup_world_with_3_entities_added_one_by_one();
    let mut borrowed = Entity::borrow(&world, &[0, archetype]).unwrap();
    let mut seen = vec![];
    while let Some(entity) = Entity::fetch_parameter(&mut borrowed) {
        seen.push(entity);
    }
    assert_eq!(seen, vec![entity1, entity2, entity3]);

    Entity::set_archetype_and_component_index(&mut borrowed, 1, 1);
    assert_eq!(Entity::fetch_parameter(&mut borrowed), Some(entity2));
    assert!(matches!(
        Entity::borrow(&world, &[9]),
        Err(SystemParameterError::BorrowComponentVecs(WorldError::ArchetypeDoesNotExist(9)))
    ));
}

#[test]
fn write_parameter_changes_each_component_once() {
    let (mut world, archetype, entity1, _, entity3) = setup_world_with_3_entities_added_one_by_one();
    let mut borrowed = Write::borrow(&world, &[archetype], type_of::<u32>()).unwrap();
    while let Some(write) = Write::fetch_parameter(&mut borrowed, &mut world) {
        let current = *write.output;
        if let Value::U32(v) = current {
            *write.output = Value::U32(v * 10);
        }
    }
    let read = world.borrow_component_vecs(&[archetype], type_of::<u32>()).unwrap();
    assert_eq!(read[0], Some(&vec![Value::U32(10), Value::U32(20), Value::U32(30)]));
    // The other component type is untouched.
    let read = world.borrow_component_vecs(&[archetype], type_of::<i32>()).unwrap();
    assert_eq!(read[0], Some(&vec![Value::I32(1), Value::I32(2), Value::I32(3)]));

    Write::<Value>::set_archetype_and_component_index(&mut borrowed, 0, 2);
    let write = Write::fetch_parameter(&mut borrowed, &mut world).unwrap();
    *write.output = Value::U32(0);
    assert!(Write::fetch_parameter(&mut borrowed, &mut world).is_none());
    assert_eq!(index_of(&world, entity1), archetype);
    assert_eq!(index_of(&world, entity3), archetype);
    let read = world.borrow_component_vecs(&[archetype], type_of::<u32>()).unwrap();
    assert_eq!(read[0], Some(&vec![Value::U32(10), Value::U32(20), Value::U32(0)]));
}

#[test]
fn write_parameter_stops_at_an_archetype_without_the_type() {
    let (mut world, archetype, _, _, _) = setup_world_with_3_entities_added_one_by_one();
    // Archetype 0 stores no component types, so the cursor hands out nothing.
    let mut borrowed = Write::borrow(&world, &[0, archetype], type_of::<u32>()).unwrap();
    assert!(Write::fetch_parameter(&mut borrowed, &mut world).is_none());
    assert!(matches!(
        Write::borrow(&world, &[archetype, 40], type_of::<u32>()),
        Err(SystemParameterError::BorrowComponentVecs(WorldError::ArchetypeDoesNotExist(40)))
    ));
}

#[test]
fn component_mut_replaces_one_component() {
    let (mut world, archetype, _, entity2, _) = setup_world_with_3_entities_added_one_by_one();
    *world.get_component_mut(archetype, &type_of::<i32>(), 1).unwrap() = Value::I32(-2);
    let read = world.borrow_component_vecs(&[archetype], type_of::<i32>()).unwrap();
    assert_eq!(read[0], Some(&vec![Value::I32(1), Value::I32(-2), Value::I32(3)]));
    assert_eq!(index_of(&world, entity2), archetype);
    assert!(world.get_component_mut(archetype, &type_of::<i64>(), 0).is_none());
    assert!(world.get_component_mut(archetype, &type_of::<i32>(), 3).is_none());
    assert!(world.get_component_mut(99, &type_of::<i32>(), 0).is_none());
}

#[test]
fn query_iterator_over_entities_hands_out_every_component() {
    let (world, archetype, _, _, _) = setup_world_with_3_entities_added_one_by_one();
    let borrowed = Read::borrow(&world, &[archetype], type_of::<u32>()).unwrap();
    let mut query = QueryIterator::new(borrowed, true);
    let mut seen = vec![];
    while let Some(value) = query.next() {
        seen.push(*value);
    }
    assert_eq!(seen, vec![Value::U32(1), Value::U32(2), Value::U32(3)]);
    assert!(query.next().is_none());
}

#[test]
fn query_iterator_not_over_entities_hands_out_one_item() {
    let (world, archetype, _, _, _) = setup_world_with_3_entities_added_one_by_one();
    let borrowed = Read::borrow(&world, &[archetype], type_of::<u32>()).unwrap();
    let mut query = QueryIterator::new(borrowed, false);
    assert_eq!(query.next().copied(), Some(Value::U32(1)));
    assert!(query.next().is_none());
    assert!(query.next().is_none());
}
