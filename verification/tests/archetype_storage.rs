use ecs::archetype_storage::Archetype;
use std::any::TypeId;

/// The component values stored in the archetypes of these tests.
#[derive(Debug, Clone, Copy, PartialEq)]
enum Value {
    U8(u8),
    U32(u32),
    F64(f64),
}

#[test]
fn func() {
    let mut s = Archetype::new(vec![TypeId::of::<u32>()]);

    s.insert(0, TypeId::of::<u32>(), Value::U32(12));
    s.insert(1, TypeId::of::<u32>(), Value::U32(12));

    let r = s.get_ref(1, &TypeId::of::<u32>()).unwrap();
    println!("{:?}", r);
}

#[test]
fn storage_returns_some_when_value_present() {
    // Arrange
    let mut s = Archetype::new(vec![TypeId::of::<u32>()]);
    s.insert(23, TypeId::of::<u32>(), Value::U32(23));
    // Act
    let result = s.get_ref(23, &TypeId::of::<u32>());
    // Assert
    assert_eq!(result, Some(&Value::U32(23)));
}

#[test]
fn double_insert_results_in_updated_value() {
    // Arrange
    let mut s = Archetype::new(vec![TypeId::of::<f64>()]);
    s.insert(12, TypeId::of::<f64>(), Value::F64(15.0));
    // Act
    s.insert(12, TypeId::of::<f64>(), Value::F64(20.0));
    let result = s.get_ref(12, &TypeId::of::<f64>());
    // Assert
    assert_eq!(result, Some(&Value::F64(20.0)));
}

#[test]
fn empty_archetype_returns_none() {
    let s: Archetype<Value> = Archetype::new(vec![]);
    assert_eq!(s.get_ref(23, &TypeId::of::<u32>()), None);
}

#[test]
fn missing_component_type_returns_none() {
    let mut s = Archetype::new(vec![]);
    s.insert(1, TypeId::of::<u32>(), Value::U32(4));
    assert_eq!(s.get_ref(1, &TypeId::of::<u8>()), None);
    assert_eq!(s.get_ref(2, &TypeId::of::<u32>()), None);
}

#[test]
fn second_entity_is_stored_after_the_first() {
    let mut s = Archetype::new(vec![]);
    s.insert(1, TypeId::of::<u32>(), Value::U32(4));
    s.insert(2, TypeId::of::<u32>(), Value::U32(5));
    assert_eq!(s.get_ref(1, &TypeId::of::<u32>()), Some(&Value::U32(4)));
    assert_eq!(s.get_ref(2, &TypeId::of::<u32>()), Some(&Value::U32(5)));
    assert_eq!(s.entity_to_component_index.get(&2), Some(&1));
}

#[test]
fn new_component_type_joins_the_archetype_id() {
    let mut s = Archetype::new(vec![TypeId::of::<u32>()]);
    s.insert(1, TypeId::of::<u8>(), Value::U8(6));
    assert_eq!(s.archetype_id.len(), 2);
    assert!(s.archetype_id.contains(&TypeId::of::<u8>()));
    assert!(s.archetype_id.contains(&TypeId::of::<u32>()));
    let mut sorted = s.archetype_id.clone();
    sorted.sort();
    assert_eq!(sorted, s.archetype_id);
    // A type that already has a vector leaves the id as it is.
    s.insert(2, TypeId::of::<u8>(), Value::U8(7));
    assert_eq!(s.archetype_id.len(), 2);

    // Whichever order the types come in, the id ends up the same, sorted.
    let mut other = Archetype::new(vec![TypeId::of::<u8>()]);
    other.insert(1, TypeId::of::<u32>(), Value::U32(6));
    assert_eq!(other.archetype_id, s.archetype_id);
}

#[test]
fn get_mut_writes_through() {
    let mut s = Archetype::new(vec![]);
    s.insert(1, TypeId::of::<u32>(), Value::U32(4));
    *s.get_mut(1, &TypeId::of::<u32>()).unwrap() = Value::U32(40);
    assert_eq!(s.get_ref(1, &TypeId::of::<u32>()), Some(&Value::U32(40)));
    assert!(s.get_mut(1, &TypeId::of::<u8>()).is_none());
}

#[test]
fn component_vector_mut_exposes_the_vector() {
    let mut s = Archetype::new(vec![]);
    s.insert(1, TypeId::of::<u32>(), Value::U32(4));
    s.insert(2, TypeId::of::<u32>(), Value::U32(5));
    let v = s.get_component_vector_mut(&TypeId::of::<u32>()).unwrap();
    assert_eq!(v, &vec![Value::U32(4), Value::U32(5)]);
    v.push(Value::U32(6));
    assert_eq!(
        s.get_component_vector_mut(&TypeId::of::<u32>()).map(|v| v.len()),
        Some(3)
    );
    assert!(s.get_component_vector_mut(&TypeId::of::<u8>()).is_none());
}

#[test]
fn index_map_is_shared_between_types() {
    // The entity's index is that of its latest stored component, whatever its type.
    let mut s = Archetype::new(vec![]);
    s.insert(0, TypeId::of::<u32>(), Value::U32(1));
    s.insert(1, TypeId::of::<u32>(), Value::U32(2));
    s.insert(1, TypeId::of::<u8>(), Value::U8(3));
    assert_eq!(s.get_ref(1, &TypeId::of::<u8>()), Some(&Value::U8(3)));
    assert_eq!(s.get_ref(1, &TypeId::of::<u32>()), Some(&Value::U32(1)));
}
