use ecs::column::{new_empty_column, Column, TypedColumn};
use ecs::table::Table;
use std::any::{Any, TypeId};

/// The component values stored in the tables of these tests.
#[derive(Debug, Clone, Copy, PartialEq)]
enum Value {
    U8(u8),
    U32(u32),
    I32(i32),
    I64(i64),
    F32(f32),
    F64(f64),
}

#[test]
fn typeid_test() {
    let a = 1;
    let b = 2.0;
    println!("a.type_id() = {:?}", a.type_id());
    println!("b.type_id() = {:?}", b.type_id());
}

#[test]
fn new_empty_column_contains_only_option_none() {
    // Act
    let column = new_empty_column::<Value>(TypeId::of::<i32>(), 100);

    // Assert
    assert_eq!(column.cells.len(), 100);
    column.cells.iter().for_each(|x| assert!(x.is_none()));
}

#[test]
fn elements_are_swaped_correctly() {
    // Arrange
    let mut column = TypedColumn {
        component_type: TypeId::of::<f64>(),
        cells: vec![Some(Value::F64(1.0)), Some(Value::F64(2.0)), Some(Value::F64(3.0))],
    };

    // Act
    column.swap_remove(1);

    // Assert
    assert_eq!(column.cells, vec![Some(Value::F64(1.0)), Some(Value::F64(3.0))]);
}

#[test]
fn column_copies_keep_the_type_and_drop_the_cells() {
    let mut column = new_empty_column::<Value>(TypeId::of::<u32>(), 2);
    column.add_empty_cell();
    assert_eq!(column.cells.len(), 3);
    let copy = column.empty_copy(5);
    assert_eq!(copy.stored_type_id(), TypeId::of::<u32>());
    assert!(copy.cells.is_empty());
}

#[test]
fn table_stores_expected_type() {
    // Arrange
    let mut t = Table::new();

    t.insert(0, TypeId::of::<u32>(), Value::U32(1));
    t.insert(1, TypeId::of::<f32>(), Value::F32(2.0));
    t.insert(2, TypeId::of::<f64>(), Value::F64(3.0));

    // Act
    let result = t.get_column_ref(TypeId::of::<u32>()).unwrap().stored_type_id();

    // Assert
    assert_eq!(result, TypeId::of::<u32>());
}

#[test]
fn table_returns_none_if_column_is_not_present() {
    // Arrange
    let mut t = Table::new();
    t.insert(0, TypeId::of::<u32>(), Value::U32(1));

    // Act
    let result = t.get_column_as_vec(TypeId::of::<u64>());

    // Assert
    assert!(result.is_none())
}

#[test]
fn test_get_column() {
    let mut table = Table::new();
    table.columns.push(TypedColumn {
        component_type: TypeId::of::<i32>(),
        cells: vec![Some(Value::I32(3)), Some(Value::I32(4)), Some(Value::I32(5))],
    });
    table.columns.push(TypedColumn {
        component_type: TypeId::of::<f64>(),
        cells: vec![Some(Value::F64(6.0)), Some(Value::F64(7.0)), Some(Value::F64(8.0))],
    });

    if let Some(r) = table.get_column_as_vec_mut(TypeId::of::<i32>()) {
        r.push(Some(Value::I32(1)));
        r.push(Some(Value::I32(2)));
        r.push(Some(Value::I32(3)));
        r.push(Some(Value::I32(4)));
    }

    let r1 = table.get_column_as_vec(TypeId::of::<i32>());

    println!("result = {:#?}", r1.unwrap());
}

#[test]
fn get_column_as_vec_mut_writes_into_the_table() {
    let mut table = Table::new();
    table.insert(0, TypeId::of::<i32>(), Value::I32(3));
    if let Some(r) = table.get_column_as_vec_mut(TypeId::of::<i32>()) {
        r.push(Some(Value::I32(1)));
    }
    assert_eq!(
        *table.get_column_as_vec(TypeId::of::<i32>()).unwrap(),
        vec![Some(Value::I32(3)), Some(Value::I32(1))]
    );
    assert!(table.get_column_mut(TypeId::of::<u8>()).is_none());
}

#[test]
fn empty_table_produces_clone() {
    let mut table = Table::new();

    table.insert(0, TypeId::of::<u32>(), Value::U32(1));
    table.insert(1, TypeId::of::<u32>(), Value::U32(2));
    table.insert(0, TypeId::of::<f64>(), Value::F64(3.0));
    table.insert(1, TypeId::of::<f64>(), Value::F64(4.0));

    let new_empty = table.new_empty_table();

    let a = new_empty.get_all_type_ids();

    println!("a = {:#?}", a);
    let b = table.get_all_type_ids();

    println!("a = {:#?}", b);
}

#[test]
fn empty_table_has_the_same_column_types_and_no_rows() {
    let mut table = Table::new();
    table.insert(0, TypeId::of::<u32>(), Value::U32(1));
    table.insert(0, TypeId::of::<f64>(), Value::F64(3.0));

    let new_empty = table.new_empty_table();

    assert_eq!(new_empty.get_all_type_ids(), vec![TypeId::of::<u32>(), TypeId::of::<f64>()]);
    assert_eq!(table.get_all_type_ids(), vec![TypeId::of::<u32>(), TypeId::of::<f64>()]);
    assert!(new_empty.get_column_as_vec(TypeId::of::<u32>()).unwrap().is_empty());
    assert!(new_empty.entity_id_to_index.is_empty());
}

#[test]
fn remove_component_removes_component() {
    // Arrange
    let mut table = Table::new();

    table.insert(0, TypeId::of::<u32>(), Value::U32(1));
    table.insert(1, TypeId::of::<u32>(), Value::U32(2));
    table.insert(0, TypeId::of::<f64>(), Value::F64(3.0));
    table.insert(1, TypeId::of::<f64>(), Value::F64(4.0));

    // Act
    table.remove_component(1, TypeId::of::<u32>());

    // Assert
    let a = table.get_column_as_vec(TypeId::of::<u32>()).unwrap();
    let b = table.get_column_as_vec(TypeId::of::<f64>()).unwrap();

    assert_eq!(*a, vec![Some(Value::U32(1)), None]);
    assert_eq!(*b, vec![Some(Value::F64(3.0)), Some(Value::F64(4.0))]);
}

#[test]
fn remove_entity_works() {
    // Arrange
    let mut table = Table::new();

    table.insert(0, TypeId::of::<u32>(), Value::U32(1));
    table.insert(1, TypeId::of::<u32>(), Value::U32(2));
    table.insert(2, TypeId::of::<u32>(), Value::U32(3));
    table.insert(0, TypeId::of::<f64>(), Value::F64(4.0));
    table.insert(1, TypeId::of::<f64>(), Value::F64(5.0));
    table.insert(2, TypeId::of::<f64>(), Value::F64(6.0));

    // Act
    table.remove_entity(1);

    // Assert
    let a = table.get_column_as_vec(TypeId::of::<u32>()).unwrap();
    let b = table.get_column_as_vec(TypeId::of::<f64>()).unwrap();

    assert_eq!(*a, vec![Some(Value::U32(1)), Some(Value::U32(3))]);
    assert_eq!(*b, vec![Some(Value::F64(4.0)), Some(Value::F64(6.0))]);
}

#[test]
fn removing_an_unknown_entity_changes_nothing() {
    let mut table = Table::new();
    table.insert(0, TypeId::of::<u32>(), Value::U32(1));
    table.remove_entity(7);
    table.remove_component(7, TypeId::of::<u32>());
    assert_eq!(*table.get_column_as_vec(TypeId::of::<u32>()).unwrap(), vec![Some(Value::U32(1))]);
    assert_eq!(table.entity_id_to_index.get(&0), Some(&0));
}

#[test]
fn insert_keeps_column_alignment() {
    // Arrange
    let mut table = Table::new();

    table.insert(0, TypeId::of::<u32>(), Value::U32(1));
    table.insert(1, TypeId::of::<f64>(), Value::F64(2.0));
    table.insert(2, TypeId::of::<u32>(), Value::U32(3));

    // Act
    let a = table.get_column_as_vec(TypeId::of::<u32>()).unwrap();
    let b = table.get_column_as_vec(TypeId::of::<f64>()).unwrap();

    // Assert
    assert_eq!(*a, vec![Some(Value::U32(1)), None, Some(Value::U32(3))]);
    assert_eq!(*b, vec![None, Some(Value::F64(2.0)), None]);
}

#[test]
fn double_insert_updates_value() {
    // Arrange
    let mut table = Table::new();

    table.insert(12, TypeId::of::<u8>(), Value::U8(255));
    table.insert(55, TypeId::of::<f32>(), Value::F32(33.5));
    table.insert(12, TypeId::of::<i64>(), Value::I64(-72));
    table.insert(12, TypeId::of::<i64>(), Value::I64(100));

    // Act
    let a = table.get_column_as_vec(TypeId::of::<u8>()).unwrap();
    let b = table.get_column_as_vec(TypeId::of::<f32>()).unwrap();
    let c = table.get_column_as_vec(TypeId::of::<i64>()).unwrap();

    // Assert
    assert_eq!(*a, vec![Some(Value::U8(255)), None]);
    assert_eq!(*b, vec![None, Some(Value::F32(33.5))]);
    assert_eq!(*c, vec![Some(Value::I64(100)), None]);
}
