use ecs::sparse_data_storage::SparseDataSet;
use ecs::sparse_set::SparseSet;

#[test]
fn element_removed_after_removal() {
    // Arrange
    let mut s = SparseSet::new(10);
    s.insert(1);
    s.insert(2);
    s.insert(3);

    // Act
    s.remove(2);

    // Assert
    assert!(!s.contains(2));
}

#[test]
fn contains_empty() {
    // Arrange
    let s = SparseSet::new(10);

    // Assert
    assert!(!s.contains(2));
}

#[test]
fn double_insert_equals_single_insert() {
    // Arrange
    let mut s = SparseSet::new(10);

    // Act
    s.insert(2);
    s.insert(3);
    s.insert(2);

    // Assert
    assert_eq!(*s.dense(), vec![2, 3]);
}

#[test]
fn it_works() {
    let mut s = SparseSet::new(10);

    s.insert(2);
    s.insert(1);
    s.insert(9);
    s.insert(5);

    println!("Insert: ");
    println!("s.sparse = {:?}", s.sparse());
    println!("s.dense = {:?}", s.dense());

    s.remove(2);
    s.remove(9);
    s.remove(0);

    println!("Remove: ");
    println!("s.sparse = {:?}", s.sparse());
    println!("s.dense = {:?}", s.dense());

    println!("s.contains(1) = {:?}", s.contains(1));
    println!("s.contains(2) = {:?}", s.contains(2));
    println!("s.contains(3) = {:?}", s.contains(3));
    println!("s.contains(100) = {:?}", s.contains(100));
}

#[test]
fn sparse_set_insertion_shifts_the_index() {
    let mut s = SparseSet::new(3);
    s.insert(1);
    assert_eq!(*s.dense(), vec![1]);
    assert_eq!(*s.sparse(), vec![0, 0, 0, 0]);
    s.insert(0);
    assert_eq!(*s.dense(), vec![1, 0]);
    assert_eq!(*s.sparse(), vec![1, 0, 0, 0, 0]);
    assert!(s.contains(0));
    assert!(s.contains(1));
}

#[test]
fn sparse_set_removal_moves_last_element() {
    let mut s = SparseSet::new(10);
    s.insert(2);
    s.insert(1);
    s.insert(9);
    s.insert(5);
    assert_eq!(*s.dense(), vec![2, 1, 9, 5]);
    s.remove(2);
    assert_eq!(*s.dense(), vec![5, 1, 9]);
    s.remove(9);
    assert_eq!(*s.dense(), vec![9, 1]);
    s.remove(0);
    assert_eq!(*s.dense(), vec![1]);
    assert!(s.contains(1));
    assert!(!s.contains(2));
    assert!(!s.contains(3));
    assert!(!s.contains(100));
}

#[test]
fn inserted_element_is_contained() {
    let mut s = SparseSet::new(4);
    for e in 0..4 {
        s.insert(e);
        assert!(s.contains(e));
    }
}

#[test]
fn double_insert_should_be_valid() {
    // Arrange
    let mut s: SparseDataSet<u8> = SparseDataSet::new(10);
    // Act
    s.insert(3, 10);
    s.insert(3, 10);
    // Assert
    assert_eq!(*s.dense(), vec![3]);
}

#[test]
fn insert_overrides_old_data() {
    // Arrange
    let mut s: SparseDataSet<u32> = SparseDataSet::new(10);
    // Act
    s.insert(3, 10);
    s.insert(3, 12);
    // Assert
    assert_eq!(*s.data(), vec![12]);
}

#[test]
fn multiple_insert_adds_data() {
    // Arrange
    let mut s: SparseDataSet<u32> = SparseDataSet::new(10);
    // Act
    s.insert(4, 12);
    s.insert(0, 18);
    s.insert(1, 99);
    // Assert
    assert_eq!(*s.data(), vec![12, 18, 99]);
}

#[test]
fn double_remove_should_be_valid() {
    // Arrange
    let mut s: SparseDataSet<u32> = SparseDataSet::new(10);
    // Act
    s.remove(0);
    s.remove(0);
    // Assert
    assert_eq!(*s.data(), vec![]);
}

#[test]
fn contains_nothing() {
    // Arrange
    let s: SparseDataSet<u32> = SparseDataSet::new(10);
    // Act
    let result = s.contains(1);
    // Assert
    assert_eq!(result, false);
}

#[test]
fn contains_one_element() {
    // Arrange
    let mut s: SparseDataSet<u32> = SparseDataSet::new(10);
    s.insert(1, 12);
    // Act
    let result = s.contains(1);
    // Assert
    assert_eq!(result, true);
}

#[test]
fn contains_one_of_multiple() {
    // Arrange
    let mut s: SparseDataSet<u32> = SparseDataSet::new(10);
    s.insert(7, 6);
    s.insert(1, 15);
    s.insert(0, 1);
    // Act
    let result = s.contains(1);
    // Assert
    assert_eq!(result, true);
}

#[test]
fn sparse_data_set_get_and_get_mut() {
    let mut s: SparseDataSet<u32> = SparseDataSet::new(10);
    s.insert(7, 6);
    s.insert(1, 15);
    assert_eq!(s.get_index(1), Some(1));
    assert_eq!(s.get(7), Some(&6));
    assert_eq!(s.get(1), Some(&15));
    assert_eq!(s.get(2), Some(&6));
    if let Some(value) = s.get_mut(1) {
        *value = 40;
    }
    assert_eq!(*s.data(), vec![6, 40]);
    assert_eq!(s.get_mut(9).copied(), Some(6));
}

#[test]
fn sparse_data_set_removal_moves_last_value() {
    let mut s: SparseDataSet<u32> = SparseDataSet::new(10);
    s.insert(4, 12);
    s.insert(0, 18);
    s.insert(1, 99);
    s.remove(4);
    assert_eq!(*s.dense(), vec![1, 0]);
    assert_eq!(*s.data(), vec![99, 18]);
    assert!(!s.contains(4));
}
