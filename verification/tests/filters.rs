use ecs::archetype_graph::Archetype;
use ecs::filter::{And, Filter, Not, Or, With, Without, Xor};
use ecs::world::World;
use std::any::TypeId;
use std::collections::HashSet;

struct TestResult;
struct A;
struct B;
struct C;

fn with<T: 'static>() -> With {
    With { component_type: TypeId::of::<T>() }
}

fn without<T: 'static>() -> Without {
    Not { filter: with::<T>() }
}

fn not<F>(filter: F) -> Not<F> {
    Not { filter }
}

fn and<L, R>(left: L, right: R) -> And<L, R> {
    And { left, right }
}

fn or<L, R>(left: L, right: R) -> Or<L, R> {
    Or { left, right }
}

fn xor<L, R>(left: L, right: R) -> Xor<L, R> {
    Xor { left, right }
}

/// A filter that matches any entity of the queried ones.
fn any() -> Or<With, Without> {
    or(with::<TestResult>(), without::<TestResult>())
}

/// Whether a query for `TestResult` with `filter` visits an entity that has the components
/// chosen by `a`, `b` and `c`.
fn test_filter<F: Filter<()>>(filter: F, a: bool, b: bool, c: bool) -> bool {
    let mut world: World<()> = World::new();
    let entity = world.create_new_entity().unwrap();
    world.add_component_to_entity(entity, TypeId::of::<TestResult>(), ()).unwrap();
    if a {
        world.add_component_to_entity(entity, TypeId::of::<A>(), ()).unwrap();
    }
    if b {
        world.add_component_to_entity(entity, TypeId::of::<B>(), ()).unwrap();
    }
    if c {
        world.add_component_to_entity(entity, TypeId::of::<C>(), ()).unwrap();
    }
    let universe = world.get_archetype_indices(&[TypeId::of::<TestResult>()]);
    let picked = filter.filter(&universe, &world);
    let visited: HashSet<usize> = universe.intersection(&picked).copied().collect();
    visited.contains(&world.get_archetype_index_of_entity(entity).unwrap())
}

fn all_cases() -> Vec<(bool, bool, bool)> {
    let mut cases = vec![];
    for a in [false, true] {
        for b in [false, true] {
            for c in [false, true] {
                cases.push((a, b, c));
            }
        }
    }
    cases
}

#[test]
fn filters_match_by_component_types() {
    for (a, b, c) in all_cases() {
        assert_eq!(test_filter(with::<A>(), a, b, c), a);
        assert_eq!(test_filter(without::<A>(), a, b, c), !a);
        assert!(test_filter(any(), a, b, c));
        assert!(!test_filter(not(any()), a, b, c));
        assert_eq!(test_filter(not(not(with::<A>())), a, b, c), a);
        assert_eq!(test_filter(and(with::<A>(), with::<B>()), a, b, c), a && b);
        assert_eq!(test_filter(or(with::<A>(), with::<B>()), a, b, c), a || b);
        assert_eq!(test_filter(xor(with::<A>(), with::<B>()), a, b, c), a != b);
    }
}

#[test]
fn filters_obey_de_morgans_laws_and_distributivity() {
    for (a, b, c) in all_cases() {
        assert_eq!(
            test_filter(or(with::<A>(), with::<B>()), a, b, c),
            test_filter(not(and(without::<A>(), without::<B>())), a, b, c)
        );
        assert_eq!(
            test_filter(and(with::<A>(), with::<B>()), a, b, c),
            test_filter(not(or(without::<A>(), without::<B>())), a, b, c)
        );
        assert_eq!(
            test_filter(or(with::<A>(), and(with::<B>(), with::<C>())), a, b, c),
            test_filter(and(or(with::<A>(), with::<B>()), or(with::<A>(), with::<C>())), a, b, c)
        );
        assert_eq!(
            test_filter(xor(with::<A>(), with::<B>()), a, b, c),
            test_filter(
                or(and(with::<A>(), without::<B>()), and(without::<A>(), with::<B>())),
                a,
                b,
                c
            )
        );
    }
}

#[test]
fn add_removes() {
    let archetype = Archetype {
        a_id: 0,
        entities: Vec::new(),
        columns: Vec::new(),
        add_edge: Vec::new(),
        remove_edge: Vec::new(),
    };

    let archetype = Archetype::new_from_add(&archetype, TypeId::of::<u32>());
    assert!(archetype.columns.len() == 1);
    assert!(archetype.columns.iter().find(|col| **col == TypeId::of::<u32>()).is_some());

    let archetype = Archetype::new_from_add(&archetype, TypeId::of::<u64>());
    assert!(archetype.columns.len() == 2);
    assert!(archetype.columns.iter().find(|col| **col == TypeId::of::<u32>()).is_some());
    assert!(archetype.columns.iter().find(|col| **col == TypeId::of::<u64>()).is_some());

    let archetype = Archetype::new_from_remove(&archetype, TypeId::of::<u32>());
    assert!(archetype.columns.len() == 1);
    assert!(archetype.columns.iter().find(|col| **col == TypeId::of::<u64>()).is_some());
}

#[test]
fn columns_builder() {
    let archetype = Archetype::new_from_columns(
        Archetype::builder()
            .with_column_type(TypeId::of::<u32>())
            .with_column_type(TypeId::of::<u64>())
            .with_column_type(TypeId::of::<bool>()),
    );

    assert!(archetype.columns.len() == 3);
    assert!(archetype.columns.iter().find(|col| **col == TypeId::of::<u32>()).is_some());
    assert!(archetype.columns.iter().find(|col| **col == TypeId::of::<u64>()).is_some());
    assert!(archetype.columns.iter().find(|col| **col == TypeId::of::<bool>()).is_some());
}

#[test]
fn archetypes_made_from_others_link_back_to_them() {
    let root = Archetype::new_from_columns(Archetype::builder());
    let added = Archetype::new_from_add(&root, TypeId::of::<u8>());
    assert_eq!(added.a_id, 1);
    assert_eq!(added.remove_edge.len(), 1);
    assert!(added.add_edge.is_empty());
    let removed = Archetype::new_from_remove(&added, TypeId::of::<u8>());
    assert_eq!(removed.a_id, 0);
    assert!(removed.columns.is_empty());
    assert_eq!(removed.add_edge[0].columns, vec![TypeId::of::<u8>()]);
}
