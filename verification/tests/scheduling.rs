use ecs::dag::DAG;
use ecs::names::name_before;
use ecs::scheduler::{conflicts_with, generate_stages, SystemParametersVec};
use ecs::systems::SystemParameters;

const T1: &str = "scheduler_tests::TestComponent1";
const T2: &str = "scheduler_tests::TestComponent2";
const T3: &str = "scheduler_tests::TestComponent3";

fn indices(stage: &[(usize, (Vec<String>, Vec<String>))]) -> Vec<usize> {
    stage.iter().map(|(i, _)| *i).collect()
}

#[test]
fn stage_generation_independent() {
    let mut parameters: SystemParametersVec = Vec::new();
    let t1 = T1;
    let t2 = T2;
    parameters.push((vec![], vec![t1.into()]));
    parameters.push((vec![], vec![t2.into()]));
    let stages = generate_stages(parameters);
    assert_eq!(stages.len(), 1);
}

#[test]
fn stage_generation_dependent() {
    let mut parameters: SystemParametersVec = Vec::new();
    let t1 = T1;

    parameters.push((vec![], vec![t1.into()]));
    parameters.push((vec![t1.into()], vec![]));
    let stages = generate_stages(parameters);
    assert_eq!(stages.len(), 2);
}

#[test]
fn stage_generation_dependent_added_after() {
    let mut parameters: SystemParametersVec = Vec::new();
    let t1 = T1;
    let t2 = T2;
    parameters.push((vec![], vec![t1.into()]));
    parameters.push((vec![], vec![t1.into(), t2.into()]));
    parameters.push((vec![], vec![t2.into()]));

    let stages = generate_stages(parameters);

    assert_eq!(stages.len(), 2);
}

#[test]
fn stages_place_each_system_in_the_first_stage_without_conflict() {
    let parameters: SystemParametersVec = vec![
        (vec![], vec![T1.into()]),
        (vec![], vec![T1.into(), T2.into()]),
        (vec![], vec![T2.into()]),
        (vec![T3.into()], vec![]),
        (vec![T1.into()], vec![T3.into()]),
    ];
    let stages = generate_stages(parameters);
    let grouped: Vec<Vec<usize>> = stages.iter().map(|s| indices(s)).collect();
    assert_eq!(grouped, vec![vec![0, 2, 3], vec![1], vec![4]]);
    assert_eq!(stages[0][1].1 .1, vec![T2.to_string()]);
}

#[test]
fn conflict_is_a_write_of_what_the_other_system_reads_or_writes() {
    let writer = (vec![], vec![T1.to_string()]);
    let reader = (vec![T1.to_string()], vec![]);
    let other = (vec![T2.to_string()], vec![T3.to_string()]);
    assert!(conflicts_with(&reader, &writer));
    assert!(conflicts_with(&writer, &writer));
    assert!(conflicts_with(&writer, &reader));
    assert!(!conflicts_with(&reader, &reader));
    assert!(!conflicts_with(&other, &writer));
    assert!(!conflicts_with(&writer, &other));
}

#[test]
fn dag_generation_independent() {
    let mut dag = DAG::new();
    let mut parameters: SystemParametersVec = Vec::new();
    let t1 = T1;
    let t2 = T2;
    parameters.push((vec![], vec![t1.into()]));
    parameters.push((vec![], vec![t2.into()]));

    dag.generate_dag(parameters);

    assert_eq!(dag.nodes, vec![0, 1]);
    assert_eq!(dag.edges, vec![])
}

#[test]
fn dag_generation_dependent() {
    let mut dag = DAG::new();
    let mut parameters: SystemParametersVec = Vec::new();
    let t1 = T1;

    parameters.push((vec![], vec![t1.into()]));
    parameters.push((vec![t1.into()], vec![]));

    dag.generate_dag(parameters);

    assert_eq!(dag.nodes, vec![0, 1]);
    assert_eq!(dag.edges, vec![(0, 1)])
}

#[test] //This test shows that the DAG is not generated to get shortest path
fn dag_generation_dependent_added_after() {
    let mut dag = DAG::new();
    let mut parameters: SystemParametersVec = Vec::new();
    let t1 = T1;
    let t2 = T2;
    parameters.push((vec![], vec![t1.into()]));
    parameters.push((vec![], vec![t1.into(), t2.into()]));
    parameters.push((vec![], vec![t2.into()]));

    dag.generate_dag(parameters);

    assert_eq!(dag.nodes, vec![0, 1, 2]);
    assert_eq!(dag.edges, vec![(0, 1), (1, 2)])
}

#[test]
fn dag_walks_components_in_name_order() {
    // "b" is walked before "c" although system 0 names "c" first.
    let mut dag = DAG::new();
    let parameters: SystemParametersVec = vec![
        (vec!["c".to_string()], vec![]),
        (vec!["b".to_string()], vec![]),
        (vec![], vec!["b".to_string(), "c".to_string()]),
    ];
    dag.generate_dag(parameters);
    assert_eq!(dag.nodes, vec![1, 2, 0]);
    assert_eq!(dag.edges, vec![(1, 2), (0, 2)]);
}

#[test]
fn dag_readers_between_writers_depend_on_both() {
    let mut dag = DAG::new();
    let parameters: SystemParametersVec = vec![
        (vec![], vec!["a".to_string()]),
        (vec!["a".to_string()], vec![]),
        (vec![], vec!["a".to_string()]),
        (vec!["a".to_string()], vec![]),
    ];
    dag.generate_dag(parameters);
    assert_eq!(dag.nodes, vec![0, 1, 2, 3]);
    assert_eq!(dag.edges, vec![(0, 1), (1, 2), (2, 3)]);
}

#[test]
fn add_node_and_edge_ignore_duplicates() {
    let mut dag = DAG::new();
    dag.add_node(3);
    dag.add_node(3);
    dag.add_edge(1, 2);
    dag.add_edge(1, 2);
    assert_eq!(dag.nodes, vec![3]);
    assert_eq!(dag.edges, vec![(1, 2)]);
}

#[test]
fn names_are_ordered_by_their_bytes() {
    assert!(name_before(&"a".to_string(), &"b".to_string()));
    assert!(name_before(&"ab".to_string(), &"b".to_string()));
    assert!(name_before(&"a".to_string(), &"ab".to_string()));
    assert!(!name_before(&"b".to_string(), &"ab".to_string()));
    assert!(!name_before(&"a".to_string(), &"a".to_string()));
    assert!(name_before(&"Z".to_string(), &"a".to_string()));
    assert!(name_before(&"z".to_string(), &"é".to_string()));
}

#[test]
fn a_writer_after_a_reader_of_the_same_component_gets_its_own_stage() {
    let mut parameters: SystemParametersVec = Vec::new();
    parameters.push((vec![T1.into()], vec![]));
    parameters.push((vec![], vec![T1.into()]));
    parameters.push((vec![T2.into()], vec![]));
    let stages = generate_stages(parameters);
    let indices: Vec<Vec<usize>> =
        stages.iter().map(|stage| stage.iter().map(|(i, _)| *i).collect()).collect();
    assert_eq!(indices, vec![vec![0, 2], vec![1]]);
    let reader = (vec![T1.to_string()], vec![]);
    let writer = (vec![], vec![T1.to_string()]);
    assert!(conflicts_with(&writer, &reader));
    assert!(conflicts_with(&reader, &writer));
}

fn reaches(edges: &[(usize, usize)], from: usize, to: usize) -> bool {
    let mut seen = vec![from];
    let mut k = 0;
    while k < seen.len() {
        let here = seen[k];
        for &(a, b) in edges {
            if a == here && !seen.contains(&b) {
                seen.push(b);
            }
        }
        k += 1;
    }
    seen.contains(&to)
}

#[test]
fn dag_orders_every_conflicting_pair() {
    // A system that reads and writes the same type, readers around it, and a second writer:
    // every earlier system that conflicts with a later one reaches it.
    let mut dag = DAG::new();
    let parameters: SystemParametersVec = vec![
        (vec!["a".to_string()], vec![]),
        (vec!["a".to_string()], vec!["a".to_string()]),
        (vec!["a".to_string()], vec![]),
        (vec!["b".to_string()], vec!["a".to_string()]),
        (vec![], vec!["b".to_string()]),
    ];
    dag.generate_dag(parameters);
    let conflicts = [(0, 1), (0, 3), (1, 2), (1, 3), (2, 3), (3, 4)];
    for (a, b) in conflicts {
        assert!(reaches(&dag.edges, a, b), "{} should reach {}", a, b);
    }
    for &(a, b) in &dag.edges {
        assert!(a <= b);
    }
}

#[test]
fn no_system_parameters_access_nothing_and_run_serially() {
    assert!(<() as SystemParameters>::component_accesses().is_empty());
    assert!(!<() as SystemParameters>::supports_parallelization());
}

#[test]
fn dag_system_reading_and_writing_a_type_depends_on_itself() {
    // The read is taken as the writer's own entry, so the write that follows it gets an edge
    // from the writer: the graph only points forward up to such self-edges.
    let mut dag = DAG::new();
    let parameters: SystemParametersVec = vec![(vec!["a".to_string()], vec!["a".to_string()])];
    dag.generate_dag(parameters);
    assert_eq!(dag.nodes, vec![0]);
    assert_eq!(dag.edges, vec![(0, 0)]);
}
