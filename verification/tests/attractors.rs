use biodivine_lib_param_bn::symbolic_async_graph::{GraphColoredVertices, SymbolicAsyncGraph};
use biodivine_lib_param_bn::BooleanNetwork;
use std::convert::TryFrom;

use symbolic_attractors::algorithms::find_attractors;
use symbolic_attractors::algorithms::find_attractors_lockstep;

fn graph_of(model: &str) -> SymbolicAsyncGraph {
    let network = BooleanNetwork::try_from(model).unwrap();
    SymbolicAsyncGraph::new(&network).unwrap()
}

fn all_variables(graph: &SymbolicAsyncGraph) -> Vec<usize> {
    let mut variables = Vec::new();
    let mut i = 0;
    while i < graph.num_vars() {
        variables.push(i);
        i += 1;
    }
    variables
}

fn cardinalities(attractors: &Vec<GraphColoredVertices>) -> Vec<f64> {
    let mut sizes: Vec<f64> = attractors.iter().map(|a| a.approx_cardinality()).collect();
    sizes.sort_by(|a, b| a.partial_cmp(b).unwrap());
    sizes
}

fn same_attractor_set(left: &Vec<GraphColoredVertices>, right: &Vec<GraphColoredVertices>) -> bool {
    left.len() == right.len() && left.iter().all(|a| right.iter().any(|b| a == b)) && right
        .iter()
        .all(|b| left.iter().any(|a| a == b))
}

#[test]
fn single_stable_node() {
    // One node with update `v1`: both states are fixed points.
    let graph = graph_of("v1 -> v1\n$v1: v1");
    let variables = all_variables(&graph);
    let attractors = find_attractors(&graph, &variables, graph.mk_unit_colored_vertices());
    assert_eq!(attractors.len(), 2);
    assert_eq!(cardinalities(&attractors), vec![1.0, 1.0]);
}

#[test]
fn single_negated_node() {
    // One node with update `!v1`: the two states form one cycle.
    let graph = graph_of("v1 -| v1\n$v1: !v1");
    let variables = all_variables(&graph);
    let attractors = find_attractors(&graph, &variables, graph.mk_unit_colored_vertices());
    assert_eq!(attractors.len(), 1);
    assert_eq!(cardinalities(&attractors), vec![2.0]);
}

#[test]
fn two_independent_self_loops() {
    let graph = graph_of("v1 -> v1\n$v1: v1\nv2 -> v2\n$v2: v2");
    let variables = all_variables(&graph);
    let attractors = find_attractors(&graph, &variables, graph.mk_unit_colored_vertices());
    assert_eq!(attractors.len(), 4);
    assert_eq!(cardinalities(&attractors), vec![1.0, 1.0, 1.0, 1.0]);
}

#[test]
fn mutual_inhibition() {
    let graph = graph_of("v1 -| v2\nv2 -| v1\n$v1: !v2\n$v2: !v1");
    let variables = all_variables(&graph);
    let attractors = find_attractors(&graph, &variables, graph.mk_unit_colored_vertices());
    assert_eq!(attractors.len(), 2);
    assert_eq!(cardinalities(&attractors), vec![1.0, 1.0]);
}

#[test]
fn constant_input_feeding_node() {
    let graph = graph_of("v1 -> v1\n$v1: v1\nv1 -> v2\n$v2: v1");
    let variables = all_variables(&graph);
    let attractors = find_attractors(&graph, &variables, graph.mk_unit_colored_vertices());
    assert_eq!(attractors.len(), 2);
    assert_eq!(cardinalities(&attractors), vec![1.0, 1.0]);
}

#[test]
fn empty_universe() {
    let graph = graph_of("v1 -> v1\n$v1: v1");
    let variables = all_variables(&graph);
    let attractors = find_attractors(&graph, &variables, graph.mk_empty_colored_vertices());
    assert_eq!(attractors.len(), 0);
    let attractors = find_attractors_lockstep(&graph, &variables, graph.mk_empty_colored_vertices());
    assert_eq!(attractors.len(), 0);
}

#[test]
fn attractors_are_deterministic() {
    let model = "v1 -| v2\nv2 -| v1\n$v1: !v2\n$v2: !v1";
    let graph = graph_of(model);
    let variables = all_variables(&graph);
    let first = find_attractors(&graph, &variables, graph.mk_unit_colored_vertices());
    let second = find_attractors(&graph, &variables, graph.mk_unit_colored_vertices());
    assert_eq!(first, second);
}

#[test]
fn lockstep_agrees_with_basin_variant() {
    for model in [
        "v1 -> v1\n$v1: v1",
        "v1 -| v1\n$v1: !v1",
        "v1 -> v1\n$v1: v1\nv2 -> v2\n$v2: v2",
        "v1 -| v2\nv2 -| v1\n$v1: !v2\n$v2: !v1",
        "v1 -> v1\n$v1: v1\nv1 -> v2\n$v2: v1",
    ] {
        let graph = graph_of(model);
        let variables = all_variables(&graph);
        let basin = find_attractors(&graph, &variables, graph.mk_unit_colored_vertices());
        let lockstep =
            find_attractors_lockstep(&graph, &variables, graph.mk_unit_colored_vertices());
        assert!(same_attractor_set(&basin, &lockstep));
    }
}

#[test]
fn attractors_are_trap_sets() {
    // Closure under `post`: no attractor has a transition that leaves it.
    for model in [
        "v1 -| v1\n$v1: !v1",
        "v1 -| v2\nv2 -| v1\n$v1: !v2\n$v2: !v1",
        "v1 -> v1\n$v1: v1\nv1 -> v2\n$v2: v1",
    ] {
        let graph = graph_of(model);
        let variables = all_variables(&graph);
        let attractors = find_attractors(&graph, &variables, graph.mk_unit_colored_vertices());
        assert!(!attractors.is_empty());
        for attractor in &attractors {
            assert!(graph.is_trap_set(attractor));
        }
    }
}

#[test]
fn attractors_are_pairwise_disjoint() {
    let graph = graph_of("v1 -> v1\n$v1: v1\nv2 -> v2\n$v2: v2");
    let variables = all_variables(&graph);
    let attractors = find_attractors(&graph, &variables, graph.mk_unit_colored_vertices());
    for i in 0..attractors.len() {
        for j in 0..attractors.len() {
            if i != j {
                let overlap = biodivine_lib_param_bn::biodivine_std::traits::Set::intersect(
                    &attractors[i],
                    &attractors[j],
                );
                assert!(biodivine_lib_param_bn::biodivine_std::traits::Set::is_empty(&overlap));
            }
        }
    }
}
