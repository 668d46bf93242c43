use biodivine_lib_param_bn::symbolic_async_graph::SymbolicAsyncGraph;
use biodivine_lib_param_bn::BooleanNetwork;
use std::convert::TryFrom;

use symbolic_attractors::algorithms::find_attractors;
use symbolic_attractors::algorithms::priority_reduction;
use symbolic_attractors::algorithms::reach_bwd;
use symbolic_attractors::algorithms::reach_fwd;
use symbolic_attractors::algorithms::round_robin_reduction;
use symbolic_attractors::algorithms::sequential_reduction;

fn graph_of(model: &str) -> SymbolicAsyncGraph {
    let network = BooleanNetwork::try_from(model).unwrap();
    SymbolicAsyncGraph::new(&network).unwrap()
}

fn all_variables(graph: &SymbolicAsyncGraph) -> Vec<usize> {
    let mut variables = Vec::new();
    let mut i = 0;
    while i < graph.num_vars() {
        variables.push(i);
        i += 1;
    }
    variables
}

const MODELS: [&str; 5] = [
    "v1 -> v1\n$v1: v1",
    "v1 -| v1\n$v1: !v1",
    "v1 -> v1\n$v1: v1\nv2 -> v2\n$v2: v2",
    "v1 -| v2\nv2 -| v1\n$v1: !v2\n$v2: !v1",
    "v1 -> v1\n$v1: v1\nv1 -> v2\n$v2: v1",
];

#[test]
fn reducers_agree() {
    // The three reduction variants give the same universe and, as sets, the
    // same surviving variables.
    for model in MODELS {
        let graph = graph_of(model);
        let unit = graph.mk_unit_colored_vertices();
        let (u_priority, mut v_priority) = priority_reduction(&graph, &unit);
        let (u_round_robin, mut v_round_robin) = round_robin_reduction(&graph, &unit);
        let (u_sequential, mut v_sequential) = sequential_reduction(&graph, unit.clone());
        assert_eq!(u_priority, u_round_robin);
        assert_eq!(u_priority, u_sequential);
        v_priority.sort();
        v_round_robin.sort();
        v_sequential.sort();
        assert_eq!(v_priority, v_round_robin);
        assert_eq!(v_round_robin, v_sequential);
    }
}

#[test]
fn reduction_is_idempotent() {
    for model in MODELS {
        let graph = graph_of(model);
        let unit = graph.mk_unit_colored_vertices();
        let (universe_1, mut variables_1) = sequential_reduction(&graph, unit);
        let (universe_2, mut variables_2) = sequential_reduction(&graph, universe_1.clone());
        assert_eq!(universe_1, universe_2);
        variables_1.sort();
        variables_2.sort();
        assert_eq!(variables_1, variables_2);
    }
}

#[test]
fn reduction_keeps_every_attractor() {
    // Soundness: the attractors found on the reduced universe are exactly
    // the attractors found on the full universe.
    for model in MODELS {
        let graph = graph_of(model);
        let full_vars = all_variables(&graph);
        let full = find_attractors(&graph, &full_vars, graph.mk_unit_colored_vertices());
        let (reduced, variables) = priority_reduction(&graph, graph.unit_colored_vertices());
        let reduced_attractors = find_attractors(&graph, &variables, reduced);
        assert_eq!(full.len(), reduced_attractors.len());
        for attractor in &full {
            assert!(reduced_attractors.iter().any(|other| other == attractor));
        }
    }
}

#[test]
fn reduction_on_empty_universe() {
    let graph = graph_of("v1 -> v1\n$v1: v1");
    let empty = graph.mk_empty_colored_vertices();
    let (universe, variables) = sequential_reduction(&graph, empty.clone());
    assert_eq!(universe, empty);
    assert!(variables.is_empty());
    let (universe, variables) = priority_reduction(&graph, &empty);
    assert_eq!(universe, empty);
    assert!(variables.is_empty());
    let (universe, variables) = round_robin_reduction(&graph, &empty);
    assert_eq!(universe, empty);
    assert!(variables.is_empty());
}

#[test]
fn forward_reach_of_negation_cycle() {
    // In the network `v1 := !v1` both states reach each other, so the
    // forward closure of one state is the whole space.
    let graph = graph_of("v1 -| v1\n$v1: !v1");
    let variables = all_variables(&graph);
    let zero = graph.mk_subspace(&[(biodivine_lib_param_bn::VariableId::from_index(0), false)]);
    let unit = graph.mk_unit_colored_vertices();
    let closure = reach_fwd(&graph, &variables, &zero, &unit);
    assert_eq!(closure, unit);
    let backwards = reach_bwd(&graph, &variables, &zero, &unit);
    assert_eq!(backwards, unit);
}

#[test]
fn forward_reach_respects_universe() {
    // In the network `v2 := v1` with constant `v1`, state 10 reaches 11, but
    // not when the universe excludes it.
    let graph = graph_of("v1 -> v1\n$v1: v1\nv1 -> v2\n$v2: v1");
    let variables = all_variables(&graph);
    let v1 = biodivine_lib_param_bn::VariableId::from_index(0);
    let v2 = biodivine_lib_param_bn::VariableId::from_index(1);
    let start = graph.mk_subspace(&[(v1, true), (v2, false)]);
    let unit = graph.mk_unit_colored_vertices();
    let closure = reach_fwd(&graph, &variables, &start, &unit);
    assert_eq!(closure.approx_cardinality(), 2.0);
    let restricted = reach_fwd(&graph, &variables, &start, &start);
    assert_eq!(restricted, start);
}

#[test]
fn reach_with_no_variables_is_identity() {
    let graph = graph_of("v1 -| v1\n$v1: !v1");
    let none: Vec<usize> = Vec::new();
    let zero = graph.mk_subspace(&[(biodivine_lib_param_bn::VariableId::from_index(0), false)]);
    let unit = graph.mk_unit_colored_vertices();
    let closure = reach_fwd(&graph, &none, &zero, &unit);
    assert_eq!(closure, zero);
}
