use std::collections::HashMap;

use pauli_tracker::scheduler::space::maybe_better;
use pauli_tracker::scheduler::space::{Graph, GraphBuffer, State};
use pauli_tracker::scheduler::tree::Focus;

const NUM: usize = 4;
const GN: [(usize, usize); 4] = [(8, 1), (8, 5), (1, 3), (3, 5)];
const GM: [(usize, usize); 4] = [(0, 1), (0, 2), (1, 3), (3, 2)];
const GNW: [(usize, usize); 6] = [(8, 1), (8, 5), (8, 1), (1, 3), (3, 5), (5, 5)];
const GMW: [(usize, usize); 6] = [(0, 1), (0, 2), (0, 1), (1, 3), (3, 2), (2, 2)];

fn example_graph() -> GraphBuffer {
    //     1
    //   /  \
    // 0     3
    //   \  /
    //     2
    GraphBuffer::new(&GM, 5, None, false)
}

#[test]
fn creation() {
    let mp = HashMap::from([(8, 0), (5, 2)]);
    let graph_buffer = GraphBuffer::new(&GN, NUM, Some(&mp), false);
    let mapped_buffer = GraphBuffer::new(&GM, NUM, None, false);
    let graph_checked_buffer = GraphBuffer::new(&GNW, NUM, Some(&mp), true);
    let mapped_checked_buffer = GraphBuffer::new(&GMW, NUM, None, true);
    let graph = Graph::new(&graph_buffer);
    assert_eq!(graph, Graph::new(&mapped_buffer));
    assert_eq!(graph, Graph::new(&graph_checked_buffer));
    assert_eq!(graph, Graph::new(&mapped_checked_buffer));
    let n03 = vec![0, 3];
    let n12 = vec![1, 2];
    let expected: Vec<(State, &Vec<usize>)> = vec![
        (State::Sleeping, &n12),
        (State::Sleeping, &n03),
        (State::Sleeping, &n03),
        (State::Sleeping, &n12),
    ];
    assert_eq!(graph.nodes(), expected.as_slice());
    assert_eq!(graph.current_memory(), 0);
    assert_eq!(graph.max_memory(), 0);
}

#[test]
fn updating() {
    let init_buffer = example_graph();
    let init_graph = Graph::new(&init_buffer);
    let mut graph = init_graph.clone();
    let new = graph.focus(&[2, 3]).unwrap();
    graph.focus_inplace(&[2, 3]).unwrap();
    assert_eq!(graph, new);
    let states: Vec<State> = graph.nodes().iter().map(|n| n.0).collect();
    assert_eq!(
        states,
        vec![State::InMemory, State::InMemory, State::Measured, State::Measured, State::Sleeping]
    );
    assert_eq!(graph.current_memory(), 2); // 4 -> 2
    assert_eq!(graph.max_memory(), 4);
    let mut graph = init_graph;
    graph.focus_inplace(&[2]).unwrap();
    graph.focus_inplace(&[3]).unwrap();
    let states: Vec<State> = graph.nodes().iter().map(|n| n.0).collect();
    assert_eq!(
        states,
        vec![State::InMemory, State::InMemory, State::Measured, State::Measured, State::Sleeping]
    );
    assert_eq!(graph.current_memory(), 2);
    assert_eq!(graph.max_memory(), 3); // current_memory: 3 -> 2 -> 3 -> 2
}

#[test]
fn measuring_twice_fails() {
    let buffer = example_graph();
    let mut graph = Graph::new(&buffer);
    graph.focus_inplace(&[0]).unwrap();
    let err = graph.focus_inplace(&[1, 0]).unwrap_err();
    assert_eq!(err.bit(), 0);
}

#[test]
fn foo() {
    let mut graph = maybe_better::Graph::new(3, &[(0, 1), (1, 2)]);
    let mut copy = graph.clone();
    let _ = copy.measure(0);
    let _ = copy.measure(1);
    let _ = copy.measure(2);
    assert_eq!(copy.max_memory(), 2);
    let mut copy = graph.clone();
    let _ = copy.measure(1);
    let _ = copy.measure(0);
    let _ = copy.measure(2);
    assert_eq!(copy.max_memory(), 3);
    let _ = graph.measure(0);
    assert_eq!(graph.current(), 1);
    assert_eq!(graph.max_memory(), 2);
    let _ = graph.measure(1);
    assert_eq!(graph.current(), 1);
    assert_eq!(graph.max_memory(), 2);
    let _ = graph.measure(2);
    assert_eq!(graph.current(), 0);
    assert_eq!(graph.max_memory(), 2);
    let _ = graph.reverse_measure(2);
    assert_eq!(graph.current(), 1);
    assert_eq!(graph.max_memory(), 2);
    let _ = graph.reverse_measure(1);
    assert_eq!(graph.current(), 1);
    assert_eq!(graph.max_memory(), 2);
    let _ = graph.reverse_measure(0);
    assert_eq!(graph.current(), 0);
    assert_eq!(graph.max_memory(), 0);
}

#[test]
fn bir() {
    assert_eq!(2, maybe_better::Graph::new(3, &[(0, 1), (1, 2)]).shortest());
    assert_eq!(3, maybe_better::Graph::new(3, &[(0, 1), (1, 2), (2, 0)]).shortest());
    assert_eq!(
        3,
        maybe_better::Graph::new(5, &[(0, 1), (1, 2), (2, 0), (0, 3), (0, 4)]).shortest()
    );
}
