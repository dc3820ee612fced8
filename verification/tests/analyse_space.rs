use std::collections::HashMap;

use pauli_tracker::analyse::space::Graph;

#[test]
fn bar() {
    let deps: HashMap<usize, Vec<usize>> =
        HashMap::from([(0, vec![]), (1, vec![]), (2, vec![0, 1])]);
    assert_eq!(
        (2, vec![0, 1, 2]),
        Graph::new(3, &[(0, 1), (1, 2)]).min_bits(&deps)
    );
    let deps: HashMap<usize, Vec<usize>> =
        HashMap::from([(0, vec![1]), (1, vec![]), (2, vec![0, 1])]);
    assert_eq!(
        (3, vec![1, 0, 2]),
        Graph::new(3, &[(0, 1), (1, 2)]).min_bits(&deps)
    );
}

#[test]
fn hey() {
    let deps = vec![vec![(0, vec![]), (1, vec![])], vec![(2, vec![0, 1])]];
    let mut graph = Graph::new(3, &[(0, 1), (1, 2)]);
    println!("{:?}", graph.mixed(&deps, 1, 4, true));
    println!("{:?}", graph.mixed(&deps, 1, 2, true));

    let deps = vec![
        vec![(0, vec![]), (1, vec![]), (6, vec![])],
        vec![(2, vec![3, 1]), (3, vec![0, 1])],
        vec![(4, vec![2, 1]), (5, vec![3, 1])],
    ];
    let mut graph = Graph::new(
        7,
        &[(0, 1), (1, 2), (2, 0), (2, 3), (1, 5), (4, 5), (2, 6), (0, 5)],
    );
    let (res, min) = graph.mixed(&deps, 1, 7, true);
    println!("{:?}\n", min);
    println!("3: {:?}\n", res.get(&3));
    println!("4: {:?}\n", res.get(&4));
    println!("5: {:?}\n", res.get(&5));
    println!("{:?}", graph.mixed(&deps, 1, 3, true));
}

#[test]
fn measuring_a_measured_qubit_is_an_error() {
    let mut graph = Graph::new(3, &[(0, 1), (1, 2)]);
    assert_eq!(graph.measure(1), Ok(()));
    assert_eq!(graph.measure(1), Err(()));
    assert_eq!(graph.measure(0), Ok(()));
}

#[test]
fn mixed_groups_by_memory() {
    // a path 0 - 1 - 2 where 2 depends on 0 and 1
    let deps = vec![vec![(0, vec![]), (1, vec![])], vec![(2, vec![0, 1])]];
    let mut graph = Graph::new(3, &[(0, 1), (1, 2)]);
    let (res, min) = graph.mixed(&deps, 0, 10, false);
    // order 0, 1, 2 needs 2 qubits, order 1, 0, 2 needs 3
    assert_eq!(res.get(&2), Some(&vec![vec![vec![0, 1], vec![2]]]));
    assert_eq!(res.get(&3), Some(&vec![vec![vec![1, 0], vec![2]]]));
    assert_eq!(res.len(), 2);
    assert_eq!(min, None);
}
