use std::collections::HashMap;

use pauli_tracker::analyse::combinatoric::Partition;
use pauli_tracker::scheduler::space::{Graph, GraphBuffer};
use pauli_tracker::scheduler::time::{LookupBuffer, NotMeasurable, PathGenerator, Partitioner};
use pauli_tracker::scheduler::tree::{Focus, FocusIterator, Step};
use pauli_tracker::scheduler::Scheduler;

fn example_ordering() -> Vec<Vec<(usize, Vec<usize>)>> {
    // 0 --- 3 --- 2
    //  \
    //    -- 1
    vec![vec![(0, vec![])], vec![(3, vec![0]), (1, vec![0])], vec![(2, vec![3])]]
}

fn get_all_paths(generator: PathGenerator<'_, Partitioner>) -> Vec<Vec<Vec<usize>>> {
    let mut results = Vec::new();
    let mut path = Vec::new();
    let mut sweep = generator.into_iter();
    while let Some(step) = sweep.next() {
        match step {
            Step::Forward(set) => path.push(set),
            Step::Backward(leaf) => {
                if let Some(()) = leaf {
                    results.push(path.clone());
                }
                path.pop();
            }
        }
    }
    results
}

#[test]
fn time_simple_paths() {
    let mut buffer = LookupBuffer::new(5);
    let time = PathGenerator::<Partitioner>::from_dependency_graph(
        example_ordering(),
        &mut buffer,
        None,
    );

    assert_eq!(
        get_all_paths(time),
        vec![
            vec![vec![0], vec![3], vec![1], vec![2]],
            vec![vec![0], vec![3], vec![2], vec![1]],
            vec![vec![0], vec![3], vec![1, 2]],
            vec![vec![0], vec![1], vec![3], vec![2]],
            vec![vec![0], vec![3, 1], vec![2]],
        ]
    );
}

#[test]
fn max() {
    const ORDERED_BELL_NUMBERS: [usize; 6] = [
        1, 1, 3, 13, 75, 541, // 4683, 47293, 545835,  7087261, 102247563
    ];

    let mut buffer = LookupBuffer::new(10);

    for (n, &result) in ORDERED_BELL_NUMBERS.iter().enumerate() {
        let time = PathGenerator::<Partitioner>::from_dependency_graph(
            if n == 0 { vec![] } else { vec![(0..n).map(|i| (i, vec![])).collect()] },
            &mut buffer,
            None,
        );
        assert_eq!(get_all_paths(time).len(), result);
    }
}

#[test]
fn wrong_instructions() {
    let dependency_graph = vec![
        vec![(5, vec![])],
        vec![(2, vec![5]), (8, vec![5])],
        vec![(4, vec![8, 5])],
    ];
    let map = [5, 8, 2, 4];

    let mut buffer = LookupBuffer::new(5);

    let map = map.iter().enumerate().map(|(i, &e)| (e, i)).collect::<HashMap<_, _>>();

    let mut time = PathGenerator::<Partitioner>::from_dependency_graph(
        dependency_graph,
        &mut buffer,
        Some(&map),
    );

    assert_eq!(time.focus_inplace(&[5]).unwrap_err(), NotMeasurable(vec![5]));

    assert_eq!(time.focus_inplace(&[map[&8]]).unwrap_err(), NotMeasurable(vec![map[&8]]));

    time.focus_inplace(&[map[&5]]).unwrap();

    assert_eq!(time.focus_inplace(&[map[&5]]).unwrap_err(), NotMeasurable(vec![map[&5]]));
}

#[test]
fn scheduler_simple_paths() {
    //     1
    //   /  \
    // 0     3
    //   \  /
    //     2
    //
    // 0 --- 3 --- 2
    //  \
    //    -- 1
    let graph_buffer = GraphBuffer::new(&[(0, 1), (0, 2), (1, 3), (3, 2)], 5, None, false);
    let ordering = example_ordering();
    let num = 4;
    let max = 4;

    let mut lookup_buffer = LookupBuffer::new(num);
    let graph = Graph::new(&graph_buffer);
    let scheduler = Scheduler::new(
        PathGenerator::from_dependency_graph(ordering, &mut lookup_buffer, None),
        graph,
    );

    let mut results = Vec::new();
    let mut path = Vec::new();

    let mut sweep = scheduler.clone().into_iter();
    while let Some(step) = sweep.next() {
        match step {
            Step::Forward(set) => path.push(set),
            Step::Backward(leaf) => {
                if let Some(mem) = leaf {
                    results.push((path.len(), mem, path.clone()));
                }
                path.pop();
            }
        }
    }

    assert_eq!(
        results,
        vec![
            (4, 3, vec![vec![0], vec![3], vec![1], vec![2]]),
            (4, 3, vec![vec![0], vec![3], vec![2], vec![1]]),
            (3, 3, vec![vec![0], vec![3], vec![1, 2]]),
            (4, 3, vec![vec![0], vec![1], vec![3], vec![2]]),
            (3, 3, vec![vec![0], vec![3, 1], vec![2]]),
        ]
    );

    let mut optimal_paths: HashMap<usize, (usize, Vec<Vec<usize>>)> = HashMap::new();
    for (len, mem, path) in results {
        if let Some(optimal) = optimal_paths.get_mut(&len) {
            if optimal.0 > mem {
                *optimal = (mem, path);
            }
        } else {
            optimal_paths.insert(len, (mem, path));
        }
    }

    assert_eq!(
        optimal_paths,
        HashMap::from_iter(vec![
            (4, (3, vec![vec![0], vec![3], vec![1], vec![2]])),
            (3, (3, vec![vec![0], vec![3], vec![1, 2]])),
        ])
    );

    let mut results = Vec::new();
    let mut path = Vec::new();
    let mut predicates = vec![max + 1; num + 1];
    let mut scheduler = scheduler.into_iter();

    while let Some(step) = scheduler.next() {
        match step {
            Step::Forward(mess) => {
                let current = scheduler.current();
                let minimum_time = if current.time().at_leaf().is_some() {
                    path.len() + 1 // plus the current step
                } else if current.time().has_unmeasureable() {
                    // current step; at least one more because there are some
                    // measureable bits left; at least one more because there
                    // are some unmeasureable bits left that cannot be measured
                    // in the next step
                    path.len() + 3
                } else {
                    path.len() + 2 // ...
                };
                if current.space().max_memory() >= predicates[minimum_time] {
                    if scheduler.skip_focus().is_err() {
                        break;
                    }
                } else {
                    path.push(mess);
                }
            }
            Step::Backward(leaf) => {
                if let Some(mem) = leaf {
                    predicates[path.len()] = mem;
                    results.push((path.len(), mem, path.clone()));
                }
                path.pop();
            }
        }
    }

    assert_eq!(
        HashMap::from_iter(results.into_iter().map(|(len, mem, path)| (len, (mem, path)))),
        optimal_paths
    );
}

#[test]
fn partitions_of_three_bits() {
    let mut partition = Partition::new(vec![7, 8, 9], 3);
    let mut all = Vec::new();
    while let Some(p) = partition.next() {
        all.push(p);
    }
    assert_eq!(
        all,
        vec![
            (vec![], vec![7, 8, 9]),
            (vec![7], vec![8, 9]),
            (vec![8], vec![7, 9]),
            (vec![9], vec![7, 8]),
            (vec![7, 8], vec![9]),
            (vec![7, 9], vec![8]),
            (vec![8, 9], vec![7]),
            (vec![7, 8, 9], vec![]),
        ]
    );
    assert_eq!(partition.next(), None);
}
