use pauli_tracker::analyse::schedule::space::{Graph, Next};
use pauli_tracker::analyse::schedule::time::{
    split_instructions, split_steps, LookupBuffer, PathGenerator, Step, TimeOrderingViolation,
};
use pauli_tracker::analyse::schedule::tree::{Focus, Step as TreeStep};
use pauli_tracker::analyse::schedule::{InstructionError, Scheduler};

#[allow(clippy::type_complexity)]
fn input() -> (Vec<(usize, usize)>, Vec<Vec<(usize, Vec<usize>)>>, usize) {
    //         2
    //       /  \
    // 0 - 1     4
    //       \  /
    //         3
    //
    //    -------
    //  /         \
    // 0 --- 3 --- 4
    //  \
    //    -
    //      \
    // 2 --- 1
    let space = vec![(0, 1), (1, 2), (1, 3), (2, 4), (4, 3)];
    let time = vec![
        vec![(0, vec![]), (2, vec![])],
        vec![(3, vec![0]), (1, vec![0, 2])],
        vec![(4, vec![0, 3])],
    ];
    (space, time, 5)
}

#[test]
fn scheduler() {
    let (space, time, _) = input();

    let num = space.len();
    assert_eq!(num, {
        // nodes in time
        let mut len = 0;
        time.iter().for_each(|e: &Vec<_>| len += e.len());
        len
    });

    let mut look = LookupBuffer::new(5);

    let scheduler = Scheduler::new(
        PathGenerator::from_dependency_graph(time, &mut look, None),
        Graph::new(num, &space, None),
    );

    let mut path = Vec::new();
    let mut results = Vec::new();

    let mut sweep = scheduler.into_iter();
    while let Some(step) = sweep.next() {
        match step {
            TreeStep::Forward(mess) => {
                path.push(mess);
            }
            TreeStep::Backward(at_end) => {
                if let Some(max_memory) = at_end {
                    println!("{}; {}; {:?}", path.len(), max_memory, path);
                    results.push(path.clone());
                }
                path.pop();
            }
        }
    }
    println!("result: {:?}", results.len());
}

#[test]
fn skipper() {
    let (space, time, num_nodes) = input();

    let mut predicates = vec![space.len() + 1; num_nodes + 1];

    let mut path = Vec::new();
    let mut results = Vec::new();

    let mut look = LookupBuffer::new(5);
    let mut scheduler = Scheduler::new(
        PathGenerator::from_dependency_graph(time, &mut look, None),
        Graph::new(space.len(), &space, None),
    )
    .into_iter();

    while let Some(step) = scheduler.next() {
        match step {
            TreeStep::Forward(mess) => {
                let current = scheduler.current();
                let minimum_time =
                    if current.time().finished_path() { path.len() + 1 } else { path.len() + 2 };
                if current.space().max_memory() >= predicates[minimum_time] {
                    if scheduler.skip_focus().is_err() {
                        break;
                    }
                } else {
                    path.push(mess);
                }
            }
            TreeStep::Backward(at_end) => {
                if let Some(max_memory) = at_end {
                    predicates[path.len()] = max_memory;
                    println!("{}; {}; {:?}", path.len(), max_memory, path);
                    results.push(path.clone());
                }
                path.pop();
                let current = scheduler.current();
                let minimum_time = path.len() + 1;
                if current.space().max_memory() >= predicates[minimum_time] {
                    path.pop();
                    if scheduler.skip_focus().is_err() {
                        break;
                    }
                }
            }
        }
    }
    println!("result: {:?}", results.len());
}

#[test]
fn invert_graph() {
    let time = vec![
        vec![(0, vec![]), (2, vec![])],
        vec![(3, vec![0]), (1, vec![0, 2])],
        vec![(4, vec![0, 3])],
    ];
    let mut look = LookupBuffer::new(5);
    let graph = PathGenerator::from_dependency_graph(time, &mut look, None);

    let mut path = Vec::new();
    let mut results = Vec::new();
    let mut instructions = Vec::new();
    let mut total = 0;
    let mut effective = 0;

    let _splitted = split_instructions(graph.clone(), 5);

    let mut sweep = graph.into_iter();
    while let Some(step) = sweep.next() {
        instructions.push(step.clone());
        match step {
            TreeStep::Forward(mess) => {
                path.push(mess);
                effective += 1;
            }
            TreeStep::Backward(at_leaf) => {
                if at_leaf.is_some() {
                    total += path.len();
                    println!("{}; {:?}", path.len(), path);
                    results.push(path.clone());
                }
                path.pop();
            }
        }
    }
    println!("total: {:?}", total);
    println!("effective: {:?}", effective);
}

fn count_paths(steps: &[Step]) -> usize {
    steps.iter().filter(|s| matches!(s, TreeStep::Backward(Some(())))).count()
}

#[test]
fn split_gives_each_task_its_share_of_paths() {
    let (_, time, _) = input();
    let mut look = LookupBuffer::new(5);
    let graph = PathGenerator::from_dependency_graph(time, &mut look, None);
    // all paths of the traversal
    let mut all = Vec::new();
    let mut sweep = graph.clone().into_iter();
    while let Some(step) = sweep.next() {
        all.push(step);
    }
    let total = count_paths(&all);
    assert!(total > 0);
    for num_tasks in 1..=total {
        let tasks = split_instructions(graph.clone(), num_tasks);
        assert_eq!(tasks.len(), num_tasks);
        for (i, task) in tasks.iter().enumerate() {
            let expected = total / num_tasks + usize::from(i >= num_tasks - total % num_tasks);
            assert_eq!(count_paths(task), expected);
        }
        let tasks2 = split_steps(&all, num_tasks);
        assert_eq!(tasks, tasks2);
    }
    // more tasks than paths: no task is complete
    assert!(split_instructions(graph, total + 1).is_empty());
}

#[test]
fn focus_reports_violations() {
    let (_, time, _) = input();
    let mut look = LookupBuffer::new(5);
    let mut graph = PathGenerator::from_dependency_graph(time, &mut look, None);
    let measuring = vec![0];
    assert!(matches!(
        graph.focus((&measuring, vec![0, 2])),
        Err(TimeOrderingViolation::Overlap(0))
    ));
    let measuring = vec![3];
    assert!(matches!(
        graph.focus((&measuring, vec![0, 2])),
        Err(TimeOrderingViolation::NotMeasureable(3))
    ));
    let measuring = vec![0];
    let next = graph.focus((&measuring, vec![2])).unwrap();
    assert!(!next.finished_path());
    // measuring 0 again resolves dependents that no longer wait for it
    let mut next = next;
    let measuring = vec![0];
    assert!(matches!(
        next.focus((&measuring, vec![])),
        Err(TimeOrderingViolation::NotMeasureable(0))
    ));
}

#[test]
fn scheduler_focus_errors() {
    let (space, time, _) = input();
    let mut look = LookupBuffer::new(5);
    let mut scheduler = Scheduler::new(
        PathGenerator::from_dependency_graph(time, &mut look, None),
        Graph::new(5, &space, None),
    );
    let measuring = vec![3];
    assert!(matches!(
        scheduler.focus((&measuring, vec![0, 2])),
        Err(InstructionError::TimeOrderingViolation(TimeOrderingViolation::NotMeasureable(3)))
    ));
    let measuring = vec![0];
    let mut next = scheduler.focus((&measuring, vec![2])).unwrap();
    let again = vec![0];
    assert!(matches!(next.focus((&again, vec![])), Err(InstructionError::AlreadyMeasured(_))));
}

#[test]
fn tada() {
    let time = vec![
        vec![(0, vec![]), (2, vec![])],
        vec![(3, vec![0]), (1, vec![0, 2])],
        vec![(4, vec![0, 3])],
    ];
    let mut look = LookupBuffer::new(5);
    let time_graph = PathGenerator::from_dependency_graph(time, &mut look, None);
    let space = Graph::new(5, &[(0, 1), (1, 2), (1, 3), (2, 4), (4, 3)], None);

    let splitted = split_instructions(time_graph, 5);

    for split in splitted {
        let mut path = Vec::new();
        let mut results = Vec::new();
        let mut sweep = space.clone().into_instructed_iterator(split);
        while let Some(step) = sweep.next() {
            match step {
                Next::Mess(mess) => {
                    path.push(mess);
                }
                Next::Mem(mem) => {
                    if let Some(mem) = mem {
                        println!("{}; {}; {:?}", path.len(), mem, path);
                        results.push(path.clone());
                    }
                    path.pop();
                }
            }
        }
    }
}
