use advent::scheduler::graph::{get_effort, Graph, SchedulerError};

fn example() -> Graph {
    let mut graph = Graph::new();
    graph.add_node_pair('c', 'a', 0);
    graph.add_node_pair('c', 'f', 0);
    graph.add_node_pair('a', 'b', 0);
    graph.add_node_pair('a', 'd', 0);
    graph.add_node_pair('b', 'e', 0);
    graph.add_node_pair('d', 'e', 0);
    graph.add_node_pair('f', 'e', 0);
    graph
}

#[test]
fn get_free_nodes_works() {
    let mut graph = Graph::new();
    graph.add_node_pair('c', 'a', 0);
    graph.add_node_pair('c', 'f', 0);
    graph.add_node_pair('a', 'b', 0);
    graph.add_node_pair('a', 'd', 0);
    graph.add_node_pair('b', 'e', 0);
    graph.add_node_pair('d', 'e', 0);
    graph.add_node_pair('f', 'e', 0);
    assert_eq!(graph.get_free_nodes(), vec!['c']);

    assert_eq!(graph.remove_parent_from_nodes('c'), Ok(()));
    assert_eq!(graph.get_free_nodes(), vec!['a', 'f']);
}

#[test]
fn get_sequence_works() {
    let mut graph = Graph::new();

    graph.add_node_pair('c', 'a', 0);
    graph.add_node_pair('c', 'f', 0);
    graph.add_node_pair('a', 'b', 0);
    graph.add_node_pair('a', 'd', 0);
    graph.add_node_pair('b', 'e', 0);
    graph.add_node_pair('d', 'e', 0);
    graph.add_node_pair('f', 'e', 0);

    assert_eq!(graph.get_sequence(), Ok(String::from("cabdfe")));
}

#[test]
fn get_completion_time_works() {
    let mut graph = Graph::new();

    graph.add_node_pair('c', 'a', 0);
    graph.add_node_pair('c', 'f', 0);
    graph.add_node_pair('a', 'b', 0);
    graph.add_node_pair('a', 'd', 0);
    graph.add_node_pair('b', 'e', 0);
    graph.add_node_pair('d', 'e', 0);
    graph.add_node_pair('f', 'e', 0);

    assert_eq!(graph.get_completion_time(2), Ok(16));
}

#[test]
fn sequence_of_capital_letters() {
    let mut graph = Graph::new();
    graph.add_node_pair('C', 'A', 0);
    graph.add_node_pair('C', 'F', 0);
    graph.add_node_pair('A', 'B', 0);
    graph.add_node_pair('A', 'D', 0);
    graph.add_node_pair('B', 'E', 0);
    graph.add_node_pair('D', 'E', 0);
    graph.add_node_pair('F', 'E', 0);
    assert_eq!(graph.get_sequence(), Ok(String::from("CABDFE")));
    assert_eq!(graph.len(), 0);
}

#[test]
fn sequence_visits_every_task_once_in_a_valid_order() {
    let edges = [('c', 'a'), ('c', 'f'), ('a', 'b'), ('a', 'd'), ('b', 'e'), ('d', 'e'), ('f', 'e')];
    let mut graph = example();
    let order: Vec<char> = graph.get_sequence().unwrap().chars().collect();
    assert_eq!(order.len(), 6);
    for id in ['a', 'b', 'c', 'd', 'e', 'f'] {
        assert_eq!(order.iter().filter(|c| **c == id).count(), 1);
    }
    for (parent, child) in edges {
        let p = order.iter().position(|c| *c == parent).unwrap();
        let c = order.iter().position(|c| *c == child).unwrap();
        assert!(p < c);
    }
}

#[test]
fn tie_break_takes_the_smallest_ready_task() {
    // x and y are ready at once, and so are b and c once a is done.
    let mut graph = Graph::new();
    graph.add_node_pair('y', 'z', 0);
    graph.add_node_pair('x', 'z', 0);
    graph.add_node_pair('a', 'c', 0);
    graph.add_node_pair('a', 'b', 0);
    assert_eq!(graph.get_free_nodes(), vec!['a', 'x', 'y']);
    assert_eq!(graph.get_sequence(), Ok(String::from("abcxyz")));
}

#[test]
fn tie_break_prefers_a_task_that_became_ready_late() {
    // Once m is done, a is ready and goes before n, which was ready all along.
    let mut graph = Graph::new();
    graph.add_node_pair('m', 'a', 0);
    graph.add_node_pair('n', 'z', 0);
    assert_eq!(graph.get_sequence(), Ok(String::from("manz")));
}

#[test]
fn one_worker_needs_the_sum_of_the_costs() {
    let mut chain = Graph::new();
    chain.add_node_pair('a', 'b', 10);
    chain.add_node_pair('b', 'c', 10);
    chain.add_node_pair('c', 'd', 10);
    assert_eq!(chain.work_left(), Some(11 + 12 + 13 + 14));
    assert_eq!(chain.get_completion_time(1), Ok(11 + 12 + 13 + 14));

    let mut graph = example();
    assert_eq!(graph.get_completion_time(1), Ok(1 + 2 + 3 + 4 + 5 + 6));
}

#[test]
fn a_chain_takes_the_same_time_with_any_number_of_workers() {
    for workers in 1..5 {
        let mut chain = Graph::new();
        chain.add_node_pair('a', 'b', 0);
        chain.add_node_pair('b', 'c', 0);
        assert_eq!(chain.get_completion_time(workers), Ok(6));
    }
}

#[test]
fn more_workers_are_not_slower_than_one() {
    let mut single = example();
    let alone = single.get_completion_time(1).unwrap();
    let mut last = alone;
    for workers in 2..8 {
        let mut graph = example();
        let time = graph.get_completion_time(workers).unwrap();
        assert!(time <= alone);
        assert!(time <= last);
        last = time;
    }
    assert_eq!(last, 14);
}

#[test]
fn a_fourth_worker_can_make_the_run_longer() {
    let build = || {
        let mut graph = Graph::new();
        graph.add_node_pair('y', 'g', 60);
        graph.add_node_pair('z', 'i', 60);
        graph.add_node_pair('y', 'm', 60);
        graph.add_node_pair('z', 'o', 60);
        graph.add_node_pair('y', 'v', 60);
        graph
    };
    assert_eq!(build().get_completion_time(3), Ok(228));
    assert_eq!(build().get_completion_time(4), Ok(233));
    assert!(build().get_completion_time(4).unwrap() <= build().get_completion_time(1).unwrap());
}

#[test]
fn a_worker_for_every_task_is_fastest() {
    let build = || {
        let mut graph = Graph::new();
        graph.add_node_pair('y', 'g', 60);
        graph.add_node_pair('z', 'i', 60);
        graph.add_node_pair('y', 'm', 60);
        graph.add_node_pair('z', 'o', 60);
        graph.add_node_pair('y', 'v', 60);
        graph
    };
    assert_eq!(build().len(), 7);
    let fastest = build().get_completion_time(7).unwrap();
    let slowest = build().get_completion_time(1).unwrap();
    assert_eq!(slowest, 67 + 69 + 73 + 75 + 82 + 85 + 86);
    for workers in 1..12 {
        let time = build().get_completion_time(workers).unwrap();
        assert!(fastest <= time);
        assert!(time <= slowest);
        if workers >= 7 {
            assert_eq!(time, fastest);
        }
    }
}

#[test]
fn completing_every_task_empties_the_graph() {
    let mut graph = example();
    for id in ['c', 'a', 'b', 'd', 'f', 'e'] {
        assert_eq!(graph.remove_parent_from_nodes(id), Ok(()));
    }
    assert_eq!(graph.get_free_nodes(), Vec::<char>::new());
    assert_eq!(graph.len(), 0);

    // Also in an order that no scheduler would take.
    let mut graph = example();
    for id in ['e', 'd', 'f', 'b', 'a', 'c'] {
        assert_eq!(graph.remove_parent_from_nodes(id), Ok(()));
    }
    assert_eq!(graph.get_free_nodes(), Vec::<char>::new());
    assert_eq!(graph.len(), 0);
}

#[test]
fn no_worker_is_an_invalid_argument() {
    let mut graph = example();
    assert_eq!(graph.get_completion_time(0), Err(SchedulerError::InvalidWorkerCount));
    assert_eq!(graph.len(), 6);
    assert_eq!(graph.get_free_nodes(), vec!['c']);
    assert_eq!(graph.get_completion_time(2), Ok(16));
}

#[test]
fn an_unknown_task_is_an_invalid_argument() {
    let mut graph = example();
    assert_eq!(graph.remove_parent_from_nodes('q'), Err(SchedulerError::UnknownTask));
    assert_eq!(graph.len(), 6);
    assert_eq!(graph.remove_parent_from_nodes('c'), Ok(()));
    assert_eq!(graph.remove_parent_from_nodes('c'), Err(SchedulerError::UnknownTask));
    assert_eq!(graph.len(), 5);
}

#[test]
fn a_cycle_is_reported() {
    let mut graph = Graph::new();
    graph.add_node_pair('a', 'b', 0);
    graph.add_node_pair('b', 'c', 0);
    graph.add_node_pair('c', 'b', 0);
    assert_eq!(graph.get_sequence(), Err(SchedulerError::DependencyCycle));
    assert_eq!(graph.len(), 2);
    assert_eq!(graph.get_free_nodes(), Vec::<char>::new());

    let mut graph = Graph::new();
    graph.add_node_pair('a', 'b', 0);
    graph.add_node_pair('b', 'c', 0);
    graph.add_node_pair('c', 'b', 0);
    assert_eq!(graph.get_completion_time(3), Err(SchedulerError::DependencyCycle));
    assert_eq!(graph.len(), 2);

    let mut own = Graph::new();
    own.add_node_pair('a', 'a', 0);
    assert_eq!(own.get_sequence(), Err(SchedulerError::DependencyCycle));
}

#[test]
fn a_duplicate_edge_is_reported_and_harmless() {
    let mut graph = Graph::new();
    assert!(!graph.add_node_pair('a', 'b', 0));
    assert!(graph.add_node_pair('a', 'b', 0));
    assert!(!graph.add_node_pair('b', 'a', 5));
    assert_eq!(graph.len(), 2);

    let mut graph = Graph::new();
    graph.add_node_pair('a', 'b', 0);
    graph.add_node_pair('a', 'b', 0);
    assert_eq!(graph.get_sequence(), Ok(String::from("ab")));
}

#[test]
fn the_cost_is_set_when_a_task_is_created() {
    let mut graph = Graph::new();
    graph.add_node_pair('a', 'b', 0);
    graph.add_node_pair('b', 'c', 100);
    // a costs 1, b costs 2 and not 102, c costs 103.
    assert_eq!(graph.work_left(), Some(1 + 2 + 103));
    assert_eq!(graph.get_completion_time(1), Ok(106));
}

#[test]
fn effort_is_the_offset_and_the_letter_value() {
    assert_eq!(get_effort('a', 0), 1);
    assert_eq!(get_effort('A', 0), 1);
    assert_eq!(get_effort('z', 0), 26);
    assert_eq!(get_effort('Z', 60), 86);
    assert_eq!(get_effort('m', 60), 73);
    assert_eq!(get_effort('?', 60), 60);
    assert_eq!(get_effort('1', 0), 0);
    assert_eq!(get_effort('`', 7), 7);
    assert_eq!(get_effort('{', 7), 7);
    assert_eq!(get_effort('@', 7), 7);
    assert_eq!(get_effort('[', 7), 7);
}

#[test]
fn a_task_without_cost_takes_one_tick() {
    let mut graph = Graph::new();
    graph.add_node_pair('1', '2', 0);
    assert_eq!(graph.work_left(), Some(2));
    assert_eq!(graph.get_completion_time(4), Ok(2));

    let mut graph = Graph::new();
    graph.add_node_pair('1', 'b', 0);
    assert_eq!(graph.get_completion_time(1), Ok(3));
}

#[test]
fn one_tick_serves_the_smallest_ready_tasks() {
    let mut graph = Graph::new();
    graph.add_node_pair('a', 'z', 0);
    graph.add_node_pair('b', 'z', 0);
    graph.add_node_pair('c', 'z', 0);
    // a is done after the first tick, b and c are not.
    assert!(graph.reduce_effort(2));
    assert_eq!(graph.get_free_nodes(), vec!['b', 'c']);
    assert!(graph.reduce_effort(2));
    assert_eq!(graph.get_free_nodes(), vec!['c']);
    assert!(graph.reduce_effort(0));
    assert_eq!(graph.get_free_nodes(), vec!['c']);
    assert!(graph.reduce_effort(2));
    assert!(graph.reduce_effort(2));
    assert_eq!(graph.get_free_nodes(), vec!['z']);
    assert_eq!(graph.work_left(), Some(26));
    assert_eq!(graph.get_completion_time(9), Ok(26));
    assert!(!graph.reduce_effort(2));
}

#[test]
fn an_empty_graph_needs_no_time() {
    let mut graph = Graph::new();
    assert_eq!(graph.len(), 0);
    assert_eq!(graph.get_free_nodes(), Vec::<char>::new());
    assert_eq!(graph.get_sequence(), Ok(String::new()));
    assert_eq!(graph.get_completion_time(3), Ok(0));
    assert!(!graph.reduce_effort(3));
}
