//! Single steps: what is handed out, what is refused, and that nothing is
//! handed out twice.

use graph_executor::AsyncGraphExecutor;
use graph_executor::Prioritized;
use std::collections::HashMap;

#[derive(Debug, PartialEq)]
struct Unit {
    tag: u64,
}

impl Prioritized for Unit {
    fn get_priority(&self) -> u64 {
        7
    }
}

fn units(keys: &[u64]) -> HashMap<u64, Unit> {
    let mut nodes = HashMap::new();
    for key in keys {
        nodes.insert(*key, Unit { tag: key + 100 });
    }
    nodes
}

fn chain() -> AsyncGraphExecutor<Unit> {
    AsyncGraphExecutor::new(units(&[1, 2, 3]), vec![(1, 2), (2, 3)]).unwrap()
}

#[test]
fn start_hands_out_each_node_under_its_own_key() {
    let mut executor = AsyncGraphExecutor::new(units(&[1, 2, 3]), vec![(1, 3)]).unwrap();
    let mut ready = executor.start();
    ready.sort_by_key(|(key, _)| *key);
    assert_eq!(ready, vec![(1, Unit { tag: 101 }), (2, Unit { tag: 102 })]);
    let left: Vec<u64> = executor.nodes().keys().copied().collect();
    assert_eq!(left, vec![3]);
}

#[test]
fn complete_hands_out_the_node_of_the_dependent() {
    let mut executor = chain();
    executor.start();
    let ready = executor.complete(1, true).unwrap();
    assert_eq!(ready, vec![(2, Unit { tag: 102 })]);
    let left: Vec<u64> = executor.nodes().keys().copied().collect();
    assert_eq!(left, vec![3]);
}

#[test]
fn second_start_hands_out_nothing() {
    let mut executor = chain();
    assert_eq!(executor.start().len(), 1);
    assert!(executor.start().is_empty());
    executor.complete(1, true).unwrap();
    assert!(executor.start().is_empty());
    assert_eq!(executor.nodes().len(), 1);
}

#[test]
fn second_report_of_a_key_is_refused() {
    let mut executor = chain();
    executor.start();
    assert!(executor.complete(1, true).is_some());
    assert!(executor.complete(1, true).is_none());
    // The refusal changed nothing: 2 is still in flight and still unblocks 3.
    let ready = executor.complete(2, true).unwrap();
    assert_eq!(ready, vec![(3, Unit { tag: 103 })]);
}

#[test]
fn report_before_the_run_begins_is_refused() {
    let mut executor = chain();
    assert!(executor.complete(1, true).is_none());
    assert_eq!(executor.nodes().len(), 3);
    assert_eq!(executor.start().len(), 1);
}

#[test]
fn report_of_a_waiting_key_is_refused() {
    let mut executor = chain();
    executor.start();
    assert!(executor.complete(3, true).is_none());
    assert!(executor.complete(2, true).is_none());
    assert_eq!(executor.nodes().len(), 2);
    assert_eq!(executor.node_info(2).unwrap().depends_on.len(), 1);
}

#[test]
fn report_of_an_unknown_key_is_refused() {
    let mut executor = chain();
    executor.start();
    assert!(executor.complete(42, true).is_none());
    assert!(!executor.is_idle());
}

#[test]
fn no_key_is_handed_out_twice() {
    // Fan out and back in: 1 before 2, 3 and 4, all of which come before 5.
    let edges = vec![(1, 2), (1, 3), (1, 4), (2, 5), (3, 5), (4, 5)];
    let mut executor = AsyncGraphExecutor::new(units(&[1, 2, 3, 4, 5]), edges).unwrap();
    let mut handed: Vec<u64> = Vec::new();
    let mut in_flight: Vec<u64> = Vec::new();
    for (key, _) in executor.start() {
        handed.push(key);
        in_flight.push(key);
    }
    while let Some(key) = in_flight.pop() {
        for (next, _) in executor.complete(key, true).unwrap() {
            handed.push(next);
            in_flight.push(next);
        }
    }
    assert!(executor.is_idle());
    handed.sort();
    assert_eq!(handed, vec![1, 2, 3, 4, 5]);
}

#[test]
fn dependent_waits_for_every_prerequisite() {
    let edges = vec![(1, 4), (2, 4), (3, 4)];
    let mut executor = AsyncGraphExecutor::new(units(&[1, 2, 3, 4]), edges).unwrap();
    assert_eq!(executor.start().len(), 3);
    assert!(executor.complete(2, true).unwrap().is_empty());
    assert!(executor.complete(3, true).unwrap().is_empty());
    assert!(!executor.is_idle());
    assert_eq!(executor.complete(1, true).unwrap(), vec![(4, Unit { tag: 104 })]);
    assert!(executor.complete(4, true).unwrap().is_empty());
    assert!(executor.is_idle());
}

#[test]
fn one_completion_can_start_several_dependents() {
    let edges = vec![(1, 2), (1, 3)];
    let mut executor = AsyncGraphExecutor::new(units(&[1, 2, 3]), edges).unwrap();
    executor.start();
    let mut ready = executor.complete(1, true).unwrap();
    ready.sort_by_key(|(key, _)| *key);
    assert_eq!(ready, vec![(2, Unit { tag: 102 }), (3, Unit { tag: 103 })]);
}
