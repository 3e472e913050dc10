//! Whole runs, driven by hand: the test plays the part of the tasks and
//! reports their completions.

use graph_executor::AsyncGraphExecutor;
use graph_executor::ConstructionError;
use graph_executor::Prioritized;
use std::collections::HashMap;

struct Task {
    name: &'static str,
}

impl Prioritized for Task {
    fn get_priority(&self) -> u64 {
        0
    }
}

fn tasks(named: &[(u64, &'static str)]) -> HashMap<u64, Task> {
    let mut nodes = HashMap::new();
    for (key, name) in named {
        nodes.insert(*key, Task { name });
    }
    nodes
}

fn sorted_keys(ready: &[(u64, Task)]) -> Vec<u64> {
    let mut keys: Vec<u64> = ready.iter().map(|(key, _)| *key).collect();
    keys.sort();
    keys
}

const A: u64 = 1;
const B: u64 = 2;
const C: u64 = 3;
const D: u64 = 4;

#[test]
fn diamond_tail_runs_in_dependency_order() {
    let nodes = tasks(&[(A, "a"), (B, "b"), (C, "c"), (D, "d")]);
    let edges = vec![(A, C), (B, C), (C, D)];
    let mut executor = AsyncGraphExecutor::new(nodes, edges).unwrap();

    let mut frontier = executor.node_keys_with_no_deps().clone();
    frontier.sort();
    assert_eq!(frontier, vec![A, B]);

    let first = executor.start();
    assert_eq!(sorted_keys(&first), vec![A, B]);
    assert!(!executor.is_idle());

    // C waits for both A and B.
    let after_a = executor.complete(A, true).unwrap();
    assert!(after_a.is_empty());
    let after_b = executor.complete(B, true).unwrap();
    assert_eq!(sorted_keys(&after_b), vec![C]);
    assert_eq!(after_b[0].1.name, "c");

    // D waits for C.
    let after_c = executor.complete(C, true).unwrap();
    assert_eq!(sorted_keys(&after_c), vec![D]);
    assert_eq!(after_c[0].1.name, "d");
    assert!(!executor.is_idle());

    let after_d = executor.complete(D, true).unwrap();
    assert!(after_d.is_empty());
    assert!(executor.is_idle());
    assert!(executor.nodes().is_empty());

    // Four nodes were handed out in all, each once.
    let mut all: Vec<u64> = Vec::new();
    all.extend(sorted_keys(&first));
    all.extend(sorted_keys(&after_a));
    all.extend(sorted_keys(&after_b));
    all.extend(sorted_keys(&after_c));
    all.extend(sorted_keys(&after_d));
    assert_eq!(all, vec![A, B, C, D]);
}

#[test]
fn diamond_tail_other_completion_order() {
    let nodes = tasks(&[(A, "a"), (B, "b"), (C, "c"), (D, "d")]);
    let edges = vec![(A, C), (B, C), (C, D)];
    let mut executor = AsyncGraphExecutor::new(nodes, edges).unwrap();
    executor.start();
    assert!(executor.complete(B, true).unwrap().is_empty());
    assert_eq!(sorted_keys(&executor.complete(A, true).unwrap()), vec![C]);
    assert_eq!(sorted_keys(&executor.complete(C, true).unwrap()), vec![D]);
    assert!(executor.complete(D, true).unwrap().is_empty());
    assert!(executor.is_idle());
}

#[test]
fn unrelated_nodes_start_together() {
    let x: u64 = 10;
    let y: u64 = 20;
    let mut executor = AsyncGraphExecutor::new(tasks(&[(x, "x"), (y, "y")]), vec![]).unwrap();
    let mut frontier = executor.node_keys_with_no_deps().clone();
    frontier.sort();
    assert_eq!(frontier, vec![x, y]);
    let first = executor.start();
    assert_eq!(sorted_keys(&first), vec![x, y]);
    assert!(executor.nodes().is_empty());
    // Either may report first.
    assert!(executor.complete(y, true).unwrap().is_empty());
    assert!(!executor.is_idle());
    assert!(executor.complete(x, true).unwrap().is_empty());
    assert!(executor.is_idle());
}

#[test]
fn unrelated_nodes_report_in_the_other_order() {
    let x: u64 = 10;
    let y: u64 = 20;
    let mut executor = AsyncGraphExecutor::new(tasks(&[(x, "x"), (y, "y")]), vec![]).unwrap();
    executor.start();
    assert!(executor.complete(x, true).unwrap().is_empty());
    assert!(executor.complete(y, true).unwrap().is_empty());
    assert!(executor.is_idle());
}

#[test]
fn failed_run_does_not_block_dependent() {
    let m: u64 = 5;
    let n: u64 = 6;
    let mut executor = AsyncGraphExecutor::new(tasks(&[(m, "m"), (n, "n")]), vec![(m, n)]).unwrap();
    let first = executor.start();
    assert_eq!(sorted_keys(&first), vec![m]);
    let after_m = executor.complete(m, true).unwrap();
    assert_eq!(sorted_keys(&after_m), vec![n]);
    // N fails; the run still ends and nothing is marked.
    let after_n = executor.complete(n, false).unwrap();
    assert!(after_n.is_empty());
    assert!(executor.is_idle());
    assert!(!executor.node_info(n).unwrap().failed);
    assert!(!executor.node_info(m).unwrap().failed);
}

#[test]
fn failed_subject_still_unblocks_dependent() {
    let m: u64 = 5;
    let n: u64 = 6;
    let mut executor = AsyncGraphExecutor::new(tasks(&[(m, "m"), (n, "n")]), vec![(m, n)]).unwrap();
    executor.start();
    let after_m = executor.complete(m, false).unwrap();
    assert_eq!(sorted_keys(&after_m), vec![n]);
    assert!(!executor.node_info(m).unwrap().failed);
}

#[test]
fn edge_to_absent_key_is_a_construction_error() {
    let built = AsyncGraphExecutor::new(tasks(&[(A, "a"), (B, "b")]), vec![(A, B), (A, 99)]);
    assert_eq!(built.err(), Some(ConstructionError::UnknownKey(99)));
}

#[test]
fn edge_from_absent_key_is_a_construction_error() {
    let built = AsyncGraphExecutor::new(tasks(&[(A, "a")]), vec![(77, A)]);
    assert_eq!(built.err(), Some(ConstructionError::UnknownKey(77)));
}

#[test]
fn first_unknown_endpoint_is_reported() {
    // The first edge with an unknown end decides, and its subject is looked
    // at before its dependent.
    let built = AsyncGraphExecutor::new(tasks(&[(A, "a")]), vec![(A, 50), (60, A)]);
    assert_eq!(built.err(), Some(ConstructionError::UnknownKey(50)));
    let built = AsyncGraphExecutor::new(tasks(&[(A, "a")]), vec![(70, 80)]);
    assert_eq!(built.err(), Some(ConstructionError::UnknownKey(70)));
}

#[test]
fn empty_graph_is_idle_at_once() {
    let mut executor = AsyncGraphExecutor::new(tasks(&[]), vec![]).unwrap();
    assert!(executor.node_keys_with_no_deps().is_empty());
    assert!(executor.start().is_empty());
    assert!(executor.is_idle());
}

#[test]
fn cycle_leaves_its_nodes_unstarted() {
    let mut executor =
        AsyncGraphExecutor::new(tasks(&[(A, "a"), (B, "b"), (C, "c")]), vec![(A, B), (B, A)])
            .unwrap();
    assert_eq!(executor.node_keys_with_no_deps(), &vec![C]);
    assert_eq!(sorted_keys(&executor.start()), vec![C]);
    assert!(executor.complete(C, true).unwrap().is_empty());
    // Nothing is in flight, and the two nodes of the cycle never started.
    assert!(executor.is_idle());
    let mut left: Vec<u64> = executor.nodes().keys().copied().collect();
    left.sort();
    assert_eq!(left, vec![A, B]);
}

#[test]
fn self_loop_never_starts() {
    let mut executor = AsyncGraphExecutor::new(tasks(&[(A, "a")]), vec![(A, A)]).unwrap();
    assert!(executor.node_keys_with_no_deps().is_empty());
    assert!(executor.start().is_empty());
    assert!(executor.is_idle());
    assert_eq!(executor.nodes().len(), 1);
    assert!(executor.complete(A, true).is_none());
}
