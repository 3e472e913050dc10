//! The Graphviz text of the dependency graph.

use graph_executor::AsyncGraphExecutor;
use graph_executor::Prioritized;
use std::collections::HashMap;

struct Step;

impl Prioritized for Step {
    fn get_priority(&self) -> u64 {
        1
    }
}

fn steps(keys: &[u64]) -> HashMap<u64, Step> {
    let mut nodes = HashMap::new();
    for key in keys {
        nodes.insert(*key, Step);
    }
    nodes
}

#[test]
fn empty_graph_renders_as_empty_digraph() {
    let executor = AsyncGraphExecutor::new(steps(&[]), vec![]).unwrap();
    assert_eq!(executor.dot(), "digraph {\n}\n");
}

#[test]
fn single_node_is_labelled_with_its_key() {
    let executor = AsyncGraphExecutor::new(steps(&[7]), vec![]).unwrap();
    assert_eq!(executor.dot(), "digraph {\n    0 [ label = \"7\\l\" ]\n}\n");
}

#[test]
fn self_loop_is_drawn() {
    let executor = AsyncGraphExecutor::new(steps(&[7]), vec![(7, 7)]).unwrap();
    assert_eq!(
        executor.dot(),
        "digraph {\n    0 [ label = \"7\\l\" ]\n    0 -> 0 [ label = \"()\\l\" ]\n}\n"
    );
}

#[test]
fn edge_points_from_subject_to_dependent() {
    let executor = AsyncGraphExecutor::new(steps(&[1, 2]), vec![(1, 2)]).unwrap();
    // The nodes are numbered in the order of the hash map.
    let one_first = "digraph {\n    0 [ label = \"1\\l\" ]\n    1 [ label = \"2\\l\" ]\n    0 -> 1 [ label = \"()\\l\" ]\n}\n";
    let two_first = "digraph {\n    0 [ label = \"2\\l\" ]\n    1 [ label = \"1\\l\" ]\n    1 -> 0 [ label = \"()\\l\" ]\n}\n";
    let text = executor.dot();
    assert!(text == one_first || text == two_first, "{}", text);
}

#[test]
fn every_edge_is_drawn_in_order() {
    let executor =
        AsyncGraphExecutor::new(steps(&[1, 2, 3]), vec![(1, 2), (2, 3), (1, 3), (1, 2)]).unwrap();
    let text = executor.dot();
    let lines: Vec<&str> = text.lines().collect();
    // "digraph {", three nodes, four edges, "}".
    assert_eq!(lines.len(), 9);
    let mut position: HashMap<u64, usize> = HashMap::new();
    for index in 0..3 {
        let line = lines[1 + index];
        for key in [1u64, 2, 3] {
            if line == format!("    {} [ label = \"{}\\l\" ]", index, key) {
                position.insert(key, index);
            }
        }
    }
    assert_eq!(position.len(), 3);
    let edges = [(1u64, 2u64), (2, 3), (1, 3), (1, 2)];
    for (at, (subject, dependent)) in edges.iter().enumerate() {
        let expected =
            format!("    {} -> {} [ label = \"()\\l\" ]", position[subject], position[dependent]);
        assert_eq!(lines[4 + at], expected);
    }
}

#[test]
fn steps_do_not_change_the_drawing() {
    let mut executor = AsyncGraphExecutor::new(steps(&[1, 2]), vec![(1, 2)]).unwrap();
    let before = executor.dot();
    executor.start();
    executor.complete(1, true).unwrap();
    assert_eq!(executor.dot(), before);
}
