use std::collections::{HashMap, HashSet};

use topological_batch::Error;
use topological_batch::TopologicalBatchProvider;

fn sample_graph() -> HashMap<usize, Vec<usize>> {
    let mut nodes: HashMap<usize, Vec<usize>> = HashMap::new();

    nodes.insert(1, vec![]);
    nodes.insert(2, vec![1]);
    nodes.insert(3, vec![1]);
    nodes.insert(4, vec![]);
    nodes.insert(5, vec![]);
    nodes.insert(6, vec![2, 3]);
    nodes.insert(7, vec![3, 4]);
    nodes.insert(8, vec![6]);

    nodes
}

fn drain_batch(provider: &mut TopologicalBatchProvider<usize>) -> HashSet<usize> {
    let mut batch = HashSet::new();
    while let Some(v) = provider.pop() {
        assert!(batch.insert(v));
    }
    batch
}

#[test]
fn lib_it_detects_cycles() {
    let mut nodes: HashMap<usize, Vec<usize>> = HashMap::new();

    nodes.insert(1, vec![3, 4]);
    nodes.insert(2, vec![1]);
    nodes.insert(3, vec![2]);
    nodes.insert(4, vec![]);

    assert!(TopologicalBatchProvider::new(nodes).is_err());
}

#[test]
fn lib_it_detects_cycles_not_at_the_beginning() {
    let mut nodes: HashMap<usize, Vec<usize>> = HashMap::new();

    nodes.insert(1, vec![3]);
    nodes.insert(2, vec![3]);
    nodes.insert(3, vec![2]);

    assert!(TopologicalBatchProvider::new(nodes).is_err());
}

#[test]
fn topological_batch_provider_it_detects_cycles() {
    let mut nodes: HashMap<usize, Vec<usize>> = HashMap::new();

    nodes.insert(1, vec![3, 4]);
    nodes.insert(2, vec![1]);
    nodes.insert(3, vec![2]);
    nodes.insert(4, vec![]);

    assert!(TopologicalBatchProvider::new(nodes).is_err());
}

#[test]
fn topological_batch_provider_it_detects_cycles_not_at_the_beginning() {
    let mut nodes: HashMap<usize, Vec<usize>> = HashMap::new();

    nodes.insert(1, vec![3]);
    nodes.insert(2, vec![3]);
    nodes.insert(3, vec![2]);

    assert!(TopologicalBatchProvider::new(nodes).is_err());
}

#[test]
fn it_provides_batches() {
    let mut nodes: HashMap<usize, Vec<usize>> = HashMap::new();

    nodes.insert(1, vec![]);
    nodes.insert(2, vec![1]);
    nodes.insert(3, vec![1]);
    nodes.insert(4, vec![]);
    nodes.insert(5, vec![]);
    nodes.insert(6, vec![2, 3]);
    nodes.insert(7, vec![3, 4]);
    nodes.insert(8, vec![6]);

    let mut topological_batch_provider = TopologicalBatchProvider::new(nodes.clone()).unwrap();

    let expected: Vec<Vec<usize>> = vec![vec![1, 4, 5], vec![2, 3], vec![6, 7], vec![8]];
    for i in 0..4 {
        let mut actual = HashSet::new();
        while let Some(v) = topological_batch_provider.pop() {
            actual.insert(v);
        }

        assert_eq!(
            HashSet::from_iter(expected.get(i).unwrap().into_iter().cloned()),
            actual
        );
        for v in actual {
            topological_batch_provider.complete(v);
        }
    }

    assert!(topological_batch_provider.is_empty());
}

#[test]
fn cycle_is_reported_as_cycle_detected() {
    let mut nodes: HashMap<usize, Vec<usize>> = HashMap::new();
    nodes.insert(1, vec![2]);
    nodes.insert(2, vec![1]);

    match TopologicalBatchProvider::new(nodes) {
        Ok(_) => panic!("a graph with a cycle was accepted"),
        Err(error) => {
            assert_eq!(error, Error::CycleDetected);
            assert_eq!(error.message(), "Cycle detected.");
        }
    }
}

#[test]
fn self_dependency_is_a_cycle() {
    let mut nodes: HashMap<usize, Vec<usize>> = HashMap::new();
    nodes.insert(1, vec![1]);
    assert!(TopologicalBatchProvider::has_cycle(&nodes));
    assert!(TopologicalBatchProvider::new(nodes).is_err());

    let mut nodes: HashMap<usize, Vec<usize>> = HashMap::new();
    nodes.insert(1, vec![]);
    nodes.insert(2, vec![1, 2]);
    assert!(TopologicalBatchProvider::has_cycle(&nodes));
}

#[test]
fn has_cycle_tells_cyclic_from_acyclic() {
    assert!(!TopologicalBatchProvider::has_cycle(&sample_graph()));
    assert!(!TopologicalBatchProvider::<usize>::has_cycle(&HashMap::new()));

    // A diamond shares a dependency without forming a cycle.
    let mut diamond: HashMap<usize, Vec<usize>> = HashMap::new();
    diamond.insert(1, vec![2, 3]);
    diamond.insert(2, vec![4]);
    diamond.insert(3, vec![4]);
    diamond.insert(4, vec![]);
    assert!(!TopologicalBatchProvider::has_cycle(&diamond));

    // Closing the diamond from the bottom back to the top is a cycle.
    diamond.insert(4, vec![1]);
    assert!(TopologicalBatchProvider::has_cycle(&diamond));

    // A long chain that returns to its start.
    let mut ring: HashMap<usize, Vec<usize>> = HashMap::new();
    for i in 0..50 {
        ring.insert(i, vec![(i + 1) % 50]);
    }
    assert!(TopologicalBatchProvider::has_cycle(&ring));
    ring.insert(49, vec![]);
    assert!(!TopologicalBatchProvider::has_cycle(&ring));
}

#[test]
fn empty_graph_is_drained_at_once() {
    let nodes: HashMap<usize, Vec<usize>> = HashMap::new();
    let mut provider = TopologicalBatchProvider::new(nodes).unwrap();
    assert!(provider.is_empty());
    assert_eq!(provider.pop(), None);
    assert!(provider.is_empty());
}

#[test]
fn is_empty_only_after_every_node_is_completed() {
    let mut provider = TopologicalBatchProvider::new(sample_graph()).unwrap();
    let mut completed = 0;
    while completed < 8 {
        assert!(!provider.is_empty());
        let batch = drain_batch(&mut provider);
        assert!(!batch.is_empty());
        // Claimed but not completed: still not empty.
        assert!(!provider.is_empty());
        for v in batch {
            assert!(!provider.is_empty());
            provider.complete(v);
            completed += 1;
        }
    }
    assert!(provider.is_empty());
    assert_eq!(provider.pop(), None);
    assert!(provider.is_empty());
}

#[test]
fn pop_returns_none_while_everything_ready_is_in_flight() {
    let mut nodes: HashMap<usize, Vec<usize>> = HashMap::new();
    nodes.insert(1, vec![]);
    nodes.insert(2, vec![1]);
    let mut provider = TopologicalBatchProvider::new(nodes).unwrap();

    assert_eq!(provider.pop(), Some(1));
    assert_eq!(provider.pop(), None);
    assert!(!provider.is_empty());

    provider.complete(1);
    assert_eq!(provider.pop(), Some(2));
    assert_eq!(provider.pop(), None);
    assert!(!provider.is_empty());

    provider.complete(2);
    assert_eq!(provider.pop(), None);
    assert!(provider.is_empty());
}

#[test]
fn pop_never_returns_a_node_with_an_incomplete_dependency() {
    let graph = sample_graph();
    let mut provider = TopologicalBatchProvider::new(graph.clone()).unwrap();
    let mut completed: HashSet<usize> = HashSet::new();
    let mut claimed: HashSet<usize> = HashSet::new();
    let mut in_flight: Vec<usize> = Vec::new();

    loop {
        // Claim one node at a time, so that claims and completions interleave.
        match provider.pop() {
            Some(v) => {
                for dep in &graph[&v] {
                    assert!(completed.contains(dep));
                }
                assert!(claimed.insert(v));
                assert!(!completed.contains(&v));
                in_flight.push(v);
            }
            None => {
                if in_flight.is_empty() {
                    break;
                }
                let v = in_flight.remove(0);
                provider.complete(v);
                assert!(completed.insert(v));
            }
        }
    }

    assert!(provider.is_empty());
    assert_eq!(completed.len(), 8);
    assert_eq!(claimed, completed);
}

#[test]
fn repeated_dependency_is_released_once() {
    let mut nodes: HashMap<usize, Vec<usize>> = HashMap::new();
    nodes.insert(1, vec![]);
    nodes.insert(2, vec![1, 1]);
    nodes.insert(3, vec![1, 2, 1]);
    let mut provider = TopologicalBatchProvider::new(nodes).unwrap();

    assert_eq!(provider.pop(), Some(1));
    assert_eq!(provider.pop(), None);
    provider.complete(1);
    assert_eq!(provider.pop(), Some(2));
    assert_eq!(provider.pop(), None);
    provider.complete(2);
    assert_eq!(provider.pop(), Some(3));
    assert_eq!(provider.pop(), None);
    provider.complete(3);
    assert!(provider.is_empty());
}

#[test]
fn node_released_only_by_its_last_dependency() {
    let mut nodes: HashMap<usize, Vec<usize>> = HashMap::new();
    nodes.insert(1, vec![]);
    nodes.insert(2, vec![]);
    nodes.insert(3, vec![1, 2]);
    let mut provider = TopologicalBatchProvider::new(nodes).unwrap();

    let first = drain_batch(&mut provider);
    assert_eq!(first, HashSet::from_iter(vec![1, 2]));

    provider.complete(2);
    assert_eq!(provider.pop(), None);
    provider.complete(1);
    assert_eq!(provider.pop(), Some(3));
    provider.complete(3);
    assert!(provider.is_empty());
}

#[test]
fn is_in_flight_follows_the_life_of_a_node() {
    let mut nodes: HashMap<usize, Vec<usize>> = HashMap::new();
    nodes.insert(1, vec![]);
    nodes.insert(2, vec![1]);
    let mut provider = TopologicalBatchProvider::new(nodes).unwrap();

    // Available, blocked, unknown.
    assert!(!provider.is_in_flight(&1));
    assert!(!provider.is_in_flight(&2));
    assert!(!provider.is_in_flight(&3));

    assert_eq!(provider.pop(), Some(1));
    assert!(provider.is_in_flight(&1));
    assert!(!provider.is_in_flight(&2));

    provider.complete(1);
    assert!(!provider.is_in_flight(&1));
    // Node 2 is available now, not yet claimed.
    assert!(!provider.is_in_flight(&2));

    assert_eq!(provider.pop(), Some(2));
    assert!(provider.is_in_flight(&2));
    provider.complete(2);
    assert!(!provider.is_in_flight(&2));
    assert!(provider.is_empty());
}

#[test]
fn works_with_string_identifiers() {
    let mut nodes: HashMap<String, Vec<String>> = HashMap::new();
    nodes.insert("build".to_string(), vec!["fetch".to_string()]);
    nodes.insert("fetch".to_string(), vec![]);
    nodes.insert("test".to_string(), vec!["build".to_string()]);
    let mut provider = TopologicalBatchProvider::new(nodes).unwrap();

    let mut order = Vec::new();
    while !provider.is_empty() {
        let v = provider.pop().unwrap();
        order.push(v.clone());
        provider.complete(v);
    }
    assert_eq!(order, vec!["fetch".to_string(), "build".to_string(), "test".to_string()]);
}

#[test]
fn is_closed_tells_whether_every_dependency_is_a_node() {
    assert!(TopologicalBatchProvider::is_closed(&sample_graph()));
    assert!(TopologicalBatchProvider::<usize>::is_closed(&HashMap::new()));

    // A cycle does not make a graph open.
    let mut nodes: HashMap<usize, Vec<usize>> = HashMap::new();
    nodes.insert(1, vec![2]);
    nodes.insert(2, vec![1]);
    assert!(TopologicalBatchProvider::is_closed(&nodes));

    // Node 3 is named as a dependency but is no key.
    let mut nodes: HashMap<usize, Vec<usize>> = HashMap::new();
    nodes.insert(1, vec![]);
    nodes.insert(2, vec![1, 3]);
    assert!(!TopologicalBatchProvider::is_closed(&nodes));
    nodes.insert(3, vec![]);
    assert!(TopologicalBatchProvider::is_closed(&nodes));
}
