use std::collections::{HashMap, HashSet};

use topological_batch::BACKOFF_MILLIS;
use topological_batch::CallableByID;
use topological_batch::Node;
use topological_batch::ThreadPoolRunner;
use topological_batch::TopologicalBatchProvider;
use topological_batch::WorkerStep;

struct NodeExample {
    id: String,
    dependencies: Vec<String>,
}

impl Node<String> for NodeExample {
    fn id<'a>(&'a self) -> &'a String {
        &self.id
    }

    fn dependencies(&self) -> &Vec<String> {
        &self.dependencies
    }
}

struct ExecutorExample {
    dependency_graph: HashMap<usize, Vec<usize>>,
    seen: std::cell::RefCell<HashSet<usize>>,
}

impl ExecutorExample {
    fn new(dependency_graph: HashMap<usize, Vec<usize>>) -> Self {
        Self {
            dependency_graph,
            seen: std::cell::RefCell::new(HashSet::new()),
        }
    }
}

impl CallableByID<usize> for ExecutorExample {
    fn call(&self, id: usize) {
        let mut seen = self.seen.borrow_mut();
        seen.insert(id);

        for dep in &self.dependency_graph[&id] {
            assert!(seen.contains(&dep));
        }
    }
}

fn sample_graph() -> HashMap<usize, Vec<usize>> {
    let mut nodes: HashMap<usize, Vec<usize>> = HashMap::new();

    nodes.insert(1, vec![]);
    nodes.insert(2, vec![1]);
    nodes.insert(3, vec![1]);
    nodes.insert(4, vec![]);
    nodes.insert(5, vec![]);
    nodes.insert(6, vec![2, 3]);
    nodes.insert(7, vec![3, 4]);
    nodes.insert(8, vec![6]);

    nodes
}

/// Drives the workers of `runner` over the resolver in rounds: in every
/// round each worker in turn either finishes the node it holds or asks for
/// its next step. A worker that holds a node keeps it for `hold` rounds, so
/// that several nodes are in flight at once.
fn run_in_rounds(
    runner: &ThreadPoolRunner,
    mut provider: TopologicalBatchProvider<usize>,
    executor: &dyn CallableByID<usize>,
    hold: usize,
) -> usize {
    let workers = runner.thread_count();
    let mut holding: Vec<Option<(usize, usize)>> = vec![None; workers];
    let mut finished: Vec<bool> = vec![false; workers];
    let mut executed = 0;
    let mut rounds = 0;

    while finished.iter().any(|done| !done) {
        rounds += 1;
        assert!(rounds < 10_000, "the workers did not terminate");
        for w in 0..workers {
            if finished[w] {
                continue;
            }
            match holding[w] {
                Some((node, left)) if left > 0 => holding[w] = Some((node, left - 1)),
                Some((node, _)) => {
                    assert!(provider.is_in_flight(&node));
                    provider.complete(node);
                    holding[w] = None;
                }
                None => match ThreadPoolRunner::next_step(&mut provider) {
                    WorkerStep::Finish => finished[w] = true,
                    WorkerStep::Execute(node) => {
                        executor.call(node);
                        executed += 1;
                        holding[w] = Some((node, hold));
                    }
                    WorkerStep::Backoff => {}
                },
            }
        }
    }

    assert!(provider.is_empty());
    executed
}

#[test]
fn lib_it_works_with_single_thread() {
    let nodes = sample_graph();

    let topological_batch_provider = TopologicalBatchProvider::new(nodes.clone());
    let runner = ThreadPoolRunner::new(1);
    let executor = ExecutorExample::new(nodes);

    let executed = run_in_rounds(&runner, topological_batch_provider.unwrap(), &executor, 0);
    assert_eq!(executed, 8);
    assert_eq!(executor.seen.borrow().len(), 8);
}

#[test]
fn lib_it_works_with_multiple_threads() {
    let nodes = sample_graph();

    let topological_batch_provider = TopologicalBatchProvider::new(nodes.clone());
    let runner = ThreadPoolRunner::new(4);
    let executor = ExecutorExample::new(nodes);

    let executed = run_in_rounds(&runner, topological_batch_provider.unwrap(), &executor, 2);
    assert_eq!(executed, 8);
    assert_eq!(executor.seen.borrow().len(), 8);
}

#[test]
fn thread_pool_runner_it_works_with_single_thread() {
    let nodes = sample_graph();

    let topological_batch_provider = TopologicalBatchProvider::new(nodes.clone());
    let runner = ThreadPoolRunner::new(1);
    let executor = ExecutorExample::new(nodes);

    let executed = run_in_rounds(&runner, topological_batch_provider.unwrap(), &executor, 1);
    assert_eq!(executed, 8);
    assert_eq!(executor.seen.borrow().len(), 8);
}

#[test]
fn thread_pool_runner_it_works_with_multiple_threads() {
    let nodes = sample_graph();

    let topological_batch_provider = TopologicalBatchProvider::new(nodes.clone());
    let runner = ThreadPoolRunner::new(4);
    let executor = ExecutorExample::new(nodes);

    let executed = run_in_rounds(&runner, topological_batch_provider.unwrap(), &executor, 1);
    assert_eq!(executed, 8);
    assert_eq!(executor.seen.borrow().len(), 8);
}

#[test]
fn same_graph_with_one_and_with_four_workers_repeatedly() {
    for repetition in 0..50 {
        for workers in [1, 4] {
            let nodes = sample_graph();
            let provider = TopologicalBatchProvider::new(nodes.clone()).unwrap();
            let runner = ThreadPoolRunner::new(workers);
            let executor = ExecutorExample::new(nodes);

            let executed = run_in_rounds(&runner, provider, &executor, repetition % 3);
            assert_eq!(executed, 8);
        }
    }
}

#[test]
fn runner_keeps_its_worker_count() {
    assert_eq!(ThreadPoolRunner::new(1).thread_count(), 1);
    assert_eq!(ThreadPoolRunner::new(4).thread_count(), 4);
    assert_eq!(ThreadPoolRunner::new(0).thread_count(), 0);
}

#[test]
fn backoff_interval_is_a_tenth_of_a_second() {
    assert_eq!(BACKOFF_MILLIS, 100);
}

#[test]
fn next_step_finishes_exactly_when_drained() {
    let mut nodes: HashMap<usize, Vec<usize>> = HashMap::new();
    nodes.insert(1, vec![]);
    nodes.insert(2, vec![1]);
    let mut provider = TopologicalBatchProvider::new(nodes).unwrap();

    assert!(matches!(ThreadPoolRunner::next_step(&mut provider), WorkerStep::Execute(1)));
    // Node 1 is in flight and node 2 is blocked: nothing to do but wait.
    assert!(matches!(ThreadPoolRunner::next_step(&mut provider), WorkerStep::Backoff));
    assert!(matches!(ThreadPoolRunner::next_step(&mut provider), WorkerStep::Backoff));
    provider.complete(1);
    assert!(matches!(ThreadPoolRunner::next_step(&mut provider), WorkerStep::Execute(2)));
    assert!(matches!(ThreadPoolRunner::next_step(&mut provider), WorkerStep::Backoff));
    provider.complete(2);
    assert!(matches!(ThreadPoolRunner::next_step(&mut provider), WorkerStep::Finish));
    assert!(matches!(ThreadPoolRunner::next_step(&mut provider), WorkerStep::Finish));
}

#[test]
fn next_step_on_an_empty_graph_finishes() {
    let nodes: HashMap<usize, Vec<usize>> = HashMap::new();
    let mut provider = TopologicalBatchProvider::new(nodes).unwrap();
    assert!(matches!(ThreadPoolRunner::next_step(&mut provider), WorkerStep::Finish));
}

#[test]
fn nodes_describe_a_dependency_map() {
    let all = vec![
        NodeExample { id: "a".to_string(), dependencies: vec![] },
        NodeExample { id: "b".to_string(), dependencies: vec!["a".to_string()] },
    ];
    let mut nodes: HashMap<String, Vec<String>> = HashMap::new();
    for node in &all {
        nodes.insert(node.id().clone(), node.dependencies().clone());
    }
    let mut provider = TopologicalBatchProvider::new(nodes).unwrap();
    assert_eq!(provider.pop(), Some("a".to_string()));
    assert_eq!(provider.pop(), None);
    provider.complete("a".to_string());
    assert_eq!(provider.pop(), Some("b".to_string()));
}
