//! The pool runner: a fixed number of workers that claim, execute and
//! complete nodes until the graph is drained.
//!
//! What a worker does next is decided here, from the state of the resolver
//! alone. Carrying the decision out (starting the workers, locking the
//! resolver they share, calling the executor, sleeping) is left to the
//! caller.

use crate::graph::depends_on;
use crate::schedule::lemma_progress;
use crate::topological_batch_provider::TopologicalBatchProvider;
use std::hash::Hash;
use vstd::prelude::*;

verus! {

/// How long a worker that found nothing to claim waits before it asks again,
/// in milliseconds.
pub const BACKOFF_MILLIS: u64 = 100;

/// The configuration of a pool: the number of workers that run in parallel.
#[derive(Debug)]
pub struct ThreadPoolRunner {
    thread_count: usize,
}

/// What a worker does next.
#[derive(Debug)]
pub enum WorkerStep<T> {
    /// Every node has been completed: the worker terminates.
    Finish,
    /// The node has been claimed for this worker: it executes the node
    /// without holding the resolver, then reports the node as completed.
    Execute(T),
    /// Nothing is ready, but not everything is completed: the worker waits
    /// for [`BACKOFF_MILLIS`] and asks again.
    Backoff,
}

impl ThreadPoolRunner {
    /// The number of workers of the pool.
    pub closed spec fn spec_thread_count(&self) -> usize {
        self.thread_count
    }

    /// A pool of `thread_count` workers.
    pub fn new(thread_count: usize) -> (runner: Self)
        ensures
            runner.thread_count() == thread_count,
    {
        Self { thread_count }
    }

    /// The number of workers of the pool.
    #[verifier::when_used_as_spec(spec_thread_count)]
    pub fn thread_count(&self) -> (count: usize)
        ensures
            count == self.thread_count(),
    {
        self.thread_count
    }

    /// Decides what a worker that holds the resolver does next.
    ///
    /// The worker terminates exactly when the resolver is drained.
    /// Otherwise it claims a node if one is available, and backs off if
    /// none is. A node handed out for execution is in flight, and every
    /// node it depends on has been completed. A worker backs off only while
    /// some node is in flight, so that waiting ends when that node is
    /// completed.
    pub fn next_step<T: Hash + PartialEq + Eq + Clone>(
        provider: &mut TopologicalBatchProvider<T>,
    ) -> (step: WorkerStep<T>)
        requires
            old(provider).wf(),
        ensures
            final(provider).wf(),
            match step {
                WorkerStep::Finish => {
                    &&& old(provider)@.is_drained()
                    &&& final(provider)@ == old(provider)@
                },
                WorkerStep::Execute(n) => {
                    &&& !old(provider)@.is_drained()
                    &&& old(provider)@.available.contains(n)
                    &&& final(provider)@ == old(provider)@.claim(n)
                    &&& final(provider)@.is_in_flight(n)
                    &&& forall|d: T| #[trigger]
                        depends_on(final(provider)@.graph, n, d) ==> final(provider)@.is_completed(
                            d,
                        )
                },
                WorkerStep::Backoff => {
                    &&& !old(provider)@.is_drained()
                    &&& old(provider)@.available.is_empty()
                    &&& final(provider)@ == old(provider)@
                    &&& exists|n: T| #[trigger] final(provider)@.is_in_flight(n)
                },
            },
    {
        if provider.is_empty() {
            return WorkerStep::Finish;
        }
        match provider.pop() {
            Some(node) => WorkerStep::Execute(node),
            None => {
                proof {
                    lemma_progress(provider@);
                    let n = choose|n: T|
                        #![trigger provider@.unresolved.contains(n)]
                        provider@.unresolved.contains(n) && (provider@.available.contains(n)
                            || provider@.is_in_flight(n));
                    assert(provider@.is_in_flight(n));
                }
                WorkerStep::Backoff
            },
        }
    }
}

} // verus!
