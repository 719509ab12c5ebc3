//! Dependency-ordered scheduling of a directed acyclic graph of work items.
//!
//! [`TopologicalBatchProvider`] tracks which nodes of a dependency graph are
//! blocked, ready, in flight or done, and refuses graphs that contain a
//! cycle. [`ThreadPoolRunner`] describes a fixed pool of workers and decides
//! what each worker does next. The mathematical model that the contracts are
//! stated over lives in [`graph`] and [`schedule`], together with the laws
//! that hold of every use of a resolver.

pub mod common;
pub mod graph;
pub mod schedule;
pub mod thread_pool_runner;
pub mod topological_batch_provider;

pub use common::CallableByID;
pub use common::Error;
pub use common::Node;
pub use thread_pool_runner::ThreadPoolRunner;
pub use thread_pool_runner::BACKOFF_MILLIS;
pub use thread_pool_runner::WorkerStep;
pub use topological_batch_provider::TopologicalBatchProvider;
