//! Vocabulary shared by the resolver and the runner: what is asked of a node
//! identifier, the capabilities that callers supply, and the error type.

use std::hash::Hash;
use vstd::laws_eq::obeys_concrete_eq;
use vstd::prelude::*;
use vstd::std_specs::hash::obeys_key_model;

verus! {

/// What the scheduler asks of a node identifier type: it can key a hash
/// table, its executable `==` agrees with mathematical equality, and a clone
/// is equal to the value it was cloned from.
///
/// All contracts in this crate are stated for identifier types that obey
/// this model. The primitive integer types do; see
/// [`lemma_usize_obeys_id_model`] and [`lemma_u64_obeys_id_model`].
pub open spec fn obeys_id_model<T: Hash + Eq + Clone>() -> bool {
    &&& obeys_key_model::<T>()
    &&& obeys_concrete_eq::<T>()
    &&& forall|a: T, b: T| #[trigger] cloned(a, b) ==> a == b
}

/// `usize` identifiers obey the identifier model.
pub proof fn lemma_usize_obeys_id_model()
    ensures
        obeys_id_model::<usize>(),
{
    reveal(obeys_concrete_eq);
}

/// `u64` identifiers obey the identifier model.
pub proof fn lemma_u64_obeys_id_model()
    ensures
        obeys_id_model::<u64>(),
{
    reveal(obeys_concrete_eq);
}

/// An owned copy of an identifier.
pub(crate) fn copy_of<T: Hash + Eq + Clone>(id: &T) -> (copy: T)
    requires
        obeys_id_model::<T>(),
    ensures
        copy == *id,
{
    let copy = id.clone();
    assert(cloned(*id, copy));
    copy
}

/// Whether two identifiers are the same.
pub(crate) fn same_id<T: Hash + Eq + Clone>(a: &T, b: &T) -> (same: bool)
    requires
        obeys_id_model::<T>(),
    ensures
        same == (*a == *b),
{
    proof {
        reveal(obeys_concrete_eq);
    }
    a == b
}

/// A unit of schedulable work: an identifier and the identifiers of the
/// nodes that must complete before it may start.
pub trait Node<T: Clone + Hash + PartialEq + Eq> {
    /// The identifier of this node.
    fn id(&self) -> &T;

    /// The identifiers of the nodes that this node depends on.
    fn dependencies(&self) -> &Vec<T>;
}

/// The work itself, supplied by the caller and invoked once per node.
pub trait CallableByID<T> {
    /// Does the work of node `id`.
    fn call(&self, id: T);
}

/// The ways in which building a resolver can fail.
#[derive(Debug, Clone, Copy, PartialEq, Eq, Structural)]
pub enum Error {
    /// The dependency graph contains a cycle, so no order of execution
    /// respects every dependency.
    CycleDetected,
}

impl Error {
    /// The text of [`Error::message`].
    pub open spec fn spec_message(self) -> Seq<char> {
        match self {
            Error::CycleDetected => "Cycle detected."@,
        }
    }

    /// A human-readable description of the error.
    pub fn message(&self) -> (text: String)
        ensures
            text@ == self.spec_message(),
    {
        match self {
            Error::CycleDetected => "Cycle detected.".to_owned(),
        }
    }
}

} // verus!
