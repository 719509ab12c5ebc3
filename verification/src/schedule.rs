//! The scheduling state as a mathematical object, the two transitions that
//! change it, and the laws that every run of them obeys.
//!
//! A [`Schedule`] holds the dependency graph, the nodes that have not been
//! completed and the nodes that are available. Claiming an available node
//! and completing a node in flight are its only transitions; a sequence of
//! them is a trace of [`Event`]s. The resolver's operations are specified as
//! these transitions, so whatever is proved here of every admitted trace
//! holds of every use of a resolver: dependencies complete before a node is
//! claimed, each node is claimed once and completed once, the state is
//! drained exactly when every node is completed, and as long as it is not,
//! some node is available or in flight.

use crate::graph::depends_on;
use crate::graph::is_closed;
use crate::graph::is_cyclic;
use crate::graph::leads;
use crate::graph::lemma_edge_reaches;
use crate::graph::link_at;
use crate::graph::reaches;
use vstd::prelude::*;

verus! {

/// How many entries of `s` are members of `members`, counted with
/// multiplicity.
pub open spec fn count_in<T>(s: Seq<T>, members: Set<T>) -> nat
    decreases s.len(),
{
    if s.len() == 0 {
        0
    } else {
        count_in(s.drop_last(), members) + if members.contains(s.last()) {
            1nat
        } else {
            0nat
        }
    }
}

/// How many entries of `s` are equal to `x`.
pub open spec fn occurrences<T>(s: Seq<T>, x: T) -> nat {
    count_in(s, Set::empty().insert(x))
}

/// Appending an entry raises the count by one exactly when the entry is a
/// member.
pub proof fn lemma_count_in_push<T>(s: Seq<T>, x: T, members: Set<T>)
    ensures
        count_in(s.push(x), members) == count_in(s, members) + if members.contains(x) {
            1nat
        } else {
            0nat
        },
{
    assert(s.push(x).drop_last() =~= s);
}

/// The count over a prefix grows by one step at a time and never exceeds
/// the count over the whole sequence.
pub proof fn lemma_count_in_prefix<T>(s: Seq<T>, k: int, members: Set<T>)
    requires
        0 <= k <= s.len(),
    ensures
        count_in(s.take(k), members) <= count_in(s, members),
        k < s.len() ==> count_in(s.take(k + 1), members) == count_in(s.take(k), members)
            + if members.contains(s[k]) {
            1nat
        } else {
            0nat
        },
    decreases s.len() - k,
{
    if k < s.len() {
        assert(s.take(k + 1) =~= s.take(k).push(s[k]));
        lemma_count_in_push(s.take(k), s[k], members);
        lemma_count_in_prefix(s, k + 1, members);
    } else {
        assert(s.take(k) =~= s);
    }
}

/// The count is zero exactly when no entry is a member.
pub proof fn lemma_count_in_zero<T>(s: Seq<T>, members: Set<T>)
    ensures
        count_in(s, members) == 0 <==> forall|x: T| #[trigger]
            s.contains(x) ==> !members.contains(x),
    decreases s.len(),
{
    if s.len() > 0 {
        let front = s.drop_last();
        lemma_count_in_zero(front, members);
        assert(s.contains(s.last()));
        assert forall|x: T| front.contains(x) implies s.contains(x) by {
            let i = choose|i: int| 0 <= i < front.len() && front[i] == x;
            assert(s[i] == x);
        }
        if count_in(s, members) == 0 {
            assert forall|x: T| s.contains(x) implies !members.contains(x) by {
                let i = choose|i: int| 0 <= i < s.len() && s[i] == x;
                if i < front.len() {
                    assert(front[i] == x);
                    assert(front.contains(x));
                }
            }
        }
    }
}

/// The count equals the length when every entry is a member.
pub proof fn lemma_count_in_all<T>(s: Seq<T>, members: Set<T>)
    requires
        forall|x: T| #[trigger] s.contains(x) ==> members.contains(x),
    ensures
        count_in(s, members) == s.len(),
    decreases s.len(),
{
    if s.len() > 0 {
        let front = s.drop_last();
        assert(s.contains(s.last()));
        assert forall|x: T| #[trigger] front.contains(x) implies members.contains(x) by {
            let i = choose|i: int| 0 <= i < front.len() && front[i] == x;
            assert(s[i] == x);
            assert(s.contains(x));
        }
        lemma_count_in_all(front, members);
    }
}

/// An entry occurs in a sequence exactly when its number of occurrences is
/// positive.
pub proof fn lemma_occurrences_positive<T>(s: Seq<T>, x: T)
    ensures
        occurrences(s, x) > 0 <==> s.contains(x),
{
    lemma_count_in_zero(s, Set::empty().insert(x));
    if occurrences(s, x) == 0 && s.contains(x) {
        assert(Set::<T>::empty().insert(x).contains(x));
    }
}

/// Taking one member out of the set lowers the count by the number of
/// entries equal to it.
pub proof fn lemma_count_in_remove<T>(s: Seq<T>, members: Set<T>, x: T)
    requires
        members.contains(x),
    ensures
        count_in(s, members.remove(x)) + occurrences(s, x) == count_in(s, members),
    decreases s.len(),
{
    if s.len() > 0 {
        lemma_count_in_remove(s.drop_last(), members, x);
    }
}

/// The scheduling state of one dependency graph.
///
/// A node of the graph is *completed* once it has left `unresolved`; it is
/// *ready* once all of its dependencies are completed. A ready node is
/// *available* until it is claimed, then *in flight* until it is completed.
/// A node that is not yet ready is *blocked*.
#[verifier::ext_equal]
#[verifier::reject_recursive_types(T)]
pub struct Schedule<T> {
    /// Each node with the sequence of nodes it depends on.
    pub graph: Map<T, Seq<T>>,
    /// The nodes that have not been completed.
    pub unresolved: Set<T>,
    /// The ready nodes that have not been claimed.
    pub available: Set<T>,
}

impl<T> Schedule<T> {
    /// The state before anything has been claimed: nothing is completed, and
    /// the nodes without dependencies are available.
    pub open spec fn initial(graph: Map<T, Seq<T>>) -> Self {
        Schedule {
            graph,
            unresolved: graph.dom(),
            available: Set::new(|n: T| graph.contains_key(n) && graph[n].len() == 0),
        }
    }

    /// Node `n` has been completed.
    pub open spec fn is_completed(self, n: T) -> bool {
        self.graph.contains_key(n) && !self.unresolved.contains(n)
    }

    /// Every dependency of node `n` has been completed.
    pub open spec fn is_ready(self, n: T) -> bool {
        self.graph.contains_key(n) && forall|d: T| #[trigger]
            depends_on(self.graph, n, d) ==> self.is_completed(d)
    }

    /// Node `n` waits for a dependency that has not been completed.
    pub open spec fn is_blocked(self, n: T) -> bool {
        self.unresolved.contains(n) && !self.is_ready(n)
    }

    /// Node `n` has been claimed and not yet completed.
    pub open spec fn is_in_flight(self, n: T) -> bool {
        self.unresolved.contains(n) && self.is_ready(n) && !self.available.contains(n)
    }

    /// Node `n` has been claimed at some time: it is in flight or completed.
    pub open spec fn is_claimed(self, n: T) -> bool {
        self.is_ready(n) && !self.available.contains(n)
    }

    /// The number of dependency edges of node `n` that lead to a node that
    /// has not been completed.
    pub open spec fn outstanding(self, n: T) -> nat {
        count_in(self.graph[n], self.unresolved)
    }

    /// Nothing is left to claim and nothing is left to complete.
    pub open spec fn is_drained(self) -> bool {
        self.available.is_empty() && self.unresolved.is_empty()
    }

    /// The state after available node `n` has been claimed.
    pub open spec fn claim(self, n: T) -> Self {
        Schedule { available: self.available.remove(n), ..self }
    }

    /// The state after in-flight node `n` has been completed: `n` is
    /// resolved, and every node that depends on `n` and has thereby become
    /// ready is available.
    pub open spec fn complete(self, n: T) -> Self {
        let resolved = Schedule { unresolved: self.unresolved.remove(n), ..self };
        Schedule {
            available: self.available.union(
                Set::new(|m: T| depends_on(self.graph, m, n) && resolved.is_ready(m)),
            ),
            ..resolved
        }
    }

    /// What holds of every state that the transitions can reach from the
    /// initial state of a finite, closed, acyclic graph.
    pub open spec fn inv(self) -> bool {
        &&& self.graph.dom().finite()
        &&& is_closed(self.graph)
        &&& !is_cyclic(self.graph)
        &&& self.unresolved.subset_of(self.graph.dom())
        &&& self.available.subset_of(self.unresolved)
        &&& forall|n: T| #[trigger] self.available.contains(n) ==> self.is_ready(n)
        &&& forall|n: T| #[trigger] self.is_completed(n) ==> self.is_ready(n)
    }
}

/// The initial state of a finite, closed, acyclic graph satisfies the
/// invariant.
pub proof fn lemma_initial_inv<T>(graph: Map<T, Seq<T>>)
    requires
        graph.dom().finite(),
        is_closed(graph),
        !is_cyclic(graph),
    ensures
        Schedule::initial(graph).inv(),
{
    let s = Schedule::initial(graph);
    assert forall|n: T| s.available.contains(n) implies s.is_ready(n) by {
        assert forall|d: T| !depends_on(graph, n, d) by {
            assert(!graph[n].contains(d));
        }
    }
}

/// A node has no outstanding dependency edge exactly when it is ready.
pub proof fn lemma_outstanding_zero<T>(s: Schedule<T>, n: T)
    requires
        is_closed(s.graph),
        s.graph.contains_key(n),
    ensures
        s.outstanding(n) == 0 <==> s.is_ready(n),
{
    lemma_count_in_zero(s.graph[n], s.unresolved);
    if s.is_ready(n) {
        assert forall|d: T| #[trigger] s.graph[n].contains(d) implies !s.unresolved.contains(
            d,
        ) by {
            assert(depends_on(s.graph, n, d));
            assert(s.is_completed(d));
        }
    }
}

/// Claiming an available node keeps the invariant, puts the node in flight,
/// and changes nothing about which nodes are completed.
pub proof fn lemma_claim_inv<T>(s: Schedule<T>, n: T)
    requires
        s.inv(),
        s.available.contains(n),
    ensures
        s.claim(n).inv(),
        s.claim(n).is_in_flight(n),
        s.claim(n).unresolved == s.unresolved,
{
    let t = s.claim(n);
    assert forall|m: T| s.is_ready(m) implies t.is_ready(m) by {
        assert forall|d: T| #[trigger] depends_on(t.graph, m, d) implies t.is_completed(d) by {
            assert(s.is_completed(d));
        }
    }
    assert forall|m: T| #[trigger] t.available.contains(m) implies t.is_ready(m) by {
        assert(s.available.contains(m));
    }
    assert forall|m: T| #[trigger] t.is_completed(m) implies t.is_ready(m) by {
        assert(s.is_completed(m));
    }
}

/// Completing a node in flight keeps the invariant and adds exactly that
/// node to the completed ones.
pub proof fn lemma_complete_inv<T>(s: Schedule<T>, n: T)
    requires
        s.inv(),
        s.is_in_flight(n),
    ensures
        s.complete(n).inv(),
        s.complete(n).is_completed(n),
        s.complete(n).unresolved == s.unresolved.remove(n),
{
    let t = s.complete(n);
    assert forall|m: T| s.is_ready(m) implies t.is_ready(m) by {
        assert forall|d: T| #[trigger] depends_on(t.graph, m, d) implies t.is_completed(d) by {
            assert(s.is_completed(d));
        }
    }
    assert forall|m: T| #[trigger] t.available.contains(m) implies t.unresolved.contains(m)
        && t.is_ready(m) by {
        if s.available.contains(m) {
            assert(s.is_ready(m));
        } else {
            assert(depends_on(s.graph, m, n));
            if m == n {
                lemma_edge_reaches(s.graph, n, n);
            }
            if !s.unresolved.contains(m) {
                assert(s.is_completed(m));
                assert(s.is_ready(m));
                assert(s.is_completed(n));
            }
        }
    }
    assert forall|m: T| #[trigger] t.is_completed(m) implies t.is_ready(m) by {
        if m != n {
            assert(s.is_completed(m));
        }
        assert(s.is_ready(m));
    }
}

/// Under the invariant a state is drained exactly when every node of the
/// graph is completed.
pub proof fn lemma_drained_means_all_completed<T>(s: Schedule<T>)
    requires
        s.inv(),
    ensures
        s.is_drained() <==> forall|n: T| #[trigger]
            s.graph.contains_key(n) ==> s.is_completed(n),
{
    if forall|n: T| #[trigger] s.graph.contains_key(n) ==> s.is_completed(n) {
        assert forall|n: T| !s.unresolved.contains(n) by {
            if s.unresolved.contains(n) {
                assert(s.graph.contains_key(n));
            }
        }
        assert(s.unresolved =~= Set::empty());
        assert(s.available =~= Set::empty());
    }
}

/// Under the invariant every node of the graph is in exactly one of the
/// four states: blocked, available, in flight, completed.
pub proof fn lemma_exactly_one_state<T>(s: Schedule<T>, n: T)
    requires
        s.inv(),
        s.graph.contains_key(n),
    ensures
        s.is_blocked(n) || s.available.contains(n) || s.is_in_flight(n) || s.is_completed(n),
        !(s.is_blocked(n) && s.available.contains(n)),
        !(s.is_blocked(n) && s.is_in_flight(n)),
        !(s.is_blocked(n) && s.is_completed(n)),
        !(s.available.contains(n) && s.is_in_flight(n)),
        !(s.available.contains(n) && s.is_completed(n)),
        !(s.is_in_flight(n) && s.is_completed(n)),
{
}

/// One transition of the scheduling state.
pub enum Event<T> {
    /// An available node is claimed.
    Claim(T),
    /// A node in flight is completed.
    Complete(T),
}

impl<T> Schedule<T> {
    /// Event `e` may happen in this state: only an available node can be
    /// claimed, and only a node in flight can be completed.
    pub open spec fn enables(self, e: Event<T>) -> bool {
        match e {
            Event::Claim(n) => self.available.contains(n),
            Event::Complete(n) => self.is_in_flight(n),
        }
    }

    /// The state after event `e`.
    pub open spec fn step(self, e: Event<T>) -> Self {
        match e {
            Event::Claim(n) => self.claim(n),
            Event::Complete(n) => self.complete(n),
        }
    }

    /// The state after the events of `trace`, in order.
    pub open spec fn after(self, trace: Seq<Event<T>>) -> Self
        decreases trace.len(),
    {
        if trace.len() == 0 {
            self
        } else {
            self.after(trace.drop_last()).step(trace.last())
        }
    }

    /// Each event of `trace` may happen in the state that the events before
    /// it lead to.
    pub open spec fn admits(self, trace: Seq<Event<T>>) -> bool
        decreases trace.len(),
    {
        trace.len() == 0 || (self.admits(trace.drop_last()) && self.after(
            trace.drop_last(),
        ).enables(trace.last()))
    }
}

/// A sequence with one more entry holds what it held before, and that entry.
proof fn lemma_contains_last<A>(s: Seq<A>, x: A)
    requires
        s.len() > 0,
    ensures
        s.contains(x) <==> s.drop_last().contains(x) || s.last() == x,
{
    let front = s.drop_last();
    if s.contains(x) {
        let i = choose|i: int| 0 <= i < s.len() && s[i] == x;
        if i < front.len() {
            assert(front[i] == x);
        }
    }
    if front.contains(x) {
        let i = choose|i: int| 0 <= i < front.len() && front[i] == x;
        assert(s[i] == x);
    }
    if s.last() == x {
        assert(s[s.len() - 1] == x);
    }
}

/// Every prefix of an admitted trace is admitted, and each event of the
/// trace may happen in the state that the prefix before it leads to.
pub proof fn lemma_admits_prefix<T>(s: Schedule<T>, trace: Seq<Event<T>>, k: int)
    requires
        s.admits(trace),
        0 <= k <= trace.len(),
    ensures
        s.admits(trace.take(k)),
        k < trace.len() ==> s.after(trace.take(k)).enables(trace[k]),
        k < trace.len() ==> s.after(trace.take(k + 1)) == s.after(trace.take(k)).step(
            trace[k],
        ),
    decreases trace.len(),
{
    if k == trace.len() {
        assert(trace.take(k) =~= trace);
    } else {
        let front = trace.drop_last();
        assert(front =~= trace.take(trace.len() - 1));
        if k == trace.len() - 1 {
            assert(trace.take(k + 1) =~= trace);
            assert(trace.take(k) =~= front);
        } else {
            lemma_admits_prefix(s, front, k);
            assert(front.take(k) =~= trace.take(k));
            assert(front.take(k + 1) =~= trace.take(k + 1));
        }
    }
}

/// What an admitted trace from the initial state leads to: a state of the
/// same graph that satisfies the invariant, in which the completed nodes are
/// those with a `Complete` event and the claimed nodes are those with a
/// `Claim` event.
pub proof fn lemma_after_trace<T>(graph: Map<T, Seq<T>>, trace: Seq<Event<T>>)
    requires
        graph.dom().finite(),
        is_closed(graph),
        !is_cyclic(graph),
        Schedule::initial(graph).admits(trace),
    ensures
        Schedule::initial(graph).after(trace).inv(),
        Schedule::initial(graph).after(trace).graph == graph,
        forall|n: T| #[trigger]
            Schedule::initial(graph).after(trace).is_completed(n) <==> trace.contains(
                Event::Complete(n),
            ),
        forall|n: T| #[trigger]
            Schedule::initial(graph).after(trace).is_claimed(n) <==> trace.contains(
                Event::Claim(n),
            ),
    decreases trace.len(),
{
    let init = Schedule::initial(graph);
    let t = init.after(trace);
    if trace.len() == 0 {
        lemma_initial_inv(graph);
        assert forall|n: T| !(#[trigger] init.is_claimed(n)) by {
            if init.is_ready(n) && graph[n].len() > 0 {
                assert(graph[n][0] == graph[n][0]);
                assert(depends_on(graph, n, graph[n][0]));
                assert(init.is_completed(graph[n][0]));
            }
        }
    } else {
        let front = trace.drop_last();
        let s = init.after(front);
        lemma_after_trace(graph, front);
        assert forall|n: T| #[trigger]
            t.is_completed(n) <==> trace.contains(Event::Complete(n)) by {
            lemma_contains_last(trace, Event::Complete(n));
            assert(s.is_completed(n) <==> front.contains(Event::Complete(n)));
        }
        assert forall|n: T| #[trigger] t.is_claimed(n) <==> trace.contains(Event::Claim(n)) by {
            lemma_contains_last(trace, Event::Claim(n));
            assert(s.is_claimed(n) <==> front.contains(Event::Claim(n)));
            lemma_claimed_step(s, trace.last(), n);
        }
        match trace.last() {
            Event::Claim(c) => {
                lemma_claim_inv(s, c);
            },
            Event::Complete(c) => {
                lemma_complete_inv(s, c);
            },
        }
    }
}

/// A node has been claimed after an event exactly when it had been claimed
/// before or the event claims it.
proof fn lemma_claimed_step<T>(s: Schedule<T>, e: Event<T>, n: T)
    requires
        s.inv(),
        s.enables(e),
    ensures
        s.step(e).is_claimed(n) <==> s.is_claimed(n) || e == Event::Claim(n),
{
    let t = s.step(e);
    match e {
        Event::Claim(c) => {
            lemma_claim_inv(s, c);
            if s.is_ready(n) {
                assert forall|d: T| #[trigger] depends_on(t.graph, n, d) implies t.is_completed(
                    d,
                ) by {
                    assert(s.is_completed(d));
                }
            }
            if t.is_ready(n) {
                assert forall|d: T| #[trigger] depends_on(s.graph, n, d) implies s.is_completed(
                    d,
                ) by {
                    assert(t.is_completed(d));
                }
            }
        },
        Event::Complete(c) => {
            lemma_complete_inv(s, c);
            let resolved = Schedule { unresolved: s.unresolved.remove(c), ..s };
            if s.is_ready(n) {
                assert forall|d: T| #[trigger] depends_on(t.graph, n, d) implies t.is_completed(
                    d,
                ) by {
                    assert(s.is_completed(d));
                }
                if depends_on(s.graph, n, c) {
                    assert(s.is_completed(c));
                }
            }
            if t.is_ready(n) && !t.available.contains(n) {
                assert(resolved.is_ready(n)) by {
                    assert forall|d: T| #[trigger]
                        depends_on(resolved.graph, n, d) implies resolved.is_completed(d) by {
                        assert(t.is_completed(d));
                    }
                }
                assert(!depends_on(s.graph, n, c));
                assert forall|d: T| #[trigger] depends_on(s.graph, n, d) implies s.is_completed(
                    d,
                ) by {
                    assert(t.is_completed(d));
                }
            }
        },
    }
}

/// A node is claimed only after each of its dependencies has been
/// completed: in an admitted trace from the initial state, before the claim
/// of a node there is a `Complete` event for every node it depends on.
pub proof fn lemma_dependencies_complete_before_claim<T>(
    graph: Map<T, Seq<T>>,
    trace: Seq<Event<T>>,
    i: int,
    n: T,
    d: T,
)
    requires
        graph.dom().finite(),
        is_closed(graph),
        !is_cyclic(graph),
        Schedule::initial(graph).admits(trace),
        0 <= i < trace.len(),
        trace[i] == Event::Claim(n),
        depends_on(graph, n, d),
    ensures
        exists|j: int| 0 <= j < i && trace[j] == Event::Complete(d),
{
    let init = Schedule::initial(graph);
    let before = trace.take(i);
    lemma_admits_prefix(init, trace, i);
    lemma_after_trace(graph, before);
    let s = init.after(before);
    assert(s.is_ready(n));
    assert(s.is_completed(d));
    assert(before.contains(Event::Complete(d)));
    let j = choose|j: int| 0 <= j < before.len() && before[j] == Event::Complete(d);
    assert(trace[j] == Event::Complete(d));
}

/// No node is claimed twice, no node is completed twice, and no node is
/// claimed after it has been completed: in an admitted trace from the
/// initial state, each event occurs at most once, and the claim of a node
/// comes before its completion.
pub proof fn lemma_each_node_once<T>(
    graph: Map<T, Seq<T>>,
    trace: Seq<Event<T>>,
    i: int,
    j: int,
    n: T,
)
    requires
        graph.dom().finite(),
        is_closed(graph),
        !is_cyclic(graph),
        Schedule::initial(graph).admits(trace),
        0 <= i < trace.len(),
        0 <= j < trace.len(),
    ensures
        trace[i] == trace[j] ==> i == j,
        trace[i] == Event::Complete(n) && trace[j] == Event::Claim(n) ==> j < i,
{
    let init = Schedule::initial(graph);
    if i < j {
        let before = trace.take(j);
        lemma_admits_prefix(init, trace, j);
        lemma_after_trace(graph, before);
        let s = init.after(before);
        assert(before[i] == trace[i]);
        assert(before.contains(trace[i]));
        match trace[i] {
            Event::Claim(c) => {
                assert(s.is_claimed(c));
            },
            Event::Complete(c) => {
                assert(s.is_completed(c));
            },
        }
    } else if j < i {
        let before = trace.take(i);
        lemma_admits_prefix(init, trace, i);
        lemma_after_trace(graph, before);
        let s = init.after(before);
        assert(before[j] == trace[j]);
        assert(before.contains(trace[j]));
        match trace[j] {
            Event::Claim(c) => {
                assert(s.is_claimed(c));
            },
            Event::Complete(c) => {
                assert(s.is_completed(c));
            },
        }
    }
}

/// A node is completed only after it has been claimed: in an admitted trace
/// from the initial state, before the completion of a node there is a
/// `Claim` event for it.
pub proof fn lemma_claim_before_complete<T>(
    graph: Map<T, Seq<T>>,
    trace: Seq<Event<T>>,
    i: int,
    n: T,
)
    requires
        graph.dom().finite(),
        is_closed(graph),
        !is_cyclic(graph),
        Schedule::initial(graph).admits(trace),
        0 <= i < trace.len(),
        trace[i] == Event::Complete(n),
    ensures
        exists|j: int| 0 <= j < i && trace[j] == Event::Claim(n),
{
    let init = Schedule::initial(graph);
    let before = trace.take(i);
    lemma_admits_prefix(init, trace, i);
    lemma_after_trace(graph, before);
    assert(Schedule::initial(graph).after(before).is_claimed(n));
    let j = choose|j: int| 0 <= j < before.len() && before[j] == Event::Claim(n);
    assert(trace[j] == Event::Claim(n));
}

/// The state is drained exactly when every node has been completed: after
/// an admitted trace from the initial state, nothing is left exactly when
/// the trace holds a `Complete` event for every node of the graph.
pub proof fn lemma_drained_iff_all_completed<T>(graph: Map<T, Seq<T>>, trace: Seq<Event<T>>)
    requires
        graph.dom().finite(),
        is_closed(graph),
        !is_cyclic(graph),
        Schedule::initial(graph).admits(trace),
    ensures
        Schedule::initial(graph).after(trace).is_drained() <==> forall|n: T| #[trigger]
            graph.contains_key(n) ==> trace.contains(Event::Complete(n)),
{
    let s = Schedule::initial(graph).after(trace);
    lemma_after_trace(graph, trace);
    lemma_drained_means_all_completed(s);
    if s.is_drained() {
        assert forall|n: T| #[trigger] graph.contains_key(n) implies trace.contains(
            Event::Complete(n),
        ) by {
            assert(s.is_completed(n));
        }
    }
    if forall|n: T| #[trigger] graph.contains_key(n) ==> trace.contains(Event::Complete(n)) {
        assert forall|n: T| #[trigger] s.graph.contains_key(n) implies s.is_completed(n) by {
            assert(trace.contains(Event::Complete(n)));
        }
    }
}

/// Once drained, always drained: a drained state enables no event.
pub proof fn lemma_drained_is_final<T>(s: Schedule<T>, e: Event<T>)
    requires
        s.inv(),
        s.is_drained(),
    ensures
        !s.enables(e),
{
}

/// Some dependency of `n` that has not been completed, where there is one.
spec fn unresolved_dependency<T>(s: Schedule<T>, n: T) -> T {
    choose|d: T| depends_on(s.graph, n, d) && s.unresolved.contains(d)
}

/// The node reached from `start` by going `k` times from a node to one of
/// its dependencies that has not been completed.
spec fn descend<T>(s: Schedule<T>, start: T, k: nat) -> T
    decreases k,
{
    if k == 0 {
        start
    } else {
        unresolved_dependency(s, descend(s, start, (k - 1) as nat))
    }
}

/// Where every node that has not been completed waits for another such
/// node, descending from one of them never leaves them, and each step
/// follows a dependency edge.
proof fn lemma_descend_stays_unresolved<T>(s: Schedule<T>, start: T, k: nat)
    requires
        is_closed(s.graph),
        s.unresolved.subset_of(s.graph.dom()),
        s.unresolved.contains(start),
        forall|n: T| #[trigger] s.unresolved.contains(n) ==> !s.is_ready(n),
    ensures
        s.unresolved.contains(descend(s, start, k)),
        k > 0 ==> depends_on(s.graph, descend(s, start, (k - 1) as nat), descend(s, start, k)),
    decreases k,
{
    if k > 0 {
        lemma_descend_stays_unresolved(s, start, (k - 1) as nat);
        let n = descend(s, start, (k - 1) as nat);
        assert(!s.is_ready(n));
        let d = choose|d: T| #[trigger] depends_on(s.graph, n, d) && !s.is_completed(d);
        assert(depends_on(s.graph, n, d) && s.unresolved.contains(d));
    }
}

/// The scheduler never deadlocks: under the invariant, as long as some node
/// has not been completed, some node is available or in flight.
pub proof fn lemma_progress<T>(s: Schedule<T>)
    requires
        s.inv(),
        !s.is_drained(),
    ensures
        exists|n: T|
            #![trigger s.unresolved.contains(n)]
            s.unresolved.contains(n) && (s.available.contains(n) || s.is_in_flight(n)),
{
    vstd::set_lib::lemma_len_subset(s.unresolved, s.graph.dom());
    if s.unresolved =~= Set::empty() {
        assert(s.available =~= Set::empty());
    }
    let start = choose|n: T| s.unresolved.contains(n);
    if forall|n: T| #[trigger] s.unresolved.contains(n) ==> !s.is_ready(n) {
        let len = s.unresolved.len() + 1;
        let p = Seq::new(len, |k: int| descend(s, start, k as nat));
        assert forall|k: int| 0 <= k < p.len() implies s.unresolved.contains(
            #[trigger] p[k],
        ) by {
            lemma_descend_stays_unresolved(s, start, k as nat);
        }
        if p.no_duplicates() {
            p.unique_seq_to_set();
            assert(p.to_set().subset_of(s.unresolved)) by {
                assert forall|x: T| p.to_set().contains(x) implies s.unresolved.contains(x) by {
                    let k = choose|k: int| 0 <= k < p.len() && p[k] == x;
                    assert(s.unresolved.contains(p[k]));
                }
            }
            vstd::set_lib::lemma_len_subset(p.to_set(), s.unresolved);
            assert(false);
        }
        let (i, j) = choose|i: int, j: int|
            0 <= i < p.len() && 0 <= j < p.len() && i != j && p[i] == p[j];
        let (lo, hi) = if i < j {
            (i, j)
        } else {
            (j, i)
        };
        let cycle = p.subrange(lo, hi + 1);
        assert forall|k: int| 0 <= k < cycle.len() - 1 implies #[trigger] link_at(
            s.graph,
            cycle,
            k,
        ) by {
            lemma_descend_stays_unresolved(s, start, (lo + k + 1) as nat);
            assert(cycle[k] == p[lo + k]);
            assert(cycle[k + 1] == p[lo + k + 1]);
        }
        assert(leads(s.graph, cycle, p[lo], p[lo]));
        assert(reaches(s.graph, p[lo], p[lo]));
        assert(false);
    }
    let n = choose|n: T| #[trigger] s.unresolved.contains(n) && s.is_ready(n);
    assert(s.unresolved.contains(n) && (s.available.contains(n) || s.is_in_flight(n)));
}

} // verus!
