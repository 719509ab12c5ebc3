//! The dependency resolver: which nodes are blocked, ready, in flight or done.

use crate::common::copy_of;
use crate::common::Error;
use crate::common::obeys_id_model;
use crate::common::same_id;
use crate::graph::depends_on;
use crate::graph::is_closed;
use crate::graph::is_cyclic;
use crate::graph::lemma_edge_reaches;
use crate::graph::lemma_reachable_within;
use crate::graph::lemma_reaches_between_nodes;
use crate::graph::lemma_reaches_then_edge;
use crate::graph::reaches;
use crate::schedule::lemma_claim_inv;
use crate::schedule::lemma_complete_inv;
use crate::schedule::lemma_count_in_all;
use crate::schedule::lemma_count_in_prefix;
use crate::schedule::lemma_count_in_push;
use crate::schedule::lemma_count_in_remove;
use crate::schedule::lemma_drained_means_all_completed;
use crate::schedule::lemma_initial_inv;
use crate::schedule::lemma_occurrences_positive;
use crate::schedule::lemma_outstanding_zero;
use crate::schedule::occurrences;
use crate::schedule::Schedule;
use std::collections::HashMap;
use std::collections::HashSet;
use std::hash::Hash;
use vstd::prelude::*;

verus! {

/// The dependency graph that a map from node to dependency list describes.
pub open spec fn graph_of<T>(nodes: Map<T, Vec<T>>) -> Map<T, Seq<T>> {
    Map::new(|n: T| nodes.contains_key(n), |n: T| nodes[n]@)
}

/// The nodes recorded in `inverse` as depending on `d`, one entry per
/// dependency edge.
spec fn dependents_in<T>(inverse: Map<T, Vec<T>>, d: T) -> Seq<T> {
    if inverse.contains_key(d) {
        inverse[d]@
    } else {
        Seq::empty()
    }
}

/// The scheduling state of one dependency graph: answers which node can run
/// now and, when told that a node has finished, which nodes can run next.
///
/// Its view is the [`Schedule`] that it implements.
#[verifier::reject_recursive_types(T)]
pub struct TopologicalBatchProvider<T> {
    /// The nodes that have not been completed.
    unavailable: HashSet<T>,
    /// For each node, the number of its dependency edges that lead to a node
    /// that has not been completed.
    remaining: HashMap<T, usize>,
    /// The ready nodes that have not been claimed.
    available: HashSet<T>,
    /// For each node that has not been completed, the nodes that depend on
    /// it, one entry per dependency edge.
    inverse_dependency: HashMap<T, Vec<T>>,
    /// The dependency graph that the resolver was built from.
    graph: Ghost<Map<T, Seq<T>>>,
}

impl<T> View for TopologicalBatchProvider<T> {
    type V = Schedule<T>;

    closed spec fn view(&self) -> Schedule<T> {
        Schedule {
            graph: self.graph@,
            unresolved: self.unavailable@,
            available: self.available@,
        }
    }
}

impl<T: Hash + PartialEq + Eq + Clone> TopologicalBatchProvider<T> {
    /// The resolver is in a state that the transitions can reach, and its
    /// bookkeeping describes that state.
    pub open spec fn wf(&self) -> bool {
        &&& obeys_id_model::<T>()
        &&& self@.inv()
        &&& self.counts_agree()
    }

    /// The counters and the reverse index agree with the graph and with the
    /// set of nodes that have not been completed.
    pub closed spec fn counts_agree(&self) -> bool {
        &&& self.remaining@.dom() == self.graph@.dom()
        &&& forall|n: T| #[trigger]
            self.remaining@.contains_key(n) ==> self.remaining@[n] == self@.outstanding(n)
        &&& forall|d: T, m: T|
            self.unavailable@.contains(d) ==> #[trigger] occurrences(
                dependents_in(self.inverse_dependency@, d),
                m,
            ) == if self.graph@.contains_key(m) {
                occurrences(self.graph@[m], d)
            } else {
                0
            }
    }

    /// Builds the resolver of a dependency graph, given as a map from each
    /// node to the nodes it depends on. Every node must be a key of the map,
    /// also a node without dependencies.
    ///
    /// Fails exactly when the graph contains a cycle. Otherwise the resolver
    /// starts in the initial state of the graph: nothing is completed, and
    /// the nodes without dependencies are available.
    pub fn new(nodes: HashMap<T, Vec<T>>) -> (built: Result<Self, Error>)
        requires
            obeys_id_model::<T>(),
            is_closed(graph_of(nodes@)),
        ensures
            match built {
                Ok(provider) => {
                    &&& !is_cyclic(graph_of(nodes@))
                    &&& provider.wf()
                    &&& provider@ == Schedule::initial(graph_of(nodes@))
                },
                Err(error) => is_cyclic(graph_of(nodes@)) && error == Error::CycleDetected,
            },
    {
        if Self::has_cycle(&nodes) {
            return Err(Error::CycleDetected);
        }
        let ghost g = graph_of(nodes@);
        let mut inverse_dependency: HashMap<T, Vec<T>> = HashMap::new();
        let mut remaining: HashMap<T, usize> = HashMap::new();
        let mut unavailable: HashSet<T> = HashSet::new();
        let mut available: HashSet<T> = HashSet::new();

        for (dependee, dependencies) in it: nodes.iter()
            invariant
                obeys_id_model::<T>(),
                g == graph_of(nodes@),
                it.seq().no_duplicates(),
                forall|x: T|
                    unavailable@.contains(x) <==> exists|k: int|
                        0 <= k < it.index() && x == *(#[trigger] it.seq()[k]).0,
                remaining@.dom() == unavailable@,
                forall|x: T| #[trigger]
                    unavailable@.contains(x) ==> g.contains_key(x) && remaining@[x] == g[x].len(),
                forall|x: T|
                    available@.contains(x) <==> unavailable@.contains(x) && g[x].len() == 0,
                forall|d: T, m: T| #[trigger]
                    occurrences(dependents_in(inverse_dependency@, d), m)
                        == if unavailable@.contains(m) {
                        occurrences(g[m], d)
                    } else {
                        0
                    },
        {
            proof {
                if unavailable@.contains(*dependee) {
                    let k = choose|k: int|
                        0 <= k < it.index() && *dependee == *(#[trigger] it.seq()[k]).0;
                    assert(it.seq()[k] == it.seq()[it.index()]);
                }
            }
            unavailable.insert(copy_of(dependee));
            remaining.insert(copy_of(dependee), dependencies.len());
            if dependencies.len() == 0 {
                available.insert(copy_of(dependee));
            }
            Self::record_dependents(&mut inverse_dependency, dependee, dependencies);
        }

        let provider = Self {
            unavailable,
            remaining,
            available,
            inverse_dependency,
            graph: Ghost(g),
        };
        proof {
            assert(g.dom() =~= nodes@.dom());
            assert(unavailable@ =~= g.dom());
            assert(provider@ =~= Schedule::initial(g));
            lemma_initial_inv(g);
            assert forall|n: T| #[trigger]
                provider.remaining@.contains_key(n) implies provider.remaining@[n]
                == provider@.outstanding(n) by {
                assert forall|x: T| #[trigger] g[n].contains(x) implies g.dom().contains(x) by {
                    assert(depends_on(g, n, x));
                }
                lemma_count_in_all(g[n], g.dom());
            }
        }
        Ok(provider)
    }

    /// Records in `inverse` that `dependee` depends on each entry of
    /// `dependencies`.
    fn record_dependents(inverse: &mut HashMap<T, Vec<T>>, dependee: &T, dependencies: &Vec<T>)
        requires
            obeys_id_model::<T>(),
        ensures
            forall|d: T, m: T| #[trigger]
                occurrences(dependents_in(final(inverse)@, d), m) == occurrences(
                    dependents_in(old(inverse)@, d),
                    m,
                ) + if m == *dependee {
                    occurrences(dependencies@, d)
                } else {
                    0
                },
    {
        for j in 0..dependencies.len()
            invariant
                obeys_id_model::<T>(),
                forall|d: T, m: T| #[trigger]
                    occurrences(dependents_in(inverse@, d), m) == occurrences(
                        dependents_in(old(inverse)@, d),
                        m,
                    ) + if m == *dependee {
                        occurrences(dependencies@.take(j as int), d)
                    } else {
                        0
                    },
        {
            let dependency = &dependencies[j];
            let ghost before = inverse@;
            let mut list = match inverse.remove(dependency) {
                Some(list) => list,
                None => Vec::new(),
            };
            list.push(copy_of(dependee));
            inverse.insert(copy_of(dependency), list);
            proof {
                assert forall|d: T, m: T|
                    #[trigger] occurrences(dependents_in(inverse@, d), m) == occurrences(
                        dependents_in(old(inverse)@, d),
                        m,
                    ) + if m == *dependee {
                        occurrences(dependencies@.take(j + 1), d)
                    } else {
                        0
                    } by {
                    lemma_count_in_prefix(dependencies@, j as int, Set::empty().insert(d));
                    assert(occurrences(dependents_in(before, d), m) == occurrences(
                        dependents_in(old(inverse)@, d),
                        m,
                    ) + if m == *dependee {
                        occurrences(dependencies@.take(j as int), d)
                    } else {
                        0
                    });
                    if d == *dependency {
                        assert(dependents_in(inverse@, d) == dependents_in(before, d).push(
                            *dependee,
                        ));
                        lemma_count_in_push(
                            dependents_in(before, d),
                            *dependee,
                            Set::empty().insert(m),
                        );
                    } else {
                        assert(dependents_in(inverse@, d) == dependents_in(before, d));
                    }
                }
            }
        }
        proof {
            assert(dependencies@.take(dependencies.len() as int) =~= dependencies@);
        }
    }

    /// Whether every dependency that the map names is itself a key of the
    /// map, which is what [`TopologicalBatchProvider::new`] asks of its
    /// argument.
    pub fn is_closed(nodes: &HashMap<T, Vec<T>>) -> (closed: bool)
        requires
            obeys_id_model::<T>(),
        ensures
            closed == is_closed(graph_of(nodes@)),
    {
        let ghost g = graph_of(nodes@);
        for (n, dependencies) in it: nodes.iter()
            invariant
                obeys_id_model::<T>(),
                g == graph_of(nodes@),
                forall|k: int, d: T|
                    0 <= k < it.index() && depends_on(g, *(#[trigger] it.seq()[k]).0, d)
                        ==> #[trigger] g.contains_key(d),
        {
            assert(g[*n] == dependencies@);
            for j in 0..dependencies.len()
                invariant
                    obeys_id_model::<T>(),
                    g == graph_of(nodes@),
                    g.contains_key(*n),
                    g[*n] == dependencies@,
                    forall|i: int| 0 <= i < j ==> g.contains_key(#[trigger] dependencies@[i]),
            {
                if !nodes.contains_key(&dependencies[j]) {
                    assert(depends_on(g, *n, dependencies@[j as int]));
                    return false;
                }
            }
        }
        proof {
            assert forall|a: T, b: T| #[trigger] depends_on(g, a, b) implies g.contains_key(b) by {
                assert(nodes@.contains_key(a));
            }
        }
        true
    }

    /// Whether the dependency graph contains a cycle.
    ///
    /// Each node in turn is taken as a root, and its dependencies are
    /// explored depth first until the root itself turns up or nothing new
    /// is left to explore.
    pub fn has_cycle(nodes: &HashMap<T, Vec<T>>) -> (found: bool)
        requires
            obeys_id_model::<T>(),
            is_closed(graph_of(nodes@)),
        ensures
            found == is_cyclic(graph_of(nodes@)),
    {
        let ghost g = graph_of(nodes@);
        for (n, dependencies) in it: nodes.iter()
            invariant
                obeys_id_model::<T>(),
                g == graph_of(nodes@),
                is_closed(g),
                forall|k: int|
                    0 <= k < it.index() ==> !reaches(
                        g,
                        *(#[trigger] it.seq()[k]).0,
                        *it.seq()[k].0,
                    ),
        {
            if Self::depends_on_itself(nodes, n, dependencies) {
                return true;
            }
        }
        proof {
            assert forall|n: T| !reaches(g, n, n) by {
                if reaches(g, n, n) {
                    lemma_reaches_between_nodes(g, n, n);
                    assert(nodes@.contains_key(n));
                }
            }
        }
        false
    }

    /// Whether node `n`, whose dependencies are `dependencies`, is a direct or
    /// indirect dependency of itself.
    fn depends_on_itself(
        nodes: &HashMap<T, Vec<T>>,
        n: &T,
        dependencies: &Vec<T>,
    ) -> (found: bool)
        requires
            obeys_id_model::<T>(),
            is_closed(graph_of(nodes@)),
            nodes@.contains_key(*n),
            nodes@[*n] == *dependencies,
        ensures
            found == reaches(graph_of(nodes@), *n, *n),
    {
        let ghost g = graph_of(nodes@);
        let mut stack: Vec<T> = Vec::new();
        Self::push_all(&mut stack, dependencies);
        let mut visited: HashSet<T> = HashSet::new();
        proof {
            assert(g.dom() =~= nodes@.dom());
            assert forall|i: int| 0 <= i < stack.len() implies reaches(
                g,
                *n,
                #[trigger] stack@[i],
            ) by {
                assert(dependencies@[i] == stack@[i]);
                lemma_edge_reaches(g, *n, stack@[i]);
            }
        }
        while stack.len() > 0
            invariant
                obeys_id_model::<T>(),
                g == graph_of(nodes@),
                is_closed(g),
                g.dom().finite(),
                forall|i: int| 0 <= i < stack.len() ==> reaches(g, *n, #[trigger] stack@[i]),
                forall|x: T| visited@.contains(x) ==> reaches(g, *n, x) && x != *n,
                forall|d: T| depends_on(g, *n, d) ==> visited@.contains(d) || stack@.contains(d),
                forall|v: T, d: T|
                    visited@.contains(v) && depends_on(g, v, d) ==> visited@.contains(d)
                        || stack@.contains(d),
            decreases g.dom().len() - visited@.len(), stack.len(),
        {
            let ghost before = stack@;
            let m = stack.pop().unwrap();
            proof {
                assert forall|d: T| #[trigger] before.contains(d) implies stack@.contains(d)
                    || d == m by {
                    let i = choose|i: int| 0 <= i < before.len() && before[i] == d;
                    if i < stack.len() {
                        assert(stack@[i] == d);
                    }
                }
                assert(reaches(g, *n, before[before.len() - 1]));
                lemma_reaches_between_nodes(g, *n, m);
                assert(visited@.subset_of(g.dom())) by {
                    assert forall|x: T| visited@.contains(x) implies g.dom().contains(x) by {
                        lemma_reaches_between_nodes(g, *n, x);
                    }
                }
                vstd::set_lib::lemma_len_subset(visited@, g.dom());
            }
            if !visited.contains(&m) {
                if same_id(&m, n) {
                    return true;
                }
                let deps = nodes.get(&m).unwrap();
                let ghost popped = stack@;
                Self::push_all(&mut stack, deps);
                proof {
                    assert forall|i: int| 0 <= i < stack.len() implies reaches(
                        g,
                        *n,
                        #[trigger] stack@[i],
                    ) by {
                        if i < popped.len() {
                            assert(stack@[i] == popped[i]);
                        } else {
                            assert(stack@[i] == deps@[i - popped.len()]);
                            assert(depends_on(g, m, stack@[i]));
                            lemma_reaches_then_edge(g, *n, m, stack@[i]);
                        }
                    }
                    assert forall|d: T| #[trigger] popped.contains(d) implies stack@.contains(
                        d,
                    ) by {
                        let i = choose|i: int| 0 <= i < popped.len() && popped[i] == d;
                        assert(stack@[i] == d);
                    }
                    assert forall|d: T| #[trigger] deps@.contains(d) implies stack@.contains(d) by {
                        let i = choose|i: int| 0 <= i < deps@.len() && deps@[i] == d;
                        assert(stack@[popped.len() + i] == d);
                    }
                    assert(g[m] == deps@);
                    let grown = visited@.insert(m);
                    assert forall|v: T, d: T|
                        grown.contains(v) && depends_on(g, v, d) implies grown.contains(d)
                        || stack@.contains(d) by {
                        if v == m {
                            assert(deps@.contains(d));
                        } else {
                            assert(visited@.contains(d) || before.contains(d));
                        }
                    }
                    assert(g.dom().insert(m) =~= g.dom());
                    vstd::set_lib::lemma_len_subset(grown, g.dom());
                }
                visited.insert(m);
            }
        }
        proof {
            assert forall|d: T| !stack@.contains(d) by {}
            lemma_reachable_within(g, *n, visited@);
        }
        false
    }

    /// Appends a copy of every identifier in `ids` to `stack`.
    fn push_all(stack: &mut Vec<T>, ids: &Vec<T>)
        requires
            obeys_id_model::<T>(),
        ensures
            final(stack)@ == old(stack)@ + ids@,
    {
        for j in 0..ids.len()
            invariant
                obeys_id_model::<T>(),
                stack@ == old(stack)@ + ids@.take(j as int),
        {
            stack.push(copy_of(&ids[j]));
            assert(ids@.take(j + 1) =~= ids@.take(j as int).push(ids@[j as int]));
        }
        assert(ids@.take(ids.len() as int) =~= ids@);
    }
    /// Whether the resolver is drained: nothing is left to claim and nothing
    /// is left to complete, which is the case exactly when every node of the
    /// graph has been completed.
    pub fn is_empty(&self) -> (drained: bool)
        ensures
            drained == self@.is_drained(),
            self.wf() ==> (drained <==> forall|n: T| #[trigger]
                self@.graph.contains_key(n) ==> self@.is_completed(n)),
    {
        proof {
            if self.wf() {
                lemma_drained_means_all_completed(self@);
            }
        }
        self.available.is_empty() && self.unavailable.is_empty()
    }

    /// Records that node `node`, which is in flight, has finished: it is
    /// completed, and every node that waited only for it becomes available.
    pub fn complete(&mut self, node: T)
        requires
            old(self).wf(),
            old(self)@.is_in_flight(node),
        ensures
            final(self).wf(),
            final(self)@ == old(self)@.complete(node),
            final(self)@.is_completed(node),
    {
        let ghost s = self@;
        let ghost g = s.graph;
        let dependents = match self.inverse_dependency.remove(&node) {
            Some(list) => list,
            None => Vec::new(),
        };
        proof {
            assert(dependents@ == dependents_in(old(self).inverse_dependency@, node));
            assert forall|m: T| g.contains_key(m) implies #[trigger] occurrences(dependents@, m)
                <= s.outstanding(m) by {
                lemma_count_in_remove(g[m], s.unresolved, node);
            }
        }
        for i in 0..dependents.len()
            invariant
                obeys_id_model::<T>(),
                s == old(self)@,
                g == s.graph,
                self.graph@ == g,
                self.unavailable@ == s.unresolved,
                self.inverse_dependency@ == old(self).inverse_dependency@.remove(node),
                self.remaining@.dom() == g.dom(),
                forall|m: T| #[trigger]
                    g.contains_key(m) ==> self.remaining@[m] + occurrences(
                        dependents@.take(i as int),
                        m,
                    ) == s.outstanding(m),
                forall|m: T| #[trigger]
                    self.available@.contains(m) <==> s.available.contains(m) || (g.contains_key(m)
                        && occurrences(dependents@.take(i as int), m) > 0 && self.remaining@[m]
                        == 0),
                forall|m: T| g.contains_key(m) ==> #[trigger] occurrences(dependents@, m)
                    <= s.outstanding(m),
                forall|m: T| !g.contains_key(m) ==> #[trigger] occurrences(dependents@, m) == 0,
        {
            let dependent = &dependents[i];
            let ghost counts = self.remaining@;
            let ghost ready = self.available@;
            proof {
                lemma_count_in_prefix(dependents@, i as int, Set::empty().insert(*dependent));
                lemma_count_in_prefix(dependents@, i + 1, Set::empty().insert(*dependent));
                assert(occurrences(dependents@, *dependent) > 0);
                assert(g.contains_key(*dependent));
            }
            let count = *self.remaining.get(dependent).unwrap();
            let left = count - 1;
            self.remaining.insert(copy_of(dependent), left);
            if left == 0 {
                self.available.insert(copy_of(dependent));
            }
            proof {
                assert forall|m: T| #[trigger] g.contains_key(m) implies self.remaining@[m]
                    + occurrences(dependents@.take(i + 1), m) == s.outstanding(m) by {
                    lemma_count_in_prefix(dependents@, i as int, Set::empty().insert(m));
                }
                assert forall|m: T| #[trigger]
                    self.available@.contains(m) <==> s.available.contains(m) || (g.contains_key(m)
                        && occurrences(dependents@.take(i + 1), m) > 0 && self.remaining@[m]
                        == 0) by {
                    lemma_count_in_prefix(dependents@, i as int, Set::empty().insert(m));
                    assert(ready.contains(m) <==> s.available.contains(m) || (g.contains_key(m)
                        && occurrences(dependents@.take(i as int), m) > 0 && counts[m] == 0));
                    if m == *dependent {
                        assert(counts[m] == count);
                        assert(self.remaining@[m] == left);
                    } else {
                        assert(self.available@.contains(m) == ready.contains(m));
                    }
                }
            }
        }
        self.unavailable.remove(&node);
        proof {
            let t = s.complete(node);
            assert(dependents@.take(dependents.len() as int) =~= dependents@);
            lemma_complete_inv(s, node);
            assert forall|m: T| #[trigger] g.contains_key(m) implies self.remaining@[m]
                == t.outstanding(m) by {
                lemma_count_in_remove(g[m], s.unresolved, node);
            }
            assert forall|m: T| #[trigger]
                self.available@.contains(m) <==> t.available.contains(m) by {
                lemma_occurrences_positive(dependents@, m);
                assert(occurrences(dependents@, m) == if g.contains_key(m) {
                    occurrences(g[m], node)
                } else {
                    0
                });
                if g.contains_key(m) {
                    lemma_occurrences_positive(g[m], node);
                    lemma_outstanding_zero(t, m);
                }
            }
            assert(self.available@ =~= t.available);
            assert(self@ =~= t);
            assert forall|d: T, m: T| self.unavailable@.contains(d) implies #[trigger] occurrences(
                dependents_in(self.inverse_dependency@, d),
                m,
            ) == if self.graph@.contains_key(m) {
                occurrences(self.graph@[m], d)
            } else {
                0
            } by {
                assert(dependents_in(self.inverse_dependency@, d) == dependents_in(
                    old(self).inverse_dependency@,
                    d,
                ));
                assert(occurrences(dependents_in(old(self).inverse_dependency@, d), m)
                    == if g.contains_key(m) {
                    occurrences(g[m], d)
                } else {
                    0
                });
            }
        }
    }

    /// Claims a node that is ready to run, if there is one: the node leaves
    /// the available ones and is in flight until it is completed.
    ///
    /// Which of several available nodes is claimed is not determined.
    /// `None` means that nothing is ready right now; that can change when a
    /// node in flight is completed.
    pub fn pop(&mut self) -> (claimed: Option<T>)
        requires
            old(self).wf(),
        ensures
            final(self).wf(),
            match claimed {
                Some(n) => {
                    &&& old(self)@.available.contains(n)
                    &&& final(self)@ == old(self)@.claim(n)
                    &&& final(self)@.is_in_flight(n)
                    &&& final(self)@.outstanding(n) == 0
                },
                None => old(self)@.available.is_empty() && final(self)@ == old(self)@,
            },
    {
        match Self::any_member(&self.available) {
            Some(n) => {
                self.available.remove(&n);
                proof {
                    assert(self@ =~= old(self)@.claim(n));
                    lemma_claim_inv(old(self)@, n);
                    lemma_outstanding_zero(self@, n);
                }
                Some(n)
            },
            None => None,
        }
    }

    /// Some member of `set`, if it has one.
    fn any_member(set: &HashSet<T>) -> (picked: Option<T>)
        requires
            obeys_id_model::<T>(),
        ensures
            match picked {
                Some(x) => set@.contains(x),
                None => set@.is_empty(),
            },
    {
        for member in it: set.iter()
            invariant
                obeys_id_model::<T>(),
                it.index() == 0,
        {
            assert(it.seq().unref().to_set().contains(*member));
            return Some(copy_of(member));
        }
        None
    }

    /// Whether node `node` has been claimed and not yet completed.
    pub fn is_in_flight(&self, node: &T) -> (in_flight: bool)
        requires
            self.wf(),
        ensures
            in_flight == self@.is_in_flight(*node),
    {
        proof {
            if self.graph@.contains_key(*node) {
                lemma_outstanding_zero(self@, *node);
            }
        }
        if self.unavailable.contains(node) && !self.available.contains(node) {
            match self.remaining.get(node) {
                Some(count) => *count == 0,
                None => false,
            }
        } else {
            false
        }
    }
}

} // verus!
