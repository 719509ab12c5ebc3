//! The dependency graph as a mathematical object: a map from each node to
//! the sequence of nodes it depends on, with chains, reachability and cycles.

use vstd::prelude::*;

verus! {

/// Node `a` names node `b` among its dependencies.
pub open spec fn depends_on<T>(g: Map<T, Seq<T>>, a: T, b: T) -> bool {
    g.contains_key(a) && g[a].contains(b)
}

/// Every dependency that the graph names is itself a node of the graph.
pub open spec fn is_closed<T>(g: Map<T, Seq<T>>) -> bool {
    forall|a: T, b: T| #[trigger] depends_on(g, a, b) ==> g.contains_key(b)
}

/// The element at position `i` of `p` depends on the element that follows it.
pub open spec fn link_at<T>(g: Map<T, Seq<T>>, p: Seq<T>, i: int) -> bool {
    depends_on(g, p[i], p[i + 1])
}

/// `p` is a chain of at least one dependency edge: each of its elements
/// depends on the next.
pub open spec fn is_chain<T>(g: Map<T, Seq<T>>, p: Seq<T>) -> bool {
    &&& p.len() >= 2
    &&& forall|i: int| 0 <= i < p.len() - 1 ==> #[trigger] link_at(g, p, i)
}

/// `p` is a chain that leads from node `a` to node `b`.
pub open spec fn leads<T>(g: Map<T, Seq<T>>, p: Seq<T>, a: T, b: T) -> bool {
    is_chain(g, p) && p.first() == a && p.last() == b
}

/// Node `b` is a direct or indirect dependency of node `a`.
pub open spec fn reaches<T>(g: Map<T, Seq<T>>, a: T, b: T) -> bool {
    exists|p: Seq<T>| leads(g, p, a, b)
}

/// Some node is a direct or indirect dependency of itself.
pub open spec fn is_cyclic<T>(g: Map<T, Seq<T>>) -> bool {
    exists|n: T| #[trigger] reaches(g, n, n)
}

/// A direct dependency is reachable.
pub proof fn lemma_edge_reaches<T>(g: Map<T, Seq<T>>, a: T, b: T)
    requires
        depends_on(g, a, b),
    ensures
        reaches(g, a, b),
{
    let p = seq![a, b];
    assert(link_at(g, p, 0));
    assert(leads(g, p, a, b));
}

/// Reachability extends along one more dependency edge.
pub proof fn lemma_reaches_then_edge<T>(g: Map<T, Seq<T>>, a: T, b: T, c: T)
    requires
        reaches(g, a, b),
        depends_on(g, b, c),
    ensures
        reaches(g, a, c),
{
    let p = choose|p: Seq<T>| leads(g, p, a, b);
    let q = p.push(c);
    assert forall|i: int| 0 <= i < q.len() - 1 implies #[trigger] link_at(g, q, i) by {
        if i < p.len() - 1 {
            assert(link_at(g, p, i));
        }
    }
    assert(leads(g, q, a, c));
}

/// A node that reaches anything is a node of the graph, and in a closed
/// graph so is whatever it reaches.
pub proof fn lemma_reaches_between_nodes<T>(g: Map<T, Seq<T>>, a: T, b: T)
    requires
        reaches(g, a, b),
    ensures
        g.contains_key(a),
        is_closed(g) ==> g.contains_key(b),
{
    let p = choose|p: Seq<T>| leads(g, p, a, b);
    assert(link_at(g, p, 0));
    assert(link_at(g, p, p.len() - 2));
}

/// Every element of a chain after the first lies in a set that holds the
/// dependencies of the chain's first element and is closed under taking
/// dependencies.
proof fn lemma_chain_stays_within<T>(g: Map<T, Seq<T>>, p: Seq<T>, s: Set<T>, i: int)
    requires
        is_chain(g, p),
        1 <= i < p.len(),
        forall|d: T| depends_on(g, p[0], d) ==> s.contains(d),
        forall|v: T, d: T| s.contains(v) && depends_on(g, v, d) ==> s.contains(d),
    ensures
        s.contains(p[i]),
    decreases i,
{
    assert(link_at(g, p, i - 1));
    if i > 1 {
        lemma_chain_stays_within(g, p, s, i - 1);
    }
}

/// A set that holds the direct dependencies of `a` and is closed under
/// taking dependencies holds everything that `a` reaches.
pub proof fn lemma_reachable_within<T>(g: Map<T, Seq<T>>, a: T, s: Set<T>)
    requires
        forall|d: T| depends_on(g, a, d) ==> s.contains(d),
        forall|v: T, d: T| s.contains(v) && depends_on(g, v, d) ==> s.contains(d),
    ensures
        forall|b: T| reaches(g, a, b) ==> s.contains(b),
{
    assert forall|b: T| reaches(g, a, b) implies s.contains(b) by {
        let p = choose|p: Seq<T>| leads(g, p, a, b);
        lemma_chain_stays_within(g, p, s, p.len() - 1);
    }
}

} // verus!
