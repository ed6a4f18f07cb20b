//! The mathematical model of a graph: a map from each source node to the set
//! of its neighbours.

use vstd::prelude::*;

verus! {

/// `v` is recorded as a neighbour of `u`.
pub open spec fn has_edge<T>(adj: Map<T, Set<T>>, u: T, v: T) -> bool {
    adj.contains_key(u) && adj[u].contains(v)
}

/// The neighbours recorded for `u`; none when `u` has no entry.
pub open spec fn neighbors_of<T>(adj: Map<T, Set<T>>, u: T) -> Set<T> {
    if adj.contains_key(u) {
        adj[u]
    } else {
        Set::empty()
    }
}

/// The relation with `v` added to the neighbours of `u`.
pub open spec fn with_arc<T>(adj: Map<T, Set<T>>, u: T, v: T) -> Map<T, Set<T>> {
    adj.insert(u, neighbors_of(adj, u).insert(v))
}

/// The relation after the edge `(u, v)` is inserted: one arc in a directed
/// graph, the arc and its reverse in an undirected one.
pub open spec fn with_edge<T>(
    adj: Map<T, Set<T>>,
    directed: bool,
    u: T,
    v: T,
) -> Map<T, Set<T>> {
    if directed {
        with_arc(adj, u, v)
    } else {
        with_arc(with_arc(adj, u, v), v, u)
    }
}

/// Every arc has its reverse.
pub open spec fn symmetric<T>(adj: Map<T, Set<T>>) -> bool {
    forall|u: T, v: T| #[trigger] has_edge(adj, u, v) ==> has_edge(adj, v, u)
}

/// What inserting the edge `(u, v)` records: `v` becomes a neighbour of `u`;
/// in an undirected graph `u` becomes a neighbour of `v` as well; in a
/// directed one `v` gets no entry of its own by this.
pub proof fn lemma_with_edge_records<T>(adj: Map<T, Set<T>>, directed: bool, u: T, v: T)
    ensures
        has_edge(with_edge(adj, directed, u, v), u, v),
        !directed ==> has_edge(with_edge(adj, directed, u, v), v, u),
        directed && u != v ==> (with_edge(adj, directed, u, v).contains_key(v)
            <==> adj.contains_key(v)),
{
}

/// Inserting an edge takes nothing away: every entry and every arc stays.
pub proof fn lemma_with_edge_keeps<T>(adj: Map<T, Set<T>>, directed: bool, u: T, v: T)
    ensures
        forall|a: T|
            adj.contains_key(a) ==> #[trigger] with_edge(adj, directed, u, v).contains_key(a),
        forall|a: T, b: T|
            has_edge(adj, a, b) ==> #[trigger] has_edge(with_edge(adj, directed, u, v), a, b),
{
}

/// Inserting an edge adds only that edge: any other arc of the result was
/// there before.
pub proof fn lemma_with_edge_adds_only<T>(
    adj: Map<T, Set<T>>,
    directed: bool,
    u: T,
    v: T,
    a: T,
    b: T,
)
    requires
        has_edge(with_edge(adj, directed, u, v), a, b),
    ensures
        has_edge(adj, a, b) || (a == u && b == v) || (!directed && a == v && b == u),
{
}

/// Inserting the same edge again changes nothing.
pub proof fn lemma_with_edge_idempotent<T>(adj: Map<T, Set<T>>, directed: bool, u: T, v: T)
    ensures
        with_edge(with_edge(adj, directed, u, v), directed, u, v) == with_edge(adj, directed, u, v),
{
    let once = with_edge(adj, directed, u, v);
    assert(neighbors_of(once, u).insert(v) =~= neighbors_of(once, u));
    if !directed {
        assert(neighbors_of(with_arc(once, u, v), v).insert(u) =~= neighbors_of(once, v));
    }
}

/// Inserting an undirected edge into a symmetric relation leaves it symmetric.
pub proof fn lemma_with_edge_keeps_symmetry<T>(adj: Map<T, Set<T>>, u: T, v: T)
    requires
        symmetric(adj),
    ensures
        symmetric(with_edge(adj, false, u, v)),
{
    let after = with_edge(adj, false, u, v);
    assert forall|a: T, b: T| #[trigger] has_edge(after, a, b) implies has_edge(after, b, a) by {
        if has_edge(adj, a, b) {
            assert(has_edge(adj, b, a));
        }
    }
}

} // verus!
