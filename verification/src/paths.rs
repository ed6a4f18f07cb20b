//! What a path is, what it means for a list to enumerate paths, and what
//! follows for the lists that the two searches return.

use crate::relation::has_edge;
use vstd::prelude::*;

verus! {

/// Each node of `p` but the last has the next one as a neighbour.
pub open spec fn is_walk<T>(adj: Map<T, Set<T>>, p: Seq<T>) -> bool {
    forall|i: int| 0 <= i < p.len() - 1 ==> has_edge(adj, #[trigger] p[i], p[i + 1])
}

/// `p` is a simple path from `start` to `end`: a walk that begins at `start`,
/// stops at `end` and visits no node twice. Both endpoints are part of it, so
/// the shortest one, from a node to itself, has one node.
pub open spec fn is_simple_path<T>(adj: Map<T, Set<T>>, start: T, end: T, p: Seq<T>) -> bool {
    &&& p.len() > 0
    &&& p.first() == start
    &&& p.last() == end
    &&& p.no_duplicates()
    &&& is_walk(adj, p)
}

/// `p` passes a limit of `max_steps` nodes. The limit is only tested before a
/// path is extended, so a path of a single node always passes.
pub open spec fn within_steps<T>(p: Seq<T>, max_steps: nat) -> bool {
    p.len() <= max_steps || p.len() == 1
}

/// The contents of a list of paths.
pub open spec fn path_seqs<T>(paths: Seq<Vec<T>>) -> Seq<Seq<T>> {
    paths.map_values(|p: Vec<T>| p@)
}

/// `out` holds every simple path from `start` to `end`, each exactly once,
/// and nothing else.
pub open spec fn lists_all_paths<T>(
    adj: Map<T, Set<T>>,
    start: T,
    end: T,
    out: Seq<Seq<T>>,
) -> bool {
    &&& out.no_duplicates()
    &&& forall|p: Seq<T>| #[trigger] out.contains(p) <==> is_simple_path(adj, start, end, p)
}

/// `out` holds every simple path from `start` to `end` that passes the limit
/// of `max_steps` nodes, each exactly once, and nothing else.
pub open spec fn lists_paths_within<T>(
    adj: Map<T, Set<T>>,
    start: T,
    end: T,
    max_steps: nat,
    out: Seq<Seq<T>>,
) -> bool {
    &&& out.no_duplicates()
    &&& forall|p: Seq<T>| #[trigger]
        out.contains(p) <==> is_simple_path(adj, start, end, p) && within_steps(p, max_steps)
}

/// From a node to itself there is one simple path, the node alone.
pub proof fn lemma_only_path_to_self<T>(adj: Map<T, Set<T>>, node: T, p: Seq<T>)
    ensures
        is_simple_path(adj, node, node, p) <==> p == seq![node],
{
    if is_simple_path(adj, node, node, p) {
        assert(p =~= seq![node]);
    }
}

/// From a node without an entry no path leads to another node.
pub proof fn lemma_no_path_without_entry<T>(adj: Map<T, Set<T>>, start: T, end: T, p: Seq<T>)
    requires
        start != end,
        !adj.contains_key(start),
    ensures
        !is_simple_path(adj, start, end, p),
{
}

/// A list that holds nothing is empty.
pub proof fn lemma_empty_list<A>(out: Seq<A>)
    requires
        forall|a: A| !out.contains(a),
    ensures
        out.len() == 0,
{
    if out.len() > 0 {
        assert(out.contains(out[0]));
    }
}

/// A list that holds one value, once, and nothing else.
pub proof fn lemma_singleton_list<A>(out: Seq<A>, only: A)
    requires
        out.no_duplicates(),
        forall|a: A| #[trigger] out.contains(a) <==> a == only,
    ensures
        out == seq![only],
{
    assert(out.contains(only));
    if out.len() > 1 {
        assert(out.contains(out[0]));
        assert(out.contains(out[1]));
    }
}

/// Whatever the graph, the paths from a node to itself are listed as the
/// single path that holds the node alone.
pub proof fn lemma_paths_to_self<T>(adj: Map<T, Set<T>>, node: T, out: Seq<Seq<T>>)
    requires
        lists_all_paths(adj, node, node, out),
    ensures
        out == seq![seq![node]],
{
    assert forall|p: Seq<T>| #[trigger] out.contains(p) <==> p == seq![node] by {
        lemma_only_path_to_self(adj, node, p);
    }
    lemma_singleton_list(out, seq![node]);
}

/// The same under any limit, zero included: a path of one node is never
/// extended, so the limit is never tested.
pub proof fn lemma_paths_to_self_within<T>(
    adj: Map<T, Set<T>>,
    node: T,
    max_steps: nat,
    out: Seq<Seq<T>>,
)
    requires
        lists_paths_within(adj, node, node, max_steps, out),
    ensures
        out == seq![seq![node]],
{
    assert forall|p: Seq<T>| #[trigger] out.contains(p) <==> p == seq![node] by {
        lemma_only_path_to_self(adj, node, p);
    }
    lemma_singleton_list(out, seq![node]);
}

/// Every listed path visits no node twice, begins at `start`, stops at `end`
/// and follows the edges of the graph.
pub proof fn lemma_listed_paths_are_simple<T>(
    adj: Map<T, Set<T>>,
    start: T,
    end: T,
    out: Seq<Seq<T>>,
    i: int,
)
    requires
        lists_all_paths(adj, start, end, out),
        0 <= i < out.len(),
    ensures
        out[i].no_duplicates(),
        out[i].len() > 0,
        out[i].first() == start,
        out[i].last() == end,
        is_walk(adj, out[i]),
{
    assert(out.contains(out[i]));
}

/// The same for a search under a limit.
pub proof fn lemma_listed_paths_within_are_simple<T>(
    adj: Map<T, Set<T>>,
    start: T,
    end: T,
    max_steps: nat,
    out: Seq<Seq<T>>,
    i: int,
)
    requires
        lists_paths_within(adj, start, end, max_steps, out),
        0 <= i < out.len(),
    ensures
        out[i].no_duplicates(),
        out[i].len() > 0,
        out[i].first() == start,
        out[i].last() == end,
        is_walk(adj, out[i]),
        within_steps(out[i], max_steps),
{
    assert(out.contains(out[i]));
}

/// The search under a limit finds the paths of the unlimited search that
/// hold at most `max_steps` nodes, and no others. One case is left out: a
/// limit of zero with `start == end`, where the path of one node is found
/// although it is longer than the limit.
pub proof fn lemma_limit_filters_by_length<T>(
    adj: Map<T, Set<T>>,
    start: T,
    end: T,
    max_steps: nat,
    all: Seq<Seq<T>>,
    bounded: Seq<Seq<T>>,
)
    requires
        lists_all_paths(adj, start, end, all),
        lists_paths_within(adj, start, end, max_steps, bounded),
        max_steps >= 1 || start != end,
    ensures
        forall|p: Seq<T>| #[trigger]
            bounded.contains(p) <==> all.contains(p) && p.len() <= max_steps,
{
}

/// With no case left out: the search under a limit finds the paths of the
/// unlimited search that pass the limit, and no others.
pub proof fn lemma_limit_filters<T>(
    adj: Map<T, Set<T>>,
    start: T,
    end: T,
    max_steps: nat,
    all: Seq<Seq<T>>,
    bounded: Seq<Seq<T>>,
)
    requires
        lists_all_paths(adj, start, end, all),
        lists_paths_within(adj, start, end, max_steps, bounded),
    ensures
        forall|p: Seq<T>| #[trigger]
            bounded.contains(p) <==> all.contains(p) && within_steps(p, max_steps),
{
}

/// Raising the limit loses no path.
pub proof fn lemma_limit_is_monotonic<T>(
    adj: Map<T, Set<T>>,
    start: T,
    end: T,
    fewer_steps: nat,
    more_steps: nat,
    fewer: Seq<Seq<T>>,
    more: Seq<Seq<T>>,
)
    requires
        fewer_steps < more_steps,
        lists_paths_within(adj, start, end, fewer_steps, fewer),
        lists_paths_within(adj, start, end, more_steps, more),
    ensures
        forall|p: Seq<T>| #[trigger] fewer.contains(p) ==> more.contains(p),
{
}

/// A limit that no path of the unlimited search exceeds changes nothing:
/// the two searches find the same paths.
pub proof fn lemma_wide_limit_finds_all<T>(
    adj: Map<T, Set<T>>,
    start: T,
    end: T,
    max_steps: nat,
    all: Seq<Seq<T>>,
    bounded: Seq<Seq<T>>,
)
    requires
        lists_all_paths(adj, start, end, all),
        lists_paths_within(adj, start, end, max_steps, bounded),
        forall|p: Seq<T>| #[trigger] all.contains(p) ==> p.len() <= max_steps,
    ensures
        forall|p: Seq<T>| #[trigger] bounded.contains(p) <==> all.contains(p),
        bounded.len() == all.len(),
{
    assert forall|p: Seq<T>| #[trigger] bounded.contains(p) <==> all.contains(p) by {}
    assert(bounded.to_set() =~= all.to_set());
    bounded.unique_seq_to_set();
    all.unique_seq_to_set();
}

} // verus!
