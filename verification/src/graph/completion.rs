//! The theory behind the search: which paths complete a partial path, and
//! why a search that tries each neighbour in turn lists them all.

use crate::paths::{is_simple_path, is_walk, path_seqs, within_steps};
use crate::relation::{has_edge, neighbors_of};
use vstd::prelude::*;

verus! {

/// A path of `len` nodes may come out of a search that stood at a partial
/// path of `base` nodes under `limit`: the partial path itself always, a
/// longer one only if it stays within the limit.
pub(super) open spec fn allowed(limit: Option<usize>, base: nat, len: nat) -> bool {
    match limit {
        None => true,
        Some(max_steps) => len <= max_steps || len == base,
    }
}

/// `q` completes `prefix`: it begins with `prefix`, is a simple walk, stops
/// at `end`, and is allowed under `limit`.
pub(super) open spec fn completes<T>(
    adj: Map<T, Set<T>>,
    prefix: Seq<T>,
    end: T,
    limit: Option<usize>,
    q: Seq<T>,
) -> bool {
    &&& prefix.len() <= q.len()
    &&& q.subrange(0, prefix.len() as int) == prefix
    &&& q.last() == end
    &&& q.no_duplicates()
    &&& is_walk(adj, q)
    &&& allowed(limit, prefix.len(), q.len())
}

/// `added` holds each completion of `prefix` exactly once, and nothing else.
pub(super) open spec fn lists_completions<T>(
    adj: Map<T, Set<T>>,
    prefix: Seq<T>,
    end: T,
    limit: Option<usize>,
    added: Seq<Seq<T>>,
) -> bool {
    &&& added.no_duplicates()
    &&& forall|q: Seq<T>| #[trigger] added.contains(q) <==> completes(adj, prefix, end, limit, q)
}

/// `v` is among the first `i` of `ns`.
pub(super) open spec fn tried<T>(ns: Seq<&T>, i: int, v: T) -> bool {
    exists|j: int| 0 <= j < i && *#[trigger] ns[j] == v
}

/// `added` holds, each exactly once, the completions of `prefix` whose next
/// node is among the first `i` of `ns`, and nothing else.
pub(super) open spec fn lists_completions_via<T>(
    adj: Map<T, Set<T>>,
    prefix: Seq<T>,
    end: T,
    limit: Option<usize>,
    ns: Seq<&T>,
    i: int,
    added: Seq<Seq<T>>,
) -> bool {
    &&& added.no_duplicates()
    &&& forall|q: Seq<T>| #[trigger]
        added.contains(q) <==> completes(adj, prefix, end, limit, q) && tried(
            ns,
            i,
            q[prefix.len() as int],
        )
}

/// The nodes that are a neighbour of some node.
pub(super) open spec fn targets<T>(adj: Map<T, Set<T>>) -> Set<T> {
    Set::new(|v: T| exists|u: T| has_edge(adj, u, v))
}

/// The nodes that a search may still step to. Each step takes one away, so
/// their number bounds the depth of the search.
pub(super) open spec fn unvisited<T>(adj: Map<T, Set<T>>, visited: Set<T>) -> Set<T> {
    targets(adj).difference(visited)
}

/// The completions of the path `[start]` are the simple paths from `start`
/// to `end`: all of them without a limit, those that pass it with one.
pub(super) proof fn lemma_completes_from_start<T>(
    adj: Map<T, Set<T>>,
    start: T,
    end: T,
    limit: Option<usize>,
    q: Seq<T>,
)
    ensures
        completes(adj, seq![start], end, limit, q) <==> is_simple_path(adj, start, end, q)
            && match limit {
            None => true,
            Some(max_steps) => within_steps(q, max_steps as nat),
        },
{
    if completes(adj, seq![start], end, limit, q) {
        assert(q.subrange(0, 1)[0] == q[0]);
    }
    if is_simple_path(adj, start, end, q) {
        assert(q.subrange(0, 1) =~= seq![start]);
    }
}

/// A path that has reached `end` is completed by itself alone: anything
/// longer would hold `end` twice.
proof fn lemma_completes_at_end<T>(
    adj: Map<T, Set<T>>,
    prefix: Seq<T>,
    end: T,
    limit: Option<usize>,
    q: Seq<T>,
)
    requires
        prefix.len() > 0,
        prefix.last() == end,
        prefix.no_duplicates(),
        is_walk(adj, prefix),
    ensures
        completes(adj, prefix, end, limit, q) <==> q == prefix,
{
    if completes(adj, prefix, end, limit, q) {
        assert(q =~= prefix);
    }
    if q == prefix {
        assert(q.subrange(0, prefix.len() as int) =~= prefix);
    }
}

/// A completion of a path that has not reached `end` goes on: to a
/// neighbour of the last node that is not on the path yet, and only if the
/// limit lets the path grow.
pub(super) proof fn lemma_completes_next<T>(
    adj: Map<T, Set<T>>,
    prefix: Seq<T>,
    end: T,
    limit: Option<usize>,
    q: Seq<T>,
)
    requires
        prefix.len() > 0,
        prefix.last() != end,
        completes(adj, prefix, end, limit, q),
    ensures
        q.len() > prefix.len(),
        has_edge(adj, prefix.last(), q[prefix.len() as int]),
        !prefix.contains(q[prefix.len() as int]),
        limit matches Some(max_steps) ==> prefix.len() < max_steps,
{
    let k = prefix.len() as int;
    assert(q.subrange(0, k)[k - 1] == q[k - 1]);
    assert(has_edge(adj, q[k - 1], q[k - 1 + 1]));
    if prefix.contains(q[k]) {
        let j = choose|j: int| 0 <= j < k && prefix[j] == q[k];
        assert(q.subrange(0, k)[j] == q[j]);
    }
}

/// The completions of a path extended by `n` are the completions of the path
/// that go on with `n`.
proof fn lemma_completes_descend<T>(
    adj: Map<T, Set<T>>,
    prefix: Seq<T>,
    end: T,
    limit: Option<usize>,
    n: T,
    q: Seq<T>,
)
    requires
        prefix.len() > 0,
        limit matches Some(max_steps) ==> prefix.len() < max_steps,
    ensures
        completes(adj, prefix.push(n), end, limit, q) <==> completes(adj, prefix, end, limit, q)
            && q.len() > prefix.len() && q[prefix.len() as int] == n,
{
    let k = prefix.len() as int;
    if completes(adj, prefix.push(n), end, limit, q) {
        assert(q.subrange(0, k + 1)[k] == q[k]);
        assert(q.subrange(0, k) =~= q.subrange(0, k + 1).subrange(0, k));
        assert(prefix.push(n).subrange(0, k) =~= prefix);
    }
    if completes(adj, prefix, end, limit, q) && q.len() > prefix.len() && q[k] == n {
        assert(q.subrange(0, k + 1) =~= q.subrange(0, k).push(n));
    }
}

/// A path that has reached `end` is its own and only completion.
pub(super) proof fn lemma_completions_at_end<T>(
    adj: Map<T, Set<T>>,
    prefix: Seq<T>,
    end: T,
    limit: Option<usize>,
)
    requires
        prefix.len() > 0,
        prefix.last() == end,
        prefix.no_duplicates(),
        is_walk(adj, prefix),
    ensures
        lists_completions(adj, prefix, end, limit, seq![prefix]),
{
    let added = seq![prefix];
    assert forall|q: Seq<T>| #[trigger]
        added.contains(q) <==> completes(adj, prefix, end, limit, q) by {
        lemma_completes_at_end(adj, prefix, end, limit, q);
        if q == prefix {
            assert(added[0] == q);
        }
    }
}

/// A path that has not reached `end` and is not extended, because it is as
/// long as the limit allows or because its last node has no entry, has no
/// completion.
pub(super) proof fn lemma_no_completions<T>(
    adj: Map<T, Set<T>>,
    prefix: Seq<T>,
    end: T,
    limit: Option<usize>,
)
    requires
        prefix.len() > 0,
        prefix.last() != end,
        (limit matches Some(max_steps) && prefix.len() >= max_steps) || !adj.contains_key(
            prefix.last(),
        ),
    ensures
        lists_completions(adj, prefix, end, limit, Seq::<Seq<T>>::empty()),
{
    assert forall|q: Seq<T>| !completes(adj, prefix, end, limit, q) by {
        if completes(adj, prefix, end, limit, q) {
            lemma_completes_next(adj, prefix, end, limit, q);
        }
    }
}

/// One more neighbour has been dealt with: it was on the path already and
/// gave nothing, or `found` lists the completions that go on with it.
pub(super) proof fn lemma_one_more_tried<T>(
    adj: Map<T, Set<T>>,
    prefix: Seq<T>,
    end: T,
    limit: Option<usize>,
    ns: Seq<&T>,
    i: int,
    added: Seq<Seq<T>>,
    found: Seq<Seq<T>>,
)
    requires
        prefix.len() > 0,
        prefix.last() != end,
        limit matches Some(max_steps) ==> prefix.len() < max_steps,
        0 <= i < ns.len(),
        ns.no_duplicates(),
        lists_completions_via(adj, prefix, end, limit, ns, i, added),
        if prefix.contains(*ns[i]) {
            found.len() == 0
        } else {
            lists_completions(adj, prefix.push(*ns[i]), end, limit, found)
        },
    ensures
        lists_completions_via(adj, prefix, end, limit, ns, i + 1, added + found),
{
    let k = prefix.len() as int;
    let n = *ns[i];
    let all = added + found;
    assert forall|q: Seq<T>| #[trigger]
        all.contains(q) <==> completes(adj, prefix, end, limit, q) && tried(ns, i + 1, q[k]) by {
        lemma_completes_descend(adj, prefix, end, limit, n, q);
        if completes(adj, prefix, end, limit, q) {
            lemma_completes_next(adj, prefix, end, limit, q);
        }
        if all.contains(q) {
            let j = choose|j: int| 0 <= j < all.len() && all[j] == q;
            if j < added.len() {
                assert(added.contains(added[j]));
                let t = choose|t: int| 0 <= t < i && *#[trigger] ns[t] == q[k];
                assert(0 <= t < i + 1 && *ns[t] == q[k]);
            } else {
                assert(found.contains(found[j - added.len()]));
                assert(0 <= i < i + 1 && *ns[i] == q[k]);
            }
        }
        if completes(adj, prefix, end, limit, q) && tried(ns, i + 1, q[k]) {
            let t = choose|t: int| 0 <= t < i + 1 && *#[trigger] ns[t] == q[k];
            if t < i {
                assert(tried(ns, i, q[k]));
                assert(added.contains(q));
                let j = choose|j: int| 0 <= j < added.len() && added[j] == q;
                assert(all[j] == q);
            } else {
                assert(found.contains(q));
                let j = choose|j: int| 0 <= j < found.len() && found[j] == q;
                assert(all[added.len() + j] == q);
            }
        }
    }
    assert forall|a: int, b: int| 0 <= a < added.len() && 0 <= b < found.len() implies added[a]
        != found[b] by {
        assert(added.contains(added[a]));
        assert(found.contains(found[b]));
        lemma_completes_descend(adj, prefix, end, limit, n, found[b]);
        let t = choose|t: int| 0 <= t < i && *#[trigger] ns[t] == added[a][k];
        assert(ns[t] != ns[i]);
    }
    vstd::seq_lib::lemma_no_dup_in_concat(added, found);
}

/// Once every neighbour of the last node has been dealt with, every
/// completion has been listed.
pub(super) proof fn lemma_all_tried<T>(
    adj: Map<T, Set<T>>,
    prefix: Seq<T>,
    end: T,
    limit: Option<usize>,
    ns: Seq<&T>,
    added: Seq<Seq<T>>,
)
    requires
        prefix.len() > 0,
        prefix.last() != end,
        ns.unref().to_set() == neighbors_of(adj, prefix.last()),
        lists_completions_via(adj, prefix, end, limit, ns, ns.len() as int, added),
    ensures
        lists_completions(adj, prefix, end, limit, added),
{
    let k = prefix.len() as int;
    assert forall|q: Seq<T>| completes(adj, prefix, end, limit, q) implies tried(
        ns,
        ns.len() as int,
        q[k],
    ) by {
        lemma_completes_next(adj, prefix, end, limit, q);
        assert(ns.unref().to_set().contains(q[k]));
        let j = choose|j: int| 0 <= j < ns.unref().len() && ns.unref()[j] == q[k];
        assert(*ns[j] == q[k]);
    }
}

/// What was appended to a list since `base`, in two steps, is what the first
/// step appended followed by what the second appended.
pub(super) proof fn lemma_appended_twice<T>(before: Seq<Vec<T>>, after: Seq<Vec<T>>, base: int)
    requires
        0 <= base <= before.len() <= after.len(),
        after.subrange(0, before.len() as int) == before,
    ensures
        path_seqs(after.subrange(base, after.len() as int)) == path_seqs(
            before.subrange(base, before.len() as int),
        ) + path_seqs(after.subrange(before.len() as int, after.len() as int)),
        after.subrange(0, base) == before.subrange(0, base),
{
    let n = before.len() as int;
    assert(path_seqs(after.subrange(base, after.len() as int)) =~= path_seqs(
        before.subrange(base, n),
    ) + path_seqs(after.subrange(n, after.len() as int)));
}

/// A relation with finitely many entries, each a finite set, has finitely
/// many targets.
pub(super) proof fn lemma_targets_finite<T>(adj: Map<T, Set<T>>)
    requires
        adj.dom().finite(),
        forall|u: T| adj.contains_key(u) ==> #[trigger] adj[u].finite(),
    ensures
        targets(adj).finite(),
    decreases adj.dom().len(),
{
    if adj.dom().is_empty() {
        assert(targets(adj) =~= Set::empty());
    } else {
        let u = adj.dom().choose();
        let rest = adj.remove(u);
        lemma_targets_finite(rest);
        assert forall|v: T| targets(adj).contains(v) <==> targets(rest).union(adj[u]).contains(
            v,
        ) by {
            if targets(adj).contains(v) {
                let w = choose|w: T| has_edge(adj, w, v);
                if w != u {
                    assert(has_edge(rest, w, v));
                }
            }
            if targets(rest).contains(v) {
                let w = choose|w: T| has_edge(rest, w, v);
                assert(has_edge(adj, w, v));
            }
            if adj[u].contains(v) {
                assert(has_edge(adj, u, v));
            }
        }
        assert(targets(adj) =~= targets(rest).union(adj[u]));
    }
}

/// A step to a neighbour that was not visited leaves fewer nodes to step to.
pub(super) proof fn lemma_unvisited_shrinks<T>(adj: Map<T, Set<T>>, visited: Set<T>, u: T, v: T)
    requires
        targets(adj).finite(),
        has_edge(adj, u, v),
        !visited.contains(v),
    ensures
        unvisited(adj, visited.insert(v)).len() < unvisited(adj, visited).len(),
{
    assert(unvisited(adj, visited.insert(v)) =~= unvisited(adj, visited).remove(v));
}

} // verus!
