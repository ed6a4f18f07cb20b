//! Enumeration of simple paths by depth-first search with backtracking.

use crate::graph::completion::{
    lemma_all_tried, lemma_appended_twice, lemma_completes_from_start, lemma_completions_at_end,
    lemma_no_completions, lemma_one_more_tried, lemma_targets_finite, lemma_unvisited_shrinks,
    lists_completions, lists_completions_via, unvisited,
};
use crate::graph::Graph;
use crate::keys::{key_model, lemma_key_laws};
use crate::paths::{
    is_simple_path, is_walk, lemma_empty_list, lemma_no_path_without_entry, lemma_paths_to_self,
    lemma_paths_to_self_within, lists_all_paths, lists_paths_within, path_seqs, within_steps,
};
use std::collections::HashSet;
use std::hash::Hash;
use vstd::prelude::*;
use vstd::std_specs::iter::IteratorSpec;

verus! {

impl<T: Eq + Hash + Clone> Graph<T> {
    /// Every simple path from `start` to `end`, each as the nodes it visits,
    /// both endpoints included. The order of the paths is not fixed: it
    /// follows the order in which the neighbour sets hand out their members.
    ///
    /// Neither node has to be known to the graph. From a node to itself the
    /// result is the one path that holds that node alone. Where `end` cannot
    /// be reached the result is empty, as it is where `start` has no entry
    /// and is not `end`.
    pub fn find_all_paths(&self, start: T, end: T) -> (paths: Vec<Vec<T>>)
        ensures
            lists_all_paths(self@, start, end, path_seqs(paths@)),
            forall|i: int|
                0 <= i < paths@.len() ==> is_simple_path(self@, start, end, #[trigger] paths@[i]@),
            start == end ==> paths@.len() == 1 && paths@[0]@ == seq![start],
            start != end && !self@.contains_key(start) ==> paths@.len() == 0,
    {
        proof {
            use_type_invariant(self);
            lemma_key_laws::<T>();
        }
        let mut paths = Vec::new();
        let mut visited = HashSet::new();
        let mut path = Vec::new();

        path.push(start.clone());
        visited.insert(start.clone());
        proof {
            assert(path@[0] == start);
            assert(visited@ =~= path@.to_set());
        }

        self.find_paths_helper(start, end, None, &mut visited, &mut path, &mut paths);

        proof {
            let out = path_seqs(paths@);
            assert(paths@.subrange(0, paths@.len() as int) =~= paths@);
            assert forall|p: Seq<T>| #[trigger]
                out.contains(p) <==> is_simple_path(self@, start, end, p) by {
                lemma_completes_from_start(self@, start, end, None, p);
            }
            assert forall|i: int| 0 <= i < paths@.len() implies is_simple_path(
                self@,
                start,
                end,
                #[trigger] paths@[i]@,
            ) by {
                assert(out.contains(out[i]));
            }
            if start == end {
                lemma_paths_to_self(self@, start, out);
            } else if !self@.contains_key(start) {
                assert forall|p: Seq<T>| !out.contains(p) by {
                    lemma_no_path_without_entry(self@, start, end, p);
                }
                lemma_empty_list(out);
            }
        }
        paths
    }

    /// The simple paths from `start` to `end` that a search finds which
    /// extends no path that already holds `max_steps` nodes. Those are the
    /// simple paths of at most `max_steps` nodes and, from a node to itself,
    /// the path of that node alone under any limit, zero included: a path
    /// that has reached `end` is kept before the limit is looked at. The
    /// limit counts nodes, not edges: a path of `k` nodes has `k - 1` edges.
    /// The order of the paths is not fixed.
    pub fn find_paths_with_max_steps(
        &self,
        start: T,
        end: T,
        max_steps: usize,
    ) -> (paths: Vec<Vec<T>>)
        ensures
            lists_paths_within(self@, start, end, max_steps as nat, path_seqs(paths@)),
            forall|i: int|
                0 <= i < paths@.len() ==> is_simple_path(self@, start, end, #[trigger] paths@[i]@),
            forall|i: int|
                0 <= i < paths@.len() ==> within_steps(#[trigger] paths@[i]@, max_steps as nat),
            start != end || max_steps >= 1 ==> forall|i: int|
                0 <= i < paths@.len() ==> (#[trigger] paths@[i]@).len() <= max_steps,
            start == end ==> paths@.len() == 1 && paths@[0]@ == seq![start],
            start != end && !self@.contains_key(start) ==> paths@.len() == 0,
    {
        proof {
            use_type_invariant(self);
            lemma_key_laws::<T>();
        }
        let mut paths = Vec::new();
        let mut visited = HashSet::new();
        let mut path = Vec::new();

        path.push(start.clone());
        visited.insert(start.clone());
        proof {
            assert(path@[0] == start);
            assert(visited@ =~= path@.to_set());
        }

        self.find_paths_helper(
            start,
            end.clone(),
            Some(max_steps),
            &mut visited,
            &mut path,
            &mut paths,
        );

        proof {
            let out = path_seqs(paths@);
            assert(paths@.subrange(0, paths@.len() as int) =~= paths@);
            assert forall|p: Seq<T>| #[trigger]
                out.contains(p) <==> is_simple_path(self@, start, end, p) && within_steps(
                    p,
                    max_steps as nat,
                ) by {
                lemma_completes_from_start(self@, start, end, Some(max_steps), p);
            }
            assert forall|i: int| 0 <= i < paths@.len() implies is_simple_path(
                self@,
                start,
                end,
                #[trigger] paths@[i]@,
            ) && within_steps(paths@[i]@, max_steps as nat) by {
                assert(out.contains(out[i]));
            }
            if start == end {
                lemma_paths_to_self_within(self@, start, max_steps as nat, out);
            } else if !self@.contains_key(start) {
                assert forall|p: Seq<T>| !out.contains(p) by {
                    lemma_no_path_without_entry(self@, start, end, p);
                }
                lemma_empty_list(out);
            }
        }
        paths
    }

    /// The search itself, shared by the two queries: `limit` is `None` for
    /// the one without a limit.
    ///
    /// `path` is the walk that led from the start of the search to `current`
    /// and `visited` holds its nodes. Appends to `paths` every completion of
    /// `path` and hands `path` and `visited` back as they were. A path that
    /// has reached `end` is recorded and not extended. Otherwise, with a
    /// limit, the path is given up once it holds that many nodes. Otherwise
    /// each neighbour of `current` that is not on the path is tried in turn:
    /// marked and appended, searched from, then taken off again.
    #[verifier::loop_isolation(false)]
    fn find_paths_helper(
        &self,
        current: T,
        end: T,
        limit: Option<usize>,
        visited: &mut HashSet<T>,
        path: &mut Vec<T>,
        paths: &mut Vec<Vec<T>>,
    )
        requires
            key_model::<T>(),
            old(path)@.len() > 0,
            old(path)@.last() == current,
            old(path)@.no_duplicates(),
            is_walk(self@, old(path)@),
            old(visited)@ == old(path)@.to_set(),
        ensures
            final(path)@ == old(path)@,
            final(visited)@ == old(visited)@,
            old(paths)@.len() <= final(paths)@.len(),
            final(paths)@.subrange(0, old(paths)@.len() as int) == old(paths)@,
            lists_completions(
                self@,
                old(path)@,
                end,
                limit,
                path_seqs(
                    final(paths)@.subrange(old(paths)@.len() as int, final(paths)@.len() as int),
                ),
            ),
        decreases unvisited(self@, old(visited)@).len(),
    {
        let ghost adj = self@;
        let ghost path0 = path@;
        let ghost visited0 = visited@;
        let ghost paths0 = paths@;
        let ghost base = paths@.len() as int;
        proof {
            lemma_key_laws::<T>();
            self.lemma_view_finite();
            lemma_targets_finite(adj);
        }
        if current == end {
            paths.push(path.clone());
            proof {
                lemma_completions_at_end(adj, path0, end, limit);
                assert(path_seqs(paths@.subrange(base, paths@.len() as int)) =~= seq![path0]);
            }
            return;
        }
        if let Some(max_steps) = limit {
            if path.len() >= max_steps {
                proof {
                    lemma_no_completions(adj, path0, end, limit);
                }
                return;
            }
        }
        if let Some(neighbors) = self.neighbors(&current) {
            for neighbor in it: neighbors.iter()
                invariant
                    it.seq() == neighbors.iter().remaining(),
                    path@ == path0,
                    visited@ == visited0,
                    base <= paths@.len(),
                    paths@.subrange(0, base) == paths0,
                    lists_completions_via(
                        adj,
                        path0,
                        end,
                        limit,
                        it.seq(),
                        it.index(),
                        path_seqs(paths@.subrange(base, paths@.len() as int)),
                    ),
            {
                let ghost before = paths@;
                let ghost i = it.index();
                if !visited.contains(neighbor) {
                    visited.insert(neighbor.clone());
                    path.push(neighbor.clone());
                    proof {
                        lemma_unvisited_shrinks(adj, visited0, current, *neighbor);
                        path0.lemma_push_to_set_commute(*neighbor);
                    }
                    self.find_paths_helper(
                        neighbor.clone(),
                        end.clone(),
                        limit,
                        visited,
                        path,
                        paths,
                    );
                    path.pop();
                    visited.remove(neighbor);
                }
                proof {
                    assert(paths@.subrange(0, before.len() as int) =~= before);
                    lemma_appended_twice(before, paths@, base);
                    lemma_one_more_tried(
                        adj,
                        path0,
                        end,
                        limit,
                        it.seq(),
                        i,
                        path_seqs(before.subrange(base, before.len() as int)),
                        path_seqs(paths@.subrange(before.len() as int, paths@.len() as int)),
                    );
                }
            }
            proof {
                lemma_all_tried(
                    adj,
                    path0,
                    end,
                    limit,
                    neighbors.iter().remaining(),
                    path_seqs(paths@.subrange(base, paths@.len() as int)),
                );
            }
        } else {
            proof {
                lemma_no_completions(adj, path0, end, limit);
            }
        }
    }
}

} // verus!
