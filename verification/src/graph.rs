//! The graph container: construction, edge insertion and lookup.

use crate::keys::key_model;
use crate::relation::{
    has_edge, lemma_with_edge_keeps, lemma_with_edge_keeps_symmetry, lemma_with_edge_records,
    symmetric, with_arc, with_edge,
};
use std::collections::HashMap;
use std::collections::HashSet;
use std::hash::Hash;
use vstd::prelude::*;
use vstd::std_specs::iter::IteratorSpec;

mod completion;
mod search;

verus! {

/// The relation that a table of neighbour sets stands for.
spec fn relation_of<T>(table: Map<T, HashSet<T>>) -> Map<T, Set<T>> {
    table.map_values(|neighbors: HashSet<T>| neighbors@)
}

/// A directed or undirected graph over node keys of type `T`. Nodes exist
/// only as the ends of edges: a node gets an entry, with the set of its
/// neighbours, when an edge is inserted that leaves it.
///
/// Two facts hold of every graph and are kept by every operation: the key
/// type fits [`key_model`], and an undirected graph holds the reverse of
/// every arc it holds.
#[derive(PartialEq, Eq)]
pub struct Graph<T: Eq + Hash + Clone> {
    is_directed: bool,
    adjacency_list: HashMap<T, HashSet<T>>,
}

impl<T: Eq + Hash + Clone> View for Graph<T> {
    type V = Map<T, Set<T>>;

    /// The adjacency relation: each source node with the set of its
    /// neighbours.
    closed spec fn view(&self) -> Map<T, Set<T>> {
        relation_of(self.adjacency_list@)
    }
}

impl<T: Eq + Hash + Clone> Clone for Graph<T> {
    /// A graph of its own with the same direction flag and the same
    /// adjacency relation.
    fn clone(&self) -> (g: Self)
        ensures
            g@ == self@,
            g.directed() == self.directed(),
    {
        proof {
            use_type_invariant(self);
        }
        Graph { is_directed: self.is_directed, adjacency_list: self.adjacency_list.clone() }
    }
}

impl<T: Eq + Hash + Clone> Graph<T> {
    /// Whether an inserted edge is recorded in one direction only.
    pub closed spec fn directed(&self) -> bool {
        self.is_directed
    }

    #[verifier::type_invariant]
    spec fn well_formed(&self) -> bool {
        &&& key_model::<T>()
        &&& self.is_directed || symmetric(self@)
    }

    /// A graph holds finitely many source nodes, each with finitely many
    /// neighbours.
    pub proof fn lemma_view_finite(&self)
        ensures
            self@.dom().finite(),
            forall|u: T| self@.contains_key(u) ==> #[trigger] self@[u].finite(),
    {
        assert(self@.dom() =~= self.adjacency_list@.dom());
        assert forall|u: T| self@.contains_key(u) implies #[trigger] self@[u].finite() by {
            let neighbors = self.adjacency_list@[u];
            assert(neighbors.iter().remaining().unref().to_set() == neighbors@);
        }
    }

    /// An empty graph: no nodes, no edges. It is undirected unless
    /// `is_directed` holds `true`.
    pub fn new(is_directed: Option<bool>) -> (g: Self)
        requires
            key_model::<T>(),
        ensures
            g@ == Map::<T, Set<T>>::empty(),
            g.directed() == (is_directed == Some(true)),
    {
        let is_directed = is_directed.unwrap_or(false);
        let g = Graph { is_directed, adjacency_list: HashMap::new() };
        g
    }

    /// Whether the graph is directed. An undirected graph holds the reverse
    /// of every arc it holds.
    pub fn is_directed(&self) -> (d: bool)
        ensures
            d == self.directed(),
            !d ==> symmetric(self@),
    {
        proof {
            use_type_invariant(self);
        }
        self.is_directed
    }

    /// The neighbour set recorded for `node`, if it has an entry. A node that
    /// only ever appeared as the target of a directed edge has none.
    pub fn neighbors(&self, node: &T) -> (found: Option<&HashSet<T>>)
        ensures
            match found {
                Some(set) => self@.contains_key(*node) && set@ == self@[*node],
                None => !self@.contains_key(*node),
            },
    {
        proof {
            use_type_invariant(self);
        }
        self.adjacency_list.get(node)
    }

    /// Makes `y` a neighbour of `x`, with a new entry for `x` if it had none.
    fn insert_arc(adjacency_list: &mut HashMap<T, HashSet<T>>, x: &T, y: &T)
        requires
            key_model::<T>(),
        ensures
            relation_of(final(adjacency_list)@) == with_arc(
                relation_of(old(adjacency_list)@),
                *x,
                *y,
            ),
    {
        adjacency_list.entry(x.clone()).or_insert(HashSet::new()).insert(y.clone());
        assert(relation_of(adjacency_list@) =~= with_arc(
            relation_of(old(adjacency_list)@),
            *x,
            *y,
        ));
    }

    /// Records the edge `(x, y)`, and its reverse too when the graph is
    /// undirected. Neither node has to be known already, and the two may be
    /// the same. Nothing that was recorded before is lost, and inserting an
    /// edge that is already there changes nothing.
    pub fn add_edge(&mut self, x: T, y: T)
        ensures
            final(self).directed() == old(self).directed(),
            final(self)@ == with_edge(old(self)@, old(self).directed(), x, y),
            has_edge(final(self)@, x, y),
            !old(self).directed() ==> has_edge(final(self)@, y, x),
            old(self).directed() && x != y ==> (final(self)@.contains_key(y) <==> old(
                self,
            )@.contains_key(y)),
            forall|a: T| old(self)@.contains_key(a) ==> final(self)@.contains_key(a),
            forall|a: T, b: T| has_edge(old(self)@, a, b) ==> has_edge(final(self)@, a, b),
            !final(self).directed() ==> symmetric(final(self)@),
    {
        proof {
            use_type_invariant(&*self);
            lemma_with_edge_records(self@, self.is_directed, x, y);
            lemma_with_edge_keeps(self@, self.is_directed, x, y);
            if !self.is_directed {
                lemma_with_edge_keeps_symmetry(self@, x, y);
            }
        }
        // The table is taken out while it is changed: between the two
        // insertions an undirected graph would hold an arc without its
        // reverse.
        let mut adjacency_list = HashMap::new();
        std::mem::swap(&mut adjacency_list, &mut self.adjacency_list);
        Self::insert_arc(&mut adjacency_list, &x, &y);
        if !self.is_directed {
            Self::insert_arc(&mut adjacency_list, &y, &x);
        }
        self.adjacency_list = adjacency_list;
    }
}

} // verus!
