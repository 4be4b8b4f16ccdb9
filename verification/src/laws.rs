//! What holds of every graph and of every search, stated over the models
//! that the contracts of the library use.

use crate::bfs::{is_level, is_level_array};
use crate::edges::{
    adjacency, lemma_reversed_successors, lemma_reversed_vertex_count, lemma_successors_contains,
    lemma_successors_of_stranger, lemma_vertex_count_attained, lemma_vertex_count_bounds, reversed,
    successors, vertex_count,
};
use crate::graph::SimpleGraph;
use crate::paths::{connects, has_arc, lemma_distance_unique, reachable, rows_in_range};
use crate::traits::NodeID;
use vstd::prelude::*;

verus! {

/// A search has one level array: two arrays that both hold the level of
/// every vertex are equal, entry by entry. So two searches of one graph from
/// one source return the same.
pub proof fn lemma_level_array_unique<T: NodeID>(
    adj: Seq<Seq<nat>>,
    s: nat,
    first: Seq<T>,
    second: Seq<T>,
)
    requires
        is_level_array(adj, s, first),
        is_level_array(adj, s, second),
    ensures
        first == second,
{
    assert forall|v: int| 0 <= v < adj.len() implies first[v] == second[v] by {
        assert(is_level(adj, s, v as nat, first[v]));
        assert(is_level(adj, s, v as nat, second[v]));
        if reachable(adj, s, v as nat) {
            lemma_distance_unique(adj, s, v as nat, first[v].value(), second[v].value());
        }
        T::lemma_value_injective(first[v], second[v]);
    }
    assert(first =~= second);
}

/// No arc skips a level: the head of an arc that leaves a reached vertex is
/// reached too, and stands at most one level below the tail.
pub proof fn lemma_levels_along_arcs<T: NodeID>(
    adj: Seq<Seq<nat>>,
    s: nat,
    levels: Seq<T>,
    u: nat,
    v: nat,
)
    requires
        rows_in_range(adj),
        is_level_array(adj, s, levels),
        reachable(adj, s, u),
        has_arc(adj, u, v),
    ensures
        reachable(adj, s, v),
        levels[v as int].value() <= levels[u as int].value() + 1,
{
    let j = choose|j: int| 0 <= j < adj[u as int].len() && adj[u as int][j] == v;
    assert(adj[u as int][j] < adj.len());
    assert(is_level(adj, s, u, levels[u as int]));
    let d = levels[u as int].value();
    let p = choose|p: Seq<nat>| #[trigger] connects(adj, p, s, u) && p.len() == d + 1;
    let t = p.push(v);
    assert forall|i: int| 0 <= i < t.len() - 1 implies has_arc(adj, #[trigger] t[i], t[i + 1]) by {
        if i < p.len() - 1 {
            assert(has_arc(adj, p[i], p[i + 1]));
        }
    }
    assert(connects(adj, t, s, v));
    assert(is_level(adj, s, v, levels[v as int]));
}

/// The two stores of an edge list have the same dimension: one more than the
/// largest vertex of the list. Every vertex of the list is below it, and
/// for a list that is not empty some vertex of the list is just one below.
pub proof fn lemma_store_dimensions(list: Seq<(nat, nat)>)
    ensures
        adjacency(list).len() == vertex_count(list),
        adjacency(reversed(list)).len() == vertex_count(list),
        forall|i: int|
            0 <= i < list.len() ==> (#[trigger] list[i]).0 < vertex_count(list) && list[i].1
                < vertex_count(list),
        list.len() > 0 ==> exists|i: int|
            0 <= i < list.len() && ((#[trigger] list[i]).0 + 1 == vertex_count(list)
                || list[i].1 + 1 == vertex_count(list)),
{
    lemma_reversed_vertex_count(list);
    assert forall|i: int| 0 <= i < list.len() implies (#[trigger] list[i]).0 < vertex_count(list)
        && list[i].1 < vertex_count(list) by {
        lemma_vertex_count_bounds(list, i);
    }
    if list.len() > 0 {
        let i = lemma_vertex_count_attained(list);
        assert((#[trigger] list[i]).0 + 1 == vertex_count(list) || list[i].1 + 1 == vertex_count(
            list,
        ));
    }
}

/// A vertex that no arc of the list leaves has an empty row in the store of
/// the list.
pub proof fn lemma_untouched_row_is_empty(list: Seq<(nat, nat)>, v: nat)
    requires
        forall|i: int| 0 <= i < list.len() ==> (#[trigger] list[i]).0 != v,
    ensures
        successors(list, v).len() == 0,
    decreases list.len(),
{
    if list.len() > 0 {
        let rest = list.drop_last();
        assert forall|i: int| 0 <= i < rest.len() implies (#[trigger] rest[i]).0 != v by {
            assert(rest[i] == list[i]);
        }
        lemma_untouched_row_is_empty(rest, v);
        assert(list.last() == list[list.len() - 1]);
    }
}

/// The backward store of an edge list is its forward store read backwards:
/// `u` is in the backward row of `v` exactly if `v` is in the forward row of
/// `u`, which is so exactly if the list holds the arc from `u` to `v`.
pub proof fn lemma_stores_mirror(list: Seq<(nat, nat)>, u: nat, v: nat)
    ensures
        has_arc(adjacency(list), u, v) <==> list.contains((u, v)),
        has_arc(adjacency(reversed(list)), v, u) <==> list.contains((u, v)),
{
    lemma_reversed_vertex_count(list);
    lemma_reversed_successors(list, u, v);
    lemma_successors_contains(list, u, v);
    if u >= vertex_count(list) {
        lemma_successors_of_stranger(list, u);
        assert(!successors(list, u).contains(v));
    }
    if v >= vertex_count(list) {
        lemma_successors_of_stranger(reversed(list), v);
        assert(!successors(reversed(list), v).contains(u));
    }
}

impl<T: NodeID> SimpleGraph<T> {
    /// In every graph the two stores have the same vertices, and `u` is an
    /// in-neighbor of `v` exactly if `v` is an out-neighbor of `u`.
    pub proof fn lemma_backward_mirrors_forward(&self, u: nat, v: nat)
        requires
            self.wf(),
        ensures
            self.backward_rows().len() == self@.len(),
            has_arc(self.backward_rows(), v, u) <==> has_arc(self@, u, v),
    {
        let list = self.lemma_edge_list();
        lemma_store_dimensions(list);
        lemma_stores_mirror(list, u, v);
    }
}

} // verus!
