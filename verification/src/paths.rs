//! Walks, reachability and distance in a directed graph given by its
//! adjacency rows.
//!
//! An adjacency is a `Seq<Seq<nat>>`: row `u` lists the heads of the arcs that
//! leave vertex `u`. A walk is the sequence of the vertices it passes, so a
//! walk over `k` arcs has `k + 1` entries.

use vstd::prelude::*;

verus! {

/// There is an arc from `u` to `v`.
pub open spec fn has_arc(adj: Seq<Seq<nat>>, u: nat, v: nat) -> bool {
    u < adj.len() && adj[u as int].contains(v)
}

/// Every entry of every row is a vertex.
pub open spec fn rows_in_range(adj: Seq<Seq<nat>>) -> bool {
    forall|v: int, b: int|
        0 <= v < adj.len() && 0 <= b < adj[v].len() ==> (#[trigger] adj[v][b]) < adj.len()
}

/// `p` is a walk: it is not empty and an arc joins each entry to the next.
pub open spec fn is_walk(adj: Seq<Seq<nat>>, p: Seq<nat>) -> bool {
    &&& p.len() > 0
    &&& forall|i: int| 0 <= i < p.len() - 1 ==> has_arc(adj, #[trigger] p[i], p[i + 1])
}

/// `p` is a walk that starts at `s` and ends at `v`.
pub open spec fn connects(adj: Seq<Seq<nat>>, p: Seq<nat>, s: nat, v: nat) -> bool {
    is_walk(adj, p) && p.first() == s && p.last() == v
}

/// Some walk leads from `s` to `v`.
pub open spec fn reachable(adj: Seq<Seq<nat>>, s: nat, v: nat) -> bool {
    exists|p: Seq<nat>| connects(adj, p, s, v)
}

/// `d` is the number of arcs of a shortest walk from `s` to `v`.
pub open spec fn is_distance(adj: Seq<Seq<nat>>, s: nat, v: nat, d: nat) -> bool {
    &&& exists|p: Seq<nat>| #[trigger] connects(adj, p, s, v) && p.len() == d + 1
    &&& forall|p: Seq<nat>| #[trigger] connects(adj, p, s, v) ==> p.len() >= d + 1
}

/// Some walk over exactly `k` arcs leads from `s` to `v`.
pub open spec fn reaches_in(adj: Seq<Seq<nat>>, s: nat, v: nat, k: nat) -> bool
    decreases k,
{
    if k == 0 {
        v == s
    } else {
        exists|u: nat| reaches_in(adj, s, u, (k - 1) as nat) && #[trigger] has_arc(adj, u, v)
    }
}

/// `d` is the least number of arcs over which `v` is reached from `s`.
pub open spec fn is_least_hops(adj: Seq<Seq<nat>>, s: nat, v: nat, d: nat) -> bool {
    &&& reaches_in(adj, s, v, d)
    &&& forall|j: nat| j < d ==> !reaches_in(adj, s, v, j)
}

/// One more arc extends a walk by one.
pub proof fn lemma_reaches_step(adj: Seq<Seq<nat>>, s: nat, u: nat, v: nat, k: nat)
    requires
        reaches_in(adj, s, u, k),
        has_arc(adj, u, v),
    ensures
        reaches_in(adj, s, v, k + 1),
{
    assert(((k + 1) - 1) as nat == k);
}

/// A walk from `s` to `v` shows that `v` is reached over as many arcs as the
/// walk has.
pub proof fn lemma_walk_reaches(adj: Seq<Seq<nat>>, p: Seq<nat>, s: nat, v: nat)
    requires
        connects(adj, p, s, v),
    ensures
        reaches_in(adj, s, v, (p.len() - 1) as nat),
    decreases p.len(),
{
    if p.len() > 1 {
        let q = p.drop_last();
        let u = q.last();
        assert forall|i: int| 0 <= i < q.len() - 1 implies has_arc(
            adj,
            #[trigger] q[i],
            q[i + 1],
        ) by {
            assert(has_arc(adj, p[i], p[i + 1]));
        }
        lemma_walk_reaches(adj, q, s, u);
        assert(has_arc(adj, p[p.len() - 2], p[p.len() - 2 + 1]));
        lemma_reaches_step(adj, s, u, v, (q.len() - 1) as nat);
    }
}

/// A vertex reached over `k` arcs is the end of a walk with `k + 1` entries.
pub proof fn lemma_reaches_walk(adj: Seq<Seq<nat>>, s: nat, v: nat, k: nat) -> (p: Seq<nat>)
    requires
        reaches_in(adj, s, v, k),
    ensures
        connects(adj, p, s, v),
        p.len() == k + 1,
    decreases k,
{
    if k == 0 {
        seq![s]
    } else {
        let u = choose|u: nat|
            reaches_in(adj, s, u, (k - 1) as nat) && #[trigger] has_arc(adj, u, v);
        let q = lemma_reaches_walk(adj, s, u, (k - 1) as nat);
        let p = q.push(v);
        assert forall|i: int| 0 <= i < p.len() - 1 implies has_arc(
            adj,
            #[trigger] p[i],
            p[i + 1],
        ) by {
            if i < q.len() - 1 {
                assert(has_arc(adj, q[i], q[i + 1]));
            }
        }
        p
    }
}

/// The least number of arcs over which a vertex is reached is its distance.
pub proof fn lemma_least_hops_is_distance(adj: Seq<Seq<nat>>, s: nat, v: nat, d: nat)
    requires
        is_least_hops(adj, s, v, d),
    ensures
        reachable(adj, s, v),
        is_distance(adj, s, v, d),
{
    let p = lemma_reaches_walk(adj, s, v, d);
    assert(connects(adj, p, s, v) && p.len() == d + 1);
    assert forall|q: Seq<nat>| #[trigger] connects(adj, q, s, v) implies q.len() >= d + 1 by {
        lemma_walk_reaches(adj, q, s, v);
    }
}

/// A vertex that no number of arcs reaches is not reachable.
pub proof fn lemma_never_reached_is_unreachable(adj: Seq<Seq<nat>>, s: nat, v: nat)
    requires
        forall|k: nat| !reaches_in(adj, s, v, k),
    ensures
        !reachable(adj, s, v),
{
    if reachable(adj, s, v) {
        let p = choose|p: Seq<nat>| connects(adj, p, s, v);
        lemma_walk_reaches(adj, p, s, v);
    }
}

/// A vertex has at most one distance from a source.
pub proof fn lemma_distance_unique(adj: Seq<Seq<nat>>, s: nat, v: nat, d: nat, e: nat)
    requires
        is_distance(adj, s, v, d),
        is_distance(adj, s, v, e),
    ensures
        d == e,
{
    let p = choose|p: Seq<nat>| #[trigger] connects(adj, p, s, v) && p.len() == d + 1;
    let q = choose|q: Seq<nat>| #[trigger] connects(adj, q, s, v) && q.len() == e + 1;
    assert(connects(adj, p, s, v));
    assert(connects(adj, q, s, v));
}

} // verus!
