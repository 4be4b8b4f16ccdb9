//! Level-synchronous breadth-first search.
//!
//! The search settles one level after the other: the frontier holds the
//! vertices of the current level, and every neighbor of a frontier vertex
//! that was not seen before belongs to the next one.

use crate::paths::{
    connects, has_arc, is_distance, is_least_hops, lemma_least_hops_is_distance,
    lemma_never_reached_is_unreachable, lemma_reaches_step, reachable, reaches_in, rows_in_range,
};
use crate::adjacency::{filled, MAX_VERTICES};
use crate::edges::values;
use crate::error::GraphError;
use crate::frontier::sort_frontier;
use crate::graph::SimpleGraph;
use crate::traits::NodeID;
use crate::visited::{bit_at, bits, put_bit, repeat};
use vstd::prelude::*;

verus! {

/// `level` is the level of `v` in a search from `s`: the distance of `v` from
/// `s` if `v` can be reached, and the largest identifier if it cannot.
pub open spec fn is_level<T: NodeID>(adj: Seq<Seq<nat>>, s: nat, v: nat, level: T) -> bool {
    if reachable(adj, s, v) {
        is_distance(adj, s, v, level.value())
    } else {
        level.value() == T::limit()
    }
}

/// `levels` is the level array of a search from `s`: it has one entry for
/// each vertex, which is the level of that vertex.
pub open spec fn is_level_array<T: NodeID>(adj: Seq<Seq<nat>>, s: nat, levels: Seq<T>) -> bool {
    &&& levels.len() == adj.len()
    &&& forall|v: int| 0 <= v < adj.len() ==> is_level(adj, s, v as nat, #[trigger] levels[v])
}

/// Some vertex `u` with an arc to `v` can be reached and stands one level
/// above `v`.
pub open spec fn has_parent<T: NodeID>(adj: Seq<Seq<nat>>, s: nat, levels: Seq<T>, v: nat) -> bool {
    exists|u: nat|
        #![trigger has_arc(adj, u, v)]
        has_arc(adj, u, v) && reachable(adj, s, u) && levels[u as int].value() + 1
            == levels[v as int].value()
}

/// How many vertices were not seen yet.
spec fn unseen_count(seen: Seq<bool>) -> nat
    decreases seen.len(),
{
    if seen.len() == 0 {
        0
    } else {
        unseen_count(seen.drop_last()) + if seen.last() {
            0nat
        } else {
            1nat
        }
    }
}

/// `v` is not reached from `s` over `lo` arcs or fewer.
spec fn beyond(adj: Seq<Seq<nat>>, s: nat, v: nat, lo: nat) -> bool {
    forall|j: nat| j <= lo ==> !#[trigger] reaches_in(adj, s, v, j)
}

/// The state of a search in which every seen vertex has its level, at most
/// `hi` and below the number of vertices, and no unseen vertex is reached
/// over `lo` arcs or fewer.
spec fn search_state<T: NodeID>(
    adj: Seq<Seq<nat>>,
    s: nat,
    levels: Seq<T>,
    seen: Seq<bool>,
    hi: nat,
    lo: nat,
) -> bool {
    &&& levels.len() == adj.len()
    &&& seen.len() == adj.len()
    &&& forall|v: int|
        0 <= v < adj.len() && #[trigger] seen[v] ==> levels[v].value() <= hi && levels[v].value()
            < adj.len() && is_least_hops(adj, s, v as nat, levels[v].value())
    &&& forall|v: int|
        0 <= v < adj.len() && !#[trigger] seen[v] ==> levels[v].value() == T::limit()
            && beyond(adj, s, v as nat, lo)
}

/// `f` holds exactly the seen vertices of level `k`.
spec fn is_frontier<T: NodeID>(
    levels: Seq<T>,
    seen: Seq<bool>,
    f: Seq<T>,
    k: nat,
) -> bool {
    &&& forall|i: int|
        0 <= i < f.len() ==> (#[trigger] f[i]).value() < seen.len() && seen[f[i].value() as int]
            && levels[f[i].value() as int].value() == k
    &&& forall|v: int|
        0 <= v < seen.len() && #[trigger] seen[v] && levels[v].value() == k ==> exists|i: int|
            0 <= i < f.len() && (#[trigger] f[i]).value() == v
}

/// The heads of the arcs that leave the frontier vertex at position `a`.
spec fn arcs_at<T: NodeID>(adj: Seq<Seq<nat>>, f: Seq<T>, a: int) -> Seq<nat> {
    adj[f[a].value() as int]
}

/// Every arc that leaves one of the first `i` frontier vertices, and each of
/// the first `j` arcs that leave the next one, ends at a seen vertex.
spec fn expanded<T: NodeID>(
    adj: Seq<Seq<nat>>,
    seen: Seq<bool>,
    f: Seq<T>,
    i: int,
    j: int,
) -> bool {
    &&& forall|a: int, b: int|
        0 <= a < i && 0 <= b < arcs_at(adj, f, a).len() ==> seen[#[trigger] arcs_at(
            adj,
            f,
            a,
        )[b] as int]
    &&& forall|b: int|
        0 <= b < j && i < f.len() ==> seen[#[trigger] arcs_at(adj, f, i)[b] as int]
}

/// Among `n` vertices of which none was seen, `n` are unseen.
proof fn lemma_unseen_fresh(n: nat)
    ensures
        unseen_count(Seq::new(n, |i: int| false)) == n,
    decreases n,
{
    if n > 0 {
        lemma_unseen_fresh((n - 1) as nat);
        assert(Seq::new(n, |i: int| false).drop_last() =~= Seq::new(
            (n - 1) as nat,
            |i: int| false,
        ));
    }
}

/// Seeing a vertex for the first time leaves one unseen vertex fewer.
proof fn lemma_unseen_mark(seen: Seq<bool>, i: int)
    requires
        0 <= i < seen.len(),
        !seen[i],
    ensures
        unseen_count(seen.update(i, true)) + 1 == unseen_count(seen),
    decreases seen.len(),
{
    if i == seen.len() - 1 {
        assert(seen.update(i, true).drop_last() =~= seen.drop_last());
    } else {
        lemma_unseen_mark(seen.drop_last(), i);
        assert(seen.update(i, true).drop_last() =~= seen.drop_last().update(i, true));
    }
}

/// A search that has seen its source alone has settled level 0.
proof fn lemma_search_start<T: NodeID>(
    adj: Seq<Seq<nat>>,
    src: T,
    zero: T,
    levels: Seq<T>,
    seen: Seq<bool>,
)
    requires
        src.value() < adj.len(),
        zero.value() == 0,
        levels.len() == adj.len(),
        seen.len() == adj.len(),
        forall|v: int| 0 <= v < adj.len() ==> !#[trigger] seen[v],
        forall|v: int| 0 <= v < adj.len() ==> (#[trigger] levels[v]).value() == T::limit(),
    ensures
        search_state(
            adj,
            src.value(),
            levels.update(src.value() as int, zero),
            seen.update(src.value() as int, true),
            0,
            0,
        ),
        is_frontier(
            levels.update(src.value() as int, zero),
            seen.update(src.value() as int, true),
            seq![src],
            0,
        ),
{
    let s = src.value();
    let levels2 = levels.update(s as int, zero);
    let seen2 = seen.update(s as int, true);
    assert(reaches_in(adj, s, s, 0));
    assert forall|v: int| 0 <= v < adj.len() && !#[trigger] seen2[v] implies levels2[v].value()
        == T::limit() && beyond(adj, s, v as nat, 0) by {
        assert(!seen[v]);
        assert(!reaches_in(adj, s, v as nat, 0));
    }
    assert forall|v: int|
        0 <= v < seen2.len() && #[trigger] seen2[v] && levels2[v].value() == 0 implies exists|
        i: int,
    |
        0 <= i < seq![src].len() && (#[trigger] seq![src][i]).value() == v by {
        assert(!seen[v]);
        assert(seq![src][0].value() == v);
    }
}

/// The step of the search: a neighbor `u` of the frontier vertex `cur[i]`
/// that was not seen before belongs to the next level.
proof fn lemma_discover<T: NodeID>(
    adj: Seq<Seq<nat>>,
    s: nat,
    levels: Seq<T>,
    seen: Seq<bool>,
    cur: Seq<T>,
    next: Seq<T>,
    k: nat,
    i: int,
    j: int,
    u: T,
    level: T,
)
    requires
        rows_in_range(adj),
        search_state(adj, s, levels, seen, k + 1, k),
        is_frontier(levels, seen, cur, k),
        is_frontier(levels, seen, next, k + 1),
        expanded(adj, seen, cur, i, j),
        0 <= i < cur.len(),
        0 <= j < arcs_at(adj, cur, i).len(),
        arcs_at(adj, cur, i)[j] == u.value(),
        u.value() < adj.len(),
        !seen[u.value() as int],
        level.value() == k + 1,
        k + 1 < adj.len(),
    ensures
        search_state(
            adj,
            s,
            levels.update(u.value() as int, level),
            seen.update(u.value() as int, true),
            k + 1,
            k,
        ),
        is_frontier(
            levels.update(u.value() as int, level),
            seen.update(u.value() as int, true),
            cur,
            k,
        ),
        is_frontier(
            levels.update(u.value() as int, level),
            seen.update(u.value() as int, true),
            next.push(u),
            k + 1,
        ),
        expanded(adj, seen.update(u.value() as int, true), cur, i, j + 1),
        unseen_count(seen.update(u.value() as int, true)) + 1 == unseen_count(seen),
{
    let t = u.value() as int;
    let p = cur[i].value();
    let levels2 = levels.update(t, level);
    let seen2 = seen.update(t, true);
    let next2 = next.push(u);
    lemma_unseen_mark(seen, t);
    // the new vertex is reached over k + 1 arcs and over no fewer
    assert(seen[p as int] && levels[p as int].value() == k);
    assert(is_least_hops(adj, s, p, k));
    assert(adj[p as int].contains(u.value()));
    assert(has_arc(adj, p, u.value()));
    lemma_reaches_step(adj, s, p, u.value(), k);
    assert(beyond(adj, s, u.value(), k));
    assert(is_least_hops(adj, s, u.value(), k + 1));
    assert forall|v: int| 0 <= v < adj.len() && #[trigger] seen2[v] implies levels2[v].value() <= k
        + 1 && levels2[v].value() < adj.len() && is_least_hops(
        adj,
        s,
        v as nat,
        levels2[v].value(),
    ) by {
        if v != t {
            assert(seen[v]);
        }
    }
    assert forall|v: int| 0 <= v < adj.len() && !#[trigger] seen2[v] implies levels2[v].value()
        == T::limit() && beyond(adj, s, v as nat, k) by {
        assert(!seen[v]);
    }
    // the current frontier stays what it was
    assert forall|a: int| 0 <= a < cur.len() implies (#[trigger] cur[a]).value() < seen2.len()
        && seen2[cur[a].value() as int] && levels2[cur[a].value() as int].value() == k by {
        assert(seen[cur[a].value() as int]);
    }
    assert forall|v: int|
        0 <= v < seen2.len() && #[trigger] seen2[v] && levels2[v].value() == k implies exists|
        a: int,
    |
        0 <= a < cur.len() && (#[trigger] cur[a]).value() == v by {
        assert(v != t);
        assert(seen[v]);
    }
    // the next frontier gains the new vertex
    assert forall|a: int| 0 <= a < next2.len() implies (#[trigger] next2[a]).value() < seen2.len()
        && seen2[next2[a].value() as int] && levels2[next2[a].value() as int].value() == k + 1 by {
        if a < next.len() {
            assert(next2[a] == next[a]);
            assert(seen[next[a].value() as int]);
        }
    }
    assert forall|v: int|
        0 <= v < seen2.len() && #[trigger] seen2[v] && levels2[v].value() == k + 1 implies exists|
        a: int,
    |
        0 <= a < next2.len() && (#[trigger] next2[a]).value() == v by {
        if v == t {
            assert(next2[next.len() as int].value() == v);
        } else {
            assert(seen[v]);
            let a = choose|a: int| 0 <= a < next.len() && (#[trigger] next[a]).value() == v;
            assert(next2[a].value() == v);
        }
    }
    // what was expanded stays expanded
    assert forall|a: int, b: int|
        0 <= a < i && 0 <= b < arcs_at(adj, cur, a).len() implies seen2[#[trigger] arcs_at(
        adj,
        cur,
        a,
    )[b] as int] by {
        assert(seen[arcs_at(adj, cur, a)[b] as int]);
    }
    assert forall|b: int| 0 <= b < j + 1 && i < cur.len() implies seen2[#[trigger] arcs_at(
        adj,
        cur,
        i,
    )[b] as int] by {
        if b < j {
            assert(seen[arcs_at(adj, cur, i)[b] as int]);
        }
    }
}

/// A frontier vertex whose arcs were all followed is expanded.
proof fn lemma_row_done<T: NodeID>(
    adj: Seq<Seq<nat>>,
    seen: Seq<bool>,
    cur: Seq<T>,
    i: int,
)
    requires
        0 <= i < cur.len(),
        expanded(adj, seen, cur, i, arcs_at(adj, cur, i).len() as int),
    ensures
        expanded(adj, seen, cur, i + 1, 0),
{
    assert forall|a: int, b: int|
        0 <= a < i + 1 && 0 <= b < arcs_at(adj, cur, a).len() implies seen[#[trigger] arcs_at(
        adj,
        cur,
        a,
    )[b] as int] by {
        if a == i {
            assert(seen[arcs_at(adj, cur, i)[b] as int]);
        }
    }
}

/// Once the whole frontier of level `k` is expanded, no unseen vertex is
/// reached over `k + 1` arcs.
proof fn lemma_level_complete<T: NodeID>(
    adj: Seq<Seq<nat>>,
    s: nat,
    levels: Seq<T>,
    seen: Seq<bool>,
    cur: Seq<T>,
    k: nat,
)
    requires
        search_state(adj, s, levels, seen, k + 1, k),
        is_frontier(levels, seen, cur, k),
        expanded(adj, seen, cur, cur.len() as int, 0),
        rows_in_range(adj),
    ensures
        search_state(adj, s, levels, seen, k + 1, k + 1),
{
    assert forall|v: int| 0 <= v < adj.len() && !#[trigger] seen[v] implies beyond(
        adj,
        s,
        v as nat,
        k + 1,
    ) by {
        assert(beyond(adj, s, v as nat, k));
        if reaches_in(adj, s, v as nat, k + 1) {
            let u = choose|u: nat|
                reaches_in(adj, s, u, ((k + 1) - 1) as nat) && #[trigger] has_arc(adj, u, v as nat);
            assert(reaches_in(adj, s, u, k));
            lemma_closed_under_arcs(adj, s, levels, seen, cur, k, u, v as nat);
        }
    }
}

/// An arc from a vertex that is reached over `k` arcs leads to a seen vertex,
/// once the frontier of level `k` is expanded.
proof fn lemma_closed_under_arcs<T: NodeID>(
    adj: Seq<Seq<nat>>,
    s: nat,
    levels: Seq<T>,
    seen: Seq<bool>,
    cur: Seq<T>,
    k: nat,
    u: nat,
    v: nat,
)
    requires
        search_state(adj, s, levels, seen, k + 1, k),
        is_frontier(levels, seen, cur, k),
        expanded(adj, seen, cur, cur.len() as int, 0),
        reaches_in(adj, s, u, k),
        has_arc(adj, u, v),
        v < adj.len(),
    ensures
        seen[v as int],
{
    if !seen[v as int] {
        assert(beyond(adj, s, v, k));
        if !seen[u as int] {
            assert(beyond(adj, s, u, k));
        }
        let d = levels[u as int].value();
        assert(is_least_hops(adj, s, u, d));
        assert(d <= k);
        if d < k {
            lemma_reaches_step(adj, s, u, v, d);
            assert(!reaches_in(adj, s, v, d + 1));
        }
        let a = choose|a: int| 0 <= a < cur.len() && (#[trigger] cur[a]).value() == u;
        let b = choose|b: int| 0 <= b < adj[u as int].len() && adj[u as int][b] == v;
        assert(seen[arcs_at(adj, cur, a)[b] as int]);
    }
}

/// A sequence with the members of a frontier is that frontier too.
proof fn lemma_frontier_members<T: NodeID>(
    levels: Seq<T>,
    seen: Seq<bool>,
    f: Seq<T>,
    g: Seq<T>,
    k: nat,
)
    requires
        is_frontier(levels, seen, f, k),
        forall|id: T| g.contains(id) <==> f.contains(id),
    ensures
        is_frontier(levels, seen, g, k),
{
    assert forall|i: int| 0 <= i < g.len() implies (#[trigger] g[i]).value() < seen.len()
        && seen[g[i].value() as int] && levels[g[i].value() as int].value() == k by {
        assert(g.contains(g[i]));
        assert(f.contains(g[i]));
        let a = choose|a: int| 0 <= a < f.len() && f[a] == g[i];
        assert(f[a].value() < seen.len());
    }
    assert forall|v: int|
        0 <= v < seen.len() && #[trigger] seen[v] && levels[v].value() == k implies exists|i: int|
        0 <= i < g.len() && (#[trigger] g[i]).value() == v by {
        let a = choose|a: int| 0 <= a < f.len() && (#[trigger] f[a]).value() == v;
        assert(f.contains(f[a]));
        assert(g.contains(f[a]));
        let i = choose|i: int| 0 <= i < g.len() && g[i] == f[a];
        assert(g[i].value() == v);
    }
}

/// When a level turns out empty, no unseen vertex is reached at all.
proof fn lemma_unseen_never_reached<T: NodeID>(
    adj: Seq<Seq<nat>>,
    s: nat,
    levels: Seq<T>,
    seen: Seq<bool>,
    k: nat,
    v: nat,
    j: nat,
)
    requires
        search_state(adj, s, levels, seen, k, k),
        is_frontier(levels, seen, Seq::<T>::empty(), k),
        v < adj.len(),
        !seen[v as int],
        rows_in_range(adj),
    ensures
        !reaches_in(adj, s, v, j),
    decreases j,
{
    assert(beyond(adj, s, v, k));
    if j > k && reaches_in(adj, s, v, j) {
        let u = choose|u: nat|
            reaches_in(adj, s, u, (j - 1) as nat) && #[trigger] has_arc(adj, u, v);
        if !seen[u as int] {
            lemma_unseen_never_reached(adj, s, levels, seen, k, u, (j - 1) as nat);
        }
        let d = levels[u as int].value();
        assert(is_least_hops(adj, s, u, d));
        if d == k {
            let a = choose|a: int|
                0 <= a < Seq::<T>::empty().len() && (#[trigger] Seq::<T>::empty()[a]).value() == u;
        }
        lemma_reaches_step(adj, s, u, v, d);
    }
}

/// A search that has run out of frontier has found the level of every vertex.
proof fn lemma_search_done<T: NodeID>(
    adj: Seq<Seq<nat>>,
    s: nat,
    levels: Seq<T>,
    seen: Seq<bool>,
    k: nat,
)
    requires
        search_state(adj, s, levels, seen, k, k),
        is_frontier(levels, seen, Seq::<T>::empty(), k),
        rows_in_range(adj),
    ensures
        is_level_array(adj, s, levels),
        forall|v: int|
            0 <= v < adj.len() && reachable(adj, s, v as nat) ==> (#[trigger] levels[v]).value()
                < adj.len(),
{
    assert forall|v: int| 0 <= v < adj.len() implies is_level(
        adj,
        s,
        v as nat,
        #[trigger] levels[v],
    ) && (reachable(adj, s, v as nat) ==> levels[v].value() < adj.len()) by {
        if seen[v] {
            lemma_least_hops_is_distance(adj, s, v as nat, levels[v].value());
        } else {
            let w = v as nat;
            assert forall|j: nat| !#[trigger] reaches_in(adj, s, w, j) by {
                lemma_unseen_never_reached(adj, s, levels, seen, k, w, j);
            }
            lemma_never_reached_is_unreachable(adj, s, w);
        }
    }
}

/// The source of a search stands at level 0.
pub proof fn lemma_source_level<T: NodeID>(adj: Seq<Seq<nat>>, s: nat, levels: Seq<T>)
    requires
        s < adj.len(),
        is_level_array(adj, s, levels),
    ensures
        levels[s as int].value() == 0,
{
    let p = seq![s];
    assert(connects(adj, p, s, s));
    assert(is_level(adj, s, s, levels[s as int]));
}

/// A vertex that is reached, and is not the source, has an in-neighbor one
/// level above it.
pub proof fn lemma_level_parent<T: NodeID>(adj: Seq<Seq<nat>>, s: nat, levels: Seq<T>, v: nat)
    requires
        is_level_array(adj, s, levels),
        v < adj.len(),
        reachable(adj, s, v),
        levels[v as int].value() > 0,
    ensures
        has_parent(adj, s, levels, v),
{
    let d = levels[v as int].value();
    assert(is_level(adj, s, v, levels[v as int]));
    let p = choose|p: Seq<nat>| #[trigger] connects(adj, p, s, v) && p.len() == d + 1;
    let q = p.drop_last();
    let u = q.last();
    assert(has_arc(adj, p[d - 1], p[d - 1 + 1]));
    assert forall|i: int| 0 <= i < q.len() - 1 implies has_arc(adj, #[trigger] q[i], q[i + 1]) by {
        assert(has_arc(adj, p[i], p[i + 1]));
    }
    assert(connects(adj, q, s, u));
    assert(is_level(adj, s, u, levels[u as int]));
    let e = levels[u as int].value();
    let r = choose|r: Seq<nat>| #[trigger] connects(adj, r, s, u) && r.len() == e + 1;
    let t = r.push(v);
    assert forall|i: int| 0 <= i < t.len() - 1 implies has_arc(adj, #[trigger] t[i], t[i + 1]) by {
        if i < r.len() - 1 {
            assert(has_arc(adj, r[i], r[i + 1]));
        }
    }
    assert(connects(adj, t, s, v));
    assert(has_arc(adj, u, v));
}

impl<T: NodeID> SimpleGraph<T> {
    /// Breadth-first search from `src`: the level of every vertex.
    ///
    /// The result has one entry for each vertex. The entry of a vertex that
    /// can be reached from `src` is the number of arcs of a shortest walk
    /// from `src` to it; the entry of a vertex that cannot be reached is the
    /// largest identifier. A source that is not a vertex is refused.
    ///
    /// The source stands at level 0, and every other vertex that is reached
    /// has an in-neighbor one level above it. A level is below the number of
    /// vertices: in a graph whose vertex count fits the identifier width the
    /// largest identifier marks the vertices that cannot be reached, and no
    /// others.
    pub fn bfs(&self, src: T) -> (r: Result<Vec<T>, GraphError>)
        ensures
            match r {
                Ok(levels) => {
                    &&& src.value() < self@.len()
                    &&& is_level_array(self@, src.value(), levels@)
                    &&& levels@[src.value() as int].value() == 0
                    &&& forall|v: int|
                        0 <= v < self@.len() && reachable(self@, src.value(), v as nat)
                            ==> (#[trigger] levels@[v]).value() < self@.len()
                    &&& forall|v: int|
                        0 <= v < self@.len() && reachable(self@, src.value(), v as nat)
                            && (#[trigger] levels@[v]).value() > 0 ==> has_parent(
                            self@,
                            src.value(),
                            levels@,
                            v as nat,
                        )
                },
                Err(e) => e == GraphError::InvalidSource && src.value() >= self@.len(),
            },
    {
        let store = self.forward();
        let n = store.dimension();
        let s = match src.to_usize() {
            Some(s) => s,
            None => {
                return Err(GraphError::InvalidSource);
            },
        };
        if s >= n {
            return Err(GraphError::InvalidSource);
        }
        let ghost adj = store@;
        let ghost sv = src.value();
        proof {
            use_type_invariant(store);
            store.lemma_rows_in_range();
        }
        let hint = store.frontier_hint();
        let mut visited = repeat(false, n);
        let mut levels: Vec<T> = filled(T::max_value(), n);
        let mut cur: Vec<T> = Vec::with_capacity(hint);
        let mut next: Vec<T> = Vec::with_capacity(hint);
        let zero = T::zero();
        proof {
            lemma_search_start(adj, src, zero, levels@, bits(visited));
            lemma_unseen_fresh(n as nat);
            lemma_unseen_mark(bits(visited), s as int);
        }
        put_bit(&mut visited, s, true);
        cur.push(src);
        levels[s] = zero;
        let mut depth: usize = 1;
        assert(cur@ =~= seq![src]);
        while cur.len() > 0
            invariant
                n == adj.len(),
                store@ == adj,
                rows_in_range(adj),
                n <= MAX_VERTICES,
                n <= T::limit() + 1,
                1 <= depth <= n + 1,
                search_state(
                    adj,
                    sv,
                    levels@,
                    bits(visited),
                    (depth - 1) as nat,
                    (depth - 1) as nat,
                ),
                is_frontier(levels@, bits(visited), cur@, (depth - 1) as nat),
                next@.len() == 0,
                cur@.len() > 0 ==> depth + unseen_count(bits(visited)) <= n,
            decreases unseen_count(bits(visited)), cur@.len(),
        {
            let ghost k = (depth - 1) as nat;
            let ghost unseen_before = unseen_count(bits(visited));
            let level = T::from_usize(depth);
            let mut i: usize = 0;
            while i < cur.len()
                invariant
                    n == adj.len(),
                    store@ == adj,
                    rows_in_range(adj),
                    n <= T::limit() + 1,
                    k + 1 == depth,
                    depth + unseen_before <= n,
                    level is Some <==> depth <= T::limit(),
                    level matches Some(l) ==> l.value() == depth,
                    0 <= i <= cur@.len(),
                    search_state(adj, sv, levels@, bits(visited), k + 1, k),
                    is_frontier(levels@, bits(visited), cur@, k),
                    is_frontier(levels@, bits(visited), next@, k + 1),
                    expanded(adj, bits(visited), cur@, i as int, 0),
                    unseen_count(bits(visited)) + next@.len() == unseen_before,
                decreases cur@.len() - i,
            {
                let v = cur[i];
                let vi = v.to_usize().unwrap();
                let row = store.row(vi);
                let mut j: usize = 0;
                while j < row.len()
                    invariant
                        n == adj.len(),
                        rows_in_range(adj),
                        n <= T::limit() + 1,
                        k + 1 == depth,
                        depth + unseen_before <= n,
                        level is Some <==> depth <= T::limit(),
                        level matches Some(l) ==> l.value() == depth,
                        0 <= i < cur@.len(),
                        cur@[i as int].value() == vi,
                        vi < n,
                        values(row@) == adj[vi as int],
                        0 <= j <= row@.len(),
                        search_state(adj, sv, levels@, bits(visited), k + 1, k),
                        is_frontier(levels@, bits(visited), cur@, k),
                        is_frontier(levels@, bits(visited), next@, k + 1),
                        expanded(adj, bits(visited), cur@, i as int, j as int),
                        unseen_count(bits(visited)) + next@.len() == unseen_before,
                    decreases row@.len() - j,
                {
                    let u = row[j];
                    assert(values(row@)[j as int] == u.value());
                    assert(adj[vi as int][j as int] < adj.len());
                    let ui = u.to_usize().unwrap();
                    if !bit_at(&visited, ui) {
                        proof {
                            lemma_unseen_mark(bits(visited), ui as int);
                            assert(depth < n);
                            lemma_discover(
                                adj,
                                sv,
                                levels@,
                                bits(visited),
                                cur@,
                                next@,
                                k,
                                i as int,
                                j as int,
                                u,
                                level.unwrap(),
                            );
                        }
                        put_bit(&mut visited, ui, true);
                        levels[ui] = level.unwrap();
                        next.push(u);
                    }
                    j = j + 1;
                }
                proof {
                    lemma_row_done(adj, bits(visited), cur@, i as int);
                }
                i = i + 1;
            }
            proof {
                lemma_level_complete(adj, sv, levels@, bits(visited), cur@, k);
            }
            let ghost found = next@;
            depth = depth + 1;
            cur.clear();
            core::mem::swap(&mut cur, &mut next);
            sort_frontier(&mut cur);
            proof {
                lemma_frontier_members(levels@, bits(visited), found, cur@, k + 1);
            }
        }
        proof {
            assert(cur@ =~= Seq::<T>::empty());
            lemma_search_done(adj, sv, levels@, bits(visited), (depth - 1) as nat);
            lemma_source_level(adj, sv, levels@);
            assert forall|v: int|
                0 <= v < adj.len() && reachable(adj, sv, v as nat)
                    && (#[trigger] levels@[v]).value() > 0 implies has_parent(
                adj,
                sv,
                levels@,
                v as nat,
            ) by {
                lemma_level_parent(adj, sv, levels@, v as nat);
            }
        }
        Ok(levels)
    }
}

} // verus!
