//! Edge lists and what an adjacency store derives from one.
//!
//! An edge list is a sequence of arcs `(src, dst)`, in the order in which they
//! were read; an arc may occur more than once and may join a vertex to
//! itself. Vertices are the numbers below `vertex_count`: every number up to
//! the largest one that occurs in the list is a vertex, whether or not an arc
//! touches it.

use crate::traits::NodeID;
use vstd::prelude::*;

verus! {

/// The numbers that a sequence of identifiers stands for.
pub open spec fn values<T: NodeID>(ids: Seq<T>) -> Seq<nat> {
    ids.map_values(|id: T| id.value())
}

/// The arcs that a sequence of identifier pairs stands for.
pub open spec fn arcs<T: NodeID>(edges: Seq<(T, T)>) -> Seq<(nat, nat)> {
    edges.map_values(|e: (T, T)| (e.0.value(), e.1.value()))
}

/// The edge list with the two ends of every arc swapped.
pub open spec fn reversed(arcs: Seq<(nat, nat)>) -> Seq<(nat, nat)> {
    arcs.map_values(|e: (nat, nat)| (e.1, e.0))
}

/// The larger of two numbers.
pub open spec fn larger(a: nat, b: nat) -> nat {
    if a >= b {
        a
    } else {
        b
    }
}

/// One more than the largest vertex that occurs in the list, and 0 for the
/// empty list.
pub open spec fn vertex_count(arcs: Seq<(nat, nat)>) -> nat
    decreases arcs.len(),
{
    if arcs.len() == 0 {
        0
    } else {
        larger(
            vertex_count(arcs.drop_last()),
            larger(arcs.last().0 + 1, arcs.last().1 + 1),
        )
    }
}

/// The heads of the arcs that leave `v`, in the order of the list.
pub open spec fn successors(arcs: Seq<(nat, nat)>, v: nat) -> Seq<nat>
    decreases arcs.len(),
{
    if arcs.len() == 0 {
        Seq::empty()
    } else if arcs.last().0 == v {
        successors(arcs.drop_last(), v).push(arcs.last().1)
    } else {
        successors(arcs.drop_last(), v)
    }
}

/// The rows of the store built from the list: one row for each vertex, which
/// holds its successors.
pub open spec fn adjacency(arcs: Seq<(nat, nat)>) -> Seq<Seq<nat>> {
    Seq::new(vertex_count(arcs), |v: int| successors(arcs, v as nat))
}

/// The number of entries of the first `n` rows together.
pub open spec fn entries_before(rows: Seq<Seq<nat>>, n: nat) -> nat
    decreases n,
{
    if n == 0 || n > rows.len() {
        0
    } else {
        entries_before(rows, (n - 1) as nat) + rows[n - 1].len()
    }
}

/// The number of entries of all rows together.
pub open spec fn entry_count(rows: Seq<Seq<nat>>) -> nat {
    entries_before(rows, rows.len())
}

/// Every vertex that occurs in the list is below the vertex count.
pub proof fn lemma_vertex_count_bounds(arcs: Seq<(nat, nat)>, i: int)
    requires
        0 <= i < arcs.len(),
    ensures
        arcs[i].0 < vertex_count(arcs),
        arcs[i].1 < vertex_count(arcs),
    decreases arcs.len(),
{
    if i < arcs.len() - 1 {
        lemma_vertex_count_bounds(arcs.drop_last(), i);
    }
}

/// The vertex count of a list that is not empty is one more than a vertex
/// that occurs in it.
pub proof fn lemma_vertex_count_attained(arcs: Seq<(nat, nat)>) -> (i: int)
    requires
        arcs.len() > 0,
    ensures
        0 <= i < arcs.len(),
        vertex_count(arcs) == arcs[i].0 + 1 || vertex_count(arcs) == arcs[i].1 + 1,
    decreases arcs.len(),
{
    let rest = arcs.drop_last();
    let here = larger(arcs.last().0 + 1, arcs.last().1 + 1);
    if vertex_count(rest) > here {
        lemma_vertex_count_attained(rest)
    } else {
        arcs.len() - 1
    }
}

/// A number at or above every vertex of the list is at or above its count
/// less one; a list all of whose vertices are below `n` has at most `n`
/// vertices.
pub proof fn lemma_vertex_count_least(arcs: Seq<(nat, nat)>, n: nat)
    requires
        forall|i: int| 0 <= i < arcs.len() ==> (#[trigger] arcs[i]).0 < n && arcs[i].1 < n,
    ensures
        vertex_count(arcs) <= n,
    decreases arcs.len(),
{
    if arcs.len() > 0 {
        let rest = arcs.drop_last();
        assert forall|i: int| 0 <= i < rest.len() implies (#[trigger] rest[i]).0 < n && rest[i].1
            < n by {
            assert(rest[i] == arcs[i]);
        }
        lemma_vertex_count_least(rest, n);
        assert(arcs.last() == arcs[arcs.len() - 1]);
    }
}

/// Swapping the ends of every arc leaves the vertex count as it is.
pub proof fn lemma_reversed_vertex_count(arcs: Seq<(nat, nat)>)
    ensures
        vertex_count(reversed(arcs)) == vertex_count(arcs),
    decreases arcs.len(),
{
    if arcs.len() > 0 {
        lemma_reversed_vertex_count(arcs.drop_last());
        assert(reversed(arcs).drop_last() =~= reversed(arcs.drop_last()));
    }
}

/// `v` is a successor of `u` exactly if the list holds the arc from `u` to `v`.
pub proof fn lemma_successors_contains(arcs: Seq<(nat, nat)>, u: nat, v: nat)
    ensures
        successors(arcs, u).contains(v) <==> arcs.contains((u, v)),
    decreases arcs.len(),
{
    if arcs.len() > 0 {
        let rest = arcs.drop_last();
        let last = arcs.last();
        lemma_successors_contains(rest, u, v);
        if arcs.contains((u, v)) {
            let i = choose|i: int| 0 <= i < arcs.len() && arcs[i] == (u, v);
            if i < arcs.len() - 1 {
                assert(rest[i] == (u, v));
                assert(rest.contains((u, v)));
                let j = choose|j: int|
                    0 <= j < successors(rest, u).len() && successors(rest, u)[j] == v;
                assert(successors(arcs, u)[j] == v);
            } else {
                let row = successors(arcs, u);
                assert(row[row.len() - 1] == v);
            }
        }
        if successors(arcs, u).contains(v) {
            let row = successors(arcs, u);
            let j = choose|j: int| 0 <= j < row.len() && row[j] == v;
            if last.0 == u && j == row.len() - 1 {
                assert(arcs[arcs.len() - 1] == (u, v));
            } else {
                assert(successors(rest, u)[j] == v);
                assert(successors(rest, u).contains(v));
                let i = choose|i: int| 0 <= i < rest.len() && rest[i] == (u, v);
                assert(arcs[i] == (u, v));
            }
        }
    }
}

/// The rows of the reversed list are the rows of the list read backwards:
/// `u` follows `v` in the one exactly if `v` follows `u` in the other.
pub proof fn lemma_reversed_successors(arcs: Seq<(nat, nat)>, u: nat, v: nat)
    ensures
        successors(reversed(arcs), v).contains(u) <==> successors(arcs, u).contains(v),
{
    let back = reversed(arcs);
    lemma_successors_contains(arcs, u, v);
    lemma_successors_contains(back, v, u);
    if arcs.contains((u, v)) {
        let i = choose|i: int| 0 <= i < arcs.len() && arcs[i] == (u, v);
        assert(back[i] == (v, u));
    }
    if back.contains((v, u)) {
        let i = choose|i: int| 0 <= i < back.len() && back[i] == (v, u);
        assert(arcs[i] == (u, v));
    }
}

/// Every successor is a vertex.
pub proof fn lemma_successors_bounded(arcs: Seq<(nat, nat)>, u: nat, j: int)
    requires
        0 <= j < successors(arcs, u).len(),
    ensures
        successors(arcs, u)[j] < vertex_count(arcs),
    decreases arcs.len(),
{
    let rest = arcs.drop_last();
    if arcs.last().0 == u && j == successors(arcs, u).len() - 1 {
    } else {
        lemma_successors_bounded(rest, u, j);
    }
}

/// A vertex at or past the vertex count has no successors.
pub proof fn lemma_successors_of_stranger(arcs: Seq<(nat, nat)>, u: nat)
    requires
        u >= vertex_count(arcs),
    ensures
        successors(arcs, u).len() == 0,
    decreases arcs.len(),
{
    if arcs.len() > 0 {
        lemma_successors_of_stranger(arcs.drop_last(), u);
    }
}

/// The number of arcs that leave a vertex below `v`: where the row of `v`
/// starts in a store that holds the rows one after the other.
pub open spec fn sources_below(arcs: Seq<(nat, nat)>, v: nat) -> nat
    decreases arcs.len(),
{
    if arcs.len() == 0 {
        0
    } else {
        sources_below(arcs.drop_last(), v) + if arcs.last().0 < v {
            1nat
        } else {
            0nat
        }
    }
}

/// The row of `v` ends where the row of `v + 1` starts.
pub proof fn lemma_sources_below_step(arcs: Seq<(nat, nat)>, v: nat)
    ensures
        sources_below(arcs, v + 1) == sources_below(arcs, v) + successors(arcs, v).len(),
    decreases arcs.len(),
{
    if arcs.len() > 0 {
        lemma_sources_below_step(arcs.drop_last(), v);
    }
}

/// Rows start in the order of their vertices.
pub proof fn lemma_sources_below_monotone(arcs: Seq<(nat, nat)>, v: nat, w: nat)
    requires
        v <= w,
    ensures
        sources_below(arcs, v) <= sources_below(arcs, w),
    decreases arcs.len(),
{
    if arcs.len() > 0 {
        lemma_sources_below_monotone(arcs.drop_last(), v, w);
    }
}

/// No arc leaves a vertex below 0, and every arc leaves a vertex below the
/// vertex count.
pub proof fn lemma_sources_below_ends(arcs: Seq<(nat, nat)>, n: nat)
    requires
        vertex_count(arcs) <= n,
    ensures
        sources_below(arcs, 0) == 0,
        sources_below(arcs, n) == arcs.len(),
    decreases arcs.len(),
{
    if arcs.len() > 0 {
        lemma_sources_below_ends(arcs.drop_last(), n);
    }
}

/// The rows of a list hold as many entries as the list has arcs.
pub proof fn lemma_entry_count(arcs: Seq<(nat, nat)>)
    ensures
        entry_count(adjacency(arcs)) == arcs.len(),
{
    lemma_entries_before(arcs, vertex_count(arcs));
    lemma_sources_below_ends(arcs, vertex_count(arcs));
}

/// The first `n` rows of a list hold as many entries as arcs leave the
/// vertices below `n`.
pub proof fn lemma_entries_before(arcs: Seq<(nat, nat)>, n: nat)
    requires
        n <= vertex_count(arcs),
    ensures
        entries_before(adjacency(arcs), n) == sources_below(arcs, n),
    decreases n,
{
    if n == 0 {
        lemma_sources_below_ends(arcs, vertex_count(arcs));
    } else {
        lemma_entries_before(arcs, (n - 1) as nat);
        lemma_sources_below_step(arcs, (n - 1) as nat);
    }
}

/// Reading one more arc of a list adds its head to the row of its tail and
/// leaves every other row as it is.
pub proof fn lemma_successors_take(arcs: Seq<(nat, nat)>, i: int, v: nat)
    requires
        0 <= i < arcs.len(),
    ensures
        successors(arcs.take(i + 1), v) == if arcs[i].0 == v {
            successors(arcs.take(i), v).push(arcs[i].1)
        } else {
            successors(arcs.take(i), v)
        },
{
    assert(arcs.take(i + 1).drop_last() =~= arcs.take(i));
}

/// The row of a vertex after `i` arcs of a list is the start of its row after
/// all of them.
pub proof fn lemma_successors_prefix(arcs: Seq<(nat, nat)>, i: int, v: nat)
    requires
        0 <= i <= arcs.len(),
    ensures
        successors(arcs.take(i), v).len() <= successors(arcs, v).len(),
        successors(arcs.take(i), v) == successors(arcs, v).take(
            successors(arcs.take(i), v).len() as int,
        ),
    decreases arcs.len() - i,
{
    if i == arcs.len() {
        assert(arcs.take(i) =~= arcs);
        assert(successors(arcs, v) =~= successors(arcs, v).take(successors(arcs, v).len() as int));
    } else {
        lemma_successors_prefix(arcs, i + 1, v);
        lemma_successors_take(arcs, i, v);
        let a = successors(arcs.take(i), v);
        let b = successors(arcs.take(i + 1), v);
        let full = successors(arcs, v);
        assert(a =~= b.take(a.len() as int));
        assert(a =~= full.take(a.len() as int));
    }
}

/// The vertex count after one more arc of a list.
pub proof fn lemma_vertex_count_take(arcs: Seq<(nat, nat)>, i: int)
    requires
        0 <= i < arcs.len(),
    ensures
        vertex_count(arcs.take(i + 1)) == larger(
            vertex_count(arcs.take(i)),
            larger(arcs[i].0 + 1, arcs[i].1 + 1),
        ),
{
    assert(arcs.take(i + 1).drop_last() =~= arcs.take(i));
}

/// A row has at most as many entries as the list has arcs.
pub proof fn lemma_successors_len(arcs: Seq<(nat, nat)>, v: nat)
    ensures
        successors(arcs, v).len() <= arcs.len(),
    decreases arcs.len(),
{
    if arcs.len() > 0 {
        lemma_successors_len(arcs.drop_last(), v);
    }
}

/// The list that a sequence of identifier pairs stands for has no vertex
/// above the limit of the identifier width.
pub proof fn lemma_arcs_vertex_count<T: NodeID>(edges: Seq<(T, T)>)
    ensures
        vertex_count(arcs(edges)) <= T::limit() + 1,
{
    let list = arcs(edges);
    assert forall|i: int| 0 <= i < list.len() implies (#[trigger] list[i]).0 < T::limit() + 1
        && list[i].1 < T::limit() + 1 by {
        edges[i].0.lemma_value_bounded();
        edges[i].1.lemma_value_bounded();
    }
    lemma_vertex_count_least(list, T::limit() + 1);
}

} // verus!
