//! The adjacency store: the out-neighbors of every vertex, each row a
//! contiguous run of one flat buffer.
//!
//! A store is built once from an edge list and never changed. `offsets` has
//! one entry more than there are vertices; row `v` is the run of `targets`
//! from `offsets[v]` up to `offsets[v + 1]`.

use crate::edges::{
    adjacency, arcs, entries_before, entry_count, lemma_arcs_vertex_count,
    lemma_sources_below_ends, lemma_sources_below_monotone, lemma_sources_below_step,
    lemma_successors_bounded, lemma_successors_len, lemma_successors_prefix,
    lemma_successors_take, lemma_vertex_count_bounds, lemma_vertex_count_take, sources_below,
    successors, values, vertex_count,
};
use crate::error::GraphError;
use crate::paths::rows_in_range;
use crate::traits::NodeID;
use vstd::prelude::*;

verus! {

/// The most vertices a store holds. No store that fits in memory has more:
/// it keeps a machine word for each vertex. A traversal keeps one bit for
/// each, in a bit vector that holds no more bits than this.
pub const MAX_VERTICES: usize = usize::MAX / 8;

/// Per-vertex neighbor rows, built once from an edge list.
#[derive(Debug)]
pub struct AdjacencyStore<T: NodeID> {
    offsets: Vec<usize>,
    targets: Vec<T>,
}

/// Row `v` of a store with these buffers.
spec fn row_of<T: NodeID>(offsets: Seq<usize>, targets: Seq<T>, v: int) -> Seq<nat> {
    values(targets.subrange(offsets[v] as int, offsets[v + 1] as int))
}

/// The buffers describe a store: the rows tile `targets` in order, and every
/// entry of a row is a vertex.
spec fn well_formed<T: NodeID>(offsets: Seq<usize>, targets: Seq<T>) -> bool {
    let dim = offsets.len() - 1;
    &&& offsets.len() >= 1
    &&& dim <= MAX_VERTICES
    &&& dim <= T::limit() + 1
    &&& offsets[0] == 0
    &&& offsets[dim] == targets.len()
    &&& forall|v: int, w: int| 0 <= v <= w <= dim ==> offsets[v] <= offsets[w]
    &&& forall|v: int, j: int|
        0 <= v < dim && 0 <= j < row_of(offsets, targets, v).len() ==> #[trigger] row_of(
            offsets,
            targets,
            v,
        )[j] < dim
}

impl<T: NodeID> View for AdjacencyStore<T> {
    type V = Seq<Seq<nat>>;

    /// The rows of the store: row `v` lists the out-neighbors of vertex `v`
    /// in the order in which the store holds them.
    closed spec fn view(&self) -> Seq<Seq<nat>> {
        Seq::new((self.offsets@.len() - 1) as nat, |v: int| row_of(self.offsets@, self.targets@, v))
    }
}

/// A vector of `n` entries, each of them `x`.
pub(crate) fn filled<A: Copy>(x: A, n: usize) -> (v: Vec<A>)
    ensures
        v@ == Seq::new(n as nat, |i: int| x),
{
    let mut v: Vec<A> = Vec::with_capacity(n);
    let mut i: usize = 0;
    while i < n
        invariant
            i <= n,
            v@ == Seq::new(i as nat, |k: int| x),
        decreases n - i,
    {
        v.push(x);
        i = i + 1;
        assert(v@ =~= Seq::new(i as nat, |k: int| x));
    }
    v
}

/// A vector with the entries of `src`.
pub(crate) fn copied<A: Copy>(src: &Vec<A>) -> (v: Vec<A>)
    ensures
        v@ == src@,
{
    let n = src.len();
    let mut v: Vec<A> = Vec::with_capacity(n);
    let mut i: usize = 0;
    while i < n
        invariant
            i <= n,
            n == src@.len(),
            v@ == src@.take(i as int),
        decreases n - i,
    {
        v.push(src[i]);
        i = i + 1;
        assert(v@ =~= src@.take(i as int));
    }
    assert(src@.take(n as int) =~= src@);
    v
}

impl<T: NodeID> Clone for AdjacencyStore<T> {
    /// A store with the same rows.
    fn clone(&self) -> (other: Self)
        ensures
            other@ == self@,
    {
        proof {
            use_type_invariant(self);
        }
        AdjacencyStore { offsets: copied(&self.offsets), targets: copied(&self.targets) }
    }
}

/// The index of the vertex `id` in a store, if a store can hold it.
fn slot<T: NodeID>(id: T) -> (r: Option<usize>)
    ensures
        r is Some <==> id.value() < MAX_VERTICES,
        r matches Some(x) ==> x == id.value(),
{
    match id.to_usize() {
        Some(x) => {
            if x < MAX_VERTICES {
                Some(x)
            } else {
                None
            }
        },
        None => None,
    }
}

/// Buffers in which every row starts where the list says and holds the
/// successors that the list says are the buffers of the store of that list.
proof fn lemma_built<T: NodeID>(list: Seq<(nat, nat)>, offsets: Seq<usize>, targets: Seq<T>)
    requires
        vertex_count(list) <= MAX_VERTICES,
        vertex_count(list) <= T::limit() + 1,
        offsets.len() == vertex_count(list) + 1,
        targets.len() == list.len(),
        forall|w: int|
            0 <= w <= vertex_count(list) ==> #[trigger] offsets[w] == sources_below(list, w as nat),
        forall|v: nat, j: int|
            v < vertex_count(list) && 0 <= j < successors(list, v).len() ==> targets[sources_below(
                list,
                v,
            ) + j].value() == #[trigger] successors(list, v)[j],
    ensures
        well_formed(offsets, targets),
        Seq::new((offsets.len() - 1) as nat, |v: int| row_of(offsets, targets, v)) == adjacency(
            list,
        ),
{
    let dim = vertex_count(list);
    lemma_sources_below_ends(list, dim);
    assert forall|v: int, w: int| 0 <= v <= w <= dim implies offsets[v] <= offsets[w] by {
        lemma_sources_below_monotone(list, v as nat, w as nat);
    }
    assert forall|v: int| 0 <= v < dim implies #[trigger] row_of(offsets, targets, v) == successors(
        list,
        v as nat,
    ) by {
        lemma_sources_below_step(list, v as nat);
        lemma_sources_below_monotone(list, (v + 1) as nat, dim);
        let row = row_of(offsets, targets, v);
        let want = successors(list, v as nat);
        assert(offsets[v] == sources_below(list, v as nat));
        assert(offsets[v + 1] == sources_below(list, (v + 1) as nat));
        assert(offsets[dim as int] == list.len());
        assert(row.len() == want.len());
        assert forall|j: int| 0 <= j < row.len() implies row[j] == want[j] by {
            assert(targets[sources_below(list, v as nat) + j].value() == want[j]);
        }
        assert(row =~= want);
    }
    assert forall|v: int, j: int|
        0 <= v < dim && 0 <= j < row_of(offsets, targets, v).len() implies #[trigger] row_of(
        offsets,
        targets,
        v,
    )[j] < dim by {
        lemma_successors_bounded(list, v as nat, j);
    }
    assert(Seq::new((offsets.len() - 1) as nat, |v: int| row_of(offsets, targets, v)) =~= adjacency(
        list,
    ));
}

impl<T: NodeID> AdjacencyStore<T> {
    /// The store of an edge list: row `v` holds the heads of the arcs that
    /// leave `v`, in the order of the list, and there is a row for every
    /// number up to the largest vertex of the list.
    ///
    /// A list with a vertex that no store can hold is refused.
    pub fn from_edges(edges: &Vec<(T, T)>) -> (r: Result<Self, GraphError>)
        ensures
            match r {
                Ok(store) => vertex_count(arcs(edges@)) <= MAX_VERTICES && store@ == adjacency(
                    arcs(edges@),
                ),
                Err(e) => e == GraphError::VertexOutOfRange && vertex_count(arcs(edges@))
                    > MAX_VERTICES,
            },
    {
        let ghost list = arcs(edges@);
        let m = edges.len();
        // how many vertices there are
        let mut dim: usize = 0;
        let mut i: usize = 0;
        while i < m
            invariant
                m == edges@.len(),
                list == arcs(edges@),
                i <= m,
                dim == vertex_count(list.take(i as int)),
                dim <= MAX_VERTICES,
            decreases m - i,
        {
            let a = edges[i].0;
            let b = edges[i].1;
            proof {
                lemma_vertex_count_take(list, i as int);
                lemma_vertex_count_bounds(list, i as int);
            }
            match slot(a) {
                Some(x) => {
                    if x >= dim {
                        dim = x + 1;
                    }
                },
                None => {
                    return Err(GraphError::VertexOutOfRange);
                },
            }
            match slot(b) {
                Some(y) => {
                    if y >= dim {
                        dim = y + 1;
                    }
                },
                None => {
                    return Err(GraphError::VertexOutOfRange);
                },
            }
            i = i + 1;
        }
        assert(list.take(m as int) =~= list);
        // how many arcs leave each vertex
        let mut offsets: Vec<usize> = filled(0usize, dim + 1);
        i = 0;
        while i < m
            invariant
                m == edges@.len(),
                list == arcs(edges@),
                i <= m,
                dim == vertex_count(list),
                dim <= MAX_VERTICES,
                offsets@.len() == dim + 1,
                offsets@[0] == 0,
                forall|w: int|
                    1 <= w <= dim ==> #[trigger] offsets@[w] == successors(
                        list.take(i as int),
                        (w - 1) as nat,
                    ).len(),
            decreases m - i,
        {
            let a = edges[i].0;
            proof {
                lemma_vertex_count_bounds(list, i as int);
            }
            let x = a.to_usize().unwrap();
            let ghost counts = offsets@;
            proof {
                lemma_successors_len(list.take(i as int), x as nat);
            }
            offsets[x + 1] = offsets[x + 1] + 1;
            proof {
                assert forall|w: int| 1 <= w <= dim implies #[trigger] offsets@[w] == successors(
                    list.take(i + 1),
                    (w - 1) as nat,
                ).len() by {
                    lemma_successors_take(list, i as int, (w - 1) as nat);
                    assert(counts[w] == successors(list.take(i as int), (w - 1) as nat).len());
                }
            }
            i = i + 1;
        }
        assert(list.take(m as int) =~= list);
        // where each row starts
        let mut acc: usize = 0;
        let mut v: usize = 0;
        proof {
            lemma_sources_below_ends(list, dim as nat);
        }
        while v < dim
            invariant
                m == list.len(),
                dim == vertex_count(list),
                offsets@.len() == dim + 1,
                offsets@[0] == 0,
                v <= dim,
                acc == sources_below(list, v as nat),
                forall|w: int|
                    1 <= w <= v ==> #[trigger] offsets@[w] == sources_below(list, (w - 1) as nat),
                forall|w: int|
                    v < w <= dim ==> #[trigger] offsets@[w] == successors(
                        list,
                        (w - 1) as nat,
                    ).len(),
            decreases dim - v,
        {
            let c = offsets[v + 1];
            proof {
                lemma_sources_below_step(list, v as nat);
                lemma_sources_below_monotone(list, (v + 1) as nat, dim as nat);
                lemma_sources_below_ends(list, dim as nat);
            }
            offsets[v + 1] = acc;
            acc = acc + c;
            v = v + 1;
        }
        // the rows, each filled from its start in the order of the list
        let mut targets: Vec<T> = filled(T::zero(), m);
        i = 0;
        assert(list.take(0) =~= Seq::<(nat, nat)>::empty());
        while i < m
            invariant
                m == edges@.len(),
                list == arcs(edges@),
                i <= m,
                dim == vertex_count(list),
                dim <= MAX_VERTICES,
                targets@.len() == m,
                offsets@.len() == dim + 1,
                offsets@[0] == 0,
                forall|w: int|
                    1 <= w <= dim ==> #[trigger] offsets@[w] == sources_below(list, (w - 1) as nat)
                        + successors(list.take(i as int), (w - 1) as nat).len(),
                forall|v: nat, j: int|
                    v < dim && 0 <= j < successors(list.take(i as int), v).len()
                        ==> targets@[sources_below(list, v) + j].value() == #[trigger] successors(
                        list.take(i as int),
                        v,
                    )[j],
            decreases m - i,
        {
            let a = edges[i].0;
            let b = edges[i].1;
            proof {
                lemma_vertex_count_bounds(list, i as int);
            }
            let x = a.to_usize().unwrap();
            let p = offsets[x + 1];
            let ghost before = targets@;
            proof {
                lemma_successors_take(list, i as int, x as nat);
                lemma_successors_prefix(list, i + 1, x as nat);
                lemma_sources_below_step(list, x as nat);
                lemma_sources_below_monotone(list, (x + 1) as nat, dim as nat);
                lemma_sources_below_ends(list, dim as nat);
                assert(offsets@[x + 1] == sources_below(list, x as nat) + successors(
                    list.take(i as int),
                    x as nat,
                ).len());
                assert(p < m);
            }
            targets[p] = b;
            offsets[x + 1] = p + 1;
            proof {
                assert forall|w: int| 1 <= w <= dim implies #[trigger] offsets@[w] == sources_below(
                    list,
                    (w - 1) as nat,
                ) + successors(list.take(i + 1), (w - 1) as nat).len() by {
                    lemma_successors_take(list, i as int, (w - 1) as nat);
                }
                assert forall|v: nat, j: int|
                    v < dim && 0 <= j < successors(
                        list.take(i + 1),
                        v,
                    ).len() implies targets@[sources_below(list, v) + j].value()
                    == #[trigger] successors(list.take(i + 1), v)[j] by {
                    lemma_successors_take(list, i as int, v);
                    lemma_successors_prefix(list, i as int, v);
                    lemma_successors_prefix(list, i + 1, v);
                    lemma_sources_below_step(list, v);
                    lemma_sources_below_monotone(list, v + 1, dim as nat);
                    let q = sources_below(list, v) + j;
                    let seen = successors(list.take(i as int), v);
                    assert(q < m);
                    if v == x && j == seen.len() {
                        assert(q == p);
                        assert(list[i as int].1 == b.value());
                    } else {
                        if v < x {
                            lemma_sources_below_monotone(list, v + 1, x as nat);
                        } else if v > x {
                            lemma_sources_below_monotone(list, (x + 1) as nat, v);
                        }
                        assert(q != p);
                        assert(j < seen.len());
                        assert(before[q].value() == seen[j]);
                        assert(targets@[q] == before[q]);
                    }
                }
            }
            i = i + 1;
        }
        proof {
            assert(list.take(m as int) =~= list);
            lemma_arcs_vertex_count(edges@);
            assert forall|w: int| 0 <= w <= dim implies #[trigger] offsets@[w] == sources_below(
                list,
                w as nat,
            ) by {
                if w > 0 {
                    lemma_sources_below_step(list, (w - 1) as nat);
                }
            }
            lemma_built(list, offsets@, targets@);
        }
        Ok(AdjacencyStore { offsets, targets })
    }

    /// What holds of every store.
    #[verifier::type_invariant]
    pub closed spec fn wf(&self) -> bool {
        well_formed(self.offsets@, self.targets@)
    }

    /// The number of vertex slots.
    pub fn dimension(&self) -> (n: usize)
        ensures
            n == self@.len(),
            n <= MAX_VERTICES,
            n <= T::limit() + 1,
    {
        proof {
            use_type_invariant(self);
        }
        self.offsets.len() - 1
    }

    /// The number of arcs: the entries of all rows together.
    pub fn arc_count(&self) -> (m: usize)
        ensures
            m == entry_count(self@),
    {
        proof {
            use_type_invariant(self);
            lemma_offsets_count_entries(self.offsets@, self.targets@, self@.len());
        }
        self.targets.len()
    }

    /// The row of the vertex with index `v`.
    pub(crate) fn row(&self, v: usize) -> (row: &[T])
        requires
            v < self@.len(),
        ensures
            values(row@) == self@[v as int],
            forall|j: int| 0 <= j < row@.len() ==> (#[trigger] row@[j]).value() < self@.len(),
    {
        proof {
            use_type_invariant(self);
        }
        let from = self.offsets[v];
        let to = self.offsets[v + 1];
        let row = vstd::slice::slice_subrange(self.targets.as_slice(), from, to);
        proof {
            assert forall|j: int| 0 <= j < row@.len() implies (#[trigger] row@[j]).value()
                < self@.len() by {
                assert(row_of(self.offsets@, self.targets@, v as int)[j] == row@[j].value());
            }
        }
        row
    }

    /// The largest number of out-neighbors among the vertices from 1 on, and
    /// 0 if there is no such vertex. A traversal sizes its frontier buffers
    /// by it; they grow beyond it where a level needs more.
    pub fn frontier_hint(&self) -> (hint: usize)
        ensures
            forall|v: int| 1 <= v < self@.len() ==> (#[trigger] self@[v]).len() <= hint,
            hint == 0 || exists|v: int| 1 <= v < self@.len() && (#[trigger] self@[v]).len() == hint,
    {
        let n = self.dimension();
        let mut hint: usize = 0;
        let mut v: usize = 1;
        while v < n
            invariant
                n == self@.len(),
                1 <= v,
                forall|w: int| 1 <= w < v && w < n ==> (#[trigger] self@[w]).len() <= hint,
                hint == 0 || exists|w: int| 1 <= w < n && (#[trigger] self@[w]).len() == hint,
            decreases n - v,
        {
            let d = self.row(v).len();
            if d > hint {
                hint = d;
            }
            v = v + 1;
        }
        hint
    }

    /// In every store the entries of the rows are vertices of the store.
    pub proof fn lemma_rows_in_range(&self)
        requires
            self.wf(),
        ensures
            rows_in_range(self@),
    {
        assert forall|v: int, b: int|
            0 <= v < self@.len() && 0 <= b < self@[v].len() implies (#[trigger] self@[v][b])
            < self@.len() by {
            assert(row_of(self.offsets@, self.targets@, v)[b] < self@.len());
        }
    }

    /// The out-neighbors of `v`, in the order in which the store holds them.
    /// A vertex that the store does not have is refused.
    pub fn neighbors(&self, v: T) -> (r: Result<&[T], GraphError>)
        ensures
            match r {
                Ok(row) => v.value() < self@.len() && values(row@) == self@[v.value() as int],
                Err(e) => e == GraphError::InvalidDegreeQuery && v.value() >= self@.len(),
            },
    {
        let n = self.dimension();
        match v.to_usize() {
            Some(i) => {
                if i < n {
                    Ok(self.row(i))
                } else {
                    Err(GraphError::InvalidDegreeQuery)
                }
            },
            None => Err(GraphError::InvalidDegreeQuery),
        }
    }

    /// The number of out-neighbors of `v`, as an identifier. A vertex that
    /// the store does not have is refused. The count has to fit the
    /// identifier width.
    pub fn degree(&self, v: T) -> (r: Result<T, GraphError>)
        requires
            v.value() < self@.len() ==> self@[v.value() as int].len() <= T::limit(),
        ensures
            match r {
                Ok(d) => v.value() < self@.len() && d.value() == self@[v.value() as int].len(),
                Err(e) => e == GraphError::InvalidDegreeQuery && v.value() >= self@.len(),
            },
    {
        match self.neighbors(v) {
            Ok(row) => {
                let d = T::from_usize(row.len());
                Ok(d.unwrap())
            },
            Err(e) => Err(e),
        }
    }
}

/// In well-formed buffers the offset of a row is the number of entries of
/// the rows before it.
proof fn lemma_offsets_count_entries<T: NodeID>(offsets: Seq<usize>, targets: Seq<T>, n: nat)
    requires
        well_formed(offsets, targets),
        n <= offsets.len() - 1,
    ensures
        entries_before(
            Seq::new((offsets.len() - 1) as nat, |v: int| row_of(offsets, targets, v)),
            n,
        ) == offsets[n as int],
    decreases n,
{
    if n > 0 {
        lemma_offsets_count_entries(offsets, targets, (n - 1) as nat);
    }
}

} // verus!
