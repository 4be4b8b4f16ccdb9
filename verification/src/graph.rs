//! The directed graph: a forward adjacency store over the arcs as given and a
//! backward store over the same arcs with their ends swapped.

use crate::adjacency::{AdjacencyStore, MAX_VERTICES};
use crate::edges::{adjacency, arcs, lemma_reversed_vertex_count, reversed, vertex_count};
use crate::error::GraphError;
use crate::parse::{parse_edge_list, parse_text};
use crate::traits::{Graph, NodeID};
use vstd::prelude::*;

verus! {

/// A directed graph over the vertices `0 .. nv()`, built once from an edge
/// list and never changed.
#[derive(Debug)]
pub struct SimpleGraph<T: NodeID> {
    fadj: AdjacencyStore<T>,
    badj: AdjacencyStore<T>,
}

/// `forward` and `backward` are the rows that the two stores of a graph with
/// the edge list `arcs` hold.
pub open spec fn stores_of(
    arcs: Seq<(nat, nat)>,
    forward: Seq<Seq<nat>>,
    backward: Seq<Seq<nat>>,
) -> bool {
    forward == adjacency(arcs) && backward == adjacency(reversed(arcs))
}

impl<T: NodeID> View for SimpleGraph<T> {
    type V = Seq<Seq<nat>>;

    /// The forward adjacency: row `v` lists the out-neighbors of vertex `v`.
    closed spec fn view(&self) -> Seq<Seq<nat>> {
        self.fadj@
    }
}

/// The edge list with the two ends of every pair swapped.
pub fn reversed_edges<T: NodeID>(edges: &Vec<(T, T)>) -> (back: Vec<(T, T)>)
    ensures
        back@ == edges@.map_values(|e: (T, T)| (e.1, e.0)),
        arcs(back@) == reversed(arcs(edges@)),
{
    let n = edges.len();
    let mut back: Vec<(T, T)> = Vec::with_capacity(n);
    let mut i: usize = 0;
    while i < n
        invariant
            n == edges@.len(),
            i <= n,
            back@ == edges@.take(i as int).map_values(|e: (T, T)| (e.1, e.0)),
        decreases n - i,
    {
        let e = edges[i];
        back.push((e.1, e.0));
        i = i + 1;
        assert(back@ =~= edges@.take(i as int).map_values(|e: (T, T)| (e.1, e.0)));
    }
    assert(edges@.take(n as int) =~= edges@);
    assert(arcs(back@) =~= reversed(arcs(edges@)));
    back
}

impl<T: NodeID> Clone for SimpleGraph<T> {
    /// A graph with the same two stores.
    fn clone(&self) -> (other: Self)
        ensures
            other@ == self@,
            other.backward_rows() == self.backward_rows(),
    {
        proof {
            use_type_invariant(self);
        }
        let fadj = self.fadj.clone();
        let badj = self.badj.clone();
        proof {
            let list = choose|list: Seq<(nat, nat)>|
                #[trigger] stores_of(list, self.fadj@, self.badj@);
            assert(stores_of(list, fadj@, badj@));
            use_type_invariant(&fadj);
            use_type_invariant(&badj);
        }
        SimpleGraph { fadj, badj }
    }
}

impl<T: NodeID> Graph for SimpleGraph<T> {
    type VI = T;

    open spec fn rows(&self) -> Seq<Seq<nat>> {
        self@
    }

    fn nv(&self) -> (n: T) {
        let n = T::from_usize(self.fadj.dimension());
        n.unwrap()
    }

    fn ne(&self) -> (m: usize) {
        self.fadj.arc_count()
    }

    fn outneighbors(&self, v: T) -> (r: Result<&[T], GraphError>) {
        self.fadj.neighbors(v)
    }

    fn degree(&self, v: T) -> (r: Result<T, GraphError>) {
        self.fadj.degree(v)
    }
}

impl<T: NodeID> SimpleGraph<T> {
    /// The backward adjacency: row `v` lists the in-neighbors of vertex `v`.
    pub closed spec fn backward_rows(&self) -> Seq<Seq<nat>> {
        self.badj@
    }

    /// What holds of every graph: the backward store is the forward store of
    /// the reversed edge list.
    #[verifier::type_invariant]
    pub closed spec fn wf(&self) -> bool {
        &&& self.fadj.wf()
        &&& self.badj.wf()
        &&& exists|arcs: Seq<(nat, nat)>| #[trigger] stores_of(arcs, self.fadj@, self.badj@)
    }

    /// Every graph has an edge list of which its forward store holds the
    /// arcs as given and its backward store the arcs with their ends swapped.
    pub proof fn lemma_edge_list(&self) -> (list: Seq<(nat, nat)>)
        requires
            self.wf(),
        ensures
            stores_of(list, self@, self.backward_rows()),
    {
        choose|list: Seq<(nat, nat)>| #[trigger] stores_of(list, self.fadj@, self.badj@)
    }

    /// The graph of an edge list. Its vertices are the numbers up to the
    /// largest one in the list; the forward store holds the arcs as given and
    /// the backward store holds them with their ends swapped.
    ///
    /// A list with a vertex that no store can hold is refused.
    pub fn from_edges(edges: &Vec<(T, T)>) -> (r: Result<Self, GraphError>)
        ensures
            match r {
                Ok(g) => {
                    &&& vertex_count(arcs(edges@)) <= MAX_VERTICES
                    &&& g@ == adjacency(arcs(edges@))
                    &&& g.backward_rows() == adjacency(reversed(arcs(edges@)))
                },
                Err(e) => e == GraphError::VertexOutOfRange && vertex_count(arcs(edges@))
                    > MAX_VERTICES,
            },
    {
        let back = reversed_edges(edges);
        proof {
            lemma_reversed_vertex_count(arcs(edges@));
        }
        let fadj = match AdjacencyStore::from_edges(edges) {
            Ok(store) => store,
            Err(e) => {
                return Err(e);
            },
        };
        let badj = match AdjacencyStore::from_edges(&back) {
            Ok(store) => store,
            Err(e) => {
                return Err(e);
            },
        };
        proof {
            assert(stores_of(arcs(edges@), fadj@, badj@));
            use_type_invariant(&fadj);
            use_type_invariant(&badj);
        }
        Ok(SimpleGraph { fadj, badj })
    }

    /// The graph of an edge-list text, which holds one `src dst` pair on each
    /// line that is not a comment.
    ///
    /// A text is refused for the reason for which its first refused line is
    /// refused. A text whose lines all pass is refused if its edge list is.
    pub fn from_edge_text(text: &str) -> (r: Result<Self, GraphError>)
        ensures
            match parse_text::<T>(text@) {
                Err(e) => r matches Err(f) && f == e,
                Ok(list) => if vertex_count(list) <= MAX_VERTICES {
                    r matches Ok(g) && g@ == adjacency(list) && g.backward_rows() == adjacency(
                        reversed(list),
                    )
                } else {
                    r matches Err(f) && f == GraphError::VertexOutOfRange
                },
            },
    {
        match parse_edge_list::<T>(text) {
            Ok(edges) => Self::from_edges(&edges),
            Err(e) => Err(e),
        }
    }

    /// The forward store.
    pub fn forward(&self) -> (store: &AdjacencyStore<T>)
        ensures
            store@ == self@,
    {
        &self.fadj
    }

    /// The backward store.
    pub fn backward(&self) -> (store: &AdjacencyStore<T>)
        ensures
            store@ == self.backward_rows(),
    {
        &self.badj
    }
}

} // verus!
