//! The traits of the library: vertex identifiers, edges and graphs.

use crate::edges::{entry_count, values};
use crate::error::GraphError;
use std::collections::HashMap;
use vstd::prelude::*;

verus! {

/// An unsigned integer of fixed width that serves as vertex index, as count
/// and as level number.
///
/// `value` is the number an identifier stands for; every contract of the
/// library speaks of identifiers through it.
pub trait NodeID: Copy + Sized {
    /// The number this identifier stands for.
    spec fn value(self) -> nat;

    /// The largest number an identifier of this width stands for.
    spec fn limit() -> nat;

    /// No identifier exceeds the limit of its width.
    proof fn lemma_value_bounded(self)
        ensures
            self.value() <= Self::limit(),
    ;

    /// Two identifiers that stand for the same number are the same.
    proof fn lemma_value_injective(a: Self, b: Self)
        requires
            a.value() == b.value(),
        ensures
            a == b,
    ;

    /// The identifier 0.
    fn zero() -> (id: Self)
        ensures
            id.value() == 0,
    ;

    /// The identifier 1.
    fn one() -> (id: Self)
        ensures
            id.value() == 1,
    ;

    /// The largest identifier, which marks a vertex that was never reached.
    fn max_value() -> (id: Self)
        ensures
            id.value() == Self::limit(),
    ;

    /// The identifier that stands for `x`, if the width can hold it.
    fn from_u128(x: u128) -> (id: Option<Self>)
        ensures
            id is Some <==> x <= Self::limit(),
            id matches Some(i) ==> i.value() == x,
    ;

    /// The identifier that stands for the index `x`, if the width can hold it.
    fn from_usize(x: usize) -> (id: Option<Self>)
        ensures
            id is Some <==> x <= Self::limit(),
            id matches Some(i) ==> i.value() == x,
    ;

    /// The number this identifier stands for, as a wide integer.
    fn to_u128(self) -> (x: u128)
        ensures
            x == self.value(),
    ;

    /// The number this identifier stands for, as an index, if an index can
    /// hold it.
    fn to_usize(self) -> (x: Option<usize>)
        ensures
            x is Some <==> self.value() <= usize::MAX,
            x matches Some(i) ==> i == self.value(),
    ;
}

impl NodeID for u8 {
    open spec fn value(self) -> nat {
        self as nat
    }

    open spec fn limit() -> nat {
        0xff
    }

    proof fn lemma_value_bounded(self) {
    }

    proof fn lemma_value_injective(a: u8, b: u8) {
    }

    fn zero() -> u8 {
        0
    }

    fn one() -> u8 {
        1
    }

    fn max_value() -> u8 {
        u8::MAX
    }

    fn from_u128(x: u128) -> Option<u8> {
        if x <= 0xff {
            Some(x as u8)
        } else {
            None
        }
    }

    fn from_usize(x: usize) -> Option<u8> {
        if x <= 0xff {
            Some(x as u8)
        } else {
            None
        }
    }

    fn to_u128(self) -> u128 {
        self as u128
    }

    fn to_usize(self) -> Option<usize> {
        Some(self as usize)
    }
}

impl NodeID for u16 {
    open spec fn value(self) -> nat {
        self as nat
    }

    open spec fn limit() -> nat {
        0xffff
    }

    proof fn lemma_value_bounded(self) {
    }

    proof fn lemma_value_injective(a: u16, b: u16) {
    }

    fn zero() -> u16 {
        0
    }

    fn one() -> u16 {
        1
    }

    fn max_value() -> u16 {
        u16::MAX
    }

    fn from_u128(x: u128) -> Option<u16> {
        if x <= 0xffff {
            Some(x as u16)
        } else {
            None
        }
    }

    fn from_usize(x: usize) -> Option<u16> {
        if x as u64 <= 0xffff {
            Some(x as u16)
        } else {
            None
        }
    }

    fn to_u128(self) -> u128 {
        self as u128
    }

    fn to_usize(self) -> Option<usize> {
        Some(self as usize)
    }
}

impl NodeID for u32 {
    open spec fn value(self) -> nat {
        self as nat
    }

    open spec fn limit() -> nat {
        0xffff_ffff
    }

    proof fn lemma_value_bounded(self) {
    }

    proof fn lemma_value_injective(a: u32, b: u32) {
    }

    fn zero() -> u32 {
        0
    }

    fn one() -> u32 {
        1
    }

    fn max_value() -> u32 {
        u32::MAX
    }

    fn from_u128(x: u128) -> Option<u32> {
        if x <= 0xffff_ffff {
            Some(x as u32)
        } else {
            None
        }
    }

    fn from_usize(x: usize) -> Option<u32> {
        if x as u64 <= 0xffff_ffff {
            Some(x as u32)
        } else {
            None
        }
    }

    fn to_u128(self) -> u128 {
        self as u128
    }

    fn to_usize(self) -> Option<usize> {
        Some(self as usize)
    }
}

impl NodeID for u64 {
    open spec fn value(self) -> nat {
        self as nat
    }

    open spec fn limit() -> nat {
        0xffff_ffff_ffff_ffff
    }

    proof fn lemma_value_bounded(self) {
    }

    proof fn lemma_value_injective(a: u64, b: u64) {
    }

    fn zero() -> u64 {
        0
    }

    fn one() -> u64 {
        1
    }

    fn max_value() -> u64 {
        u64::MAX
    }

    fn from_u128(x: u128) -> Option<u64> {
        if x <= 0xffff_ffff_ffff_ffff {
            Some(x as u64)
        } else {
            None
        }
    }

    fn from_usize(x: usize) -> Option<u64> {
        if x as u64 <= 0xffff_ffff_ffff_ffff {
            Some(x as u64)
        } else {
            None
        }
    }

    fn to_u128(self) -> u128 {
        self as u128
    }

    fn to_usize(self) -> Option<usize> {
        if self <= usize::MAX as u64 {
            Some(self as usize)
        } else {
            None
        }
    }
}

/// An edge that knows its two ends.
pub trait Edge<VI> {
    /// The vertex the edge leaves.
    fn src(self) -> VI;

    /// The vertex the edge enters.
    fn dst(self) -> VI;
}

/// An edge that carries a weight.
pub trait WeightedEdge<W> {
    /// The weight of the edge.
    fn weight(self) -> W;
}

/// An edge that has a number among the edges of its graph.
pub trait IndexedEdge<EI> {
    /// The number of the edge.
    fn index(self) -> EI;
}

/// An edge that carries labels.
pub trait LabeledEdge<K, V> {
    /// The labels of the edge.
    fn labels(self) -> HashMap<K, V>;
}

/// The queries that a traversal needs of a graph: how many vertices and arcs
/// it has, and the out-neighbors of a vertex.
pub trait Graph {
    /// The identifiers of the vertices.
    type VI: NodeID;

    /// The adjacency of the graph: row `v` lists the out-neighbors of vertex
    /// `v`, and there is a row for each vertex.
    spec fn rows(&self) -> Seq<Seq<nat>>;

    /// The number of vertices, as an identifier. The count has to fit the
    /// identifier width.
    fn nv(&self) -> (n: Self::VI)
        requires
            self.rows().len() <= Self::VI::limit(),
        ensures
            n.value() == self.rows().len(),
    ;

    /// The number of arcs.
    fn ne(&self) -> (m: usize)
        ensures
            m == entry_count(self.rows()),
    ;

    /// The out-neighbors of `v`, in the order in which the graph holds them.
    /// A vertex that the graph does not have is refused.
    fn outneighbors(&self, v: Self::VI) -> (r: Result<&[Self::VI], GraphError>)
        ensures
            match r {
                Ok(row) => v.value() < self.rows().len() && values(row@)
                    == self.rows()[v.value() as int],
                Err(e) => e == GraphError::InvalidDegreeQuery && v.value() >= self.rows().len(),
            },
    ;

    /// The number of out-neighbors of `v`, as an identifier. A vertex that
    /// the graph does not have is refused. The count has to fit the
    /// identifier width.
    fn degree(&self, v: Self::VI) -> (r: Result<Self::VI, GraphError>)
        requires
            v.value() < self.rows().len() ==> self.rows()[v.value() as int].len()
                <= Self::VI::limit(),
        ensures
            match r {
                Ok(d) => v.value() < self.rows().len() && d.value()
                    == self.rows()[v.value() as int].len(),
                Err(e) => e == GraphError::InvalidDegreeQuery && v.value() >= self.rows().len(),
            },
    ;
}

/// A graph that can be asked for the in-neighbors of a vertex.
pub trait DirectedGraph<'a, VI, VIT> where VI: NodeID, VIT: Iterator<Item = VI> {
    /// The in-neighbors of `v`.
    fn inneighbors(&'a self, v: VI) -> VIT;
}

} // verus!
