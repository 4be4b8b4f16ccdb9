//! The ways in which building or querying a graph can fail.

use vstd::prelude::*;

verus! {

/// Why an edge list was refused or a query could not be answered.
#[derive(Clone, Copy, Debug, PartialEq, Eq, Structural)]
pub enum GraphError {
    /// A line that is not a comment does not hold exactly two fields.
    MalformedLine,
    /// A field is not an unsigned decimal number of at most 128 bits.
    ParseError,
    /// A vertex identifier does not fit the identifier width, or names a
    /// vertex beyond those that a store on this machine can hold.
    VertexOutOfRange,
    /// The source handed to a traversal is not a vertex of the graph.
    InvalidSource,
    /// A neighbor or degree query names a vertex that the graph does not have.
    InvalidDegreeQuery,
}

} // verus!
