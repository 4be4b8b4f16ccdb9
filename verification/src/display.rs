//! The one-line summary of a graph.

use crate::edges::entry_count;
use crate::graph::SimpleGraph;
use crate::traits::{Graph, NodeID};
use vstd::prelude::*;
use vstd::string::StringExecFns;

verus! {

/// The character of the decimal digit `d`.
pub open spec fn digit(d: nat) -> char {
    ((0x30 + d) as u8) as char
}

/// The decimal digits of `n`, the most significant first, without leading
/// zeros.
pub open spec fn decimal_digits(n: nat) -> Seq<char>
    decreases n,
{
    if n < 10 {
        seq![digit(n)]
    } else {
        decimal_digits(n / 10).push(digit(n % 10))
    }
}

/// The summary of a graph with `nv` vertices and `ne` arcs.
pub open spec fn summary_text(nv: nat, ne: nat) -> Seq<char> {
    "("@ + decimal_digits(nv) + ", "@ + decimal_digits(ne) + ") Graph"@
}

/// `to_string` of std on an unsigned integer: its decimal digits, the most
/// significant first, with no sign and no leading zeros.
#[verifier::external_body]
fn decimal_string(n: usize) -> (s: String)
    ensures
        s@ == decimal_digits(n as nat),
{
    n.to_string()
}

impl<T: NodeID> SimpleGraph<T> {
    /// The summary of the graph: its vertex count and its arc count in
    /// round brackets, and the word `Graph`.
    pub fn summary(&self) -> (s: String)
        ensures
            s@ == summary_text(self@.len(), entry_count(self@)),
    {
        let nv = decimal_string(self.forward().dimension());
        let ne = decimal_string(self.ne());
        let mut s = String::from_str("(");
        s.append(nv.as_str());
        s.append(", ");
        s.append(ne.as_str());
        s.append(") Graph");
        s
    }
}

} // verus!
