//! Frontiers: the vertices of one level of a traversal, as an ordered
//! sequence.

use crate::traits::NodeID;
use vstd::prelude::*;

verus! {

/// The identifiers stand in ascending order.
pub open spec fn ascending<T: NodeID>(ids: Seq<T>) -> bool {
    forall|i: int, j: int| 0 <= i <= j < ids.len() ==> ids[i].value() <= ids[j].value()
}

/// `sort_unstable_by_key` of std's slices, with the number an identifier
/// stands for as the key: the entries are put in ascending order of their
/// keys, and none is added or lost.
#[verifier::external_body]
fn sort_by_value<T: NodeID>(ids: &mut Vec<T>)
    ensures
        final(ids)@.to_multiset() == old(ids)@.to_multiset(),
        ascending(final(ids)@),
{
    ids.sort_unstable_by_key(|id| id.to_u128())
}

/// Puts a frontier in ascending order of vertex number. The frontier keeps
/// its length and its members, each as often as it occurred.
pub fn sort_frontier<T: NodeID>(frontier: &mut Vec<T>)
    ensures
        ascending(final(frontier)@),
        final(frontier)@.to_multiset() == old(frontier)@.to_multiset(),
        final(frontier)@.len() == old(frontier)@.len(),
        forall|id: T| final(frontier)@.contains(id) <==> old(frontier)@.contains(id),
{
    let ghost before = frontier@;
    sort_by_value(frontier);
    proof {
        before.to_multiset_ensures();
        frontier@.to_multiset_ensures();
        assert forall|id: T| frontier@.contains(id) <==> before.contains(id) by {
            assert(frontier@.to_multiset().count(id) == before.to_multiset().count(id));
        }
    }
}

} // verus!
