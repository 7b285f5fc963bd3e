//! The parent links of the widget tree, and the chain of ancestors of a
//! widget.
use vstd::prelude::*;

verus! {

/// The ancestors of widget `id`, nearest first, found by following at most
/// `fuel` parent links; `None` if the chain is longer than that.
pub open spec fn ancestors(parents: Map<u64, u64>, id: u64, fuel: nat) -> Option<Seq<u64>>
    decreases fuel,
{
    if !parents.contains_key(id) {
        Some(Seq::empty())
    } else if fuel == 0 {
        None
    } else {
        match ancestors(parents, parents[id], (fuel - 1) as nat) {
            Some(rest) => Some(seq![parents[id]] + rest),
            None => None,
        }
    }
}

/// The parent links from widget `id` reach a root: the chain cannot be
/// longer than the number of links without running in a circle.
pub open spec fn reaches_root(parents: Map<u64, u64>, id: u64) -> bool {
    ancestors(parents, id, parents.len()) is Some
}

} // verus!
