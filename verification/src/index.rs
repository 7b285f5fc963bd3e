use vstd::prelude::*;

verus! {

/// Identifies a widget node in the widget tree.
///
/// The default index (`id == 0`) stands for "no widget"; the context uses it
/// as the value of the focus when nothing is focused.
#[derive(Clone, Copy, PartialEq, Eq, Structural, Debug, Hash)]
pub struct Index {
    pub id: u64,
}

impl Index {
    pub fn new(id: u64) -> (r: Index)
        ensures
            r.id == id,
    {
        Index { id }
    }

    /// The index that means "no widget".
    pub open spec fn none() -> Index {
        Index { id: 0 }
    }
}

impl Default for Index {
    fn default() -> (r: Index)
        ensures
            r == Index::none(),
    {
        Index { id: 0 }
    }
}

} // verus!
