//! A portion: how much of one item goes into one unit of another.

use vstd::prelude::*;

verus! {

/// To produce one unit of the item `source_id`, `amount` units of the item
/// `component_id` are consumed. `amount` counts millionths.
#[derive(Clone, Copy, Debug, PartialEq, Eq, Structural)]
pub struct Portion {
    pub source_id: u128,
    pub component_id: u128,
    pub amount: i64,
}

impl Portion {
    /// The portion with these fields.
    pub fn of(source_id: u128, component_id: u128, amount: i64) -> (portion: Self)
        ensures
            portion == (Portion { source_id, component_id, amount }),
    {
        Self { source_id, component_id, amount }
    }

    /// The portion as a link of the composition graph, from the source's
    /// identifier to the component's.
    pub open spec fn link(self) -> (int, int) {
        (self.source_id as int, self.component_id as int)
    }

    /// The portion lies on item `id`, at either end.
    pub open spec fn touches(self, id: u128) -> bool {
        self.source_id == id || self.component_id == id
    }
}

} // verus!
