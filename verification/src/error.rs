//! The errors that the inventory reports.

use vstd::prelude::*;

verus! {

/// Why an operation on the inventory was refused. An operation that returns
/// one of these has left the inventory as it was.
#[derive(Clone, Copy, Debug, PartialEq, Eq, Structural)]
pub enum InventoryError {
    /// No item has this identifier; or, for a lookup of a portion, both items
    /// exist and no portion joins them (the identifier is then the component's).
    NotFound(u128),
    /// An item with this identifier is in the inventory already.
    DuplicateId(u128),
    /// A portion from the first item to the second would close a cycle.
    CycleWouldForm(u128, u128),
    /// An amount is negative.
    InvalidAmount,
    /// A price is negative; or, where a price is entered, not positive.
    InvalidPrice,
    /// A unit price was asked of an item whose total amount is zero.
    DivisionUndefined,
    /// A portion names an item that is not among the items.
    DanglingReference,
    /// The portions given with a set of items form a cycle.
    CyclicData,
    /// A total does not fit the fixed-point range.
    Overflow,
    /// The composition graph cannot take another node or link.
    CapacityExceeded,
    /// A name is empty.
    EmptyName,
}

} // verus!
