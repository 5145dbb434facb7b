//! The data model: items, portions, and the inventory that owns them.

pub mod composition;
pub mod inventory;
pub mod item;
pub mod portion;
pub mod rollup;
