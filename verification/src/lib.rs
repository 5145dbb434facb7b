//! An inventory of stock items, each of which may be composed of other items
//! in measured portions, with the total amount and the total price of an item
//! rolled up over everything that it consumes.
//!
//! Amounts and prices are fixed-point numbers: an `i64` counts millionths of
//! the unit (see [`model::item::SCALE`]). Items are known by a 128-bit
//! identifier, the value of a UUID.

pub mod cycles;
pub mod database;
pub mod error;
pub mod ident;
pub mod index;
pub mod model;
pub mod selection;
pub mod topology;
pub mod view;

pub use crate::ident::clip_uuid;
