//! What stands between the inventory and the forms that feed it.

pub mod validation;
