//! Delta strategies: how a changed file is rebuilt from an older copy of it.

pub mod cdc;
pub mod fixed;
