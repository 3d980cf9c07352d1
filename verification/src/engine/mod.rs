//! The parts that a session is put together from.

pub mod apply;
pub mod manifest;
pub mod planner;
pub mod session;
