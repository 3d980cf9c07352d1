//! Entry points that are not for users.

pub mod stdio;
