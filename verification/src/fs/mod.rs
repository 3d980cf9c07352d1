//! Rules for changes to the filesystem.

pub mod apply;
