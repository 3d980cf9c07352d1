//! Ways of cutting contents into chunks.

pub mod fastcdc;
