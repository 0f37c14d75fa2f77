//! The commands.

pub mod pass;
pub mod tail;
