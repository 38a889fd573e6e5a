//! Storage backends.

pub mod memory;
