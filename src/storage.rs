//! Key-value storage of byte strings.

pub mod memory;
