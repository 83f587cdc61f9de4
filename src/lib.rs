//! Stores values for byte-string keys in compact open-addressing hash tables.
//!
//! Keys are written once to an append-only store; the table slots hold only
//! handles into that store, so growing the table never copies key bytes.
pub mod bitset;
pub mod hasher;
pub mod memory_arena;
pub mod string_data;
pub mod string_map;
pub mod term_map;
pub mod varint;

pub use string_map::StringHashMap;
