//! A key-derived set: a container that stores values deduplicated by a
//! caller-supplied key function rather than by the values' own equality.

pub mod key_set;
pub mod laws;
