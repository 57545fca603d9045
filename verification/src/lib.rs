//! Decode flat, underscore-delimited string key/value pairs (typically
//! environment variables) into structured values.
//!
//! The library builds a [`tree::Node`] from flat keys, where each underscore
//! in a key opens one level of nesting, and then interprets tree nodes as
//! scalars, sequences, maps, structs, or enums on behalf of a caller that
//! knows the shape it expects.

pub mod decode;
pub mod scalar;
pub mod text;
pub mod tree;
