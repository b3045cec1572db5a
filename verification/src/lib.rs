//! Merkle hash-tree engine: turns an object's leaf digests into a single
//! content identifier, persists the tree in a flat depth-then-index stream
//! layout, and serves random-access verification paths against that layout.
pub mod calculator;
pub mod did;
pub mod error;
pub mod geometry;
pub mod hash;
pub mod locator;
pub mod meta;
pub mod mtree;
pub mod obj_id;
pub mod pathutil;
pub mod stream;
pub mod strutil;
