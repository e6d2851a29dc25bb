//! A resizable hash table whose operations are the atomic steps of a
//! concurrent map: lazily created bucket array, chained and tree bins,
//! cooperative stride-wise resizing through forwarding markers, and a
//! sharded element counter.

pub mod bin;
pub mod control;
pub mod counter;
pub mod key;
pub mod laws;
pub mod map;
pub mod node;
pub mod sizing;
pub mod text;
pub mod tree;
