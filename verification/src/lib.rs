//! Bin-and-counting sort for slices whose elements carry an integer key.
use vstd::prelude::*;

pub mod sort;
pub mod layout;
pub mod chunks;
pub mod laws;
