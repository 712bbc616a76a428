//! A fixed-capacity key-value cache with least-recently-used eviction,
//! together with two small linear containers: a double-ended queue and a
//! growable array of integers.

pub mod cache;
pub mod deque;
pub mod my_vector;
