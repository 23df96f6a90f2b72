//! A separate-chaining hash table for environments without a hosted
//! collection library, and the bump allocator that feeds such environments
//! memory before a general allocator runs.
pub mod bump;
pub mod key;
pub mod hasher;
pub mod hashmap;
