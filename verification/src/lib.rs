//! Superpermutation construction and verification.
//!
//! A superpermutation over the alphabet `1..=n` is a token sequence that
//! contains every permutation of the alphabet as a contiguous window. This
//! crate provides two interchangeable strategies for building and checking
//! superpermutations: a naive one that materializes every permutation, and
//! an optimized one that never does, indexing permutations through a
//! mixed-radix numbering instead.
//!
//! The modules build on one another: `count` holds counting lemmas, `radix`
//! the mixed-radix codec, `perms` the model of the permutation numbering,
//! `prefix` the characterization of prefix-consistent index values,
//! `mapper` the value/permutation mapper, `base` the superpermutation
//! specification and the strategy contract, and `bruteforce` /
//! `bruteforce_optimise` the two strategies.

pub mod base;
pub mod bruteforce;
pub mod bruteforce_optimise;
pub mod count;
pub mod mapper;
pub mod perms;
pub mod prefix;
pub mod radix;
