//! Iris recognition: the integer and bit-level core of a Daugman-style
//! pipeline (boundary-search volumes, eyelid line voting, noise masking,
//! phase-code packing and shifted Hamming matching), with contracts.

pub mod arrays;
pub mod bits;
pub mod types;
mod layout;
pub mod matching;
pub mod matching_laws;
pub mod encode;
pub mod daugman;
pub mod eyelid;
pub mod segment;
pub mod casia;
pub mod pairs;
