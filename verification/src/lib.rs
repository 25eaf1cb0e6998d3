//! A proof-of-work puzzle solver: searches the 256-bit candidate space for
//! a value that, combined with a fixed first value, makes a fixed program
//! produce a digest with a requested number of leading zero hex nibbles.

pub mod uint256;
pub mod utils;
pub mod miner;
