//! A verified core for a `head`-style utility: given the bytes of an input
//! stream and a stop condition (a line count or a byte count), compute the
//! prefix that should be emitted.
//!
//! The surrounding binary resolves the input (command line, file or standard
//! input) and performs the actual reads and writes; everything that decides
//! *what* is emitted lives here, with a proved contract.

pub mod config;
pub mod emit;
