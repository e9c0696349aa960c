//! Grammar-driven structural file fuzzer.
//!
//! A small grammar describes a file format as paired delimiters, breakers and
//! whitespace patterns. The parser turns a byte buffer into an arena-backed
//! tree that reproduces the input byte for byte; the fuzzer rewrites that tree
//! structurally and serializes the result back to bytes.

pub mod fuzz;
pub mod grammar;
pub mod model;
pub mod output;
pub mod parse;
pub mod rng;
