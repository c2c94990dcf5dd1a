//! Reports which CPUID feature extensions an x86/x64 instruction stream
//! depends on, grouped and counted per distinct instruction encoding.
//!
//! The crate is the aggregation and reporting engine: it consumes plain
//! decoded-instruction records (opcode identity plus required feature list),
//! buckets them by feature key, filters the buckets, orders them
//! deterministically and renders the report text. Reading the binary and
//! decoding its bytes are left to the caller.

pub mod filters;
pub mod laws;
pub mod optext;
pub mod report;
pub mod table;
pub mod text;
