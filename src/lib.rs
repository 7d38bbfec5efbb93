//! Structured capture of device diagnostic logs: line grammars, process
//! enrichment, filtering, session bookkeeping and batching.

pub mod text;
pub mod parser;
pub mod filter;
pub mod device;
pub mod session;
