//! Record-aligned chunking of byte sources.

pub mod alike;
pub mod balance;
pub mod chunker;
pub mod cli;
pub mod commands;
pub mod coverage;
pub mod digits;
pub mod distinct;
pub mod document;
pub mod engine;
pub mod error;
pub mod escapes;
pub mod faults;
pub mod framing;
pub mod grammar;
pub mod identity;
pub mod index;
pub mod json;
pub mod layouts;
pub mod logical;
pub mod manifest;
pub mod nearest;
pub mod outcomes;
pub mod plan;
pub mod prefix;
pub mod ranges;
pub mod reader;
pub mod records;
pub mod roundtrip;
pub mod rows;
pub mod sampling;
pub mod scan;
pub mod scanner;
pub mod search;
pub mod source;
pub mod spacing;
pub mod starts;
pub mod stored;
pub mod text;

pub use chunker::MmapChunker;
pub use engine::{
    ABI_VERSION, CAP_CONFIGURABLE_DELIMITER, CAP_ERROR_STRINGS, CAP_FIXED_SIZE_CHUNKING,
    CAP_RECORD_PARTITIONING, CAP_ZERO_COPY,
};
pub use scanner::{ChunkCursor, PatternChunkCursor};
