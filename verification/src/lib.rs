//! Streaming primitives for scanning JSONL files without loading the whole
//! file into memory: a strict JSON reader, a line splitter, field paths, a
//! seedable sampler, a line-length histogram, the stats and schema passes,
//! and the reports built from them.

pub mod text;
pub mod index;
pub mod json;
pub mod json_laws;
pub mod report_laws;
pub mod lines;
pub mod path;
pub mod rng;
pub mod hist;
pub mod stats;
pub mod schema;
pub mod report;
pub mod summary;
pub mod listing;
