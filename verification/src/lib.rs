//! Code bundling: whitespace compaction for source files, the bundle text
//! format, extraction of bundles back into files, and line modifications.
pub mod text;
pub mod compression;
pub mod embedder;
pub mod extractor;
pub mod order;
pub mod modification;
pub mod prompt;
pub mod round_trip;
pub mod record_order;
