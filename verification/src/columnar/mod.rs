//! Immutable derived columnar projections.
//!
//! Version 1 files describe snapshot projections. Version 2 adds hidden
//! source-version identities and a first form of delta. New generations use
//! indexed version 3 files plus independently checksummed delta blocks. Legacy
//! files remain readable through the eager decoder; indexed readers retain
//! metadata and fetch values on demand. Heap or LSM data remains authoritative.
pub mod block;
pub mod advance;
pub mod advance_count_laws;
pub mod advance_laws;
pub mod base;
pub mod chunk;
pub mod chunk_laws;
pub mod compact;
pub mod compact_laws;
pub mod count_laws;
pub mod delta;
pub mod delta_laws;
pub mod descriptor;
pub mod error;
pub mod feed;
pub mod filter_laws;
pub mod format_laws;
pub mod gather;
pub mod group;
pub mod indexed;
pub mod indexed_count_laws;
pub mod input_laws;
pub mod lazy_compact;
pub mod lazy_compact_laws;
pub mod lazy_delta;
pub mod lazy_delta_laws;
pub mod lazy_scan;
pub mod lazy_scan_laws;
pub mod lazy_segment;
pub mod lazy_segment_laws;
pub mod manifest;
pub mod manifest_laws;
pub mod metadata;
pub mod name_laws;
pub mod open;
pub mod open_laws;
pub mod overlay;
pub mod overlay_laws;
pub mod payload;
pub mod piece_laws;
pub mod prefix_laws;
pub mod prepare;
pub mod prepare_laws;
pub mod project;
pub mod project_laws;
pub mod projection;
pub mod projection_laws;
pub mod ranges;
pub mod reader;
pub mod reopen_laws;
pub mod scalar;
pub mod scan;
pub mod scan_laws;
pub mod segment;
pub mod segment_laws;
pub mod select;
pub mod sound;
pub mod statistics;
pub mod valid_laws;
pub mod validity;
pub mod vector;
pub mod version;
pub mod writer;

pub use error::ColumnarError;
