//! Extraction and normalization of fixed-width payroll export lines.
//!
//! A source file holds one record per line. A line qualifies as a data
//! record when its first six characters are ASCII letters or digits; a
//! qualifying line is sliced at fixed character offsets into named fields,
//! and its final field is reformatted from a raw decimal hour count into a
//! signed `hours:minutes` display string.

pub mod extract;
pub mod paths;
pub mod plan;
pub mod process;
pub mod time_format;
