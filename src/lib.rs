//! Approximate per-(uv, orbit-pair) occurrence counting over large streams of
//! graph-motif records, with a count-min sketch of fixed size.
//!
//! A run makes three passes: each stream line is parsed and counted
//! ([`ingest`]), the buffered records are sorted and deduplicated by an
//! outside tool, and the deduplicated records are grouped by `uv` and
//! reported with the sketch's estimates ([`report`]).

pub mod ingest;
pub mod record;
pub mod report;
pub mod sketch;
pub mod text;

pub use ingest::{range, summary_line, StreamIngest};
pub use record::{buffer_line, parse_record, sketch_key, ParseError, Record};
pub use report::{emit_report, ReportEmit, ReportError};
pub use sketch::{ConfigError, Sketch, MAX_EXPONENT};
