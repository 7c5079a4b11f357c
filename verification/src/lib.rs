//! Decoder for fixed-width MOS (Model Output Statistics) weather bulletins.
//!
//! A bulletin is a newline-delimited text table: the first line names the
//! station and the issue time, one line labelled `HR` declares the forecast
//! hour columns, and every other labelled line carries one cell per column.
//! The decoder turns such a text into a [`report::MOS`]: a header, plus one
//! typed entry per hour column with a computed timestamp.

pub mod error;
pub mod time;
pub mod text;
pub mod entry;
pub mod report;
