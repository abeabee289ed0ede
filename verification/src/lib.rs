//! Aligns delimiter-separated text into columns.
//!
//! Text is cut into rows of fields, every column is given the width of its
//! widest field, measured in grapheme clusters, and each row is written out
//! again with its fields padded to those widths.

pub mod layout;
pub mod render;
pub mod segment;
pub mod slice;

pub use layout::{configure_output, Alignment, Column, OutputConfig};
pub use render::{pad_field, render, render_row, write_col};
pub use segment::{parse_document, split_row, Cell, Document, Row};
