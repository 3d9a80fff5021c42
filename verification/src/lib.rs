//! Filtering of text by position. A mini-language of filters (`n`,
//! `n:m`, `n:`, `:m`, `:`) names single positions or inclusive ranges;
//! a `FilterSet` evaluates the union of all supplied filters against a
//! 1-based position; and slicers retain whole rows of an input, or
//! whitespace-delimited columns within each row, accordingly.

pub mod filter;
pub mod num;
pub mod slicer;
