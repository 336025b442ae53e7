//! Splitting a spreadsheet grid into one worksheet per order.
//!
//! The library reads a grid of display strings (header row plus data rows),
//! parses one column as a compound `<order>/<operation>` key, groups the data
//! rows by order id in ascending lexicographic key order, generates unique,
//! length-bounded worksheet names, and writes each group into an output
//! workbook while enforcing the spreadsheet capacity ceilings.  A second,
//! simpler path re-serializes a grid as markup or delimited text with
//! column-selection filtering.

pub mod text;
pub mod keys;
pub mod names;
pub mod plan;
pub mod sheets;
pub mod convert;
