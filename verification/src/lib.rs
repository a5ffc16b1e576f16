//! Per-key summary statistics (minimum, mean, maximum) over a delimited
//! byte buffer: one record per line, `<key>;<value>`, where the value is a
//! decimal number with at most two integer digits and exactly one fractional
//! digit. Values are held exactly as integer tenths, so folding, merging and
//! reporting are exact integer arithmetic.
pub mod laws;
pub mod parse;
pub mod report;
pub mod stats;
pub mod table;
