//! Per-key summary statistics (minimum, maximum, sum, count) over a
//! delimited `key;value` text buffer, computed by splitting the buffer
//! into line-aligned regions, scanning each region into a partial result
//! map, and merging the partial maps.
pub mod aggregate;
pub mod laws;
pub mod pipeline;
pub mod records;
pub mod result_map;
pub mod scanner;
pub mod splitter;
pub mod text;

