//! Per-key minimum, mean and maximum over a file of `key;value` lines.
//!
//! Values carry exactly one fractional digit and are held as integers in
//! tenths, so sums are exact. The pipeline:
//! - `temperature`: the fixed-point parser and its renderer;
//! - `records`: splitting input into lines and lines into key and value;
//! - `order`: byte-wise order on keys;
//! - `table`: per-key accumulators kept in key order;
//! - `summary`: aggregation of a whole input and the `{k=min/mean/max, ...}` text.
pub mod order;
pub mod records;
pub mod summary;
pub mod table;
pub mod temperature;
