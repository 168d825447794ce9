//! inoxset: Roaring bitmap sets bucketed by time period.
//!
//! The crate holds the rules of the storage engine: period arithmetic and keys,
//! event configuration, the in-memory write buffer and its rollups, the layout
//! and merging of part files, the catalog's rows and their encodings, the
//! string-to-integer dictionaries and the inverted index. Files, transactions
//! and clocks live with the callers, which hand plain values in and out.

pub mod bitmap;
pub mod bloom;
pub mod builder;
pub mod catalog;
pub mod codec;
pub mod dict;
pub mod dictionary;
pub mod error;
pub mod inverted;
pub mod mempart;
pub mod merge;
pub mod metrics;
pub mod order;
pub mod part_store;
pub mod period;
pub mod portable;
pub mod read_index;
pub mod reverse;
pub mod rollup;
pub mod table;
pub mod text;
pub mod types;
