//! Aggregation of `<station>;<temperature>` record files.
//!
//! The input is an immutable byte buffer holding one record per line:
//! a station name, a `;` separator, and a fixed-point temperature with one
//! or two integer digits, an optional leading `-`, and exactly one fractional
//! digit. Temperatures are handled as integers counting tenths of a degree;
//! no floating point is involved anywhere.
//!
//! The buffer is split into record-aligned partitions, each partition is
//! scanned into a per-station table of `(count, sum, min, max)`, and the
//! per-partition tables are merged into one final table. Merging is proved
//! to agree with aggregating the whole buffer in one pass, for every
//! record-aligned partitioning.

pub mod aggregate;
pub mod display;
pub mod error;
pub mod fold;
pub mod model;
pub mod partition;
pub mod pipeline;
pub mod record;
pub mod table;
