//! Partial hash aggregation: rows of columnar blocks are grouped by an
//! injective byte key and fed, group by group, into per-group accumulators.

pub mod value;
pub mod group_key;
pub mod block;
pub mod error;
pub mod aggregate;
pub mod key_index;
pub mod grouper;
pub mod table;
pub mod transform;
pub mod laws;
