//! Sprout JoinSplit descriptions and bundles of Zcash transactions: their
//! values, and their canonical binary encoding.

pub mod value;
pub mod error;
pub mod compact_size;
pub mod bytes;
pub mod sprout;
