//! What can go wrong when the Sprout encoding is read or written.

use vstd::prelude::*;

verus! {

/// Why a Sprout encoding could not be read.
#[derive(Debug, Clone, Copy, PartialEq, Eq, Structural)]
pub enum ReadError {
    /// The input ended before the field being read was complete.
    UnexpectedEof,
    /// A CompactSize count was non-canonical, or above `MAX_COMPACT_SIZE`.
    InvalidCompactSize,
    /// `vpub_old` was above `MAX_MONEY`.
    VpubOldOutOfRange,
    /// `vpub_new` was above `MAX_MONEY`.
    VpubNewOutOfRange,
}

/// Why a Sprout encoding could not be written.
#[derive(Debug, Clone, Copy, PartialEq, Eq, Structural)]
pub enum WriteError {
    /// The number of JoinSplits exceeds `MAX_COMPACT_SIZE`.
    CompactSizeTooLarge,
}

} // verus!
