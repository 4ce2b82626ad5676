//! Mini Ram Transactional Store: a key-value persistence layer over a
//! fixed-size byte region that stays self-consistent across an abrupt reset
//! at any instant during a write.
//!
//! The region is a header followed by packed blocks.  Each block starts with
//! a 32-bit marker (kind, 12-bit id, length-or-value, 8-bit checksum); the
//! marker is written last, by a single atomic 32-bit write, so a block is
//! valid exactly when its marker is.  Updates append a new block and rely on
//! scan-order priority to demote the old one; multi-entry transactions are
//! bracketed by Begin/Commit markers and become durable at the atomic Commit
//! write.  Opening a region scans every marker, rolls back unterminated
//! transactions, and resolves duplicate ids in favour of the physically
//! latest block.

use vstd::prelude::*;

pub mod marker;
pub mod region;
pub mod scan;
pub mod store;
pub mod laws;

pub use store::Mrts;
pub use store::TxnHandle;

verus! {

/// Everything a store operation can surface to the caller.
///
/// Corruption found during a scan is contained internally and never reaches
/// the caller; `Corrupt` is only reported by the marker codec itself.
#[derive(Clone, Copy, Debug, PartialEq, Eq, Structural)]
pub enum StoreError {
    /// The header's magic or checksum is invalid: the region is unformatted.
    FormatError,
    /// A marker failed its embedded checksum.
    Corrupt,
    /// No free run is large enough for the requested block.
    OutOfSpace,
    /// The id lies outside the 12-bit key space.
    InvalidId,
}

} // verus!
