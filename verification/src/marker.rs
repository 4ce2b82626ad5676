//! Marker codec and checksum engine.
//!
//! A marker is one 32-bit word packed as: kind in bits 0..4, id in bits
//! 4..16, value-or-length in bits 16..24, checksum in bits 24..32.  The
//! checksum covers the other 24 bits; its sole purpose is to detect a torn
//! or partial atomic write, not adversarial tampering.

use vstd::prelude::*;
use crate::StoreError;

verus! {

/// Marker kind tag: an empty run (value-or-length counts additional free words).
pub const KIND_EMPTY: u32 = 1;
/// Marker kind tag: an occupied entry (value-or-length counts payload words).
pub const KIND_OCCUPIED: u32 = 2;
/// Marker kind tag: a transaction begins here.
pub const KIND_BEGIN: u32 = 3;
/// Marker kind tag: the open transaction commits here.
pub const KIND_COMMIT: u32 = 4;

/// Largest id the 12-bit key field can hold.
pub const MAX_ID: u16 = 4095;

/// The 8-bit marker checksum: a byte-fold of the low 24 bits, biased so that
/// an all-zero word never validates.
pub open spec fn csum_of(w: u32) -> u32 {
    ((w ^ (w >> 8) ^ (w >> 16)) & 0xff) ^ 0xa5
}

/// The kind tag packed in bits 0..4.
pub open spec fn kind_of(w: u32) -> u32 {
    w & 0xf
}

/// The 12-bit id packed in bits 4..16.
pub open spec fn id_of(w: u32) -> u32 {
    (w >> 4) & 0xfff
}

/// The value-or-length byte packed in bits 16..24.
pub open spec fn vl_of(w: u32) -> u32 {
    (w >> 16) & 0xff
}

/// The checksum byte stored in bits 24..32.
pub open spec fn stored_csum(w: u32) -> u32 {
    w >> 24
}

/// A marker validates when its stored checksum matches the checksum of its
/// other 24 bits and its kind tag is one this codec knows.
pub open spec fn marker_valid(w: u32) -> bool {
    &&& stored_csum(w) == csum_of(w)
    &&& KIND_EMPTY <= kind_of(w) <= KIND_COMMIT
}

/// Packs the three fields and the checksum over them into one word.
pub open spec fn enc(kind: u32, id: u32, vl: u32) -> u32
    recommends
        kind < 16,
        id < 4096,
        vl < 256,
{
    (kind | (id << 4) | (vl << 16)) | (csum_of(kind | (id << 4) | (vl << 16)) << 24)
}

/// Packing then unpacking gives back the fields, and the packed word validates.
pub proof fn lemma_enc_fields(kind: u32, id: u32, vl: u32)
    by (bit_vector)
    requires
        KIND_EMPTY <= kind <= KIND_COMMIT,
        id < 4096,
        vl < 256,
    ensures
        kind_of(enc(kind, id, vl)) == kind,
        id_of(enc(kind, id, vl)) == id,
        vl_of(enc(kind, id, vl)) == vl,
        marker_valid(enc(kind, id, vl)),
{
}

/// A valid marker is exactly the packing of its own fields: the word is
/// determined by kind, id and value-or-length.
pub proof fn lemma_valid_marker_is_enc(w: u32)
    by (bit_vector)
    requires
        marker_valid(w),
    ensures
        w == enc(kind_of(w), id_of(w), vl_of(w)),
        id_of(w) < 4096,
        vl_of(w) < 256,
{
}

/// Corrupting only the checksum byte of a valid marker always makes it
/// fail validation: the other 24 bits determine the one checksum that passes.
pub proof fn lemma_checksum_corruption_detected(w: u32, w2: u32)
    by (bit_vector)
    requires
        marker_valid(w),
        w2 != w,
        w2 & 0xffffff == w & 0xffffff,
    ensures
        !marker_valid(w2),
{
}

/// The kind tag of a marker, as this codec's callers see it.
#[derive(Clone, Copy, Debug, PartialEq, Eq, Structural)]
pub enum MarkerKind {
    /// Unallocated space: value-or-length counts additional free words.
    Empty,
    /// A stored entry: value-or-length counts payload words.
    Occupied,
    /// A transaction opens at this block.
    TxBegin,
    /// The open transaction commits at this block.
    TxCommit,
}

/// The 4-bit tag a kind packs to.
pub open spec fn kind_code(k: MarkerKind) -> u32 {
    match k {
        MarkerKind::Empty => KIND_EMPTY,
        MarkerKind::Occupied => KIND_OCCUPIED,
        MarkerKind::TxBegin => KIND_BEGIN,
        MarkerKind::TxCommit => KIND_COMMIT,
    }
}

/// The fields of a marker that validated.
pub struct DecodedMarker {
    /// What the block is.
    pub kind: MarkerKind,
    /// The 12-bit id (meaningful for occupied entries).
    pub id: u16,
    /// Inline value or length in words, by kind.
    pub value_or_len: u8,
}

/// Computes the 8-bit checksum over a word's low 24 bits.
fn csum(w: u32) -> (c: u32)
    ensures
        c == csum_of(w),
{
    ((w ^ (w >> 8) ^ (w >> 16)) & 0xff) ^ 0xa5
}

/// Packs kind, id and value-or-length with their checksum into one marker word.
pub fn encode(kind: MarkerKind, id: u16, value_or_len: u8) -> (w: u32)
    requires
        id <= MAX_ID,
    ensures
        w == enc(kind_code(kind), id as u32, value_or_len as u32),
        marker_valid(w),
{
    let k: u32 = match kind {
        MarkerKind::Empty => KIND_EMPTY,
        MarkerKind::Occupied => KIND_OCCUPIED,
        MarkerKind::TxBegin => KIND_BEGIN,
        MarkerKind::TxCommit => KIND_COMMIT,
    };
    let base: u32 = k | ((id as u32) << 4) | ((value_or_len as u32) << 16);
    proof {
        lemma_enc_fields(k, id as u32, value_or_len as u32);
    }
    base | (csum(base) << 24)
}

/// Unpacks a marker word, verifying its checksum and kind tag; a word that
/// fails either check is reported as `Corrupt`.
pub fn decode(w: u32) -> (r: Result<DecodedMarker, StoreError>)
    ensures
        r is Ok <==> marker_valid(w),
        r matches Ok(d) ==> {
            &&& kind_code(d.kind) == kind_of(w)
            &&& d.id as u32 == id_of(w)
            &&& d.value_or_len as u32 == vl_of(w)
        },
        r matches Err(e) ==> e == StoreError::Corrupt,
{
    if (w >> 24) != csum(w) {
        return Err(StoreError::Corrupt);
    }
    let kind = match w & 0xf {
        1 => MarkerKind::Empty,
        2 => MarkerKind::Occupied,
        3 => MarkerKind::TxBegin,
        4 => MarkerKind::TxCommit,
        _ => {
            return Err(StoreError::Corrupt);
        },
    };
    let id_bits: u32 = (w >> 4) & 0xfff;
    let vl_bits: u32 = (w >> 16) & 0xff;
    assert((w >> 4) & 0xfff < 4096 && (w >> 16) & 0xff < 256) by (bit_vector);
    Ok(DecodedMarker { kind, id: id_bits as u16, value_or_len: vl_bits as u8 })
}

} // verus!
