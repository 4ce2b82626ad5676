//! Store region model: header + packed blocks over a raw byte buffer.
//!
//! The region is read byte-wise and written word-wise; a single 32-bit
//! aligned write is the atomicity unit the durability protocol builds on.
//! Words are little-endian.  The body (everything after the 8-byte header)
//! is addressed in 4-byte words.

use vstd::prelude::*;
use crate::marker::{KIND_EMPTY, encode, kind_of, vl_of, marker_valid, MarkerKind, lemma_enc_fields};

verus! {

/// Bytes taken by the store header (magic + header checksum).
pub const HEADER_BYTES: usize = 8;

/// The magic word that identifies a formatted region.
pub const MAGIC: u32 = 0xf5d97e41;

/// A little-endian 32-bit word assembled from four bytes.
pub open spec fn le32(b0: u8, b1: u8, b2: u8, b3: u8) -> u32 {
    (b0 as u32) | ((b1 as u32) << 8) | ((b2 as u32) << 16) | ((b3 as u32) << 24)
}

/// The word stored at a byte offset.
pub open spec fn u32_at(r: Seq<u8>, off: int) -> u32
    recommends
        0 <= off,
        off + 4 <= r.len(),
{
    le32(r[off], r[off + 1], r[off + 2], r[off + 3])
}

/// How many whole words the body (after the header) holds.
pub open spec fn body_words(r: Seq<u8>) -> int {
    (r.len() - HEADER_BYTES) / 4
}

/// The byte offset of a body word.
pub open spec fn word_off(wi: int) -> int {
    HEADER_BYTES + 4 * wi
}

/// The body word at a word index.
pub open spec fn word_at(r: Seq<u8>, wi: int) -> u32
    recommends
        0 <= wi < body_words(r),
{
    u32_at(r, word_off(wi))
}

/// A buffer this store can interpret at all: room for the header and at
/// least one block, and whole words throughout.
pub open spec fn region_shape_ok(r: Seq<u8>) -> bool {
    &&& r.len() >= 12
    &&& r.len() % 4 == 0
}

/// The header checksum: the magic word folded with a fixed mask, so the
/// header's second word is a constant as long as the magic is.  That is all
/// a torn or missing header write needs to be caught; it detects nothing
/// adversarial, like the marker checksum.
pub open spec fn header_csum_of(m: u32) -> u32 {
    m ^ 0xa5a5a5a5
}

/// A region whose header validates: right shape, right magic, right checksum.
/// A region failing this is unformatted and unusable until reformatted.
pub open spec fn header_valid(r: Seq<u8>) -> bool {
    &&& region_shape_ok(r)
    &&& u32_at(r, 0) == MAGIC
    &&& u32_at(r, 4) == header_csum_of(MAGIC)
}

/// The payload bytes of an occupied block whose marker sits at word `off`
/// and declares `len` payload words.
pub open spec fn payload_at(r: Seq<u8>, off: int, len: int) -> Seq<u8>
    recommends
        0 <= off,
        0 <= len,
        word_off(off + 1 + len) <= r.len(),
{
    r.subrange(word_off(off + 1), word_off(off + 1 + len))
}

/// Reads the word at a byte offset.
pub fn read_u32_at(v: &Vec<u8>, off: usize) -> (w: u32)
    requires
        off + 4 <= v@.len(),
    ensures
        w == u32_at(v@, off as int),
{
    let n = v.len();
    assert(off + 4 <= n);
    let b0 = v[off];
    let b1 = v[off + 1];
    let b2 = v[off + 2];
    let b3 = v[off + 3];
    (b0 as u32) | ((b1 as u32) << 8) | ((b2 as u32) << 16) | ((b3 as u32) << 24)
}

/// Writes the word at a byte offset, touching exactly those four bytes.
pub fn write_u32_at(v: &mut Vec<u8>, off: usize, w: u32)
    requires
        off + 4 <= old(v)@.len(),
    ensures
        final(v)@.len() == old(v)@.len(),
        u32_at(final(v)@, off as int) == w,
        forall|j: int|
            0 <= j < old(v)@.len() && !(off <= j < off + 4) ==> final(v)@[j] == old(v)@[j],
{
    let n = v.len();
    assert(off + 4 <= n);
    let b0 = #[verifier::truncate] ((w & 0xff) as u8);
    let b1 = #[verifier::truncate] (((w >> 8) & 0xff) as u8);
    let b2 = #[verifier::truncate] (((w >> 16) & 0xff) as u8);
    let b3 = #[verifier::truncate] (((w >> 24) & 0xff) as u8);
    v.set(off, b0);
    v.set(off + 1, b1);
    v.set(off + 2, b2);
    v.set(off + 3, b3);
    proof {
        assert(le32(
            (w & 0xff) as u8,
            ((w >> 8) & 0xff) as u8,
            ((w >> 16) & 0xff) as u8,
            ((w >> 24) & 0xff) as u8,
        ) == w) by (bit_vector);
    }
}

/// The body words tile the buffer exactly: header plus word area.
pub proof fn lemma_region_len(r: Seq<u8>)
    requires
        region_shape_ok(r),
    ensures
        8 + 4 * body_words(r) == r.len(),
        body_words(r) >= 1,
{
    let l = r.len() as int;
    assert(l == 4 * (l / 4)) by (nonlinear_arith)
        requires
            l % 4 == 0,
            l >= 0,
    ;
    assert((l - 8) / 4 == l / 4 - 2);
}

/// A body word index stays inside the buffer.
pub proof fn lemma_word_in_bounds(r: Seq<u8>, wi: int)
    requires
        region_shape_ok(r),
        0 <= wi < body_words(r),
    ensures
        word_off(wi) + 4 <= r.len(),
        8 + 4 * body_words(r) == r.len(),
{
    lemma_region_len(r);
}

/// Reads a body word.
pub fn read_word(v: &Vec<u8>, wi: usize) -> (w: u32)
    requires
        region_shape_ok(v@),
        (wi as int) < body_words(v@),
    ensures
        w == word_at(v@, wi as int),
{
    let n = v.len();
    proof {
        lemma_word_in_bounds(v@, wi as int);
    }
    assert(8 + 4 * (wi as int) + 4 <= n);
    read_u32_at(v, HEADER_BYTES + 4 * wi)
}

/// Writes a body word: one atomic 32-bit write, touching exactly that word.
pub fn write_word(v: &mut Vec<u8>, wi: usize, w: u32)
    requires
        region_shape_ok(old(v)@),
        (wi as int) < body_words(old(v)@),
    ensures
        final(v)@.len() == old(v)@.len(),
        word_at(final(v)@, wi as int) == w,
        forall|j: int|
            0 <= j < old(v)@.len() && !(word_off(wi as int) <= j < word_off(wi as int) + 4)
                ==> final(v)@[j] == old(v)@[j],
        forall|wj: int|
            0 <= wj && wj != wi as int && word_off(wj) + 4 <= old(v)@.len()
                ==> word_at(final(v)@, wj) == word_at(old(v)@, wj),
{
    let n = v.len();
    proof {
        lemma_word_in_bounds(old(v)@, wi as int);
    }
    assert(8 + 4 * (wi as int) + 4 <= n);
    write_u32_at(v, HEADER_BYTES + 4 * wi, w);
    proof {
        assert forall|wj: int|
            0 <= wj && wj != wi as int && word_off(wj) + 4 <= old(v)@.len()
                implies word_at(v@, wj) == word_at(old(v)@, wj) by {
            assert(word_off(wj) + 4 <= word_off(wi as int) || word_off(wi as int) + 4 <= word_off(wj));
        }
    }
}

/// Writes a run of bytes starting at a byte offset, touching exactly that
/// range.  These are the payload writes that precede a block's marker write;
/// they carry no atomicity guarantee of their own.
pub fn write_bytes(v: &mut Vec<u8>, start: usize, data: &Vec<u8>)
    requires
        start + data@.len() <= old(v)@.len(),
    ensures
        final(v)@.len() == old(v)@.len(),
        forall|x: int|
            0 <= x < old(v)@.len() && !(start <= x < start + data@.len()) ==> final(v)@[x] == old(
                v,
            )@[x],
        final(v)@.subrange(start as int, start as int + data@.len()) == data@,
{
    let n = v.len();
    let m = data.len();
    let mut j: usize = 0;
    while j < m
        invariant
            m == data@.len(),
            start + m <= n,
            n == v@.len(),
            j <= m,
            forall|x: int|
                0 <= x < n && !(start <= x < start + j) ==> v@[x] == old(v)@[x],
            forall|x: int| start <= x < start + j ==> v@[x] == data@[x - start],
        decreases m - j,
    {
        let b = data[j];
        v.set(start + j, b);
        j = j + 1;
    }
    proof {
        assert(v@.subrange(start as int, start as int + m) =~= data@);
    }
}

/// Two equal-length byte sequences that agree on a range have equal
/// subranges there.
pub proof fn lemma_subrange_frame(a: Seq<u8>, b: Seq<u8>, lo: int, hi: int)
    requires
        a.len() == b.len(),
        0 <= lo <= hi <= a.len(),
        forall|j: int| lo <= j < hi ==> b[j] == a[j],
    ensures
        b.subrange(lo, hi) == a.subrange(lo, hi),
{
    assert(b.subrange(lo, hi) =~= a.subrange(lo, hi));
}

/// Unallocated space as it sits on media: from word `i` to word `end`, a
/// chain of valid Empty markers whose declared spans tile the whole range.
pub open spec fn empty_chain(r: Seq<u8>, i: int, end: int) -> bool
    decreases end - i,
{
    i >= end || {
        let w = word_at(r, i);
        &&& marker_valid(w)
        &&& kind_of(w) == KIND_EMPTY
        &&& i + 1 + vl_of(w) <= end
        &&& empty_chain(r, i + 1 + vl_of(w), end)
    }
}

/// Space the scanner will pass over without finding an entry: from word `i`
/// to `end`, every step is either a word that fails validation (contained
/// as one free word) or a valid Empty marker whose span stays inside the
/// range.  An empty chain is the clean special case; this also covers stale
/// bytes whose words happen not to validate.
pub open spec fn free_tail(r: Seq<u8>, i: int, end: int) -> bool
    decreases end - i,
{
    i >= end || {
        let w = word_at(r, i);
        if !marker_valid(w) {
            free_tail(r, i + 1, end)
        } else {
            &&& kind_of(w) == KIND_EMPTY
            &&& i + 1 + vl_of(w) <= end
            &&& free_tail(r, i + 1 + vl_of(w), end)
        }
    }
}

/// An empty chain is in particular space the scanner passes over.
pub proof fn lemma_empty_chain_is_free_tail(r: Seq<u8>, i: int, end: int)
    requires
        empty_chain(r, i, end),
    ensures
        free_tail(r, i, end),
    decreases end - i,
{
    if i < end {
        lemma_empty_chain_is_free_tail(r, i + 1 + vl_of(word_at(r, i)), end);
    }
}

/// An empty chain only reads its own words: it survives any write outside
/// its range.
pub proof fn lemma_empty_chain_frame(a: Seq<u8>, b: Seq<u8>, i: int, end: int)
    requires
        empty_chain(a, i, end),
        forall|wj: int| i <= wj < end ==> word_at(b, wj) == word_at(a, wj),
    ensures
        empty_chain(b, i, end),
    decreases end - i,
{
    if i < end {
        lemma_empty_chain_frame(a, b, i + 1 + vl_of(word_at(a, i)), end);
    }
}

/// Two adjacent empty chains make one.
pub proof fn lemma_empty_chain_concat(r: Seq<u8>, a: int, m: int, end: int)
    requires
        a <= m <= end,
        empty_chain(r, a, m),
        empty_chain(r, m, end),
    ensures
        empty_chain(r, a, end),
    decreases m - a,
{
    if a < m {
        lemma_empty_chain_concat(r, a + 1 + vl_of(word_at(r, a)), m, end);
    }
}

/// Writes a chain of Empty markers tiling the body words `[start, end)`,
/// touching no byte outside that range.
pub fn write_empty_chain(v: &mut Vec<u8>, start: usize, end: usize)
    requires
        region_shape_ok(old(v)@),
        start <= end,
        end as int <= body_words(old(v)@),
    ensures
        final(v)@.len() == old(v)@.len(),
        empty_chain(final(v)@, start as int, end as int),
        forall|j: int|
            0 <= j < old(v)@.len() && !(word_off(start as int) <= j < word_off(end as int))
                ==> final(v)@[j] == old(v)@[j],
{
    let mut wi = start;
    while wi < end
        invariant
            region_shape_ok(v@),
            v@.len() == old(v)@.len(),
            start <= wi <= end,
            end as int <= body_words(v@),
            empty_chain(v@, start as int, wi as int),
            forall|j: int|
                0 <= j < old(v)@.len() && !(word_off(start as int) <= j < word_off(wi as int))
                    ==> v@[j] == old(v)@[j],
        decreases end - wi,
    {
        let rem = end - wi;
        let extra: usize = if rem - 1 > 255 {
            255
        } else {
            rem - 1
        };
        let w = encode(MarkerKind::Empty, 0, extra as u8);
        let ghost pre = v@;
        write_word(v, wi, w);
        proof {
            lemma_enc_fields(KIND_EMPTY, 0, extra as u32);
            lemma_empty_chain_frame(pre, v@, start as int, wi as int);
            assert(empty_chain(v@, wi as int + 1 + extra, wi as int + 1 + extra));
            assert(empty_chain(v@, wi as int, wi as int + 1 + extra));
            lemma_empty_chain_concat(v@, start as int, wi as int, wi as int + 1 + extra);
        }
        wi = wi + 1 + extra;
    }
}

/// Formats the region: writes the magic, the header checksum, and one run
/// of Empty markers spanning the whole body.  Destroys any prior contents.
pub fn format(region: &mut Vec<u8>)
    requires
        region_shape_ok(old(region)@),
    ensures
        final(region)@.len() == old(region)@.len(),
        header_valid(final(region)@),
        empty_chain(final(region)@, 0, body_words(final(region)@)),
{
    write_u32_at(region, 0, MAGIC);
    write_u32_at(region, 4, MAGIC ^ 0xa5a5a5a5);
    let body = (region.len() - HEADER_BYTES) / 4;
    let ghost pre = region@;
    write_empty_chain(region, 0, body);
    proof {
        assert(u32_at(region@, 0) == MAGIC);
        assert(u32_at(region@, 4) == header_csum_of(MAGIC));
    }
}

} // verus!
