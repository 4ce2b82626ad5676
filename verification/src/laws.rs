//! The store's general laws, stated over the spec functions that the public
//! contracts use and proved once and for all.

use vstd::prelude::*;
use crate::marker::{KIND_BEGIN, KIND_OCCUPIED, KIND_COMMIT, MAX_ID, enc, lemma_enc_fields};
use crate::region::{body_words, header_valid, empty_chain, free_tail, region_shape_ok, le32,
    u32_at, MAGIC, word_at, lemma_region_len};
use crate::scan::{Cand, ScanOut, scan_from, scan_of, resolve_map, resolve_sup, store_view,
    sup_view_of, lemma_scan_empty_chain, lemma_scan_free_tail};
use crate::store::txn_on_media;

verus! {

/// The map fact the in-session round trip reduces to: `put` ensures the view
/// becomes `insert(id, payload)` and `get` ensures it returns what the view
/// holds of the id, so `put` then `get` yields the payload back.  This says
/// nothing of the bytes; the media side is `put`'s own `txn_on_media` clause.
pub proof fn lemma_round_trip(m: Map<int, Seq<u8>>, id: int, p: Seq<u8>)
    ensures
        m.insert(id, p).dom().contains(id),
        m.insert(id, p)[id] == p,
{
}

/// The map fact the in-session priority rule reduces to: after two stores to
/// one id, a lookup returns the second payload, and other ids are untouched.
/// The scan-order form of the rule is `lemma_resolve_last_wins`.
pub proof fn lemma_later_put_wins(m: Map<int, Seq<u8>>, id: int, a: Seq<u8>, b: Seq<u8>)
    ensures
        m.insert(id, a).insert(id, b)[id] == b,
        forall|o: int| m.dom().contains(o) && o != id ==> m.insert(id, a).insert(id, b)[o] == m[o],
{
}

/// Idempotent reopen: the resolved view, the superseded classification, the
/// scan's candidates and its free count are all functions of the bytes alone
/// — `from_bytes` ensures each equals the spec scan of its input — so two
/// opens of identical bytes reconstruct identical stores.
pub proof fn lemma_reopen_identical(r1: Seq<u8>, r2: Seq<u8>)
    requires
        r1 == r2,
    ensures
        store_view(r1) == store_view(r2),
        sup_view_of(r1) == sup_view_of(r2),
        scan_of(r1) == scan_of(r2),
{
}

/// The resolver classifies every candidate: its id is charged, and the
/// candidate is either the authoritative entry for that id or stands in the
/// superseded list.  No candidate is silently dropped.
pub proof fn lemma_resolver_partition(cands: Seq<Cand>, k: int)
    requires
        0 <= k < cands.len(),
    ensures
        resolve_map(cands).dom().contains(cands[k].id as int),
        resolve_map(cands)[cands[k].id as int] == cands[k] || resolve_sup(cands).contains(
            cands[k],
        ),
    decreases cands.len(),
{
    let id = cands[k].id as int;
    if k < cands.len() - 1 {
        lemma_resolver_partition(cands.drop_last(), k);
        assert(cands.drop_last()[k] == cands[k]);
        let m0 = resolve_map(cands.drop_last());
        let s0 = resolve_sup(cands.drop_last());
        if s0.contains(cands[k]) {
            let i = choose|i: int| 0 <= i < s0.len() && s0[i] == cands[k];
            assert(resolve_sup(cands)[i] == cands[k]);
            assert(resolve_sup(cands).contains(cands[k]));
        } else {
            if cands.last().id as int == id {
                assert(resolve_sup(cands)[s0.len() as int] == cands[k]);
                assert(resolve_sup(cands).contains(cands[k]));
            }
        }
    }
}

/// Rollback at region end: a scan that runs out of region while a
/// transaction is still open never promotes that transaction's candidates —
/// whatever was staged under the unmatched Begin is excluded from the
/// resolved index.
pub proof fn lemma_tail_rollback(r: Seq<u8>, done: Seq<Cand>, opn: Seq<Cand>, free: int)
    ensures
        scan_from(r, body_words(r), done, opn, true, free) == (ScanOut { cands: done, free }),
{
}

/// Empty-run accounting: a region that is one valid header followed by one
/// empty chain — what `format` writes — resolves to the empty view, and its
/// whole body, `len - 8` bytes, is free.
pub proof fn lemma_formatted_region(r: Seq<u8>)
    requires
        header_valid(r),
        empty_chain(r, 0, body_words(r)),
    ensures
        scan_of(r).cands == Seq::<Cand>::empty(),
        4 * scan_of(r).free == r.len() - 8,
        store_view(r) == Map::<int, Seq<u8>>::empty(),
{
    lemma_region_len(r);
    lemma_scan_empty_chain(r, 0, Seq::empty(), Seq::empty(), false, 0);
    assert(resolve_map(scan_of(r).cands) =~= Map::empty());
    assert(store_view(r) =~= Map::<int, Seq<u8>>::empty());
}

/// Crash-truncation, committed case: a region holding one committed
/// single-entry transaction at the start of its body — the shape `put`'s
/// `txn_on_media` clause guarantees — followed only by space the scanner
/// passes over, resolves to exactly that entry.  Truncating the recorded
/// write sequence anywhere after the atomic Commit write leaves such a
/// region, so the entry survives a reset.
pub proof fn lemma_committed_txn_scans(r: Seq<u8>, id: u16, p: Seq<u8>)
    requires
        header_valid(r),
        id <= MAX_ID,
        p.len() % 4 == 0,
        p.len() <= 1020,
        txn_on_media(r, 0, id, p),
        free_tail(r, 3 + p.len() as int / 4, body_words(r)),
    ensures
        store_view(r) == Map::<int, Seq<u8>>::empty().insert(id as int, p),
{
    let pw = p.len() as int / 4;
    let bw = body_words(r);
    lemma_enc_fields(KIND_BEGIN, 0, 0);
    lemma_enc_fields(KIND_OCCUPIED, id as u32, pw as u32);
    lemma_enc_fields(KIND_COMMIT, 0, 0);
    let c = Cand { id, off: 1, len: pw as usize };
    assert(scan_of(r) == scan_from(r, 1, Seq::empty(), Seq::empty(), true, 0));
    assert(scan_from(r, 1, Seq::empty(), Seq::empty(), true, 0) == scan_from(
        r,
        2 + pw,
        Seq::empty(),
        Seq::empty().push(c),
        true,
        0,
    ));
    assert(scan_from(r, 2 + pw, Seq::empty(), Seq::empty().push(c), true, 0) == scan_from(
        r,
        3 + pw,
        Seq::empty() + Seq::empty().push(c),
        Seq::empty(),
        false,
        0,
    ));
    lemma_scan_free_tail(r, 3 + pw, Seq::empty() + Seq::empty().push(c), Seq::empty(), false, 0);
    assert(scan_of(r).cands =~= seq![c]);
    assert(seq![c].drop_last() =~= Seq::<Cand>::empty());
    assert(resolve_map(seq![c].drop_last()) == Map::<int, Cand>::empty());
    assert(resolve_map(seq![c]) == Map::<int, Cand>::empty().insert(id as int, c));
    assert(resolve_map(scan_of(r).cands) == Map::<int, Cand>::empty().insert(id as int, c));
    assert(store_view(r) =~= Map::<int, Seq<u8>>::empty().insert(id as int, p));
}

/// Crash-truncation, uncommitted case: a region whose body starts with a
/// Begin marker and one staged entry but no Commit — the reset shape of a
/// transaction interrupted after the entry's marker write — resolves to the
/// empty view: the staged entry is rolled back, never exposed.
pub proof fn lemma_unterminated_txn_hidden(r: Seq<u8>, id: u16, vl: u32)
    requires
        header_valid(r),
        id <= MAX_ID,
        vl < 256,
        word_at(r, 0) == enc(KIND_BEGIN, 0, 0),
        word_at(r, 1) == enc(KIND_OCCUPIED, id as u32, vl),
        2 + vl <= body_words(r),
        free_tail(r, 2 + vl, body_words(r)),
    ensures
        store_view(r) == Map::<int, Seq<u8>>::empty(),
{
    lemma_enc_fields(KIND_BEGIN, 0, 0);
    lemma_enc_fields(KIND_OCCUPIED, id as u32, vl);
    let c = Cand { id, off: 1, len: vl as usize };
    assert(scan_of(r) == scan_from(r, 1, Seq::empty(), Seq::empty(), true, 0));
    assert(scan_from(r, 1, Seq::empty(), Seq::empty(), true, 0) == scan_from(
        r,
        2 + vl,
        Seq::empty(),
        Seq::empty().push(c),
        true,
        0,
    ));
    lemma_scan_free_tail(r, 2 + vl, Seq::empty(), Seq::empty().push(c), true, 0);
    assert(resolve_map(scan_of(r).cands) =~= Map::<int, Cand>::empty());
    assert(store_view(r) =~= Map::<int, Seq<u8>>::empty());
}

/// Crash-truncation, bare-Begin case: a reset right after the Begin write
/// leaves an empty transaction, which exposes nothing.
pub proof fn lemma_bare_begin_hidden(r: Seq<u8>)
    requires
        header_valid(r),
        1 <= body_words(r),
        word_at(r, 0) == enc(KIND_BEGIN, 0, 0),
        free_tail(r, 1, body_words(r)),
    ensures
        store_view(r) == Map::<int, Seq<u8>>::empty(),
{
    lemma_enc_fields(KIND_BEGIN, 0, 0);
    assert(scan_of(r) == scan_from(r, 1, Seq::empty(), Seq::empty(), true, 0));
    lemma_scan_free_tail(r, 1, Seq::empty(), Seq::empty(), true, 0);
    assert(resolve_map(scan_of(r).cands) =~= Map::<int, Cand>::empty());
    assert(store_view(r) =~= Map::<int, Seq<u8>>::empty());
}

/// Header validation: an all-zero buffer never validates, whatever its
/// size, since its magic word reads as zero.
pub proof fn lemma_all_zero_header_invalid(r: Seq<u8>)
    requires
        forall|j: int| 0 <= j < r.len() ==> r[j] == 0,
    ensures
        !header_valid(r),
{
    if region_shape_ok(r) {
        assert(le32(0, 0, 0, 0) == 0) by (bit_vector);
        assert(u32_at(r, 0) == 0);
        assert(MAGIC != 0);
    }
}

} // verus!
