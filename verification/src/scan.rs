//! Recovery scanner and entry resolver, as the mathematical semantics of a
//! region's bytes.
//!
//! `scan_from` is the sequential state machine of the recovery scan: it walks
//! the body words, skips empty runs, treats corrupt markers as one word of
//! empty space, collects occupied entries as candidates, and applies the
//! transaction rules — a Begin abandons any open transaction, a Commit
//! promotes the candidates staged since the matching Begin, and a
//! transaction still open at region end is rolled back.  `resolve_map`
//! then picks, for each id, the physically latest surviving candidate.

use vstd::prelude::*;
use crate::marker::{KIND_EMPTY, KIND_OCCUPIED, KIND_BEGIN, kind_of, id_of, vl_of, marker_valid};
use crate::region::{body_words, word_at, payload_at, empty_chain, free_tail};

verus! {

/// An occupied entry the scanner found: its id, the word index of its
/// marker, and its payload length in words.
#[derive(Clone, Copy)]
pub struct Cand {
    /// The entry's 12-bit id.
    pub id: u16,
    /// Word index of the entry's marker within the body.
    pub off: usize,
    /// Payload length in words.
    pub len: usize,
}

/// What a full scan yields: the surviving candidates in scan order, and how
/// many words of the body are free (empty runs plus corrupt markers).
pub struct ScanOut {
    /// Candidates eligible for resolution, in scan order.
    pub cands: Seq<Cand>,
    /// Free body words discovered.
    pub free: int,
}

/// The recovery scan from word `i`, carrying the candidates already
/// promoted (`done`), those staged under the currently open transaction
/// (`opn`), whether a transaction is open, and the free words seen so far.
pub open spec fn scan_from(
    r: Seq<u8>,
    i: int,
    done: Seq<Cand>,
    opn: Seq<Cand>,
    in_tx: bool,
    free: int,
) -> ScanOut
    decreases body_words(r) - i,
{
    let bw = body_words(r);
    if i < 0 || i >= bw {
        // Region end: a transaction still open is rolled back, so `opn`
        // never reaches the result.
        ScanOut { cands: done, free }
    } else {
        let w = word_at(r, i);
        if !marker_valid(w) {
            // Corrupt marker: its word is treated as empty space.  Its
            // declared length is unusable, so the scan walks the dead
            // block's payload words; a payload word that happens to satisfy
            // the 8-bit checksum is then read as a marker.  Containment of
            // a corrupted block is therefore probabilistic, as a defence
            // against torn writes, not against tampering.
            scan_from(r, i + 1, done, opn, in_tx, free + 1)
        } else if kind_of(w) == KIND_EMPTY || kind_of(w) == KIND_OCCUPIED {
            let span = 1 + vl_of(w);
            if i + span > bw {
                // A declared length overrunning the region is contained by
                // treating the rest of the region as one empty run.
                ScanOut { cands: done, free: free + (bw - i) }
            } else if kind_of(w) == KIND_EMPTY {
                scan_from(r, i + span, done, opn, in_tx, free + span)
            } else {
                let c = Cand { id: id_of(w) as u16, off: i as usize, len: vl_of(w) as usize };
                if in_tx {
                    scan_from(r, i + span, done, opn.push(c), in_tx, free)
                } else {
                    scan_from(r, i + span, done.push(c), opn, in_tx, free)
                }
            }
        } else if kind_of(w) == KIND_BEGIN {
            // A Begin while a transaction is open abandons the earlier one.
            scan_from(r, i + 1, done, Seq::empty(), true, free)
        } else {
            // Commit: promote the staged candidates; a stray Commit with no
            // open transaction is skipped.
            if in_tx {
                scan_from(r, i + 1, done + opn, Seq::empty(), false, free)
            } else {
                scan_from(r, i + 1, done, opn, in_tx, free)
            }
        }
    }
}

/// The full recovery scan of a region.
pub open spec fn scan_of(r: Seq<u8>) -> ScanOut {
    scan_from(r, 0, Seq::empty(), Seq::empty(), false, 0)
}

/// Priority resolution: for each id, the latest candidate in scan order
/// wins; position alone decides precedence.
pub open spec fn resolve_map(cands: Seq<Cand>) -> Map<int, Cand>
    decreases cands.len(),
{
    if cands.len() == 0 {
        Map::empty()
    } else {
        resolve_map(cands.drop_last()).insert(cands.last().id as int, cands.last())
    }
}

/// The logical content of a region: id to payload bytes, over the resolved
/// candidates of a full recovery scan.  This is what `open` reconstructs.
pub open spec fn store_view(r: Seq<u8>) -> Map<int, Seq<u8>> {
    let m = resolve_map(scan_of(r).cands);
    Map::new(
        |id: int| m.dom().contains(id),
        |id: int| payload_at(r, m[id].off as int, m[id].len as int),
    )
}

/// A candidate with no later candidate of the same id is the one the
/// resolver charges with that id: the physically latest entry wins.
pub proof fn lemma_resolve_last_wins(cands: Seq<Cand>, k: int)
    requires
        0 <= k < cands.len(),
        forall|j: int| k < j < cands.len() ==> cands[j].id != cands[k].id,
    ensures
        resolve_map(cands).dom().contains(cands[k].id as int),
        resolve_map(cands)[cands[k].id as int] == cands[k],
    decreases cands.len(),
{
    if k < cands.len() - 1 {
        lemma_resolve_last_wins(cands.drop_last(), k);
    }
}

/// The candidates resolution demotes, in scan order: each candidate that a
/// later candidate of the same id displaces.  Together with `resolve_map`
/// this classifies every candidate: authoritative or superseded.
pub open spec fn resolve_sup(cands: Seq<Cand>) -> Seq<Cand>
    decreases cands.len(),
{
    if cands.len() == 0 {
        Seq::empty()
    } else {
        let m = resolve_map(cands.drop_last());
        resolve_sup(cands.drop_last()) + if m.dom().contains(cands.last().id as int) {
            seq![m[cands.last().id as int]]
        } else {
            Seq::empty()
        }
    }
}

/// The superseded entries of a region, as (id, payload) pairs in scan
/// order: what a fresh recovery scan demotes.
pub open spec fn sup_view_of(r: Seq<u8>) -> Seq<(u16, Seq<u8>)> {
    resolve_sup(scan_of(r).cands).map(
        |k: int, c: Cand| (c.id, payload_at(r, c.off as int, c.len as int)),
    )
}

/// Resolution keys every id to a candidate carrying that id.
pub proof fn lemma_resolve_id(cands: Seq<Cand>)
    ensures
        forall|id: int|
            #[trigger] resolve_map(cands).dom().contains(id) ==> resolve_map(
                cands,
            )[id].id as int == id,
    decreases cands.len(),
{
    if cands.len() > 0 {
        lemma_resolve_id(cands.drop_last());
        assert forall|id: int| #[trigger] resolve_map(cands).dom().contains(id) implies resolve_map(
            cands,
        )[id].id as int == id by {
            if id != cands.last().id as int {
                assert(resolve_map(cands.drop_last()).dom().contains(id));
            }
        }
    }
}

/// One forward step of demotion: extending the candidate prefix by one
/// demotes exactly the entry that prefix resolved for the new candidate's
/// id, if any.
pub proof fn lemma_resolve_sup_step(cands: Seq<Cand>, j: int)
    requires
        0 <= j < cands.len(),
    ensures
        resolve_sup(cands.take(j + 1)) == resolve_sup(cands.take(j)) + (if resolve_map(
            cands.take(j),
        ).dom().contains(cands[j].id as int) {
            seq![resolve_map(cands.take(j))[cands[j].id as int]]
        } else {
            Seq::<Cand>::empty()
        }),
{
    assert(cands.take(j + 1).drop_last() =~= cands.take(j));
    assert(cands.take(j + 1).last() == cands[j]);
}

/// Resolution charges no id that no candidate carries.
pub proof fn lemma_resolve_dom(cands: Seq<Cand>)
    ensures
        forall|id: int|
            resolve_map(cands).dom().contains(id) ==> exists|k: int|
                0 <= k < cands.len() && (#[trigger] cands[k]).id as int == id,
    decreases cands.len(),
{
    if cands.len() > 0 {
        lemma_resolve_dom(cands.drop_last());
        assert forall|id: int| resolve_map(cands).dom().contains(id) implies exists|k: int|
            0 <= k < cands.len() && (#[trigger] cands[k]).id as int == id by {
            if id == cands.last().id as int {
                assert(cands[cands.len() - 1].id as int == id);
            } else {
                assert(resolve_map(cands.drop_last()).dom().contains(id));
                let k = choose|k: int|
                    0 <= k < cands.drop_last().len() && (#[trigger] cands.drop_last()[k]).id as int
                        == id;
                assert(cands.drop_last()[k] == cands[k]);
                assert(cands[k].id as int == id);
            }
        }
    }
}

/// One forward step of resolution: extending the candidate prefix by one
/// inserts that candidate over whatever held its id.
pub proof fn lemma_resolve_step(cands: Seq<Cand>, j: int)
    requires
        0 <= j < cands.len(),
    ensures
        resolve_map(cands.take(j + 1))
            == resolve_map(cands.take(j)).insert(cands[j].id as int, cands[j]),
{
    assert(cands.take(j + 1).drop_last() =~= cands.take(j));
    assert(cands.take(j + 1).last() == cands[j]);
}

/// The scanner never takes a promotion back: whatever stands in `done` when
/// the scan reaches word `i` — every bare entry and every entry of a
/// committed transaction seen so far — is a prefix of the final candidate
/// list, whatever the remaining bytes hold.
pub proof fn lemma_scan_keeps_promoted(
    r: Seq<u8>,
    i: int,
    done: Seq<Cand>,
    opn: Seq<Cand>,
    in_tx: bool,
    free: int,
)
    ensures
        scan_from(r, i, done, opn, in_tx, free).cands.len() >= done.len(),
        forall|k: int|
            0 <= k < done.len() ==> #[trigger] scan_from(r, i, done, opn, in_tx, free).cands[k]
                == done[k],
    decreases body_words(r) - i,
{
    let bw = body_words(r);
    if 0 <= i < bw {
        let w = word_at(r, i);
        if !marker_valid(w) {
            lemma_scan_keeps_promoted(r, i + 1, done, opn, in_tx, free + 1);
        } else if kind_of(w) == KIND_EMPTY || kind_of(w) == KIND_OCCUPIED {
            let span = 1 + vl_of(w);
            if i + span > bw {
            } else if kind_of(w) == KIND_EMPTY {
                lemma_scan_keeps_promoted(r, i + span, done, opn, in_tx, free + span);
            } else {
                let c = Cand { id: id_of(w) as u16, off: i as usize, len: vl_of(w) as usize };
                if in_tx {
                    lemma_scan_keeps_promoted(r, i + span, done, opn.push(c), in_tx, free);
                } else {
                    lemma_scan_keeps_promoted(r, i + span, done.push(c), opn, in_tx, free);
                }
            }
        } else if kind_of(w) == KIND_BEGIN {
            lemma_scan_keeps_promoted(r, i + 1, done, Seq::empty(), true, free);
        } else {
            if in_tx {
                lemma_scan_keeps_promoted(r, i + 1, done + opn, Seq::empty(), false, free);
            } else {
                lemma_scan_keeps_promoted(r, i + 1, done, opn, in_tx, free);
            }
        }
    }
}

/// Scanning a tail the scanner only passes over — empty markers and words
/// that fail validation — finds no further candidates and counts exactly
/// its words as free: a transaction still open there is rolled back, never
/// promoted.
pub proof fn lemma_scan_free_tail(
    r: Seq<u8>,
    i: int,
    done: Seq<Cand>,
    opn: Seq<Cand>,
    in_tx: bool,
    free: int,
)
    requires
        0 <= i <= body_words(r),
        free_tail(r, i, body_words(r)),
    ensures
        scan_from(r, i, done, opn, in_tx, free)
            == (ScanOut { cands: done, free: free + (body_words(r) - i) }),
    decreases body_words(r) - i,
{
    let bw = body_words(r);
    if i < bw {
        let w = word_at(r, i);
        if !marker_valid(w) {
            lemma_scan_free_tail(r, i + 1, done, opn, in_tx, free + 1);
        } else {
            crate::marker::lemma_valid_marker_is_enc(w);
            lemma_scan_free_tail(r, i + 1 + vl_of(w), done, opn, in_tx, free + 1 + vl_of(w));
        }
    }
}

/// Scanning a region whose tail from `i` is one empty chain finds no
/// further candidates and exactly the chain's words as free space: a
/// transaction still open there is rolled back, never promoted.
pub proof fn lemma_scan_empty_chain(
    r: Seq<u8>,
    i: int,
    done: Seq<Cand>,
    opn: Seq<Cand>,
    in_tx: bool,
    free: int,
)
    requires
        0 <= i <= body_words(r),
        empty_chain(r, i, body_words(r)),
    ensures
        scan_from(r, i, done, opn, in_tx, free)
            == (ScanOut { cands: done, free: free + (body_words(r) - i) }),
    decreases body_words(r) - i,
{
    let bw = body_words(r);
    if i < bw {
        let w = word_at(r, i);
        crate::marker::lemma_valid_marker_is_enc(w);
        lemma_scan_empty_chain(r, i + 1 + vl_of(w), done, opn, in_tx, free + 1 + vl_of(w));
    }
}

} // verus!
