//! The store: free-space manager, transaction engine, and the session state
//! rebuilt by the recovery scan.
//!
//! A `Mrts` exclusively owns its backing region for the session.  All
//! mutation goes through the transaction engine: payload words are written
//! first, the block's marker last (one atomic 32-bit write), and a
//! multi-entry transaction becomes durable only at the atomic Commit write.
//! Updates never touch an existing block: they append and let scan-order
//! priority demote the old version, which stays on media as superseded
//! until a compaction pass reclaims it.
//!
//! Every mutation's media effect is pinned locally by its contract: which
//! marker words it sets, which payload bytes it lays down, and that every
//! other byte stays.  Whether the whole region re-resolves to the session
//! view after a reset also depends on what the region held before this
//! session: a word the earlier scan passed over can validate as a marker,
//! and a Begin written into reclaimed space demotes whatever such strays
//! had kept open.  The laws module states the re-scan outcome for the
//! shapes this engine writes over scanned-free space.

use vstd::prelude::*;
use crate::StoreError;
use crate::marker::{
    KIND_OCCUPIED, KIND_BEGIN, KIND_COMMIT, MAX_ID, enc, encode, MarkerKind, lemma_enc_fields,
    lemma_valid_marker_is_enc, decode,
};
use crate::region::{
    HEADER_BYTES, MAGIC, body_words, word_at, word_off, u32_at, payload_at, region_shape_ok,
    header_valid, read_u32_at, read_word, write_word, write_bytes, write_empty_chain,
    empty_chain, lemma_empty_chain_frame, lemma_word_in_bounds, lemma_subrange_frame,
};
use crate::scan::{
    Cand, scan_from, scan_of, resolve_map, store_view, resolve_sup, sup_view_of,
    lemma_resolve_step, lemma_resolve_sup_step, lemma_resolve_id,
};

verus! {

/// Where an occupied block sits: its marker's word index and its payload
/// length in words.
#[derive(Clone, Copy)]
struct EntryLoc {
    off: usize,
    len: usize,
}

/// A free run: `words` contiguous unallocated body words starting at `off`.
#[derive(Clone, Copy)]
struct Run {
    off: usize,
    words: usize,
}

/// A superseded physical entry: still on media, no longer authoritative.
#[derive(Clone, Copy)]
struct SupEntry {
    id: u16,
    loc: EntryLoc,
}

/// An entry staged inside the open transaction: on media but not yet
/// covered by a Commit.
#[derive(Clone, Copy)]
struct StagedEntry {
    id: u16,
    loc: EntryLoc,
}

/// The caller's token for the open transaction.
pub struct TxnHandle {
    gen: u64,
}

/// Total words of a sequence of free runs.
spec fn sum_words(s: Seq<Run>) -> int
    decreases s.len(),
{
    if s.len() == 0 {
        0
    } else {
        sum_words(s.drop_last()) + s.last().words
    }
}

proof fn lemma_sum_nonneg(s: Seq<Run>)
    ensures
        sum_words(s) >= 0,
    decreases s.len(),
{
    if s.len() > 0 {
        lemma_sum_nonneg(s.drop_last());
    }
}

proof fn lemma_sum_update(s: Seq<Run>, k: int, r: Run)
    requires
        0 <= k < s.len(),
    ensures
        sum_words(s.update(k, r)) == sum_words(s) - s[k].words + r.words,
    decreases s.len(),
{
    if k == s.len() - 1 {
        assert(s.update(k, r).drop_last() =~= s.drop_last());
    } else {
        assert(s.update(k, r).drop_last() =~= s.drop_last().update(k, r));
        lemma_sum_update(s.drop_last(), k, r);
    }
}

proof fn lemma_sum_elem(s: Seq<Run>, k: int)
    requires
        0 <= k < s.len(),
    ensures
        sum_words(s) >= s[k].words,
    decreases s.len(),
{
    if k == s.len() - 1 {
        lemma_sum_nonneg(s.drop_last());
    } else {
        lemma_sum_elem(s.drop_last(), k);
    }
}

proof fn lemma_sum_push(s: Seq<Run>, r: Run)
    ensures
        sum_words(s.push(r)) == sum_words(s) + r.words,
{
    assert(s.push(r).drop_last() =~= s);
}

proof fn lemma_sum_swap_remove(s: Seq<Run>, k: int)
    requires
        0 <= k < s.len(),
    ensures
        sum_words(s.update(k, s.last()).drop_last()) == sum_words(s) - s[k].words,
{
    lemma_sum_update(s, k, s.last());
    assert(s.update(k, s.last()).last() == s.last());
}

/// Two word ranges that do not overlap.
spec fn disj(ao: int, al: int, bo: int, bl: int) -> bool {
    ao + al <= bo || bo + bl <= ao
}

/// A scanned candidate's block really is on media as claimed: a valid
/// Occupied marker carrying exactly this id and length, fully in bounds.
spec fn cand_ok(r: Seq<u8>, c: Cand) -> bool {
    &&& c.id <= MAX_ID
    &&& c.len <= 255
    &&& c.off + 1 + c.len <= body_words(r)
    &&& word_at(r, c.off as int) == enc(KIND_OCCUPIED as u32, c.id as u32, c.len as u32)
}

/// Same, for an indexed location under a given id.
spec fn block_ok(r: Seq<u8>, id: u16, loc: EntryLoc) -> bool {
    &&& id <= MAX_ID
    &&& loc.len <= 255
    &&& loc.off + 1 + loc.len <= body_words(r)
    &&& word_at(r, loc.off as int) == enc(KIND_OCCUPIED as u32, id as u32, loc.len as u32)
}

/// Applying staged writes charges no id that neither the base map nor the
/// staged sequence carries.
proof fn lemma_apply_dom(m: Map<int, Seq<u8>>, s: Seq<(u16, Seq<u8>)>)
    ensures
        forall|id: int|
            apply_staged(m, s).dom().contains(id) ==> m.dom().contains(id) || exists|j: int|
                0 <= j < s.len() && (#[trigger] s[j]).0 as int == id,
    decreases s.len(),
{
    if s.len() > 0 {
        lemma_apply_dom(m, s.drop_last());
        assert forall|id: int| apply_staged(m, s).dom().contains(id) implies m.dom().contains(id)
            || exists|j: int| 0 <= j < s.len() && (#[trigger] s[j]).0 as int == id by {
            if id == s.last().0 as int {
                assert(s[s.len() - 1].0 as int == id);
            } else {
                assert(apply_staged(m, s.drop_last()).dom().contains(id));
                if !m.dom().contains(id) {
                    let j = choose|j: int|
                        0 <= j < s.drop_last().len() && (#[trigger] s.drop_last()[j]).0 as int
                            == id;
                    assert(s[j].0 as int == id);
                }
            }
        }
    }
}

/// One forward step of applying staged writes.
proof fn lemma_apply_step(m: Map<int, Seq<u8>>, s: Seq<(u16, Seq<u8>)>, t: int)
    requires
        0 <= t < s.len(),
    ensures
        apply_staged(m, s.take(t + 1)) == apply_staged(m, s.take(t)).insert(
            s[t].0 as int,
            s[t].1,
        ),
        demoted(m, s.take(t + 1)) == demoted(m, s.take(t)) + (if apply_staged(
            m,
            s.take(t),
        ).dom().contains(s[t].0 as int) {
            seq![(s[t].0, apply_staged(m, s.take(t))[s[t].0 as int])]
        } else {
            Seq::<(u16, Seq<u8>)>::empty()
        }),
{
    assert(s.take(t + 1).drop_last() =~= s.take(t));
    assert(s.take(t + 1).last() == s[t]);
}

/// The state in the middle of staging a write, after the transaction has
/// claimed its run (from `lo` to `txn_end`) and before the new block is
/// placed: only bytes inside the claimed window differ from `s0`, every
/// live block and free run lies outside it, and at least `pw + 2` words
/// (block plus the reserved Commit slot) are still unused.
spec fn staging_ok(s0: Mrts, s: Mrts, lo: int, pw: int) -> bool {
    let r0 = s0.region@;
    let r = s.region@;
    let bw = body_words(r0);
    &&& r.len() == r0.len()
    &&& s.index@ == s0.index@
    &&& s.sup@ == s0.sup@
    &&& s.staged@ == s0.staged@
    &&& s.free_words == sum_words(s.free@)
    &&& s.txn_open
    &&& s.claimed
    &&& s.txn_gen == s0.txn_gen
    &&& 0 <= lo <= s.txn_next
    &&& s.txn_next + pw + 2 <= s.txn_end <= bw
    &&& forall|x: int|
        0 <= x < r.len() && !(word_off(lo) <= x < word_off(s.txn_end as int)) ==> r[x] == r0[x]
    &&& forall|id: int|
        0 <= id < 4096 && s0.index@[id] is Some ==> disj(
            (#[trigger] s0.index@[id]->Some_0).off as int,
            1 + s0.index@[id]->Some_0.len as int,
            lo,
            s.txn_end - lo,
        )
    &&& forall|j: int|
        0 <= j < s0.sup@.len() ==> disj(
            (#[trigger] s0.sup@[j]).loc.off as int,
            1 + s0.sup@[j].loc.len as int,
            lo,
            s.txn_end - lo,
        )
    &&& forall|j: int|
        0 <= j < s0.staged@.len() ==> (#[trigger] s0.staged@[j]).loc.off + 1
            + s0.staged@[j].loc.len <= lo
    &&& forall|k: int| 0 <= k < s.free@.len() ==> {
        &&& 1 <= (#[trigger] s.free@[k]).words
        &&& s.free@[k].off + s.free@[k].words <= bw
    }
    &&& forall|k: int|
        0 <= k < s.free@.len() ==> disj(
            (#[trigger] s.free@[k]).off as int,
            s.free@[k].words as int,
            lo,
            s.txn_end - lo,
        )
    &&& forall|k1: int, k2: int|
        #![trigger s.free@[k1], s.free@[k2]]
        0 <= k1 < s.free@.len() && 0 <= k2 < s.free@.len() && k1 != k2 ==> disj(
            s.free@[k1].off as int,
            s.free@[k1].words as int,
            s.free@[k2].off as int,
            s.free@[k2].words as int,
        )
    &&& forall|k: int, id: int|
        #![trigger s.free@[k], s0.index@[id]]
        0 <= k < s.free@.len() && 0 <= id < 4096 && s0.index@[id] is Some ==> disj(
            s.free@[k].off as int,
            s.free@[k].words as int,
            s0.index@[id]->Some_0.off as int,
            1 + s0.index@[id]->Some_0.len as int,
        )
    &&& forall|k: int, j: int|
        #![trigger s.free@[k], s0.sup@[j]]
        0 <= k < s.free@.len() && 0 <= j < s0.sup@.len() ==> disj(
            s.free@[k].off as int,
            s.free@[k].words as int,
            s0.sup@[j].loc.off as int,
            1 + s0.sup@[j].loc.len as int,
        )
    &&& forall|k: int, j: int|
        #![trigger s.free@[k], s0.staged@[j]]
        0 <= k < s.free@.len() && 0 <= j < s0.staged@.len() ==> disj(
            s.free@[k].off as int,
            s.free@[k].words as int,
            s0.staged@[j].loc.off as int,
            1 + s0.staged@[j].loc.len as int,
        )
    &&& 4 * s.free_words + 4 * (s.txn_end - s.txn_next) == s0.avail_bytes() - (if s0.staged@.len()
        == 0 {
        4int
    } else {
        0int
    })
    &&& s.free_words + (s.txn_end - lo) <= bw
}

/// Payload bytes this store accepts in one entry: whole words, up to the
/// 255 payload words one marker can declare.
pub const MAX_PAYLOAD_BYTES: usize = 1020;

/// A committed single-entry transaction as it sits on media at word `o`:
/// its Begin marker, the entry's Occupied marker and payload words, and the
/// Commit marker that made it durable.
pub open spec fn txn_on_media(r: Seq<u8>, o: int, id: u16, p: Seq<u8>) -> bool {
    let pw = p.len() as int / 4;
    &&& 0 <= o
    &&& o + 3 + pw <= body_words(r)
    &&& word_at(r, o) == enc(KIND_BEGIN, 0, 0)
    &&& word_at(r, o + 1) == enc(KIND_OCCUPIED, id as u32, pw as u32)
    &&& payload_at(r, o + 1, pw) == p
    &&& word_at(r, o + 2 + pw) == enc(KIND_COMMIT, 0, 0)
}

/// The map after applying staged writes in order: each write overwrites
/// whatever its id held.
pub open spec fn apply_staged(m: Map<int, Seq<u8>>, s: Seq<(u16, Seq<u8>)>) -> Map<int, Seq<u8>>
    decreases s.len(),
{
    if s.len() == 0 {
        m
    } else {
        apply_staged(m, s.drop_last()).insert(s.last().0 as int, s.last().1)
    }
}

/// The entries a commit demotes, in order: for each staged write whose id
/// already held a payload at that point, the id and the payload it displaces.
pub open spec fn demoted(m: Map<int, Seq<u8>>, s: Seq<(u16, Seq<u8>)>) -> Seq<(u16, Seq<u8>)>
    decreases s.len(),
{
    if s.len() == 0 {
        Seq::empty()
    } else {
        let before = apply_staged(m, s.drop_last());
        demoted(m, s.drop_last()) + if before.dom().contains(s.last().0 as int) {
            seq![(s.last().0, before[s.last().0 as int])]
        } else {
            Seq::empty()
        }
    }
}

/// An instance of the store: exclusive owner of its backing region for the
/// session, plus the resolved index, free-space table and transaction state
/// the recovery scan rebuilt.
pub struct Mrts {
    region: Vec<u8>,
    index: Vec<Option<EntryLoc>>,
    free: Vec<Run>,
    free_words: usize,
    sup: Vec<SupEntry>,
    txn_open: bool,
    claimed: bool,
    txn_next: usize,
    txn_end: usize,
    txn_gen: u64,
    staged: Vec<StagedEntry>,
}

impl Mrts {
    /// The raw bytes of the backing region.
    pub closed spec fn bytes(self) -> Seq<u8> {
        self.region@
    }

    /// The resolved logical content: id to payload bytes.
    pub closed spec fn view_map(self) -> Map<int, Seq<u8>> {
        Map::new(
            |id: int| 0 <= id < 4096 && self.index@[id] is Some,
            |id: int|
                payload_at(
                    self.region@,
                    self.index@[id]->Some_0.off as int,
                    self.index@[id]->Some_0.len as int,
                ),
        )
    }

    /// The demoted physical entries, oldest first: id and the payload bytes
    /// still sitting on media.
    pub closed spec fn superseded_view(self) -> Seq<(u16, Seq<u8>)> {
        self.sup@.map(
            |k: int, s: SupEntry| (s.id, payload_at(self.region@, s.loc.off as int, s.loc.len as int)),
        )
    }

    /// What the open transaction has staged so far, in write order.
    pub closed spec fn staged_view(self) -> Seq<(u16, Seq<u8>)> {
        self.staged@.map(
            |k: int, s: StagedEntry| (s.id, payload_at(self.region@, s.loc.off as int, s.loc.len as int)),
        )
    }

    /// Free space in bytes, as the free-space manager tracks it.
    pub closed spec fn free_bytes_spec(self) -> int {
        4 * sum_words(self.free@)
    }

    /// Free space plus what the open transaction has reserved but not used.
    pub closed spec fn avail_bytes(self) -> int {
        self.free_bytes_spec() + if self.claimed {
            4 * (self.txn_end - self.txn_next)
        } else {
            0
        }
    }

    /// Whether a transaction is open.
    pub closed spec fn txn_open_spec(self) -> bool {
        self.txn_open
    }

    /// Whether `h` is the handle of the currently open transaction.
    pub closed spec fn tx_current(self, h: TxnHandle) -> bool {
        self.txn_open && h.gen == self.txn_gen
    }

    /// The word where the open transaction's Commit marker will go: the
    /// first unused word of its claimed run.
    pub closed spec fn commit_slot(self) -> int {
        self.txn_next as int
    }

    /// Where the open transaction's claimed run ends; the words between the
    /// Commit slot and here return to free space at commit.
    pub closed spec fn claim_end(self) -> int {
        self.txn_end as int
    }

    /// Whether the engine can allocate a block of `pw` payload words for the
    /// next staged write (keeping the Commit slot reserved).
    pub closed spec fn can_alloc(self, pw: int) -> bool {
        if self.claimed {
            self.txn_end - self.txn_next >= pw + 2
        } else {
            exists|k: int| 0 <= k < self.free@.len() && #[trigger] self.free@[k].words >= pw + 3
        }
    }

    /// The session invariant: the header validates; every indexed, staged
    /// and superseded entry is a valid in-bounds Occupied block; free runs
    /// are in bounds, mutually disjoint, and disjoint from every live block
    /// and from the open transaction's reserved range; and the free-word
    /// count is the exact sum of the free runs.
    pub closed spec fn wf(self) -> bool {
        let r = self.region@;
        let bw = body_words(r);
        &&& header_valid(r)
        &&& self.index@.len() == 4096
        &&& forall|id: int|
            0 <= id < 4096 && self.index@[id] is Some ==> block_ok(
                r,
                id as u16,
                #[trigger] self.index@[id]->Some_0,
            )
        &&& forall|k: int|
            0 <= k < self.sup@.len() ==> block_ok(r, self.sup@[k].id, (#[trigger] self.sup@[k]).loc)
        &&& forall|k: int|
            0 <= k < self.staged@.len() ==> block_ok(
                r,
                self.staged@[k].id,
                (#[trigger] self.staged@[k]).loc,
            )
        &&& forall|k: int| 0 <= k < self.free@.len() ==> {
            &&& 1 <= (#[trigger] self.free@[k]).words
            &&& self.free@[k].off + self.free@[k].words <= bw
        }
        &&& forall|k1: int, k2: int|
            #![trigger self.free@[k1], self.free@[k2]]
            0 <= k1 < self.free@.len() && 0 <= k2 < self.free@.len() && k1 != k2 ==> disj(
                self.free@[k1].off as int,
                self.free@[k1].words as int,
                self.free@[k2].off as int,
                self.free@[k2].words as int,
            )
        &&& forall|k: int, id: int|
            #![trigger self.free@[k], self.index@[id]]
            0 <= k < self.free@.len() && 0 <= id < 4096 && self.index@[id] is Some ==> disj(
                self.free@[k].off as int,
                self.free@[k].words as int,
                self.index@[id]->Some_0.off as int,
                1 + self.index@[id]->Some_0.len as int,
            )
        &&& forall|k: int, j: int|
            #![trigger self.free@[k], self.sup@[j]]
            0 <= k < self.free@.len() && 0 <= j < self.sup@.len() ==> disj(
                self.free@[k].off as int,
                self.free@[k].words as int,
                self.sup@[j].loc.off as int,
                1 + self.sup@[j].loc.len as int,
            )
        &&& forall|k: int, j: int|
            #![trigger self.free@[k], self.staged@[j]]
            0 <= k < self.free@.len() && 0 <= j < self.staged@.len() ==> disj(
                self.free@[k].off as int,
                self.free@[k].words as int,
                self.staged@[j].loc.off as int,
                1 + self.staged@[j].loc.len as int,
            )
        &&& self.free_words == sum_words(self.free@)
        &&& self.free_words + (if self.claimed {
            self.txn_end - self.txn_next
        } else {
            0
        }) <= bw
        &&& (self.claimed ==> {
            &&& self.txn_open
            &&& self.txn_next < self.txn_end <= bw
            &&& forall|k: int|
                0 <= k < self.free@.len() ==> disj(
                    (#[trigger] self.free@[k]).off as int,
                    self.free@[k].words as int,
                    self.txn_next as int,
                    self.txn_end - self.txn_next,
                )
            &&& forall|id: int|
                0 <= id < 4096 && self.index@[id] is Some ==> disj(
                    (#[trigger] self.index@[id]->Some_0).off as int,
                    1 + self.index@[id]->Some_0.len as int,
                    self.txn_next as int,
                    self.txn_end - self.txn_next,
                )
            &&& forall|j: int|
                0 <= j < self.sup@.len() ==> disj(
                    (#[trigger] self.sup@[j]).loc.off as int,
                    1 + self.sup@[j].loc.len as int,
                    self.txn_next as int,
                    self.txn_end - self.txn_next,
                )
            &&& forall|j: int|
                0 <= j < self.staged@.len() ==> (#[trigger] self.staged@[j]).loc.off + 1
                    + self.staged@[j].loc.len <= self.txn_next
        })
        &&& (self.claimed <==> self.staged@.len() > 0)
        &&& (!self.txn_open ==> !self.claimed)
    }

    /// Opens a store over the given bytes: validates the header, then runs
    /// the full recovery scan and resolution.  Fails with `FormatError`, and
    /// only with it, exactly when the header does not validate.  On success
    /// the logical content is the resolved view of the bytes, which are kept
    /// unchanged, the free-space table holds exactly the scan's free words,
    /// and no transaction is open.
    pub fn from_bytes(data: Vec<u8>) -> (r: Result<Mrts, StoreError>)
        ensures
            r is Ok <==> header_valid(data@),
            r matches Err(e) ==> e == StoreError::FormatError,
            r matches Ok(s) ==> {
                &&& s.wf()
                &&& s.bytes() == data@
                &&& s.view_map() == store_view(data@)
                &&& s.superseded_view() == sup_view_of(data@)
                &&& s.free_bytes_spec() == 4 * scan_of(data@).free
                &&& !s.txn_open_spec()
                &&& s.staged_view() == Seq::<(u16, Seq<u8>)>::empty()
            },
    {
        let n = data.len();
        if n < 12 || n % 4 != 0 {
            return Err(StoreError::FormatError);
        }
        if read_u32_at(&data, 0) != MAGIC || read_u32_at(&data, 4) != MAGIC ^ 0xa5a5a5a5 {
            return Err(StoreError::FormatError);
        }
        let bw = (n - HEADER_BYTES) / 4;
        proof {
            lemma_word_in_bounds(data@, 0);
            assert(bw as int == body_words(data@));
        }

        // Recovery scan: walk every marker, classify it, and track free space.
        let mut i: usize = 0;
        let mut done: Vec<Cand> = Vec::new();
        let mut opn: Vec<Cand> = Vec::new();
        let mut in_tx = false;
        let mut fruns: Vec<Run> = Vec::new();
        let mut fwords: usize = 0;
        while i < bw
            invariant
                region_shape_ok(data@),
                data@.len() == n,
                bw as int == body_words(data@),
                i <= bw,
                scan_from(data@, i as int, done@, opn@, in_tx, fwords as int) == scan_of(data@),
                forall|k: int| 0 <= k < done@.len() ==> cand_ok(data@, #[trigger] done@[k]),
                forall|k: int| 0 <= k < opn@.len() ==> cand_ok(data@, #[trigger] opn@[k]),
                forall|k: int|
                    0 <= k < done@.len() ==> (#[trigger] done@[k]).off + 1 + done@[k].len <= i,
                forall|k: int|
                    0 <= k < opn@.len() ==> (#[trigger] opn@[k]).off + 1 + opn@[k].len <= i,
                forall|k: int| 0 <= k < fruns@.len() ==> {
                    &&& 1 <= (#[trigger] fruns@[k]).words
                    &&& fruns@[k].off + fruns@[k].words <= i
                },
                forall|k1: int, k2: int|
                    #![trigger fruns@[k1], fruns@[k2]]
                    0 <= k1 < fruns@.len() && 0 <= k2 < fruns@.len() && k1 != k2 ==> disj(
                        fruns@[k1].off as int,
                        fruns@[k1].words as int,
                        fruns@[k2].off as int,
                        fruns@[k2].words as int,
                    ),
                forall|k: int, j: int|
                    #![trigger fruns@[k], done@[j]]
                    0 <= k < fruns@.len() && 0 <= j < done@.len() ==> disj(
                        fruns@[k].off as int,
                        fruns@[k].words as int,
                        done@[j].off as int,
                        1 + done@[j].len as int,
                    ),
                forall|k: int, j: int|
                    #![trigger fruns@[k], opn@[j]]
                    0 <= k < fruns@.len() && 0 <= j < opn@.len() ==> disj(
                        fruns@[k].off as int,
                        fruns@[k].words as int,
                        opn@[j].off as int,
                        1 + opn@[j].len as int,
                    ),
                fwords as int == sum_words(fruns@),
                fwords <= i,
            decreases bw - i,
        {
            let w = read_word(&data, i);
            let ghost fr0 = fruns@;
            match decode(w) {
                Err(_) => {
                    // Corrupt marker: contain it as one word of empty space.
                    note_free(&mut fruns, i, 1);
                    proof {
                        lemma_free_cands_disjoint(fr0, fruns@, done@, i as int, 1);
                        lemma_free_cands_disjoint(fr0, fruns@, opn@, i as int, 1);
                    }
                    fwords = fwords + 1;
                    i = i + 1;
                },
                Ok(d) => {
                    match d.kind {
                        MarkerKind::Empty => {
                            let span = 1 + d.value_or_len as usize;
                            if i + span > bw {
                                // Declared run overruns the region: contain
                                // it as empty space to the region end.
                                let rest = bw - i;
                                note_free(&mut fruns, i, rest);
                                proof {
                                    lemma_free_cands_disjoint(fr0, fruns@, done@, i as int, rest as int);
                                    lemma_free_cands_disjoint(fr0, fruns@, opn@, i as int, rest as int);
                                }
                                fwords = fwords + rest;
                                i = bw;
                            } else {
                                note_free(&mut fruns, i, span);
                                proof {
                                    lemma_free_cands_disjoint(fr0, fruns@, done@, i as int, span as int);
                                    lemma_free_cands_disjoint(fr0, fruns@, opn@, i as int, span as int);
                                }
                                fwords = fwords + span;
                                i = i + span;
                            }
                        },
                        MarkerKind::Occupied => {
                            let span = 1 + d.value_or_len as usize;
                            if i + span > bw {
                                // Overrunning length: treated as empty to the end.
                                let rest = bw - i;
                                note_free(&mut fruns, i, rest);
                                proof {
                                    lemma_free_cands_disjoint(fr0, fruns@, done@, i as int, rest as int);
                                    lemma_free_cands_disjoint(fr0, fruns@, opn@, i as int, rest as int);
                                }
                                fwords = fwords + rest;
                                i = bw;
                            } else {
                                let c = Cand { id: d.id, off: i, len: d.value_or_len as usize };
                                proof {
                                    lemma_valid_marker_is_enc(w);
                                    assert(cand_ok(data@, c));
                                }
                                if in_tx {
                                    opn.push(c);
                                } else {
                                    done.push(c);
                                }
                                i = i + span;
                            }
                        },
                        MarkerKind::TxBegin => {
                            // A Begin abandons whatever transaction was open.
                            opn.clear();
                            in_tx = true;
                            i = i + 1;
                        },
                        MarkerKind::TxCommit => {
                            if in_tx {
                                // Promote the staged candidates.
                                done.append(&mut opn);
                                in_tx = false;
                            }
                            i = i + 1;
                        },
                    }
                },
            }
        }
        assert(done@ == scan_of(data@).cands);
        assert(fwords as int == scan_of(data@).free);

        // Entry resolution: latest candidate wins; older ones are superseded.
        let mut index: Vec<Option<EntryLoc>> = Vec::new();
        let mut z: usize = 0;
        while z < 4096
            invariant
                index@.len() == z,
                z <= 4096,
                forall|id: int| 0 <= id < z ==> (#[trigger] index@[id]) is None,
            decreases 4096 - z,
        {
            index.push(None);
            z = z + 1;
        }
        let mut sup: Vec<SupEntry> = Vec::new();
        let mut t: usize = 0;
        let ghost cands = done@;
        proof {
            assert(cands.take(0) =~= Seq::<Cand>::empty());
            assert(resolve_sup(cands.take(0)) == Seq::<Cand>::empty());
        }
        while t < done.len()
            invariant
                data@.len() == n,
                bw as int == body_words(data@),
                cands == done@,
                t <= done@.len(),
                index@.len() == 4096,
                forall|k: int| 0 <= k < done@.len() ==> cand_ok(data@, #[trigger] done@[k]),
                forall|k: int, j: int|
                    #![trigger fruns@[k], done@[j]]
                    0 <= k < fruns@.len() && 0 <= j < done@.len() ==> disj(
                        fruns@[k].off as int,
                        fruns@[k].words as int,
                        done@[j].off as int,
                        1 + done@[j].len as int,
                    ),
                forall|id: int|
                    0 <= id < 4096 ==> {
                        let m = resolve_map(cands.take(t as int));
                        &&& ((#[trigger] index@[id]) is Some <==> m.dom().contains(id))
                        &&& (index@[id] is Some ==> index@[id]->Some_0.off == m[id].off
                            && index@[id]->Some_0.len == m[id].len)
                    },
                forall|id: int|
                    0 <= id < 4096 && (#[trigger] index@[id]) is Some ==> block_ok(
                        data@,
                        id as u16,
                        index@[id]->Some_0,
                    ),
                forall|k: int, id: int|
                    #![trigger fruns@[k], index@[id]]
                    0 <= k < fruns@.len() && 0 <= id < 4096 && index@[id] is Some ==> disj(
                        fruns@[k].off as int,
                        fruns@[k].words as int,
                        index@[id]->Some_0.off as int,
                        1 + index@[id]->Some_0.len as int,
                    ),
                forall|j: int|
                    0 <= j < sup@.len() ==> block_ok(data@, sup@[j].id, (#[trigger] sup@[j]).loc),
                forall|k: int, j: int|
                    #![trigger fruns@[k], sup@[j]]
                    0 <= k < fruns@.len() && 0 <= j < sup@.len() ==> disj(
                        fruns@[k].off as int,
                        fruns@[k].words as int,
                        sup@[j].loc.off as int,
                        1 + sup@[j].loc.len as int,
                    ),
                sup@.len() == resolve_sup(cands.take(t as int)).len(),
                forall|j: int| 0 <= j < sup@.len() ==> {
                    let rs = resolve_sup(cands.take(t as int));
                    &&& (#[trigger] sup@[j]).id == rs[j].id
                    &&& sup@[j].loc.off == rs[j].off
                    &&& sup@[j].loc.len == rs[j].len
                },
            decreases done@.len() - t,
        {
            let c = done[t];
            proof {
                lemma_resolve_step(cands, t as int);
                lemma_resolve_sup_step(cands, t as int);
                lemma_resolve_id(cands.take(t as int));
            }
            let cur = index[c.id as usize];
            if let Some(oldloc) = cur {
                sup.push(SupEntry { id: c.id, loc: oldloc });
            } else {
                proof {
                    assert(resolve_sup(cands.take(t as int + 1)) =~= resolve_sup(
                        cands.take(t as int),
                    ));
                }
            }
            index.set(c.id as usize, Some(EntryLoc { off: c.off, len: c.len }));
            t = t + 1;
        }
        proof {
            assert(cands.take(done@.len() as int) =~= cands);
        }

        let s = Mrts {
            region: data,
            index,
            free: fruns,
            free_words: fwords,
            sup,
            txn_open: false,
            claimed: false,
            txn_next: 0,
            txn_end: 0,
            txn_gen: 0,
            staged: Vec::new(),
        };
        proof {
            crate::scan::lemma_resolve_dom(cands);
            let m = resolve_map(scan_of(data@).cands);
            assert forall|id: int| m.dom().contains(id) implies 0 <= id < 4096 by {
                let k = choose|k: int|
                    0 <= k < cands.len() && (#[trigger] cands[k]).id as int == id;
                assert(cand_ok(data@, cands[k]));
            };
            assert(s.view_map().dom() =~= store_view(data@).dom());
            assert(s.view_map() =~= store_view(s.region@));
            assert(s.superseded_view() =~= sup_view_of(data@));
            assert(s.staged_view() =~= Seq::<(u16, Seq<u8>)>::empty());
        }
        Ok(s)
    }

    /// Looks an id up in the resolved index and returns a copy of the
    /// authoritative payload, `None` if the id holds no entry, and
    /// `InvalidId`, only and exactly, when the id is out of key space.
    pub fn get(&self, id: u16) -> (r: Result<Option<Vec<u8>>, StoreError>)
        requires
            self.wf(),
        ensures
            r is Err <==> id > MAX_ID,
            r matches Err(e) ==> e == StoreError::InvalidId,
            r matches Ok(p) ==> {
                &&& (p is Some <==> self.view_map().dom().contains(id as int))
                &&& (p matches Some(v) ==> v@ == self.view_map()[id as int])
            },
    {
        if id > MAX_ID {
            return Err(StoreError::InvalidId);
        }
        let slot = self.index[id as usize];
        match slot {
            None => Ok(None),
            Some(loc) => {
                let n = self.region.len();
                proof {
                    assert(self.index@[id as int] is Some);
                    assert(block_ok(self.region@, id, self.index@[id as int]->Some_0));
                    lemma_word_in_bounds(self.region@, loc.off as int);
                }
                let start = HEADER_BYTES + 4 * (loc.off + 1);
                let total = 4 * loc.len;
                let mut out: Vec<u8> = Vec::new();
                let mut j: usize = 0;
                while j < total
                    invariant
                        self.wf(),
                        self.index@[id as int] == Some(loc),
                        id <= MAX_ID,
                        start == word_off(loc.off as int + 1),
                        total == 4 * loc.len,
                        n == self.region@.len(),
                        start + total <= n,
                        j <= total,
                        out@ == self.region@.subrange(start as int, start as int + j),
                    decreases total - j,
                {
                    let b = self.region[start + j];
                    out.push(b);
                    proof {
                        assert(out@ =~= self.region@.subrange(start as int, start as int + j + 1));
                    }
                    j = j + 1;
                }
                proof {
                    assert(out@ == payload_at(self.region@, loc.off as int, loc.len as int));
                }
                Ok(Some(out))
            },
        }
    }

    /// Ends the session and hands the backing region back to the caller,
    /// exactly as the store last left it on media.
    pub fn into_bytes(self) -> (r: Vec<u8>)
        ensures
            r@ == self.bytes(),
    {
        self.region
    }

    /// Reports the free space in bytes the free-space manager tracks.
    pub fn free_bytes(&self) -> (n: usize)
        requires
            self.wf(),
        ensures
            n as int == self.free_bytes_spec(),
    {
        let l = self.region.len();
        proof {
            crate::region::lemma_region_len(self.region@);
            assert(4 * self.free_words <= l);
        }
        self.free_words * 4
    }

    /// The resolved index as a finite sequence of (id, payload) pairs in
    /// ascending id order: exactly one pair per id the store holds.  Derived
    /// freshly from the index, so iteration is restartable at will.
    pub fn entries(&self) -> (list: Vec<(u16, Vec<u8>)>)
        requires
            self.wf(),
        ensures
            forall|k: int| 0 <= k < list@.len() ==> {
                &&& self.view_map().dom().contains((#[trigger] list@[k]).0 as int)
                &&& list@[k].1@ == self.view_map()[list@[k].0 as int]
            },
            forall|k1: int, k2: int|
                #![trigger list@[k1], list@[k2]]
                0 <= k1 < k2 < list@.len() ==> list@[k1].0 < list@[k2].0,
            forall|id: int|
                self.view_map().dom().contains(id) ==> exists|k: int|
                    0 <= k < list@.len() && (#[trigger] list@[k]).0 as int == id,
    {
        let mut list: Vec<(u16, Vec<u8>)> = Vec::new();
        let mut i: usize = 0;
        while i < 4096
            invariant
                self.wf(),
                i <= 4096,
                forall|k: int| 0 <= k < list@.len() ==> {
                    &&& (#[trigger] list@[k]).0 < i
                    &&& self.view_map().dom().contains(list@[k].0 as int)
                    &&& list@[k].1@ == self.view_map()[list@[k].0 as int]
                },
                forall|k1: int, k2: int|
                    #![trigger list@[k1], list@[k2]]
                    0 <= k1 < k2 < list@.len() ==> list@[k1].0 < list@[k2].0,
                forall|id: int|
                    0 <= id < i && self.view_map().dom().contains(id) ==> exists|k: int|
                        0 <= k < list@.len() && (#[trigger] list@[k]).0 as int == id,
            decreases 4096 - i,
        {
            let got = self.get(i as u16);
            let ghost lpre = list@;
            match got {
                Ok(Some(p)) => {
                    list.push((i as u16, p));
                },
                _ => {},
            }
            proof {
                assert forall|id: int|
                    0 <= id < i + 1 && self.view_map().dom().contains(id) implies exists|k: int|
                    0 <= k < list@.len() && (#[trigger] list@[k]).0 as int == id by {
                    if id == i as int {
                        assert(list@[list@.len() - 1].0 as int == id);
                    } else {
                        let k = choose|k: int|
                            0 <= k < lpre.len() && (#[trigger] lpre[k]).0 as int == id;
                        assert(list@[k].0 as int == id);
                    }
                };
            }
            i = i + 1;
        }
        proof {
            assert forall|id: int| self.view_map().dom().contains(id) implies 0 <= id < 4096 by {};
        }
        list
    }

    /// Opens a transaction.  Purely in memory: no marker is written until
    /// the first staged write, so abandoning an empty transaction leaves no
    /// trace on media.
    pub fn begin(&mut self) -> (h: TxnHandle)
        requires
            old(self).wf(),
            !old(self).txn_open_spec(),
        ensures
            final(self).wf(),
            final(self).tx_current(h),
            final(self).txn_open_spec(),
            final(self).staged_view() == Seq::<(u16, Seq<u8>)>::empty(),
            final(self).bytes() == old(self).bytes(),
            final(self).view_map() == old(self).view_map(),
            final(self).superseded_view() == old(self).superseded_view(),
            final(self).free_bytes_spec() == old(self).free_bytes_spec(),
            final(self).avail_bytes() == old(self).avail_bytes(),
            forall|pw: int| #[trigger] final(self).can_alloc(pw) <==> old(self).can_alloc(pw),
            header_valid(final(self).bytes()),
    {
        self.txn_gen = if self.txn_gen == u64::MAX {
            0
        } else {
            self.txn_gen + 1
        };
        self.txn_open = true;
        proof {
            assert(self.view_map() =~= old(self).view_map());
            assert(self.superseded_view() =~= old(self).superseded_view());
            assert(self.staged_view() =~= Seq::<(u16, Seq<u8>)>::empty());
            assert forall|pw: int| #[trigger] self.can_alloc(pw) <==> old(self).can_alloc(
                pw,
            ) by {
                if old(self).can_alloc(pw) {
                    let k = choose|k: int|
                        0 <= k < old(self).free@.len() && #[trigger] old(
                            self,
                        ).free@[k].words >= pw + 3;
                    assert(0 <= k < self.free@.len() && self.free@[k].words >= pw + 3);
                }
                if self.can_alloc(pw) {
                    let k = choose|k: int|
                        0 <= k < self.free@.len() && #[trigger] self.free@[k].words >= pw + 3;
                    assert(0 <= k < old(self).free@.len() && old(self).free@[k].words >= pw + 3);
                }
            }
        }
        TxnHandle { gen: self.txn_gen }
    }

    /// Stages one entry inside the open transaction: allocates from the
    /// transaction's free run, writes the payload words first and then the
    /// Occupied marker, all physically after the Begin marker (written here
    /// on the first staged write) and before the Commit slot kept in
    /// reserve.  The staged entry is on media but not yet authoritative: the
    /// logical view is unchanged until `commit`.
    #[verifier::rlimit(100)]
    pub fn write(&mut self, h: &TxnHandle, id: u16, payload: &Vec<u8>) -> (r: Result<
        (),
        StoreError,
    >)
        requires
            old(self).wf(),
            old(self).tx_current(*h),
            payload@.len() % 4 == 0,
            payload@.len() <= MAX_PAYLOAD_BYTES,
        ensures
            final(self).wf(),
            final(self).tx_current(*h),
            final(self).bytes().len() == old(self).bytes().len(),
            final(self).view_map() == old(self).view_map(),
            final(self).superseded_view() == old(self).superseded_view(),
            r is Err ==> *final(self) == *old(self),
            r matches Err(e) ==> (e == StoreError::InvalidId <==> id > MAX_ID) && (e
                == StoreError::InvalidId || e == StoreError::OutOfSpace),
            id <= MAX_ID ==> (r is Ok <==> old(self).can_alloc(payload@.len() as int / 4)),
            r is Ok ==> final(self).staged_view() == old(self).staged_view().push((id, payload@)),
            r is Ok ==> final(self).avail_bytes() == old(self).avail_bytes() - 4 * (
            payload@.len() as int / 4 + 1) - (if old(self).staged_view().len() == 0 {
                4int
            } else {
                0int
            }),
            header_valid(final(self).bytes()),
            r is Ok ==> {
                let pw = payload@.len() as int / 4;
                let moff = final(self).commit_slot() - 1 - pw;
                &&& 0 <= moff
                &&& final(self).commit_slot() + 1 <= final(self).claim_end() <= body_words(
                    final(self).bytes(),
                )
                &&& word_at(final(self).bytes(), moff) == enc(KIND_OCCUPIED, id as u32, pw as u32)
                &&& payload_at(final(self).bytes(), moff, pw) == payload@
                &&& (old(self).staged_view().len() == 0 ==> 1 <= moff && word_at(
                    final(self).bytes(),
                    moff - 1,
                ) == enc(KIND_BEGIN, 0, 0))
            },
    {
        if id > MAX_ID {
            return Err(StoreError::InvalidId);
        }
        let pw = payload.len() / 4;
        let n = self.region.len();
        proof {
            crate::region::lemma_region_len(self.region@);
        }
        let ghost s0 = *self;
        let ghost lo: int = 0int;
        if !self.claimed {
            let sel = find_run(&self.free, pw + 3);
            if sel == self.free.len() {
                return Err(StoreError::OutOfSpace);
            }
            let ghost f0 = self.free@;
            let run = self.free.swap_remove(sel);
            proof {
                lemma_sum_swap_remove(f0, sel as int);
                lemma_sum_elem(f0, sel as int);
                let fnew = self.free@;
                let seli = sel as int;
                let last = f0.len() - 1;
                assert forall|k: int| 0 <= k < fnew.len() implies #[trigger] fnew[k] == f0[swap_src(
                    k,
                    seli,
                    last,
                )] && swap_src(k, seli, last) != seli && 0 <= swap_src(k, seli, last)
                    < f0.len() by {}
            }
            self.free_words = self.free_words - run.words;
            self.claimed = true;
            self.txn_next = run.off;
            self.txn_end = run.off + run.words;
            let w = encode(MarkerKind::TxBegin, 0, 0);
            write_word(&mut self.region, self.txn_next, w);
            self.txn_next = self.txn_next + 1;
            proof {
                lo = run.off as int;
                assert(word_at(self.region@, lo) == enc(KIND_BEGIN, 0, 0));
                assert(staging_ok(s0, *self, lo, pw as int));
            }
        } else {
            if self.txn_end - self.txn_next < pw + 2 {
                return Err(StoreError::OutOfSpace);
            }
            proof {
                lo = self.txn_next as int;
                assert(staging_ok(s0, *self, lo, pw as int));
            }
        }
        let moff = self.txn_next;
        let start = HEADER_BYTES + 4 * (moff + 1);
        let ghost rpre = self.region@;
        write_bytes(&mut self.region, start, payload);
        let ghost rmid = self.region@;
        let w2 = encode(MarkerKind::Occupied, id, pw as u8);
        write_word(&mut self.region, moff, w2);
        self.staged.push(StagedEntry { id, loc: EntryLoc { off: moff, len: pw } });
        self.txn_next = moff + 1 + pw;
        proof {
            lemma_enc_fields(KIND_OCCUPIED as u32, id as u32, pw as u32);
            let r0 = s0.region@;
            let rf = self.region@;
            let bw = body_words(r0);
            let hi = self.txn_end as int;
            // Everything outside the claimed window is exactly as it was.
            assert forall|x: int|
                0 <= x < r0.len() && !(word_off(lo) <= x < word_off(hi)) implies rf[x] == r0[x] by {
                assert(word_off(lo) <= word_off(moff as int));
                assert(word_off(moff as int + 1 + pw as int) <= word_off(hi));
            };
            // The header and every pre-existing block survive untouched.
            assert(u32_at(rf, 0) == u32_at(r0, 0));
            assert(u32_at(rf, 4) == u32_at(r0, 4));
            assert forall|idx: int| 0 <= idx < 4096 && s0.index@[idx] is Some implies {
                &&& block_ok(rf, idx as u16, #[trigger] self.index@[idx]->Some_0)
                &&& payload_at(rf, self.index@[idx]->Some_0.off as int, self.index@[idx]->Some_0.len as int)
                    == payload_at(r0, s0.index@[idx]->Some_0.off as int, s0.index@[idx]->Some_0.len as int)
            } by {
                let b = s0.index@[idx]->Some_0;
                assert(block_ok(r0, idx as u16, b));
                lemma_subrange_frame(r0, rf, word_off(b.off as int + 1), word_off(b.off as int + 1 + b.len as int));
            };
            assert forall|j: int| 0 <= j < s0.sup@.len() implies {
                &&& block_ok(rf, s0.sup@[j].id, (#[trigger] s0.sup@[j]).loc)
                &&& payload_at(rf, s0.sup@[j].loc.off as int, s0.sup@[j].loc.len as int)
                    == payload_at(r0, s0.sup@[j].loc.off as int, s0.sup@[j].loc.len as int)
            } by {
                let b = s0.sup@[j].loc;
                assert(block_ok(r0, s0.sup@[j].id, b));
                lemma_subrange_frame(r0, rf, word_off(b.off as int + 1), word_off(b.off as int + 1 + b.len as int));
            };
            assert forall|j: int| 0 <= j < s0.staged@.len() implies {
                &&& block_ok(rf, s0.staged@[j].id, (#[trigger] s0.staged@[j]).loc)
                &&& payload_at(rf, s0.staged@[j].loc.off as int, s0.staged@[j].loc.len as int)
                    == payload_at(r0, s0.staged@[j].loc.off as int, s0.staged@[j].loc.len as int)
            } by {
                let b = s0.staged@[j].loc;
                assert(block_ok(r0, s0.staged@[j].id, b));
                lemma_subrange_frame(r0, rf, word_off(b.off as int + 1), word_off(b.off as int + 1 + b.len as int));
            };
            // The new staged block is on media as written.
            assert(payload_at(rf, moff as int, pw as int) == payload@) by {
                lemma_subrange_frame(rmid, rf, start as int, start as int + payload@.len());
            };
            assert(self.view_map() =~= s0.view_map());
            assert(self.superseded_view() =~= s0.superseded_view());
            assert(self.staged_view() =~= s0.staged_view().push((id, payload@)));
            // The staged block is exactly where the contract places it.
            assert(self.commit_slot() - 1 - pw == moff);
            if s0.staged@.len() == 0 {
                assert(word_at(rpre, moff as int - 1) == enc(KIND_BEGIN, 0, 0));
                assert(word_at(rmid, moff as int - 1) == word_at(rpre, moff as int - 1));
                assert(word_at(rf, moff as int - 1) == word_at(rmid, moff as int - 1));
            }
        }
        Ok(())
    }

    /// Commits the open transaction.  The leftover of the claimed run gets
    /// its Empty markers back first; then the Commit marker is written — the
    /// single atomic write at which every staged entry becomes durable and
    /// authoritative.  Each staged write lands in the view in order,
    /// demoting whatever its id held.  An empty transaction leaves no trace.
    #[verifier::rlimit(100)]
    pub fn commit(&mut self, h: TxnHandle)
        requires
            old(self).wf(),
            old(self).tx_current(h),
        ensures
            final(self).wf(),
            !final(self).txn_open_spec(),
            final(self).staged_view() == Seq::<(u16, Seq<u8>)>::empty(),
            final(self).bytes().len() == old(self).bytes().len(),
            final(self).view_map() == apply_staged(
                old(self).view_map(),
                old(self).staged_view(),
            ),
            final(self).superseded_view() == old(self).superseded_view() + demoted(
                old(self).view_map(),
                old(self).staged_view(),
            ),
            old(self).staged_view().len() == 0 ==> final(self).bytes() == old(self).bytes()
                && final(self).free_bytes_spec() == old(self).free_bytes_spec(),
            old(self).staged_view().len() > 0 ==> final(self).free_bytes_spec() == old(
                self,
            ).avail_bytes() - 4,
            header_valid(final(self).bytes()),
            // The durable effect on media: the Commit marker lands in its
            // slot by the one atomic write, the claimed run's leftover is an
            // empty chain again, and no byte outside the claimed range moves.
            old(self).staged_view().len() > 0 ==> {
                &&& word_at(final(self).bytes(), old(self).commit_slot()) == enc(KIND_COMMIT, 0, 0)
                &&& empty_chain(
                    final(self).bytes(),
                    old(self).commit_slot() + 1,
                    old(self).claim_end(),
                )
                &&& old(self).commit_slot() + 1 <= old(self).claim_end() <= body_words(
                    final(self).bytes(),
                )
                &&& forall|x: int|
                    0 <= x < old(self).bytes().len() && !(word_off(old(self).commit_slot()) <= x
                        < word_off(old(self).claim_end())) ==> final(self).bytes()[x] == old(
                        self,
                    ).bytes()[x]
            },
    {
        let ghost s0 = *old(self);
        if self.staged.len() == 0 {
            self.txn_open = false;
            proof {
                assert(self.view_map() =~= s0.view_map());
                assert(self.superseded_view() =~= s0.superseded_view() + demoted(
                    s0.view_map(),
                    s0.staged_view(),
                ));
                assert(self.staged_view() =~= Seq::<(u16, Seq<u8>)>::empty());
            }
            return ;
        }
        let r0 = self.region.len();
        proof {
            crate::region::lemma_region_len(self.region@);
        }
        let cslot = self.txn_next;
        let hi = self.txn_end;
        // Leftover free space is re-marked before the Commit write, so that
        // the region stays cleanly parseable once the commit is durable.
        write_empty_chain(&mut self.region, cslot + 1, hi);
        let ghost rchain = self.region@;
        let w = encode(MarkerKind::TxCommit, 0, 0);
        write_word(&mut self.region, cslot, w);
        let ghost rf = self.region@;
        proof {
            lemma_empty_chain_frame(rchain, rf, cslot as int + 1, hi as int);
            assert(empty_chain(rf, cslot as int + 1, hi as int));
            assert(word_at(rf, cslot as int) == enc(KIND_COMMIT, 0, 0));
        }
        proof {
            let rold = s0.region@;
            let bw = body_words(rold);
            assert forall|x: int|
                0 <= x < rold.len() && !(word_off(cslot as int) <= x < word_off(hi as int))
                    implies rf[x] == rold[x] by {};
            assert(u32_at(rf, 0) == u32_at(rold, 0));
            assert(u32_at(rf, 4) == u32_at(rold, 4));
            assert forall|idx: int| 0 <= idx < 4096 && s0.index@[idx] is Some implies {
                &&& block_ok(rf, idx as u16, #[trigger] self.index@[idx]->Some_0)
                &&& payload_at(rf, self.index@[idx]->Some_0.off as int, self.index@[idx]->Some_0.len as int)
                    == payload_at(rold, s0.index@[idx]->Some_0.off as int, s0.index@[idx]->Some_0.len as int)
            } by {
                let b = s0.index@[idx]->Some_0;
                assert(block_ok(rold, idx as u16, b));
                lemma_subrange_frame(rold, rf, word_off(b.off as int + 1), word_off(b.off as int + 1 + b.len as int));
            };
            assert forall|j: int| 0 <= j < s0.sup@.len() implies {
                &&& block_ok(rf, s0.sup@[j].id, (#[trigger] s0.sup@[j]).loc)
                &&& payload_at(rf, s0.sup@[j].loc.off as int, s0.sup@[j].loc.len as int)
                    == payload_at(rold, s0.sup@[j].loc.off as int, s0.sup@[j].loc.len as int)
            } by {
                let b = s0.sup@[j].loc;
                assert(block_ok(rold, s0.sup@[j].id, b));
                lemma_subrange_frame(rold, rf, word_off(b.off as int + 1), word_off(b.off as int + 1 + b.len as int));
            };
            assert forall|j: int| 0 <= j < s0.staged@.len() implies {
                &&& block_ok(rf, s0.staged@[j].id, (#[trigger] s0.staged@[j]).loc)
                &&& payload_at(rf, s0.staged@[j].loc.off as int, s0.staged@[j].loc.len as int)
                    == payload_at(rold, s0.staged@[j].loc.off as int, s0.staged@[j].loc.len as int)
            } by {
                let b = s0.staged@[j].loc;
                assert(block_ok(rold, s0.staged@[j].id, b));
                lemma_subrange_frame(rold, rf, word_off(b.off as int + 1), word_off(b.off as int + 1 + b.len as int));
            };
            assert(self.view_map() =~= s0.view_map());
            assert(self.superseded_view() =~= s0.superseded_view());
            assert(self.staged_view() =~= s0.staged_view());
        }
        let leftover = hi - (cslot + 1);
        if leftover > 0 {
            let newoff = cslot + 1;
            let newrun = Run { off: newoff, words: leftover };
            let ghost fpre = self.free@;
            self.free.push(newrun);
            proof {
                lemma_sum_push(fpre, newrun);
            }
            self.free_words = self.free_words + leftover;
        }
        let ghost mb = self.view_map();
        let ghost sv = self.staged_view();
        let ghost fr = self.free@;
        let ghost fw = self.free_words;
        proof {
            assert(mb == s0.view_map());
            assert(sv == s0.staged_view());
            assert(sv.take(0) =~= Seq::<(u16, Seq<u8>)>::empty());
            assert(demoted(mb, sv.take(0)) == Seq::<(u16, Seq<u8>)>::empty());
            assert(apply_staged(mb, sv.take(0)) == mb);
            assert(self.superseded_view() =~= s0.superseded_view() + demoted(mb, sv.take(0)));
        }
        let sn = self.staged.len();
        let mut t: usize = 0;
        while t < sn
            invariant
                t <= sn,
                sn == self.staged@.len(),
                self.staged@ == s0.staged@,
                self.region@ == rf,
                self.free@ == fr,
                self.free_words == fw,
                self.txn_open == s0.txn_open,
                self.txn_gen == s0.txn_gen,
                self.claimed == s0.claimed,
                self.txn_next == cslot,
                self.txn_end == hi,
                self.index@.len() == 4096,
                region_shape_ok(rf),
                rf.len() == s0.region@.len(),
                sv == self.staged_view(),
                forall|j: int|
                    0 <= j < self.staged@.len() ==> block_ok(
                        rf,
                        self.staged@[j].id,
                        (#[trigger] self.staged@[j]).loc,
                    ) && self.staged@[j].loc.off + 1 + self.staged@[j].loc.len <= cslot,
                forall|idx: int|
                    0 <= idx < 4096 ==> {
                        let am = apply_staged(mb, sv.take(t as int));
                        &&& ((#[trigger] self.index@[idx]) is Some <==> am.dom().contains(idx))
                        &&& (self.index@[idx] is Some ==> payload_at(
                            rf,
                            self.index@[idx]->Some_0.off as int,
                            self.index@[idx]->Some_0.len as int,
                        ) == am[idx])
                    },
                forall|idx: int|
                    0 <= idx < 4096 && (#[trigger] self.index@[idx]) is Some ==> block_ok(
                        rf,
                        idx as u16,
                        self.index@[idx]->Some_0,
                    ),
                forall|k: int, idx: int|
                    #![trigger self.free@[k], self.index@[idx]]
                    0 <= k < self.free@.len() && 0 <= idx < 4096 && self.index@[idx] is Some
                        ==> disj(
                        self.free@[k].off as int,
                        self.free@[k].words as int,
                        self.index@[idx]->Some_0.off as int,
                        1 + self.index@[idx]->Some_0.len as int,
                    ),
                forall|k: int, j: int|
                    #![trigger self.free@[k], self.staged@[j]]
                    0 <= k < self.free@.len() && 0 <= j < self.staged@.len() ==> disj(
                        self.free@[k].off as int,
                        self.free@[k].words as int,
                        self.staged@[j].loc.off as int,
                        1 + self.staged@[j].loc.len as int,
                    ),
                self.superseded_view() == s0.superseded_view() + demoted(mb, sv.take(t as int)),
                forall|j: int|
                    0 <= j < self.sup@.len() ==> block_ok(
                        rf,
                        self.sup@[j].id,
                        (#[trigger] self.sup@[j]).loc,
                    ),
                forall|k: int, j: int|
                    #![trigger self.free@[k], self.sup@[j]]
                    0 <= k < self.free@.len() && 0 <= j < self.sup@.len() ==> disj(
                        self.free@[k].off as int,
                        self.free@[k].words as int,
                        self.sup@[j].loc.off as int,
                        1 + self.sup@[j].loc.len as int,
                    ),
            decreases sn - t,
        {
            let e = self.staged[t];
            proof {
                lemma_apply_step(mb, sv, t as int);
                assert(sv[t as int] == (e.id, payload_at(rf, e.loc.off as int, e.loc.len as int)));
                assert(self.superseded_view() == s0.superseded_view() + demoted(
                    mb,
                    sv.take(t as int),
                ));
                assert(self.superseded_view().len() == self.sup@.len());
                assert(s0.superseded_view().len() == s0.sup@.len());
                assert(self.sup@.len() == s0.sup@.len() + demoted(mb, sv.take(t as int)).len());
            }
            let ghost supv0 = self.superseded_view();
            let cur = self.index[e.id as usize];
            let ghost suppre = self.sup@;
            if let Some(oldloc) = cur {
                self.sup.push(SupEntry { id: e.id, loc: oldloc });
                proof {
                    let am = apply_staged(mb, sv.take(t as int));
                    assert(am.dom().contains(e.id as int));
                    assert(am[e.id as int] == payload_at(rf, oldloc.off as int, oldloc.len as int));
                    assert(self.sup@ == suppre.push(SupEntry { id: e.id, loc: oldloc }));
                    assert(sv[t as int].0 == e.id);
                    assert(demoted(mb, sv.take(t as int + 1)) == demoted(mb, sv.take(t as int))
                        + seq![(e.id, am[e.id as int])]);
                    let target = s0.superseded_view() + demoted(mb, sv.take(t as int + 1));
                    let have = self.superseded_view();
                    let x = (e.id, am[e.id as int]);
                    assert(target =~= supv0.push(x));
                    assert forall|q: int| 0 <= q < have.len() implies have[q] == supv0.push(
                        x,
                    )[q] by {
                        assert(have[q] == (
                            self.sup@[q].id,
                            payload_at(rf, self.sup@[q].loc.off as int, self.sup@[q].loc.len as int),
                        ));
                        if q < suppre.len() {
                            assert(self.sup@[q] == suppre[q]);
                            assert(supv0[q] == (
                                suppre[q].id,
                                payload_at(rf, suppre[q].loc.off as int, suppre[q].loc.len as int),
                            ));
                        } else {
                            assert(self.sup@[q] == SupEntry { id: e.id, loc: oldloc });
                        }
                    };
                    assert(have =~= target);
                }
            } else {
                proof {
                    assert(demoted(mb, sv.take(t as int + 1)) =~= demoted(mb, sv.take(t as int)));
                }
            }
            self.index.set(e.id as usize, Some(e.loc));
            t = t + 1;
        }
        proof {
            assert(sv.take(sn as int) =~= sv);
        }
        self.staged.clear();
        self.claimed = false;
        self.txn_open = false;
        proof {
            lemma_apply_dom(mb, sv);
            assert forall|id: int|
                apply_staged(mb, sv).dom().contains(id) implies 0 <= id < 4096 by {
                if !mb.dom().contains(id) {
                    let j = choose|j: int|
                        0 <= j < sv.len() && (#[trigger] sv[j]).0 as int == id;
                    assert(block_ok(rf, s0.staged@[j].id, s0.staged@[j].loc));
                }
            };
            assert(self.view_map().dom() =~= apply_staged(s0.view_map(), s0.staged_view()).dom());
            assert(self.view_map() =~= apply_staged(s0.view_map(), s0.staged_view()));
            assert(self.superseded_view() =~= s0.superseded_view() + demoted(
                s0.view_map(),
                s0.staged_view(),
            ));
            assert(self.staged_view() =~= Seq::<(u16, Seq<u8>)>::empty());
        }
    }

    /// Abandons the open transaction without touching the media: the staged
    /// entries are marked non-authoritative immediately, and the recovery
    /// scan's rollback rule would reach the same outcome after a reset.  The
    /// unused part of the claimed run returns to the free-space table.
    pub fn abort(&mut self, h: TxnHandle)
        requires
            old(self).wf(),
            old(self).tx_current(h),
        ensures
            final(self).wf(),
            !final(self).txn_open_spec(),
            final(self).staged_view() == Seq::<(u16, Seq<u8>)>::empty(),
            final(self).bytes() == old(self).bytes(),
            final(self).view_map() == old(self).view_map(),
            final(self).superseded_view() == old(self).superseded_view(),
            final(self).avail_bytes() == old(self).avail_bytes(),
            old(self).staged_view().len() == 0 ==> final(self).free_bytes_spec() == old(
                self,
            ).free_bytes_spec(),
            header_valid(final(self).bytes()),
    {
        let n = self.region.len();
        proof {
            crate::region::lemma_region_len(self.region@);
        }
        if self.claimed {
            let words = self.txn_end - self.txn_next;
            let off = self.txn_next;
            let ghost fpre = self.free@;
            self.free.push(Run { off, words });
            proof {
                lemma_sum_push(fpre, Run { off, words });
            }
            self.free_words = self.free_words + words;
            self.claimed = false;
        }
        self.staged.clear();
        self.txn_open = false;
        proof {
            assert(self.view_map() =~= old(self).view_map());
            assert(self.superseded_view() =~= old(self).superseded_view());
            assert(self.staged_view() =~= Seq::<(u16, Seq<u8>)>::empty());
        }
    }

    /// Stores one entry as its own transaction: Begin, the entry's block,
    /// and the atomic Commit.  On success the view maps the id to exactly
    /// this payload, the old version (if any) is demoted to superseded, and
    /// free space shrinks by the payload words plus three marker words.  On
    /// failure nothing changes: `InvalidId` exactly when the id is out of
    /// key space, else `OutOfSpace` exactly when no free run can hold the
    /// block and its transaction markers.
    pub fn put(&mut self, id: u16, payload: &Vec<u8>) -> (r: Result<(), StoreError>)
        requires
            old(self).wf(),
            !old(self).txn_open_spec(),
            payload@.len() % 4 == 0,
            payload@.len() <= MAX_PAYLOAD_BYTES,
        ensures
            final(self).wf(),
            !final(self).txn_open_spec(),
            final(self).bytes().len() == old(self).bytes().len(),
            r is Err <==> (id > MAX_ID || !old(self).can_alloc(payload@.len() as int / 4)),
            r matches Err(e) ==> (e == StoreError::InvalidId <==> id > MAX_ID) && (e
                == StoreError::InvalidId || e == StoreError::OutOfSpace),
            r is Err ==> {
                &&& final(self).bytes() == old(self).bytes()
                &&& final(self).view_map() == old(self).view_map()
                &&& final(self).superseded_view() == old(self).superseded_view()
                &&& final(self).free_bytes_spec() == old(self).free_bytes_spec()
            },
            r is Ok ==> final(self).view_map() == old(self).view_map().insert(
                id as int,
                payload@,
            ),
            r is Ok ==> final(self).free_bytes_spec() == old(self).free_bytes_spec() - 4 * (
            payload@.len() as int / 4) - 12,
            r is Ok ==> final(self).superseded_view() == old(self).superseded_view() + (if old(
                self,
            ).view_map().dom().contains(id as int) {
                seq![(id, old(self).view_map()[id as int])]
            } else {
                Seq::<(u16, Seq<u8>)>::empty()
            }),
            header_valid(final(self).bytes()),
            r is Ok ==> exists|o: int| txn_on_media(final(self).bytes(), o, id, payload@),
    {
        if id > MAX_ID {
            return Err(StoreError::InvalidId);
        }
        let h = self.begin();
        let res = self.write(&h, id, payload);
        match res {
            Err(e) => {
                self.abort(h);
                Err(e)
            },
            Ok(()) => {
                let ghost mv = self.view_map();
                let ghost stv = self.staged_view();
                let ghost s1 = *self;
                self.commit(h);
                proof {
                    let pw = payload@.len() as int / 4;
                    let o = s1.commit_slot() - 2 - pw;
                    let rf = self.bytes();
                    assert(word_at(rf, o) == word_at(s1.bytes(), o));
                    assert(word_at(rf, o + 1) == word_at(s1.bytes(), o + 1));
                    lemma_subrange_frame(
                        s1.bytes(),
                        rf,
                        word_off(o + 2),
                        word_off(o + 2 + pw),
                    );
                    assert(payload_at(rf, o + 1, pw) == payload_at(s1.bytes(), o + 1, pw));
                    assert(word_at(rf, o + 2 + pw) == enc(KIND_COMMIT, 0, 0));
                    assert(txn_on_media(rf, o, id, payload@));
                    assert(stv =~= seq![(id, payload@)]);
                    assert(stv.drop_last() =~= Seq::<(u16, Seq<u8>)>::empty());
                    assert(apply_staged(mv, stv.drop_last()) == mv);
                    assert(apply_staged(mv, stv) =~= mv.insert(id as int, payload@));
                    assert(demoted(mv, stv.drop_last()) == Seq::<(u16, Seq<u8>)>::empty());
                    assert(stv.last() == (id, payload@));
                    assert(demoted(mv, stv) == demoted(mv, stv.drop_last()) + (if apply_staged(
                        mv,
                        stv.drop_last(),
                    ).dom().contains(stv.last().0 as int) {
                        seq![(stv.last().0, apply_staged(mv, stv.drop_last())[stv.last().0 as int])]
                    } else {
                        Seq::<(u16, Seq<u8>)>::empty()
                    }));
                    assert(demoted(mv, stv) =~= (if mv.dom().contains(id as int) {
                        seq![(id, mv[id as int])]
                    } else {
                        Seq::<(u16, Seq<u8>)>::empty()
                    }));
                }
                Ok(())
            },
        }
    }
}

/// Where a swap-remove at `sel` moved each surviving element from: itself,
/// except the last element now sitting at `sel`.
spec fn swap_src(k: int, sel: int, last: int) -> int {
    if k == sel && sel < last {
        last
    } else {
        k
    }
}

/// Finds the first free run of at least `need` words; returns the list's
/// length when no run fits.
fn find_run(free: &Vec<Run>, need: usize) -> (sel: usize)
    ensures
        sel <= free@.len(),
        sel < free@.len() ==> free@[sel as int].words >= need,
        sel == free@.len() ==> forall|j: int|
            0 <= j < free@.len() ==> (#[trigger] free@[j]).words < need,
{
    let n = free.len();
    let mut k: usize = 0;
    while k < n
        invariant
            n == free@.len(),
            k <= n,
            forall|j: int| 0 <= j < k ==> (#[trigger] free@[j]).words < need,
        decreases n - k,
    {
        if free[k].words >= need {
            return k;
        }
        k = k + 1;
    }
    n
}

/// Every run of `newr` is an untouched run of `oldr`, the fresh run at
/// `off`, or the last old run (which ended at `off`) extended to cover the
/// fresh words too.
spec fn grew_by(oldr: Seq<Run>, newr: Seq<Run>, off: int, words: int) -> bool {
    forall|k: int| 0 <= k < newr.len() ==> {
        ||| ((#[trigger] newr[k]).off == off && newr[k].words == words)
        ||| (exists|k0: int| 0 <= k0 < oldr.len() && #[trigger] oldr[k0] == newr[k])
        ||| (newr[k].off + newr[k].words == off + words && exists|k0: int|
            0 <= k0 < oldr.len() && (#[trigger] oldr[k0]).off == newr[k].off && oldr[k0].off
                + oldr[k0].words == off)
    }
}

/// Records `words` free words at `off`, coalescing with an adjacent
/// preceding run.  All existing runs must lie at or below `off`.
fn note_free(fruns: &mut Vec<Run>, off: usize, words: usize)
    requires
        1 <= words,
        off + words <= usize::MAX,
        forall|k: int| 0 <= k < old(fruns)@.len() ==> 1 <= (#[trigger] old(fruns)@[k]).words,
        forall|k: int|
            0 <= k < old(fruns)@.len()
                ==> (#[trigger] old(fruns)@[k]).off + old(fruns)@[k].words <= off,
        forall|k1: int, k2: int|
            #![trigger old(fruns)@[k1], old(fruns)@[k2]]
            0 <= k1 < old(fruns)@.len() && 0 <= k2 < old(fruns)@.len() && k1 != k2 ==> disj(
                old(fruns)@[k1].off as int,
                old(fruns)@[k1].words as int,
                old(fruns)@[k2].off as int,
                old(fruns)@[k2].words as int,
            ),
    ensures
        sum_words(final(fruns)@) == sum_words(old(fruns)@) + words,
        forall|k: int| 0 <= k < final(fruns)@.len() ==> 1 <= (#[trigger] final(fruns)@[k]).words,
        forall|k: int|
            0 <= k < final(fruns)@.len()
                ==> (#[trigger] final(fruns)@[k]).off + final(fruns)@[k].words <= off + words,
        forall|k1: int, k2: int|
            #![trigger final(fruns)@[k1], final(fruns)@[k2]]
            0 <= k1 < final(fruns)@.len() && 0 <= k2 < final(fruns)@.len() && k1 != k2 ==> disj(
                final(fruns)@[k1].off as int,
                final(fruns)@[k1].words as int,
                final(fruns)@[k2].off as int,
                final(fruns)@[k2].words as int,
            ),
        grew_by(old(fruns)@, final(fruns)@, off as int, words as int),
{
    let n = fruns.len();
    if n > 0 {
        let last = fruns[n - 1];
        if last.off + last.words == off {
            let merged = Run { off: last.off, words: last.words + words };
            fruns.set(n - 1, merged);
            proof {
                lemma_sum_update(old(fruns)@, n as int - 1, merged);
                assert(fruns@[n as int - 1] == merged);
            }
            return ;
        }
    }
    fruns.push(Run { off, words });
    proof {
        lemma_sum_push(old(fruns)@, Run { off, words });
    }
}

/// Free runs stay disjoint from every candidate block below the watermark
/// after fresh free words are recorded at the watermark.
proof fn lemma_free_cands_disjoint(oldr: Seq<Run>, newr: Seq<Run>, cs: Seq<Cand>, off: int, words: int)
    requires
        grew_by(oldr, newr, off, words),
        forall|k: int, j: int|
            #![trigger oldr[k], cs[j]]
            0 <= k < oldr.len() && 0 <= j < cs.len() ==> disj(
                oldr[k].off as int,
                oldr[k].words as int,
                cs[j].off as int,
                1 + cs[j].len as int,
            ),
        forall|j: int| 0 <= j < cs.len() ==> (#[trigger] cs[j]).off + 1 + cs[j].len <= off,
    ensures
        forall|k: int, j: int|
            #![trigger newr[k], cs[j]]
            0 <= k < newr.len() && 0 <= j < cs.len() ==> disj(
                newr[k].off as int,
                newr[k].words as int,
                cs[j].off as int,
                1 + cs[j].len as int,
            ),
{
    assert forall|k: int, j: int|
        0 <= k < newr.len() && 0 <= j < cs.len() implies disj(
        (#[trigger] newr[k]).off as int,
        newr[k].words as int,
        (#[trigger] cs[j]).off as int,
        1 + cs[j].len as int,
    ) by {
        if newr[k].off == off && newr[k].words == words {
        } else if exists|k0: int| 0 <= k0 < oldr.len() && #[trigger] oldr[k0] == newr[k] {
            let k0 = choose|k0: int| 0 <= k0 < oldr.len() && #[trigger] oldr[k0] == newr[k];
            assert(disj(
                oldr[k0].off as int,
                oldr[k0].words as int,
                cs[j].off as int,
                1 + cs[j].len as int,
            ));
        } else {
            let k0 = choose|k0: int|
                0 <= k0 < oldr.len() && (#[trigger] oldr[k0]).off == newr[k].off && oldr[k0].off
                    + oldr[k0].words == off;
            assert(disj(
                oldr[k0].off as int,
                oldr[k0].words as int,
                cs[j].off as int,
                1 + cs[j].len as int,
            ));
        }
    }
}

} // verus!
