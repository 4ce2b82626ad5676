use mrts::store::Mrts;
use mrts::StoreError;

fn fresh_region(size: usize) -> Vec<u8> {
    let mut buf = vec![0u8; size];
    mrts::region::format(&mut buf);
    buf
}

#[test]
fn all_zero_buffer_fails_open_with_format_error() {
    let buf = vec![0u8; 256];
    match Mrts::from_bytes(buf) {
        Err(e) => assert_eq!(e, StoreError::FormatError),
        Ok(_) => panic!("an unformatted region must not open"),
    }
}

#[test]
fn open_succeeds_after_format() {
    let buf = fresh_region(256);
    assert!(Mrts::from_bytes(buf).is_ok());
}

#[test]
fn tiny_and_odd_regions_fail_open() {
    assert!(Mrts::from_bytes(vec![0u8; 4]).is_err());
    let mut buf = fresh_region(256);
    buf.pop();
    assert!(Mrts::from_bytes(buf).is_err());
}

#[test]
fn round_trip_single_entry() {
    let mut s = Mrts::from_bytes(fresh_region(256)).unwrap();
    let payload = vec![1u8, 2, 3, 4, 5, 6, 7, 8];
    s.put(7, &payload).unwrap();
    assert_eq!(s.get(7).unwrap(), Some(payload));
}

#[test]
fn round_trip_edge_ids_and_sizes() {
    let mut s = Mrts::from_bytes(fresh_region(4096)).unwrap();
    let empty: Vec<u8> = vec![];
    let big = vec![0xabu8; 1020];
    s.put(0, &empty).unwrap();
    s.put(4095, &big).unwrap();
    assert_eq!(s.get(0).unwrap(), Some(empty));
    assert_eq!(s.get(4095).unwrap(), Some(big));
    assert_eq!(s.get(9).unwrap(), None);
}

#[test]
fn invalid_id_is_rejected_before_any_write() {
    let mut s = Mrts::from_bytes(fresh_region(256)).unwrap();
    let free = s.free_bytes();
    assert_eq!(s.put(4096, &vec![0u8; 4]).unwrap_err(), StoreError::InvalidId);
    assert_eq!(s.get(4096).unwrap_err(), StoreError::InvalidId);
    assert_eq!(s.free_bytes(), free);
}

#[test]
fn priority_resolution_later_put_wins_across_reopen() {
    let mut s = Mrts::from_bytes(fresh_region(512)).unwrap();
    let a = vec![0xaau8; 8];
    let b = vec![0xbbu8; 8];
    s.put(5, &a).unwrap();
    s.put(5, &b).unwrap();
    assert_eq!(s.get(5).unwrap(), Some(b.clone()));
    // The old block still sits on media; a fresh scan resolves to B too.
    let bytes = s.into_bytes();
    let reopened = Mrts::from_bytes(bytes).unwrap();
    assert_eq!(reopened.get(5).unwrap(), Some(b));
}

#[test]
fn empty_run_accounting_after_format() {
    // Small region: the whole body fits under one Empty marker.
    let s = Mrts::from_bytes(fresh_region(64)).unwrap();
    assert_eq!(s.free_bytes(), 64 - 8);
    // Large region: a chain of Empty markers still accounts for every byte.
    let s2 = Mrts::from_bytes(fresh_region(8192)).unwrap();
    assert_eq!(s2.free_bytes(), 8192 - 8);
}

#[test]
fn small_format_writes_exactly_one_empty_marker() {
    // 64 bytes: 8 header + 14 body words, spanned by one Empty marker.
    let buf = fresh_region(64);
    let w = u32::from_le_bytes([buf[8], buf[9], buf[10], buf[11]]);
    let d = mrts::marker::decode(w).unwrap();
    assert!(matches!(d.kind, mrts::marker::MarkerKind::Empty));
    assert_eq!(d.value_or_len, 13);
}

#[test]
fn put_reduces_free_space_by_payload_plus_markers() {
    let mut s = Mrts::from_bytes(fresh_region(512)).unwrap();
    let before = s.free_bytes();
    s.put(1, &vec![0u8; 16]).unwrap();
    // Begin + Occupied marker + Commit are one word each.
    assert_eq!(s.free_bytes(), before - 16 - 12);
}

#[test]
fn out_of_space_is_reported_and_harmless() {
    let mut s = Mrts::from_bytes(fresh_region(32)).unwrap();
    let free = s.free_bytes();
    assert_eq!(s.put(1, &vec![0u8; 1020]).unwrap_err(), StoreError::OutOfSpace);
    assert_eq!(s.free_bytes(), free);
    assert_eq!(s.get(1).unwrap(), None);
}

#[test]
fn uncommitted_transaction_rolls_back_on_reopen() {
    let mut s = Mrts::from_bytes(fresh_region(512)).unwrap();
    s.put(1, &vec![0x11u8; 8]).unwrap();
    // A transaction interrupted before its Commit write: the staged entry
    // is on media, the Commit marker is not — as after a reset.
    let h = s.begin();
    s.write(&h, 2, &vec![0x22u8; 8]).unwrap();
    let bytes = s.into_bytes();
    let reopened = Mrts::from_bytes(bytes).unwrap();
    assert_eq!(reopened.get(1).unwrap(), Some(vec![0x11u8; 8]));
    assert_eq!(reopened.get(2).unwrap(), None);
}

#[test]
fn committed_transaction_survives_reopen_whole() {
    let mut s = Mrts::from_bytes(fresh_region(512)).unwrap();
    let h = s.begin();
    s.write(&h, 2, &vec![0x22u8; 8]).unwrap();
    s.write(&h, 3, &vec![0x33u8; 4]).unwrap();
    s.commit(h);
    let bytes = s.into_bytes();
    let reopened = Mrts::from_bytes(bytes).unwrap();
    assert_eq!(reopened.get(2).unwrap(), Some(vec![0x22u8; 8]));
    assert_eq!(reopened.get(3).unwrap(), Some(vec![0x33u8; 4]));
}

#[test]
fn aborted_transaction_is_never_visible() {
    let mut s = Mrts::from_bytes(fresh_region(512)).unwrap();
    let h = s.begin();
    s.write(&h, 9, &vec![0x99u8; 8]).unwrap();
    s.abort(h);
    assert_eq!(s.get(9).unwrap(), None);
    let bytes = s.into_bytes();
    let reopened = Mrts::from_bytes(bytes).unwrap();
    assert_eq!(reopened.get(9).unwrap(), None);
}

#[test]
fn staged_writes_invisible_until_commit() {
    let mut s = Mrts::from_bytes(fresh_region(512)).unwrap();
    let h = s.begin();
    s.write(&h, 4, &vec![0x44u8; 4]).unwrap();
    assert_eq!(s.get(4).unwrap(), None);
    s.commit(h);
    assert_eq!(s.get(4).unwrap(), Some(vec![0x44u8; 4]));
}

#[test]
fn corrupting_one_checksum_hides_only_that_block() {
    let mut s = Mrts::from_bytes(fresh_region(512)).unwrap();
    s.put(1, &vec![0x11u8; 8]).unwrap();
    s.put(2, &vec![0x22u8; 8]).unwrap();
    let mut bytes = s.into_bytes();
    // The first put's transaction starts at body word 0: Begin at word 0,
    // its Occupied marker at word 1.  The marker's checksum is its top byte.
    let first_marker_csum = 8 + 4 * 1 + 3;
    bytes[first_marker_csum] ^= 0xff;
    let reopened = Mrts::from_bytes(bytes).unwrap();
    assert_eq!(reopened.get(1).unwrap(), None);
    assert_eq!(reopened.get(2).unwrap(), Some(vec![0x22u8; 8]));
}

#[test]
fn marker_codec_round_trips_fields() {
    let w = mrts::marker::encode(mrts::marker::MarkerKind::Occupied, 123, 7);
    let d = mrts::marker::decode(w).unwrap();
    assert!(matches!(d.kind, mrts::marker::MarkerKind::Occupied));
    assert_eq!(d.id, 123);
    assert_eq!(d.value_or_len, 7);
}

#[test]
fn marker_codec_rejects_torn_words() {
    // An all-zero word never validates: the checksum is biased.
    assert!(matches!(mrts::marker::decode(0), Err(StoreError::Corrupt)));
    // Any change confined to the checksum byte is always caught.
    let w = mrts::marker::encode(mrts::marker::MarkerKind::Empty, 0, 200);
    for flip in 1u32..256 {
        let torn = w ^ (flip << 24);
        assert!(matches!(mrts::marker::decode(torn), Err(StoreError::Corrupt)));
    }
}

#[test]
fn header_checksum_corruption_fails_open() {
    let mut buf = fresh_region(256);
    buf[4] ^= 0x01;
    assert!(matches!(Mrts::from_bytes(buf), Err(StoreError::FormatError)));
}

#[test]
fn put_lays_the_whole_transaction_on_media() {
    let mut s = Mrts::from_bytes(fresh_region(256)).unwrap();
    s.put(1, &vec![0x5au8; 8]).unwrap();
    let bytes = s.into_bytes();
    // Body words 0..5: Begin, the entry's marker, two payload words, Commit.
    let word = |w: usize| u32::from_le_bytes([bytes[8 + 4 * w], bytes[9 + 4 * w], bytes[10 + 4 * w], bytes[11 + 4 * w]]);
    let begin = mrts::marker::decode(word(0)).unwrap();
    assert!(matches!(begin.kind, mrts::marker::MarkerKind::TxBegin));
    let entry = mrts::marker::decode(word(1)).unwrap();
    assert!(matches!(entry.kind, mrts::marker::MarkerKind::Occupied));
    assert_eq!(entry.id, 1);
    assert_eq!(entry.value_or_len, 2);
    assert_eq!(&bytes[16..24], &[0x5au8; 8]);
    let commit = mrts::marker::decode(word(4)).unwrap();
    assert!(matches!(commit.kind, mrts::marker::MarkerKind::TxCommit));
    // The leftover of the claimed run is an Empty marker again.
    let leftover = mrts::marker::decode(word(5)).unwrap();
    assert!(matches!(leftover.kind, mrts::marker::MarkerKind::Empty));
}

#[test]
fn reopen_is_idempotent() {
    let mut s = Mrts::from_bytes(fresh_region(512)).unwrap();
    s.put(3, &vec![3u8; 4]).unwrap();
    s.put(1, &vec![1u8; 4]).unwrap();
    let bytes = s.into_bytes();
    let s1 = Mrts::from_bytes(bytes.clone()).unwrap();
    let s2 = Mrts::from_bytes(bytes).unwrap();
    let e1: Vec<(u16, Vec<u8>)> = s1.entries();
    let e2: Vec<(u16, Vec<u8>)> = s2.entries();
    assert_eq!(e1, e2);
}

#[test]
fn entries_lists_resolved_index_in_id_order() {
    let mut s = Mrts::from_bytes(fresh_region(1024)).unwrap();
    s.put(40, &vec![4u8; 4]).unwrap();
    s.put(7, &vec![7u8; 8]).unwrap();
    s.put(40, &vec![5u8; 4]).unwrap();
    let e = s.entries();
    assert_eq!(e.len(), 2);
    assert_eq!(e[0], (7u16, vec![7u8; 8]));
    assert_eq!(e[1], (40u16, vec![5u8; 4]));
}

#[test]
fn updates_append_and_old_version_stays_reclaimable() {
    let mut s = Mrts::from_bytes(fresh_region(512)).unwrap();
    let before = s.free_bytes();
    s.put(6, &vec![0x66u8; 8]).unwrap();
    s.put(6, &vec![0x77u8; 8]).unwrap();
    // No in-place update: both versions consumed space.
    assert_eq!(s.free_bytes(), before - 2 * (8 + 12));
    assert_eq!(s.get(6).unwrap(), Some(vec![0x77u8; 8]));
}
