use ddnet_snapshot::delta::{CSnapshotDelta, CSnapshotDelta_DiffItem, CSnapshotDelta_New};
use ddnet_snapshot::unpacked::UnpackedSnapshot;

/// Lays out a snapshot: `[data_size, num_items, offsets.., (key, payload..)..]`.
fn snap(items: &[(i32, &[i32])]) -> Vec<i32> {
    let mut offsets = Vec::new();
    let mut data = Vec::new();
    for (key, payload) in items {
        offsets.push((data.len() * 4) as i32);
        data.push(*key);
        data.extend_from_slice(payload);
    }
    let mut out = vec![(data.len() * 4) as i32, items.len() as i32];
    out.extend(offsets);
    out.extend(data);
    out
}

fn key(type_: i32, id: i32) -> i32 {
    (type_ << 16) | id
}

fn items_of(s: &UnpackedSnapshot) -> Vec<(i32, Vec<i32>)> {
    (0..s.num_items()).map(|k| (s.item_key(k), s.item_data(k).to_vec())).collect()
}

fn create(d: &mut CSnapshotDelta, from: &[i32], to: &[i32], len: usize) -> (i32, Vec<i32>) {
    let mut buf = vec![0x5a5a; len];
    let r = d.CreateDelta(from, to, &mut buf).unwrap();
    (r, buf)
}

#[test]
fn diff_item_wraps() {
    let past = [1, 2, i32::MIN, 5];
    let current = [1, 5, i32::MAX, 0];
    let mut out = [0; 4];
    CSnapshotDelta_DiffItem(&past, &current, &mut out);
    assert_eq!(out, [0, 3, -1, -5]);
}

#[test]
fn diff_item_empty() {
    let mut out: [i32; 0] = [];
    CSnapshotDelta_DiffItem(&[], &[], &mut out);
    assert_eq!(out.len(), 0);
}

#[test]
fn empty_delta_is_three_zeros() {
    let delta = CSnapshotDelta_New();
    assert_eq!(delta.EmptyDelta(), &[0, 0, 0]);
}

#[test]
fn data_rate_and_updates_are_zero() {
    let delta = CSnapshotDelta_New();
    assert_eq!(delta.GetDataRate(3), 0);
    assert_eq!(delta.GetDataUpdates(3), 0);
}

#[test]
fn set_staticsize_doc_example() {
    let mut delta = CSnapshotDelta_New();
    assert_eq!(delta.NextStaticsizeType(), 0);
    delta.SetStaticsize(0, 0);
    delta.SetStaticsize(1, 40);
    assert_eq!(delta.NextStaticsizeType(), 2);
    delta.SetStaticsize(5, 8);
    assert_eq!(delta.NextStaticsizeType(), 6);
    delta.SetStaticsize(100, 8);
    assert_eq!(delta.NextStaticsizeType(), 101);
}

#[test]
fn create_delta_of_identical_snapshots_is_empty() {
    let mut d = CSnapshotDelta_New();
    let s = snap(&[(key(1, 123), &[1, 2, 3]), (key(2, 7), &[9])]);
    let (r, buf) = create(&mut d, &s, &s, 64);
    assert_eq!(r, 0);
    assert_eq!(&buf[..3], &[0x5a5a, 0x5a5a, 0x5a5a]);
}

#[test]
fn create_delta_buffer_under_three_words() {
    let mut d = CSnapshotDelta_New();
    let from = snap(&[]);
    let to = snap(&[(key(1, 1), &[1])]);
    let (r, _) = create(&mut d, &from, &to, 2);
    assert_eq!(r, -1);
}

#[test]
fn create_delta_buffer_too_small_for_update() {
    let mut d = CSnapshotDelta_New();
    let from = snap(&[]);
    let to = snap(&[(key(1, 123), &[1, 2, 3])]);
    let (r, _) = create(&mut d, &from, &to, 8);
    assert_eq!(r, -1);
    let (r, _) = create(&mut d, &from, &to, 9);
    assert_eq!(r, 36);
}

#[test]
fn create_delta_buffer_too_small_for_deleted_keys() {
    let mut d = CSnapshotDelta_New();
    let from = snap(&[(key(1, 1), &[1]), (key(1, 2), &[2])]);
    let to = snap(&[]);
    let (r, _) = create(&mut d, &from, &to, 4);
    assert_eq!(r, -1);
    let (r, buf) = create(&mut d, &from, &to, 5);
    assert_eq!(r, 20);
    assert_eq!(&buf[..5], &[2, 0, 0, key(1, 1), key(1, 2)]);
}

#[test]
fn create_delta_new_item_carries_size() {
    let mut d = CSnapshotDelta_New();
    let from = snap(&[]);
    let to = snap(&[(key(1, 123), &[1, 2, 3])]);
    let (r, buf) = create(&mut d, &from, &to, 16);
    assert_eq!(r, 36);
    assert_eq!(&buf[..9], &[0, 1, 0, 1, 123, 3, 1, 2, 3]);
}

#[test]
fn create_delta_static_size_omits_size_word() {
    let mut d = CSnapshotDelta_New();
    d.SetStaticsize(0, 0);
    d.SetStaticsize(1, 12);
    let from = snap(&[]);
    let to = snap(&[(key(1, 123), &[1, 2, 3])]);
    let (r, buf) = create(&mut d, &from, &to, 16);
    assert_eq!(r, 32);
    assert_eq!(&buf[..8], &[0, 1, 0, 1, 123, 1, 2, 3]);
}

#[test]
fn create_delta_changed_item_is_diffed() {
    let mut d = CSnapshotDelta_New();
    let from = snap(&[(key(1, 123), &[1, 2, 3]), (key(4, 0), &[5])]);
    let to = snap(&[(key(1, 123), &[1, 7, 3]), (key(4, 0), &[5])]);
    let (r, buf) = create(&mut d, &from, &to, 16);
    assert_eq!(r, 36);
    assert_eq!(&buf[..9], &[0, 1, 0, 1, 123, 3, 0, 5, 0]);
}

#[test]
fn create_delta_unchanged_item_still_needs_room() {
    // The room check asks for a full record even for an item that turns out
    // to be unchanged.
    let mut d = CSnapshotDelta_New();
    let from = snap(&[(key(1, 1), &[1, 2, 3, 4]), (key(1, 2), &[1])]);
    let to = snap(&[(key(1, 2), &[2]), (key(1, 1), &[1, 2, 3, 4])]);
    let (r, buf) = create(&mut d, &from, &to, 7);
    assert_eq!(r, -1);
    assert_eq!(&buf[..3], &[0x5a5a, 0x5a5a, 0x5a5a]);
    let (r, _) = create(&mut d, &from, &to, 13);
    assert_eq!(r, -1);
    let (r, buf) = create(&mut d, &from, &to, 14);
    assert_eq!(r, 28);
    assert_eq!(&buf[..7], &[0, 1, 0, 1, 2, 1, 1]);
}

#[test]
fn create_delta_deleted_and_new() {
    let mut d = CSnapshotDelta_New();
    let from = snap(&[(key(3, 9), &[4, 4])]);
    let to = snap(&[(key(2, 1), &[8])]);
    let (r, buf) = create(&mut d, &from, &to, 32);
    assert_eq!(r, 32);
    assert_eq!(&buf[..8], &[1, 1, 0, key(3, 9), 2, 1, 1, 8]);
}

#[test]
fn unpack_rejects_short_delta() {
    let mut d = CSnapshotDelta_New();
    let from = snap(&[]);
    assert_eq!(d.UnpackDelta(&from, &[0, 0]).unwrap().err(), Some(-505));
}

#[test]
fn unpack_rejects_negative_counts() {
    let mut d = CSnapshotDelta_New();
    let from = snap(&[]);
    assert_eq!(d.UnpackDelta(&from, &[-1, 0, 0]).unwrap().err(), Some(-201));
    assert_eq!(d.UnpackDelta(&from, &[0, -1, 0]).unwrap().err(), Some(-201));
}

#[test]
fn unpack_rejects_missing_deleted_keys() {
    let mut d = CSnapshotDelta_New();
    let from = snap(&[]);
    assert_eq!(d.UnpackDelta(&from, &[2, 0, 0, 5]).unwrap().err(), Some(-101));
}

fn unpack_error_of(delta: &[i32]) -> (Option<i32>, usize) {
    let mut d = CSnapshotDelta_New();
    let from = snap(&[]);
    let u = d.UnpackDelta(&from, delta).unwrap().ok().unwrap();
    (u.error, u.num_items())
}

#[test]
fn unpack_malformed_records() {
    assert_eq!(unpack_error_of(&[0, 1, 0]), (Some(-102), 0));
    assert_eq!(unpack_error_of(&[0, 1, 0, 1]), (Some(-102), 0));
    assert_eq!(unpack_error_of(&[0, 1, 0, -1, 0]), (Some(-202), 0));
    assert_eq!(unpack_error_of(&[0, 1, 0, 0x8000, 0]), (Some(-202), 0));
    assert_eq!(unpack_error_of(&[0, 1, 0, 1, -1]), (Some(-203), 0));
    assert_eq!(unpack_error_of(&[0, 1, 0, 1, 0x10000]), (Some(-203), 0));
    assert_eq!(unpack_error_of(&[0, 1, 0, 1, 5]), (Some(-103), 0));
    assert_eq!(unpack_error_of(&[0, 1, 0, 1, 5, -1]), (Some(-204), 0));
    assert_eq!(unpack_error_of(&[0, 1, 0, 1, 5, 3, 1]), (Some(-205), 0));
    // The items before a malformed record are kept.
    assert_eq!(unpack_error_of(&[0, 2, 0, 1, 5, 1, 9, 1]), (Some(-102), 1));
}

#[test]
fn unpack_empty_delta_gives_back_base() {
    let mut d = CSnapshotDelta_New();
    let from = snap(&[(key(1, 123), &[1, 2, 3]), (key(2, 7), &[9])]);
    let u = d.UnpackDelta(&from, &[0, 0, 0]).unwrap().ok().unwrap();
    assert_eq!(u.error, None);
    assert_eq!(u.num_base, 2);
    assert_eq!(items_of(&u), vec![(key(1, 123), vec![1, 2, 3]), (key(2, 7), vec![9])]);
}

#[test]
fn unpack_deletes_updates_and_adds() {
    let mut d = CSnapshotDelta_New();
    let from = snap(&[(key(1, 1), &[10, 20]), (key(1, 2), &[30])]);
    // Delete (1, 2); add 5 to the second word of (1, 1); add (3, 4).
    let delta = [1, 2, 0, key(1, 2), 1, 1, 2, 0, 5, 3, 4, 1, 77];
    let u = d.UnpackDelta(&from, &delta).unwrap().ok().unwrap();
    assert_eq!(u.error, None);
    assert_eq!(u.num_base, 1);
    assert_eq!(items_of(&u), vec![(key(1, 1), vec![10, 25]), (key(3, 4), vec![77])]);
    assert_eq!(u.item_type(1), 3);
    assert_eq!(u.item_id(1), 4);
}

#[test]
fn unpack_static_size_record() {
    let mut d = CSnapshotDelta_New();
    d.SetStaticsize(0, 0);
    d.SetStaticsize(1, 8);
    let from = snap(&[]);
    let u = d.UnpackDelta(&from, &[0, 1, 0, 1, 3, 6, 7]).unwrap().ok().unwrap();
    assert_eq!(u.error, None);
    assert_eq!(items_of(&u), vec![(key(1, 3), vec![6, 7])]);
}

#[test]
fn unpack_update_wraps() {
    let mut d = CSnapshotDelta_New();
    let from = snap(&[(key(1, 1), &[i32::MAX])]);
    let u = d.UnpackDelta(&from, &[0, 1, 0, 1, 1, 1, 1]).unwrap().ok().unwrap();
    assert_eq!(items_of(&u), vec![(key(1, 1), vec![i32::MIN])]);
}

fn roundtrip(d: &mut CSnapshotDelta, from: &[i32], to: &[i32]) {
    let (r, buf) = create(d, from, to, 256);
    assert!(r > 0);
    let words = (r / 4) as usize;
    let u = d.UnpackDelta(from, &buf[..words]).unwrap().ok().unwrap();
    assert_eq!(u.error, None);
    let got = items_of(&u);
    let n = to[1] as usize;
    assert_eq!(got.len(), n);
    for i in 0..n {
        let off = to[2 + i] as usize / 4;
        let end = if i + 1 < n { to[3 + i] as usize / 4 } else { to[0] as usize / 4 };
        let k = to[2 + n + off];
        let payload = to[2 + n + off + 1..2 + n + end].to_vec();
        assert!(got.contains(&(k, payload)));
    }
}

#[test]
fn delta_roundtrip_gives_back_target() {
    let mut d = CSnapshotDelta_New();
    d.SetStaticsize(0, 0);
    d.SetStaticsize(1, 8);
    let from = snap(&[(key(1, 1), &[1, 2]), (key(2, 5), &[3, 4, 5]), (key(9, 9), &[0])]);
    let to = snap(&[
        (key(2, 5), &[3, -4, 5]),
        (key(1, 1), &[1, 2]),
        (key(1, 2), &[i32::MIN, 6]),
        (key(70, 1), &[]),
    ]);
    roundtrip(&mut d, &from, &to);
    roundtrip(&mut d, &to, &from);
}

#[test]
fn clone_keeps_static_sizes() {
    let mut d = CSnapshotDelta_New();
    d.SetStaticsize(0, 0);
    d.SetStaticsize(1, 12);
    let mut c = d.Clone();
    assert_eq!(c.NextStaticsizeType(), 2);
    let from = snap(&[]);
    let to = snap(&[(key(1, 123), &[1, 2, 3])]);
    let (r, buf) = create(&mut c, &from, &to, 16);
    assert_eq!(r, 32);
    assert_eq!(&buf[..8], &[0, 1, 0, 1, 123, 1, 2, 3]);
}

#[test]
fn create_delta_refuses_bad_header() {
    let mut d = CSnapshotDelta_New();
    let good = snap(&[(key(1, 1), &[1])]);
    let mut bad = good.clone();
    bad[0] += 4;
    let mut buf = vec![0; 16];
    assert_eq!(d.CreateDelta(&bad, &good, &mut buf), None);
    assert_eq!(d.CreateDelta(&good, &bad, &mut buf), None);
    assert_eq!(d.CreateDelta(&good, &[0], &mut buf), None);
    // A header is checked before the buffer's length.
    assert_eq!(d.CreateDelta(&bad, &good, &mut buf[..2]), None);
    assert_eq!(d.CreateDelta(&good, &good, &mut buf[..2]), Some(-1));
}

#[test]
fn create_delta_refuses_key_outside_snapshot() {
    let mut d = CSnapshotDelta_New();
    let good = snap(&[(key(1, 1), &[1])]);
    let mut bad = good.clone();
    bad[2] = 8;
    let mut buf = vec![0; 16];
    assert_eq!(d.CreateDelta(&bad, &good, &mut buf), None);
    bad[2] = -4;
    assert_eq!(d.CreateDelta(&good, &bad, &mut buf), None);
}

#[test]
fn create_delta_refuses_shorter_base_item() {
    let mut d = CSnapshotDelta_New();
    let from = snap(&[(key(1, 1), &[1])]);
    let to = snap(&[(key(1, 1), &[1, 2])]);
    let mut buf = vec![0; 16];
    assert_eq!(d.CreateDelta(&from, &to, &mut buf), None);
    // Not reached when a full record does not fit.
    assert_eq!(d.CreateDelta(&from, &to, &mut buf[..4]), Some(-1));
    // A longer base item is diffed over the new item's length.
    let long = snap(&[(key(1, 1), &[5, 2])]);
    let (r, buf) = create(&mut d, &long, &from, 16);
    assert_eq!(r, 28);
    assert_eq!(&buf[..7], &[0, 1, 0, 1, 1, 1, -4]);
}

#[test]
fn unpack_refuses_bad_base() {
    let mut d = CSnapshotDelta_New();
    assert!(d.UnpackDelta(&[4, 0], &[0, 0, 0]).is_none());
    // Turned away before the base snapshot is looked at.
    assert_eq!(d.UnpackDelta(&[4, 0], &[0, 0]).unwrap().err(), Some(-505));
    let mut bad = snap(&[(key(1, 1), &[1])]);
    bad[2] = 12;
    assert!(d.UnpackDelta(&bad, &[0, 0, 0]).is_none());
}

#[test]
fn unpack_stops_at_record_beyond_item() {
    let mut d = CSnapshotDelta_New();
    let from = snap(&[(key(1, 1), &[1])]);
    // The items before the record are handed on, then the delta stops.
    let u = d.UnpackDelta(&from, &[0, 1, 0, 1, 1, 2, 5, 6]).unwrap().ok().unwrap();
    assert!(u.crashed);
    assert_eq!(u.error, None);
    assert_eq!(items_of(&u), vec![(key(1, 1), vec![1])]);
    assert_eq!(u.BuildOutcome(Some(0)), Some(-301));
    // A shorter record only changes a prefix.
    let from = snap(&[(key(1, 1), &[1, 2])]);
    let u = d.UnpackDelta(&from, &[0, 1, 0, 1, 1, 1, 5]).unwrap().ok().unwrap();
    assert_eq!(items_of(&u), vec![(key(1, 1), vec![6, 2])]);
}

#[test]
fn unpack_refuses_too_many_deleted_keys() {
    let mut d = CSnapshotDelta_New();
    let from = snap(&[(key(1, 1), &[1])]);
    let mut delta = vec![2049, 0, 0];
    delta.extend((0..2049).map(|k| k + 1_000_000));
    assert!(d.UnpackDelta(&from, &delta).is_none());
    // Exactly as many as the table holds: fine only if every base item is deleted.
    let mut delta = vec![2048, 0, 0];
    delta.extend((0..2048).map(|k| k + 1_000_000));
    assert!(d.UnpackDelta(&from, &delta).is_none());
    delta[3] = key(1, 1);
    let u = d.UnpackDelta(&from, &delta).unwrap().ok().unwrap();
    assert_eq!(u.num_items(), 0);
    // Repeated keys count once.
    let mut delta = vec![3000, 0, 0];
    delta.extend((0..3000).map(|k| k % 100 + 1_000_000));
    let u = d.UnpackDelta(&from, &delta).unwrap().ok().unwrap();
    assert_eq!(items_of(&u), vec![(key(1, 1), vec![1])]);
}

#[test]
fn diff_item_then_add_back_gives_current() {
    let past = [7, -3, i32::MAX, 0];
    let current = [7, 9, i32::MIN, -1];
    let mut out = [0; 4];
    CSnapshotDelta_DiffItem(&past, &current, &mut out);
    let back: Vec<i32> = past
        .iter()
        .zip(out.iter())
        .map(|(p, d)| (*p as u32).wrapping_add(*d as u32) as i32)
        .collect();
    assert_eq!(back, current.to_vec());
    // Applying the same words as an update record does the same.
    let mut d = CSnapshotDelta_New();
    let from = snap(&[(key(1, 1), &past)]);
    let mut delta = vec![0, 1, 0, 1, 1, 4];
    delta.extend_from_slice(&out);
    let u = d.UnpackDelta(&from, &delta).unwrap().ok().unwrap();
    assert_eq!(items_of(&u), vec![(key(1, 1), current.to_vec())]);
}

#[test]
fn room_for_full_records_suffices() {
    let mut d = CSnapshotDelta_New();
    let from = snap(&[(key(1, 1), &[1, 2, 3, 4]), (key(1, 2), &[1])]);
    let to = snap(&[(key(1, 2), &[2]), (key(1, 1), &[1, 2, 3, 4])]);
    // 3 header words, 2 deleted keys at most, records of 3 + 1 and 3 + 4 words.
    let (r, buf) = create(&mut d, &from, &to, 3 + 2 + 4 + 7);
    assert_eq!(r, 28);
    assert_eq!(&buf[..7], &[0, 1, 0, 1, 2, 1, 1]);
}

#[test]
fn repeated_record_changes_the_same_item() {
    let mut d = CSnapshotDelta_New();
    let from = snap(&[(key(1, 1), &[4])]);
    // Two records for the new key (1, 5) and one for the base key (1, 1).
    let delta = [0, 3, 0, 1, 5, 1, 7, 1, 5, 1, 3, 1, 1, 1, 2];
    let u = d.UnpackDelta(&from, &delta).unwrap().ok().unwrap();
    assert_eq!(u.error, None);
    assert_eq!(items_of(&u), vec![(key(1, 1), vec![6]), (key(1, 5), vec![3])]);
}

#[test]
fn build_outcome_codes() {
    let mut d = CSnapshotDelta_New();
    let from = snap(&[(key(1, 1), &[4])]);
    let u = d.UnpackDelta(&from, &[0, 1, 0, 2, 2, 1, 9]).unwrap().ok().unwrap();
    assert_eq!(u.num_base, 1);
    assert_eq!(u.BuildOutcome(Some(0)), Some(-301));
    assert_eq!(u.BuildOutcome(Some(1)), Some(-302));
    assert_eq!(u.BuildOutcome(None), None);
    let u = d.UnpackDelta(&from, &[0, 2, 0, 2, 2, 1, 9, 3]).unwrap().ok().unwrap();
    assert_eq!(u.BuildOutcome(None), Some(-102));
    assert_eq!(u.BuildOutcome(Some(1)), Some(-302));
}

#[test]
fn create_delta_leaves_zeros_where_unchanged_items_were_diffed() {
    let mut d = CSnapshotDelta_New();
    let from = snap(&[(key(1, 123), &[1, 2, 3]), (key(4, 0), &[5, 6])]);
    let to = snap(&[(key(1, 123), &[1, 7, 3]), (key(4, 0), &[5, 6])]);
    let (r, buf) = create(&mut d, &from, &to, 16);
    assert_eq!(r, 36);
    assert_eq!(&buf[..9], &[0, 1, 0, 1, 123, 3, 0, 5, 0]);
    // The unchanged item's would-be record header is left alone, its words are zero.
    assert_eq!(&buf[9..16], &[0x5a5a, 0x5a5a, 0x5a5a, 0, 0, 0x5a5a, 0x5a5a]);
}

#[test]
fn create_delta_leaves_buffer_alone_when_empty() {
    let mut d = CSnapshotDelta_New();
    let s = snap(&[(key(2, 1), &[1, 2])]);
    let (r, buf) = create(&mut d, &s, &s, 8);
    assert_eq!(r, 0);
    assert_eq!(buf, vec![0x5a5a, 0x5a5a, 0x5a5a, 0x5a5a, 0x5a5a, 0x5a5a, 0, 0]);
}

#[test]
fn unpack_stops_at_unreadable_kept_item() {
    let mut d = CSnapshotDelta_New();
    let (k1, k2) = (key(1, 1), key(1, 2));
    // Item 1 ends before its key: its payload cannot be read.
    let from = vec![24, 3, 0, 12, 8, k1, 1, k2, 2, key(1, 3), 3];
    let u = d.UnpackDelta(&from, &[0, 0, 0]).unwrap().ok().unwrap();
    assert!(u.crashed);
    assert_eq!(u.num_base, 1);
    assert_eq!(items_of(&u), vec![(k1, vec![1, k2])]);
    // Deleting the unreadable item's key lets the copy go on.
    let u = d.UnpackDelta(&from, &[1, 0, 0, 2]).unwrap().ok().unwrap();
    assert!(!u.crashed);
    assert_eq!(items_of(&u), vec![(k1, vec![1, k2]), (k2, vec![2, key(1, 3), 3])]);
}

#[test]
fn unpack_stops_after_starting_new_item() {
    let mut d = CSnapshotDelta_New();
    // The base item (1, 1) is deleted; a record re-creates it with more
    // words than the base item has: the new item is started, then the
    // delta stops.
    let from = snap(&[(key(1, 1), &[1])]);
    let u = d.UnpackDelta(&from, &[1, 1, 0, key(1, 1), 1, 1, 2, 5, 6]).unwrap().ok().unwrap();
    assert!(u.crashed);
    assert_eq!(u.num_base, 0);
    assert_eq!(items_of(&u), vec![(key(1, 1), vec![0, 0])]);
    assert_eq!(u.BuildOutcome(Some(0)), Some(-302));
}
