use ddnet_snapshot::builder::{
    finish_result, flat_item_range, AddOutcome, CSnapshotBuilder_New, ItemKind, ItemStep,
    MAX_ID_ATTEMPTS,
};

#[test]
fn new_builder_is_idle() {
    let b = CSnapshotBuilder_New();
    assert!(!b.IsBuilding());
    assert!(!b.IsSixup());
    assert!(!b.HasDroppedItem());
    assert!(!b.UsesBorrowed());
}

#[test]
fn init_starts_building_with_borrowed_store() {
    let mut b = CSnapshotBuilder_New();
    b.Init(true);
    assert!(b.IsBuilding());
    assert!(b.IsSixup());
    assert!(!b.HasDroppedItem());
    assert!(b.UsesBorrowed());
}

#[test]
fn ordinal_item_added_first_try() {
    let mut b = CSnapshotBuilder_New();
    b.Init(false);
    let (mut attempt, step) = b.NewItemBegin(ItemKind::Ordinal, 123);
    assert_eq!(step, ItemStep::Add(123, true));
    assert_eq!(attempt.attempts, 1);
    let next = b.NewItemNext(&mut attempt, AddOutcome::Added);
    assert_eq!(next, ItemStep::Return(true));
    assert!(!b.HasDroppedItem());
    assert!(b.UsesBorrowed());
}

#[test]
fn duplicate_key_retries_next_id() {
    let mut b = CSnapshotBuilder_New();
    b.Init(false);
    let (mut attempt, _) = b.NewItemBegin(ItemKind::Ordinal, 65535);
    let next = b.NewItemNext(&mut attempt, AddOutcome::DuplicateKey);
    assert_eq!(next, ItemStep::Add(0, true));
    assert_eq!(attempt.id, 0);
    assert_eq!(attempt.attempts, 2);
}

#[test]
fn duplicate_keys_give_up_silently() {
    let mut b = CSnapshotBuilder_New();
    b.Init(false);
    let (mut attempt, _) = b.NewItemBegin(ItemKind::Ordinal, 10);
    let mut tries = 1;
    loop {
        let next = b.NewItemNext(&mut attempt, AddOutcome::DuplicateKey);
        if let ItemStep::Return(r) = next {
            assert!(r);
            break;
        }
        assert_eq!(next, ItemStep::Add(10 + tries as u16, true));
        tries += 1;
    }
    assert_eq!(tries, MAX_ID_ATTEMPTS);
    assert!(!b.HasDroppedItem());
}

#[test]
fn full_snapshot_drops_and_records() {
    let mut b = CSnapshotBuilder_New();
    b.Init(false);
    let (mut attempt, _) = b.NewItemBegin(ItemKind::Ordinal, 1);
    assert_eq!(b.NewItemNext(&mut attempt, AddOutcome::TooLongSnap), ItemStep::Return(false));
    assert!(b.HasDroppedItem());
    let (mut attempt, _) = b.NewItemBegin(ItemKind::Ordinal, 2);
    assert_eq!(b.NewItemNext(&mut attempt, AddOutcome::Added), ItemStep::Return(true));
    assert!(b.HasDroppedItem());
    // A batch reports only its own items.
    assert!(b.NewItemsFlatFinish(&[true]));
    assert!(!b.NewItemsFlatFinish(&[true, false]));
    assert_eq!(b.FinishIfNoDroppedItemsBegin(), Some(-1));
    assert!(!b.IsBuilding());
    b.Init(false);
    assert!(!b.HasDroppedItem());
}

#[test]
fn too_many_items_drops_and_records() {
    let mut b = CSnapshotBuilder_New();
    b.Init(false);
    let (mut attempt, _) = b.NewItemBegin(ItemKind::Ordinal, 1);
    assert_eq!(b.NewItemNext(&mut attempt, AddOutcome::TooManyItems), ItemStep::Return(false));
    assert!(b.HasDroppedItem());
}

#[test]
fn uuid_item_moves_to_owned_store() {
    let mut b = CSnapshotBuilder_New();
    b.Init(false);
    let (mut attempt, step) = b.NewItemBegin(ItemKind::Uuid, 4);
    assert_eq!(step, ItemStep::DrainThenAdd(4));
    assert_eq!(b.NewItemNext(&mut attempt, AddOutcome::DuplicateKey), ItemStep::Add(5, false));
    assert!(!b.UsesBorrowed());
    assert_eq!(b.NewItemNext(&mut attempt, AddOutcome::Added), ItemStep::Return(true));
    let (_, step) = b.NewItemBegin(ItemKind::Ordinal, 9);
    assert_eq!(step, ItemStep::Add(9, false));
    assert!(!b.FinishBegin());
    assert!(!b.IsBuilding());
}

#[test]
fn failed_move_keeps_borrowed_store() {
    let mut b = CSnapshotBuilder_New();
    b.Init(false);
    let (mut attempt, _) = b.NewItemBegin(ItemKind::Uuid, 4);
    assert_eq!(b.NewItemNext(&mut attempt, AddOutcome::DrainFailed), ItemStep::Return(false));
    assert!(b.UsesBorrowed());
    assert!(b.HasDroppedItem());
}

#[test]
fn finish_without_drops_proceeds() {
    let mut b = CSnapshotBuilder_New();
    b.Init(false);
    assert_eq!(b.FinishIfNoDroppedItemsBegin(), None);
    assert!(b.IsBuilding());
    assert!(b.NewItemsFlatFinish(&[]));
    assert!(b.FinishBegin());
    assert!(!b.IsBuilding());
}

#[test]
fn finish_result_counts_bytes() {
    // The one-item snapshot of the builder's example is 7 words long.
    assert_eq!(finish_result(Some(7)), 28);
    assert_eq!(finish_result(Some(0)), 0);
    assert_eq!(finish_result(None), -1);
}

#[test]
fn flat_items_check() {
    let mut b = CSnapshotBuilder_New();
    b.Init(false);
    assert!(b.NewItemsFlatCheck(&[1, 2], &[3, 4], 5, &[0, 2, 5]));
    assert!(b.NewItemsFlatCheck(&[], &[], 0, &[0]));
    assert!(b.NewItemsFlatCheck(&[1], &[1], 0, &[0, 0]));
    // Mismatched lengths.
    assert!(!b.NewItemsFlatCheck(&[1, 2], &[3], 5, &[0, 2, 5]));
    assert!(!b.NewItemsFlatCheck(&[1, 2], &[3, 4], 5, &[0, 5]));
    assert!(!b.NewItemsFlatCheck(&[], &[], 0, &[]));
    // Decreasing, beyond the data, or not ending at its end.
    assert!(!b.NewItemsFlatCheck(&[1, 2], &[3, 4], 5, &[0, 3, 2]));
    assert!(!b.NewItemsFlatCheck(&[1, 2], &[3, 4], 5, &[0, 6, 5]));
    assert!(!b.NewItemsFlatCheck(&[1, 2], &[3, 4], 5, &[0, 2, 4]));
    // A batch may start at a non-zero offset.
    assert!(b.NewItemsFlatCheck(&[1], &[3], 5, &[1, 5]));
}

#[test]
fn finish_fails_after_dropped_item() {
    let mut b = CSnapshotBuilder_New();
    b.Init(false);
    assert_eq!(b.FinishResult(Some(7)), 28);
    let (mut attempt, _) = b.NewItemBegin(ItemKind::Ordinal, 1);
    assert_eq!(b.NewItemNext(&mut attempt, AddOutcome::TooManyItems), ItemStep::Return(false));
    assert!(b.FinishBegin());
    assert_eq!(b.FinishResult(Some(7)), -1);
    assert_eq!(b.FinishResult(None), -1);
    b.Init(false);
    assert_eq!(b.FinishResult(Some(7)), 28);
    assert_eq!(b.FinishResult(None), -1);
}

#[test]
fn unmapped_item_is_not_recorded_as_dropped() {
    let mut b = CSnapshotBuilder_New();
    b.Init(true);
    assert!(b.NewItemUnmapped());
    assert!(!b.HasDroppedItem());
}

#[test]
fn flat_item_ranges() {
    let offsets = [0, 2, 2, 5];
    assert_eq!(flat_item_range(&offsets, 5, 0), (0, 2));
    assert_eq!(flat_item_range(&offsets, 5, 1), (2, 2));
    assert_eq!(flat_item_range(&offsets, 5, 2), (2, 5));
}

#[test]
fn abandon_allows_a_new_snapshot() {
    let mut b = CSnapshotBuilder_New();
    b.Init(false);
    let (mut attempt, _) = b.NewItemBegin(ItemKind::Ordinal, 1);
    assert_eq!(b.NewItemNext(&mut attempt, AddOutcome::TooLongSnap), ItemStep::Return(false));
    b.Abandon();
    assert!(!b.IsBuilding());
    assert!(b.HasDroppedItem());
    b.Init(false);
    assert!(b.IsBuilding());
    assert!(!b.HasDroppedItem());
}
