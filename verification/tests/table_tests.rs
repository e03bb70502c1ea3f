use ddnet_snapshot::key_table::{KeyIndexTable, TABLE_CAP};
use ddnet_snapshot::snap::SnapView;

#[test]
fn table_cap_is_power_of_two_above_twice_max_items() {
    assert_eq!(TABLE_CAP, 2048);
}

#[test]
fn hash_is_multiplicative() {
    assert_eq!(KeyIndexTable::hash(0), 0);
    // 2654435761 & 2047
    assert_eq!(KeyIndexTable::hash(1), 433);
    assert_eq!(KeyIndexTable::hash(-1), (0u32.wrapping_sub(2654435761) & 2047) as usize);
}

#[test]
fn insert_then_get() {
    let mut t = KeyIndexTable::new();
    assert_eq!(t.get(5), None);
    t.insert(5, 7);
    t.insert(-3, 9);
    assert_eq!(t.get(5), Some(7));
    assert_eq!(t.get(-3), Some(9));
    assert!(t.contains(5));
    assert!(!t.contains(6));
    t.insert(5, 11);
    assert_eq!(t.get(5), Some(11));
}

#[test]
fn colliding_keys_probe_on() {
    // Keys 2048 apart in their product land in the same home slot.
    let mut t = KeyIndexTable::new();
    let a = 0;
    let b = 2048;
    assert_eq!(KeyIndexTable::hash(a), KeyIndexTable::hash(b));
    t.insert(a, 1);
    t.insert(b, 2);
    assert_eq!(t.get(a), Some(1));
    assert_eq!(t.get(b), Some(2));
}

#[test]
fn clear_forgets_everything() {
    let mut t = KeyIndexTable::new();
    t.insert(1, 1);
    t.insert(2, 2);
    t.clear();
    assert_eq!(t.get(1), None);
    assert!(!t.contains(2));
    t.insert(2, 5);
    assert_eq!(t.get(2), Some(5));
}

#[test]
fn clear_many_times_wraps_generation() {
    let mut t = KeyIndexTable::new();
    for i in 0..70000 {
        t.clear();
        if i % 9999 == 0 {
            t.insert(i, 3);
        }
    }
    assert_eq!(t.get(0), None);
    t.insert(42, 1);
    assert_eq!(t.get(42), Some(1));
}

#[test]
fn table_holds_full_capacity_minus_one() {
    let mut t = KeyIndexTable::new();
    for k in 0..(TABLE_CAP as i32 - 1) {
        t.insert(k * 7, k as u16);
    }
    for k in 0..(TABLE_CAP as i32 - 1) {
        assert_eq!(t.get(k * 7), Some(k as u16));
    }
    assert!(!t.contains(-1));
}

#[test]
fn snap_view_reads_doc_example() {
    let buf = [16, 1, 0, 65536 + 123, 1, 2, 3];
    let v = SnapView::new(&buf);
    assert_eq!(v.num_items(), 1);
    assert_eq!(v.item_key(0), 65536 + 123);
    assert_eq!(v.item_internal_type(0), 1);
    assert_eq!(v.item_id(0), 123);
    assert_eq!(v.item_data_i32(0), &[1, 2, 3]);
}

#[test]
fn snap_view_two_items() {
    let buf = [20, 2, 0, 8, (2 << 16) | 5, 9, (0x7fff << 16) | 0xffff, 4, 5];
    let v = SnapView::new(&buf);
    assert_eq!(v.num_items(), 2);
    assert_eq!(v.item_data_i32(0), &[9]);
    assert_eq!(v.item_internal_type(1), 0x7fff);
    assert_eq!(v.item_id(1), 0xffff);
    assert_eq!(v.item_data_i32(1), &[4, 5]);
}
