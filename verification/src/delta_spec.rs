//! What a snapshot delta holds, stated over sequences of `i32`s.
//!
//! A delta is laid out as
//! `[num_deleted, num_updated, 0, deleted keys.., update records..]`.
//! An update record is `[type, id, (size,) payload..]`, where the size (in
//! words) is present unless the type has a registered static size. The
//! payload of an item that already existed in the base snapshot is the
//! word-wise wrapping difference to the base item; a new item's payload is
//! its data as it is.
use vstd::prelude::*;

use crate::snap::{
    key_id, key_type, snap_header_ok, snap_item_data, snap_item_ok, snap_key, snap_keys,
    snap_keys_ok, snap_num_items,
};

verus! {

/// Number of item types that can have a registered static size.
pub const MAX_NETOBJSIZES: usize = 64;

/// Largest item type an update record may name.
pub const SNAP_MAX_TYPE: i32 = 0x7fff;

/// Largest item ID an update record may name.
pub const SNAP_MAX_ID: i32 = 0xffff;

/// Whether type `t` has a registered static size (in which case update
/// records for it carry no size word).
pub open spec fn has_static_size(sizes: Seq<u16>, t: int) -> bool {
    0 <= t < MAX_NETOBJSIZES && sizes[t] != 0
}

/// The word-wise difference of a current and a past word.
pub open spec fn diff_word(cur: i32, past: i32) -> i32 {
    (cur as u32).wrapping_sub(past as u32) as i32
}

/// A past word with a difference applied.
pub open spec fn apply_word(past: i32, d: i32) -> i32 {
    (past as u32).wrapping_add(d as u32) as i32
}

/// The word-wise difference of `cur` against `past`, over the length of `cur`.
pub open spec fn diff_words(cur: Seq<i32>, past: Seq<i32>) -> Seq<i32> {
    Seq::new(cur.len(), |w: int| diff_word(cur[w], past[w]))
}

/// Whether every word of `s` is zero.
pub open spec fn all_zero(s: Seq<i32>) -> bool {
    forall|w: int| 0 <= w < s.len() ==> s[w] == 0
}

/// The index of the last occurrence of `k` in `keys[0..n]`, or `-1`.
pub open spec fn last_index_of(keys: Seq<i32>, k: i32, n: int) -> int
    decreases n,
{
    if n <= 0 {
        -1
    } else if keys[n - 1] == k {
        n - 1
    } else {
        last_index_of(keys, k, n - 1)
    }
}

/// Whether `k` occurs in `keys[0..n]`.
pub open spec fn key_in(keys: Seq<i32>, k: i32, n: int) -> bool {
    last_index_of(keys, k, n) >= 0
}

/// The number of distinct values in `keys[0..n]`.
pub open spec fn distinct_count(keys: Seq<i32>, n: int) -> int
    decreases n,
{
    if n <= 0 {
        0
    } else {
        distinct_count(keys, n - 1) + if key_in(keys, keys[n - 1], n - 1) {
            0int
        } else {
            1int
        }
    }
}

/// The keys of the first `n` items of `from` that `to` does not hold, in order.
pub open spec fn deleted_keys(from: Seq<i32>, to: Seq<i32>, n: int) -> Seq<i32>
    decreases n,
{
    if n <= 0 {
        Seq::empty()
    } else {
        let k = snap_key(from, n - 1);
        if key_in(snap_keys(to), k, snap_num_items(to)) {
            deleted_keys(from, to, n - 1)
        } else {
            deleted_keys(from, to, n - 1).push(k)
        }
    }
}

/// The keys of all items of `from` that `to` does not hold.
pub open spec fn all_deleted_keys(from: Seq<i32>, to: Seq<i32>) -> Seq<i32> {
    deleted_keys(from, to, snap_num_items(from))
}

/// The index in `from` of the item that item `i` of `to` is diffed against,
/// or `-1` if `from` has no item with its key.
pub open spec fn past_index(from: Seq<i32>, to: Seq<i32>, i: int) -> int {
    last_index_of(snap_keys(from), snap_key(to, i), snap_num_items(from))
}

/// The number of header words of an update record for an item with `key`.
pub open spec fn header_len(sizes: Seq<u16>, key: i32) -> int {
    if has_static_size(sizes, key_type(key) as int) {
        2
    } else {
        3
    }
}

/// The header of an update record for an item with `key` and `words`
/// payload words.
pub open spec fn record_header(sizes: Seq<u16>, key: i32, words: int) -> Seq<i32> {
    let t = key_type(key) as i32;
    let id = key_id(key) as i32;
    if has_static_size(sizes, key_type(key) as int) {
        seq![t, id]
    } else {
        seq![t, id, words as i32]
    }
}

/// The update record for item `i` of `to`: empty when the item is unchanged
/// from `from`.
pub open spec fn update_record(sizes: Seq<u16>, from: Seq<i32>, to: Seq<i32>, i: int) -> Seq<i32> {
    let key = snap_key(to, i);
    let cur = snap_item_data(to, i);
    let j = past_index(from, to, i);
    if j >= 0 {
        let d = diff_words(cur, snap_item_data(from, j));
        if all_zero(d) {
            Seq::empty()
        } else {
            record_header(sizes, key, cur.len() as int) + d
        }
    } else {
        record_header(sizes, key, cur.len() as int) + cur
    }
}

/// The update records for the first `n` items of `to`, concatenated.
pub open spec fn update_body(sizes: Seq<u16>, from: Seq<i32>, to: Seq<i32>, n: int) -> Seq<i32>
    decreases n,
{
    if n <= 0 {
        Seq::empty()
    } else {
        update_body(sizes, from, to, n - 1) + update_record(sizes, from, to, n - 1)
    }
}

/// The number of non-empty update records for the first `n` items of `to`.
pub open spec fn update_count(sizes: Seq<u16>, from: Seq<i32>, to: Seq<i32>, n: int) -> int
    decreases n,
{
    if n <= 0 {
        0
    } else {
        update_count(sizes, from, to, n - 1) + if update_record(sizes, from, to, n - 1).len()
            > 0 {
            1int
        } else {
            0int
        }
    }
}

/// Whether item `i` of `to` passes the room check when `room` words are
/// left after the deleted keys: the room check asks for space for a full
/// record, even if the item turns out to be unchanged.
pub open spec fn update_fits(
    sizes: Seq<u16>,
    from: Seq<i32>,
    to: Seq<i32>,
    room: int,
    i: int,
) -> bool {
    update_body(sizes, from, to, i).len() + header_len(sizes, snap_key(to, i))
        + snap_item_data(to, i).len() <= room
}

/// The words that a full update record of each of the first `n` items of
/// `to` takes, together.
pub open spec fn full_records_len(sizes: Seq<u16>, to: Seq<i32>, n: int) -> int
    decreases n,
{
    if n <= 0 {
        0
    } else {
        full_records_len(sizes, to, n - 1) + header_len(sizes, snap_key(to, n - 1))
            + snap_item_data(to, n - 1).len()
    }
}

/// Whether all of the first `n` items of `to` pass the room check.
pub open spec fn updates_fit(
    sizes: Seq<u16>,
    from: Seq<i32>,
    to: Seq<i32>,
    room: int,
    n: int,
) -> bool {
    forall|i: int| 0 <= i < n ==> #[trigger] update_fits(sizes, from, to, room, i)
}

/// The full delta from `from` to `to`.
pub open spec fn delta_stream(sizes: Seq<u16>, from: Seq<i32>, to: Seq<i32>) -> Seq<i32> {
    let nd = all_deleted_keys(from, to).len();
    let nu = update_count(sizes, from, to, snap_num_items(to));
    seq![nd as i32, nu as i32, 0i32] + all_deleted_keys(from, to) + update_body(
        sizes,
        from,
        to,
        snap_num_items(to),
    )
}

/// Whether the delta from `from` to `to` is empty: nothing deleted and every
/// item unchanged.
pub open spec fn delta_is_empty(sizes: Seq<u16>, from: Seq<i32>, to: Seq<i32>) -> bool {
    all_deleted_keys(from, to).len() == 0 && update_count(sizes, from, to, snap_num_items(to)) == 0
}

/// Whether creating the delta from `from` to `to` into a buffer of `len`
/// words writes it: the buffer is large enough and the delta is not empty.
pub open spec fn create_delta_writes(
    sizes: Seq<u16>,
    from: Seq<i32>,
    to: Seq<i32>,
    len: int,
) -> bool {
    let nd = all_deleted_keys(from, to).len() as int;
    &&& len >= 3
    &&& 3 + nd <= len
    &&& updates_fit(sizes, from, to, len - 3 - nd, snap_num_items(to))
    &&& !delta_is_empty(sizes, from, to)
}

/// What creating the delta from `from` to `to` into a buffer of `len` words
/// returns: `-1` if the buffer is too small, `0` for an empty delta, else
/// the number of bytes written (as an `i32`, wrapping).
pub open spec fn create_delta_result(
    sizes: Seq<u16>,
    from: Seq<i32>,
    to: Seq<i32>,
    len: int,
) -> i32 {
    let nd = all_deleted_keys(from, to).len() as int;
    if len < 3 || 3 + nd > len {
        -1i32
    } else if !updates_fit(sizes, from, to, len - 3 - nd, snap_num_items(to)) {
        -1i32
    } else if delta_is_empty(sizes, from, to) {
        0i32
    } else {
        (4 * delta_stream(sizes, from, to).len()) as i32
    }
}

/// Whether the update loop reaches item `i` of `to`: every earlier item
/// passed the room check.
pub open spec fn create_reaches(
    sizes: Seq<u16>,
    from: Seq<i32>,
    to: Seq<i32>,
    room: int,
    i: int,
) -> bool {
    0 <= i < snap_num_items(to) && updates_fit(sizes, from, to, room, i)
}

/// Item `i` of `to` can be read, and if it passes the room check and has a
/// base item, the base item can be read and is at least as long.
pub open spec fn create_item_defined(
    sizes: Seq<u16>,
    from: Seq<i32>,
    to: Seq<i32>,
    room: int,
    i: int,
) -> bool {
    &&& snap_item_ok(to, i)
    &&& (update_fits(sizes, from, to, room, i) && past_index(from, to, i) >= 0) ==> {
        &&& snap_item_ok(from, past_index(from, to, i))
        &&& snap_item_data(from, past_index(from, to, i)).len() >= snap_item_data(to, i).len()
    }
}

/// The inputs on which creating a delta reads only words that exist and
/// diffs each changed item against a base item at least as long: both
/// headers pass the checks, and every key and payload that is read before
/// the buffer runs out is well formed.
pub open spec fn create_delta_defined(
    sizes: Seq<u16>,
    from: Seq<i32>,
    to: Seq<i32>,
    len: int,
) -> bool {
    let room = len - 3 - all_deleted_keys(from, to).len();
    &&& sizes.len() == MAX_NETOBJSIZES
    &&& snap_header_ok(from)
    &&& snap_header_ok(to)
    &&& len >= 3 ==> {
        &&& snap_keys_ok(from)
        &&& snap_keys_ok(to)
        &&& room >= 0 ==> forall|i: int|
            create_reaches(sizes, from, to, room, i) ==> #[trigger] create_item_defined(
                sizes,
                from,
                to,
                room,
                i,
            )
    }
}

/// How many of the first `n` items of `to` the update loop gets through:
/// the index of the first item that fails the room check, or `n`.
pub open spec fn create_reach(
    sizes: Seq<u16>,
    from: Seq<i32>,
    to: Seq<i32>,
    room: int,
    n: int,
) -> int
    decreases n,
{
    if n <= 0 {
        0
    } else if create_reach(sizes, from, to, room, n - 1) < n - 1 {
        create_reach(sizes, from, to, room, n - 1)
    } else if update_fits(sizes, from, to, room, n - 1) {
        n
    } else {
        n - 1
    }
}

/// The word of the delta at which the record of item `i` of `to` starts.
pub open spec fn record_pos(sizes: Seq<u16>, from: Seq<i32>, to: Seq<i32>, i: int) -> int {
    3 + all_deleted_keys(from, to).len() as int + update_body(sizes, from, to, i).len() as int
}

/// Whether word `j` lies where the difference of an unchanged item among the
/// first `m` items of `to` was worked out (and left as zeros): after the
/// header that its record would have had.
pub open spec fn zeroed_by_unchanged(
    sizes: Seq<u16>,
    from: Seq<i32>,
    to: Seq<i32>,
    m: int,
    j: int,
) -> bool {
    exists|i: int|
        0 <= i < m && #[trigger] update_record(sizes, from, to, i).len() == 0 && record_pos(
            sizes,
            from,
            to,
            i,
        ) + header_len(sizes, snap_key(to, i)) <= j < record_pos(sizes, from, to, i) + header_len(
            sizes,
            snap_key(to, i),
        ) + snap_item_data(to, i).len()
}

/// The buffer `old` after creating the delta from `from` to `to` in it.
///
/// If it is shorter than the header, it is left alone. If the deleted keys
/// do not fit, they fill it after the header. Otherwise the deleted keys and
/// the records of the items that passed the room check are written after the
/// header; the header itself only if the whole delta is written; and past the
/// records, the words where an unchanged item was diffed are zero.
pub open spec fn create_delta_buffer(
    sizes: Seq<u16>,
    from: Seq<i32>,
    to: Seq<i32>,
    old: Seq<i32>,
) -> Seq<i32> {
    let len = old.len() as int;
    let del = all_deleted_keys(from, to);
    let nd = del.len() as int;
    let m = create_reach(sizes, from, to, len - 3 - nd, snap_num_items(to));
    let stream = delta_stream(sizes, from, to);
    Seq::new(
        old.len(),
        |j: int|
            if len < 3 {
                old[j]
            } else if 3 + nd > len {
                if j < 3 {
                    old[j]
                } else {
                    del[j - 3]
                }
            } else if j < 3 {
                if create_delta_writes(sizes, from, to, len) {
                    stream[j]
                } else {
                    old[j]
                }
            } else if j < record_pos(sizes, from, to, m) {
                stream[j]
            } else if zeroed_by_unchanged(sizes, from, to, m, j) {
                0i32
            } else {
                old[j]
            },
    )
}

} // verus!
