//! What applying a delta to a base snapshot yields, stated as a process over
//! the delta's words.
//!
//! Applying a delta first copies every item of the base snapshot whose key is
//! not among the deleted keys, in order. Then each update record, in order,
//! either changes the item that already has its key (adding the record's
//! payload word-wise to the base snapshot's item of that key, if there is
//! one, or else overwriting the payload's prefix) or appends a new item.
//! The items are handed on as `(key, payload)` pairs.
use vstd::prelude::*;

use crate::delta_spec::{
    apply_word, distinct_count, has_static_size, key_in, last_index_of, MAX_NETOBJSIZES,
    SNAP_MAX_ID, SNAP_MAX_TYPE,
};
use crate::key_table::TABLE_CAP;
use crate::snap::{
    snap_header_ok, snap_item_data, snap_item_ok, snap_key, snap_keys, snap_keys_ok,
    snap_num_items,
};

verus! {

/// An item of the snapshot under construction: its key and its payload.
pub type ItemSpec = (i32, Seq<i32>);

/// Where the process of applying update records stands.
pub enum UnpackStep {
    /// The next record starts at the given word; these are the items so far.
    Next(int, Seq<ItemSpec>),
    /// A record was malformed: these are the items so far, and the error code.
    Stop(Seq<ItemSpec>, i32),
    /// A record would make the process read or write out of bounds: these
    /// are the items so far, including a new item that the record had
    /// already started.
    Crash(Seq<ItemSpec>),
}

/// The number of deleted keys that the delta announces.
pub open spec fn delta_num_deleted(delta: Seq<i32>) -> int {
    delta[0] as int
}

/// The number of update records that the delta announces.
pub open spec fn delta_num_updated(delta: Seq<i32>) -> int {
    delta[1] as int
}

/// The deleted keys of the delta.
pub open spec fn delta_deleted(delta: Seq<i32>) -> Seq<i32> {
    delta.subrange(3, 3 + delta_num_deleted(delta))
}

/// The error with which a delta is turned away before anything is built:
/// too short for its header (`-505`), a negative count (`-201`), or too
/// short for its deleted keys (`-101`).
pub open spec fn unpack_rejection(delta: Seq<i32>) -> Option<i32> {
    if delta.len() < 3 {
        Some(-505i32)
    } else if delta[0] < 0 {
        Some(-201i32)
    } else if delta[1] < 0 {
        Some(-201i32)
    } else if delta.len() < 3 + delta_num_deleted(delta) {
        Some(-101i32)
    } else {
        None
    }
}

/// The items of the first `n` items of `from` whose keys are not deleted.
pub open spec fn base_items(from: Seq<i32>, deleted: Seq<i32>, n: int) -> Seq<ItemSpec>
    decreases n,
{
    if n <= 0 {
        Seq::empty()
    } else {
        let k = snap_key(from, n - 1);
        if key_in(deleted, k, deleted.len() as int) {
            base_items(from, deleted, n - 1)
        } else {
            base_items(from, deleted, n - 1).push((k, snap_item_data(from, n - 1)))
        }
    }
}

/// The index of the last item of `items[0..n]` with `key`, or `-1`.
pub open spec fn last_item_index(items: Seq<ItemSpec>, key: i32, n: int) -> int
    decreases n,
{
    if n <= 0 {
        -1
    } else if items[n - 1].0 == key {
        n - 1
    } else {
        last_item_index(items, key, n - 1)
    }
}

/// The key that an update record names.
pub open spec fn record_key(t: int, id: int) -> i32 {
    (t * 65536 + id) as i32
}

/// Applies the update record at word `p` of `delta` to `items`.
pub open spec fn unpack_step(
    sizes: Seq<u16>,
    from: Seq<i32>,
    delta: Seq<i32>,
    p: int,
    items: Seq<ItemSpec>,
) -> UnpackStep {
    let len = delta.len() as int;
    if p + 2 > len {
        UnpackStep::Stop(items, -102i32)
    } else {
        let t = delta[p] as int;
        let id = delta[p + 1] as int;
        let p1 = p + 2;
        let st = has_static_size(sizes, t);
        if t < 0 || t > SNAP_MAX_TYPE {
            UnpackStep::Stop(items, -202i32)
        } else if id < 0 || id > SNAP_MAX_ID {
            UnpackStep::Stop(items, -203i32)
        } else if !st && p1 >= len {
            UnpackStep::Stop(items, -103i32)
        } else if !st && delta[p1] < 0 {
            UnpackStep::Stop(items, -204i32)
        } else {
            let words: int = if st {
                sizes[t] as int / 4
            } else {
                delta[p1] as int
            };
            let p2 = if st {
                p1
            } else {
                p1 + 1
            };
            if p2 + words > len {
                UnpackStep::Stop(items, -205i32)
            } else {
                let key = record_key(t, id);
                let bi = last_item_index(items, key, items.len() as int);
                let fj = last_index_of(snap_keys(from), key, snap_num_items(from));
                let dst: Seq<i32> = if bi >= 0 {
                    items[bi].1
                } else {
                    Seq::new(words as nat, |w: int| 0i32)
                };
                if words > dst.len() {
                    UnpackStep::Crash(items)
                } else if fj >= 0 && !(snap_item_ok(from, fj) && words <= snap_item_data(
                    from,
                    fj,
                ).len()) {
                    if bi >= 0 {
                        UnpackStep::Crash(items)
                    } else {
                        UnpackStep::Crash(items.push((key, dst)))
                    }
                } else {
                    let data = Seq::new(
                        dst.len(),
                        |w: int|
                            if w < words {
                                if fj >= 0 {
                                    apply_word(snap_item_data(from, fj)[w], delta[p2 + w])
                                } else {
                                    delta[p2 + w]
                                }
                            } else {
                                dst[w]
                            },
                    );
                    if bi >= 0 {
                        UnpackStep::Next(p2 + words, items.update(bi, (key, data)))
                    } else {
                        UnpackStep::Next(p2 + words, items.push((key, data)))
                    }
                }
            }
        }
    }
}

/// The state after the base copy and the first `k` update records.
pub open spec fn unpack_run(sizes: Seq<u16>, from: Seq<i32>, delta: Seq<i32>, k: int) -> UnpackStep
    decreases k,
{
    if k <= 0 {
        let nf = snap_num_items(from);
        let bad = first_bad_kept(from, delta_deleted(delta), nf);
        if bad < nf {
            UnpackStep::Crash(base_items(from, delta_deleted(delta), bad))
        } else {
            UnpackStep::Next(3 + delta_num_deleted(delta), base_items(from, delta_deleted(delta), nf))
        }
    } else {
        match unpack_run(sizes, from, delta, k - 1) {
            UnpackStep::Next(p, items) => unpack_step(sizes, from, delta, p, items),
            other => other,
        }
    }
}

/// The state after all update records.
pub open spec fn unpack_final(sizes: Seq<u16>, from: Seq<i32>, delta: Seq<i32>) -> UnpackStep {
    unpack_run(sizes, from, delta, delta_num_updated(delta))
}

/// The deleted keys fit into the scratch table in a way that lets every
/// lookup end: at most [`TABLE_CAP`] distinct keys, and if exactly that many,
/// every base key is among them.
pub open spec fn deleted_table_ok(from: Seq<i32>, deleted: Seq<i32>) -> bool {
    let dc = distinct_count(deleted, deleted.len() as int);
    dc < TABLE_CAP || (dc == TABLE_CAP && forall|i: int|
        0 <= i < snap_num_items(from) ==> key_in(deleted, #[trigger] snap_key(from, i), deleted.len() as int))
}

/// The inputs on which applying `delta` to `from` gets as far as building:
/// the delta is turned away early, or `from` passes the header checks, its
/// keys can be read and the deleted keys fit the scratch table.
pub open spec fn unpack_starts(sizes: Seq<u16>, from: Seq<i32>, delta: Seq<i32>) -> bool {
    &&& sizes.len() == MAX_NETOBJSIZES
    &&& unpack_rejection(delta) is None ==> {
        &&& snap_header_ok(from)
        &&& snap_keys_ok(from)
        &&& deleted_table_ok(from, delta_deleted(delta))
    }
}

/// The inputs on which applying `delta` to `from` reads and writes only
/// within bounds and ends: it gets as far as building, and neither a kept
/// item nor an update record lies out of bounds.
pub open spec fn unpack_defined(sizes: Seq<u16>, from: Seq<i32>, delta: Seq<i32>) -> bool {
    &&& unpack_starts(sizes, from, delta)
    &&& unpack_rejection(delta) is None ==> !(unpack_final(sizes, from, delta) is Crash)
}

/// Whether applying `delta` to `from` stops out of bounds after handing on
/// its items (a kept item of `from` or an update record lies outside).
pub open spec fn unpack_crashes(sizes: Seq<u16>, from: Seq<i32>, delta: Seq<i32>) -> bool {
    unpack_final(sizes, from, delta) is Crash
}

/// The index of the first of the first `n` items of `from` that is kept
/// (its key is not deleted) but cannot be read, or `n`.
pub open spec fn first_bad_kept(from: Seq<i32>, deleted: Seq<i32>, n: int) -> int
    decreases n,
{
    if n <= 0 {
        0
    } else if first_bad_kept(from, deleted, n - 1) < n - 1 {
        first_bad_kept(from, deleted, n - 1)
    } else if !key_in(deleted, snap_key(from, n - 1), deleted.len() as int) && !snap_item_ok(
        from,
        n - 1,
    ) {
        n - 1
    } else {
        n
    }
}

/// The items that applying `delta` to `from` hands on to be built.
pub open spec fn unpack_items(sizes: Seq<u16>, from: Seq<i32>, delta: Seq<i32>) -> Seq<ItemSpec> {
    match unpack_final(sizes, from, delta) {
        UnpackStep::Next(_, items) => items,
        UnpackStep::Stop(items, _) => items,
        UnpackStep::Crash(items) => items,
    }
}

/// The error that applying `delta` to `from` ends with after handing on its
/// items, if any.
pub open spec fn unpack_error(sizes: Seq<u16>, from: Seq<i32>, delta: Seq<i32>) -> Option<i32> {
    match unpack_final(sizes, from, delta) {
        UnpackStep::Stop(_, code) => Some(code),
        _ => None,
    }
}

/// The number of items copied from the base snapshot (up to the first kept
/// item that cannot be read, if any).
pub open spec fn unpack_num_base(from: Seq<i32>, delta: Seq<i32>) -> int {
    base_items(
        from,
        delta_deleted(delta),
        first_bad_kept(from, delta_deleted(delta), snap_num_items(from)),
    ).len() as int
}

} // verus!
