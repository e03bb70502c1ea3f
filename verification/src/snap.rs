//! The layout of a snapshot as a flat sequence of `i32`s, and a read-only
//! view over it.
//!
//! A snapshot is laid out as
//! `[data_size_bytes, num_items, offset_0, .., offset_{n-1}, data..]`, where
//! the offsets are byte offsets into the data section. Item `i` starts at
//! word `offset_i / 4` of the data section with its key, followed by its
//! payload, which runs up to the start of the next item (or the end of the
//! data section for the last item).
use vstd::prelude::*;

use crate::SNAPSHOT_MAX_ITEMS;

verus! {

/// The size in bytes of the data section.
pub open spec fn snap_data_size(buf: Seq<i32>) -> int {
    buf[0] as int
}

/// The number of items.
pub open spec fn snap_num_items(buf: Seq<i32>) -> int {
    buf[1] as int
}

/// The index of the first word of the data section.
pub open spec fn snap_data_start(buf: Seq<i32>) -> int {
    2 + snap_num_items(buf)
}

/// The byte offset of item `i` in the data section.
pub open spec fn snap_offset(buf: Seq<i32>, i: int) -> int {
    buf[2 + i] as int
}

/// The byte offset at which item `i` ends.
pub open spec fn snap_end_offset(buf: Seq<i32>, i: int) -> int {
    if i + 1 < snap_num_items(buf) {
        snap_offset(buf, i + 1)
    } else {
        snap_data_size(buf)
    }
}

/// The header checks that a snapshot must pass to be viewed: non-negative
/// sizes, at most [`SNAPSHOT_MAX_ITEMS`] items, and a total length that
/// matches the header.
pub open spec fn snap_header_ok(buf: Seq<i32>) -> bool {
    &&& buf.len() >= 2
    &&& buf[0] >= 0
    &&& buf[1] >= 0
    &&& buf[1] <= SNAPSHOT_MAX_ITEMS
    &&& 2 + buf[1] <= buf.len()
    &&& (8 + 4 * buf[1] + buf[0]) / 4 == buf.len()
}

/// The index of the word that holds the key of item `i`.
pub open spec fn snap_key_pos(buf: Seq<i32>, i: int) -> int {
    snap_data_start(buf) + snap_offset(buf, i) / 4
}

/// Whether the key of item `i` can be read.
pub open spec fn snap_key_ok(buf: Seq<i32>, i: int) -> bool {
    &&& snap_offset(buf, i) >= 0
    &&& snap_key_pos(buf, i) < buf.len()
}

/// The key of item `i`.
pub open spec fn snap_key(buf: Seq<i32>, i: int) -> i32 {
    buf[snap_key_pos(buf, i)]
}

/// Whether the keys of all items can be read.
pub open spec fn snap_keys_ok(buf: Seq<i32>) -> bool {
    forall|i: int| 0 <= i < snap_num_items(buf) ==> #[trigger] snap_key_ok(buf, i)
}

/// The keys of all items, in order.
pub open spec fn snap_keys(buf: Seq<i32>) -> Seq<i32> {
    Seq::new(snap_num_items(buf) as nat, |i: int| snap_key(buf, i))
}

/// The index one past the last payload word of item `i`.
pub open spec fn snap_item_end(buf: Seq<i32>, i: int) -> int {
    snap_data_start(buf) + snap_end_offset(buf, i) / 4
}

/// Whether the payload of item `i` can be read.
pub open spec fn snap_item_ok(buf: Seq<i32>, i: int) -> bool {
    &&& snap_offset(buf, i) >= 0
    &&& snap_end_offset(buf, i) >= 0
    &&& snap_key_pos(buf, i) + 1 <= snap_item_end(buf, i)
    &&& snap_item_end(buf, i) <= buf.len()
}

/// The payload of item `i` (its words after the key).
pub open spec fn snap_item_data(buf: Seq<i32>, i: int) -> Seq<i32> {
    buf.subrange(snap_key_pos(buf, i) + 1, snap_item_end(buf, i))
}

/// Item `i` as its key and payload.
pub open spec fn snap_item(buf: Seq<i32>, i: int) -> (i32, Seq<i32>) {
    (snap_key(buf, i), snap_item_data(buf, i))
}

/// All items as keys and payloads, in order.
pub open spec fn snap_items(buf: Seq<i32>) -> Seq<(i32, Seq<i32>)> {
    Seq::new(snap_num_items(buf) as nat, |i: int| snap_item(buf, i))
}

/// A snapshot that passes all checks: its header, every key and payload can
/// be read, and no two items share a key.
pub open spec fn snap_valid(buf: Seq<i32>) -> bool {
    &&& snap_header_ok(buf)
    &&& snap_keys_ok(buf)
    &&& forall|i: int| 0 <= i < snap_num_items(buf) ==> #[trigger] snap_item_ok(buf, i)
    &&& forall|i: int, j: int|
        0 <= i < snap_num_items(buf) && 0 <= j < snap_num_items(buf) && i != j ==> #[trigger] snap_key(
            buf,
            i,
        ) != #[trigger] snap_key(buf, j)
}

/// The type half of an item key.
pub open spec fn key_type(key: i32) -> u16 {
    ((key as u32) >> 16u32) as u16
}

/// The ID half of an item key.
pub open spec fn key_id(key: i32) -> u16 {
    ((key as u32) & 0xffffu32) as u16
}

/// A read-only view of a snapshot laid out as a sequence of `i32`s.
pub struct SnapView<'a> {
    buf: &'a [i32],
    num_items: usize,
    data_size_bytes: usize,
    offsets: &'a [i32],
    data_start_i32: usize,
}

impl<'a> View for SnapView<'a> {
    type V = Seq<i32>;

    /// The viewed words.
    closed spec fn view(&self) -> Seq<i32> {
        self.buf@
    }
}

impl<'a> SnapView<'a> {
    /// The view's fields agree with the header of the viewed words.
    pub closed spec fn wf(&self) -> bool {
        &&& snap_header_ok(self.buf@)
        &&& self.num_items == snap_num_items(self.buf@)
        &&& self.data_size_bytes == snap_data_size(self.buf@)
        &&& self.data_start_i32 == snap_data_start(self.buf@)
        &&& self.offsets@ == self.buf@.subrange(2, 2 + self.num_items)
    }

    /// A view's words pass the header checks.
    pub proof fn lemma_header(&self)
        requires
            self.wf(),
        ensures
            snap_header_ok(self@),
    {
    }

    /// Whether the key of item `index` can be read.
    pub fn key_ok(&self, index: usize) -> (r: bool)
        requires
            self.wf(),
            index < snap_num_items(self@),
        ensures
            r == snap_key_ok(self@, index as int),
    {
        let off = self.offsets[index];
        if off < 0 {
            return false;
        }
        let pos = self.data_start_i32 + (off as usize) / 4;
        pos < self.buf.len()
    }

    /// Whether the keys of all items can be read.
    pub fn keys_ok(&self) -> (r: bool)
        requires
            self.wf(),
        ensures
            r == snap_keys_ok(self@),
    {
        let mut i: usize = 0;
        while i < self.num_items
            invariant
                self.wf(),
                i <= snap_num_items(self@),
                forall|j: int| 0 <= j < i ==> #[trigger] snap_key_ok(self@, j),
            decreases snap_num_items(self@) - i,
        {
            if !self.key_ok(i) {
                return false;
            }
            i += 1;
        }
        true
    }

    /// Whether the payload of item `index` can be read.
    pub fn item_ok(&self, index: usize) -> (r: bool)
        requires
            self.wf(),
            index < snap_num_items(self@),
        ensures
            r == snap_item_ok(self@, index as int),
    {
        let off = self.offsets[index];
        if off < 0 {
            return false;
        }
        let end_off: i32 = if index + 1 < self.num_items {
            self.offsets[index + 1]
        } else {
            self.buf[0]
        };
        if end_off < 0 {
            return false;
        }
        let key_pos = self.data_start_i32 + (off as usize) / 4;
        let end = self.data_start_i32 + (end_off as usize) / 4;
        key_pos + 1 <= end && end <= self.buf.len()
    }

    /// Views `buf`, which must pass the header checks.
    pub fn new(buf: &'a [i32]) -> (r: Self)
        requires
            snap_header_ok(buf@),
        ensures
            r.wf(),
            r@ == buf@,
    {
        let data_size_bytes = buf[0] as usize;
        let num_items = buf[1] as usize;
        let data_start_i32 = 2 + num_items;
        let offsets = &buf[2..2 + num_items];
        SnapView { buf, num_items, data_size_bytes, offsets, data_start_i32 }
    }

    /// The number of items.
    pub fn num_items(&self) -> (r: usize)
        requires
            self.wf(),
        ensures
            r == snap_num_items(self@),
            r <= SNAPSHOT_MAX_ITEMS,
    {
        self.num_items
    }

    /// The key of item `index`.
    pub fn item_key(&self, index: usize) -> (r: i32)
        requires
            self.wf(),
            index < snap_num_items(self@),
            snap_key_ok(self@, index as int),
        ensures
            r == snap_key(self@, index as int),
    {
        let off_bytes = self.offsets[index] as usize;
        let off_i32 = off_bytes / 4;
        self.buf[self.data_start_i32 + off_i32]
    }

    /// The type half of the key of item `index`.
    pub fn item_internal_type(&self, index: usize) -> (r: u16)
        requires
            self.wf(),
            index < snap_num_items(self@),
            snap_key_ok(self@, index as int),
        ensures
            r == key_type(snap_key(self@, index as int)),
    {
        ((self.item_key(index) as u32) >> 16u32) as u16
    }

    /// The ID half of the key of item `index`.
    pub fn item_id(&self, index: usize) -> (r: u16)
        requires
            self.wf(),
            index < snap_num_items(self@),
            snap_key_ok(self@, index as int),
        ensures
            r == key_id(snap_key(self@, index as int)),
    {
        ((self.item_key(index) as u32) & 0xffffu32) as u16
    }

    /// The payload of item `index`.
    pub fn item_data_i32(&self, index: usize) -> (r: &'a [i32])
        requires
            self.wf(),
            index < snap_num_items(self@),
            snap_item_ok(self@, index as int),
        ensures
            r@ == snap_item_data(self@, index as int),
    {
        let off_bytes = self.offsets[index] as usize;
        let start_i32 = self.data_start_i32 + off_bytes / 4;
        let end_off_bytes: usize = if index + 1 < self.num_items {
            self.offsets[index + 1] as usize
        } else {
            self.data_size_bytes
        };
        let end_i32 = self.data_start_i32 + end_off_bytes / 4;
        &self.buf[start_i32 + 1..end_i32]
    }
}


/// Whether `buf` passes the header checks that viewing it asks for.
pub fn snap_header_check(buf: &[i32]) -> (r: bool)
    ensures
        r == snap_header_ok(buf@),
{
    if buf.len() < 2 {
        return false;
    }
    let size = buf[0];
    let n = buf[1];
    if size < 0 || n < 0 || n as usize > SNAPSHOT_MAX_ITEMS {
        return false;
    }
    if 2 + n as usize > buf.len() {
        return false;
    }
    let total: u64 = 8 + 4 * (n as u64) + size as u64;
    total / 4 == buf.len() as u64
}


/// The header checks accept exactly the sequences laid out as
/// `[data_size, n, ..]` with a non-negative data size, between 0 and 1024
/// items, and a total length of `(8 + 4 * n + data_size) / 4` words.
pub proof fn lemma_header_accepts(buf: Seq<i32>)
    ensures
        snap_header_ok(buf) == (buf.len() >= 2 && buf[0] >= 0 && 0 <= buf[1] <= 1024 && (8 + 4
            * buf[1] + buf[0]) / 4 == buf.len()),
{
}

} // verus!
