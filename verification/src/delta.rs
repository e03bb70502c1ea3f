//! Creating snapshot deltas, and the state that the delta algorithm keeps.
use vstd::prelude::*;

use crate::delta_spec::{
    all_deleted_keys, all_zero, apply_word, create_delta_buffer, create_delta_defined,
    create_delta_result, create_delta_writes, create_reach, record_pos, zeroed_by_unchanged, create_item_defined, create_reaches, deleted_keys, delta_stream,
    diff_word, diff_words, distinct_count, has_static_size, header_len, key_in, last_index_of,
    past_index, record_header, update_body, update_count, update_fits, update_record,
    updates_fit, MAX_NETOBJSIZES, SNAP_MAX_ID, SNAP_MAX_TYPE,
};
use crate::key_table::{KeyIndexTable, TABLE_CAP};
use crate::snap::{
    key_type, snap_header_check, snap_header_ok, snap_item_data, snap_item_ok, snap_key,
    snap_key_ok, snap_keys, snap_keys_ok, snap_num_items, SnapView,
};
use crate::unpack_spec::{
    base_items, deleted_table_ok, delta_deleted, delta_num_updated, first_bad_kept,
    last_item_index, record_key, unpack_crashes, unpack_error, unpack_items, unpack_num_base,
    unpack_rejection, unpack_run, unpack_starts, unpack_step, ItemSpec, UnpackStep,
};
use crate::unpacked::UnpackedSnapshot;
use crate::SNAPSHOT_MAX_ITEMS;

verus! {

pub(crate) proof fn lemma_last_index_bounds(keys: Seq<i32>, k: i32, n: int)
    requires
        0 <= n,
    ensures
        -1 <= last_index_of(keys, k, n) < n,
        last_index_of(keys, k, n) >= 0 ==> keys[last_index_of(keys, k, n)] == k,
    decreases n,
{
    if n > 0 {
        lemma_last_index_bounds(keys, k, n - 1);
    }
}

pub(crate) proof fn lemma_deleted_prefix(from: Seq<i32>, to: Seq<i32>, i: int, n: int)
    requires
        0 <= i <= n,
    ensures
        deleted_keys(from, to, i).len() <= deleted_keys(from, to, n).len(),
        deleted_keys(from, to, n).subrange(0, deleted_keys(from, to, i).len() as int)
            == deleted_keys(from, to, i),
    decreases n - i,
{
    if i < n {
        lemma_deleted_prefix(from, to, i, n - 1);
        let a = deleted_keys(from, to, i);
        let b = deleted_keys(from, to, n - 1);
        let c = deleted_keys(from, to, n);
        assert(c.subrange(0, a.len() as int) =~= b.subrange(0, a.len() as int));
    } else {
        assert(deleted_keys(from, to, n).subrange(0, deleted_keys(from, to, n).len() as int)
            =~= deleted_keys(from, to, n));
    }
}

pub(crate) proof fn lemma_body_prefix(sizes: Seq<u16>, from: Seq<i32>, to: Seq<i32>, i: int, n: int)
    requires
        0 <= i <= n,
    ensures
        update_body(sizes, from, to, i).len() <= update_body(sizes, from, to, n).len(),
        update_body(sizes, from, to, n).subrange(0, update_body(sizes, from, to, i).len() as int)
            == update_body(sizes, from, to, i),
    decreases n - i,
{
    if i < n {
        lemma_body_prefix(sizes, from, to, i, n - 1);
        let a = update_body(sizes, from, to, i);
        let b = update_body(sizes, from, to, n - 1);
        let c = update_body(sizes, from, to, n);
        assert(c.subrange(0, a.len() as int) =~= b.subrange(0, a.len() as int));
    } else {
        assert(update_body(sizes, from, to, n).subrange(
            0,
            update_body(sizes, from, to, n).len() as int,
        ) =~= update_body(sizes, from, to, n));
    }
}

pub(crate) proof fn lemma_update_count_bound(sizes: Seq<u16>, from: Seq<i32>, to: Seq<i32>, n: int)
    requires
        0 <= n,
    ensures
        0 <= update_count(sizes, from, to, n) <= n,
    decreases n,
{
    if n > 0 {
        lemma_update_count_bound(sizes, from, to, n - 1);
    }
}

pub(crate) proof fn lemma_deleted_len_bound(from: Seq<i32>, to: Seq<i32>, n: int)
    requires
        0 <= n,
    ensures
        deleted_keys(from, to, n).len() <= n,
    decreases n,
{
    if n > 0 {
        lemma_deleted_len_bound(from, to, n - 1);
    }
}

/// Creates a new [`CSnapshotDelta`]. It still needs to be fed with static
/// item sizes ([`CSnapshotDelta::SetStaticsize`]).
pub fn CSnapshotDelta_New() -> (r: Box<CSnapshotDelta>)
    ensures
        r.wf(),
        r.sizes() == Seq::new(MAX_NETOBJSIZES as nat, |i: int| 0u16),
        r.next_type() == 0,
{
    Box::new(CSnapshotDelta::new())
}

/// Diffs two snapshot items of the same size: each word of `out` becomes
/// the wrapping difference of the words of `current` and `past`.
pub fn CSnapshotDelta_DiffItem(past: &[i32], current: &[i32], out: &mut [i32])
    requires
        past@.len() == current@.len(),
        past@.len() == old(out)@.len(),
    ensures
        final(out)@ == diff_words(current@, past@),
{
    let mut needed: u32 = 0;
    let mut i: usize = 0;
    while i < past.len()
        invariant
            past@.len() == current@.len(),
            past@.len() == out@.len(),
            i <= past@.len(),
            forall|w: int| 0 <= w < i ==> out@[w] == diff_word(current@[w], past@[w]),
        decreases past@.len() - i,
    {
        let d = (current[i] as u32).wrapping_sub(past[i] as u32);
        out[i] = d as i32;
        needed = needed | d;
        i += 1;
    }
    assert(out@ =~= diff_words(current@, past@));
}

/// The delta algorithm's scratch space, reused between calls.
struct Buffer {
    table: KeyIndexTable,
    from_index: KeyIndexTable,
    past_indices: Vec<i16>,
    from_keys: Vec<i32>,
    to_keys: Vec<i32>,
}

impl Buffer {
    spec fn wf(&self) -> bool {
        &&& self.table.wf()
        &&& self.from_index.wf()
        &&& self.past_indices@.len() == SNAPSHOT_MAX_ITEMS
        &&& self.from_keys@.len() == SNAPSHOT_MAX_ITEMS
        &&& self.to_keys@.len() == SNAPSHOT_MAX_ITEMS
    }

    fn new() -> (r: Self)
        ensures
            r.wf(),
    {
        Buffer {
            table: KeyIndexTable::new(),
            from_index: KeyIndexTable::new(),
            past_indices: vec![-1i16; SNAPSHOT_MAX_ITEMS],
            from_keys: vec![0i32; SNAPSHOT_MAX_ITEMS],
            to_keys: vec![0i32; SNAPSHOT_MAX_ITEMS],
        }
    }
}

/// An object allowing you to operate on snapshot deltas: it holds the
/// registered static item sizes.
pub struct CSnapshotDelta {
    item_sizes: Vec<u16>,
    next_type: u32,
    buf: Buffer,
}

impl Default for CSnapshotDelta {
    fn default() -> (r: Self)
        ensures
            r.wf(),
            r.sizes() == Seq::new(MAX_NETOBJSIZES as nat, |i: int| 0u16),
            r.next_type() == 0,
    {
        Self::new()
    }
}

impl CSnapshotDelta {
    /// The registered static item sizes in bytes, by type (`0`: none).
    pub closed spec fn sizes(&self) -> Seq<u16> {
        self.item_sizes@
    }

    /// The lowest type that [`Self::SetStaticsize`] may register next: one
    /// past the last type registered, or `0` if none was.
    pub closed spec fn next_type(&self) -> int {
        self.next_type as int
    }

    /// The object's invariant.
    pub closed spec fn wf(&self) -> bool {
        &&& self.item_sizes@.len() == MAX_NETOBJSIZES
        &&& self.buf.wf()
    }

    /// A well-formed object holds a static size for each of the
    /// [`MAX_NETOBJSIZES`] types.
    pub proof fn lemma_wf_sizes(&self)
        requires
            self.wf(),
        ensures
            self.sizes().len() == MAX_NETOBJSIZES,
    {
    }

    /// Creates an object with no static sizes registered.
    pub fn new() -> (r: Self)
        ensures
            r.wf(),
            r.sizes() == Seq::new(MAX_NETOBJSIZES as nat, |i: int| 0u16),
            r.next_type() == 0,
    {
        let r = CSnapshotDelta {
            item_sizes: vec![0u16; MAX_NETOBJSIZES],
            next_type: 0,
            buf: Buffer::new(),
        };
        proof {
            assert forall|i: int| 0 <= i < MAX_NETOBJSIZES implies r.item_sizes@[i] == 0u16 by {
                assert(cloned(0u16, r.item_sizes@[i]));
            }
            assert(r.sizes() =~= Seq::new(MAX_NETOBJSIZES as nat, |i: int| 0u16));
        }
        r
    }

    /// Creates an object from an existing one: the same static sizes, fresh
    /// scratch space.
    pub fn Clone(&self) -> (r: Box<CSnapshotDelta>)
        requires
            self.wf(),
        ensures
            r.wf(),
            r.sizes() == self.sizes(),
            r.next_type() == self.next_type(),
    {
        let mut item_sizes: Vec<u16> = Vec::new();
        let mut i: usize = 0;
        while i < MAX_NETOBJSIZES
            invariant
                self.wf(),
                i <= MAX_NETOBJSIZES,
                item_sizes@ == self.item_sizes@.subrange(0, i as int),
            decreases MAX_NETOBJSIZES - i,
        {
            item_sizes.push(self.item_sizes[i]);
            assert(item_sizes@ =~= self.item_sizes@.subrange(0, i + 1));
            i += 1;
        }
        assert(item_sizes@ =~= self.item_sizes@);
        Box::new(CSnapshotDelta { item_sizes, next_type: self.next_type, buf: Buffer::new() })
    }

    /// Not implemented: always `0`.
    pub fn GetDataRate(&self, type_: i32) -> (r: u64)
        ensures
            r == 0,
    {
        0
    }

    /// Not implemented: always `0`.
    pub fn GetDataUpdates(&self, type_: i32) -> (r: u64)
        ensures
            r == 0,
    {
        0
    }

    /// The lowest type that [`Self::SetStaticsize`] may register next: one
    /// past the last type registered, or `0` if none was.
    pub fn NextStaticsizeType(&self) -> (r: u32)
        ensures
            r == self.next_type(),
    {
        self.next_type
    }

    /// Tells the snapshot delta algorithm that it can assume a specific item
    /// size for a type.
    ///
    /// Types must be registered in increasing order, starting with 0. The `size` is in
    /// bytes and must be divisible by 4; `0` means that the type has no known
    /// static size. Types from [`MAX_NETOBJSIZES`] on are accepted and
    /// ignored; sizes beyond `u16::MAX` are stored as `u16::MAX`.
    pub fn SetStaticsize(&mut self, type_: i32, size: usize)
        requires
            old(self).wf(),
            type_ >= 0,
            old(self).next_type() == 0 ==> type_ == 0,
            type_ as int >= old(self).next_type(),
            size % 4 == 0,
        ensures
            final(self).wf(),
            final(self).next_type() == type_ + 1,
            final(self).sizes() == if type_ < MAX_NETOBJSIZES {
                old(self).sizes().update(
                    type_ as int,
                    if size > u16::MAX as usize {
                        u16::MAX
                    } else {
                        size as u16
                    },
                )
            } else {
                old(self).sizes()
            },
    {
        self.next_type = type_ as u32 + 1;
        let idx = type_ as usize;
        if idx >= MAX_NETOBJSIZES {
            return;
        }
        let v: u16 = if size > u16::MAX as usize {
            u16::MAX
        } else {
            size as u16
        };
        self.item_sizes.set(idx, v);
    }

    /// The representation of an empty delta: the delta between a snapshot
    /// and itself.
    pub fn EmptyDelta(&self) -> (r: &[i32])
        ensures
            r@ == seq![0i32, 0i32, 0i32],
    {
        let r: &[i32] = &[0, 0, 0];
        assert(r@ =~= seq![0i32, 0i32, 0i32]);
        r
    }

    /// Copies the keys of all items of both snapshots into the scratch space.
    fn load_keys(&mut self, from_view: &SnapView, to_view: &SnapView)
        requires
            old(self).wf(),
            from_view.wf(),
            to_view.wf(),
            snap_keys_ok(from_view@),
            snap_keys_ok(to_view@),
        ensures
            final(self).wf(),
            final(self).item_sizes == old(self).item_sizes,
            final(self).next_type == old(self).next_type,
            forall|i: int|
                0 <= i < snap_num_items(from_view@) ==> final(self).buf.from_keys@[i] == snap_key(
                    from_view@,
                    i,
                ),
            forall|i: int|
                0 <= i < snap_num_items(to_view@) ==> final(self).buf.to_keys@[i] == snap_key(
                    to_view@,
                    i,
                ),
    {
        let from_n = from_view.num_items();
        let to_n = to_view.num_items();
        let mut i: usize = 0;
        while i < from_n
            invariant
                self.wf(),
                self.item_sizes == old(self).item_sizes,
                self.next_type == old(self).next_type,
                from_view.wf(),
                from_n == snap_num_items(from_view@),
                from_n <= SNAPSHOT_MAX_ITEMS,
                snap_keys_ok(from_view@),
                i <= from_n,
                forall|i2: int|
                    0 <= i2 < i ==> self.buf.from_keys@[i2] == snap_key(from_view@, i2),
            decreases from_n - i,
        {
            assert(snap_key_ok(from_view@, i as int));
            let k = from_view.item_key(i);
            self.buf.from_keys.set(i, k);
            i += 1;
        }
        let mut i: usize = 0;
        while i < to_n
            invariant
                self.wf(),
                self.item_sizes == old(self).item_sizes,
                self.next_type == old(self).next_type,
                to_view.wf(),
                to_n == snap_num_items(to_view@),
                to_n <= SNAPSHOT_MAX_ITEMS,
                from_n == snap_num_items(from_view@),
                from_n <= SNAPSHOT_MAX_ITEMS,
                snap_keys_ok(to_view@),
                i <= to_n,
                forall|i2: int|
                    0 <= i2 < from_n ==> self.buf.from_keys@[i2] == snap_key(from_view@, i2),
                forall|i2: int| 0 <= i2 < i ==> self.buf.to_keys@[i2] == snap_key(to_view@, i2),
            decreases to_n - i,
        {
            assert(snap_key_ok(to_view@, i as int));
            let k = to_view.item_key(i);
            self.buf.to_keys.set(i, k);
            i += 1;
        }
    }

    /// Fills `table` with `keys[0..n]`, each mapped to the index of its last
    /// occurrence.
    fn index_keys(table: &mut KeyIndexTable, keys: &Vec<i32>, n: usize)
        requires
            old(table).wf(),
            n <= keys@.len(),
            n <= SNAPSHOT_MAX_ITEMS,
        ensures
            final(table).wf(),
            final(table).num_occupied() <= n,
            forall|k: i32|
                #![trigger final(table)@.contains_key(k)]
                final(table)@.contains_key(k) == key_in(keys@, k, n as int) && (final(table)@.contains_key(k)
                    ==> final(table)@[k] as int == last_index_of(keys@, k, n as int)),
    {
        table.clear();
        let mut i: usize = 0;
        while i < n
            invariant
                table.wf(),
                n <= keys@.len(),
                n <= SNAPSHOT_MAX_ITEMS,
                i <= n,
                table.num_occupied() <= i,
                forall|k: i32|
                    #![trigger table@.contains_key(k)]
                    table@.contains_key(k) == key_in(keys@, k, i as int) && (table@.contains_key(k)
                        ==> table@[k] as int == last_index_of(keys@, k, i as int)),
            decreases n - i,
        {
            let k = keys[i];
            table.insert(k, i as u16);
            proof {
                assert forall|k2: i32| #[trigger]
                    table@.contains_key(k2) == key_in(keys@, k2, i + 1) && (table@.contains_key(k2)
                        ==> table@[k2] as int == last_index_of(keys@, k2, i + 1)) by {
                    lemma_last_index_bounds(keys@, k2, i as int);
                }
            }
            i += 1;
        }
    }

    /// Writes the keys of the items of `from` that `to` lacks to
    /// `delta[3..]`. Returns where the next word goes, or `None` if `delta`
    /// runs out.
    fn write_deleted(
        table: &KeyIndexTable,
        from_keys: &Vec<i32>,
        from_n: usize,
        delta: &mut [i32],
        Ghost(from): Ghost<Seq<i32>>,
        Ghost(to): Ghost<Seq<i32>>,
    ) -> (r: Option<usize>)
        requires
            table.wf(),
            table.num_occupied() <= SNAPSHOT_MAX_ITEMS,
            forall|k: i32|
                #[trigger] table@.contains_key(k) == key_in(
                    snap_keys(to),
                    k,
                    snap_num_items(to),
                ),
            from_n == snap_num_items(from),
            from_n <= from_keys@.len(),
            forall|i: int| 0 <= i < from_n ==> from_keys@[i] == snap_key(from, i),
            old(delta)@.len() >= 3,
        ensures
            final(delta)@.len() == old(delta)@.len(),
            r is None <==> 3 + all_deleted_keys(from, to).len() > old(delta)@.len(),
            r is Some ==> r->0 == 3 + all_deleted_keys(from, to).len(),
            r is Some ==> final(delta)@.subrange(3, r->0 as int) == all_deleted_keys(from, to),
            r is Some ==> forall|j: int|
                0 <= j < old(delta)@.len() && (j < 3 || j >= r->0) ==> final(delta)@[j] == old(delta)@[j],
            r is None ==> forall|j: int|
                0 <= j < old(delta)@.len() ==> final(delta)@[j] == if j < 3 {
                    old(delta)@[j]
                } else {
                    all_deleted_keys(from, to)[j - 3]
                },
    {
        let ghost len = delta@.len() as int;
        let mut out_pos: usize = 3;
        let mut i: usize = 0;
        proof {
            lemma_deleted_len_bound(from, to, from_n as int);
        }
        while i < from_n
            invariant
                table.wf(),
                table.num_occupied() <= SNAPSHOT_MAX_ITEMS,
                forall|k: i32|
                    #[trigger] table@.contains_key(k) == key_in(
                        snap_keys(to),
                        k,
                        snap_num_items(to),
                    ),
                from_n == snap_num_items(from),
                from_n <= from_keys@.len(),
                forall|i2: int| 0 <= i2 < from_n ==> from_keys@[i2] == snap_key(from, i2),
                delta@.len() == len,
                len == old(delta)@.len(),
                len >= 3,
                i <= from_n,
                out_pos == 3 + deleted_keys(from, to, i as int).len(),
                out_pos <= len,
                delta@.subrange(3, out_pos as int) == deleted_keys(from, to, i as int),
                forall|j: int|
                    0 <= j < len && (j < 3 || j >= out_pos) ==> delta@[j] == old(delta)@[j],
            decreases from_n - i,
        {
            let key = from_keys[i];
            proof {
                lemma_deleted_len_bound(from, to, i as int);
            }
            if !table.contains(key) {
                if out_pos >= delta.len() {
                    proof {
                        lemma_deleted_prefix(from, to, i + 1, from_n as int);
                        lemma_deleted_prefix(from, to, i as int, from_n as int);
                        let dl = all_deleted_keys(from, to);
                        let di = deleted_keys(from, to, i as int);
                        assert forall|j: int| 0 <= j < len implies delta@[j] == if j < 3 {
                            old(delta)@[j]
                        } else {
                            dl[j - 3]
                        } by {
                            if 3 <= j < out_pos {
                                assert(delta@[j] == delta@.subrange(3, out_pos as int)[j - 3]);
                                assert(di[j - 3] == dl.subrange(0, di.len() as int)[j - 3]);
                            }
                        }
                    }
                    return None;
                }
                delta[out_pos] = key;
                out_pos += 1;
                proof {
                    assert(delta@.subrange(3, out_pos as int) =~= deleted_keys(from, to, i + 1));
                }
            } else {
                assert(deleted_keys(from, to, i + 1) == deleted_keys(from, to, i as int));
            }
            i += 1;
        }
        Some(out_pos)
    }

    /// Writes the update record of item `i` of `to` at `delta[out_pos..]`.
    /// Returns where the next word goes, or `None` if a full record would not
    /// fit (even if the item turns out unchanged).
    fn write_update(
        item_sizes: &Vec<u16>,
        from_view: &SnapView,
        to_view: &SnapView,
        i: usize,
        past_idx: i16,
        delta: &mut [i32],
        out_pos: usize,
    ) -> (r: Option<usize>)
        requires
            item_sizes@.len() == MAX_NETOBJSIZES,
            from_view.wf(),
            to_view.wf(),
            snap_keys_ok(from_view@),
            snap_keys_ok(to_view@),
            i < snap_num_items(to_view@),
            snap_item_ok(to_view@, i as int),
            past_idx == past_index(from_view@, to_view@, i as int),
            out_pos <= old(delta)@.len(),
            (out_pos + header_len(item_sizes@, snap_key(to_view@, i as int)) + snap_item_data(
                to_view@,
                i as int,
            ).len() <= old(delta)@.len() && past_idx >= 0) ==> {
                &&& snap_item_ok(from_view@, past_idx as int)
                &&& snap_item_data(from_view@, past_idx as int).len() >= snap_item_data(
                    to_view@,
                    i as int,
                ).len()
            },
        ensures
            final(delta)@.len() == old(delta)@.len(),
            r is None <==> out_pos + header_len(item_sizes@, snap_key(to_view@, i as int))
                + snap_item_data(to_view@, i as int).len() > old(delta)@.len(),
            r is None ==> final(delta)@ == old(delta)@,
            r is Some ==> r->0 == out_pos + update_record(
                item_sizes@,
                from_view@,
                to_view@,
                i as int,
            ).len(),
            r is Some ==> final(delta)@.subrange(out_pos as int, r->0 as int) == update_record(
                item_sizes@,
                from_view@,
                to_view@,
                i as int,
            ),
            r is Some ==> forall|j: int| 0 <= j < out_pos ==> final(delta)@[j] == old(delta)@[j],
            r is Some ==> forall|j: int|
                r->0 <= j < old(delta)@.len() ==> final(delta)@[j] == if update_record(
                    item_sizes@,
                    from_view@,
                    to_view@,
                    i as int,
                ).len() == 0 && out_pos + header_len(item_sizes@, snap_key(to_view@, i as int))
                    <= j < out_pos + header_len(item_sizes@, snap_key(to_view@, i as int))
                    + snap_item_data(to_view@, i as int).len() {
                    0i32
                } else {
                    old(delta)@[j]
                },
    {
        let ghost key = snap_key(to_view@, i as int);
        let ghost rec = update_record(item_sizes@, from_view@, to_view@, i as int);
        let ghost len = delta@.len() as int;
        let dlen = delta.len();
        assert(len == dlen);
        let internal_type = to_view.item_internal_type(i);
        let id = to_view.item_id(i);
        let cur_data = to_view.item_data_i32(i);
        let words = cur_data.len();
        let include_size = internal_type as usize >= MAX_NETOBJSIZES
            || item_sizes[internal_type as usize] == 0;
        let hdr: usize = if include_size {
            3
        } else {
            2
        };
        assert(hdr == header_len(item_sizes@, key));
        if hdr > delta.len() - out_pos || words > delta.len() - out_pos - hdr {
            return None;
        }
        let start = out_pos;
        let diff_pos = out_pos + hdr;
        proof {
            from_view.lemma_header();
            lemma_last_index_bounds(snap_keys(from_view@), key, snap_num_items(from_view@));
            assert(include_size == !has_static_size(item_sizes@, key_type(key) as int));
        }
        if past_idx >= 0 {
            let past_data = from_view.item_data_i32(past_idx as usize);
            let ghost d = diff_words(cur_data@, past_data@);
            let mut needed: u32 = 0;
            let mut w: usize = 0;
            while w < words
                invariant
                    w <= words,
                    words == cur_data@.len(),
                    past_data@.len() >= words,
                    d == diff_words(cur_data@, past_data@),
                    diff_pos + words <= len,
                    len == dlen,
                    delta@.len() == len,
                    len == old(delta)@.len(),
                    forall|j: int|
                        0 <= j < len && !(diff_pos <= j < diff_pos + w) ==> delta@[j] == old(delta)@[j],
                    forall|j: int| 0 <= j < w ==> delta@[diff_pos + j] == d[j],
                    (needed == 0) == (forall|j: int| 0 <= j < w ==> d[j] == 0),
                decreases words - w,
            {
                let dw = (cur_data[w] as u32).wrapping_sub(past_data[w] as u32);
                delta[diff_pos + w] = dw as i32;
                proof {
                    let n0 = needed;
                    assert((n0 | dw) == 0u32 <==> (n0 == 0u32 && dw == 0u32)) by (bit_vector);
                    assert((dw as i32 == 0i32) <==> (dw == 0u32)) by (bit_vector);
                    assert(d[w as int] == dw as i32);
                }
                needed = needed | dw;
                w += 1;
            }
            if needed != 0 {
                delta[start] = internal_type as i32;
                delta[start + 1] = id as i32;
                if include_size {
                    delta[start + 2] = words as i32;
                }
                proof {
                    assert(w == words);
                    assert(!all_zero(d));
                    assert(rec == record_header(item_sizes@, key, words as int) + d);
                    assert(delta@.subrange(start as int, (diff_pos + words) as int) =~= rec);
                    assert(forall|j: int| 0 <= j < out_pos ==> delta@[j] == old(delta)@[j]);
                    assert(forall|j: int|
                        diff_pos + words <= j < len ==> delta@[j] == old(delta)@[j]);
                }
                Some(diff_pos + words)
            } else {
                proof {
                    assert(all_zero(d));
                    assert(rec =~= Seq::<i32>::empty());
                    assert forall|j: int| start <= j < len implies delta@[j] == if diff_pos <= j
                        < diff_pos + words {
                        0i32
                    } else {
                        old(delta)@[j]
                    } by {
                        if diff_pos <= j < diff_pos + words {
                            assert(delta@[diff_pos + (j - diff_pos)] == d[j - diff_pos]);
                        }
                    }
                    assert(delta@.subrange(start as int, start as int) =~= rec);
                }
                Some(start)
            }
        } else {
            delta[start] = internal_type as i32;
            delta[start + 1] = id as i32;
            if include_size {
                delta[start + 2] = words as i32;
            }
            let ghost delta_mid = delta@;
            assert(forall|j: int|
                0 <= j < len && !(start <= j < diff_pos) ==> delta_mid[j] == old(delta)@[j]);
            let mut w: usize = 0;
            while w < words
                invariant
                    w <= words,
                    words == cur_data@.len(),
                    diff_pos + words <= len,
                    len == dlen,
                    delta@.len() == len,
                    forall|j: int|
                        0 <= j < len && !(diff_pos <= j < diff_pos + w) ==> delta@[j]
                            == delta_mid[j],
                    forall|j: int| 0 <= j < w ==> delta@[diff_pos + j] == cur_data@[j],
                decreases words - w,
            {
                delta[diff_pos + w] = cur_data[w];
                w += 1;
            }
            proof {
                assert(w == words);
                let h = record_header(item_sizes@, key, words as int);
                assert(rec == h + cur_data@);
                assert(h.len() == hdr);
                assert forall|j: int| 0 <= j < hdr implies delta@[start + j] == h[j] by {
                    assert(delta@[start + j] == delta_mid[start + j]);
                }
                assert forall|j: int| 0 <= j < words implies delta@[diff_pos + j] == cur_data@[j] by {}
                assert(delta@.subrange(start as int, (diff_pos + words) as int) =~= rec);
                assert forall|j: int| 0 <= j < out_pos implies delta@[j] == old(delta)@[j] by {
                    assert(delta@[j] == delta_mid[j]);
                }
                assert forall|j: int| diff_pos + words <= j < len implies delta@[j] == old(
                    delta,
                )@[j] by {
                    assert(delta@[j] == delta_mid[j]);
                }
            }
            Some(diff_pos + words)
        }
    }

    /// Diffs two snapshots to create a delta in `delta`.
    ///
    /// Returns the number of bytes written to `delta`, or `-1` if `delta` is
    /// too small, or `0` if the delta is empty.
    ///
    /// Returns `None` on the inputs on which the delta cannot be created: a
    /// snapshot fails the header checks, a key lies outside its snapshot, or
    /// an item that is diffed before the buffer runs out lies outside its
    /// snapshot or has a shorter base item.
    pub fn CreateDelta(&mut self, from: &[i32], to: &[i32], delta: &mut [i32]) -> (r: Option<i32>)
        requires
            old(self).wf(),
        ensures
            final(self).wf(),
            final(self).sizes() == old(self).sizes(),
            final(self).next_type() == old(self).next_type(),
            final(delta)@.len() == old(delta)@.len(),
            r is None <==> !create_delta_defined(
                old(self).sizes(),
                from@,
                to@,
                old(delta)@.len() as int,
            ),
            r matches Some(v) ==> v == create_delta_result(
                old(self).sizes(),
                from@,
                to@,
                old(delta)@.len() as int,
            ),
            r is Some && create_delta_writes(old(self).sizes(), from@, to@, old(delta)@.len() as int)
                ==> final(delta)@.subrange(
                0,
                delta_stream(old(self).sizes(), from@, to@).len() as int,
            ) == delta_stream(old(self).sizes(), from@, to@),
            r is Some && !create_delta_writes(old(self).sizes(), from@, to@, old(delta)@.len() as int)
                ==> forall|j: int|
                0 <= j < 3 && j < old(delta)@.len() ==> final(delta)@[j] == old(delta)@[j],
            r is Some ==> final(delta)@ == create_delta_buffer(
                old(self).sizes(),
                from@,
                to@,
                old(delta)@,
            ),
    {
        let ghost sizes = self.item_sizes@;
        let ghost len = delta@.len() as int;
        if !snap_header_check(from) || !snap_header_check(to) {
            return None;
        }
        let from_view = SnapView::new(from);
        let to_view = SnapView::new(to);

        if delta.len() < 3 {
            proof {
                assert(delta@ =~= create_delta_buffer(sizes, from@, to@, old(delta)@));
            }
            return Some(-1);
        }
        if !from_view.keys_ok() || !to_view.keys_ok() {
            return None;
        }
        let from_n = from_view.num_items();
        let to_n = to_view.num_items();
        let ghost deleted = all_deleted_keys(from@, to@);
        let ghost nd: int = deleted.len() as int;
        let ghost room = len - 3 - nd;
        let ghost stream = delta_stream(sizes, from@, to@);
        proof {
            lemma_deleted_len_bound(from@, to@, from_n as int);
        }

        self.load_keys(&from_view, &to_view);
        proof {
            assert forall|k: i32| key_in(self.buf.to_keys@, k, to_n as int) == key_in(
                snap_keys(to@),
                k,
                to_n as int,
            ) by {
                lemma_last_index_same(self.buf.to_keys@, snap_keys(to@), k, to_n as int);
            }
        }
        Self::index_keys(&mut self.buf.table, &self.buf.to_keys, to_n);
        let res = Self::write_deleted(
            &self.buf.table,
            &self.buf.from_keys,
            from_n,
            delta,
            Ghost(from@),
            Ghost(to@),
        );
        let mut out_pos = match res {
            None => {
                proof {
                    assert(delta@ =~= create_delta_buffer(sizes, from@, to@, old(delta)@));
                }
                return Some(-1);
            },
            Some(p) => p,
        };
        let num_deleted = (out_pos - 3) as i32;

        // Past indices for each item in `to`.
        Self::index_keys(&mut self.buf.table, &self.buf.from_keys, from_n);
        let mut i: usize = 0;
        while i < to_n
            invariant
                self.wf(),
                self.item_sizes@ == sizes,
                sizes == old(self).item_sizes@,
                self.next_type == old(self).next_type,
                from_n == snap_num_items(from@),
                to_n == snap_num_items(to@),
                from_n <= SNAPSHOT_MAX_ITEMS,
                to_n <= SNAPSHOT_MAX_ITEMS,
                i <= to_n,
                forall|i2: int| 0 <= i2 < to_n ==> self.buf.to_keys@[i2] == snap_key(to@, i2),
                forall|i2: int| 0 <= i2 < from_n ==> self.buf.from_keys@[i2] == snap_key(from@, i2),
                self.buf.table.num_occupied() <= from_n,
                forall|k: i32|
                    #![trigger self.buf.table@.contains_key(k)]
                    self.buf.table@.contains_key(k) == key_in(
                        self.buf.from_keys@,
                        k,
                        from_n as int,
                    ) && (self.buf.table@.contains_key(k) ==> self.buf.table@[k] as int
                        == last_index_of(self.buf.from_keys@, k, from_n as int)),
                forall|i2: int|
                    0 <= i2 < i ==> self.buf.past_indices@[i2] == past_index(from@, to@, i2),
            decreases to_n - i,
        {
            let k = self.buf.to_keys[i];
            let g = self.buf.table.get(k);
            proof {
                lemma_last_index_bounds(self.buf.from_keys@, k, from_n as int);
                lemma_last_index_same(self.buf.from_keys@, snap_keys(from@), k, from_n as int);
            }
            let idx: i16 = match g {
                Some(v) => v as i16,
                None => -1,
            };
            self.buf.past_indices.set(i, idx);
            i += 1;
        }

        // Updates.
        let mut num_updated: i32 = 0;
        let mut i: usize = 0;
        while i < to_n
            invariant
                self.wf(),
                self.item_sizes@ == sizes,
                sizes == old(self).item_sizes@,
                self.next_type == old(self).next_type,
                sizes.len() == MAX_NETOBJSIZES,
                snap_header_ok(from@),
                snap_header_ok(to@),
                len >= 3,
                from_view.wf(),
                from_view@ == from@,
                to_view.wf(),
                to_view@ == to@,
                snap_keys_ok(from@),
                snap_keys_ok(to@),
                from_n == snap_num_items(from@),
                to_n == snap_num_items(to@),
                to_n <= SNAPSHOT_MAX_ITEMS,
                i <= to_n,
                deleted == all_deleted_keys(from@, to@),
                nd == deleted.len(),
                room == len - 3 - nd,
                room >= 0,
                stream == delta_stream(sizes, from@, to@),
                num_deleted == nd,
                forall|i2: int|
                    0 <= i2 < to_n ==> self.buf.past_indices@[i2] == past_index(from@, to@, i2),
                delta@.len() == len,
                len == old(delta)@.len(),
                out_pos == 3 + nd + update_body(sizes, from@, to@, i as int).len(),
                num_updated == update_count(sizes, from@, to@, i as int),
                updates_fit(sizes, from@, to@, room, i as int),
                forall|i2: int| 0 <= i2 < i ==> #[trigger] create_item_defined(sizes, from@, to@, room, i2),
                out_pos <= len,
                delta@.subrange(3, 3 + nd) == deleted,
                delta@.subrange(3 + nd, out_pos as int) == update_body(sizes, from@, to@, i as int),
                forall|j: int| 0 <= j < 3 ==> delta@[j] == old(delta)@[j],
                create_reach(sizes, from@, to@, room, i as int) == i,
                forall|j: int|
                    out_pos <= j < len ==> delta@[j] == if zeroed_by_unchanged(
                        sizes,
                        from@,
                        to@,
                        i as int,
                        j,
                    ) {
                        0i32
                    } else {
                        old(delta)@[j]
                    },
            decreases to_n - i,
        {
            proof {
                lemma_update_count_bound(sizes, from@, to@, i as int);
                assert(create_reaches(sizes, from@, to@, room, i as int));
            }
            let past_idx = self.buf.past_indices[i];
            let diffable = Self::item_diffable(
                &self.item_sizes,
                &from_view,
                &to_view,
                i,
                past_idx,
                delta.len(),
                out_pos,
            );
            if !diffable {
                proof {
                    assert(!create_item_defined(sizes, from@, to@, room, i as int));
                }
                return None;
            }
            let ghost body_i = update_body(sizes, from@, to@, i as int);
            let ghost delta_before = delta@;
            let res = Self::write_update(
                &self.item_sizes,
                &from_view,
                &to_view,
                i,
                past_idx,
                delta,
                out_pos,
            );
            match res {
                None => {
                    proof {
                        assert(!update_fits(sizes, from@, to@, room, i as int));
                        lemma_body_prefix(sizes, from@, to@, i as int, to_n as int);
                        let bn = update_body(sizes, from@, to@, to_n as int);
                        lemma_reach_stop(sizes, from@, to@, room, i as int, to_n as int);
                        assert(!create_delta_writes(sizes, from@, to@, len));
                        assert forall|j: int| 0 <= j < len implies delta@[j] == create_delta_buffer(
                            sizes,
                            from@,
                            to@,
                            old(delta)@,
                        )[j] by {
                            if 3 <= j < 3 + nd {
                                assert(delta@[j] == delta@.subrange(3, 3 + nd)[j - 3]);
                            } else if 3 + nd <= j < out_pos {
                                assert(delta@[j] == delta@.subrange(3 + nd, out_pos as int)[j - 3
                                    - nd]);
                                assert(body_i[j - 3 - nd] == bn.subrange(0, body_i.len() as int)[j
                                    - 3 - nd]);
                            }
                        }
                        assert(delta@ =~= create_delta_buffer(sizes, from@, to@, old(delta)@));
                        assert forall|j: int|
                            create_reaches(sizes, from@, to@, room, j) implies #[trigger] create_item_defined(
                            sizes,
                            from@,
                            to@,
                            room,
                            j,
                        ) by {
                            if j > i {
                                assert(update_fits(sizes, from@, to@, room, i as int));
                            }
                        }
                        assert(create_delta_defined(sizes, from@, to@, len));
                    }
                    return Some(-1);
                },
                Some(p) => {
                    let ghost rec = update_record(sizes, from@, to@, i as int);
                    proof {
                        assert(update_fits(sizes, from@, to@, room, i as int));
                        assert(updates_fit(sizes, from@, to@, room, i + 1));
                        assert(delta@.subrange(3 + nd, p as int) =~= body_i + rec) by {
                            assert forall|j: int| 0 <= j < body_i.len() implies delta@[3 + nd + j]
                                == body_i[j] by {
                                assert(delta_before[3 + nd + j] == delta_before.subrange(
                                    3 + nd,
                                    out_pos as int,
                                )[j]);
                            }
                            assert forall|j: int| 0 <= j < rec.len() implies delta@[out_pos + j]
                                == rec[j] by {
                                assert(delta@[out_pos + j] == delta@.subrange(
                                    out_pos as int,
                                    p as int,
                                )[j]);
                            }
                        }
                        assert(delta@.subrange(3, 3 + nd) =~= delta_before.subrange(3, 3 + nd));
                        assert(create_reach(sizes, from@, to@, room, i + 1) == i + 1);
                        assert(record_pos(sizes, from@, to@, i as int) == out_pos);
                        assert forall|j: int| p <= j < len implies delta@[j] == if zeroed_by_unchanged(
                            sizes,
                            from@,
                            to@,
                            i + 1,
                            j,
                        ) {
                            0i32
                        } else {
                            old(delta)@[j]
                        } by {
                            lemma_zeroed_step(sizes, from@, to@, i as int, j);
                        }
                    }
                    let grew = p > out_pos;
                    out_pos = p;
                    if grew {
                        num_updated += 1;
                    }
                },
            }
            i += 1;
        }
        proof {
            assert(updates_fit(sizes, from@, to@, room, to_n as int));
            assert forall|j: int|
                create_reaches(sizes, from@, to@, room, j) implies #[trigger] create_item_defined(
                sizes,
                from@,
                to@,
                room,
                j,
            ) by {}
            assert(create_delta_defined(sizes, from@, to@, len));
        }

        if num_deleted == 0 && num_updated == 0 {
            proof {
                lemma_zero_count_empty_body(sizes, from@, to@, to_n as int);
                assert(delta@ =~= create_delta_buffer(sizes, from@, to@, old(delta)@));
            }
            return Some(0);
        }

        delta[0] = num_deleted;
        delta[1] = num_updated;
        delta[2] = 0;
        proof {
            assert(delta@.subrange(0, stream.len() as int) =~= stream);
            assert forall|j: int| 0 <= j < len implies delta@[j] == create_delta_buffer(
                sizes,
                from@,
                to@,
                old(delta)@,
            )[j] by {
                if j < stream.len() {
                    assert(delta@[j] == delta@.subrange(0, stream.len() as int)[j]);
                }
            }
            assert(delta@ =~= create_delta_buffer(sizes, from@, to@, old(delta)@));
        }
        Some(((out_pos as u128) * 4) as i32)
    }

    /// Whether item `i` of `to` can be diffed with the buffer filled up to
    /// `out_pos`: it can be read, and if a full record of it fits and it has
    /// a base item, the base item can be read and is at least as long.
    fn item_diffable(
        item_sizes: &Vec<u16>,
        from_view: &SnapView,
        to_view: &SnapView,
        i: usize,
        past_idx: i16,
        len: usize,
        out_pos: usize,
    ) -> (r: bool)
        requires
            item_sizes@.len() == MAX_NETOBJSIZES,
            from_view.wf(),
            to_view.wf(),
            snap_keys_ok(to_view@),
            i < snap_num_items(to_view@),
            past_idx == past_index(from_view@, to_view@, i as int),
            snap_keys_ok(from_view@),
            out_pos <= len,
        ensures
            r == {
                &&& snap_item_ok(to_view@, i as int)
                &&& (out_pos + header_len(item_sizes@, snap_key(to_view@, i as int))
                    + snap_item_data(to_view@, i as int).len() <= len && past_idx >= 0) ==> {
                    &&& snap_item_ok(from_view@, past_idx as int)
                    &&& snap_item_data(from_view@, past_idx as int).len() >= snap_item_data(
                        to_view@,
                        i as int,
                    ).len()
                }
            },
    {
        if !to_view.item_ok(i) {
            return false;
        }
        if past_idx < 0 {
            return true;
        }
        let ghost key = snap_key(to_view@, i as int);
        let words = to_view.item_data_i32(i).len();
        let t = to_view.item_internal_type(i);
        let hdr: usize = if t as usize >= MAX_NETOBJSIZES || item_sizes[t as usize] == 0 {
            3
        } else {
            2
        };
        assert(hdr == header_len(item_sizes@, key));
        if hdr > len - out_pos || words > len - out_pos - hdr {
            return true;
        }
        proof {
            from_view.lemma_header();
            lemma_last_index_bounds(snap_keys(from_view@), key, snap_num_items(from_view@));
        }
        if !from_view.item_ok(past_idx as usize) {
            return false;
        }
        from_view.item_data_i32(past_idx as usize).len() >= words
    }
}

/// Once a kept item cannot be read, the base copy gets no further.
pub(crate) proof fn lemma_bad_kept_stop(from: Seq<i32>, deleted: Seq<i32>, i: int, n: int)
    requires
        0 <= i < n,
        first_bad_kept(from, deleted, i) == i,
        !key_in(deleted, snap_key(from, i), deleted.len() as int),
        !snap_item_ok(from, i),
    ensures
        first_bad_kept(from, deleted, n) == i,
    decreases n - i,
{
    if n > i + 1 {
        lemma_bad_kept_stop(from, deleted, i, n - 1);
    }
}

/// Once an item fails the room check, the update loop gets no further.
pub(crate) proof fn lemma_reach_stop(
    sizes: Seq<u16>,
    from: Seq<i32>,
    to: Seq<i32>,
    room: int,
    i: int,
    n: int,
)
    requires
        0 <= i < n,
        create_reach(sizes, from, to, room, i) == i,
        !update_fits(sizes, from, to, room, i),
    ensures
        create_reach(sizes, from, to, room, n) == i,
    decreases n - i,
{
    if n > i + 1 {
        lemma_reach_stop(sizes, from, to, room, i, n - 1);
    }
}

/// Past the end of the records of the first `i + 1` items, the words zeroed
/// while diffing unchanged items are those zeroed before item `i`, and
/// those of item `i` if it is unchanged.
pub(crate) proof fn lemma_zeroed_step(sizes: Seq<u16>, from: Seq<i32>, to: Seq<i32>, i: int, j: int)
    requires
        0 <= i,
    ensures
        zeroed_by_unchanged(sizes, from, to, i + 1, j) == (zeroed_by_unchanged(
            sizes,
            from,
            to,
            i,
            j,
        ) || (update_record(sizes, from, to, i).len() == 0 && record_pos(sizes, from, to, i)
            + header_len(sizes, snap_key(to, i)) <= j < record_pos(sizes, from, to, i)
            + header_len(sizes, snap_key(to, i)) + snap_item_data(to, i).len())),
{
    if zeroed_by_unchanged(sizes, from, to, i + 1, j) {
        let k = choose|k: int|
            0 <= k < i + 1 && #[trigger] update_record(sizes, from, to, k).len() == 0
                && record_pos(sizes, from, to, k) + header_len(sizes, snap_key(to, k)) <= j
                < record_pos(sizes, from, to, k) + header_len(sizes, snap_key(to, k))
                + snap_item_data(to, k).len();
        if k < i {
            assert(zeroed_by_unchanged(sizes, from, to, i, j));
        }
    }
    if zeroed_by_unchanged(sizes, from, to, i, j) {
        let k = choose|k: int|
            0 <= k < i && #[trigger] update_record(sizes, from, to, k).len() == 0
                && record_pos(sizes, from, to, k) + header_len(sizes, snap_key(to, k)) <= j
                < record_pos(sizes, from, to, k) + header_len(sizes, snap_key(to, k))
                + snap_item_data(to, k).len();
        assert(update_record(sizes, from, to, k).len() == 0);
    }
    if update_record(sizes, from, to, i).len() == 0 && record_pos(sizes, from, to, i)
        + header_len(sizes, snap_key(to, i)) <= j < record_pos(sizes, from, to, i)
        + header_len(sizes, snap_key(to, i)) + snap_item_data(to, i).len() {
        assert(update_record(sizes, from, to, i).len() == 0);
    }
}

pub(crate) proof fn lemma_last_index_same(a: Seq<i32>, b: Seq<i32>, k: i32, n: int)
    requires
        0 <= n <= a.len(),
        n <= b.len(),
        forall|i: int| 0 <= i < n ==> a[i] == b[i],
    ensures
        last_index_of(a, k, n) == last_index_of(b, k, n),
    decreases n,
{
    if n > 0 {
        lemma_last_index_same(a, b, k, n - 1);
    }
}

pub(crate) proof fn lemma_zero_count_empty_body(
    sizes: Seq<u16>,
    from: Seq<i32>,
    to: Seq<i32>,
    n: int,
)
    requires
        update_count(sizes, from, to, n) == 0,
        0 <= n,
    ensures
        update_body(sizes, from, to, n).len() == 0,
    decreases n,
{
    if n > 0 {
        lemma_update_count_bound(sizes, from, to, n - 1);
        lemma_zero_count_empty_body(sizes, from, to, n - 1);
    }
}

pub(crate) proof fn lemma_distinct_count_mono(s: Seq<i32>, i: int, n: int)
    requires
        0 <= i <= n,
    ensures
        distinct_count(s, i) <= distinct_count(s, n),
    decreases n - i,
{
    if i < n {
        lemma_distinct_count_mono(s, i, n - 1);
    }
}

pub(crate) proof fn lemma_run_stable(
    sizes: Seq<u16>,
    from: Seq<i32>,
    delta: Seq<i32>,
    a: int,
    b: int,
)
    requires
        0 <= a <= b,
        !(unpack_run(sizes, from, delta, a) is Next),
    ensures
        unpack_run(sizes, from, delta, b) == unpack_run(sizes, from, delta, a),
    decreases b - a,
{
    if a < b {
        lemma_run_stable(sizes, from, delta, a, b - 1);
    }
}

impl CSnapshotDelta {
    /// Applies the update record at word `p` of `delta` to `plan`. Returns
    /// where the next record starts, or the error code of a malformed record
    /// (leaving `plan` as it was), or `None` if the record reaches beyond the
    /// item it updates or beyond its base item.
    fn apply_update(
        item_sizes: &Vec<u16>,
        from_index: &KeyIndexTable,
        from_view: &SnapView,
        delta: &[i32],
        p: usize,
        plan: &mut UnpackedSnapshot,
    ) -> (r: Option<Result<usize, i32>>)
        requires
            item_sizes@.len() == MAX_NETOBJSIZES,
            from_index.wf(),
            from_index.num_occupied() <= SNAPSHOT_MAX_ITEMS,
            from_view.wf(),
            snap_keys_ok(from_view@),
            forall|k: i32|
                #![trigger from_index@.contains_key(k)]
                from_index@.contains_key(k) == key_in(
                    snap_keys(from_view@),
                    k,
                    snap_num_items(from_view@),
                ) && (from_index@.contains_key(k) ==> from_index@[k] as int == last_index_of(
                    snap_keys(from_view@),
                    k,
                    snap_num_items(from_view@),
                )),
            old(plan).wf(),
            p <= delta@.len(),
        ensures
            final(plan).wf(),
            final(plan).num_base == old(plan).num_base,
            final(plan).error == old(plan).error,
            final(plan).crashed == old(plan).crashed,
            match r {
                None => unpack_step(item_sizes@, from_view@, delta@, p as int, old(plan).items())
                    == UnpackStep::Crash(final(plan).items()),
                Some(Ok(q)) => unpack_step(item_sizes@, from_view@, delta@, p as int, old(plan).items())
                    == UnpackStep::Next(q as int, final(plan).items()),
                Some(Err(c)) => unpack_step(item_sizes@, from_view@, delta@, p as int, old(plan).items())
                    == UnpackStep::Stop(old(plan).items(), c) && final(plan).items() == old(
                    plan,
                ).items(),
            },
    {
        let ghost sizes = item_sizes@;
        let ghost from = from_view@;
        let ghost items0 = plan.items();
        let len = delta.len();
        if 2 > len - p {
            return Some(Err(-102));
        }
        let type_ = delta[p];
        let id = delta[p + 1];
        let mut q = p + 2;
        if type_ < 0 || type_ > SNAP_MAX_TYPE {
            return Some(Err(-202));
        }
        if id < 0 || id > SNAP_MAX_ID {
            return Some(Err(-203));
        }
        let words: usize;
        if type_ < MAX_NETOBJSIZES as i32 && item_sizes[type_ as usize] != 0 {
            words = (item_sizes[type_ as usize] as usize) / 4;
        } else {
            if q >= len {
                return Some(Err(-103));
            }
            let w = delta[q];
            q += 1;
            if w < 0 {
                return Some(Err(-204));
            }
            words = w as usize;
        }
        if words > len - q {
            return Some(Err(-205));
        }
        let key = type_ * 65536 + id;
        let ghost bi = last_item_index(items0, key, items0.len() as int);
        let ghost fj = last_index_of(snap_keys(from), key, snap_num_items(from));
        proof {
            from_view.lemma_header();
            lemma_last_index_bounds(snap_keys(from), key, snap_num_items(from));
            lemma_last_item_index_bounds(items0, key, items0.len() as int);
            assert(key == record_key(type_ as int, id as int));
        }
        let found = plan.find_last(key);
        if let Some(b) = found {
            if words > plan.item_len(b) {
                return None;
            }
        }
        let k: usize = match found {
            Some(b) => b,
            None => {
                plan.push_zeroed(key, words);
                plan.num_items() - 1
            },
        };
        let ghost items1 = plan.items();
        let ghost dst = items1[k as int].1;
        proof {
            if bi >= 0 {
                assert(items0[bi].0 == key);
            }
            assert(items1[k as int].0 == key);
        }
        let fi = from_index.get(key);
        let ghost new_data = Seq::new(
            dst.len(),
            |x: int|
                if x < words {
                    if fj >= 0 {
                        apply_word(snap_item_data(from, fj)[x], delta@[q + x])
                    } else {
                        delta@[q + x]
                    }
                } else {
                    dst[x]
                },
        );
        proof {
            assert(Seq::new(
                dst.len(),
                |x: int|
                    if x < 0 {
                        new_data[x]
                    } else {
                        dst[x]
                    },
            ) =~= dst);
            assert(items1.update(k as int, (key, dst)) =~= items1);
        }
        // The base item's payload, if the base snapshot has the key.
        let past: &[i32] = match fi {
            Some(j) => {
                assert(j as int == fj);
                if !from_view.item_ok(j as usize) {
                    return None;
                }
                let past = from_view.item_data_i32(j as usize);
                if words > past.len() {
                    return None;
                }
                past
            },
            None => &[],
        };
        let has_past = fi.is_some();
        let mut w: usize = 0;
        while w < words
            invariant
                plan.wf(),
                plan.num_base == old(plan).num_base,
                plan.error == old(plan).error,
                plan.crashed == old(plan).crashed,
                w <= words,
                words <= dst.len(),
                has_past == (fj >= 0),
                has_past ==> words <= past@.len(),
                new_data.len() == dst.len(),
                forall|x: int|
                    0 <= x < words ==> new_data[x] == if has_past {
                        apply_word(past@[x], delta@[q + x])
                    } else {
                        delta@[q + x]
                    },
                len == delta@.len(),
                q + words <= len,
                k < items1.len(),
                items1[k as int].0 == key,
                items1[k as int].1 == dst,
                plan.items() == items1.update(
                    k as int,
                    (
                        key,
                        Seq::new(
                            dst.len(),
                            |x: int|
                                if x < w {
                                    new_data[x]
                                } else {
                                    dst[x]
                                },
                        ),
                    ),
                ),
            decreases words - w,
        {
            let v = if has_past {
                (past[w] as u32).wrapping_add(delta[q + w] as u32) as i32
            } else {
                delta[q + w]
            };
            let ghost cur = Seq::new(
                dst.len(),
                |x: int|
                    if x < w {
                        new_data[x]
                    } else {
                        dst[x]
                    },
            );
            let ghost nxt = Seq::new(
                dst.len(),
                |x: int|
                    if x < w + 1 {
                        new_data[x]
                    } else {
                        dst[x]
                    },
            );
            plan.write_word(k, w, v);
            proof {
                assert(v == new_data[w as int]);
                assert(cur.update(w as int, v) =~= nxt);
                assert(plan.items() =~= items1.update(k as int, (key, nxt)));
            }
            w += 1;
        }
        proof {
            let fin = Seq::new(
                dst.len(),
                |x: int|
                    if x < words {
                        new_data[x]
                    } else {
                        dst[x]
                    },
            );
            assert(fin =~= new_data);
            if bi >= 0 {
                assert(plan.items() =~= items0.update(bi, (key, new_data)));
            } else {
                assert(items1 == items0.push((key, Seq::new(words as nat, |x: int| 0i32))));
                assert(plan.items() =~= items0.push((key, new_data)));
            }
        }
        Some(Ok(q + words))
    }

    /// Applies `delta` to the snapshot `from`.
    ///
    /// Returns the error code if the delta is turned away before anything is
    /// built (`-505`, `-201` or `-101`). Otherwise returns the items of the
    /// new snapshot in the order in which they are to be added to a builder,
    /// together with the error code of a malformed update record, if the
    /// delta holds one (in which case the items are those before it), or
    /// whether the delta stops out of bounds after these items: a kept item
    /// of `from` lies outside it, or an update record reaches beyond the item
    /// it updates or beyond its base item.
    ///
    /// Returns `None` on the inputs on which applying the delta does not get
    /// as far as building: `from` fails the header checks, a key of `from`
    /// lies outside it, or more distinct keys are deleted than the scratch
    /// table holds (or exactly that many, while `from` keeps an item).
    pub fn UnpackDelta(&mut self, from: &[i32], delta: &[i32]) -> (r: Option<
        Result<UnpackedSnapshot, i32>,
    >)
        requires
            old(self).wf(),
        ensures
            final(self).wf(),
            final(self).sizes() == old(self).sizes(),
            final(self).next_type() == old(self).next_type(),
            r is None <==> !unpack_starts(old(self).sizes(), from@, delta@),
            r matches Some(x) ==> match unpack_rejection(delta@) {
                Some(c) => x == Err::<UnpackedSnapshot, i32>(c),
                None => x matches Ok(s) && s.wf() && s.items() == unpack_items(
                    old(self).sizes(),
                    from@,
                    delta@,
                ) && s.num_base == unpack_num_base(from@, delta@) && s.error == unpack_error(
                    old(self).sizes(),
                    from@,
                    delta@,
                ) && s.crashed == unpack_crashes(old(self).sizes(), from@, delta@),
            },
    {
        let ghost sizes = self.item_sizes@;
        if delta.len() < 3 {
            return Some(Err(-505));
        }
        if delta[0] < 0 {
            return Some(Err(-201));
        }
        if delta[1] < 0 {
            return Some(Err(-201));
        }
        let num_deleted = delta[0] as usize;
        let num_updated = delta[1] as usize;
        if delta.len() < 3 + num_deleted {
            return Some(Err(-101));
        }
        let ghost deleted = delta_deleted(delta@);
        let ghost dc = distinct_count(deleted, deleted.len() as int);

        if !snap_header_check(from) {
            return None;
        }
        let from_view = SnapView::new(from);
        let from_n = from_view.num_items();

        // The set of deleted keys.
        let dlen = delta.len();
        self.buf.table.clear();
        let mut occupied: usize = 0;
        let mut i: usize = 0;
        while i < num_deleted
            invariant
                self.wf(),
                self.item_sizes@ == sizes,
                sizes == old(self).item_sizes@,
                self.next_type == old(self).next_type,
                i <= num_deleted,
                unpack_rejection(delta@) is None,
                num_deleted == deleted.len(),
                num_deleted as int == delta@[0] as int,
                dlen == delta@.len(),
                3 + num_deleted <= dlen,
                deleted == delta@.subrange(3, 3 + num_deleted as int),
                dc == distinct_count(deleted, num_deleted as int),
                occupied == self.buf.table.num_occupied(),
                occupied == distinct_count(deleted, i as int),
                occupied <= TABLE_CAP,
                forall|k: i32|
                    #[trigger] self.buf.table@.contains_key(k) == key_in(deleted, k, i as int),
            decreases num_deleted - i,
        {
            let k = delta[3 + i];
            proof {
                assert(deleted[i as int] == k);
            }
            if occupied < TABLE_CAP {
                let was_in = self.buf.table.contains(k);
                self.buf.table.insert(k, 1);
                if !was_in {
                    occupied = occupied + 1;
                }
            } else if !Self::deleted_key_in(delta, i, k) {
                proof {
                    assert(distinct_count(deleted, i + 1) == occupied + 1);
                    lemma_distinct_count_mono(deleted, i + 1, num_deleted as int);
                    assert(dc > TABLE_CAP);
                    assert(!deleted_table_ok(from@, deleted));
                    assert(unpack_rejection(delta@) is None);
                    assert(!unpack_starts(sizes, from@, delta@));
                }
                return None;
            }
            proof {
                assert forall|k2: i32| #[trigger]
                    self.buf.table@.contains_key(k2) == key_in(deleted, k2, i + 1) by {}
            }
            i += 1;
        }

        // The keys of the base snapshot, and where each was last seen.
        let mut i: usize = 0;
        while i < from_n
            invariant
                self.wf(),
                self.item_sizes@ == sizes,
                sizes == old(self).item_sizes@,
                self.next_type == old(self).next_type,
                from_view.wf(),
                from_view@ == from@,
                from_n == snap_num_items(from@),
                from_n <= SNAPSHOT_MAX_ITEMS,
                i <= from_n,
                unpack_rejection(delta@) is None,
                occupied == self.buf.table.num_occupied(),
                occupied == dc,
                forall|k: i32|
                    #[trigger] self.buf.table@.contains_key(k) == key_in(
                        deleted,
                        k,
                        deleted.len() as int,
                    ),
                forall|i2: int| 0 <= i2 < i ==> #[trigger] snap_key_ok(from@, i2),
                forall|i2: int| 0 <= i2 < i ==> self.buf.from_keys@[i2] == snap_key(from@, i2),
            decreases from_n - i,
        {
            if !from_view.key_ok(i) {
                proof {
                    assert(!snap_key_ok(from@, i as int));
                    assert(!snap_keys_ok(from@));
                    assert(unpack_rejection(delta@) is None);
                }
                return None;
            }
            let k = from_view.item_key(i);
            self.buf.from_keys.set(i, k);
            i += 1;
        }
        assert(snap_keys_ok(from@));
        Self::index_keys(&mut self.buf.from_index, &self.buf.from_keys, from_n);
        proof {
            assert forall|k: i32|
                key_in(self.buf.from_keys@, k, from_n as int) == key_in(
                    snap_keys(from@),
                    k,
                    from_n as int,
                ) && last_index_of(self.buf.from_keys@, k, from_n as int) == last_index_of(
                    snap_keys(from@),
                    k,
                    from_n as int,
                ) by {
                lemma_last_index_same(self.buf.from_keys@, snap_keys(from@), k, from_n as int);
            }
        }

        // Copy everything from the base snapshot that isn't deleted.
        let mut plan = UnpackedSnapshot::new();
        let mut i: usize = 0;
        while i < from_n
            invariant
                self.wf(),
                self.item_sizes@ == sizes,
                sizes == old(self).item_sizes@,
                self.next_type == old(self).next_type,
                unpack_rejection(delta@) is None,
                from_view.wf(),
                from_view@ == from@,
                from_n == snap_num_items(from@),
                from_n <= SNAPSHOT_MAX_ITEMS,
                i <= from_n,
                deleted == delta_deleted(delta@),
                num_deleted == deleted.len(),
                num_deleted as int == delta@[0] as int,
                dlen == delta@.len(),
                3 + num_deleted <= dlen,
                dc == distinct_count(deleted, deleted.len() as int),
                occupied == self.buf.table.num_occupied(),
                occupied == dc,
                dc <= TABLE_CAP,
                forall|k: i32|
                    #[trigger] self.buf.table@.contains_key(k) == key_in(
                        deleted,
                        k,
                        deleted.len() as int,
                    ),
                forall|i2: int| 0 <= i2 < from_n ==> self.buf.from_keys@[i2] == snap_key(from@, i2),
                first_bad_kept(from@, deleted, i as int) == i,
                snap_header_ok(from@),
                snap_keys_ok(from@),
                sizes.len() == MAX_NETOBJSIZES,
                num_updated == delta_num_updated(delta@),
                dc == TABLE_CAP ==> forall|i2: int|
                    0 <= i2 < i ==> key_in(deleted, #[trigger] snap_key(from@, i2), deleted.len() as int),
                plan.wf(),
                plan.num_base == 0,
                plan.error is None,
                !plan.crashed,
                plan.items() == base_items(from@, deleted, i as int),
            decreases from_n - i,
        {
            let key = self.buf.from_keys[i];
            let is_deleted = if occupied < TABLE_CAP {
                self.buf.table.contains(key)
            } else {
                Self::deleted_key_in(delta, num_deleted, key)
            };
            if !is_deleted {
                if occupied == TABLE_CAP {
                    proof {
                        assert(key == snap_key(from@, i as int));
                        assert(!key_in(deleted, snap_key(from@, i as int), deleted.len() as int));
                        assert(!deleted_table_ok(from@, deleted));
                    }
                    return None;
                }
                if !from_view.item_ok(i) {
                    plan.num_base = plan.num_items();
                    plan.crashed = true;
                    proof {
                        assert(key == snap_key(from@, i as int));
                        lemma_bad_kept_stop(from@, deleted, i as int, from_n as int);
                        assert(deleted_table_ok(from@, deleted));
                        lemma_run_stable(sizes, from@, delta@, 0, num_updated as int);
                    }
                    return Some(Ok(plan));
                }
                let data = from_view.item_data_i32(i);
                plan.push_item(key, data);
            }
            i += 1;
        }
        assert(deleted_table_ok(from@, deleted));
        plan.num_base = plan.num_items();
        assert(unpack_run(sizes, from@, delta@, 0) == UnpackStep::Next(
            3 + num_deleted as int,
            plan.items(),
        ));

        // Apply updates.
        let mut p: usize = 3 + num_deleted;
        let mut k: usize = 0;
        while k < num_updated
            invariant
                self.wf(),
                self.item_sizes@ == sizes,
                sizes == old(self).item_sizes@,
                self.next_type == old(self).next_type,
                sizes.len() == MAX_NETOBJSIZES,
                unpack_rejection(delta@) is None,
                snap_header_ok(from@),
                deleted_table_ok(from@, deleted),
                deleted == delta_deleted(delta@),
                from_view.wf(),
                from_view@ == from@,
                snap_keys_ok(from@),
                from_n == snap_num_items(from@),
                self.buf.from_index.num_occupied() <= SNAPSHOT_MAX_ITEMS,
                forall|k2: i32|
                    #![trigger self.buf.from_index@.contains_key(k2)]
                    self.buf.from_index@.contains_key(k2) == key_in(
                        snap_keys(from@),
                        k2,
                        from_n as int,
                    ) && (self.buf.from_index@.contains_key(k2) ==> self.buf.from_index@[k2] as int
                        == last_index_of(snap_keys(from@), k2, from_n as int)),
                k <= num_updated,
                num_updated == delta_num_updated(delta@),
                p <= delta@.len(),
                plan.wf(),
                plan.num_base == unpack_num_base(from@, delta@),
                plan.error is None,
                !plan.crashed,
                unpack_run(sizes, from@, delta@, k as int) == UnpackStep::Next(
                    p as int,
                    plan.items(),
                ),
            decreases num_updated - k,
        {
            match Self::apply_update(
                &self.item_sizes,
                &self.buf.from_index,
                &from_view,
                delta,
                p,
                &mut plan,
            ) {
                Some(Ok(q)) => {
                    p = q;
                },
                Some(Err(c)) => {
                    plan.error = Some(c);
                    proof {
                        lemma_run_stable(sizes, from@, delta@, k + 1, num_updated as int);
                    }
                    return Some(Ok(plan));
                },
                None => {
                    plan.crashed = true;
                    proof {
                        lemma_run_stable(sizes, from@, delta@, k + 1, num_updated as int);
                    }
                    return Some(Ok(plan));
                },
            }
            k += 1;
        }
        Some(Ok(plan))
    }

    /// Whether `k` is among the first `n` deleted keys of `delta`.
    fn deleted_key_in(delta: &[i32], n: usize, k: i32) -> (r: bool)
        requires
            0 <= n <= delta@[0],
            3 + delta@[0] <= delta@.len(),
        ensures
            r == key_in(delta_deleted(delta@), k, n as int),
    {
        let ghost deleted = delta_deleted(delta@);
        let len = delta.len();
        let mut j: usize = n;
        while j > 0
            invariant
                j <= n,
                len == delta@.len(),
                0 <= n <= delta@[0],
                3 + delta@[0] <= len,
                deleted == delta_deleted(delta@),
                key_in(deleted, k, n as int) == key_in(deleted, k, j as int),
            decreases j,
        {
            assert(deleted[j - 1] == delta@[2 + j]);
            if delta[2 + j] == k {
                return true;
            }
            j -= 1;
        }
        false
    }
}

pub(crate) proof fn lemma_last_item_index_bounds(items: Seq<ItemSpec>, key: i32, n: int)
    requires
        0 <= n <= items.len(),
    ensures
        -1 <= last_item_index(items, key, n) < n,
        last_item_index(items, key, n) >= 0 ==> items[last_item_index(items, key, n)].0 == key,
    decreases n,
{
    if n > 0 {
        lemma_last_item_index_bounds(items, key, n - 1);
    }
}

} // verus!
