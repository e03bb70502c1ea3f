//! Laws that relate creating and applying deltas.
use vstd::prelude::*;
use vstd::relations::injective_on;
use vstd::set_lib::{lemma_int_range, lemma_map_size, set_int_range};

use crate::delta::{
    lemma_body_prefix, lemma_deleted_len_bound, lemma_last_index_bounds, lemma_last_index_same,
    lemma_last_item_index_bounds, lemma_update_count_bound,
};
use crate::delta_spec::{
    all_deleted_keys, all_zero, apply_word, create_delta_defined, create_delta_result,
    create_delta_writes, create_item_defined, create_reaches, deleted_keys, full_records_len,
    header_len, update_fits, updates_fit, delta_is_empty, delta_stream, diff_word, diff_words,
    distinct_count, has_static_size, key_in, last_index_of, past_index, record_header,
    update_body, update_count, update_record, MAX_NETOBJSIZES,
};
use crate::snap::{
    key_id, key_type, snap_data_size, snap_header_ok, snap_item, snap_item_data, snap_item_end,
    snap_item_ok, snap_items, snap_key, snap_key_ok, snap_key_pos, snap_keys, snap_num_items,
    snap_valid,
};
use crate::unpack_spec::{
    base_items, deleted_table_ok, delta_deleted, delta_num_updated, first_bad_kept,
    last_item_index, record_key,
    unpack_defined, unpack_error, unpack_final, unpack_items, unpack_rejection, unpack_run,
    unpack_starts,
    unpack_step, ItemSpec, UnpackStep,
};

verus! {

proof fn lemma_key_split(key: i32)
    requires
        key >= 0,
    ensures
        key_type(key) <= 0x7fff,
        (key_type(key) as int) * 65536 + (key_id(key) as int) == key as int,
{
    let u = key as u32;
    assert(u == key);
    assert(u <= 0x7fff_ffffu32 ==> (u >> 16u32) <= 0x7fffu32) by (bit_vector);
    assert((u >> 16u32) * 65536u32 + (u & 0xffffu32) == u) by (bit_vector);
    assert((u >> 16u32) < 0x10000u32) by (bit_vector);
    assert((u & 0xffffu32) < 0x10000u32) by (bit_vector);
}

proof fn lemma_apply_diff(c: i32, p: i32)
    ensures
        apply_word(p, diff_word(c, p)) == c,
{
    let cu = c as u32;
    let pu = p as u32;
    let d = cu.wrapping_sub(pu);
    let di = d as i32;
    assert(d == cu.wrapping_sub(pu));
    assert((di as u32) == d) by (bit_vector)
        requires
            di == d as i32,
    ;
    let s = pu.wrapping_add(d);
    assert(s == cu);
    assert((cu as i32) == c) by (bit_vector)
        requires
            cu == c as u32,
    ;
}

proof fn lemma_zero_diff(c: i32, p: i32)
    requires
        diff_word(c, p) == 0,
    ensures
        c == p,
{
    let cu = c as u32;
    let pu = p as u32;
    let d = cu.wrapping_sub(pu);
    assert(d == 0u32) by (bit_vector)
        requires
            (d as i32) == 0i32,
    ;
    assert(cu == pu);
    assert(c == p) by (bit_vector)
        requires
            cu == c as u32,
            pu == p as u32,
            cu == pu,
    ;
}


proof fn lemma_key_in_push(s: Seq<i32>, x: i32, k: i32)
    ensures
        key_in(s.push(x), k, s.len() + 1int) == (x == k || key_in(s, k, s.len() as int)),
{
    lemma_last_index_same(s.push(x), s, k, s.len() as int);
}

proof fn lemma_key_in_witness(keys: Seq<i32>, k: i32, n: int, j: int)
    requires
        0 <= j < n,
        keys[j] == k,
    ensures
        key_in(keys, k, n),
        last_index_of(keys, k, n) >= j,
    decreases n,
{
    if n - 1 != j && keys[n - 1] != k {
        lemma_key_in_witness(keys, k, n - 1, j);
    }
}

proof fn lemma_key_in_exists(keys: Seq<i32>, k: i32, n: int)
    requires
        0 <= n,
        key_in(keys, k, n),
    ensures
        0 <= last_index_of(keys, k, n) < n,
        keys[last_index_of(keys, k, n)] == k,
{
    lemma_last_index_bounds(keys, k, n);
}

/// In a snapshot whose keys are distinct, the last index of an item's key
/// is that item's index.
proof fn lemma_last_index_unique(buf: Seq<i32>, j: int)
    requires
        snap_valid(buf),
        0 <= j < snap_num_items(buf),
    ensures
        last_index_of(snap_keys(buf), snap_key(buf, j), snap_num_items(buf)) == j,
{
    let keys = snap_keys(buf);
    let n = snap_num_items(buf);
    let k = snap_key(buf, j);
    lemma_key_in_witness(keys, k, n, j);
    lemma_key_in_exists(keys, k, n);
    let l = last_index_of(keys, k, n);
    if l != j {
        assert(snap_key(buf, l) != snap_key(buf, j));
    }
}

/// A key is deleted exactly when the base snapshot has it and the target
/// snapshot lacks it.
proof fn lemma_deleted_iff(from: Seq<i32>, to: Seq<i32>, n: int, k: i32)
    requires
        0 <= n <= snap_num_items(from),
    ensures
        key_in(deleted_keys(from, to, n), k, deleted_keys(from, to, n).len() as int) == (key_in(
            snap_keys(from),
            k,
            n,
        ) && !key_in(snap_keys(to), k, snap_num_items(to))),
    decreases n,
{
    if n > 0 {
        lemma_deleted_iff(from, to, n - 1, k);
        let prev = deleted_keys(from, to, n - 1);
        let x = snap_key(from, n - 1);
        assert(snap_keys(from)[n - 1] == x);
        if !key_in(snap_keys(to), x, snap_num_items(to)) {
            lemma_key_in_push(prev, x, k);
        }
    }
}

/// What the items copied from the base snapshot are: each comes from an
/// item of the base snapshot whose key is not deleted, each such item is
/// copied, and no two copies share a key.
proof fn lemma_base_items(from: Seq<i32>, deleted: Seq<i32>, n: int)
    requires
        snap_valid(from),
        0 <= n <= snap_num_items(from),
    ensures
        forall|k: int|
            0 <= k < base_items(from, deleted, n).len() ==> exists|j: int|
                0 <= j < n && #[trigger] base_items(from, deleted, n)[k] == (
                    snap_key(from, j),
                    snap_item_data(from, j),
                ) && !key_in(deleted, snap_key(from, j), deleted.len() as int),
        forall|j: int|
            0 <= j < n && !key_in(deleted, snap_key(from, j), deleted.len() as int) ==> exists|
                k: int,
            |
                0 <= k < base_items(from, deleted, n).len() && #[trigger] base_items(
                    from,
                    deleted,
                    n,
                )[k] == (snap_key(from, j), snap_item_data(from, j)),
        forall|k1: int, k2: int|
            0 <= k1 < base_items(from, deleted, n).len() && 0 <= k2 < base_items(
                from,
                deleted,
                n,
            ).len() && k1 != k2 ==> #[trigger] base_items(from, deleted, n)[k1].0
                != #[trigger] base_items(from, deleted, n)[k2].0,
    decreases n,
{
    if n > 0 {
        lemma_base_items(from, deleted, n - 1);
        let prev = base_items(from, deleted, n - 1);
        let cur = base_items(from, deleted, n);
        let x = snap_key(from, n - 1);
        if !key_in(deleted, x, deleted.len() as int) {
            assert(cur == prev.push((x, snap_item_data(from, n - 1))));
            assert forall|k: int| 0 <= k < cur.len() implies exists|j: int|
                0 <= j < n && #[trigger] cur[k] == (snap_key(from, j), snap_item_data(from, j))
                    && !key_in(deleted, snap_key(from, j), deleted.len() as int) by {
                if k < prev.len() {
                    assert(cur[k] == prev[k]);
                } else {
                    assert(cur[k] == (snap_key(from, n - 1), snap_item_data(from, n - 1)));
                }
            }
            assert forall|j: int|
                0 <= j < n && !key_in(deleted, snap_key(from, j), deleted.len() as int) implies exists|
                k: int,
            | 0 <= k < cur.len() && #[trigger] cur[k] == (snap_key(from, j), snap_item_data(from, j)) by {
                if j < n - 1 {
                    let k = choose|k: int|
                        0 <= k < prev.len() && #[trigger] prev[k] == (
                            snap_key(from, j),
                            snap_item_data(from, j),
                        );
                    assert(cur[k] == prev[k]);
                } else {
                    assert(cur[prev.len() as int] == (snap_key(from, j), snap_item_data(from, j)));
                }
            }
            assert forall|k1: int, k2: int|
                0 <= k1 < cur.len() && 0 <= k2 < cur.len() && k1 != k2 implies #[trigger] cur[k1].0
                != #[trigger] cur[k2].0 by {
                if k1 < prev.len() && k2 < prev.len() {
                    assert(cur[k1] == prev[k1] && cur[k2] == prev[k2]);
                } else if k1 < prev.len() {
                    assert(cur[k1] == prev[k1]);
                    let j = choose|j: int|
                        0 <= j < n - 1 && #[trigger] prev[k1] == (
                            snap_key(from, j),
                            snap_item_data(from, j),
                        ) && !key_in(deleted, snap_key(from, j), deleted.len() as int);
                    assert(snap_key(from, j) != snap_key(from, n - 1));
                } else if k2 < prev.len() {
                    assert(cur[k2] == prev[k2]);
                    let j = choose|j: int|
                        0 <= j < n - 1 && #[trigger] prev[k2] == (
                            snap_key(from, j),
                            snap_item_data(from, j),
                        ) && !key_in(deleted, snap_key(from, j), deleted.len() as int);
                    assert(snap_key(from, j) != snap_key(from, n - 1));
                }
            }
        } else {
            assert forall|j: int|
                0 <= j < n && !key_in(deleted, snap_key(from, j), deleted.len() as int) implies exists|
                k: int,
            | 0 <= k < cur.len() && #[trigger] cur[k] == (snap_key(from, j), snap_item_data(from, j)) by {
                if j < n - 1 {
                    let k = choose|k: int|
                        0 <= k < prev.len() && #[trigger] prev[k] == (
                            snap_key(from, j),
                            snap_item_data(from, j),
                        );
                }
            }
            assert forall|k: int| 0 <= k < cur.len() implies exists|j: int|
                0 <= j < n && #[trigger] cur[k] == (snap_key(from, j), snap_item_data(from, j))
                    && !key_in(deleted, snap_key(from, j), deleted.len() as int) by {
                let j = choose|j: int|
                    0 <= j < n - 1 && #[trigger] prev[k] == (
                        snap_key(from, j),
                        snap_item_data(from, j),
                    ) && !key_in(deleted, snap_key(from, j), deleted.len() as int);
            }
        }
    }
}


/// The conditions under which applying the delta from `from` to `to` to
/// `from` gives back `to`: both snapshots pass all checks, every key of `to`
/// is non-negative (its type fits an update record), every item of `to`
/// whose type has a registered static size has that size, and items of the
/// two snapshots with the same key have the same size.
pub open spec fn delta_compatible(sizes: Seq<u16>, from: Seq<i32>, to: Seq<i32>) -> bool {
    &&& sizes.len() == MAX_NETOBJSIZES
    &&& snap_valid(from)
    &&& snap_valid(to)
    &&& forall|i: int| 0 <= i < snap_num_items(to) ==> #[trigger] snap_key(to, i) >= 0
    &&& forall|i: int|
        0 <= i < snap_num_items(to) && has_static_size(sizes, key_type(snap_key(to, i)) as int)
            ==> #[trigger] snap_item_data(to, i).len() == sizes[key_type(snap_key(to, i)) as int]
            / 4
    &&& forall|i: int, j: int|
        0 <= i < snap_num_items(to) && 0 <= j < snap_num_items(from) && snap_key(to, i)
            == snap_key(from, j) ==> #[trigger] snap_item_data(to, i).len()
            == #[trigger] snap_item_data(from, j).len()
}

/// Item `item` stands for item `t` of `to` at stage `i` of applying the
/// delta: it has its key, and its payload if its record was applied, else
/// the payload of the base item with its key.
spec fn rt_item_ok(from: Seq<i32>, to: Seq<i32>, i: int, t: int, item: ItemSpec) -> bool {
    &&& item.0 == snap_key(to, t)
    &&& if t < i {
        item.1 == snap_item_data(to, t)
    } else {
        &&& key_in(snap_keys(from), item.0, snap_num_items(from))
        &&& item.1 == snap_item_data(
            from,
            last_index_of(snap_keys(from), item.0, snap_num_items(from)),
        )
    }
}

/// Item `k` of `items` stands for some item of `to` at stage `i`.
spec fn rt_covered(from: Seq<i32>, to: Seq<i32>, i: int, items: Seq<ItemSpec>, k: int) -> bool {
    exists|t: int| 0 <= t < snap_num_items(to) && #[trigger] rt_item_ok(from, to, i, t, items[k])
}

/// Some item of `items` has `key`.
spec fn has_key(items: Seq<ItemSpec>, key: i32) -> bool {
    exists|k: int| 0 <= k < items.len() && #[trigger] items[k].0 == key
}

/// The items at stage `i` of applying the delta: no two share a key, each
/// stands for an item of `to`, and every item of `to` whose record was
/// applied or whose key the base snapshot has is there.
spec fn rt_inv(from: Seq<i32>, to: Seq<i32>, i: int, items: Seq<ItemSpec>) -> bool {
    &&& forall|k1: int, k2: int|
        0 <= k1 < items.len() && 0 <= k2 < items.len() && k1 != k2 ==> #[trigger] items[k1].0
            != #[trigger] items[k2].0
    &&& forall|k: int| 0 <= k < items.len() ==> #[trigger] rt_covered(from, to, i, items, k)
    &&& forall|t: int|
        0 <= t < snap_num_items(to) && (t < i || key_in(
            snap_keys(from),
            snap_key(to, t),
            snap_num_items(from),
        )) ==> #[trigger] has_key(items, snap_key(to, t))
}

proof fn lemma_last_item_unique(items: Seq<ItemSpec>, k: int)
    requires
        0 <= k < items.len(),
        forall|k1: int, k2: int|
            0 <= k1 < items.len() && 0 <= k2 < items.len() && k1 != k2 ==> #[trigger] items[k1].0
                != #[trigger] items[k2].0,
    ensures
        last_item_index(items, items[k].0, items.len() as int) == k,
{
    lemma_last_item_found(items, items[k].0, items.len() as int, k);
    lemma_last_item_index_bounds(items, items[k].0, items.len() as int);
}

proof fn lemma_last_item_found(items: Seq<ItemSpec>, key: i32, n: int, k: int)
    requires
        0 <= k < n <= items.len(),
        items[k].0 == key,
    ensures
        last_item_index(items, key, n) >= k,
    decreases n,
{
    if n - 1 != k && items[n - 1].0 != key {
        lemma_last_item_found(items, key, n - 1, k);
    }
}

proof fn lemma_last_item_absent(items: Seq<ItemSpec>, key: i32, n: int)
    requires
        0 <= n <= items.len(),
        forall|k: int| 0 <= k < n ==> items[k].0 != key,
    ensures
        last_item_index(items, key, n) == -1,
    decreases n,
{
    if n > 0 {
        lemma_last_item_absent(items, key, n - 1);
    }
}

proof fn lemma_distinct_count_bound(s: Seq<i32>, n: int)
    requires
        0 <= n,
    ensures
        distinct_count(s, n) <= n,
    decreases n,
{
    if n > 0 {
        lemma_distinct_count_bound(s, n - 1);
    }
}

proof fn lemma_header_len_bound(buf: Seq<i32>)
    requires
        snap_header_ok(buf),
    ensures
        buf.len() < 0x4000_0000,
{
}

/// Where the words of the delta stream come from.
proof fn lemma_stream_layout(sizes: Seq<u16>, from: Seq<i32>, to: Seq<i32>)
    requires
        delta_compatible(sizes, from, to),
    ensures
        ({
            let d = delta_stream(sizes, from, to);
            let nd = all_deleted_keys(from, to).len() as int;
            let body = update_body(sizes, from, to, snap_num_items(to));
            &&& d.len() == 3 + nd + body.len()
            &&& 0 <= nd <= snap_num_items(from)
            &&& d[0] as int == nd
            &&& d[1] as int == update_count(sizes, from, to, snap_num_items(to))
            &&& d[2] == 0
            &&& delta_deleted(d) == all_deleted_keys(from, to)
            &&& forall|x: int| 0 <= x < body.len() ==> d[3 + nd + x] == #[trigger] body[x]
        }),
{
    let d = delta_stream(sizes, from, to);
    let nd = all_deleted_keys(from, to).len() as int;
    lemma_deleted_len_bound(from, to, snap_num_items(from));
    lemma_update_count_bound(sizes, from, to, snap_num_items(to));
    assert(delta_deleted(d) =~= all_deleted_keys(from, to));
}

/// The state of applying the delta stream after the records of the first
/// `i` items of `to`.
spec fn rt_pos(sizes: Seq<u16>, from: Seq<i32>, to: Seq<i32>, i: int) -> int {
    3 + all_deleted_keys(from, to).len() as int + update_body(sizes, from, to, i).len() as int
}

proof fn lemma_rt_base_item(sizes: Seq<u16>, from: Seq<i32>, to: Seq<i32>, k: int) -> (t: int)
    requires
        delta_compatible(sizes, from, to),
        0 <= k < base_items(from, all_deleted_keys(from, to), snap_num_items(from)).len(),
    ensures
        0 <= t < snap_num_items(to),
        rt_item_ok(
            from,
            to,
            0,
            t,
            base_items(from, all_deleted_keys(from, to), snap_num_items(from))[k],
        ),
{
    let del = all_deleted_keys(from, to);
    let nf = snap_num_items(from);
    let nt = snap_num_items(to);
    let items = base_items(from, del, nf);
    lemma_base_items(from, del, nf);
    let j = choose|j: int|
        0 <= j < nf && #[trigger] items[k] == (snap_key(from, j), snap_item_data(from, j))
            && !key_in(del, snap_key(from, j), del.len() as int);
    let key = snap_key(from, j);
    assert(snap_keys(from)[j] == key);
    lemma_key_in_witness(snap_keys(from), key, nf, j);
    lemma_deleted_iff(from, to, nf, key);
    lemma_key_in_exists(snap_keys(to), key, nt);
    let t = last_index_of(snap_keys(to), key, nt);
    lemma_last_index_unique(from, j);
    t
}

proof fn lemma_rt_base(sizes: Seq<u16>, from: Seq<i32>, to: Seq<i32>)
    requires
        delta_compatible(sizes, from, to),
    ensures
        unpack_run(sizes, from, delta_stream(sizes, from, to), 0) == UnpackStep::Next(
            rt_pos(sizes, from, to, 0),
            base_items(from, all_deleted_keys(from, to), snap_num_items(from)),
        ),
        rt_inv(from, to, 0, base_items(from, all_deleted_keys(from, to), snap_num_items(from))),
{
    let d = delta_stream(sizes, from, to);
    let del = all_deleted_keys(from, to);
    let nf = snap_num_items(from);
    let nt = snap_num_items(to);
    let items = base_items(from, del, nf);
    lemma_stream_layout(sizes, from, to);
    lemma_base_items(from, del, nf);
    lemma_no_bad_kept(from, delta_deleted(d), nf);
    assert forall|k: int| 0 <= k < items.len() implies #[trigger] rt_covered(
        from,
        to,
        0,
        items,
        k,
    ) by {
        let t = lemma_rt_base_item(sizes, from, to, k);
    }
    assert forall|t: int|
        0 <= t < nt && (t < 0 || key_in(snap_keys(from), snap_key(to, t), nf)) implies #[trigger] has_key(
        items,
        snap_key(to, t),
    ) by {
        let key = snap_key(to, t);
        lemma_key_in_exists(snap_keys(from), key, nf);
        let j = last_index_of(snap_keys(from), key, nf);
        assert(snap_keys(to)[t] == key);
        lemma_key_in_witness(snap_keys(to), key, nt, t);
        lemma_deleted_iff(from, to, nf, key);
        assert(snap_keys(from)[j] == snap_key(from, j));
        let k = choose|k: int|
            0 <= k < items.len() && #[trigger] items[k] == (
                snap_key(from, j),
                snap_item_data(from, j),
            );
        assert(items[k].0 == key);
    }
}


/// Items that stand for an item of `to` other than item `i` at stage `i`
/// still do so at stage `i + 1`.
proof fn lemma_rt_other(from: Seq<i32>, to: Seq<i32>, i: int, items: Seq<ItemSpec>, k: int)
    requires
        snap_valid(to),
        0 <= i < snap_num_items(to),
        0 <= k < items.len(),
        rt_covered(from, to, i, items, k),
        items[k].0 != snap_key(to, i),
    ensures
        exists|t: int|
            0 <= t < snap_num_items(to) && t != i && #[trigger] rt_item_ok(
                from,
                to,
                i + 1,
                t,
                items[k],
            ),
{
    let t = choose|t: int|
        0 <= t < snap_num_items(to) && #[trigger] rt_item_ok(from, to, i, t, items[k]);
    assert(t != i);
    assert(rt_item_ok(from, to, i + 1, t, items[k]));
}

/// The item of `items` that stands for item `i` of `to`, when the base
/// snapshot has its key: the only item with that key, carrying the base
/// item's payload.
proof fn lemma_rt_matched(from: Seq<i32>, to: Seq<i32>, i: int, items: Seq<ItemSpec>) -> (k0: int)
    requires
        snap_valid(from),
        snap_valid(to),
        0 <= i < snap_num_items(to),
        rt_inv(from, to, i, items),
        key_in(snap_keys(from), snap_key(to, i), snap_num_items(from)),
    ensures
        0 <= k0 < items.len(),
        items[k0].0 == snap_key(to, i),
        items[k0].1 == snap_item_data(
            from,
            last_index_of(snap_keys(from), snap_key(to, i), snap_num_items(from)),
        ),
        last_item_index(items, snap_key(to, i), items.len() as int) == k0,
{
    let key = snap_key(to, i);
    assert(has_key(items, key));
    let k0 = choose|k: int| 0 <= k < items.len() && #[trigger] items[k].0 == key;
    assert(rt_covered(from, to, i, items, k0));
    let t0 = choose|t: int|
        0 <= t < snap_num_items(to) && #[trigger] rt_item_ok(from, to, i, t, items[k0]);
    if t0 != i {
        assert(snap_key(to, t0) != snap_key(to, i));
    }
    lemma_last_item_unique(items, k0);
    k0
}

/// The step from stage `i` to stage `i + 1` of applying the delta stream:
/// the record of item `i` of `to` (if it has one) brings the items from
/// standing for stage `i` to standing for stage `i + 1`.
proof fn lemma_rt_step(
    sizes: Seq<u16>,
    from: Seq<i32>,
    to: Seq<i32>,
    i: int,
    items: Seq<ItemSpec>,
) -> (items2: Seq<ItemSpec>)
    requires
        delta_compatible(sizes, from, to),
        0 <= i < snap_num_items(to),
        rt_inv(from, to, i, items),
        unpack_run(sizes, from, delta_stream(sizes, from, to), update_count(sizes, from, to, i))
            == UnpackStep::Next(rt_pos(sizes, from, to, i), items),
    ensures
        rt_inv(from, to, i + 1, items2),
        unpack_run(sizes, from, delta_stream(sizes, from, to), update_count(sizes, from, to, i + 1))
            == UnpackStep::Next(rt_pos(sizes, from, to, i + 1), items2),
{
    let d = delta_stream(sizes, from, to);
    let nf = snap_num_items(from);
    let nt = snap_num_items(to);
    let key = snap_key(to, i);
    let cur = snap_item_data(to, i);
    let rec = update_record(sizes, from, to, i);
    let fkeys = snap_keys(from);
    let fj = last_index_of(fkeys, key, nf);
    let body_i = update_body(sizes, from, to, i);
    let p = rt_pos(sizes, from, to, i);
    let nd = all_deleted_keys(from, to).len() as int;
    lemma_stream_layout(sizes, from, to);
    lemma_update_count_bound(sizes, from, to, i);
    lemma_body_prefix(sizes, from, to, i + 1, nt);
    assert(update_body(sizes, from, to, i + 1) == body_i + rec);
    let body_n = update_body(sizes, from, to, nt);
    assert forall|x: int| 0 <= x < rec.len() implies d[p + x] == rec[x] by {
        assert(d[p + x] == body_n[body_i.len() + x]);
        assert(body_n[body_i.len() + x] == body_n.subrange(
            0,
            update_body(sizes, from, to, i + 1).len() as int,
        )[body_i.len() + x]);
        assert((body_i + rec)[body_i.len() + x] == rec[x]);
    }
    assert(p + rec.len() <= d.len());
    assert(key >= 0);
    lemma_key_split(key);
    lemma_header_len_bound(to);
    assert(snap_item_ok(to, i));
    lemma_last_index_bounds(fkeys, key, nf);
    assert(fj == past_index(from, to, i));
    let t = key_type(key) as int;
    let id = key_id(key) as int;
    let st = has_static_size(sizes, t);
    let words = cur.len() as int;
    let hdr = record_header(sizes, key, words);
    assert(words < 0x4000_0000);
    if st {
        assert(words == sizes[t] as int / 4);
    }
    assert(record_key(t, id) == key);
    if key_in(fkeys, key, nf) {
        let k0 = lemma_rt_matched(from, to, i, items);
        let past = snap_item_data(from, fj);
        assert(fkeys[fj] == snap_key(from, fj));
        assert(snap_item_ok(from, fj));
        assert(cur.len() == past.len());
        let dd = diff_words(cur, past);
        if all_zero(dd) {
            assert(rec =~= Seq::<i32>::empty());
            assert(update_body(sizes, from, to, i + 1) =~= body_i);
            assert(update_count(sizes, from, to, i + 1) == update_count(sizes, from, to, i));
            assert(rt_pos(sizes, from, to, i + 1) == p);
            assert(cur =~= past) by {
                assert forall|w: int| 0 <= w < cur.len() implies cur[w] == past[w] by {
                    assert(dd[w] == 0);
                    lemma_zero_diff(cur[w], past[w]);
                }
            }
            assert forall|k: int| 0 <= k < items.len() implies #[trigger] rt_covered(
                from,
                to,
                i + 1,
                items,
                k,
            ) by {
                if k == k0 {
                    assert(rt_item_ok(from, to, i + 1, i, items[k]));
                } else {
                    lemma_rt_other(from, to, i, items, k);
                }
            }
            assert forall|t2: int|
                0 <= t2 < nt && (t2 < i + 1 || key_in(fkeys, snap_key(to, t2), nf)) implies #[trigger] has_key(
                items,
                snap_key(to, t2),
            ) by {
                if t2 == i {
                    assert(items[k0].0 == snap_key(to, t2));
                }
            }
            items
        } else {
            assert(rec == hdr + dd);
            let items2 = items.update(k0, (key, cur));
            let p2 = p + hdr.len();
            assert(d[p] == rec[0] && rec[0] == hdr[0] && hdr[0] == key_type(key) as i32);
            assert(d[p + 1] == rec[1] && rec[1] == hdr[1] && hdr[1] == key_id(key) as i32);
            assert(d[p] as int == t);
            assert(d[p + 1] as int == id);
            if !st {
                assert(d[p + 2] == rec[2] && rec[2] == hdr[2] && hdr[2] == words as i32);
                assert(d[p + 2] as int == words);
            }
            let dst = items[k0].1;
            assert forall|w: int| 0 <= w < words implies apply_word(past[w], d[p2 + w]) == cur[w] by {
                assert(d[p2 + w] == rec[hdr.len() + w]);
                assert(rec[hdr.len() + w] == dd[w]);
                lemma_apply_diff(cur[w], past[w]);
            }
            let data = Seq::new(
                dst.len(),
                |w: int|
                    if w < words {
                        if fj >= 0 {
                            apply_word(snap_item_data(from, fj)[w], d[p2 + w])
                        } else {
                            d[p2 + w]
                        }
                    } else {
                        dst[w]
                    },
            );
            assert(data =~= cur);
            assert(unpack_step(sizes, from, d, p, items) == UnpackStep::Next(
                p2 + words,
                items2,
            ));
            assert(rec.len() == hdr.len() + words);
            assert(rt_pos(sizes, from, to, i + 1) == p + rec.len());
            assert(update_count(sizes, from, to, i + 1) == update_count(sizes, from, to, i) + 1);
            assert forall|k1: int, k2: int|
                0 <= k1 < items2.len() && 0 <= k2 < items2.len() && k1 != k2 implies #[trigger] items2[k1].0
                != #[trigger] items2[k2].0 by {
                assert(items2[k1].0 == items[k1].0 && items2[k2].0 == items[k2].0);
            }
            assert forall|k: int| 0 <= k < items2.len() implies #[trigger] rt_covered(
                from,
                to,
                i + 1,
                items2,
                k,
            ) by {
                if k == k0 {
                    assert(rt_item_ok(from, to, i + 1, i, items2[k]));
                } else {
                    assert(items2[k] == items[k]);
                    lemma_rt_other(from, to, i, items, k);
                }
            }
            assert forall|t2: int|
                0 <= t2 < nt && (t2 < i + 1 || key_in(fkeys, snap_key(to, t2), nf)) implies #[trigger] has_key(
                items2,
                snap_key(to, t2),
            ) by {
                if t2 == i {
                    assert(items2[k0].0 == snap_key(to, t2));
                } else {
                    assert(has_key(items, snap_key(to, t2)));
                    let k = choose|k: int| 0 <= k < items.len() && #[trigger] items[k].0 == snap_key(to, t2);
                    assert(items2[k].0 == items[k].0);
                }
            }
            items2
        }
    } else {
        assert(fj == -1);
        assert(past_index(from, to, i) < 0);
        assert(rec == hdr + cur);
        assert forall|k: int| 0 <= k < items.len() implies items[k].0 != key by {
            assert(rt_covered(from, to, i, items, k));
            let t0 = choose|t: int|
                0 <= t < nt && #[trigger] rt_item_ok(from, to, i, t, items[k]);
            if items[k].0 == key {
                if t0 != i {
                    assert(snap_key(to, t0) != snap_key(to, i));
                }
            }
        }
        lemma_last_item_absent(items, key, items.len() as int);
        let items2 = items.push((key, cur));
        let p2 = p + hdr.len();
        assert(d[p] == rec[0] && rec[0] == hdr[0] && hdr[0] == key_type(key) as i32);
        assert(d[p + 1] == rec[1] && rec[1] == hdr[1] && hdr[1] == key_id(key) as i32);
        assert(d[p] as int == t);
        assert(d[p + 1] as int == id);
        if !st {
            assert(d[p + 2] == rec[2] && rec[2] == hdr[2] && hdr[2] == words as i32);
            assert(d[p + 2] as int == words);
        }
        let dst = Seq::new(words as nat, |w: int| 0i32);
        assert forall|w: int| 0 <= w < words implies d[p2 + w] == cur[w] by {
            assert(d[p2 + w] == rec[hdr.len() + w]);
        }
        let data = Seq::new(
            dst.len(),
            |w: int|
                if w < words {
                    if fj >= 0 {
                        apply_word(snap_item_data(from, fj)[w], d[p2 + w])
                    } else {
                        d[p2 + w]
                    }
                } else {
                    dst[w]
                },
        );
        assert(data =~= cur);
        assert(unpack_step(sizes, from, d, p, items) == UnpackStep::Next(p2 + words, items2));
        assert(rec.len() == hdr.len() + words);
        assert(rt_pos(sizes, from, to, i + 1) == p + rec.len());
        assert(update_count(sizes, from, to, i + 1) == update_count(sizes, from, to, i) + 1);
        assert forall|k1: int, k2: int|
            0 <= k1 < items2.len() && 0 <= k2 < items2.len() && k1 != k2 implies #[trigger] items2[k1].0
            != #[trigger] items2[k2].0 by {
            if k1 < items.len() && k2 < items.len() {
                assert(items2[k1] == items[k1] && items2[k2] == items[k2]);
            } else if k1 < items.len() {
                assert(items2[k1] == items[k1]);
            } else if k2 < items.len() {
                assert(items2[k2] == items[k2]);
            }
        }
        assert forall|k: int| 0 <= k < items2.len() implies #[trigger] rt_covered(
            from,
            to,
            i + 1,
            items2,
            k,
        ) by {
            if k == items.len() {
                assert(rt_item_ok(from, to, i + 1, i, items2[k]));
            } else {
                assert(items2[k] == items[k]);
                lemma_rt_other(from, to, i, items, k);
            }
        }
        assert forall|t2: int|
            0 <= t2 < nt && (t2 < i + 1 || key_in(fkeys, snap_key(to, t2), nf)) implies #[trigger] has_key(
            items2,
            snap_key(to, t2),
        ) by {
            if t2 == i {
                assert(items2[items.len() as int].0 == snap_key(to, t2));
            } else {
                assert(has_key(items, snap_key(to, t2)));
                let k = choose|k: int| 0 <= k < items.len() && #[trigger] items[k].0 == snap_key(to, t2);
                assert(items2[k].0 == items[k].0);
            }
        }
        items2
    }
}


/// The state of applying the delta stream after the records of the first
/// `i` items of `to`, by induction on `i`.
proof fn lemma_rt_upto(
    sizes: Seq<u16>,
    from: Seq<i32>,
    to: Seq<i32>,
    i: int,
) -> (items: Seq<ItemSpec>)
    requires
        delta_compatible(sizes, from, to),
        0 <= i <= snap_num_items(to),
    ensures
        rt_inv(from, to, i, items),
        unpack_run(sizes, from, delta_stream(sizes, from, to), update_count(sizes, from, to, i))
            == UnpackStep::Next(rt_pos(sizes, from, to, i), items),
    decreases i,
{
    if i == 0 {
        lemma_rt_base(sizes, from, to);
        base_items(from, all_deleted_keys(from, to), snap_num_items(from))
    } else {
        let prev = lemma_rt_upto(sizes, from, to, i - 1);
        lemma_rt_step(sizes, from, to, i - 1, prev)
    }
}

/// Applying the delta from `from` to `to` to `from` gives back the items of
/// `to`: the delta is accepted and read within bounds, no update record is
/// malformed, and the items handed on to be built are exactly the items of
/// `to` (each with its key and payload), as many as `to` has, with no key
/// twice.
#[verifier::rlimit(50)]
pub proof fn lemma_delta_roundtrip(sizes: Seq<u16>, from: Seq<i32>, to: Seq<i32>)
    requires
        delta_compatible(sizes, from, to),
    ensures
        ({
            let d = delta_stream(sizes, from, to);
            let items = unpack_items(sizes, from, d);
            &&& unpack_defined(sizes, from, d)
            &&& unpack_rejection(d) is None
            &&& unpack_error(sizes, from, d) is None
            &&& items.len() == snap_num_items(to)
            &&& forall|k: int| 0 <= k < items.len() ==> snap_items(to).contains(#[trigger] items[k])
            &&& forall|t: int| 0 <= t < snap_num_items(to) ==> items.contains(#[trigger] snap_item(to, t))
            &&& keys_distinct(items)
        }),
{
    let d = delta_stream(sizes, from, to);
    let nf = snap_num_items(from);
    let nt = snap_num_items(to);
    let del = all_deleted_keys(from, to);
    lemma_stream_layout(sizes, from, to);
    lemma_update_count_bound(sizes, from, to, nt);
    assert(unpack_rejection(d) is None);
    let items = lemma_rt_upto(sizes, from, to, nt);
    assert(delta_num_updated(d) == update_count(sizes, from, to, nt));
    assert(unpack_final(sizes, from, d) == UnpackStep::Next(rt_pos(sizes, from, to, nt), items));
    assert(unpack_items(sizes, from, d) == items);
    lemma_distinct_count_bound(del, del.len() as int);
    assert(deleted_table_ok(from, delta_deleted(d)));
    assert(unpack_defined(sizes, from, d));
    lemma_rt_done(from, to, items);
}

/// Once every record is applied, the items are exactly those of `to`.
proof fn lemma_rt_done(from: Seq<i32>, to: Seq<i32>, items: Seq<ItemSpec>)
    requires
        snap_valid(to),
        rt_inv(from, to, snap_num_items(to), items),
    ensures
        items.len() == snap_num_items(to),
        forall|k: int| 0 <= k < items.len() ==> snap_items(to).contains(#[trigger] items[k]),
        forall|t: int| 0 <= t < snap_num_items(to) ==> items.contains(#[trigger] snap_item(to, t)),
        forall|k1: int, k2: int|
            0 <= k1 < items.len() && 0 <= k2 < items.len() && k1 != k2 ==> #[trigger] items[k1].0
                != #[trigger] items[k2].0,
{
    let nt = snap_num_items(to);
    let all = snap_items(to);
    assert forall|k: int| 0 <= k < items.len() implies all.contains(#[trigger] items[k]) by {
        assert(rt_covered(from, to, nt, items, k));
        let t = choose|t: int| 0 <= t < nt && #[trigger] rt_item_ok(from, to, nt, t, items[k]);
        assert(items[k].0 == snap_key(to, t));
        assert(items[k].1 == snap_item_data(to, t));
        assert(all[t] == items[k]);
    }
    assert forall|t: int| 0 <= t < nt implies items.contains(#[trigger] snap_item(to, t)) by {
        assert(has_key(items, snap_key(to, t)));
        let k = choose|k: int| 0 <= k < items.len() && #[trigger] items[k].0 == snap_key(to, t);
        assert(rt_covered(from, to, nt, items, k));
        let t2 = choose|t2: int| 0 <= t2 < nt && #[trigger] rt_item_ok(from, to, nt, t2, items[k]);
        if t2 != t {
            assert(snap_key(to, t2) != snap_key(to, t));
        }
        assert(items[k].1 == snap_item_data(to, t));
        assert(items[k] == snap_item(to, t));
    }
    lemma_items_count(to, items);
}

/// The index of the item of `to` that item `k` of `items` equals.
spec fn item_source(to: Seq<i32>, items: Seq<ItemSpec>, k: int) -> int {
    choose|t: int| 0 <= t < snap_num_items(to) && #[trigger] snap_item(to, t) == items[k]
}

/// A sequence of items with distinct keys that holds exactly the items of a
/// valid snapshot has as many items as the snapshot.
proof fn lemma_items_count(to: Seq<i32>, items: Seq<ItemSpec>)
    requires
        snap_valid(to),
        forall|k: int| 0 <= k < items.len() ==> snap_items(to).contains(#[trigger] items[k]),
        forall|t: int| 0 <= t < snap_num_items(to) ==> items.contains(#[trigger] snap_item(to, t)),
        forall|k1: int, k2: int|
            0 <= k1 < items.len() && 0 <= k2 < items.len() && k1 != k2 ==> #[trigger] items[k1].0
                != #[trigger] items[k2].0,
    ensures
        items.len() == snap_num_items(to),
{
    let nt = snap_num_items(to);
    let all = snap_items(to);
    let xs = set_int_range(0, items.len() as int);
    let ys = set_int_range(0, nt);
    let f = |k: int| item_source(to, items, k);
    lemma_int_range(0, items.len() as int);
    lemma_int_range(0, nt);
    assert forall|k: int| xs.contains(k) implies 0 <= #[trigger] f(k) < nt && snap_item(to, f(k))
        == items[k] by {
        assert(all.contains(items[k]));
        let t = choose|t: int| 0 <= t < all.len() && all[t] == items[k];
        assert(snap_item(to, t) == items[k]);
    }
    assert forall|a: int, b: int| xs.contains(a) && xs.contains(b) && #[trigger] f(a) == #[trigger] f(
        b,
    ) implies a == b by {
        assert(snap_item(to, f(a)) == items[a]);
        assert(snap_item(to, f(b)) == items[b]);
        if a != b {
            assert(items[a].0 != items[b].0);
        }
    }
    assert(injective_on(f, xs));
    assert forall|t: int| ys.contains(t) implies xs.map(f).contains(t) by {
        assert(items.contains(snap_item(to, t)));
        let k = choose|k: int| 0 <= k < items.len() && items[k] == snap_item(to, t);
        assert(xs.contains(k));
        let t2 = f(k);
        assert(snap_item(to, t2) == items[k]);
        if t2 != t {
            assert(snap_key(to, t2) != snap_key(to, t));
        }
    }
    assert(xs.map(f) =~= ys);
    lemma_map_size(xs, ys, f);
}


/// The delta between a valid snapshot and itself is empty, and its stream is
/// the empty delta `[0, 0, 0]`: nothing is deleted and no item changes.
pub proof fn lemma_self_delta_empty(sizes: Seq<u16>, s: Seq<i32>)
    requires
        sizes.len() == MAX_NETOBJSIZES,
        snap_valid(s),
    ensures
        delta_is_empty(sizes, s, s),
        delta_stream(sizes, s, s) == seq![0i32, 0i32, 0i32],
{
    let n = snap_num_items(s);
    lemma_self_nothing_deleted(s, n);
    lemma_self_no_updates(sizes, s, n);
    assert(delta_stream(sizes, s, s) =~= seq![0i32, 0i32, 0i32]);
}

proof fn lemma_self_nothing_deleted(s: Seq<i32>, n: int)
    requires
        snap_valid(s),
        0 <= n <= snap_num_items(s),
    ensures
        deleted_keys(s, s, n).len() == 0,
    decreases n,
{
    if n > 0 {
        lemma_self_nothing_deleted(s, n - 1);
        assert(snap_keys(s)[n - 1] == snap_key(s, n - 1));
        lemma_key_in_witness(snap_keys(s), snap_key(s, n - 1), snap_num_items(s), n - 1);
    }
}

proof fn lemma_self_no_updates(sizes: Seq<u16>, s: Seq<i32>, n: int)
    requires
        snap_valid(s),
        0 <= n <= snap_num_items(s),
    ensures
        update_count(sizes, s, s, n) == 0,
        update_body(sizes, s, s, n).len() == 0,
    decreases n,
{
    if n > 0 {
        lemma_self_no_updates(sizes, s, n - 1);
        lemma_last_index_unique(s, n - 1);
        assert(past_index(s, s, n - 1) == n - 1);
        let cur = snap_item_data(s, n - 1);
        let dd = diff_words(cur, cur);
        assert forall|w: int| 0 <= w < dd.len() implies dd[w] == 0 by {
            lemma_diff_self(cur[w]);
        }
        assert(update_record(sizes, s, s, n - 1).len() == 0);
    }
}

proof fn lemma_diff_self(c: i32)
    ensures
        diff_word(c, c) == 0,
{
    let cu = c as u32;
    assert(cu.wrapping_sub(cu) == 0u32) by (bit_vector);
}

/// Applying the empty delta `[0, 0, 0]` to a valid snapshot gives back its
/// items, in order, with no error.
pub proof fn lemma_empty_delta_identity(sizes: Seq<u16>, from: Seq<i32>)
    requires
        sizes.len() == MAX_NETOBJSIZES,
        snap_valid(from),
    ensures
        ({
            let d = seq![0i32, 0i32, 0i32];
            &&& unpack_defined(sizes, from, d)
            &&& unpack_rejection(d) is None
            &&& unpack_error(sizes, from, d) is None
            &&& unpack_items(sizes, from, d) == snap_items(from)
        }),
{
    let d = seq![0i32, 0i32, 0i32];
    let n = snap_num_items(from);
    assert(delta_deleted(d) =~= Seq::<i32>::empty());
    lemma_base_all(from, delta_deleted(d), n);
    assert(base_items(from, delta_deleted(d), n) =~= snap_items(from));
    lemma_no_bad_kept(from, delta_deleted(d), n);
    assert(unpack_final(sizes, from, d) == UnpackStep::Next(3, snap_items(from)));
    assert(deleted_table_ok(from, delta_deleted(d)));
}

/// With no deleted keys, the base copy takes every item in order.
proof fn lemma_base_all(from: Seq<i32>, deleted: Seq<i32>, n: int)
    requires
        deleted.len() == 0,
        0 <= n,
    ensures
        base_items(from, deleted, n) == Seq::new(n as nat, |i: int| snap_item(from, i)),
    decreases n,
{
    if n > 0 {
        lemma_base_all(from, deleted, n - 1);
        assert(base_items(from, deleted, n) =~= Seq::new(n as nat, |i: int| snap_item(from, i)));
    }
}


/// Adding the word-wise difference of `current` against `past` (what
/// diffing an item writes) back onto `past` (what applying an update record
/// does) gives `current` again.
pub proof fn lemma_diff_item_undone(past: Seq<i32>, current: Seq<i32>)
    requires
        past.len() == current.len(),
    ensures
        Seq::new(past.len(), |w: int| apply_word(past[w], diff_words(current, past)[w])) == current,
{
    assert forall|w: int| 0 <= w < past.len() implies apply_word(
        past[w],
        diff_words(current, past)[w],
    ) == current[w] by {
        lemma_apply_diff(current[w], past[w]);
    }
    assert(Seq::new(past.len(), |w: int| apply_word(past[w], diff_words(current, past)[w]))
        =~= current);
}


/// Creating the delta between two compatible snapshots can always be carried
/// out, whatever the length of the buffer.
pub proof fn lemma_compatible_create_defined(
    sizes: Seq<u16>,
    from: Seq<i32>,
    to: Seq<i32>,
    len: int,
)
    requires
        delta_compatible(sizes, from, to),
    ensures
        create_delta_defined(sizes, from, to, len),
{
    let room = len - 3 - all_deleted_keys(from, to).len();
    assert forall|i: int| create_reaches(sizes, from, to, room, i) implies #[trigger] create_item_defined(
        sizes,
        from,
        to,
        room,
        i,
    ) by {
        let j = past_index(from, to, i);
        lemma_last_index_bounds(snap_keys(from), snap_key(to, i), snap_num_items(from));
        if j >= 0 {
            assert(snap_keys(from)[j] == snap_key(from, j));
            assert(snap_item_ok(from, j));
            assert(snap_item_data(to, i).len() == snap_item_data(from, j).len());
        }
    }
}


/// The update records of the first `n` items take no more room than full
/// records of them.
proof fn lemma_body_within_full(sizes: Seq<u16>, from: Seq<i32>, to: Seq<i32>, n: int)
    requires
        0 <= n,
    ensures
        update_body(sizes, from, to, n).len() <= full_records_len(sizes, to, n),
    decreases n,
{
    if n > 0 {
        lemma_body_within_full(sizes, from, to, n - 1);
        let cur = snap_item_data(to, n - 1);
        let key = snap_key(to, n - 1);
        let j = past_index(from, to, n - 1);
        assert(record_header(sizes, key, cur.len() as int).len() == header_len(sizes, key));
        if j >= 0 {
            assert(diff_words(cur, snap_item_data(from, j)).len() == cur.len());
        }
    }
}

proof fn lemma_full_records_mono(sizes: Seq<u16>, to: Seq<i32>, i: int, n: int)
    requires
        0 <= i <= n,
    ensures
        full_records_len(sizes, to, i) <= full_records_len(sizes, to, n),
    decreases n - i,
{
    if i < n {
        lemma_full_records_mono(sizes, to, i, n - 1);
    }
}

/// A buffer with room for the header, the deleted keys and a full update
/// record for every item of `to` always takes the delta: creating it returns
/// `0` for an empty delta and otherwise writes the whole delta and returns
/// its size in bytes.
pub proof fn lemma_room_suffices(sizes: Seq<u16>, from: Seq<i32>, to: Seq<i32>, len: int)
    requires
        snap_header_ok(to),
        len >= 3 + all_deleted_keys(from, to).len() + full_records_len(
            sizes,
            to,
            snap_num_items(to),
        ),
    ensures
        create_delta_result(sizes, from, to, len) == if delta_is_empty(sizes, from, to) {
            0i32
        } else {
            (4 * delta_stream(sizes, from, to).len()) as i32
        },
        !delta_is_empty(sizes, from, to) ==> create_delta_writes(sizes, from, to, len),
{
    let nf = snap_num_items(from);
    let nt = snap_num_items(to);
    let nd = all_deleted_keys(from, to).len() as int;
    let room = len - 3 - nd;
    lemma_full_records_mono(sizes, to, 0, nt);
    assert forall|i: int| 0 <= i < nt implies #[trigger] update_fits(sizes, from, to, room, i) by {
        lemma_body_within_full(sizes, from, to, i);
        lemma_full_records_mono(sizes, to, i + 1, nt);
    }
    assert(updates_fit(sizes, from, to, room, nt));
}


/// No two items of `items` share a key.
pub open spec fn keys_distinct(items: Seq<ItemSpec>) -> bool {
    forall|k1: int, k2: int|
        0 <= k1 < items.len() && 0 <= k2 < items.len() && k1 != k2 ==> #[trigger] items[k1].0
            != #[trigger] items[k2].0
}

proof fn lemma_step_distinct(
    sizes: Seq<u16>,
    from: Seq<i32>,
    delta: Seq<i32>,
    p: int,
    items: Seq<ItemSpec>,
)
    requires
        keys_distinct(items),
    ensures
        match unpack_step(sizes, from, delta, p, items) {
            UnpackStep::Next(_, items2) => keys_distinct(items2),
            UnpackStep::Stop(items2, _) => items2 == items,
            UnpackStep::Crash(items2) => keys_distinct(items2),
        },
{
    let t = delta[p] as int;
    let id = delta[p + 1] as int;
    let key = record_key(t, id);
    let n = items.len() as int;
    let bi = last_item_index(items, key, n);
    lemma_last_item_index_bounds(items, key, n);
    if bi < 0 {
        assert forall|k: int| 0 <= k < n implies items[k].0 != key by {
            if items[k].0 == key {
                lemma_last_item_found(items, key, n, k);
            }
        }
    }
    let items2 = match unpack_step(sizes, from, delta, p, items) {
        UnpackStep::Next(_, it) => it,
        UnpackStep::Stop(it, _) => it,
        UnpackStep::Crash(it) => it,
    };
    if items2.len() > n {
        assert forall|k1: int, k2: int|
            0 <= k1 < items2.len() && 0 <= k2 < items2.len() && k1 != k2 implies #[trigger] items2[k1].0
            != #[trigger] items2[k2].0 by {
            if k1 < n && k2 < n {
                assert(items2[k1] == items[k1] && items2[k2] == items[k2]);
            } else if k1 < n {
                assert(items2[k1] == items[k1]);
            } else if k2 < n {
                assert(items2[k2] == items[k2]);
            }
        }
    } else if items2 != items {
        assert forall|k1: int, k2: int|
            0 <= k1 < items2.len() && 0 <= k2 < items2.len() && k1 != k2 implies #[trigger] items2[k1].0
            != #[trigger] items2[k2].0 by {
            assert(items2[k1].0 == items[k1].0 && items2[k2].0 == items[k2].0);
        }
    }
}

/// In a valid snapshot every kept item can be read.
proof fn lemma_no_bad_kept(from: Seq<i32>, deleted: Seq<i32>, n: int)
    requires
        snap_valid(from),
        0 <= n <= snap_num_items(from),
    ensures
        first_bad_kept(from, deleted, n) == n,
    decreases n,
{
    if n > 0 {
        lemma_no_bad_kept(from, deleted, n - 1);
        assert(snap_item_ok(from, n - 1));
    }
}

proof fn lemma_run_distinct(sizes: Seq<u16>, from: Seq<i32>, delta: Seq<i32>, k: int)
    requires
        snap_valid(from),
    ensures
        match unpack_run(sizes, from, delta, k) {
            UnpackStep::Next(_, items) => keys_distinct(items),
            UnpackStep::Stop(items, _) => keys_distinct(items),
            UnpackStep::Crash(items) => keys_distinct(items),
        },
    decreases k,
{
    if k <= 0 {
        lemma_base_items(from, delta_deleted(delta), snap_num_items(from));
        lemma_no_bad_kept(from, delta_deleted(delta), snap_num_items(from));
    } else {
        lemma_run_distinct(sizes, from, delta, k - 1);
        if let UnpackStep::Next(p, items) = unpack_run(sizes, from, delta, k - 1) {
            lemma_step_distinct(sizes, from, delta, p, items);
        }
    }
}

/// Applying any delta to a valid snapshot yields no two items with the same
/// key: an update record either changes the item that has its key or adds
/// an item with a key that no item has.
pub proof fn lemma_unpack_keys_distinct(sizes: Seq<u16>, from: Seq<i32>, delta: Seq<i32>)
    requires
        snap_valid(from),
    ensures
        keys_distinct(unpack_items(sizes, from, delta)),
{
    lemma_run_distinct(sizes, from, delta, delta_num_updated(delta));
}


proof fn lemma_count_zero_iff(sizes: Seq<u16>, from: Seq<i32>, to: Seq<i32>, n: int)
    requires
        0 <= n,
    ensures
        (update_count(sizes, from, to, n) == 0) == (forall|i: int|
            0 <= i < n ==> #[trigger] update_record(sizes, from, to, i).len() == 0),
    decreases n,
{
    if n > 0 {
        lemma_count_zero_iff(sizes, from, to, n - 1);
        lemma_update_count_bound(sizes, from, to, n - 1);
        if update_count(sizes, from, to, n) == 0 {
            assert forall|i: int| 0 <= i < n implies #[trigger] update_record(
                sizes,
                from,
                to,
                i,
            ).len() == 0 by {
                if i < n - 1 {
                    assert(update_count(sizes, from, to, n - 1) == 0);
                }
            }
        }
    }
}

/// Under compatibility, the update record of item `i` of `to` is empty
/// exactly when `from` has an item with its key and the same payload.
proof fn lemma_record_empty_iff(sizes: Seq<u16>, from: Seq<i32>, to: Seq<i32>, i: int)
    requires
        delta_compatible(sizes, from, to),
        0 <= i < snap_num_items(to),
    ensures
        (update_record(sizes, from, to, i).len() == 0) == (past_index(from, to, i) >= 0
            && snap_item_data(to, i) == snap_item_data(from, past_index(from, to, i))),
{
    let key = snap_key(to, i);
    let cur = snap_item_data(to, i);
    let j = past_index(from, to, i);
    lemma_last_index_bounds(snap_keys(from), key, snap_num_items(from));
    assert(record_header(sizes, key, cur.len() as int).len() >= 2);
    if j >= 0 {
        let past = snap_item_data(from, j);
        assert(snap_keys(from)[j] == snap_key(from, j));
        assert(cur.len() == past.len());
        let d = diff_words(cur, past);
        if all_zero(d) {
            assert forall|w: int| 0 <= w < cur.len() implies cur[w] == past[w] by {
                assert(d[w] == 0);
                lemma_zero_diff(cur[w], past[w]);
            }
            assert(cur =~= past);
        } else if cur == past {
            assert forall|w: int| 0 <= w < d.len() implies d[w] == 0 by {
                lemma_diff_self(cur[w]);
            }
        }
    }
}

/// Every item of `to` has an item of `from` with its key and the same
/// payload.
pub open spec fn items_unchanged(from: Seq<i32>, to: Seq<i32>) -> bool {
    forall|t: int|
        0 <= t < snap_num_items(to) ==> past_index(from, to, t) >= 0 && #[trigger] snap_item_data(
            to,
            t,
        ) == snap_item_data(from, past_index(from, to, t))
}

/// The delta between two compatible snapshots is empty (and creating it
/// returns `0`) exactly when no key of `from` is missing from `to` and every
/// item of `to` has an item of `from` with its key and the same payload.
pub proof fn lemma_empty_iff_unchanged(sizes: Seq<u16>, from: Seq<i32>, to: Seq<i32>)
    requires
        delta_compatible(sizes, from, to),
    ensures
        delta_is_empty(sizes, from, to) == (all_deleted_keys(from, to).len() == 0
            && items_unchanged(from, to)),
{
    let nt = snap_num_items(to);
    lemma_count_zero_iff(sizes, from, to, nt);
    if update_count(sizes, from, to, nt) == 0 {
        assert(items_unchanged(from, to)) by {
            assert forall|t: int| 0 <= t < nt implies #[trigger] past_index(from, to, t) >= 0
                && snap_item_data(to, t) == snap_item_data(from, past_index(from, to, t)) by {
                assert(update_record(sizes, from, to, t).len() == 0);
                lemma_record_empty_iff(sizes, from, to, t);
            }
        }
    }
    if items_unchanged(from, to) {
        assert forall|t: int| 0 <= t < nt implies #[trigger] update_record(
            sizes,
            from,
            to,
            t,
        ).len() == 0 by {
            assert(snap_item_data(to, t) == snap_item_data(from, past_index(from, to, t)));
            lemma_record_empty_iff(sizes, from, to, t);
        }
        assert(update_count(sizes, from, to, nt) == 0);
    }
}


/// The words that the first `n` items of `buf` take, keys included.
spec fn items_words(buf: Seq<i32>, n: int) -> int
    decreases n,
{
    if n <= 0 {
        0
    } else {
        items_words(buf, n - 1) + 1 + snap_item_data(buf, n - 1).len()
    }
}

proof fn lemma_items_span(buf: Seq<i32>, k: int)
    requires
        snap_valid(buf),
        1 <= k <= snap_num_items(buf),
    ensures
        items_words(buf, k) == snap_item_end(buf, k - 1) - snap_key_pos(buf, 0),
    decreases k,
{
    assert(snap_item_ok(buf, k - 1));
    assert(snap_item_data(buf, k - 1).len() == snap_item_end(buf, k - 1) - snap_key_pos(buf, k - 1)
        - 1);
    assert(items_words(buf, k) == items_words(buf, k - 1) + 1 + snap_item_data(buf, k - 1).len());
    if k > 1 {
        lemma_items_span(buf, k - 1);
        assert(snap_item_end(buf, k - 2) == snap_key_pos(buf, k - 1));
    } else {
        assert(items_words(buf, 0) == 0);
    }
}

proof fn lemma_full_records_bound(sizes: Seq<u16>, to: Seq<i32>, n: int)
    requires
        0 <= n,
    ensures
        full_records_len(sizes, to, n) <= 2 * n + items_words(to, n),
    decreases n,
{
    if n > 0 {
        lemma_full_records_bound(sizes, to, n - 1);
    }
}

/// For a target snapshot with less than 2 GiB of data (by a margin of
/// 64 KiB), the byte count that creating a delta returns does not wrap: it
/// is four times the delta's length, so it gives the length back.
pub proof fn lemma_byte_count_exact(sizes: Seq<u16>, from: Seq<i32>, to: Seq<i32>)
    requires
        snap_valid(from),
        snap_valid(to),
        snap_data_size(to) <= 0x7fff_0000,
    ensures
        0 < 4 * delta_stream(sizes, from, to).len() <= i32::MAX,
        (4 * delta_stream(sizes, from, to).len()) as i32 == 4 * delta_stream(sizes, from, to).len(),
{
    let nf = snap_num_items(from);
    let nt = snap_num_items(to);
    lemma_stream_len(sizes, from, to);
    lemma_deleted_len_bound(from, to, nf);
    lemma_body_within_full(sizes, from, to, nt);
    lemma_full_records_bound(sizes, to, nt);
    if nt > 0 {
        lemma_items_span(to, nt);
        assert(snap_item_ok(to, nt - 1));
        assert(snap_key_ok(to, 0));
    }
    let stream_len = delta_stream(sizes, from, to).len() as int;
    let body_len = update_body(sizes, from, to, nt).len() as int;
    let nd = all_deleted_keys(from, to).len() as int;
    assert(items_words(to, nt) <= to.len());
    assert(body_len <= 2 * nt + to.len());
    assert(nd <= nf && nf <= 1024 && nt <= 1024);
    assert(to.len() == 2 + nt + snap_data_size(to) / 4);
    assert(stream_len <= 4101 + snap_data_size(to) / 4);
    assert(4 * stream_len <= i32::MAX);
    assert(0 <= 4 * stream_len <= i32::MAX ==> (4 * stream_len) as i32 == 4 * stream_len);
}

proof fn lemma_stream_len(sizes: Seq<u16>, from: Seq<i32>, to: Seq<i32>)
    ensures
        delta_stream(sizes, from, to).len() == 3 + all_deleted_keys(from, to).len()
            + update_body(sizes, from, to, snap_num_items(to)).len(),
{
}


proof fn lemma_run_codes(sizes: Seq<u16>, from: Seq<i32>, delta: Seq<i32>, k: int)
    ensures
        unpack_run(sizes, from, delta, k) matches UnpackStep::Stop(_, c) ==> c < -1,
    decreases k,
{
    if k > 0 {
        lemma_run_codes(sizes, from, delta, k - 1);
    }
}

/// The error that applying a delta ends with after handing on its items is
/// negative and never `-1`, like the codes with which a delta is turned
/// away, so no error can be taken for a byte count or for the failure to
/// write a snapshot.
pub proof fn lemma_unpack_error_codes(sizes: Seq<u16>, from: Seq<i32>, delta: Seq<i32>)
    ensures
        unpack_error(sizes, from, delta) matches Some(c) ==> c < -1,
        unpack_rejection(delta) matches Some(c) ==> c < -1,
{
    lemma_run_codes(sizes, from, delta, delta_num_updated(delta));
}


/// The update record of item `i` of `to`, spelled out over the registered
/// sizes: `[type, id, payload..]` when the item's type is below 64 and has a
/// non-zero registered size, `[type, id, length, payload..]` otherwise. The
/// payload is the item's data for a new item and its word-wise difference to
/// the base item otherwise; an item equal to its base item has no record.
pub proof fn lemma_update_record_shape(sizes: Seq<u16>, from: Seq<i32>, to: Seq<i32>, i: int)
    requires
        sizes.len() == 64,
        snap_valid(from),
        snap_valid(to),
        0 <= i < snap_num_items(to),
    ensures
        ({
            let key = snap_key(to, i);
            let t = key_type(key) as int;
            let cur = snap_item_data(to, i);
            let j = past_index(from, to, i);
            let hdr = if 0 <= t < 64 && sizes[t] != 0 {
                seq![t as i32, key_id(key) as i32]
            } else {
                seq![t as i32, key_id(key) as i32, cur.len() as i32]
            };
            let rec = update_record(sizes, from, to, i);
            &&& j < 0 ==> rec == hdr + cur
            &&& j >= 0 && cur.len() <= snap_item_data(from, j).len() ==> {
                let past = snap_item_data(from, j);
                if forall|w: int| 0 <= w < cur.len() ==> cur[w] == past[w] {
                    rec.len() == 0
                } else {
                    &&& rec == hdr + Seq::new(cur.len(), |w: int| diff_word(cur[w], past[w]))
                    &&& forall|w: int|
                        0 <= w < cur.len() ==> apply_word(past[w], rec[hdr.len() + w]) == cur[w]
                }
            }
        }),
{
    let key = snap_key(to, i);
    let t = key_type(key) as int;
    let cur = snap_item_data(to, i);
    let j = past_index(from, to, i);
    let hdr = if 0 <= t < 64 && sizes[t] != 0 {
        seq![t as i32, key_id(key) as i32]
    } else {
        seq![t as i32, key_id(key) as i32, cur.len() as i32]
    };
    assert(record_header(sizes, key, cur.len() as int) =~= hdr);
    if j >= 0 && cur.len() <= snap_item_data(from, j).len() {
        let past = snap_item_data(from, j);
        let d = diff_words(cur, past);
        if forall|w: int| 0 <= w < cur.len() ==> cur[w] == past[w] {
            assert forall|w: int| 0 <= w < d.len() implies d[w] == 0 by {
                lemma_diff_self(cur[w]);
            }
        } else {
            let w0 = choose|w: int| 0 <= w < cur.len() && cur[w] != past[w];
            if all_zero(d) {
                assert(d[w0] == 0);
                lemma_zero_diff(cur[w0], past[w0]);
            }
            let rec = update_record(sizes, from, to, i);
            assert(rec == hdr + d);
            assert(d =~= Seq::new(cur.len(), |w: int| diff_word(cur[w], past[w])));
            assert forall|w: int| 0 <= w < cur.len() implies apply_word(past[w], rec[hdr.len() + w])
                == cur[w] by {
                assert(rec[hdr.len() + w] == d[w]);
                lemma_apply_diff(cur[w], past[w]);
            }
        }
    }
}

/// Reading an update record back, over the registered sizes: a record of a
/// type below 64 with a non-zero registered size `s` is `[type, id]` and
/// `s / 4` payload words; any other record is `[type, id, length]` and
/// `length` payload words. A record that fits in the delta is never taken
/// for a malformed one, and the next record starts right after it.
pub proof fn lemma_record_read(
    sizes: Seq<u16>,
    from: Seq<i32>,
    delta: Seq<i32>,
    p: int,
    items: Seq<ItemSpec>,
)
    requires
        sizes.len() == 64,
        0 <= p,
        p + 2 <= delta.len(),
        0 <= delta[p] <= 0x7fff,
        0 <= delta[p + 1] <= 0xffff,
    ensures
        ({
            let t = delta[p] as int;
            let step = unpack_step(sizes, from, delta, p, items);
            &&& (t < 64 && sizes[t] != 0 && p + 2 + sizes[t] / 4 <= delta.len()) ==> {
                &&& !(step is Stop)
                &&& step matches UnpackStep::Next(q, _) ==> q == p + 2 + sizes[t] / 4
            }
            &&& (!(t < 64 && sizes[t] != 0) && p + 3 <= delta.len() && delta[p + 2] >= 0 && p + 3
                + delta[p + 2] <= delta.len()) ==> {
                &&& !(step is Stop)
                &&& step matches UnpackStep::Next(q, _) ==> q == p + 3 + delta[p + 2]
            }
        }),
{
}


/// The word-wise difference and its application are arithmetic modulo
/// 2^32: the difference plus the past word is the current word, and a past
/// word plus a difference is the applied word, up to a multiple of 2^32.
pub proof fn lemma_word_arith(c: i32, p: i32, d: i32)
    ensures
        ({
            let e = diff_word(c, p) as int + p as int - c as int;
            e == 0 || e == 0x1_0000_0000 || e == -0x1_0000_0000
        }),
        ({
            let e = apply_word(p, d) as int - p as int - d as int;
            e == 0 || e == 0x1_0000_0000 || e == -0x1_0000_0000
        }),
{
    let x = diff_word(c, p);
    assert(x == ((c as u32).wrapping_sub(p as u32)) as i32);
    let cu = c as u32;
    let pu = p as u32;
    let w = cu.wrapping_sub(pu);
    assert(w == if cu >= pu { (cu - pu) as u32 } else { (cu + 0x1_0000_0000 - pu) as u32 });
    assert(((w as i32) as i64) + (p as i64) - (c as i64) == 0 || ((w as i32) as i64) + (p as i64)
        - (c as i64) == 0x1_0000_0000 || ((w as i32) as i64) + (p as i64) - (c as i64)
        == -0x1_0000_0000) by (bit_vector)
        requires
            cu == c as u32,
            pu == p as u32,
            w == if cu >= pu { (cu - pu) as u32 } else { (cu + 0x1_0000_0000 - pu) as u32 },
    ;
    let y = apply_word(p, d);
    let du = d as u32;
    let v = pu.wrapping_add(du);
    assert(v == if pu as int + du as int <= 0xffff_ffff { (pu + du) as u32 } else { (pu + du
        - 0x1_0000_0000) as u32 });
    assert(((v as i32) as i64) - (p as i64) - (d as i64) == 0 || ((v as i32) as i64) - (p as i64)
        - (d as i64) == 0x1_0000_0000 || ((v as i32) as i64) - (p as i64) - (d as i64)
        == -0x1_0000_0000) by (bit_vector)
        requires
            pu == p as u32,
            du == d as u32,
            v == if pu as int + du as int <= 0xffff_ffff { (pu + du) as u32 } else { (pu + du
                - 0x1_0000_0000) as u32 },
    ;
}


/// Applying a delta to a valid base snapshot (which holds at most 1024
/// items) always gets as far as building, unless the delta deletes 2048 keys
/// or more: the base is never turned away for its size.
pub proof fn lemma_valid_base_starts(sizes: Seq<u16>, from: Seq<i32>, delta: Seq<i32>)
    requires
        sizes.len() == 64,
        snap_valid(from),
        unpack_rejection(delta) is None ==> delta[0] < 2048,
    ensures
        unpack_starts(sizes, from, delta),
{
    if unpack_rejection(delta) is None {
        let del = delta_deleted(delta);
        lemma_distinct_count_bound(del, del.len() as int);
    }
}


/// An item key is its type times 2^16 plus its ID: a non-negative key
/// splits into its upper and lower 16 bits, and the key that an update
/// record names is put back together the same way.
pub proof fn lemma_key_parts(key: i32)
    requires
        key >= 0,
    ensures
        key_type(key) as int == key as int / 0x1_0000,
        key_id(key) as int == key as int % 0x1_0000,
        record_key(key_type(key) as int, key_id(key) as int) == key,
{
    lemma_key_split(key);
}

/// An update record's header takes two words for a type below 64 with a
/// non-zero registered size, and three for any other type.
pub proof fn lemma_header_len(sizes: Seq<u16>, key: i32, words: int)
    requires
        sizes.len() == 64,
    ensures
        header_len(sizes, key) == if key_type(key) < 64 && sizes[key_type(key) as int] != 0 {
            2int
        } else {
            3int
        },
        header_len(sizes, key) == record_header(sizes, key, words).len(),
{
}

} // verus!
