//! The items of a snapshot under construction, kept in flat arrays.
use vstd::prelude::*;

use crate::snap::{key_id, key_type};
use crate::unpack_spec::{last_item_index, ItemSpec};

verus! {

/// The items that applying a delta yields, in the order in which they are to
/// be added to a snapshot builder, plus the error (if any) that the delta
/// ends with after them, or whether it stops out of bounds after them.
///
/// Item `k` has key `keys[k]` and payload `data[offsets[k]..offsets[k + 1]]`.
/// Items `0..num_base` were copied from the base snapshot; the rest were
/// created by update records.
pub struct UnpackedSnapshot {
    pub keys: Vec<i32>,
    pub offsets: Vec<usize>,
    pub data: Vec<i32>,
    pub num_base: usize,
    pub error: Option<i32>,
    pub crashed: bool,
}

impl UnpackedSnapshot {
    /// The flat arrays describe a sequence of items.
    pub open spec fn wf(&self) -> bool {
        &&& self.offsets@.len() == self.keys@.len() + 1
        &&& self.offsets@[0] == 0
        &&& self.offsets@[self.keys@.len() as int] == self.data@.len()
        &&& forall|a: int, b: int|
            0 <= a <= b <= self.keys@.len() ==> #[trigger] self.offsets@[a] <= #[trigger] self.offsets@[b]
    }

    /// The items as `(key, payload)` pairs.
    pub open spec fn items(&self) -> Seq<ItemSpec> {
        Seq::new(
            self.keys@.len(),
            |k: int|
                (
                    self.keys@[k],
                    self.data@.subrange(self.offsets@[k] as int, self.offsets@[k + 1] as int),
                ),
        )
    }

    /// No items and no error.
    pub fn new() -> (r: Self)
        ensures
            r.wf(),
            r.items() == Seq::<ItemSpec>::empty(),
            r.num_base == 0,
            r.error is None,
            !r.crashed,
    {
        let mut offsets: Vec<usize> = Vec::new();
        offsets.push(0);
        let r = UnpackedSnapshot {
            keys: Vec::new(),
            offsets,
            data: Vec::new(),
            num_base: 0,
            error: None,
            crashed: false,
        };
        assert(r.items() =~= Seq::<ItemSpec>::empty());
        r
    }

    /// The number of items.
    pub fn num_items(&self) -> (r: usize)
        requires
            self.wf(),
        ensures
            r == self.items().len(),
    {
        self.keys.len()
    }

    /// The key of item `k`.
    pub fn item_key(&self, k: usize) -> (r: i32)
        requires
            self.wf(),
            k < self.items().len(),
        ensures
            r == self.items()[k as int].0,
    {
        self.keys[k]
    }

    /// The type half of the key of item `k`.
    pub fn item_type(&self, k: usize) -> (r: u16)
        requires
            self.wf(),
            k < self.items().len(),
        ensures
            r == key_type(self.items()[k as int].0),
    {
        ((self.keys[k] as u32) >> 16u32) as u16
    }

    /// The ID half of the key of item `k`.
    pub fn item_id(&self, k: usize) -> (r: u16)
        requires
            self.wf(),
            k < self.items().len(),
        ensures
            r == key_id(self.items()[k as int].0),
    {
        ((self.keys[k] as u32) & 0xffffu32) as u16
    }

    /// What applying the delta returns once its items were offered to a
    /// builder in order: if the builder refused item `k`, `-301` for an item
    /// copied from the base snapshot and `-302` for one created by an update
    /// record; otherwise the error of a malformed record, if any (`None`:
    /// the snapshot is to be finished). If the delta stops out of bounds,
    /// only a refusal can be reported.
    pub fn BuildOutcome(&self, refused_at: Option<usize>) -> (r: Option<i32>)
        requires
            refused_at is None ==> !self.crashed,
        ensures
            r == match refused_at {
                Some(k) => Some(
                    if k < self.num_base {
                        -301i32
                    } else {
                        -302i32
                    },
                ),
                None => self.error,
            },
    {
        match refused_at {
            Some(k) => if k < self.num_base {
                Some(-301)
            } else {
                Some(-302)
            },
            None => self.error,
        }
    }

    /// The length of the payload of item `k`.
    pub fn item_len(&self, k: usize) -> (r: usize)
        requires
            self.wf(),
            k < self.items().len(),
        ensures
            r == self.items()[k as int].1.len(),
    {
        let _n = self.offsets.len();
        let start = self.offsets[k];
        let end = self.offsets[k + 1];
        assert(self.offsets@[k as int] <= self.offsets@[k + 1]);
        end - start
    }

    /// The payload of item `k`.
    pub fn item_data(&self, k: usize) -> (r: &[i32])
        requires
            self.wf(),
            k < self.items().len(),
        ensures
            r@ == self.items()[k as int].1,
    {
        let _n = self.keys.len();
        let start = self.offsets[k];
        let end = self.offsets[k + 1];
        assert(self.offsets@[k as int] <= self.offsets@[k + 1]);
        assert(self.offsets@[k + 1] <= self.offsets@[self.keys@.len() as int]);
        self.data.as_slice().split_at(end).0.split_at(start).1
    }

    /// Appends an item with `key` and a copy of `payload`.
    pub fn push_item(&mut self, key: i32, payload: &[i32])
        requires
            old(self).wf(),
        ensures
            final(self).wf(),
            final(self).items() == old(self).items().push((key, payload@)),
            final(self).num_base == old(self).num_base,
            final(self).error == old(self).error,
            final(self).crashed == old(self).crashed,
    {
        let ghost old_items = self.items();
        let ghost old_data = self.data@;
        let mut w: usize = 0;
        while w < payload.len()
            invariant
                w <= payload@.len(),
                self.data@.len() == old_data.len() + w,
                self.data@.subrange(0, old_data.len() as int) == old_data,
                self.data@.subrange(old_data.len() as int, self.data@.len() as int)
                    == payload@.subrange(0, w as int),
                self.keys == old(self).keys,
                self.offsets == old(self).offsets,
                self.num_base == old(self).num_base,
                self.error == old(self).error,
                self.crashed == old(self).crashed,
            decreases payload@.len() - w,
        {
            let ghost before = self.data@;
            self.data.push(payload[w]);
            proof {
                assert(self.data@.subrange(0, old_data.len() as int) =~= before.subrange(
                    0,
                    old_data.len() as int,
                ));
                assert(self.data@.subrange(old_data.len() as int, self.data@.len() as int)
                    =~= payload@.subrange(0, w + 1));
            }
            w += 1;
        }
        self.keys.push(key);
        let end = self.data.len();
        self.offsets.push(end);
        proof {
            let n = old_items.len() as int;
            assert forall|a: int, b: int|
                0 <= a <= b <= self.keys@.len() implies #[trigger] self.offsets@[a]
                <= #[trigger] self.offsets@[b] by {
                if b == n + 1 {
                    if a <= n {
                        assert(old(self).offsets@[a] <= old(self).offsets@[n]);
                    }
                } else {
                    assert(old(self).offsets@[a] <= old(self).offsets@[b]);
                }
            }
            assert forall|k: int| 0 <= k < n implies self.items()[k] == old_items[k] by {
                assert(old(self).offsets@[k] <= old(self).offsets@[k + 1]);
                assert(old(self).offsets@[k + 1] <= old(self).offsets@[n]);
                assert(self.data@.subrange(
                    self.offsets@[k] as int,
                    self.offsets@[k + 1] as int,
                ) =~= old_data.subrange(self.offsets@[k] as int, self.offsets@[k + 1] as int)) by {
                    assert forall|j: int|
                        self.offsets@[k] <= j < self.offsets@[k + 1] implies self.data@[j]
                        == old_data[j] by {
                        assert(self.data@[j] == self.data@.subrange(0, old_data.len() as int)[j]);
                    }
                }
            }
            assert(self.items()[n].1 =~= payload@) by {
                assert(payload@.subrange(0, payload@.len() as int) =~= payload@);
            }
            assert(self.items() =~= old_items.push((key, payload@)));
        }
    }

    /// Appends an item with `key` and `words` zero words.
    pub fn push_zeroed(&mut self, key: i32, words: usize)
        requires
            old(self).wf(),
        ensures
            final(self).wf(),
            final(self).items() == old(self).items().push(
                (key, Seq::new(words as nat, |w: int| 0i32)),
            ),
            final(self).num_base == old(self).num_base,
            final(self).error == old(self).error,
            final(self).crashed == old(self).crashed,
    {
        let ghost old_items = self.items();
        let ghost old_data = self.data@;
        let mut w: usize = 0;
        while w < words
            invariant
                w <= words,
                self.data@.len() == old_data.len() + w,
                self.data@.subrange(0, old_data.len() as int) == old_data,
                forall|j: int| old_data.len() <= j < self.data@.len() ==> self.data@[j] == 0,
                self.keys == old(self).keys,
                self.offsets == old(self).offsets,
                self.num_base == old(self).num_base,
                self.error == old(self).error,
                self.crashed == old(self).crashed,
            decreases words - w,
        {
            let ghost before = self.data@;
            self.data.push(0);
            proof {
                assert(self.data@.subrange(0, old_data.len() as int) =~= before.subrange(
                    0,
                    old_data.len() as int,
                ));
            }
            w += 1;
        }
        self.keys.push(key);
        let end = self.data.len();
        self.offsets.push(end);
        proof {
            let n = old_items.len() as int;
            assert forall|a: int, b: int|
                0 <= a <= b <= self.keys@.len() implies #[trigger] self.offsets@[a]
                <= #[trigger] self.offsets@[b] by {
                if b == n + 1 {
                    if a <= n {
                        assert(old(self).offsets@[a] <= old(self).offsets@[n]);
                    }
                } else {
                    assert(old(self).offsets@[a] <= old(self).offsets@[b]);
                }
            }
            assert forall|k: int| 0 <= k < n implies self.items()[k] == old_items[k] by {
                assert(old(self).offsets@[k] <= old(self).offsets@[k + 1]);
                assert(old(self).offsets@[k + 1] <= old(self).offsets@[n]);
                assert(self.data@.subrange(
                    self.offsets@[k] as int,
                    self.offsets@[k + 1] as int,
                ) =~= old_data.subrange(self.offsets@[k] as int, self.offsets@[k + 1] as int)) by {
                    assert forall|j: int|
                        self.offsets@[k] <= j < self.offsets@[k + 1] implies self.data@[j]
                        == old_data[j] by {
                        assert(self.data@[j] == self.data@.subrange(0, old_data.len() as int)[j]);
                    }
                }
            }
            assert(self.items()[n].1 =~= Seq::new(words as nat, |w: int| 0i32));
            assert(self.items() =~= old_items.push((key, Seq::new(words as nat, |w: int| 0i32))));
        }
    }

    /// The index of the last item with `key`, if any.
    pub fn find_last(&self, key: i32) -> (r: Option<usize>)
        requires
            self.wf(),
        ensures
            match r {
                Some(k) => k == last_item_index(self.items(), key, self.items().len() as int),
                None => last_item_index(self.items(), key, self.items().len() as int) == -1,
            },
    {
        let mut k = self.keys.len();
        while k > 0
            invariant
                self.wf(),
                k <= self.keys@.len(),
                last_item_index(self.items(), key, self.items().len() as int) == last_item_index(
                    self.items(),
                    key,
                    k as int,
                ),
            decreases k,
        {
            if self.keys[k - 1] == key {
                return Some(k - 1);
            }
            k -= 1;
        }
        None
    }

    /// Overwrites word `w` of the payload of item `k` with `v`.
    pub fn write_word(&mut self, k: usize, w: usize, v: i32)
        requires
            old(self).wf(),
            k < old(self).items().len(),
            w < old(self).items()[k as int].1.len(),
        ensures
            final(self).wf(),
            final(self).items() == old(self).items().update(
                k as int,
                (old(self).items()[k as int].0, old(self).items()[k as int].1.update(w as int, v)),
            ),
            final(self).num_base == old(self).num_base,
            final(self).error == old(self).error,
            final(self).crashed == old(self).crashed,
    {
        let ghost old_items = self.items();
        let ghost old_data = self.data@;
        let ghost n = old_items.len() as int;
        proof {
            assert(self.offsets@[k as int] <= self.offsets@[k + 1]);
            assert(self.offsets@[k + 1] <= self.offsets@[n]);
        }
        let pos = self.offsets[k] + w;
        self.data.set(pos, v);
        proof {
            assert forall|k2: int| 0 <= k2 < n && k2 != k implies self.items()[k2] == old_items[k2] by {
                assert(self.offsets@[k2] <= self.offsets@[k2 + 1]);
                assert(self.offsets@[k2 + 1] <= self.offsets@[n]);
                if k2 < k {
                    assert(self.offsets@[k2 + 1] <= self.offsets@[k as int]);
                } else {
                    assert(self.offsets@[k + 1] <= self.offsets@[k2]);
                }
                assert(self.data@.subrange(
                    self.offsets@[k2] as int,
                    self.offsets@[k2 + 1] as int,
                ) =~= old_data.subrange(self.offsets@[k2] as int, self.offsets@[k2 + 1] as int));
            }
            assert(self.items()[k as int].1 =~= old_items[k as int].1.update(w as int, v));
            assert(self.items() =~= old_items.update(
                k as int,
                (old_items[k as int].0, old_items[k as int].1.update(w as int, v)),
            ));
        }
    }
}

} // verus!
