//! The decisions of the snapshot builder: its life cycle, retrying an item
//! under the next ID when its key is taken, recording dropped items, moving
//! from the borrowed to the owned item store, checking flat item batches, and
//! turning a written snapshot into the returned byte count.
//!
//! The item stores themselves belong to the caller, which performs each
//! step that these functions ask for and reports how it went.
use vstd::prelude::*;

verus! {

/// How many IDs an item is tried under before it is silently dropped.
pub const MAX_ID_ATTEMPTS: u32 = 128;

/// The state of a reusable object for building snapshots.
pub struct CSnapshotBuilder {
    building: bool,
    sixup: bool,
    has_dropped_item: bool,
    use_borrowed: bool,
}

/// Whether an item's type is an ordinal type or a UUID type (which needs the
/// owned item store).
#[derive(Clone, Copy, PartialEq, Eq, Structural, Debug)]
pub enum ItemKind {
    Ordinal,
    Uuid,
}

/// What adding an item asks its caller to do next.
#[derive(Clone, Copy, PartialEq, Eq, Structural, Debug)]
pub enum ItemStep {
    /// Add the item under this ID, to the borrowed store (`true`) or the
    /// owned one (`false`), and report the outcome.
    Add(u16, bool),
    /// Move the borrowed store's items into the owned store; if that works,
    /// add the item under this ID to the owned store. Report the outcome.
    DrainThenAdd(u16),
    /// Adding the item is over: it returns this.
    Return(bool),
}

/// How the last requested step went.
#[derive(Clone, Copy, PartialEq, Eq, Structural, Debug)]
pub enum AddOutcome {
    Added,
    DuplicateKey,
    TooLongSnap,
    TooManyItems,
    DrainFailed,
}

/// Where an item that is being added stands.
pub struct ItemAttempt {
    pub kind: ItemKind,
    pub id: u16,
    pub attempts: u32,
}

/// The step for adding an item of `kind` under `id`, given which store is
/// in use.
pub open spec fn spec_add_step(kind: ItemKind, id: u16, use_borrowed: bool) -> ItemStep {
    if kind == ItemKind::Uuid && use_borrowed {
        ItemStep::DrainThenAdd(id)
    } else {
        ItemStep::Add(id, use_borrowed)
    }
}

/// The byte count that finishing reports for a snapshot of `words` words,
/// or `-1` if writing it failed.
pub open spec fn spec_finish_result(written: Option<usize>) -> i32 {
    match written {
        Some(words) => (4 * words) as i32,
        None => -1i32,
    }
}

/// A flat batch of items is well formed: as many IDs as types, one more
/// offset than types, offsets non-decreasing and within the data, the last
/// one at its end.
pub open spec fn flat_items_ok(
    types_len: int,
    ids_len: int,
    data_len: int,
    offsets: Seq<u32>,
) -> bool {
    &&& types_len == ids_len
    &&& offsets.len() == types_len + 1
    &&& forall|i: int| 0 <= i < offsets.len() ==> #[trigger] offsets[i] <= data_len
    &&& forall|i: int| 0 < i < offsets.len() ==> offsets[i - 1] <= #[trigger] offsets[i]
    &&& offsets[offsets.len() - 1] == data_len
}

/// What adding one item (which returned `added`) does to the builder: it
/// keeps building, for the same client, and records a dropped item exactly
/// if this one was dropped for the snapshot's limits.
pub open spec fn item_added_effect(
    before: CSnapshotBuilder,
    after: CSnapshotBuilder,
    added: bool,
) -> bool {
    &&& after.building() == before.building()
    &&& after.sixup() == before.sixup()
    &&& after.has_dropped_item() == (before.has_dropped_item() || !added)
}

/// Adding a batch of items one after the other: afterwards the builder has
/// recorded a dropped item exactly if it had before the batch or some item
/// of the batch was not added; it is still building.
pub proof fn lemma_flat_batch(states: Seq<CSnapshotBuilder>, added: Seq<bool>)
    requires
        states.len() == added.len() + 1,
        forall|i: int|
            0 <= i < added.len() ==> #[trigger] item_added_effect(states[i], states[i + 1], added[i]),
    ensures
        states.last().has_dropped_item() == (states[0].has_dropped_item() || exists|i: int|
            0 <= i < added.len() && !#[trigger] added[i]),
        states.last().building() == states[0].building(),
    decreases added.len(),
{
    if added.len() > 0 {
        let n = added.len() - 1;
        let s2 = states.subrange(0, n + 1);
        let a2 = added.subrange(0, n);
        assert forall|i: int| 0 <= i < a2.len() implies #[trigger] item_added_effect(
            s2[i],
            s2[i + 1],
            a2[i],
        ) by {
            assert(item_added_effect(states[i], states[i + 1], added[i]));
        }
        lemma_flat_batch(s2, a2);
        assert(item_added_effect(states[n], states[n + 1], added[n]));
        if exists|i: int| 0 <= i < a2.len() && !#[trigger] a2[i] {
            let i = choose|i: int| 0 <= i < a2.len() && !#[trigger] a2[i];
            assert(!added[i]);
        }
        if exists|i: int| 0 <= i < added.len() && !#[trigger] added[i] {
            let i = choose|i: int| 0 <= i < added.len() && !#[trigger] added[i];
            if i < n {
                assert(!a2[i]);
            }
        }
    }
}

/// Creates a new [`CSnapshotBuilder`], not building.
pub fn CSnapshotBuilder_New() -> (r: Box<CSnapshotBuilder>)
    ensures
        !r.building(),
        !r.sixup(),
        !r.has_dropped_item(),
        !r.use_borrowed(),
{
    Box::new(CSnapshotBuilder::default())
}

impl Default for CSnapshotBuilder {
    fn default() -> (r: Self)
        ensures
            !r.building(),
            !r.sixup(),
            !r.has_dropped_item(),
            !r.use_borrowed(),
    {
        CSnapshotBuilder {
            building: false,
            sixup: false,
            has_dropped_item: false,
            use_borrowed: false,
        }
    }
}

impl CSnapshotBuilder {
    /// Whether a snapshot is being built.
    pub closed spec fn building(&self) -> bool {
        self.building
    }

    /// Whether the snapshot being built is meant for a 0.7 client.
    pub closed spec fn sixup(&self) -> bool {
        self.sixup
    }

    /// Whether an item was dropped from the snapshot being built.
    pub closed spec fn has_dropped_item(&self) -> bool {
        self.has_dropped_item
    }

    /// Whether items still go to the borrowed store.
    pub closed spec fn use_borrowed(&self) -> bool {
        self.use_borrowed
    }

    /// Whether a snapshot is being built.
    pub fn IsBuilding(&self) -> (r: bool)
        ensures
            r == self.building(),
    {
        self.building
    }

    /// Whether the snapshot being built is meant for a 0.7 client.
    pub fn IsSixup(&self) -> (r: bool)
        ensures
            r == self.sixup(),
    {
        self.sixup
    }

    /// Whether an item was dropped from the snapshot being built.
    pub fn HasDroppedItem(&self) -> (r: bool)
        ensures
            r == self.has_dropped_item(),
    {
        self.has_dropped_item
    }

    /// Whether items still go to the borrowed store.
    pub fn UsesBorrowed(&self) -> (r: bool)
        ensures
            r == self.use_borrowed(),
    {
        self.use_borrowed
    }

    /// Starts building a snapshot; `sixup` says whether it is meant for
    /// a 0.7 client. Items go to the borrowed store, and none is dropped yet.
    pub fn Init(&mut self, sixup: bool)
        requires
            !old(self).building(),
        ensures
            final(self).building(),
            final(self).sixup() == sixup,
            !final(self).has_dropped_item(),
            final(self).use_borrowed(),
    {
        *self = CSnapshotBuilder {
            building: true,
            sixup,
            has_dropped_item: false,
            use_borrowed: true,
        };
    }

    /// Starts adding an item of `kind` under `id`: the first step, and the
    /// attempt to report outcomes against.
    pub fn NewItemBegin(&self, kind: ItemKind, id: u16) -> (r: (ItemAttempt, ItemStep))
        requires
            self.building(),
        ensures
            r.0.kind == kind,
            r.0.id == id,
            r.0.attempts == 1,
            r.1 == spec_add_step(kind, id, self.use_borrowed()),
            kind == ItemKind::Ordinal ==> r.1 == ItemStep::Add(id, self.use_borrowed()),
            kind == ItemKind::Uuid && self.use_borrowed() ==> r.1 == ItemStep::DrainThenAdd(id),
            kind == ItemKind::Uuid && !self.use_borrowed() ==> r.1 == ItemStep::Add(id, false),
    {
        let step = if kind == ItemKind::Uuid && self.use_borrowed {
            ItemStep::DrainThenAdd(id)
        } else {
            ItemStep::Add(id, self.use_borrowed)
        };
        (ItemAttempt { kind, id, attempts: 1 }, step)
    }

    /// What adding an item of a 0.7 type without a counterpart in 0.6
    /// returns: it is dropped, but not recorded as dropped (`true`).
    pub fn NewItemUnmapped(&self) -> (r: bool)
        requires
            self.building(),
        ensures
            r,
            item_added_effect(*self, *self, r),
    {
        true
    }

    /// Takes the outcome of the last step of adding an item and gives the
    /// next step. A taken key is retried under the next ID (wrapping), up to
    /// [`MAX_ID_ATTEMPTS`] attempts in all, after which the item is dropped
    /// silently (returning `true`). A full snapshot or a failed move between
    /// stores drops the item and is recorded (returning `false`). A
    /// successful move makes the builder use the owned store from then on.
    pub fn NewItemNext(&mut self, attempt: &mut ItemAttempt, outcome: AddOutcome) -> (r: ItemStep)
        requires
            old(self).building(),
            1 <= old(attempt).attempts <= MAX_ID_ATTEMPTS,
            outcome == AddOutcome::DrainFailed ==> old(self).use_borrowed() && old(attempt).kind
                == ItemKind::Uuid,
        ensures
            final(self).building(),
            final(self).sixup() == old(self).sixup(),
            final(attempt).kind == old(attempt).kind,
            final(self).use_borrowed() == (old(self).use_borrowed() && !(old(attempt).kind
                == ItemKind::Uuid && outcome != AddOutcome::DrainFailed)),
            final(self).has_dropped_item() == (old(self).has_dropped_item() || outcome
                == AddOutcome::TooLongSnap || outcome == AddOutcome::TooManyItems || outcome
                == AddOutcome::DrainFailed),
            outcome != AddOutcome::DuplicateKey ==> *final(attempt) == *old(attempt),
            r matches ItemStep::Return(a) ==> item_added_effect(*old(self), *final(self), a),
            r matches ItemStep::Add(id2, b) ==> id2 == final(attempt).id
                && b == final(self).use_borrowed(),
            r matches ItemStep::DrainThenAdd(id2) ==> id2 == final(attempt).id
                && final(self).use_borrowed() && final(attempt).kind == ItemKind::Uuid,
            r is Add ==> (final(attempt).kind == ItemKind::Ordinal
                || !final(self).use_borrowed()),
            !(r is Return) ==> final(self).has_dropped_item() == old(self).has_dropped_item(),
            (r == ItemStep::Return(false)) == (outcome == AddOutcome::TooLongSnap || outcome
                == AddOutcome::TooManyItems || outcome == AddOutcome::DrainFailed),
            outcome == AddOutcome::Added ==> r == ItemStep::Return(true),
            (outcome == AddOutcome::TooLongSnap || outcome == AddOutcome::TooManyItems || outcome
                == AddOutcome::DrainFailed) ==> r == ItemStep::Return(false),
            outcome == AddOutcome::DuplicateKey ==> {
                &&& final(attempt).id == old(attempt).id.wrapping_add(1)
                &&& if old(attempt).attempts == MAX_ID_ATTEMPTS {
                    r == ItemStep::Return(true)
                } else {
                    &&& final(attempt).attempts == old(attempt).attempts + 1
                    &&& r == spec_add_step(
                        old(attempt).kind,
                        final(attempt).id,
                        final(self).use_borrowed(),
                    )
                }
            },
    {
        if attempt.kind == ItemKind::Uuid && self.use_borrowed && outcome != AddOutcome::DrainFailed {
            self.use_borrowed = false;
        }
        match outcome {
            AddOutcome::Added => ItemStep::Return(true),
            AddOutcome::DuplicateKey => {
                attempt.id = attempt.id.wrapping_add(1);
                if attempt.attempts == MAX_ID_ATTEMPTS {
                    ItemStep::Return(true)
                } else {
                    attempt.attempts = attempt.attempts + 1;
                    if attempt.kind == ItemKind::Uuid && self.use_borrowed {
                        ItemStep::DrainThenAdd(attempt.id)
                    } else {
                        ItemStep::Add(attempt.id, self.use_borrowed)
                    }
                }
            },
            _ => {
                self.has_dropped_item = true;
                ItemStep::Return(false)
            },
        }
    }

    /// Checks a flat batch of items for [`Self::NewItemsFlatFinish`]'s caller:
    /// `types.len()` must match `ids.len()`, and `offsets` must have one more
    /// entry, be non-decreasing, stay within `data_len` and end with it.
    pub fn NewItemsFlatCheck(
        &self,
        types: &[i32],
        ids: &[i32],
        data_len: usize,
        offsets: &[u32],
    ) -> (r: bool)
        requires
            self.building(),
        ensures
            r == flat_items_ok(types@.len() as int, ids@.len() as int, data_len as int, offsets@),
            r ==> types@.len() == ids@.len() && offsets@.len() == types@.len() + 1
                && offsets@[types@.len() as int] == data_len,
            types@.len() != ids@.len() ==> !r,
            offsets@.len() != types@.len() + 1 ==> !r,
    {
        if types.len() != ids.len() {
            return false;
        }
        if offsets.len() == 0 || offsets.len() - 1 != types.len() {
            return false;
        }
        let mut prev: usize = 0;
        let mut i: usize = 0;
        while i < offsets.len()
            invariant
                i <= offsets@.len(),
                offsets@.len() == types@.len() + 1,
                i > 0 ==> prev == offsets@[i - 1],
                i == 0 ==> prev == 0,
                forall|j: int| 0 <= j < i ==> #[trigger] offsets@[j] <= data_len,
                forall|j: int| 0 < j < i ==> offsets@[j - 1] <= #[trigger] offsets@[j],
            decreases offsets@.len() - i,
        {
            let off = offsets[i] as usize;
            if off < prev || off > data_len {
                return false;
            }
            prev = off;
            i += 1;
        }
        prev == data_len
    }

    /// What adding a flat batch of items returns once every item was
    /// offered, given what adding each one returned: whether every item of
    /// the batch was added (none was dropped for the snapshot's limits).
    pub fn NewItemsFlatFinish(&self, added: &[bool]) -> (r: bool)
        requires
            self.building(),
        ensures
            r == (forall|i: int| 0 <= i < added@.len() ==> added@[i]),
    {
        let mut i: usize = 0;
        while i < added.len()
            invariant
                i <= added@.len(),
                forall|j: int| 0 <= j < i ==> added@[j],
            decreases added@.len() - i,
        {
            if !added[i] {
                return false;
            }
            i += 1;
        }
        true
    }

    /// Starts finishing if no item was dropped. If one was, stops building
    /// and returns `Some(-1)`; otherwise leaves the builder as it is and
    /// returns `None`, and finishing proceeds with [`Self::FinishBegin`].
    pub fn FinishIfNoDroppedItemsBegin(&mut self) -> (r: Option<i32>)
        requires
            old(self).building(),
        ensures
            old(self).has_dropped_item() ==> r == Some(-1i32) && !final(self).building()
                && final(self).has_dropped_item() && final(self).sixup() == old(self).sixup()
                && final(self).use_borrowed() == old(self).use_borrowed(),
            !old(self).has_dropped_item() ==> r is None && *final(self) == *old(self),
    {
        if self.has_dropped_item {
            self.building = false;
            return Some(-1);
        }
        None
    }

    /// Stops building. Returns which store holds the items to write; what
    /// finishing returns is then [`Self::FinishResult`].
    pub fn FinishBegin(&mut self) -> (r: bool)
        requires
            old(self).building(),
        ensures
            !final(self).building(),
            r == old(self).use_borrowed(),
            final(self).use_borrowed() == old(self).use_borrowed(),
            final(self).sixup() == old(self).sixup(),
            final(self).has_dropped_item() == old(self).has_dropped_item(),
    {
        self.building = false;
        self.use_borrowed
    }

    /// Gives up the snapshot being built without writing it; the builder can
    /// start a new one.
    pub fn Abandon(&mut self)
        requires
            old(self).building(),
        ensures
            !final(self).building(),
            final(self).sixup() == old(self).sixup(),
            final(self).has_dropped_item() == old(self).has_dropped_item(),
            final(self).use_borrowed() == old(self).use_borrowed(),
    {
        self.building = false;
    }

    /// What finishing returns once the snapshot was written (`Some` with its
    /// length in words) or failed to fit (`None`): `-1` if an item was
    /// dropped from it or writing failed, else its size in bytes.
    pub fn FinishResult(&self, written: Option<usize>) -> (r: i32)
        requires
            !self.has_dropped_item() ==> (written matches Some(words) ==> 4 * words <= i32::MAX),
        ensures
            r == if self.has_dropped_item() {
                -1i32
            } else {
                spec_finish_result(written)
            },
            self.has_dropped_item() || written is None ==> r == -1,
            !self.has_dropped_item() ==> (written matches Some(w) ==> r == 4 * w),
    {
        if self.has_dropped_item {
            -1
        } else {
            finish_result(written)
        }
    }
}

/// The result of finishing: the number of bytes of a written snapshot of
/// `words` words, or `-1` if writing failed.
pub fn finish_result(written: Option<usize>) -> (r: i32)
    requires
        written matches Some(words) ==> 4 * words <= i32::MAX,
    ensures
        r == spec_finish_result(written),
        written matches Some(w) ==> r == 4 * w,
        written is None ==> r == -1,
{
    match written {
        Some(words) => (words * 4) as i32,
        None => -1,
    }
}


/// The range of `data` that item `i` of a well-formed flat batch takes:
/// `offsets[i]..offsets[i + 1]`.
pub fn flat_item_range(offsets: &[u32], data_len: usize, i: usize) -> (r: (usize, usize))
    requires
        offsets@.len() >= 1,
        flat_items_ok(
            offsets@.len() - 1,
            offsets@.len() - 1,
            data_len as int,
            offsets@,
        ),
        i + 1 < offsets@.len(),
    ensures
        r.0 == offsets@[i as int],
        r.1 == offsets@[i + 1],
        r.0 <= r.1 <= data_len,
{
    (offsets[i] as usize, offsets[i + 1] as usize)
}


/// Finishing reports the size in bytes of the words written, four bytes to
/// a word, and `-1` when nothing was written.
pub proof fn lemma_finish_bytes(words: usize)
    requires
        4 * words <= i32::MAX,
    ensures
        spec_finish_result(Some(words)) == 4 * words,
        spec_finish_result(None) == -1,
{
}

/// A flat batch is well formed exactly when it names as many IDs as types,
/// one offset more than items, offsets that never go back or past the end
/// of the data, and a last offset at the end of the data.
pub proof fn lemma_flat_items_ok(types_len: int, ids_len: int, data_len: int, offsets: Seq<u32>)
    ensures
        flat_items_ok(types_len, ids_len, data_len, offsets) == {
            &&& ids_len == types_len
            &&& offsets.len() == types_len + 1
            &&& forall|i: int| 0 <= i < offsets.len() ==> #[trigger] offsets[i] <= data_len
            &&& forall|i: int| 0 < i < offsets.len() ==> offsets[i - 1] <= #[trigger] offsets[i]
            &&& offsets[offsets.len() - 1] == data_len
        },
        flat_items_ok(types_len, ids_len, data_len, offsets) ==> types_len == ids_len,
{
}

/// Adding an item always uses the store in use: an ordinal item goes to it
/// under the given ID; a UUID item first moves the borrowed store's items to
/// the owned store if the borrowed one is in use, and otherwise goes to the
/// owned store.
pub proof fn lemma_add_step(kind: ItemKind, id: u16, use_borrowed: bool)
    ensures
        spec_add_step(kind, id, use_borrowed) matches ItemStep::Add(id2, b) ==> id2 == id && b
            == use_borrowed,
        kind == ItemKind::Ordinal ==> spec_add_step(kind, id, use_borrowed) == ItemStep::Add(
            id,
            use_borrowed,
        ),
        kind == ItemKind::Uuid ==> spec_add_step(kind, id, use_borrowed) == if use_borrowed {
            ItemStep::DrainThenAdd(id)
        } else {
            ItemStep::Add(id, false)
        },
        !(spec_add_step(kind, id, use_borrowed) is Return),
{
}

} // verus!
