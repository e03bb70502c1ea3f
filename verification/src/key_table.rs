//! A fixed-capacity open-addressing hash table from snapshot item keys to
//! small indices, cleared in constant time by bumping a generation counter.
use vstd::prelude::*;

verus! {

/// Number of slots of a [`KeyIndexTable`]: the smallest power of two that is
/// at least twice the maximum number of snapshot items.
pub const TABLE_CAP: usize = 2048;

/// The home slot of `key`: Fibonacci hashing of the key's bits.
pub open spec fn spec_hash(key: i32) -> int {
    ((key as u32).wrapping_mul(2654435761u32) as int) % (TABLE_CAP as int)
}

/// The slot `d` steps after slot `h`, wrapping around the table.
pub open spec fn slot(h: int, d: int) -> int {
    if h + d < TABLE_CAP as int {
        h + d
    } else {
        h + d - TABLE_CAP as int
    }
}

/// How many steps lead from slot `h` to slot `p`, wrapping around the table.
pub open spec fn dist(h: int, p: int) -> int {
    if p >= h {
        p - h
    } else {
        p - h + TABLE_CAP as int
    }
}

/// Number of entries of `gens[0..n]` equal to `g`.
pub open spec fn count_gen(gens: Seq<u16>, g: u16, n: int) -> int
    decreases n,
{
    if n <= 0 {
        0
    } else {
        count_gen(gens, g, n - 1) + if gens[n - 1] == g {
            1int
        } else {
            0int
        }
    }
}

proof fn lemma_count_all(gens: Seq<u16>, g: u16, n: int)
    requires
        0 <= n <= gens.len(),
        forall|p: int| 0 <= p < n ==> gens[p] == g,
    ensures
        count_gen(gens, g, n) == n,
    decreases n,
{
    if n > 0 {
        lemma_count_all(gens, g, n - 1);
    }
}

proof fn lemma_count_none(gens: Seq<u16>, g: u16, n: int)
    requires
        0 <= n <= gens.len(),
        forall|p: int| 0 <= p < n ==> gens[p] != g,
    ensures
        count_gen(gens, g, n) == 0,
    decreases n,
{
    if n > 0 {
        lemma_count_none(gens, g, n - 1);
    }
}

proof fn lemma_count_update(gens: Seq<u16>, g: u16, n: int, q: int)
    requires
        0 <= q < n <= gens.len(),
        gens[q] != g,
    ensures
        count_gen(gens.update(q, g), g, n) == count_gen(gens, g, n) + 1,
    decreases n,
{
    if n - 1 > q {
        lemma_count_update(gens, g, n - 1, q);
    } else {
        lemma_count_same(gens, gens.update(q, g), g, q);
    }
}

proof fn lemma_count_same(a: Seq<u16>, b: Seq<u16>, g: u16, n: int)
    requires
        0 <= n <= a.len(),
        n <= b.len(),
        forall|p: int| 0 <= p < n ==> a[p] == b[p],
    ensures
        count_gen(a, g, n) == count_gen(b, g, n),
    decreases n,
{
    if n > 0 {
        lemma_count_same(a, b, g, n - 1);
    }
}

proof fn lemma_slot_dist(h: int, p: int)
    requires
        0 <= h < TABLE_CAP,
        0 <= p < TABLE_CAP,
    ensures
        0 <= dist(h, p) < TABLE_CAP,
        slot(h, dist(h, p)) == p,
{
}

/// A map from `i32` keys to `u16` values with room for [`TABLE_CAP`] keys,
/// using linear probing. A slot is in use when its generation equals the
/// table's current generation, so clearing only bumps that counter.
pub struct KeyIndexTable {
    keys: Vec<i32>,
    vals: Vec<u16>,
    gens: Vec<u16>,
    gen: u16,
}

impl View for KeyIndexTable {
    type V = Map<i32, u16>;

    /// The table as a map from keys to values.
    open spec fn view(&self) -> Map<i32, u16> {
        Map::new(|k: i32| self.spec_contains(k), |k: i32| self.spec_lookup(k))
    }
}

impl KeyIndexTable {
    /// Whether slot `p` holds an entry.
    pub closed spec fn occ(&self, p: int) -> bool {
        self.gens@[p] == self.gen
    }

    /// Whether some slot holds `key`.
    pub closed spec fn spec_contains(&self, key: i32) -> bool {
        exists|p: int| 0 <= p < TABLE_CAP && self.occ(p) && self.keys@[p] == key
    }

    /// The value stored with `key` (meaningful when the table holds `key`).
    pub closed spec fn spec_lookup(&self, key: i32) -> u16 {
        let p = choose|p: int| 0 <= p < TABLE_CAP && self.occ(p) && self.keys@[p] == key;
        self.vals@[p]
    }

    /// The number of slots in use.
    pub closed spec fn num_occupied(&self) -> int {
        count_gen(self.gens@, self.gen, TABLE_CAP as int)
    }

    /// The table's invariant: the arrays have [`TABLE_CAP`] slots, no slot is
    /// ahead of the current generation, each key is in one slot at most, and
    /// every slot between a key's home slot and its actual slot is in use.
    pub closed spec fn wf(&self) -> bool {
        &&& self.keys@.len() == TABLE_CAP
        &&& self.vals@.len() == TABLE_CAP
        &&& self.gens@.len() == TABLE_CAP
        &&& self.gen >= 1
        &&& forall|p: int| 0 <= p < TABLE_CAP ==> self.gens@[p] <= self.gen
        &&& forall|p: int, q: int|
            0 <= p < TABLE_CAP && 0 <= q < TABLE_CAP && #[trigger] self.occ(p) && #[trigger] self.occ(q)
                && self.keys@[p] == self.keys@[q] ==> p == q
        &&& forall|p: int, d: int|
            0 <= p < TABLE_CAP && #[trigger] self.occ(p) && 0 <= d < dist(
                spec_hash(self.keys@[p]),
                p,
            ) ==> #[trigger] self.occ(slot(spec_hash(self.keys@[p]), d))
    }

    proof fn lemma_lookup_at(&self, p: int)
        requires
            self.wf(),
            0 <= p < TABLE_CAP,
            self.occ(p),
        ensures
            self.spec_contains(self.keys@[p]),
            self.spec_lookup(self.keys@[p]) == self.vals@[p],
    {
        let k = self.keys@[p];
        assert(0 <= p < TABLE_CAP && self.occ(p) && self.keys@[p] == k);
        let q = choose|q: int| 0 <= q < TABLE_CAP && self.occ(q) && self.keys@[q] == k;
        assert(self.occ(q) && self.occ(p));
    }

    /// Creates an empty table.
    pub fn new() -> (r: Self)
        ensures
            r.wf(),
            r@ == Map::<i32, u16>::empty(),
            r.num_occupied() == 0,
    {
        let r = KeyIndexTable {
            keys: vec![0i32; TABLE_CAP],
            vals: vec![0u16; TABLE_CAP],
            gens: vec![0u16; TABLE_CAP],
            gen: 1,
        };
        proof {
            assert forall|p: int| 0 <= p < TABLE_CAP implies r.gens@[p] == 0 by {
                assert(cloned(0u16, r.gens@[p]));
            }
            lemma_count_none(r.gens@, r.gen, TABLE_CAP as int);
            assert(r@ =~= Map::<i32, u16>::empty());
        }
        r
    }

    /// Removes every entry.
    pub fn clear(&mut self)
        requires
            old(self).wf(),
        ensures
            final(self).wf(),
            final(self)@ == Map::<i32, u16>::empty(),
            final(self).num_occupied() == 0,
    {
        self.gen = self.gen.wrapping_add(1);
        if self.gen == 0 {
            let mut i: usize = 0;
            while i < TABLE_CAP
                invariant
                    i <= TABLE_CAP,
                    self.gens@.len() == TABLE_CAP,
                    self.keys@.len() == TABLE_CAP,
                    self.vals@.len() == TABLE_CAP,
                    forall|p: int| 0 <= p < i ==> self.gens@[p] == 0,
                decreases TABLE_CAP - i,
            {
                self.gens.set(i, 0);
                i += 1;
            }
            self.gen = 1;
        }
        proof {
            assert forall|p: int| 0 <= p < TABLE_CAP implies self.gens@[p] != self.gen
                && self.gens@[p] <= self.gen by {}
            assert forall|p: int| 0 <= p < TABLE_CAP implies !#[trigger] self.occ(p) by {}
            lemma_count_none(self.gens@, self.gen, TABLE_CAP as int);
            assert forall|k: i32| !self.spec_contains(k) by {
                if self.spec_contains(k) {
                    let p = choose|p: int| 0 <= p < TABLE_CAP && self.occ(p) && self.keys@[p] == k;
                    assert(self.gens@[p] != self.gen);
                }
            }
            assert(self@ =~= Map::<i32, u16>::empty());
        }
    }

    /// The home slot of `key`.
    pub fn hash(key: i32) -> (r: usize)
        ensures
            r == spec_hash(key),
            r < TABLE_CAP,
    {
        let k = key as u32;
        let m = k.wrapping_mul(2654435761u32);
        let r = (m as usize) & (TABLE_CAP - 1);
        assert((m as usize) & 2047usize == (m as usize) % 2048usize) by (bit_vector);
        r
    }

    /// The slot after `pos`, wrapping around the table.
    fn next_slot(pos: usize) -> (r: usize)
        requires
            pos < TABLE_CAP,
        ensures
            r == slot(pos as int, 1),
    {
        let n = pos + 1;
        let r = n & (TABLE_CAP - 1);
        assert(1 <= n <= 2048usize ==> n & 2047usize == if n < 2048usize {
            n
        } else {
            0usize
        }) by (bit_vector);
        r
    }

    /// Probes for `key` from its home slot. Returns the slot holding `key`,
    /// or else the first free slot on its probe path.
    fn probe(&self, key: i32) -> (pos: usize)
        requires
            self.wf(),
            self@.contains_key(key) || self.num_occupied() < TABLE_CAP,
        ensures
            pos < TABLE_CAP,
            self.occ(pos as int) ==> self.keys@[pos as int] == key,
            !self.occ(pos as int) ==> !self@.contains_key(key),
            dist(spec_hash(key), pos as int) < TABLE_CAP,
            forall|e: int|
                0 <= e < dist(spec_hash(key), pos as int) ==> #[trigger] self.occ(
                    slot(spec_hash(key), e),
                ),
    {
        let h = Self::hash(key);
        let mut pos = h;
        let ghost mut d: int = 0;
        loop
            invariant
                self.wf(),
                self@.contains_key(key) || self.num_occupied() < TABLE_CAP,
                h == spec_hash(key),
                0 <= d < TABLE_CAP,
                pos == slot(h as int, d),
                forall|e: int|
                    0 <= e < d ==> #[trigger] self.occ(slot(h as int, e)) && self.keys@[slot(
                        h as int,
                        e,
                    )] != key,
            decreases TABLE_CAP - d,
        {
            if self.gens[pos] != self.gen {
                proof {
                    lemma_slot_dist(h as int, pos as int);
                    assert(dist(h as int, pos as int) == d);
                    if self@.contains_key(key) {
                        let p = choose|p: int|
                            0 <= p < TABLE_CAP && self.occ(p) && self.keys@[p] == key;
                        lemma_slot_dist(h as int, p);
                        let dp = dist(h as int, p);
                        if dp < d {
                            assert(self.occ(slot(h as int, dp)));
                        } else if dp > d {
                            assert(self.occ(slot(spec_hash(self.keys@[p]), d)));
                        }
                    }
                }
                return pos;
            }
            if self.keys[pos] == key {
                proof {
                    lemma_slot_dist(h as int, pos as int);
                }
                return pos;
            }
            proof {
                if d + 1 == TABLE_CAP {
                    assert forall|p: int| 0 <= p < TABLE_CAP implies self.gens@[p] == self.gen
                        && self.keys@[p] != key by {
                        lemma_slot_dist(h as int, p);
                        let dp = dist(h as int, p);
                        if dp < d {
                            assert(self.occ(slot(h as int, dp)));
                        }
                    }
                    lemma_count_all(self.gens@, self.gen, TABLE_CAP as int);
                    if self@.contains_key(key) {
                        let p = choose|p: int|
                            0 <= p < TABLE_CAP && self.occ(p) && self.keys@[p] == key;
                        assert(self.keys@[p] != key);
                    }
                    assert(false);
                }
            }
            pos = Self::next_slot(pos);
            proof {
                d = d + 1;
            }
        }
    }

    /// Looks up `key`.
    pub fn get(&self, key: i32) -> (r: Option<u16>)
        requires
            self.wf(),
            self@.contains_key(key) || self.num_occupied() < TABLE_CAP,
        ensures
            r == (if self@.contains_key(key) {
                Some(self@[key])
            } else {
                None
            }),
    {
        let pos = self.probe(key);
        if self.gens[pos] != self.gen {
            None
        } else {
            proof {
                self.lemma_lookup_at(pos as int);
            }
            Some(self.vals[pos])
        }
    }

    /// Whether the table holds `key`.
    pub fn contains(&self, key: i32) -> (r: bool)
        requires
            self.wf(),
            self@.contains_key(key) || self.num_occupied() < TABLE_CAP,
        ensures
            r == self@.contains_key(key),
    {
        self.get(key).is_some()
    }

    /// Stores `val` under `key`, replacing any earlier value.
    pub fn insert(&mut self, key: i32, val: u16)
        requires
            old(self).wf(),
            old(self)@.contains_key(key) || old(self).num_occupied() < TABLE_CAP,
        ensures
            final(self).wf(),
            final(self)@ == old(self)@.insert(key, val),
            final(self).num_occupied() == old(self).num_occupied() + if old(self)@.contains_key(
                key,
            ) {
                0int
            } else {
                1int
            },
    {
        let pos = self.probe(key);
        let ghost old_self = *self;
        if self.gens[pos] != self.gen {
            let g = self.gen;
            self.gens.set(pos, g);
            self.keys.set(pos, key);
            self.vals.set(pos, val);
            proof {
                lemma_count_update(old_self.gens@, g, TABLE_CAP as int, pos as int);
                assert forall|p: int, q: int|
                    0 <= p < TABLE_CAP && 0 <= q < TABLE_CAP && #[trigger] self.occ(p)
                        && #[trigger] self.occ(q) && self.keys@[p] == self.keys@[q] implies p
                    == q by {
                    if p != q {
                        if p == pos {
                            assert(old_self.occ(q));
                            assert(old_self@.contains_key(key));
                        } else if q == pos {
                            assert(old_self.occ(p));
                            assert(old_self@.contains_key(key));
                        } else {
                            assert(old_self.occ(p) && old_self.occ(q));
                        }
                    }
                }
                assert forall|p: int, d: int|
                    0 <= p < TABLE_CAP && #[trigger] self.occ(p) && 0 <= d < dist(
                        spec_hash(self.keys@[p]),
                        p,
                    ) implies #[trigger] self.occ(slot(spec_hash(self.keys@[p]), d)) by {
                    if p != pos {
                        assert(old_self.occ(p));
                        assert(old_self.occ(slot(spec_hash(old_self.keys@[p]), d)));
                    } else {
                        assert(old_self.occ(slot(spec_hash(key), d)));
                    }
                }
                assert(self.occ(pos as int));
                self.lemma_lookup_at(pos as int);
                assert forall|k: i32| k != key implies self.spec_contains(k)
                    == old_self.spec_contains(k) && (self.spec_contains(k) ==> self.spec_lookup(k)
                    == old_self.spec_lookup(k)) by {
                    if self.spec_contains(k) {
                        let p = choose|p: int|
                            0 <= p < TABLE_CAP && self.occ(p) && self.keys@[p] == k;
                        assert(old_self.occ(p));
                        self.lemma_lookup_at(p);
                        old_self.lemma_lookup_at(p);
                    }
                    if old_self.spec_contains(k) {
                        let p = choose|p: int|
                            0 <= p < TABLE_CAP && old_self.occ(p) && old_self.keys@[p] == k;
                        assert(self.occ(p));
                    }
                }
                assert(self@ =~= old_self@.insert(key, val));
            }
        } else {
            self.vals.set(pos, val);
            proof {
                lemma_count_same(old_self.gens@, self.gens@, self.gen, TABLE_CAP as int);
                assert(old_self.occ(pos as int));
                old_self.lemma_lookup_at(pos as int);
                assert forall|p: int, q: int|
                    0 <= p < TABLE_CAP && 0 <= q < TABLE_CAP && #[trigger] self.occ(p)
                        && #[trigger] self.occ(q) && self.keys@[p] == self.keys@[q] implies p
                    == q by {
                    assert(old_self.occ(p) && old_self.occ(q));
                }
                assert forall|p: int, d: int|
                    0 <= p < TABLE_CAP && #[trigger] self.occ(p) && 0 <= d < dist(
                        spec_hash(self.keys@[p]),
                        p,
                    ) implies #[trigger] self.occ(slot(spec_hash(self.keys@[p]), d)) by {
                    assert(old_self.occ(p));
                    assert(old_self.occ(slot(spec_hash(old_self.keys@[p]), d)));
                }
                self.lemma_lookup_at(pos as int);
                assert forall|k: i32| k != key implies self.spec_contains(k)
                    == old_self.spec_contains(k) && (self.spec_contains(k) ==> self.spec_lookup(k)
                    == old_self.spec_lookup(k)) by {
                    if self.spec_contains(k) {
                        let p = choose|p: int|
                            0 <= p < TABLE_CAP && self.occ(p) && self.keys@[p] == k;
                        assert(old_self.occ(p));
                        self.lemma_lookup_at(p);
                        old_self.lemma_lookup_at(p);
                    }
                    if old_self.spec_contains(k) {
                        let p = choose|p: int|
                            0 <= p < TABLE_CAP && old_self.occ(p) && old_self.keys@[p] == k;
                        assert(self.occ(p));
                    }
                }
                assert(self@ =~= old_self@.insert(key, val));
            }
        }
    }
}

impl Default for KeyIndexTable {
    fn default() -> (r: Self)
        ensures
            r.wf(),
            r@ == Map::<i32, u16>::empty(),
            r.num_occupied() == 0,
    {
        Self::new()
    }
}

} // verus!
