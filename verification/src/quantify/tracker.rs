//! Losses and weights of every pair of items, of every item and the container, and of every item
//! and every hole of the container.
use crate::keymap;
use crate::keymap::KeyMap;
use crate::optimizer::bpp::layouts::PItemKey;
use crate::scalar::{Scalar, ONE_BITS, ZERO_BITS};
use vstd::prelude::*;

verus! {

/// Loss and weight of one pair of hazards.
#[derive(Debug, Clone, Copy, PartialEq, Eq, Structural)]
pub struct CTEntry {
    /// How badly they collide; `0` if they do not.
    pub loss: Scalar,
    /// How much the collision counts.
    pub weight: Scalar,
}

/// The entry of a pair that never collided.
pub open spec fn blank() -> CTEntry {
    CTEntry { loss: Scalar { bits: ZERO_BITS }, weight: Scalar { bits: ONE_BITS } }
}

/// The entry with another loss.
pub open spec fn with_loss(e: CTEntry, loss: Scalar) -> CTEntry {
    CTEntry { loss, ..e }
}

/// Something that an item collides with, and how badly.
#[derive(Debug, Clone, Copy, PartialEq, Eq, Structural)]
pub enum Hazard {
    /// Another item.
    PlacedItem {
        /// Its key.
        key: PItemKey,
        /// The loss.
        loss: Scalar,
    },
    /// The outside of the container.
    Exterior {
        /// The loss.
        loss: Scalar,
    },
    /// A hole of the container.
    Hole {
        /// Index of the hole.
        index: usize,
        /// The loss.
        loss: Scalar,
    },
}

/// Books about the collisions of one layout.
pub struct CollisionTracker {
    /// How many items there are.
    pub n_items: usize,
    /// The items: the one at position `i` has index `i`.
    pub keys: Ghost<Seq<PItemKey>>,
    /// The index of every item.
    pub index: KeyMap,
    /// The pairs of items: row `i` holds the pairs of item `i` with the items `0..=i`.
    pub pairs: Vec<Vec<CTEntry>>,
    /// The items and the container.
    pub container: Vec<CTEntry>,
    /// How many holes there are.
    pub n_holes: usize,
    /// The items and the holes, one row per item.
    pub holes: Vec<Vec<CTEntry>>,
}

/// The keys of the items of one layout: each can stand for an item, and no two share a slot.
pub open spec fn sound_keys(keys: Seq<PItemKey>) -> bool {
    &&& forall|i: int| 0 <= i < keys.len() ==> keymap::valid((#[trigger] keys[i]).rank)
    &&& forall|i: int, j: int|
        0 <= i < j < keys.len() ==> keymap::slot_of((#[trigger] keys[i]).rank) != keymap::slot_of(
            (#[trigger] keys[j]).rank,
        )
}

/// The map gives every item its index, and holds nothing else.
pub open spec fn indexes(m: KeyMap, keys: Seq<PItemKey>) -> bool {
    &&& forall|i: int|
        0 <= i < keys.len() ==> m.slots().contains_key(
            keymap::slot_of((#[trigger] keys[i]).rank),
        ) && m.slots()[keymap::slot_of(keys[i].rank)] == (
            keymap::version_of(keys[i].rank),
            i as usize,
        )
    &&& forall|slot: u32| #[trigger]
        m.slots().contains_key(slot) ==> exists|i: int|
            0 <= i < keys.len() && keymap::slot_of((#[trigger] keys[i]).rank) == slot
}

impl CollisionTracker {
    /// Every table has a row for every item, and every row has the right length; every item is found
    /// by its key.
    pub open spec fn wf(self) -> bool {
        &&& self.n_items == self.keys@.len()
        &&& sound_keys(self.keys@)
        &&& indexes(self.index, self.keys@)
        &&& self.pairs@.len() == self.keys@.len()
        &&& self.container@.len() == self.keys@.len()
        &&& self.holes@.len() == self.keys@.len()
        &&& forall|i: int| 0 <= i < self.pairs@.len() ==> (#[trigger] self.pairs@[i])@.len() == i + 1
        &&& forall|i: int|
            0 <= i < self.holes@.len() ==> (#[trigger] self.holes@[i])@.len() == self.n_holes
    }

    /// How many items there are.
    pub open spec fn size(self) -> nat {
        self.keys@.len()
    }

    /// The entry of two items.
    pub open spec fn pair(self, i: int, j: int) -> CTEntry {
        if i >= j {
            self.pairs@[i]@[j]
        } else {
            self.pairs@[j]@[i]
        }
    }

    /// The entry of an item and a hole.
    pub open spec fn hole(self, i: int, h: int) -> CTEntry {
        self.holes@[i]@[h]
    }

    /// The index of an item.
    pub open spec fn index_of(self, key: PItemKey) -> int {
        self.keys@.index_of(key)
    }

    /// Nothing about this item is known: all of its losses are `0`.
    pub open spec fn cleared(self, before: CollisionTracker, idx: int) -> bool {
        let zero = Scalar { bits: ZERO_BITS };
        &&& forall|i: int, j: int|
            0 <= i < self.size() && 0 <= j < self.size() ==> #[trigger] self.pair(i, j) == (if i
                == idx || j == idx {
                with_loss(before.pair(i, j), zero)
            } else {
                before.pair(i, j)
            })
        &&& forall|i: int|
            0 <= i < self.size() ==> #[trigger] self.container@[i] == (if i == idx {
                with_loss(before.container@[i], zero)
            } else {
                before.container@[i]
            })
        &&& forall|i: int, h: int|
            0 <= i < self.size() && 0 <= h < self.n_holes ==> #[trigger] self.hole(i, h) == (if i
                == idx {
                with_loss(before.hole(i, h), zero)
            } else {
                before.hole(i, h)
            })
    }
}

fn blank_row(n: usize) -> (r: Vec<CTEntry>)
    ensures
        r@.len() == n,
        forall|i: int| 0 <= i < n ==> #[trigger] r@[i] == blank(),
{
    let mut r: Vec<CTEntry> = Vec::new();
    let mut i: usize = 0;
    while i < n
        invariant
            i <= n,
            r@.len() == i,
            forall|k: int| 0 <= k < i ==> #[trigger] r@[k] == blank(),
        decreases n - i,
    {
        r.push(
            CTEntry { loss: Scalar { bits: ZERO_BITS }, weight: Scalar { bits: ONE_BITS } },
        );
        i = i + 1;
    }
    r
}

proof fn lemma_lookup(m: KeyMap, keys: Seq<PItemKey>, key: PItemKey)
    requires
        sound_keys(keys),
        indexes(m, keys),
        keys.len() <= usize::MAX,
    ensures
        match m.at(key.rank) {
            Some(i) => i < keys.len() && keys[i as int] == key && keys.index_of(key) == i,
            None => !keys.contains(key),
        },
{
    let slot = keymap::slot_of(key.rank);
    if m.at(key.rank) is Some {
        let i = choose|i: int|
            0 <= i < keys.len() && keymap::slot_of((#[trigger] keys[i]).rank) == slot;
        keymap::lemma_same_key(keys[i].rank, key.rank);
        assert(keys[i] == key);
        assert(keys.contains(key));
        let j = keys.index_of(key);
        assert(keys[j] == key);
        if i != j {
            assert(keymap::slot_of(keys[i].rank) != keymap::slot_of(keys[j].rank));
        }
    } else if keys.contains(key) {
        let i = choose|i: int| 0 <= i < keys.len() && keys[i] == key;
        assert(keymap::valid(keys[i].rank));
        assert(m.slots().contains_key(keymap::slot_of(keys[i].rank)));
    }
}

proof fn lemma_indexes_one_more(before: KeyMap, after: KeyMap, keys: Seq<PItemKey>, n: int)
    requires
        sound_keys(keys),
        0 <= n < keys.len() <= usize::MAX,
        indexes(before, keys.take(n)),
        after.slots() == before.slots().insert(
            keymap::slot_of(keys[n].rank),
            (keymap::version_of(keys[n].rank), n as usize),
        ),
    ensures
        indexes(after, keys.take(n + 1)),
{
    let (old_keys, new_keys) = (keys.take(n), keys.take(n + 1));
    assert forall|i: int| 0 <= i < new_keys.len() implies after.slots().contains_key(
        keymap::slot_of((#[trigger] new_keys[i]).rank),
    ) && after.slots()[keymap::slot_of(new_keys[i].rank)] == (
        keymap::version_of(new_keys[i].rank),
        i as usize,
    ) by {
        assert(new_keys[i] == keys[i]);
        if i < n {
            assert(old_keys[i] == keys[i]);
            assert(before.slots().contains_key(keymap::slot_of(old_keys[i].rank)));
            assert(keymap::slot_of(keys[i].rank) != keymap::slot_of(keys[n].rank));
        }
    }
    assert forall|slot: u32| #[trigger] after.slots().contains_key(slot) implies exists|i: int|
        0 <= i < new_keys.len() && keymap::slot_of((#[trigger] new_keys[i]).rank) == slot by {
        if before.slots().contains_key(slot) {
            let i = choose|i: int|
                0 <= i < old_keys.len() && keymap::slot_of((#[trigger] old_keys[i]).rank) == slot;
            assert(new_keys[i] == old_keys[i]);
        } else {
            assert(new_keys[n] == keys[n]);
        }
    }
}

proof fn lemma_indexes_exchanged(
    before: KeyMap,
    after: KeyMap,
    keys: Seq<PItemKey>,
    idx: int,
    new_key: PItemKey,
)
    requires
        sound_keys(keys),
        indexes(before, keys),
        0 <= idx < keys.len() <= usize::MAX,
        keymap::valid(new_key.rank),
        forall|i: int|
            0 <= i < keys.len() && i != idx ==> keymap::slot_of((#[trigger] keys[i]).rank)
                != keymap::slot_of(new_key.rank),
        after.slots() == before.slots().remove(keymap::slot_of(keys[idx].rank)).insert(
            keymap::slot_of(new_key.rank),
            (keymap::version_of(new_key.rank), idx as usize),
        ),
    ensures
        sound_keys(keys.update(idx, new_key)),
        indexes(after, keys.update(idx, new_key)),
{
    let new_keys = keys.update(idx, new_key);
    assert forall|i: int| 0 <= i < new_keys.len() implies keymap::valid(
        (#[trigger] new_keys[i]).rank,
    ) by {
        if i != idx {
            assert(new_keys[i] == keys[i]);
        }
    }
    assert forall|i: int, j: int| 0 <= i < j < new_keys.len() implies keymap::slot_of(
        (#[trigger] new_keys[i]).rank,
    ) != keymap::slot_of((#[trigger] new_keys[j]).rank) by {
        assert(i != idx ==> new_keys[i] == keys[i]);
        assert(j != idx ==> new_keys[j] == keys[j]);
        assert(keymap::slot_of(keys[i].rank) != keymap::slot_of(keys[j].rank));
    }
    assert forall|i: int| 0 <= i < new_keys.len() implies after.slots().contains_key(
        keymap::slot_of((#[trigger] new_keys[i]).rank),
    ) && after.slots()[keymap::slot_of(new_keys[i].rank)] == (
        keymap::version_of(new_keys[i].rank),
        i as usize,
    ) by {
        if i != idx {
            assert(new_keys[i] == keys[i]);
            assert(before.slots().contains_key(keymap::slot_of(keys[i].rank)));
            assert(keymap::slot_of(keys[i].rank) != keymap::slot_of(keys[idx].rank)) by {
                if i < idx {
                    assert(keymap::slot_of(keys[i].rank) != keymap::slot_of(keys[idx].rank));
                } else {
                    assert(keymap::slot_of(keys[idx].rank) != keymap::slot_of(keys[i].rank));
                }
            }
        }
    }
    assert forall|slot: u32| #[trigger] after.slots().contains_key(slot) implies exists|i: int|
        0 <= i < new_keys.len() && keymap::slot_of((#[trigger] new_keys[i]).rank) == slot by {
        if slot == keymap::slot_of(new_key.rank) {
            assert(new_keys[idx] == new_key);
        } else {
            assert(before.slots().contains_key(slot));
            let i = choose|i: int|
                0 <= i < keys.len() && keymap::slot_of((#[trigger] keys[i]).rank) == slot;
            assert(i != idx);
            assert(new_keys[i] == keys[i]);
        }
    }
}

impl CollisionTracker {
    /// Books without any collision, for the given items and number of holes.
    pub fn new(keys: Vec<PItemKey>, n_holes: usize) -> (r: CollisionTracker)
        requires
            sound_keys(keys@),
            keys@.len() < usize::MAX,
        ensures
            r.wf(),
            r.keys@ == keys@,
            r.n_holes == n_holes,
            forall|i: int, j: int|
                0 <= i < keys@.len() && 0 <= j < keys@.len() ==> #[trigger] r.pair(i, j) == blank(),
            forall|i: int| 0 <= i < keys@.len() ==> #[trigger] r.container@[i] == blank(),
            forall|i: int, h: int|
                0 <= i < keys@.len() && 0 <= h < n_holes ==> #[trigger] r.hole(i, h) == blank(),
    {
        let n: usize = keys.len();
        let mut index = KeyMap::new();
        let mut pairs: Vec<Vec<CTEntry>> = Vec::new();
        let mut holes: Vec<Vec<CTEntry>> = Vec::new();
        let mut i: usize = 0;
        assert(keys@.take(0) =~= Seq::<PItemKey>::empty());
        while i < n
            invariant
                n < usize::MAX,
                n == keys@.len(),
                sound_keys(keys@),
                indexes(index, keys@.take(i as int)),
                i <= n,
                pairs@.len() == i,
                holes@.len() == i,
                forall|k: int| 0 <= k < i ==> (#[trigger] pairs@[k])@.len() == k + 1,
                forall|k: int, j: int|
                    0 <= k < i && 0 <= j <= k ==> #[trigger] pairs@[k]@[j] == blank(),
                forall|k: int| 0 <= k < i ==> (#[trigger] holes@[k])@.len() == n_holes,
                forall|k: int, h: int|
                    0 <= k < i && 0 <= h < n_holes ==> #[trigger] holes@[k]@[h] == blank(),
            decreases n - i,
        {
            pairs.push(blank_row(i + 1));
            holes.push(blank_row(n_holes));
            proof {
                let slot = keymap::slot_of(keys@[i as int].rank);
                if index.slots().contains_key(slot) {
                    let k = choose|k: int|
                        0 <= k < i && keymap::slot_of((#[trigger] keys@.take(i as int)[k]).rank)
                            == slot;
                    assert(keys@[k] == keys@.take(i as int)[k]);
                }
            }
            let ghost before = index;
            index.insert(keys[i].rank, i);
            proof {
                lemma_indexes_one_more(before, index, keys@, i as int);
            }
            i = i + 1;
        }
        assert(keys@.take(i as int) =~= keys@);
        CollisionTracker {
            n_items: n,
            keys: Ghost(keys@),
            index,
            pairs,
            container: blank_row(n),
            n_holes,
            holes,
        }
    }

    /// The index of an item.
    pub fn find(&self, key: PItemKey) -> (r: Option<usize>)
        requires
            self.wf(),
        ensures
            match r {
                Some(i) => i < self.size() && self.keys@[i as int] == key && self.index_of(key) == i,
                None => !self.keys@.contains(key),
            },
    {
        proof {
            lemma_lookup(self.index, self.keys@, key);
        }
        self.index.get(key.rank)
    }

    fn entry_of_pair(&self, i: usize, j: usize) -> (e: CTEntry)
        requires
            self.wf(),
            i < self.size(),
            j < self.size(),
        ensures
            e == self.pair(i as int, j as int),
    {
        if i >= j {
            self.pairs[i][j]
        } else {
            self.pairs[j][i]
        }
    }

    fn set_pair_loss(&mut self, i: usize, j: usize, loss: Scalar)
        requires
            old(self).wf(),
            i < old(self).size(),
            j < old(self).size(),
        ensures
            final(self).wf(),
            final(self).keys@ == old(self).keys@,
            final(self).n_holes == old(self).n_holes,
            final(self).container@ == old(self).container@,
            final(self).holes == old(self).holes,
            forall|a: int, b: int|
                0 <= a < old(self).size() && 0 <= b < old(self).size() ==> #[trigger] final(self).pair(a, b) == (if (a == i && b == j) || (a == j && b == i) {
                    with_loss(old(self).pair(a, b), loss)
                } else {
                    old(self).pair(a, b)
                }),
    {
        let (hi, lo): (usize, usize) = if i >= j {
            (i, j)
        } else {
            (j, i)
        };
        let e = self.pairs[hi][lo];
        self.pairs[hi][lo] = CTEntry { loss, weight: e.weight };
        proof {
            let before = *old(self);
            assert forall|a: int| 0 <= a < self.pairs@.len() implies (
            #[trigger] self.pairs@[a])@.len() == a + 1 by {
                if a != hi {
                    assert(self.pairs@[a] == before.pairs@[a]);
                }
            }
        }
    }

    fn set_hole_loss(&mut self, i: usize, h: usize, loss: Scalar)
        requires
            old(self).wf(),
            i < old(self).size(),
            h < old(self).n_holes,
        ensures
            final(self).wf(),
            final(self).keys@ == old(self).keys@,
            final(self).n_holes == old(self).n_holes,
            final(self).container@ == old(self).container@,
            final(self).pairs == old(self).pairs,
            forall|a: int, b: int|
                0 <= a < old(self).size() && 0 <= b < old(self).n_holes ==> #[trigger] final(self).hole(a, b) == (if a == i && b == h {
                    with_loss(old(self).hole(a, b), loss)
                } else {
                    old(self).hole(a, b)
                }),
    {
        let e = self.holes[i][h];
        self.holes[i][h] = CTEntry { loss, weight: e.weight };
        proof {
            let before = *old(self);
            assert forall|a: int| 0 <= a < self.holes@.len() implies (
            #[trigger] self.holes@[a])@.len() == self.n_holes by {
                if a != i {
                    assert(self.holes@[a] == before.holes@[a]);
                }
            }
        }
    }

    fn clear_item(&mut self, idx: usize)
        requires
            old(self).wf(),
            idx < old(self).size(),
        ensures
            final(self).wf(),
            final(self).keys@ == old(self).keys@,
            final(self).n_holes == old(self).n_holes,
            final(self).cleared(*old(self), idx as int),
    {
        let zero = Scalar { bits: ZERO_BITS };
        let n: usize = self.n_items;
        let mut i: usize = 0;
        while i < n
            invariant
                self.wf(),
                old(self).wf(),
                self.keys@ == old(self).keys@,
                self.n_holes == old(self).n_holes,
                self.container@ == old(self).container@,
                self.holes == old(self).holes,
                n == self.size(),
                idx < n,
                i <= n,
                zero == (Scalar { bits: ZERO_BITS }),
                forall|a: int, b: int|
                    0 <= a < n && 0 <= b < n ==> #[trigger] self.pair(a, b) == (if (a == idx && b
                        < i) || (b == idx && a < i) {
                        with_loss(old(self).pair(a, b), zero)
                    } else {
                        old(self).pair(a, b)
                    }),
            decreases n - i,
        {
            self.set_pair_loss(idx, i, zero);
            i = i + 1;
        }
        let ghost first = *self;
        let c = self.container[idx];
        self.container.set(idx, CTEntry { loss: zero, weight: c.weight });
        let ghost middle = *self;
        let mut h: usize = 0;
        while h < self.n_holes
            invariant
                self.wf(),
                self.keys@ == old(self).keys@,
                self.n_holes == old(self).n_holes,
                self.container@ == middle.container@,
                self.pairs == middle.pairs,
                middle.holes == old(self).holes,
                idx < self.size(),
                h <= self.n_holes,
                zero == (Scalar { bits: ZERO_BITS }),
                forall|a: int, b: int|
                    0 <= a < self.size() && 0 <= b < self.n_holes ==> #[trigger] self.hole(a, b)
                        == (if a == idx && b < h {
                        with_loss(old(self).hole(a, b), zero)
                    } else {
                        old(self).hole(a, b)
                    }),
            decreases self.n_holes - h,
        {
            self.set_hole_loss(idx, h, zero);
            h = h + 1;
        }
        proof {
            assert forall|a: int, b: int| 0 <= a < self.size() && 0 <= b < self.size() implies
                #[trigger] self.pair(a, b) == first.pair(a, b) by {}
        }
    }
}

/// The loss of item `idx` against item `j` after the first `m` hazards, if they say anything.
pub open spec fn pair_loss_in(
    hazards: Seq<Hazard>,
    key: PItemKey,
    m: nat,
) -> Option<Scalar>
    decreases m,
{
    if m == 0 {
        None
    } else {
        match hazards[m - 1] {
            Hazard::PlacedItem { key: k, loss } if k == key => Some(loss),
            _ => pair_loss_in(hazards, key, (m - 1) as nat),
        }
    }
}

/// The loss against the container after the first `m` hazards, if they say anything.
pub open spec fn container_loss_in(hazards: Seq<Hazard>, m: nat) -> Option<Scalar>
    decreases m,
{
    if m == 0 {
        None
    } else {
        match hazards[m - 1] {
            Hazard::Exterior { loss } => Some(loss),
            _ => container_loss_in(hazards, (m - 1) as nat),
        }
    }
}

/// The loss against a hole after the first `m` hazards, if they say anything.
pub open spec fn hole_loss_in(hazards: Seq<Hazard>, h: int, m: nat) -> Option<Scalar>
    decreases m,
{
    if m == 0 {
        None
    } else {
        match hazards[m - 1] {
            Hazard::Hole { index, loss } if index == h => Some(loss),
            _ => hole_loss_in(hazards, h, (m - 1) as nat),
        }
    }
}

/// The entry with the loss replaced, if there is one to replace it with.
pub open spec fn replaced(e: CTEntry, loss: Option<Scalar>) -> CTEntry {
    match loss {
        Some(l) => with_loss(e, l),
        None => e,
    }
}

/// A loss of a collision is greater than `0`.
pub open spec fn positive(loss: Scalar) -> bool {
    !loss.nan() && loss.value() > 0
}

/// Every hazard is a hole of the container, the exterior, or another item of the layout, and every
/// collision has a loss.
pub open spec fn hazards_known(t: CollisionTracker, key: PItemKey, hazards: Seq<Hazard>) -> bool {
    forall|i: int|
        0 <= i < hazards.len() ==> match #[trigger] hazards[i] {
            Hazard::PlacedItem { key: k, loss } => k != key && t.keys@.contains(k) && positive(
                loss,
            ),
            Hazard::Hole { index, loss } => index < t.n_holes && positive(loss),
            Hazard::Exterior { loss } => positive(loss),
        }
}

impl CollisionTracker {
    /// The books after the first `m` hazards of item `idx` were entered.
    pub open spec fn entered(
        self,
        before: CollisionTracker,
        idx: int,
        hazards: Seq<Hazard>,
        m: nat,
    ) -> bool {
        &&& forall|i: int, j: int|
            0 <= i < self.size() && 0 <= j < self.size() ==> #[trigger] self.pair(i, j) == (if i
                == idx {
                replaced(before.pair(i, j), pair_loss_in(hazards, self.keys@[j], m))
            } else if j == idx {
                replaced(before.pair(i, j), pair_loss_in(hazards, self.keys@[i], m))
            } else {
                before.pair(i, j)
            })
        &&& forall|i: int|
            0 <= i < self.size() ==> #[trigger] self.container@[i] == (if i == idx {
                replaced(before.container@[i], container_loss_in(hazards, m))
            } else {
                before.container@[i]
            })
        &&& forall|i: int, h: int|
            0 <= i < self.size() && 0 <= h < self.n_holes ==> #[trigger] self.hole(i, h) == (if i
                == idx {
                replaced(before.hole(i, h), hole_loss_in(hazards, h, m))
            } else {
                before.hole(i, h)
            })
    }

    /// Enters the losses of an item. What the hazards say nothing about stays as it is.
    pub fn store_losses_for_item(&mut self, key: PItemKey, hazards: &Vec<Hazard>)
        requires
            old(self).wf(),
            old(self).keys@.contains(key),
            hazards_known(*old(self), key, hazards@),
        ensures
            final(self).wf(),
            final(self).keys@ == old(self).keys@,
            final(self).n_holes == old(self).n_holes,
            final(self).entered(
                *old(self),
                old(self).index_of(key),
                hazards@,
                hazards@.len(),
            ),
    {
        let idx: usize = self.find(key).unwrap();
        let mut m: usize = 0;
        while m < hazards.len()
            invariant
                m <= hazards@.len(),
                self.wf(),
                self.keys@ == old(self).keys@,
                self.n_holes == old(self).n_holes,
                idx < self.size(),
                self.keys@[idx as int] == key,
                hazards_known(*old(self), key, hazards@),
                self.entered(*old(self), idx as int, hazards@, m as nat),
            decreases hazards@.len() - m,
        {
            let ghost before = *self;
            match hazards[m] {
                Hazard::PlacedItem { key: other, loss } => {
                    let j: usize = self.find(other).unwrap();
                    self.set_pair_loss(idx, j, loss);
                    proof {
                        assert forall|a: int, b: int|
                            0 <= a < self.size() && 0 <= b < self.size() implies #[trigger] self.pair(
                            a,
                            b,
                        ) == (if a == idx {
                            replaced(
                                old(self).pair(a, b),
                                pair_loss_in(hazards@, self.keys@[b], (m + 1) as nat),
                            )
                        } else if b == idx {
                            replaced(
                                old(self).pair(a, b),
                                pair_loss_in(hazards@, self.keys@[a], (m + 1) as nat),
                            )
                        } else {
                            old(self).pair(a, b)
                        }) by {
                            assert(before.pair(a, b) == before.pair(a, b));
                        }
                        assert forall|a: int, b: int|
                            0 <= a < self.size() && 0 <= b
                                < self.n_holes implies #[trigger] self.hole(a, b) == before.hole(
                            a,
                            b,
                        ) by {}
                    }
                },
                Hazard::Exterior { loss } => {
                    let c = self.container[idx];
                    self.container.set(idx, CTEntry { loss, weight: c.weight });
                    assert forall|a: int, b: int|
                        0 <= a < self.size() && 0 <= b < self.size() implies #[trigger] self.pair(
                        a,
                        b,
                    ) == before.pair(a, b) by {}
                    assert forall|a: int, b: int|
                        0 <= a < self.size() && 0 <= b < self.n_holes implies #[trigger] self.hole(
                        a,
                        b,
                    ) == before.hole(a, b) by {}
                },
                Hazard::Hole { index, loss } => {
                    self.set_hole_loss(idx, index, loss);
                    assert forall|a: int, b: int|
                        0 <= a < self.size() && 0 <= b < self.size() implies #[trigger] self.pair(
                        a,
                        b,
                    ) == before.pair(a, b) by {}
                },
            }
            m = m + 1;
        }
    }
}

/// The books after an item was moved: its losses are what the hazards say and `0` otherwise, its
/// weights and everything else stay as they were.
pub open spec fn moved(
    t: CollisionTracker,
    before: CollisionTracker,
    idx: int,
    hazards: Seq<Hazard>,
) -> bool {
    let n = hazards.len();
    let zero = Scalar { bits: ZERO_BITS };
    &&& forall|i: int, j: int|
        0 <= i < t.size() && 0 <= j < t.size() ==> #[trigger] t.pair(i, j) == (if i == idx {
            replaced(with_loss(before.pair(i, j), zero), pair_loss_in(hazards, t.keys@[j], n))
        } else if j == idx {
            replaced(with_loss(before.pair(i, j), zero), pair_loss_in(hazards, t.keys@[i], n))
        } else {
            before.pair(i, j)
        })
    &&& forall|i: int|
        0 <= i < t.size() ==> #[trigger] t.container@[i] == (if i == idx {
            replaced(with_loss(before.container@[i], zero), container_loss_in(hazards, n))
        } else {
            before.container@[i]
        })
    &&& forall|i: int, h: int|
        0 <= i < t.size() && 0 <= h < t.n_holes ==> #[trigger] t.hole(i, h) == (if i == idx {
            replaced(with_loss(before.hole(i, h), zero), hole_loss_in(hazards, h, n))
        } else {
            before.hole(i, h)
        })
}

/// Two books say the same.
pub open spec fn same_books(a: CollisionTracker, b: CollisionTracker) -> bool {
    &&& a.keys@ == b.keys@
    &&& a.n_holes == b.n_holes
    &&& forall|i: int, j: int|
        0 <= i < b.size() && 0 <= j < b.size() ==> #[trigger] a.pair(i, j) == b.pair(i, j)
    &&& forall|i: int| 0 <= i < b.size() ==> #[trigger] a.container@[i] == b.container@[i]
    &&& forall|i: int, h: int|
        0 <= i < b.size() && 0 <= h < b.n_holes ==> #[trigger] a.hole(i, h) == b.hole(i, h)
}

/// The books after a snapshot was restored: the items and the losses are those of the snapshot, the
/// weights stay.
pub open spec fn restored(
    after: CollisionTracker,
    before: CollisionTracker,
    snapshot: CollisionTracker,
) -> bool {
    &&& after.keys@ == snapshot.keys@
    &&& after.n_holes == before.n_holes
    &&& forall|i: int, j: int|
        0 <= i < snapshot.size() && 0 <= j < snapshot.size() ==> #[trigger] after.pair(i, j)
            == losses_from(before.pair(i, j), snapshot.pair(i, j))
    &&& forall|i: int|
        0 <= i < snapshot.size() ==> #[trigger] after.container@[i] == losses_from(
            before.container@[i],
            snapshot.container@[i],
        )
    &&& forall|i: int, h: int|
        0 <= i < snapshot.size() && 0 <= h < snapshot.n_holes ==> #[trigger] after.hole(i, h)
            == losses_from(before.hole(i, h), snapshot.hole(i, h))
}

/// **Restoring undoes what happened to the losses since the books were saved**: the losses are those
/// of the time of the save, and the weights those of now. Restoring a copy of the books as they are
/// changes nothing.
pub proof fn lemma_save_then_restore(
    saved: CollisionTracker,
    snapshot: CollisionTracker,
    now: CollisionTracker,
    after: CollisionTracker,
)
    requires
        same_books(snapshot, saved),
        now.size() == saved.size(),
        now.n_holes == saved.n_holes,
        restored(after, now, snapshot),
    ensures
        after.keys@ == saved.keys@,
        forall|i: int, j: int|
            0 <= i < saved.size() && 0 <= j < saved.size() ==> #[trigger] after.pair(i, j)
                == losses_from(now.pair(i, j), saved.pair(i, j)),
        forall|i: int|
            0 <= i < saved.size() ==> #[trigger] after.container@[i] == losses_from(
                now.container@[i],
                saved.container@[i],
            ),
        forall|i: int, h: int|
            0 <= i < saved.size() && 0 <= h < saved.n_holes ==> #[trigger] after.hole(i, h)
                == losses_from(now.hole(i, h), saved.hole(i, h)),
        same_books(now, saved) ==> same_books(after, saved),
{
    assert forall|i: int, j: int|
        0 <= i < saved.size() && 0 <= j < saved.size() implies #[trigger] after.pair(i, j)
        == losses_from(now.pair(i, j), saved.pair(i, j)) by {
        assert(snapshot.pair(i, j) == saved.pair(i, j));
    }
    assert forall|i: int| 0 <= i < saved.size() implies #[trigger] after.container@[i]
        == losses_from(now.container@[i], saved.container@[i]) by {
        assert(snapshot.container@[i] == saved.container@[i]);
    }
    assert forall|i: int, h: int|
        0 <= i < saved.size() && 0 <= h < saved.n_holes implies #[trigger] after.hole(i, h)
        == losses_from(now.hole(i, h), saved.hole(i, h)) by {
        assert(snapshot.hole(i, h) == saved.hole(i, h));
    }
    if same_books(now, saved) {
        assert forall|i: int, j: int|
            0 <= i < saved.size() && 0 <= j < saved.size() implies #[trigger] after.pair(i, j)
            == saved.pair(i, j) by {
            assert(now.pair(i, j) == saved.pair(i, j));
        }
        assert forall|i: int| 0 <= i < saved.size() implies #[trigger] after.container@[i]
            == saved.container@[i] by {
            assert(now.container@[i] == saved.container@[i]);
        }
        assert forall|i: int, h: int|
            0 <= i < saved.size() && 0 <= h < saved.n_holes implies #[trigger] after.hole(i, h)
            == saved.hole(i, h) by {
            assert(now.hole(i, h) == saved.hole(i, h));
        }
    }
}

/// The losses are those of another tracker, the weights stay.
pub open spec fn losses_from(e: CTEntry, other: CTEntry) -> CTEntry {
    CTEntry { loss: other.loss, weight: e.weight }
}

impl CollisionTracker {
    /// Replaces the losses of an item by what the hazards say.
    fn recompute_loss_for_item(&mut self, key: PItemKey, hazards: &Vec<Hazard>)
        requires
            old(self).wf(),
            old(self).keys@.contains(key),
            hazards_known(*old(self), key, hazards@),
        ensures
            final(self).wf(),
            final(self).keys@ == old(self).keys@,
            final(self).n_holes == old(self).n_holes,
            moved(*final(self), *old(self), old(self).index_of(key), hazards@),
    {
        let idx: usize = self.find(key).unwrap();
        self.clear_item(idx);
        let ghost middle = *self;
        self.store_losses_for_item(key, hazards);
        proof {
            assert forall|i: int, j: int|
                0 <= i < self.size() && 0 <= j < self.size() implies #[trigger] self.pair(i, j) == (
            if i == idx {
                replaced(
                    with_loss(old(self).pair(i, j), Scalar { bits: ZERO_BITS }),
                    pair_loss_in(hazards@, self.keys@[j], hazards@.len()),
                )
            } else if j == idx {
                replaced(
                    with_loss(old(self).pair(i, j), Scalar { bits: ZERO_BITS }),
                    pair_loss_in(hazards@, self.keys@[i], hazards@.len()),
                )
            } else {
                old(self).pair(i, j)
            }) by {
                assert(middle.pair(i, j) == middle.pair(i, j));
            }
            assert forall|i: int| 0 <= i < self.size() implies #[trigger] self.container@[i] == (if i
                == idx {
                replaced(
                    with_loss(old(self).container@[i], Scalar { bits: ZERO_BITS }),
                    container_loss_in(hazards@, hazards@.len()),
                )
            } else {
                old(self).container@[i]
            }) by {
                assert(middle.container@[i] == middle.container@[i]);
            }
            assert forall|i: int, h: int|
                0 <= i < self.size() && 0 <= h < self.n_holes implies #[trigger] self.hole(i, h) == (
            if i == idx {
                replaced(
                    with_loss(old(self).hole(i, h), Scalar { bits: ZERO_BITS }),
                    hole_loss_in(hazards@, h, hazards@.len()),
                )
            } else {
                old(self).hole(i, h)
            }) by {
                assert(middle.hole(i, h) == middle.hole(i, h));
            }
        }
    }

    /// Enters that an item was moved, under a new key, with what it collides with now. Its index and
    /// all weights stay.
    pub fn register_item_move(&mut self, old_key: PItemKey, new_key: PItemKey, hazards: &Vec<Hazard>)
        requires
            old(self).wf(),
            old(self).keys@.contains(old_key),
            keymap::valid(new_key.rank),
            forall|i: int|
                0 <= i < old(self).keys@.len() && #[trigger] old(self).keys@[i] != old_key
                    ==> keymap::slot_of(old(self).keys@[i].rank) != keymap::slot_of(new_key.rank),
            forall|i: int|
                0 <= i < hazards@.len() ==> match #[trigger] hazards@[i] {
                    Hazard::PlacedItem { key: k, loss } => k != new_key && k != old_key && old(self).keys@.contains(k) && positive(loss),
                    Hazard::Hole { index, loss } => index < old(self).n_holes && positive(loss),
                    Hazard::Exterior { loss } => positive(loss),
                },
        ensures
            final(self).wf(),
            final(self).n_holes == old(self).n_holes,
            final(self).keys@ == old(self).keys@.update(old(self).index_of(old_key), new_key),
            moved(*final(self), *old(self), old(self).index_of(old_key), hazards@),
    {
        let ghost before = *self;
        proof {
            lemma_lookup(self.index, self.keys@, old_key);
            let first = self.index_of(old_key);
            assert forall|i: int|
                0 <= i < self.keys@.len() && i != first implies keymap::slot_of(
                (#[trigger] self.keys@[i]).rank,
            ) != keymap::slot_of(new_key.rank) by {
                if self.keys@[i] == old_key {
                    let (a, b) = if i < first {
                        (i, first)
                    } else {
                        (first, i)
                    };
                    assert(keymap::slot_of(self.keys@[a].rank) != keymap::slot_of(
                        self.keys@[b].rank,
                    ));
                }
            }
        }
        let idx: usize = self.index.remove(old_key.rank).unwrap();
        proof {
            let slot = keymap::slot_of(new_key.rank);
            if self.index.slots().contains_key(slot) {
                let i = choose|i: int|
                    0 <= i < before.keys@.len() && keymap::slot_of(
                        (#[trigger] before.keys@[i]).rank,
                    ) == slot;
                assert(i == idx);
            }
        }
        self.index.insert(new_key.rank, idx);
        self.keys = Ghost(self.keys@.update(idx as int, new_key));
        let ghost middle = *self;
        proof {
            lemma_indexes_exchanged(before.index, self.index, before.keys@, idx as int, new_key);
            lemma_lookup(self.index, self.keys@, new_key);
            assert(self.keys@[idx as int] == new_key);
            assert(self.keys@.contains(new_key));
            assert(self.keys@[self.index_of(new_key)] == new_key);
            assert(self.index_of(new_key) == idx);
            assert forall|i: int| 0 <= i < hazards@.len() implies match #[trigger] hazards@[i] {
                Hazard::PlacedItem { key: k, loss } => k != new_key && self.keys@.contains(k)
                    && positive(loss),
                Hazard::Hole { index, loss } => index < self.n_holes && positive(loss),
                Hazard::Exterior { loss } => positive(loss),
            } by {
                if let Hazard::PlacedItem { key: k, loss } = hazards@[i] {
                    let p = choose|p: int| 0 <= p < before.keys@.len() && before.keys@[p] == k;
                    assert(self.keys@[p] == k);
                }
            }
        }
        self.recompute_loss_for_item(new_key, hazards);
        proof {
            assert forall|i: int, j: int|
                0 <= i < self.size() && 0 <= j < self.size() implies middle.pair(i, j)
                == before.pair(i, j) by {}
            assert forall|i: int, h: int|
                0 <= i < self.size() && 0 <= h < self.n_holes implies middle.hole(i, h)
                == before.hole(i, h) by {}
        }
    }

    /// A copy of the books.
    pub fn save(&self) -> (r: CollisionTracker)
        requires
            self.wf(),
        ensures
            r.wf(),
            same_books(r, *self),
    {
        let n: usize = self.n_items;
        let mut pairs: Vec<Vec<CTEntry>> = Vec::new();
        let mut holes: Vec<Vec<CTEntry>> = Vec::new();
        let mut i: usize = 0;
        while i < n
            invariant
                self.wf(),
                self.size() == n,
                i <= n,
                pairs@.len() == i,
                holes@.len() == i,
                forall|k: int| 0 <= k < i ==> (#[trigger] pairs@[k])@ == self.pairs@[k]@,
                forall|k: int| 0 <= k < i ==> (#[trigger] holes@[k])@ == self.holes@[k]@,
            decreases n - i,
        {
            pairs.push(copied_row(&self.pairs[i]));
            holes.push(copied_row(&self.holes[i]));
            i = i + 1;
        }
        CollisionTracker {
            n_items: n,
            keys: Ghost(self.keys@),
            index: self.index.copied(),
            pairs,
            container: copied_row(&self.container),
            n_holes: self.n_holes,
            holes,
        }
    }

    /// Takes over the items and the losses of a snapshot, and keeps the weights.
    pub fn restore_but_keep_weights(&mut self, snapshot: &CollisionTracker)
        requires
            old(self).wf(),
            snapshot.wf(),
            snapshot.size() == old(self).size(),
            snapshot.n_holes == old(self).n_holes,
        ensures
            final(self).wf(),
            restored(*final(self), *old(self), *snapshot),
    {
        let n: usize = self.n_items;
        let n_holes: usize = self.n_holes;
        let mut pairs: Vec<Vec<CTEntry>> = Vec::new();
        let mut container: Vec<CTEntry> = Vec::new();
        let mut holes: Vec<Vec<CTEntry>> = Vec::new();
        let mut i: usize = 0;
        while i < n
            invariant
                self.wf(),
                snapshot.wf(),
                snapshot.size() == n,
                self.size() == n,
                self.n_holes == n_holes,
                snapshot.n_holes == n_holes,
                i <= n,
                pairs@.len() == i,
                container@.len() == i,
                holes@.len() == i,
                forall|k: int|
                    0 <= k < i ==> #[trigger] container@[k] == losses_from(
                        self.container@[k],
                        snapshot.container@[k],
                    ),
                forall|k: int| 0 <= k < i ==> (#[trigger] pairs@[k])@.len() == k + 1,
                forall|k: int, j: int|
                    0 <= k < i && 0 <= j <= k ==> #[trigger] pairs@[k]@[j] == losses_from(
                        self.pairs@[k]@[j],
                        snapshot.pairs@[k]@[j],
                    ),
                forall|k: int| 0 <= k < i ==> (#[trigger] holes@[k])@.len() == n_holes,
                forall|k: int, h: int|
                    0 <= k < i && 0 <= h < n_holes ==> #[trigger] holes@[k]@[h] == losses_from(
                        self.holes@[k]@[h],
                        snapshot.holes@[k]@[h],
                    ),
            decreases n - i,
        {
            container.push(
                CTEntry { loss: snapshot.container[i].loss, weight: self.container[i].weight },
            );
            pairs.push(merged_row(&self.pairs[i], &snapshot.pairs[i]));
            holes.push(merged_row(&self.holes[i], &snapshot.holes[i]));
            i = i + 1;
        }
        self.keys = Ghost(snapshot.keys@);
        self.index = snapshot.index.copied();
        self.pairs = pairs;
        self.container = container;
        self.holes = holes;
    }

    /// Loss of two items.
    pub fn get_pair_loss(&self, key1: PItemKey, key2: PItemKey) -> (r: Scalar)
        requires
            self.wf(),
            self.keys@.contains(key1),
            self.keys@.contains(key2),
        ensures
            r == self.pair(self.index_of(key1), self.index_of(key2)).loss,
    {
        let i: usize = self.find(key1).unwrap();
        let j: usize = self.find(key2).unwrap();
        self.entry_of_pair(i, j).loss
    }

    /// Weight of two items.
    pub fn get_pair_weight(&self, key1: PItemKey, key2: PItemKey) -> (r: Scalar)
        requires
            self.wf(),
            self.keys@.contains(key1),
            self.keys@.contains(key2),
        ensures
            r == self.pair(self.index_of(key1), self.index_of(key2)).weight,
    {
        let i: usize = self.find(key1).unwrap();
        let j: usize = self.find(key2).unwrap();
        self.entry_of_pair(i, j).weight
    }

    /// Loss of an item and the container.
    pub fn get_container_loss(&self, key: PItemKey) -> (r: Scalar)
        requires
            self.wf(),
            self.keys@.contains(key),
        ensures
            r == self.container@[self.index_of(key)].loss,
    {
        let i: usize = self.find(key).unwrap();
        self.container[i].loss
    }

    /// Weight of an item and the container.
    pub fn get_container_weight(&self, key: PItemKey) -> (r: Scalar)
        requires
            self.wf(),
            self.keys@.contains(key),
        ensures
            r == self.container@[self.index_of(key)].weight,
    {
        let i: usize = self.find(key).unwrap();
        self.container[i].weight
    }

    /// Loss of an item and a hole.
    pub fn get_hole_loss(&self, key: PItemKey, hole: usize) -> (r: Scalar)
        requires
            self.wf(),
            self.keys@.contains(key),
            hole < self.n_holes,
        ensures
            r == self.hole(self.index_of(key), hole as int).loss,
    {
        let i: usize = self.find(key).unwrap();
        self.holes[i][hole].loss
    }

    /// Weight of an item and a hole.
    pub fn get_hole_weight(&self, key: PItemKey, hole: usize) -> (r: Scalar)
        requires
            self.wf(),
            self.keys@.contains(key),
            hole < self.n_holes,
        ensures
            r == self.hole(self.index_of(key), hole as int).weight,
    {
        let i: usize = self.find(key).unwrap();
        self.holes[i][hole].weight
    }

    /// The entries of an item, whose sum is its loss: the container, then every item in the order of
    /// their indices, then every hole.
    pub open spec fn entries_of(self, idx: int) -> Seq<CTEntry> {
        seq![self.container@[idx]] + Seq::new(self.size(), |j: int| self.pair(idx, j)) + Seq::new(
            self.n_holes as nat,
            |h: int| self.hole(idx, h),
        )
    }

    /// The entries of an item, whose sum is its loss: the container, then every item in the order of
    /// their indices, then every hole.
    pub fn get_entries(&self, key: PItemKey) -> (r: Vec<CTEntry>)
        requires
            self.wf(),
            self.keys@.contains(key),
        ensures
            r@ == self.entries_of(self.index_of(key)),
    {
        let idx: usize = self.find(key).unwrap();
        let n: usize = self.n_items;
        let mut r: Vec<CTEntry> = Vec::new();
        r.push(self.container[idx]);
        let mut j: usize = 0;
        while j < n
            invariant
                self.wf(),
                n == self.size(),
                idx < n,
                j <= n,
                r@ == seq![self.container@[idx as int]] + Seq::new(
                    j as nat,
                    |j: int| self.pair(idx as int, j),
                ),
            decreases n - j,
        {
            let ghost before = r@;
            r.push(self.entry_of_pair(idx, j));
            assert(r@ =~= seq![self.container@[idx as int]] + Seq::new(
                (j + 1) as nat,
                |j: int| self.pair(idx as int, j),
            ));
            j = j + 1;
        }
        let ghost head = r@;
        let mut h: usize = 0;
        while h < self.n_holes
            invariant
                self.wf(),
                idx < self.size(),
                h <= self.n_holes,
                r@ == head + Seq::new(h as nat, |h: int| self.hole(idx as int, h)),
            decreases self.n_holes - h,
        {
            r.push(self.holes[idx][h]);
            assert(r@ =~= head + Seq::new((h + 1) as nat, |h: int| self.hole(idx as int, h)));
            h = h + 1;
        }
        assert(r@ =~= self.entries_of(idx as int));
        r
    }
}

/// The entries of the first `m` rows, one row after the other.
pub open spec fn flat(rows: Seq<Vec<CTEntry>>, m: nat) -> Seq<CTEntry>
    decreases m,
{
    if m == 0 {
        seq![]
    } else {
        flat(rows, (m - 1) as nat) + rows[m - 1]@
    }
}

/// What the weight of an entry may become: it grows if there is a collision, and decays otherwise.
#[derive(Debug, Clone, Copy, PartialEq, Eq, Structural)]
pub struct NextWeight {
    /// The weight after it has grown.
    pub grown: Scalar,
    /// The weight after it has decayed.
    pub decayed: Scalar,
}

/// The weight that is taken, before it is kept in its range.
pub open spec fn chosen_weight(loss: Scalar, next: NextWeight) -> Scalar {
    if !loss.nan() && loss.value() == 0 {
        next.decayed
    } else {
        next.grown
    }
}

/// The next weight of an entry: at least `1` and at most `max`.
pub open spec fn weight_after(loss: Scalar, next: NextWeight, max: Scalar) -> Scalar {
    let w = chosen_weight(loss, next);
    if w.less(Scalar { bits: ONE_BITS }) {
        Scalar { bits: ONE_BITS }
    } else if max.less(w) {
        max
    } else {
        w
    }
}

/// The weight is at least `1` and at most `max`.
pub open spec fn weight_in_range(w: Scalar, max: Scalar) -> bool {
    (Scalar { bits: ONE_BITS }).less_or_equal(w) && w.less_or_equal(max)
}

/// The next weight of an entry: the grown one if the entry has a loss, the decayed one otherwise,
/// kept in the range from `1` to `max`.
pub fn next_weight(loss: Scalar, next: NextWeight, max: Scalar) -> (r: Scalar)
    requires
        (Scalar { bits: ONE_BITS }).less_or_equal(max),
    ensures
        r == weight_after(loss, next, max),
        !chosen_weight(loss, next).nan() ==> weight_in_range(r, max),
{
    let one = Scalar { bits: ONE_BITS };
    let w = if loss.is_zero() {
        next.decayed
    } else {
        next.grown
    };
    if w.lt(one) {
        one
    } else if max.lt(w) {
        max
    } else {
        w
    }
}

/// The entries with their next weights, which stand from position `from` on.
pub open spec fn reweighed(
    entries: Seq<CTEntry>,
    weights: Seq<NextWeight>,
    max: Scalar,
    from: int,
) -> Seq<CTEntry> {
    Seq::new(
        entries.len(),
        |i: int|
            CTEntry {
                loss: entries[i].loss,
                weight: weight_after(entries[i].loss, weights[from + i], max),
            },
    )
}

/// The largest of the first `m` losses, and at least `0`.
pub open spec fn largest_loss(entries: Seq<CTEntry>, m: nat) -> Scalar
    decreases m,
{
    if m == 0 {
        Scalar { bits: ZERO_BITS }
    } else {
        largest_loss(entries, (m - 1) as nat).larger(entries[m - 1].loss)
    }
}

fn push_row(out: &mut Vec<CTEntry>, row: &Vec<CTEntry>)
    ensures
        final(out)@ == old(out)@ + row@,
{
    let mut i: usize = 0;
    while i < row.len()
        invariant
            i <= row@.len(),
            out@ == old(out)@ + row@.take(i as int),
        decreases row@.len() - i,
    {
        out.push(row[i]);
        assert(row@.take(i + 1) =~= row@.take(i as int).push(row@[i as int]));
        assert(out@ =~= old(out)@ + row@.take(i + 1));
        i = i + 1;
    }
    assert(row@.take(i as int) =~= row@);
}

fn push_rows(out: &mut Vec<CTEntry>, rows: &Vec<Vec<CTEntry>>)
    ensures
        final(out)@ == old(out)@ + flat(rows@, rows@.len()),
{
    let mut i: usize = 0;
    assert(old(out)@ + flat(rows@, 0) =~= old(out)@);
    while i < rows.len()
        invariant
            i <= rows@.len(),
            out@ == old(out)@ + flat(rows@, i as nat),
        decreases rows@.len() - i,
    {
        push_row(out, &rows[i]);
        assert(out@ =~= old(out)@ + flat(rows@, (i + 1) as nat));
        i = i + 1;
    }
}

fn reweigh_row(row: &Vec<CTEntry>, weights: &Vec<NextWeight>, max: Scalar, from: usize) -> (r: Vec<CTEntry>)
    requires
        (Scalar { bits: ONE_BITS }).less_or_equal(max),
        from + row@.len() <= weights@.len(),
    ensures
        r@ == reweighed(row@, weights@, max, from as int),
{
    let mut r: Vec<CTEntry> = Vec::new();
    let n: usize = weights.len();
    let mut i: usize = 0;
    while i < row.len()
        invariant
            (Scalar { bits: ONE_BITS }).less_or_equal(max),
            n == weights@.len(),
            from + row@.len() <= n,
            i <= row@.len(),
            r@.len() == i,
            forall|k: int|
                0 <= k < i ==> #[trigger] r@[k] == reweighed(row@, weights@, max, from as int)[k],
        decreases row@.len() - i,
    {
        let e = row[i];
        r.push(CTEntry { loss: e.loss, weight: next_weight(e.loss, weights[from + i], max) });
        i = i + 1;
    }
    assert(r@ =~= reweighed(row@, weights@, max, from as int));
    r
}

proof fn lemma_flat_len(rows: Seq<Vec<CTEntry>>, m: nat, n: nat)
    requires
        m <= n <= rows.len(),
    ensures
        flat(rows, m).len() <= flat(rows, n).len(),
        m < n ==> flat(rows, m).len() + rows[m as int]@.len() <= flat(rows, n).len(),
    decreases n,
{
    if m < n {
        if m < n - 1 {
            lemma_flat_len(rows, m, (n - 1) as nat);
        }
    }
}

fn reweigh_rows(rows: &Vec<Vec<CTEntry>>, weights: &Vec<NextWeight>, max: Scalar, from: usize) -> (r: Vec<
    Vec<CTEntry>,
>)
    requires
        (Scalar { bits: ONE_BITS }).less_or_equal(max),
        from + flat(rows@, rows@.len()).len() <= weights@.len(),
    ensures
        r@.len() == rows@.len(),
        forall|i: int| 0 <= i < rows@.len() ==> (#[trigger] r@[i])@.len() == rows@[i]@.len(),
        flat(r@, r@.len()) == reweighed(flat(rows@, rows@.len()), weights@, max, from as int),
{
    let n: usize = weights.len();
    let mut r: Vec<Vec<CTEntry>> = Vec::new();
    let mut at: usize = from;
    let mut i: usize = 0;
    assert(flat(r@, 0) =~= reweighed(flat(rows@, 0), weights@, max, from as int));
    while i < rows.len()
        invariant
            (Scalar { bits: ONE_BITS }).less_or_equal(max),
            n == weights@.len(),
            from + flat(rows@, rows@.len()).len() <= n,
            i <= rows@.len(),
            at == from + flat(rows@, i as nat).len(),
            r@.len() == i,
            forall|k: int| 0 <= k < i ==> (#[trigger] r@[k])@.len() == rows@[k]@.len(),
            flat(r@, i as nat) == reweighed(flat(rows@, i as nat), weights@, max, from as int),
        decreases rows@.len() - i,
    {
        proof {
            lemma_flat_len(rows@, i as nat, rows@.len());
        }
        let ghost before = r@;
        r.push(reweigh_row(&rows[i], weights, max, at));
        proof {
            lemma_flat_prefix(before, r@, i as nat);
            assert(flat(r@, (i + 1) as nat) =~= reweighed(
                flat(rows@, (i + 1) as nat),
                weights@,
                max,
                from as int,
            ));
        }
        at = at + rows[i].len();
        i = i + 1;
    }
    r
}

proof fn lemma_flat_prefix(a: Seq<Vec<CTEntry>>, b: Seq<Vec<CTEntry>>, m: nat)
    requires
        m <= a.len(),
        m <= b.len(),
        forall|i: int| 0 <= i < m ==> a[i] == b[i],
    ensures
        flat(a, m) == flat(b, m),
    decreases m,
{
    if m > 0 {
        lemma_flat_prefix(a, b, (m - 1) as nat);
    }
}

/// The books after the weights were updated.
pub open spec fn updated(
    t: CollisionTracker,
    before: CollisionTracker,
    weights: Seq<NextWeight>,
    max: Scalar,
) -> bool {
    &&& t.keys@ == before.keys@
    &&& t.n_holes == before.n_holes
    &&& t.all() == reweighed(before.all(), weights, max, 0)
}

impl CollisionTracker {
    /// All entries: the pairs, then the container, then the holes.
    pub open spec fn all(self) -> Seq<CTEntry> {
        flat(self.pairs@, self.pairs@.len()) + self.container@ + flat(
            self.holes@,
            self.holes@.len(),
        )
    }

    /// All entries, whose sum is the total loss: the pairs, then the container, then the holes.
    pub fn get_all_entries(&self) -> (r: Vec<CTEntry>)
        ensures
            r@ == self.all(),
    {
        let mut r: Vec<CTEntry> = Vec::new();
        push_rows(&mut r, &self.pairs);
        push_row(&mut r, &self.container);
        push_rows(&mut r, &self.holes);
        assert(r@ =~= self.all());
        r
    }

    /// The largest loss of all, by which the growth of every weight is scaled.
    pub fn max_loss(&self) -> (r: Scalar)
        ensures
            r == largest_loss(self.all(), self.all().len()),
    {
        let entries = self.get_all_entries();
        let mut r = Scalar { bits: ZERO_BITS };
        let mut i: usize = 0;
        while i < entries.len()
            invariant
                i <= entries@.len(),
                entries@ == self.all(),
                r == largest_loss(entries@, i as nat),
            decreases entries@.len() - i,
        {
            r = r.max(entries[i].loss);
            i = i + 1;
        }
        r
    }

    /// Lets the weights of what collides grow and all others decay, within the range from `1` to
    /// `max`. What each weight may become is given in the order of the entries. No loss changes.
    pub fn update_weights(&mut self, weights: &Vec<NextWeight>, max: Scalar)
        requires
            old(self).wf(),
            weights@.len() == old(self).all().len(),
            (Scalar { bits: ONE_BITS }).less_or_equal(max),
        ensures
            final(self).wf(),
            updated(*final(self), *old(self), weights@, max),
    {
        let ghost before = *self;
        let pairs = reweigh_rows(&self.pairs, weights, max, 0);
        let mut entries: Vec<CTEntry> = Vec::new();
        push_rows(&mut entries, &self.pairs);
        let n_pairs: usize = entries.len();
        assert(entries@ =~= flat(self.pairs@, self.pairs@.len()));
        let container = reweigh_row(&self.container, weights, max, n_pairs);
        let total: usize = weights.len();
        let n_before: usize = n_pairs + self.container.len();
        let holes = reweigh_rows(&self.holes, weights, max, n_before);
        self.pairs = pairs;
        self.container = container;
        self.holes = holes;
        assert(self.all() =~= reweighed(before.all(), weights@, max, 0));
    }
}

fn copied_row(row: &Vec<CTEntry>) -> (r: Vec<CTEntry>)
    ensures
        r@ == row@,
{
    let mut r: Vec<CTEntry> = Vec::new();
    let mut i: usize = 0;
    while i < row.len()
        invariant
            i <= row@.len(),
            r@ == row@.take(i as int),
        decreases row@.len() - i,
    {
        r.push(row[i]);
        assert(row@.take(i + 1) =~= row@.take(i as int).push(row@[i as int]));
        i = i + 1;
    }
    assert(row@.take(i as int) =~= row@);
    r
}

fn merged_row(row: &Vec<CTEntry>, other: &Vec<CTEntry>) -> (r: Vec<CTEntry>)
    requires
        row@.len() == other@.len(),
    ensures
        r@.len() == row@.len(),
        forall|i: int| 0 <= i < row@.len() ==> #[trigger] r@[i] == losses_from(row@[i], other@[i]),
{
    let mut r: Vec<CTEntry> = Vec::new();
    let mut i: usize = 0;
    while i < row.len()
        invariant
            row@.len() == other@.len(),
            i <= row@.len(),
            r@.len() == i,
            forall|k: int|
                0 <= k < i ==> #[trigger] r@[k] == losses_from(row@[k], other@[k]),
        decreases row@.len() - i,
    {
        r.push(CTEntry { loss: other[i].loss, weight: row[i].weight });
        i = i + 1;
    }
    r
}

/// **A pair has one entry**: what is known of two items does not depend on which comes first.
pub proof fn lemma_pairs_are_symmetric(t: CollisionTracker, i: int, j: int)
    requires
        t.wf(),
        0 <= i < t.size(),
        0 <= j < t.size(),
    ensures
        t.pair(i, j) == t.pair(j, i),
{
}

/// **Moving an item touches nothing else**: entries that it is not part of stay as they were, and no
/// weight changes at all.
pub proof fn lemma_move_is_local(
    t: CollisionTracker,
    before: CollisionTracker,
    idx: int,
    hazards: Seq<Hazard>,
    i: int,
    j: int,
)
    requires
        moved(t, before, idx, hazards),
        0 <= i < t.size(),
        0 <= j < t.size(),
    ensures
        t.pair(i, j).weight == before.pair(i, j).weight,
        t.container@[i].weight == before.container@[i].weight,
        i != idx && j != idx ==> t.pair(i, j) == before.pair(i, j),
        i != idx ==> t.container@[i] == before.container@[i],
        forall|h: int|
            0 <= h < t.n_holes ==> (#[trigger] t.hole(i, h)).weight == before.hole(i, h).weight && (i
                != idx ==> t.hole(i, h) == before.hole(i, h)),
{
    assert(t.pair(i, j) == t.pair(i, j));
    assert(t.container@[i] == t.container@[i]);
}

/// What the hazards say is what they hold, and it is positive.
proof fn lemma_losses_are_positive(
    t: CollisionTracker,
    key: PItemKey,
    hazards: Seq<Hazard>,
    other: PItemKey,
    h: int,
    m: nat,
)
    requires
        hazards_known(t, key, hazards),
        m <= hazards.len(),
    ensures
        pair_loss_in(hazards, other, m) matches Some(l) ==> positive(l),
        container_loss_in(hazards, m) matches Some(l) ==> positive(l),
        hole_loss_in(hazards, h, m) matches Some(l) ==> positive(l),
        (pair_loss_in(hazards, other, m) is Some) == exists|i: int|
            0 <= i < m && is_hazard_of(#[trigger] hazards[i], other),
        (container_loss_in(hazards, m) is Some) == exists|i: int|
            0 <= i < m && (#[trigger] hazards[i] is Exterior),
        (hole_loss_in(hazards, h, m) is Some) == exists|i: int|
            0 <= i < m && is_hazard_of_hole(#[trigger] hazards[i], h),
    decreases m,
{
    if m > 0 {
        lemma_losses_are_positive(t, key, hazards, other, h, (m - 1) as nat);
        let last = hazards[m - 1];
    }
}

/// The hazard is a collision with this item.
pub open spec fn is_hazard_of(hazard: Hazard, other: PItemKey) -> bool {
    hazard matches Hazard::PlacedItem { key, .. } && key == other
}

/// The hazard is a collision with this hole.
pub open spec fn is_hazard_of_hole(hazard: Hazard, h: int) -> bool {
    hazard matches Hazard::Hole { index, .. } && index == h
}

/// **A loss of zero means no collision**: after a move, the moved item's loss against another one, the
/// container or a hole is `0` exactly if none of its hazards is that one.
pub proof fn lemma_zero_means_free(
    t: CollisionTracker,
    before: CollisionTracker,
    idx: int,
    key: PItemKey,
    hazards: Seq<Hazard>,
    j: int,
)
    requires
        moved(t, before, idx, hazards),
        hazards_known(t, key, hazards),
        0 <= idx < t.size(),
        0 <= j < t.size(),
        j != idx,
    ensures
        t.pair(idx, j).loss.value() == 0 <==> forall|i: int|
            0 <= i < hazards.len() ==> !is_hazard_of(#[trigger] hazards[i], t.keys@[j]),
        t.pair(j, idx).loss == t.pair(idx, j).loss,
        t.container@[idx].loss.value() == 0 <==> forall|i: int|
            0 <= i < hazards.len() ==> !(#[trigger] hazards[i] is Exterior),
        forall|h: int|
            0 <= h < t.n_holes ==> ((#[trigger] t.hole(idx, h)).loss.value() == 0 <==> forall|i: int|
                0 <= i < hazards.len() ==> !is_hazard_of_hole(#[trigger] hazards[i], h)),
{
    let n = hazards.len();
    lemma_losses_are_positive(t, key, hazards, t.keys@[j], 0, n);
    assert(t.pair(idx, j) == t.pair(idx, j) && t.pair(j, idx) == t.pair(j, idx));
    assert(t.container@[idx] == t.container@[idx]);
    assert forall|h: int| 0 <= h < t.n_holes implies ((#[trigger] t.hole(idx, h)).loss.value() == 0
        <==> forall|i: int|
        0 <= i < hazards.len() ==> !is_hazard_of_hole(#[trigger] hazards[i], h)) by {
        lemma_losses_are_positive(t, key, hazards, t.keys@[j], h, n);
    }
}

/// Every weight is at least `1` and at most `max`.
pub open spec fn weights_in_range(t: CollisionTracker, max: Scalar) -> bool {
    forall|k: int| 0 <= k < t.all().len() ==> weight_in_range((#[trigger] t.all()[k]).weight, max)
}

/// **Weights stay in their range, and follow the collisions.** After an update every weight is at
/// least `1` and at most `max`, whatever it was before, and no loss has changed. Where the decayed
/// weight is no larger than the weight, an entry without a loss gains none; where the grown one is
/// larger, an entry with a loss gains some unless it is at the maximum already.
pub proof fn lemma_weights_follow_the_collisions(
    t: CollisionTracker,
    before: CollisionTracker,
    weights: Seq<NextWeight>,
    max: Scalar,
)
    requires
        updated(t, before, weights, max),
        weights.len() == before.all().len(),
        (Scalar { bits: ONE_BITS }).less_or_equal(max),
        forall|k: int|
            0 <= k < weights.len() ==> !(#[trigger] weights[k]).grown.nan()
                && !weights[k].decayed.nan(),
    ensures
        weights_in_range(t, max),
        t.keys@ == before.keys@,
        t.n_holes == before.n_holes,
        t.all().len() == before.all().len(),
        forall|k: int|
            0 <= k < before.all().len() ==> {
                let (e, f) = (before.all()[k], #[trigger] t.all()[k]);
                &&& f.loss == e.loss
                &&& !e.loss.nan() && e.loss.value() == 0 && weight_in_range(e.weight, max)
                    && weights[k].decayed.less_or_equal(e.weight) ==> f.weight.less_or_equal(
                    e.weight,
                )
                &&& (e.loss.nan() || e.loss.value() != 0) && e.weight.less(max) && e.weight.less(
                    weights[k].grown,
                ) ==> e.weight.less(f.weight)
            },
{
    assert forall|k: int| 0 <= k < before.all().len() implies weight_in_range(
        (#[trigger] t.all()[k]).weight,
        max,
    ) by {
        assert(!weights[k].grown.nan() && !weights[k].decayed.nan());
    }
}

proof fn lemma_flat_entry(rows: Seq<Vec<CTEntry>>, m: nat, k: int)
    requires
        m <= rows.len(),
        0 <= k < flat(rows, m).len(),
    ensures
        exists|i: int, j: int|
            0 <= i < m && 0 <= j < rows[i]@.len() && flat(rows, m)[k] == #[trigger] rows[i]@[j],
    decreases m,
{
    let head = flat(rows, (m - 1) as nat);
    if k < head.len() {
        lemma_flat_entry(rows, (m - 1) as nat, k);
    } else {
        let (i, j) = (m - 1, k - head.len());
        assert(flat(rows, m)[k] == rows[i]@[j]);
    }
}

/// Books in which nothing ever collided.
pub open spec fn fresh(t: CollisionTracker) -> bool {
    &&& t.wf()
    &&& forall|i: int, j: int|
        0 <= i < t.size() && 0 <= j < t.size() ==> #[trigger] t.pair(i, j) == blank()
    &&& forall|i: int| 0 <= i < t.size() ==> #[trigger] t.container@[i] == blank()
    &&& forall|i: int, h: int|
        0 <= i < t.size() && 0 <= h < t.n_holes ==> #[trigger] t.hole(i, h) == blank()
}

proof fn lemma_fresh_weights_are_in_range(t: CollisionTracker, max: Scalar)
    requires
        fresh(t),
        (Scalar { bits: ONE_BITS }).less_or_equal(max),
    ensures
        weights_in_range(t, max),
{
    assert forall|k: int| 0 <= k < t.all().len() implies weight_in_range(
        (#[trigger] t.all()[k]).weight,
        max,
    ) by {
        let pairs = flat(t.pairs@, t.pairs@.len());
        let n = pairs.len() + t.container@.len();
        if k < pairs.len() {
            lemma_flat_entry(t.pairs@, t.pairs@.len(), k);
            let (i, j) = choose|i: int, j: int|
                0 <= i < t.pairs@.len() && 0 <= j < t.pairs@[i]@.len() && pairs[k]
                    == #[trigger] t.pairs@[i]@[j];
            assert(t.pairs@[i]@[j] == t.pair(i, j));
        } else if k < n {
            assert(t.all()[k] == t.container@[k - pairs.len()]);
        } else {
            lemma_flat_entry(t.holes@, t.holes@.len(), k - n);
            let (i, j) = choose|i: int, j: int|
                0 <= i < t.holes@.len() && 0 <= j < t.holes@[i]@.len() && flat(
                    t.holes@,
                    t.holes@.len(),
                )[k - n] == #[trigger] t.holes@[i]@[j];
            assert(t.holes@[i]@[j] == t.hole(i, j));
        }
    }
}

/// Weights that are numbers, one for every entry.
pub open spec fn are_weights_for(t: CollisionTracker, weights: Seq<NextWeight>) -> bool {
    &&& weights.len() == t.all().len()
    &&& forall|k: int|
        0 <= k < weights.len() ==> !(#[trigger] weights[k]).grown.nan() && !weights[k].decayed.nan()
}

/// **The weights never leave their range**: from fresh books on, after any number of updates, every
/// weight is at least `1`, at most `max`, and finite if `max` is.
pub proof fn lemma_weights_never_leave_their_range(
    books: Seq<CollisionTracker>,
    weights: Seq<Seq<NextWeight>>,
    max: Scalar,
)
    requires
        books.len() == weights.len() + 1,
        fresh(books[0]),
        (Scalar { bits: ONE_BITS }).less_or_equal(max),
        forall|i: int|
            0 <= i < weights.len() ==> are_weights_for(books[i], #[trigger] weights[i]) && updated(
                books[i + 1],
                books[i],
                weights[i],
                max,
            ),
    ensures
        weights_in_range(books.last(), max),
        max.finite() ==> forall|k: int|
            0 <= k < books.last().all().len() ==> (#[trigger] books.last().all()[k]).weight.finite(),
{
    let last = books.last();
    if weights.len() == 0 {
        lemma_fresh_weights_are_in_range(last, max);
    } else {
        let i = weights.len() - 1;
        assert(are_weights_for(books[i], weights[i]));
        lemma_weights_follow_the_collisions(last, books[i], weights[i], max);
    }
    if max.finite() {
        assert forall|k: int| 0 <= k < last.all().len() implies (
        #[trigger] last.all()[k]).weight.finite() by {
            let w = last.all()[k].weight;
            crate::scalar::lemma_rank_is_value_order(max, w);
            crate::scalar::lemma_rank_is_value_order(w, Scalar { bits: ONE_BITS });
        }
    }
}

proof fn lemma_last_hazard_of_an_item(hazards: Seq<Hazard>, key: PItemKey, m: nat, i: int)
    requires
        0 <= i < m <= hazards.len(),
        is_hazard_of(hazards[i], key),
        forall|k: int| i < k < m ==> !is_hazard_of(#[trigger] hazards[k], key),
    ensures
        pair_loss_in(hazards, key, m) == Some(hazards[i]->PlacedItem_loss),
    decreases m,
{
    if i < m - 1 {
        assert(!is_hazard_of(hazards[m - 1], key));
        lemma_last_hazard_of_an_item(hazards, key, (m - 1) as nat, i);
    }
}

proof fn lemma_last_exterior_hazard(hazards: Seq<Hazard>, m: nat, i: int)
    requires
        0 <= i < m <= hazards.len(),
        hazards[i] is Exterior,
        forall|k: int| i < k < m ==> !(#[trigger] hazards[k] is Exterior),
    ensures
        container_loss_in(hazards, m) == Some(hazards[i]->Exterior_loss),
    decreases m,
{
    if i < m - 1 {
        assert(!(hazards[m - 1] is Exterior));
        lemma_last_exterior_hazard(hazards, (m - 1) as nat, i);
    }
}

proof fn lemma_last_hazard_of_a_hole(hazards: Seq<Hazard>, h: int, m: nat, i: int)
    requires
        0 <= i < m <= hazards.len(),
        is_hazard_of_hole(hazards[i], h),
        forall|k: int| i < k < m ==> !is_hazard_of_hole(#[trigger] hazards[k], h),
    ensures
        hole_loss_in(hazards, h, m) == Some(hazards[i]->Hole_loss),
    decreases m,
{
    if i < m - 1 {
        assert(!is_hazard_of_hole(hazards[m - 1], h));
        lemma_last_hazard_of_a_hole(hazards, h, (m - 1) as nat, i);
    }
}

/// **The books hold the loss that was measured**: after a move, the entry of the moved item and another one,
/// from either side, has the loss that the last hazard of that one states; and so have the entries of the
/// container and of every hole.
pub proof fn lemma_books_hold_what_was_measured(
    t: CollisionTracker,
    before: CollisionTracker,
    idx: int,
    hazards: Seq<Hazard>,
    j: int,
    i: int,
)
    requires
        moved(t, before, idx, hazards),
        0 <= idx < t.size(),
        0 <= j < t.size(),
        0 <= i < hazards.len(),
    ensures
        hazards[i] matches Hazard::PlacedItem { key, loss } ==> (key == t.keys@[j] && (forall|k: int|
            i < k < hazards.len() ==> !is_hazard_of(#[trigger] hazards[k], key)) ==> t.pair(idx, j).loss
            == loss && t.pair(j, idx).loss == loss),
        hazards[i] matches Hazard::Exterior { loss } ==> ((forall|k: int|
            i < k < hazards.len() ==> !(#[trigger] hazards[k] is Exterior))
            ==> t.container@[idx].loss == loss),
        hazards[i] matches Hazard::Hole { index, loss } ==> (index < t.n_holes && (forall|k: int|
            i < k < hazards.len() ==> !is_hazard_of_hole(#[trigger] hazards[k], index as int))
            ==> t.hole(idx, index as int).loss == loss),
{
    let n = hazards.len();
    match hazards[i] {
        Hazard::PlacedItem { key, loss } => {
            if key == t.keys@[j] && forall|k: int|
                i < k < n ==> !is_hazard_of(#[trigger] hazards[k], key) {
                lemma_last_hazard_of_an_item(hazards, key, n, i);
                assert(t.pair(idx, j) == t.pair(j, idx));
            }
        },
        Hazard::Exterior { loss } => {
            if forall|k: int| i < k < n ==> !(#[trigger] hazards[k] is Exterior) {
                lemma_last_exterior_hazard(hazards, n, i);
            }
        },
        Hazard::Hole { index, loss } => {
            if forall|k: int| i < k < n ==> !is_hazard_of_hole(#[trigger] hazards[k], index as int) {
                lemma_last_hazard_of_a_hole(hazards, index as int, n, i);
            }
        },
    }
}

/// **The entries of an item are all that it is part of**: the container, a pair with every item, and every
/// hole.
pub proof fn lemma_entries_of_an_item_are_complete(t: CollisionTracker, idx: int)
    requires
        t.wf(),
        0 <= idx < t.size(),
    ensures
        t.entries_of(idx).len() == 1 + t.size() + t.n_holes,
        t.entries_of(idx)[0] == t.container@[idx],
        forall|j: int| 0 <= j < t.size() ==> t.entries_of(idx)[1 + j] == #[trigger] t.pair(idx, j),
        forall|h: int|
            0 <= h < t.n_holes ==> t.entries_of(idx)[1 + t.size() + h] == #[trigger] t.hole(idx, h),
{
}

proof fn lemma_flat_holds_the_rows(rows: Seq<Vec<CTEntry>>, m: nat, i: int, j: int)
    requires
        0 <= i < m <= rows.len(),
        0 <= j < rows[i]@.len(),
    ensures
        flat(rows, m).contains(rows[i]@[j]),
    decreases m,
{
    let before = flat(rows, (m - 1) as nat);
    let all = flat(rows, m);
    if i < m - 1 {
        lemma_flat_holds_the_rows(rows, (m - 1) as nat, i, j);
        let k = choose|k: int| 0 <= k < before.len() && before[k] == rows[i]@[j];
        assert(all[k] == rows[i]@[j]);
    } else {
        assert(all[before.len() + j] == rows[i]@[j]);
    }
}

proof fn lemma_flat_holds_nothing_else(rows: Seq<Vec<CTEntry>>, m: nat, e: CTEntry)
    requires
        m <= rows.len(),
        flat(rows, m).contains(e),
    ensures
        exists|i: int, j: int|
            0 <= i < m && 0 <= j < rows[i]@.len() && #[trigger] rows[i]@[j] == e,
    decreases m,
{
    if m > 0 {
        let before = flat(rows, (m - 1) as nat);
        let all = flat(rows, m);
        let k = choose|k: int| 0 <= k < all.len() && all[k] == e;
        if k < before.len() {
            assert(before[k] == e);
            lemma_flat_holds_nothing_else(rows, (m - 1) as nat, e);
        } else {
            assert(rows[m - 1]@[k - before.len()] == e);
        }
    }
}

proof fn lemma_flat_triangle_len(rows: Seq<Vec<CTEntry>>, m: nat)
    requires
        m <= rows.len(),
        forall|i: int| 0 <= i < rows.len() ==> (#[trigger] rows[i])@.len() == i + 1,
    ensures
        2 * flat(rows, m).len() == m * (m + 1),
    decreases m,
{
    if m > 0 {
        lemma_flat_triangle_len(rows, (m - 1) as nat);
        assert(rows[m - 1]@.len() == m);
        let k = (m - 1) as nat;
        assert(k * (k + 1) + 2 * m == m * (m + 1)) by (nonlinear_arith)
            requires
                m == k + 1,
        ;
    } else {
        assert(m * (m + 1) == 0) by (nonlinear_arith)
            requires
                m == 0,
        ;
    }
}

proof fn lemma_flat_grid_len(rows: Seq<Vec<CTEntry>>, m: nat, w: nat)
    requires
        m <= rows.len(),
        forall|i: int| 0 <= i < rows.len() ==> (#[trigger] rows[i])@.len() == w,
    ensures
        flat(rows, m).len() == m * w,
    decreases m,
{
    if m > 0 {
        lemma_flat_grid_len(rows, (m - 1) as nat, w);
        assert(rows[m - 1]@.len() == w);
        assert((m - 1) * w + w == m * w) by (nonlinear_arith);
    } else {
        assert(m * w == 0) by (nonlinear_arith)
            requires
                m == 0,
        ;
    }
}

/// **The list of all entries is complete, and lists none twice**: every pair, every item with the container
/// and every item with every hole is in it, and it is as long as there are of those.
pub proof fn lemma_all_entries_are_listed(t: CollisionTracker, i: int, j: int, h: int)
    requires
        t.wf(),
        0 <= i < t.size(),
        0 <= j < t.size(),
    ensures
        t.all().contains(t.pair(i, j)),
        t.all().contains(t.container@[i]),
        0 <= h < t.n_holes ==> t.all().contains(t.hole(i, h)),
        2 * t.all().len() == t.size() * (t.size() + 1) + 2 * t.size() + 2 * (t.size() * t.n_holes),
{
    let (pairs, holes) = (flat(t.pairs@, t.pairs@.len()), flat(t.holes@, t.holes@.len()));
    let all = t.all();
    let (a, b) = if i >= j {
        (i, j)
    } else {
        (j, i)
    };
    lemma_flat_holds_the_rows(t.pairs@, t.pairs@.len(), a, b);
    let k = choose|k: int| 0 <= k < pairs.len() && pairs[k] == t.pair(i, j);
    assert(all[k] == t.pair(i, j));
    assert(all[pairs.len() + i] == t.container@[i]);
    if 0 <= h < t.n_holes {
        lemma_flat_holds_the_rows(t.holes@, t.holes@.len(), i, h);
        let k = choose|k: int| 0 <= k < holes.len() && holes[k] == t.hole(i, h);
        assert(all[pairs.len() + t.container@.len() + k] == t.hole(i, h));
    }
    lemma_flat_triangle_len(t.pairs@, t.pairs@.len());
    lemma_flat_grid_len(t.holes@, t.holes@.len(), t.n_holes as nat);
}

/// **The largest loss is the largest**: none is larger, and it is one of them, or `0`.
pub proof fn lemma_largest_loss_is_largest(entries: Seq<CTEntry>, m: nat)
    requires
        m <= entries.len(),
    ensures
        !largest_loss(entries, m).nan(),
        largest_loss(entries, m).value() >= 0,
        forall|i: int|
            0 <= i < m ==> !largest_loss(entries, m).less((#[trigger] entries[i]).loss),
        largest_loss(entries, m).value() == 0 || exists|i: int|
            0 <= i < m && (#[trigger] entries[i]).loss == largest_loss(entries, m),
    decreases m,
{
    if m > 0 {
        lemma_largest_loss_is_largest(entries, (m - 1) as nat);
        let before = largest_loss(entries, (m - 1) as nat);
        let all = largest_loss(entries, m);
        assert forall|i: int| 0 <= i < m implies !all.less((#[trigger] entries[i]).loss) by {
            if i < m - 1 {
                assert(!before.less(entries[i].loss));
            }
        }
    }
}

/// **A weight grows with a collision and decays without one**, and is then kept between `1` and the maximum.
pub proof fn lemma_weight_grows_or_decays(loss: Scalar, next: NextWeight, max: Scalar)
    requires
        !loss.nan(),
        !next.grown.nan(),
        !next.decayed.nan(),
        (Scalar { bits: ONE_BITS }).less_or_equal(max),
    ensures
        ({
            let one = Scalar { bits: ONE_BITS };
            let w = weight_after(loss, next, max);
            let target = if loss.value() > 0 || loss.value() < 0 {
                next.grown
            } else {
                next.decayed
            };
            &&& one.less_or_equal(target) && target.less_or_equal(max) ==> w == target
            &&& target.less(one) ==> w == one
            &&& max.less(target) ==> w == max
        }),
{
}

/// **Fresh books know of no collision**: every loss is `0` and every weight `1`.
pub proof fn lemma_fresh_books_are_blank(t: CollisionTracker, i: int, j: int)
    requires
        fresh(t),
        0 <= i < t.size(),
        0 <= j < t.size(),
    ensures
        t.pair(i, j).loss.value() == 0 && t.pair(i, j).weight.bits == ONE_BITS,
        t.container@[i].loss.value() == 0 && t.container@[i].weight.bits == ONE_BITS,
        forall|h: int|
            0 <= h < t.n_holes ==> (#[trigger] t.hole(i, h)).loss.value() == 0 && t.hole(
                i,
                h,
            ).weight.bits == ONE_BITS,
{
    assert(t.pair(i, j) == blank());
    assert(t.container@[i] == blank());
}

/// **Restoring brings the losses back and keeps the weights**: of every entry, the loss is the one that was
/// saved, and the weight the one from just before.
pub proof fn lemma_restoring_keeps_the_weights(
    after: CollisionTracker,
    before: CollisionTracker,
    snapshot: CollisionTracker,
    i: int,
    j: int,
    h: int,
)
    requires
        restored(after, before, snapshot),
        0 <= i < snapshot.size(),
        0 <= j < snapshot.size(),
    ensures
        after.keys@ == snapshot.keys@,
        after.pair(i, j).loss == snapshot.pair(i, j).loss,
        after.pair(i, j).weight == before.pair(i, j).weight,
        after.container@[i].loss == snapshot.container@[i].loss,
        after.container@[i].weight == before.container@[i].weight,
        0 <= h < snapshot.n_holes ==> after.hole(i, h).loss == snapshot.hole(i, h).loss && after.hole(
            i,
            h,
        ).weight == before.hole(i, h).weight,
{
}

} // verus!
