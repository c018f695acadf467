//! Maps from slot keys to numbers, kept by the `slotmap` crate.
//!
//! A slot key is given by its rank, which holds the slot index in its upper and the version of the
//! slot in its lower half.
use slotmap::{DefaultKey, Key, KeyData, SecondaryMap};
use vstd::prelude::*;

verus! {

/// A `slotmap::SecondaryMap` from keys to numbers, whose contents are opaque here.
#[verifier::external_body]
#[derive(Debug)]
pub struct Slots {
    inner: SecondaryMap<DefaultKey, usize>,
}

/// What a map holds: for every slot that is in use, the version of its key and the number.
pub uninterp spec fn slots(m: Slots) -> Map<u32, (u32, usize)>;

/// The number of values of half a key.
pub const HALF: u64 = 0x1_0000_0000;

/// The slot of a key in its portable form, which holds the version in its upper half.
pub open spec fn portable_slot(portable: u64) -> u32 {
    (portable % HALF) as u32
}

/// The version of a key in its portable form.
pub open spec fn portable_version(portable: u64) -> u32 {
    (portable / HALF) as u32
}

/// Whether a key in its portable form can stand for a value: versions of slots in use are odd, and
/// the last slot is reserved for the key that never stands for one.
pub open spec fn portable_valid(portable: u64) -> bool {
    portable_version(portable) % 2 == 1 && portable_slot(portable) != u32::MAX
}

/// What a map holds under a key in its portable form.
pub open spec fn portable_value(s: Map<u32, (u32, usize)>, portable: u64) -> Option<usize> {
    let slot = portable_slot(portable);
    if s.contains_key(slot) && s[slot].0 == portable_version(portable) {
        Some(s[slot].1)
    } else {
        None
    }
}

/// Whether a version is older than another one: versions count up and wrap around.
pub open spec fn older(a: u32, b: u32) -> bool {
    (a - b) % (HALF as int) >= HALF / 2
}

/// What a map holds after a number was entered: it replaces what the slot holds, unless that belongs
/// to a newer version.
pub open spec fn inserted(s: Map<u32, (u32, usize)>, portable: u64, value: usize) -> Map<
    u32,
    (u32, usize),
> {
    let (slot, version) = (portable_slot(portable), portable_version(portable));
    if s.contains_key(slot) && s[slot].0 != version && older(version, s[slot].0) {
        s
    } else {
        s.insert(slot, (version, value))
    }
}

/// An empty map, made by `slotmap::SecondaryMap::new`, which documents that nothing is in it.
#[verifier::external_body]
fn new_slots() -> (m: Slots)
    ensures
        forall|i: u32| !(#[trigger] slots(m).contains_key(i)),
{
    Slots { inner: SecondaryMap::new() }
}

/// Looks a key up with `slotmap::SecondaryMap::get`, which compares the version of the slot with that
/// of the key. `slotmap::KeyData::from_ffi` reads the portable form, and takes odd versions as they
/// are.
#[verifier::external_body]
fn get_slot(m: &Slots, portable: u64) -> (r: Option<usize>)
    requires
        portable_valid(portable),
    ensures
        r == portable_value(slots(*m), portable),
{
    m.inner.get(KeyData::from_ffi(portable).into()).copied()
}

/// Enters a number with `slotmap::SecondaryMap::insert`: it replaces what the slot holds, unless that
/// belongs to a newer version. The number that the same key stood for before is returned.
#[verifier::external_body]
fn insert_slot(m: &mut Slots, portable: u64, value: usize) -> (r: Option<
    usize,
>)
    requires
        portable_valid(portable),
    ensures
        r == portable_value(slots(*old(m)), portable),
        slots(*final(m)) == inserted(slots(*old(m)), portable, value),
{
    m.inner.insert(KeyData::from_ffi(portable).into(), value)
}

/// Removes a key with `slotmap::SecondaryMap::remove`, which returns the number that it stood for and
/// does nothing if it stood for none.
#[verifier::external_body]
fn remove_slot(m: &mut Slots, portable: u64) -> (r: Option<usize>)
    requires
        portable_valid(portable),
    ensures
        r == portable_value(slots(*old(m)), portable),
        slots(*final(m)) == if r is Some {
            slots(*old(m)).remove(portable_slot(portable))
        } else {
            slots(*old(m))
        },
{
    m.inner.remove(KeyData::from_ffi(portable).into())
}

/// Whether a list holds what a map holds, with the slots in ascending order.
pub open spec fn lists(entries: Seq<(u64, usize)>, s: Map<u32, (u32, usize)>) -> bool {
    &&& forall|i: int|
        0 <= i < entries.len() ==> portable_valid((#[trigger] entries[i]).0) && portable_value(
            s,
            entries[i].0,
        ) == Some(entries[i].1)
    &&& forall|i: int, j: int|
        0 <= i < j < entries.len() ==> portable_slot((#[trigger] entries[i]).0) < portable_slot(
            (#[trigger] entries[j]).0,
        )
    &&& forall|slot: u32| #[trigger]
        s.contains_key(slot) ==> exists|i: int|
            0 <= i < entries.len() && portable_slot((#[trigger] entries[i]).0) == slot
}

/// Lists a map with `slotmap::SecondaryMap::iter`, which walks its slots from the first one to the
/// last one. Every key that it yields was entered, so it is one that can stand for a value.
#[verifier::external_body]
fn list_slots(m: &Slots) -> (r: Vec<(u64, usize)>)
    ensures
        lists(r@, slots(*m)),
{
    m.inner.iter().map(|(k, v)| (k.data().as_ffi(), *v)).collect()
}

/// Copies a map with `slotmap::SecondaryMap::clone`, which keeps its contents.
#[verifier::external_body]
fn clone_slots(m: &Slots) -> (r: Slots)
    ensures
        slots(r) == slots(*m),
{
    Slots { inner: m.inner.clone() }
}

/// The slot of a key.
pub open spec fn slot_of(rank: u64) -> u32 {
    (rank / HALF) as u32
}

/// The version of a key.
pub open spec fn version_of(rank: u64) -> u32 {
    (rank % HALF) as u32
}

/// Whether a key can stand for a value: versions of slots in use are odd, and the last slot is
/// reserved for the key that never stands for one.
pub open spec fn valid(rank: u64) -> bool {
    rank % 2 == 1 && slot_of(rank) != u32::MAX
}

/// The portable form of a key, with its halves exchanged.
pub open spec fn portable_of(rank: u64) -> u64 {
    ((rank % HALF) * HALF + rank / HALF) as u64
}

proof fn lemma_portable(rank: u64)
    ensures
        (rank % HALF) * HALF + rank / HALF <= u64::MAX,
        portable_slot(portable_of(rank)) == slot_of(rank),
        portable_version(portable_of(rank)) == version_of(rank),
        portable_valid(portable_of(rank)) == valid(rank),
        portable_of(portable_of(rank)) == rank,
{
    let (hi, lo) = (rank / HALF, rank % HALF);
    assert(hi < HALF) by (nonlinear_arith)
        requires
            hi == rank / 0x1_0000_0000,
            HALF == 0x1_0000_0000,
    ;
    let p = lo * HALF + hi;
    assert(lo < HALF);
    assert(p <= u64::MAX);
    assert(p % (HALF as int) == hi && p / (HALF as int) == lo);
    assert(lo % 2 == rank % 2);
}

/// The portable form of a key, with its halves exchanged; and the key again from its portable form.
fn exchanged(rank: u64) -> (r: u64)
    ensures
        r == portable_of(rank),
{
    proof {
        lemma_portable(rank);
    }
    (rank % HALF) * HALF + rank / HALF
}

fn is_valid(rank: u64) -> (r: bool)
    ensures
        r == valid(rank),
{
    proof {
        lemma_portable(rank);
    }
    rank % 2 == 1 && rank / HALF != 0xffff_ffff
}

/// A map from slot keys to numbers.
#[derive(Debug)]
pub struct KeyMap {
    inner: Slots,
}

/// What a map holds under a key.
pub open spec fn value_at(s: Map<u32, (u32, usize)>, rank: u64) -> Option<usize> {
    let slot = slot_of(rank);
    if valid(rank) && s.contains_key(slot) && s[slot].0 == version_of(rank) {
        Some(s[slot].1)
    } else {
        None
    }
}

impl KeyMap {
    /// What the map holds.
    pub closed spec fn slots(self) -> Map<u32, (u32, usize)> {
        slots(self.inner)
    }

    /// What the map holds under a key.
    pub open spec fn at(self, rank: u64) -> Option<usize> {
        value_at(self.slots(), rank)
    }

    /// Every slot in use belongs to a key that can stand for a value.
    pub open spec fn wf(self) -> bool {
        forall|slot: u32| #[trigger]
            self.slots().contains_key(slot) ==> slot != u32::MAX && self.slots()[slot].0 % 2 == 1
    }

    /// An empty map.
    pub fn new() -> (m: KeyMap)
        ensures
            m.slots() == Map::<u32, (u32, usize)>::empty(),
            forall|rank: u64| #[trigger] m.at(rank) is None,
            m.wf(),
    {
        let m = KeyMap { inner: new_slots() };
        assert(m.slots() =~= Map::<u32, (u32, usize)>::empty());
        m
    }

    /// What the map holds under a key.
    pub fn get(&self, rank: u64) -> (r: Option<usize>)
        ensures
            r == self.at(rank),
    {
        proof {
            lemma_portable(rank);
        }
        if is_valid(rank) {
            get_slot(&self.inner, exchanged(rank))
        } else {
            None
        }
    }

    /// Enters a number under a key whose slot is free or holds a number of the same key already.
    pub fn insert(&mut self, rank: u64, value: usize)
        requires
            valid(rank),
            old(self).slots().contains_key(slot_of(rank)) ==> old(self).slots()[slot_of(rank)].0
                == version_of(rank),
        ensures
            final(self).slots() == old(self).slots().insert(
                slot_of(rank),
                (version_of(rank), value),
            ),
            final(self).at(rank) == Some(value),
            forall|other: u64|
                other != rank ==> #[trigger] final(self).at(other) == old(self).at(other),
            old(self).wf() ==> final(self).wf(),
    {
        proof {
            lemma_portable(rank);
        }
        insert_slot(&mut self.inner, exchanged(rank), value);
        proof {
            assert forall|other: u64| other != rank implies #[trigger] self.at(other) == old(
                self,
            ).at(other) by {
                if slot_of(other) == slot_of(rank) && version_of(other) == version_of(rank) {
                    lemma_same_key(other, rank);
                }
            }
        }
    }

    /// Takes out what the map holds under a key.
    pub fn remove(&mut self, rank: u64) -> (r: Option<usize>)
        ensures
            r == old(self).at(rank),
            final(self).slots() == if old(self).at(rank) is Some {
                old(self).slots().remove(slot_of(rank))
            } else {
                old(self).slots()
            },
            final(self).at(rank) is None,
            forall|other: u64|
                other != rank ==> #[trigger] final(self).at(other) == old(self).at(other),
            old(self).wf() ==> final(self).wf(),
    {
        proof {
            lemma_portable(rank);
            assert forall|other: u64|
                other != rank && slot_of(other) == slot_of(rank) && self.at(
                    rank,
                ) is Some implies #[trigger] self.at(other) is None by {
                if version_of(other) == version_of(rank) {
                    lemma_same_key(other, rank);
                }
            }
        }
        if is_valid(rank) {
            remove_slot(&mut self.inner, exchanged(rank))
        } else {
            None
        }
    }

    /// The keys and the numbers that they stand for, with the keys in ascending order.
    pub fn entries(&self) -> (r: Vec<(u64, usize)>)
        ensures
            is_listing(r@, *self),
    {
        let list = list_slots(&self.inner);
        let mut r: Vec<(u64, usize)> = Vec::new();
        let mut i: usize = 0;
        while i < list.len()
            invariant
                i <= list@.len(),
                r@.len() == i,
                forall|k: int|
                    0 <= k < i ==> #[trigger] r@[k] == (portable_of(list@[k].0), list@[k].1),
            decreases list@.len() - i,
        {
            let (portable, value): (u64, usize) = list[i];
            r.push((exchanged(portable), value));
            i = i + 1;
        }
        proof {
            lemma_listing(list@, r@, *self);
        }
        r
    }

    /// A map with the same contents.
    pub fn copied(&self) -> (r: KeyMap)
        ensures
            r.slots() == self.slots(),
            self.wf() ==> r.wf(),
    {
        let r = KeyMap { inner: clone_slots(&self.inner) };
        assert(r.slots() == self.slots());
        r
    }
}

/// A list holds what a map holds, with the keys in ascending order.
pub open spec fn is_listing(entries: Seq<(u64, usize)>, m: KeyMap) -> bool {
    &&& forall|i: int|
        0 <= i < entries.len() ==> #[trigger] m.at(entries[i].0) == Some(entries[i].1)
    &&& forall|i: int, j: int|
        0 <= i < j < entries.len() ==> (#[trigger] entries[i]).0 < (#[trigger] entries[j]).0
    &&& forall|i: int, j: int|
        0 <= i < j < entries.len() ==> slot_of((#[trigger] entries[i]).0) < slot_of(
            (#[trigger] entries[j]).0,
        )
    &&& forall|rank: u64| #[trigger]
        m.at(rank) is Some ==> exists|i: int|
            0 <= i < entries.len() && (#[trigger] entries[i]).0 == rank
}

/// **A key is its slot and its version.**
pub proof fn lemma_same_key(a: u64, b: u64)
    requires
        slot_of(a) == slot_of(b),
        version_of(a) == version_of(b),
    ensures
        a == b,
{
    lemma_portable(a);
    lemma_portable(b);
    assert(a == (a / HALF) * HALF + a % HALF);
    assert(b == (b / HALF) * HALF + b % HALF);
}

/// **Every slot in use belongs to a key** under which the map holds something.
pub proof fn lemma_slot_has_key(m: KeyMap, slot: u32) -> (rank: u64)
    requires
        m.wf(),
        m.slots().contains_key(slot),
    ensures
        valid(rank),
        slot_of(rank) == slot,
        version_of(rank) == m.slots()[slot].0,
        m.at(rank) == Some(m.slots()[slot].1),
{
    let version = m.slots()[slot].0;
    let rank = (slot * HALF + version) as u64;
    assert(slot * HALF + version <= u64::MAX);
    assert(rank / HALF == slot && rank % HALF == version);
    assert(rank % 2 == version % 2);
    rank
}

proof fn lemma_listing(list: Seq<(u64, usize)>, r: Seq<(u64, usize)>, m: KeyMap)
    requires
        lists(list, m.slots()),
        r.len() == list.len(),
        forall|k: int| 0 <= k < r.len() ==> #[trigger] r[k] == (portable_of(list[k].0), list[k].1),
    ensures
        is_listing(r, m),
{
    assert forall|i: int| 0 <= i < r.len() implies #[trigger] m.at(r[i].0) == Some(r[i].1) && slot_of(
        r[i].0,
    ) == portable_slot(list[i].0) by {
        lemma_portable(list[i].0);
        lemma_portable(r[i].0);
        assert(portable_valid(list[i].0));
    }
    assert forall|i: int, j: int| 0 <= i < j < r.len() implies slot_of((#[trigger] r[i]).0)
        < slot_of((#[trigger] r[j]).0) by {
        assert(m.at(r[i].0) is Some && m.at(r[j].0) is Some);
        assert(portable_slot(list[i].0) < portable_slot(list[j].0));
    }
    assert forall|i: int, j: int| 0 <= i < j < r.len() implies (#[trigger] r[i]).0 < (#[trigger] r[
        j
    ]).0 by {
        assert(slot_of(r[i].0) < slot_of(r[j].0));
        lemma_portable(r[i].0);
        lemma_portable(r[j].0);
        if r[i].0 >= r[j].0 {
            assert(r[i].0 / HALF >= r[j].0 / HALF);
        }
    }
    assert forall|rank: u64| #[trigger] m.at(rank) is Some implies exists|i: int|
        0 <= i < r.len() && (#[trigger] r[i]).0 == rank by {
        let i = choose|i: int|
            0 <= i < list.len() && portable_slot((#[trigger] list[i]).0) == slot_of(rank);
        assert(m.at(r[i].0) is Some);
        lemma_same_key(r[i].0, rank);
        assert(r[i].0 == rank);
    }
}

} // verus!
