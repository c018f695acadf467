//! Which layouts have a collision tracker, and how the trackers follow the layouts.
//!
//! The trackers are kept under the keys of their layouts. The map here holds how many items each of
//! them has.
use crate::keymap;
use crate::keymap::KeyMap;
use crate::optimizer::bpp::layouts;
use crate::optimizer::bpp::layouts::{find_layout, LayKey, LayoutState};
use vstd::prelude::*;

verus! {

/// The keys of the open layouts: each can stand for a layout, and no two share a slot.
pub open spec fn sound_layouts(layouts: Seq<LayoutState>) -> bool {
    &&& forall|i: int| 0 <= i < layouts.len() ==> keymap::valid((#[trigger] layouts[i]).key.rank)
    &&& forall|i: int, j: int|
        0 <= i < j < layouts.len() ==> keymap::slot_of((#[trigger] layouts[i]).key.rank)
            != keymap::slot_of((#[trigger] layouts[j]).key.rank)
}

/// How many items the layout with this key has; `None` if there is none.
pub open spec fn size_in(layouts: Seq<LayoutState>, rank: u64) -> Option<usize> {
    let key = LayKey { rank };
    if layouts::has_layout(layouts, key) {
        Some(layouts[layouts::layout_position(layouts, key)].items@.len() as usize)
    } else {
        None
    }
}

/// There is exactly one tracker for every open layout, and it has as many items as the layout.
pub open spec fn tracks(own: KeyMap, layouts: Seq<LayoutState>) -> bool {
    forall|rank: u64| #[trigger] own.at(rank) == size_in(layouts, rank)
}

/// Every key of the map belongs to an open layout.
pub open spec fn within(m: KeyMap, layouts: Seq<LayoutState>) -> bool {
    forall|rank: u64| #[trigger]
        m.at(rank) is Some ==> layouts::has_layout(layouts, LayKey { rank })
}

proof fn lemma_same_layout(layouts: Seq<LayoutState>, a: u64, b: u64)
    requires
        sound_layouts(layouts),
        layouts::has_layout(layouts, LayKey { rank: a }),
        layouts::has_layout(layouts, LayKey { rank: b }),
        keymap::slot_of(a) == keymap::slot_of(b),
    ensures
        a == b,
        keymap::valid(a),
{
    let i = choose|i: int| 0 <= i < layouts.len() && (#[trigger] layouts[i]).key == (LayKey { rank: a });
    let j = choose|j: int| 0 <= j < layouts.len() && (#[trigger] layouts[j]).key == (LayKey { rank: b });
    if i < j {
        assert(keymap::slot_of(layouts[i].key.rank) != keymap::slot_of(layouts[j].key.rank));
    } else if j < i {
        assert(keymap::slot_of(layouts[j].key.rank) != keymap::slot_of(layouts[i].key.rank));
    }
}

proof fn lemma_room_for(m: KeyMap, layouts: Seq<LayoutState>, rank: u64)
    requires
        m.wf(),
        within(m, layouts),
        sound_layouts(layouts),
        layouts::has_layout(layouts, LayKey { rank }),
    ensures
        keymap::valid(rank),
        m.slots().contains_key(keymap::slot_of(rank)) ==> m.slots()[keymap::slot_of(rank)].0
            == keymap::version_of(rank),
{
    lemma_same_layout(layouts, rank, rank);
    if m.slots().contains_key(keymap::slot_of(rank)) {
        let other = keymap::lemma_slot_has_key(m, keymap::slot_of(rank));
        assert(m.at(other) is Some);
        lemma_same_layout(layouts, rank, other);
    }
}

/// How many items the layout with this key has; `None` if there is none.
pub fn layout_size(layouts: &Vec<LayoutState>, rank: u64) -> (r: Option<usize>)
    ensures
        r == size_in(layouts@, rank),
{
    match find_layout(layouts, LayKey { rank }) {
        Some(p) => {
            assert(layouts@[p as int].key == (LayKey { rank }));
            Some(layouts[p].items.len())
        },
        None => None,
    }
}

/// Builds the trackers of all open layouts anew.
pub fn rebuild_trackers(layouts: &Vec<LayoutState>) -> (own: KeyMap)
    requires
        sound_layouts(layouts@),
    ensures
        own.wf(),
        tracks(own, layouts@),
{
    let mut own = KeyMap::new();
    let mut i: usize = 0;
    while i < layouts.len()
        invariant
            i <= layouts@.len(),
            sound_layouts(layouts@),
            own.wf(),
            forall|rank: u64| #[trigger]
                own.at(rank) == if layouts::has_layout(layouts@.take(i as int), LayKey { rank }) {
                    size_in(layouts@, rank)
                } else {
                    None
                },
        decreases layouts@.len() - i,
    {
        let rank: u64 = layouts[i].key.rank;
        let ghost (done, more) = (layouts@.take(i as int), layouts@.take(i + 1));
        let size: usize = match layout_size(layouts, rank) {
            Some(n) => n,
            None => 0,
        };
        proof {
            assert(layouts@[i as int].key == (LayKey { rank }));
            assert(layouts::has_layout(layouts@, LayKey { rank }));
            assert(within(own, layouts@)) by {
                assert forall|r: u64| #[trigger] own.at(r) is Some implies layouts::has_layout(
                    layouts@,
                    LayKey { rank: r },
                ) by {
                    let k = choose|k: int|
                        0 <= k < done.len() && (#[trigger] done[k]).key == (LayKey { rank: r });
                    assert(layouts@[k] == done[k]);
                }
            }
            lemma_room_for(own, layouts@, rank);
            assert forall|r: u64| layouts::has_layout(more, LayKey { rank: r }) == (
            layouts::has_layout(done, LayKey { rank: r }) || r == rank) by {
                if layouts::has_layout(more, LayKey { rank: r }) {
                    let k = choose|k: int|
                        0 <= k < more.len() && (#[trigger] more[k]).key == (LayKey { rank: r });
                    if k < i {
                        assert(done[k] == more[k]);
                    } else {
                        assert(more[k] == layouts@[i as int]);
                    }
                }
                if layouts::has_layout(done, LayKey { rank: r }) {
                    let k = choose|k: int|
                        0 <= k < done.len() && (#[trigger] done[k]).key == (LayKey { rank: r });
                    assert(more[k] == done[k]);
                }
                if r == rank {
                    assert(more[i as int] == layouts@[i as int]);
                    assert(more[i as int].key == (LayKey { rank: r }));
                }
            }
        }
        own.insert(rank, size);
        i = i + 1;
    }
    proof {
        assert(layouts@.take(i as int) =~= layouts@);
    }
    own
}

/// The trackers whose layout no longer exists, in the order of their keys.
pub open spec fn is_stale_list(
    dropped: Seq<LayKey>,
    own: KeyMap,
    layouts: Seq<LayoutState>,
) -> bool {
    &&& forall|i: int, j: int|
        0 <= i < j < dropped.len() ==> (#[trigger] dropped[i]).rank < (#[trigger] dropped[j]).rank
    &&& forall|rank: u64| #[trigger]
        dropped.contains(LayKey { rank }) == (own.at(rank) is Some && !layouts::has_layout(
            layouts,
            LayKey { rank },
        ))
}

fn drop_stale(own: &mut KeyMap, layouts: &Vec<LayoutState>) -> (dropped: Vec<LayKey>)
    requires
        old(own).wf(),
    ensures
        final(own).wf(),
        is_stale_list(dropped@, *old(own), layouts@),
        forall|rank: u64| #[trigger]
            final(own).at(rank) == if layouts::has_layout(layouts@, LayKey { rank }) {
                old(own).at(rank)
            } else {
                None
            },
{
    let entries = own.entries();
    let mut dropped: Vec<LayKey> = Vec::new();
    let mut i: usize = 0;
    while i < entries.len()
        invariant
            i <= entries@.len(),
            own.wf(),
            keymap::is_listing(entries@, *old(own)),
            forall|a: int, b: int|
                0 <= a < b < dropped@.len() ==> (#[trigger] dropped@[a]).rank < (
                #[trigger] dropped@[b]).rank,
            forall|a: int, b: int|
                0 <= a < dropped@.len() && i <= b < entries@.len() ==> (#[trigger] dropped@[a]).rank
                    < (#[trigger] entries@[b]).0,
            forall|a: int|
                0 <= a < dropped@.len() ==> old(own).at((#[trigger] dropped@[a]).rank) is Some
                    && !layouts::has_layout(layouts@, dropped@[a]),
            forall|k: int|
                0 <= k < i && !layouts::has_layout(
                    layouts@,
                    LayKey { rank: (#[trigger] entries@[k]).0 },
                ) ==> dropped@.contains(LayKey { rank: entries@[k].0 }),
            forall|rank: u64| #[trigger]
                own.at(rank) == if dropped@.contains(LayKey { rank }) {
                    None
                } else {
                    old(own).at(rank)
                },
        decreases entries@.len() - i,
    {
        let rank: u64 = entries[i].0;
        let ghost before = dropped@;
        assert(old(own).at(entries@[i as int].0) is Some);
        if find_layout(layouts, LayKey { rank }).is_none() {
            own.remove(rank);
            dropped.push(LayKey { rank });
            proof {
                assert forall|r: u64| #[trigger] dropped@.contains(LayKey { rank: r }) == (
                before.contains(LayKey { rank: r }) || r == rank) by {
                    if before.contains(LayKey { rank: r }) {
                        let k = choose|k: int|
                            0 <= k < before.len() && before[k] == (LayKey { rank: r });
                        assert(dropped@[k] == before[k]);
                    }
                    if r == rank {
                        assert(dropped@[before.len() as int] == (LayKey { rank: r }));
                    }
                }
            }
        } else {
            assert(layouts::has_layout(layouts@, LayKey { rank })) by {
                let p = layouts::layout_position(layouts@, LayKey { rank });
                assert(layouts@[p].key == (LayKey { rank }));
            }
        }
        i = i + 1;
    }
    proof {
        assert forall|rank: u64| #[trigger] dropped@.contains(LayKey { rank }) == (old(own).at(
            rank,
        ) is Some && !layouts::has_layout(layouts@, LayKey { rank })) by {
            if dropped@.contains(LayKey { rank }) {
                let k = choose|k: int| 0 <= k < dropped@.len() && dropped@[k] == (LayKey { rank });
                assert(old(own).at(dropped@[k].rank) is Some);
            }
            if old(own).at(rank) is Some {
                let k = choose|k: int| 0 <= k < entries@.len() && (#[trigger] entries@[k]).0 == rank;
                assert(entries@[k].0 == rank);
            }
        }
    }
    dropped
}

/// What the trackers hold after they took over given ones: the given ones, and for the other open
/// layouts what they had.
pub open spec fn taken_over(
    own: KeyMap,
    given: KeyMap,
    layouts: Seq<LayoutState>,
    rank: u64,
) -> Option<usize> {
    if given.at(rank) is Some {
        given.at(rank)
    } else if layouts::has_layout(layouts, LayKey { rank }) {
        own.at(rank)
    } else {
        None
    }
}

/// A tracker that is taken over.
#[derive(Debug, Clone, Copy, PartialEq, Eq, Structural)]
pub struct TakenOver {
    /// Its layout.
    pub key: LayKey,
    /// How many items it has.
    pub size: usize,
    /// How many items the tracker has that is there already, if there is one.
    pub present: Option<usize>,
}

/// The trackers that are taken over, in the order of their keys.
pub open spec fn is_takeover(
    list: Seq<TakenOver>,
    own: KeyMap,
    given: KeyMap,
    layouts: Seq<LayoutState>,
) -> bool {
    &&& forall|i: int|
        0 <= i < list.len() ==> given.at((#[trigger] list[i]).key.rank) == Some(list[i].size)
            && list[i].present == own.at(list[i].key.rank)
    &&& forall|i: int, j: int|
        0 <= i < j < list.len() ==> (#[trigger] list[i]).key.rank < (#[trigger] list[j]).key.rank
    &&& forall|rank: u64| #[trigger]
        given.at(rank) is Some ==> exists|i: int|
            0 <= i < list.len() && (#[trigger] list[i]).key.rank == rank
}

fn take_over(own: &mut KeyMap, given: &KeyMap, layouts: &Vec<LayoutState>) -> (r: (
    Vec<LayKey>,
    Vec<TakenOver>,
))
    requires
        old(own).wf(),
        sound_layouts(layouts@),
        within(*given, layouts@),
    ensures
        final(own).wf(),
        is_stale_list(r.0@, *old(own), layouts@),
        is_takeover(r.1@, *old(own), *given, layouts@),
        forall|rank: u64| #[trigger]
            final(own).at(rank) == taken_over(*old(own), *given, layouts@, rank),
{
    let dropped = drop_stale(own, layouts);
    let ghost cleaned = *own;
    let entries = given.entries();
    let mut list: Vec<TakenOver> = Vec::new();
    let mut i: usize = 0;
    while i < entries.len()
        invariant
            i <= entries@.len(),
            own.wf(),
            sound_layouts(layouts@),
            within(*given, layouts@),
            within(*own, layouts@),
            keymap::is_listing(entries@, *given),
            list@.len() == i,
            forall|k: int|
                0 <= k < i ==> (#[trigger] list@[k]).key.rank == entries@[k].0 && list@[k].size
                    == entries@[k].1 && list@[k].present == cleaned.at(entries@[k].0),
            forall|k: int|
                0 <= k < i ==> own.at((#[trigger] entries@[k]).0) == Some(entries@[k].1),
            forall|k: int|
                i <= k < entries@.len() ==> own.at((#[trigger] entries@[k]).0) == cleaned.at(
                    entries@[k].0,
                ),
            forall|rank: u64|
                given.at(rank) is None ==> #[trigger] own.at(rank) == cleaned.at(rank),
        decreases entries@.len() - i,
    {
        let (rank, size): (u64, usize) = entries[i];
        assert(given.at(entries@[i as int].0) is Some);
        proof {
            lemma_room_for(*own, layouts@, rank);
        }
        list.push(TakenOver { key: LayKey { rank }, size, present: own.get(rank) });
        let ghost before = *own;
        own.insert(rank, size);
        proof {
            assert forall|r: u64| #[trigger] own.at(r) is Some implies layouts::has_layout(
                layouts@,
                LayKey { rank: r },
            ) by {
                if r != rank {
                    assert(before.at(r) is Some);
                }
            }
        }
        i = i + 1;
    }
    proof {
        assert forall|rank: u64| #[trigger] own.at(rank) == taken_over(
            *old(own),
            *given,
            layouts@,
            rank,
        ) by {
            if given.at(rank) is Some {
                let k = choose|k: int| 0 <= k < entries@.len() && (#[trigger] entries@[k]).0 == rank;
                assert(given.at(entries@[k].0) == Some(entries@[k].1));
                assert(own.at(entries@[k].0) == Some(entries@[k].1));
            } else {
                assert(own.at(rank) == cleaned.at(rank));
            }
        }
        assert forall|k: int| 0 <= k < list@.len() implies given.at((#[trigger] list@[k]).key.rank)
            == Some(list@[k].size) && list@[k].present == old(own).at(list@[k].key.rank) by {
            assert(given.at(entries@[k].0) == Some(entries@[k].1));
            assert(layouts::has_layout(layouts@, LayKey { rank: entries@[k].0 }));
        }
        assert forall|rank: u64| #[trigger] given.at(rank) is Some implies exists|k: int|
            0 <= k < list@.len() && (#[trigger] list@[k]).key.rank == rank by {
            let k = choose|k: int| 0 <= k < entries@.len() && (#[trigger] entries@[k]).0 == rank;
            assert(list@[k].key.rank == rank);
        }
        assert forall|a: int, b: int| 0 <= a < b < list@.len() implies (#[trigger] list@[a]).key.rank
            < (#[trigger] list@[b]).key.rank by {
            assert(entries@[a].0 < entries@[b].0);
        }
    }
    (dropped, list)
}

/// How the trackers follow a restored problem.
#[derive(Debug)]
pub enum TrackerSync {
    /// The keys of the layouts changed: every tracker is built anew from its layout.
    Rebuild,
    /// Some trackers are dropped, then the given ones are taken over.
    PerLayout {
        /// The trackers to drop.
        dropped: Vec<LayKey>,
        /// The trackers to take over.
        taken_over: Vec<TakenOver>,
    },
}

/// How the trackers follow a restored problem, given those of another state, if there are any.
pub open spec fn is_sync(
    r: TrackerSync,
    rebuilt: bool,
    own: KeyMap,
    after: KeyMap,
    given: Option<KeyMap>,
    layouts: Seq<LayoutState>,
) -> bool {
    match r {
        TrackerSync::Rebuild => rebuilt && tracks(after, layouts),
        TrackerSync::PerLayout { dropped, taken_over: list } => {
            &&& !rebuilt
            &&& given is Some
            &&& is_stale_list(dropped@, own, layouts)
            &&& is_takeover(list@, own, given->0, layouts)
            &&& forall|rank: u64| #[trigger]
                after.at(rank) == taken_over(own, given->0, layouts, rank)
        },
    }
}

/// The map that is given, as a mathematical value.
pub open spec fn given_map(given: Option<&KeyMap>) -> Option<KeyMap> {
    match given {
        Some(m) => Some(*m),
        None => None,
    }
}

/// Lets the trackers follow a restored problem. They are built anew if the keys of the layouts
/// changed or no others are given to take over.
pub fn follow(own: &mut KeyMap, keys_changed: bool, given: Option<&KeyMap>, layouts: &Vec<LayoutState>) -> (r:
    TrackerSync)
    requires
        old(own).wf(),
        sound_layouts(layouts@),
        !keys_changed && given is Some ==> within(*(given->0), layouts@),
    ensures
        final(own).wf(),
        is_sync(
            r,
            keys_changed || given is None,
            *old(own),
            *final(own),
            given_map(given),
            layouts@,
        ),
{
    if !keys_changed {
        if let Some(m) = given {
            let (dropped, list) = take_over(own, m, layouts);
            return TrackerSync::PerLayout { dropped, taken_over: list };
        }
    }
    *own = rebuild_trackers(layouts);
    TrackerSync::Rebuild
}

/// **After following there is one tracker per open layout**: if the given trackers are those of the
/// open layouts, the own ones are the same afterwards, whatever they were before.
pub proof fn lemma_followers_match(
    r: TrackerSync,
    rebuilt: bool,
    own: KeyMap,
    after: KeyMap,
    given: Option<KeyMap>,
    layouts: Seq<LayoutState>,
)
    requires
        is_sync(r, rebuilt, own, after, given, layouts),
        given matches Some(m) ==> tracks(m, layouts),
    ensures
        tracks(after, layouts),
{
    if let TrackerSync::PerLayout { dropped, taken_over: list } = r {
        assert forall|rank: u64| #[trigger] after.at(rank) == size_in(layouts, rank) by {
            assert((given->0).at(rank) == size_in(layouts, rank));
            assert(after.at(rank) == taken_over(own, given->0, layouts, rank));
        }
    }
}

/// Brings the trackers up to date after items moved between layouts: the tracker of a layout that
/// was closed is dropped, and those of the layouts that changed are built anew.
pub fn retrack(
    own: &mut KeyMap,
    closed: Option<LayKey>,
    changed: &Vec<LayKey>,
    layouts: &Vec<LayoutState>,
)
    requires
        old(own).wf(),
        sound_layouts(layouts@),
        closed matches Some(k) ==> !layouts::has_layout(layouts@, k),
        forall|i: int|
            0 <= i < changed@.len() ==> layouts::has_layout(layouts@, #[trigger] changed@[i]),
        forall|rank: u64|
            !changed@.contains(LayKey { rank }) && closed != Some(LayKey { rank })
                ==> #[trigger] old(own).at(rank) == size_in(layouts@, rank),
        forall|rank: u64|
            changed@.contains(LayKey { rank }) && #[trigger] old(own).at(rank) is Some
                ==> layouts::has_layout(layouts@, LayKey { rank }),
    ensures
        final(own).wf(),
        tracks(*final(own), layouts@),
{
    if let Some(k) = closed {
        own.remove(k.rank);
    }
    proof {
        assert forall|r: u64| #[trigger] own.at(r) is Some implies layouts::has_layout(
            layouts@,
            LayKey { rank: r },
        ) by {
            assert(own.at(r) == old(own).at(r));
        }
    }
    let mut i: usize = 0;
    while i < changed.len()
        invariant
            i <= changed@.len(),
            own.wf(),
            sound_layouts(layouts@),
            within(*own, layouts@),
            forall|k: int|
                0 <= k < changed@.len() ==> layouts::has_layout(layouts@, #[trigger] changed@[k]),
            forall|rank: u64|
                !changed@.contains(LayKey { rank }) ==> #[trigger] own.at(rank) == size_in(
                    layouts@,
                    rank,
                ),
            forall|k: int|
                0 <= k < i ==> own.at((#[trigger] changed@[k]).rank) == size_in(
                    layouts@,
                    changed@[k].rank,
                ),
        decreases changed@.len() - i,
    {
        let rank: u64 = changed[i].rank;
        assert(layouts::has_layout(layouts@, changed@[i as int]));
        assert(changed@[i as int] == (LayKey { rank }));
        proof {
            lemma_room_for(*own, layouts@, rank);
        }
        let size: usize = match layout_size(layouts, rank) {
            Some(n) => n,
            None => 0,
        };
        let ghost before = *own;
        own.insert(rank, size);
        proof {
            assert forall|r: u64| #[trigger] own.at(r) is Some implies layouts::has_layout(
                layouts@,
                LayKey { rank: r },
            ) by {
                if r != rank {
                    assert(before.at(r) is Some);
                }
            }
            assert forall|r: u64| !changed@.contains(LayKey { rank: r }) implies #[trigger] own.at(r)
                == size_in(layouts@, r) by {
                assert(r != rank);
                assert(before.at(r) == size_in(layouts@, r));
            }
        }
        i = i + 1;
    }
    proof {
        assert forall|rank: u64| #[trigger] own.at(rank) == size_in(layouts@, rank) by {
            if changed@.contains(LayKey { rank }) {
                let k = choose|k: int| 0 <= k < changed@.len() && changed@[k] == (LayKey { rank });
                assert(own.at(changed@[k].rank) == size_in(layouts@, changed@[k].rank));
            }
        }
    }
}

/// What becomes of the trackers when an item was moved.
#[derive(Debug, Clone, Copy, PartialEq, Eq, Structural)]
pub enum MoveSync {
    /// The tracker of the layout takes the move down.
    Register,
    /// The layout was closed and opened again under another key: its tracker is built anew.
    Rebuild,
}

/// Follows an item that was moved within its bin. The layout has another key afterwards if the item was
/// the only one: it was closed when the item was taken out, and opened again.
pub fn follow_move(own: &mut KeyMap, from: LayKey, to: LayKey, layouts: &Vec<LayoutState>) -> (r:
    MoveSync)
    requires
        old(own).wf(),
        sound_layouts(layouts@),
        layouts::has_layout(layouts@, to),
        from != to ==> !layouts::has_layout(layouts@, from),
        forall|rank: u64|
            (LayKey { rank }) != from && (LayKey { rank }) != to ==> #[trigger] old(own).at(rank)
                == size_in(layouts@, rank),
        from == to ==> old(own).at(to.rank) == size_in(layouts@, to.rank),
    ensures
        final(own).wf(),
        tracks(*final(own), layouts@),
        r == (if from == to {
            MoveSync::Register
        } else {
            MoveSync::Rebuild
        }),
        from == to ==> *final(own) == *old(own),
{
    if from == to {
        return MoveSync::Register;
    }
    let changed: Vec<LayKey> = vec![to];
    assert(changed@[0] == to);
    assert forall|rank: u64| #[trigger]
        changed@.contains(LayKey { rank }) == ((LayKey { rank }) == to) by {
        if rank == to.rank {
            assert(changed@[0] == (LayKey { rank }));
        }
    }
    retrack(own, Some(from), &changed, layouts);
    MoveSync::Rebuild
}

/// **A tracker has the items of its layout**: where every open layout is tracked, the one of a layout has as
/// many items as the layout, and there is none without a layout.
pub proof fn lemma_tracker_has_the_items_of_its_layout(own: KeyMap, layouts: Seq<LayoutState>, rank: u64)
    requires
        tracks(own, layouts),
        sound_layouts(layouts),
    ensures
        own.at(rank) is Some <==> exists|i: int|
            0 <= i < layouts.len() && (#[trigger] layouts[i]).key.rank == rank,
        forall|i: int|
            0 <= i < layouts.len() && (#[trigger] layouts[i]).key.rank == rank ==> own.at(rank)
                == Some(layouts[i].items@.len() as usize),
{
    let key = LayKey { rank };
    assert(own.at(rank) == size_in(layouts, rank));
    assert(layouts::distinct_layouts(layouts)) by {
        assert forall|i: int, j: int| 0 <= i < j < layouts.len() implies (
        #[trigger] layouts[i]).key != (#[trigger] layouts[j]).key by {
            assert(keymap::slot_of(layouts[i].key.rank) != keymap::slot_of(layouts[j].key.rank));
        }
    }
    if own.at(rank) is Some {
        let i = choose|i: int| 0 <= i < layouts.len() && (#[trigger] layouts[i]).key == key;
        assert(layouts[i].key.rank == rank);
    }
    assert forall|i: int| 0 <= i < layouts.len() && (#[trigger] layouts[i]).key.rank
        == rank implies own.at(rank) == Some(layouts[i].items@.len() as usize) by {
        assert(layouts[i].key == key);
        layouts::lemma_found_under_its_key(layouts, i);
    }
}

/// **What is given prevails, what is closed is dropped, and the rest is kept.**
pub proof fn lemma_what_is_given_prevails(
    own: KeyMap,
    given: KeyMap,
    layouts: Seq<LayoutState>,
    rank: u64,
)
    ensures
        given.at(rank) is Some ==> taken_over(own, given, layouts, rank) == given.at(rank),
        given.at(rank) is None && layouts::has_layout(layouts, LayKey { rank }) ==> taken_over(
            own,
            given,
            layouts,
            rank,
        ) == own.at(rank),
        given.at(rank) is None && !layouts::has_layout(layouts, LayKey { rank }) ==> taken_over(
            own,
            given,
            layouts,
            rank,
        ) is None,
{
}

/// **A takeover knows what is there already**: every given tracker is listed, once, with its size and with that
/// of the own tracker of the same layout, and exactly the own trackers without a layout are dropped.
pub proof fn lemma_takeover_knows_what_is_there(
    r: TrackerSync,
    own: KeyMap,
    after: KeyMap,
    given: Option<KeyMap>,
    layouts: Seq<LayoutState>,
    rank: u64,
)
    requires
        is_sync(r, false, own, after, given, layouts),
        given is Some,
    ensures
        r matches TrackerSync::PerLayout { dropped, taken_over: list } && ((given->0).at(rank) matches
            Some(n) ==> exists|i: int|
            0 <= i < list@.len() && #[trigger] list@[i] == (TakenOver {
                key: LayKey { rank },
                size: n,
                present: own.at(rank),
            }) && forall|j: int|
                0 <= j < list@.len() && j != i ==> (#[trigger] list@[j]).key.rank != rank) && (
        dropped@.contains(LayKey { rank }) <==> own.at(rank) is Some && !layouts::has_layout(
            layouts,
            LayKey { rank },
        )),
{
    if let TrackerSync::PerLayout { dropped, taken_over: list } = r {
        if (given->0).at(rank) is Some {
            let i = choose|i: int| 0 <= i < list@.len() && (#[trigger] list@[i]).key.rank == rank;
            assert((given->0).at(list@[i].key.rank) == Some(list@[i].size));
            assert forall|j: int| 0 <= j < list@.len() && j != i implies (
            #[trigger] list@[j]).key.rank != rank by {
                if j < i {
                    assert(list@[j].key.rank < list@[i].key.rank);
                } else {
                    assert(list@[i].key.rank < list@[j].key.rank);
                }
            }
        }
    }
}

} // verus!
