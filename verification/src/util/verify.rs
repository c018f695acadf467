//! The checks that a solution has to pass before it is written to disk.
//!
//! The optimizer is free to hold infeasible states, but nothing downstream can tell a good export
//! from a bad one. A solution that fails a check is refused.
use crate::optimizer::bpp::layouts::LayKey;
use crate::optimizer::sheets;
use crate::optimizer::sheets::{straddling_items, SheetStats};
use crate::scalar::Scalar;
use crate::text;
use crate::text::push_decimal;
use std::collections::BTreeMap;
use vstd::std_specs::cmp::OrdSpec;
use vstd::std_specs::iter::IteratorSpec;
use vstd::prelude::*;

verus! {

broadcast use {vstd::std_specs::btree::group_btree_axioms, vstd::laws_cmp::group_laws_cmp};

/// Every entry is smaller than the ones behind it.
pub open spec fn strictly_ascending(ids: Seq<usize>) -> bool {
    forall|i: int, j: int| 0 <= i < j < ids.len() ==> #[trigger] ids[i] < #[trigger] ids[j]
}

/// How often an id is counted; `0` if it is not.
pub open spec fn count_of(counts: Map<usize, usize>, id: usize) -> usize {
    if counts.contains_key(id) {
        counts[id]
    } else {
        0
    }
}

fn count(counts: &BTreeMap<usize, usize>, id: usize) -> (r: usize)
    ensures
        r == count_of(counts@, id),
{
    match counts.get(&id) {
        Some(n) => *n,
        None => 0,
    }
}

fn keys_of(counts: &BTreeMap<usize, usize>) -> (r: Vec<usize>)
    ensures
        strictly_ascending(r@),
        forall|id: usize| #[trigger] r@.contains(id) == counts@.contains_key(id),
{
    let mut r: Vec<usize> = Vec::new();
    for k in it: counts.keys()
        invariant
            it.seq() == vstd::std_specs::btree::spec_keys_iter(counts).remaining(),
            r@.len() == it.index(),
            forall|i: int| 0 <= i < r@.len() ==> #[trigger] r@[i] == *it.seq()[i],
    {
        r.push(*k);
    }
    proof {
        let all = vstd::std_specs::btree::spec_keys_iter(counts).remaining();
        assert(r@ =~= all.unref());
        assert(vstd::laws_cmp::obeys_cmp::<&usize>());
        assert(vstd::std_specs::btree::increasing_seq(all));
        assert forall|i: int, j: int| 0 <= i < j < r@.len() implies #[trigger] r@[i]
            < #[trigger] r@[j] by {
            assert(OrdSpec::cmp_spec(&all[i], &all[j]) is Less);
        }
        assert forall|id: usize| #[trigger] r@.contains(id) == counts@.contains_key(id) by {
            assert(all.unref().to_set().contains(id) == counts@.dom().contains(id));
        }
    }
    r
}

/// What is placed covers the demand exactly: every id is placed as often as it is demanded. An id that
/// is demanded `0` times need not be counted at all.
pub open spec fn covers(placed: Map<usize, usize>, demand: Map<usize, usize>) -> bool {
    forall|id: usize|
        #![trigger count_of(placed, id)]
        #![trigger count_of(demand, id)]
        count_of(placed, id) == count_of(demand, id)
}

/// Whether the counts of an id differ.
pub open spec fn mismatch(placed: Map<usize, usize>, demand: Map<usize, usize>, id: usize) -> bool {
    (placed.contains_key(id) || demand.contains_key(id)) && count_of(placed, id) != count_of(
        demand,
        id,
    )
}

/// The ids whose counts differ, in ascending order.
pub open spec fn is_mismatch_list(
    ids: Seq<usize>,
    placed: Map<usize, usize>,
    demand: Map<usize, usize>,
) -> bool {
    &&& strictly_ascending(ids)
    &&& forall|id: usize| #[trigger] ids.contains(id) == mismatch(placed, demand, id)
}

/// The ids whose counts differ, in ascending order.
pub open spec fn mismatched(placed: Map<usize, usize>, demand: Map<usize, usize>) -> Seq<usize> {
    choose|ids: Seq<usize>| is_mismatch_list(ids, placed, demand)
}

spec fn mismatched_below(placed: Map<usize, usize>, demand: Map<usize, usize>, n: nat) -> Seq<usize>
    decreases n,
{
    if n == 0 {
        seq![]
    } else {
        let before = mismatched_below(placed, demand, (n - 1) as nat);
        if mismatch(placed, demand, (n - 1) as usize) {
            before.push((n - 1) as usize)
        } else {
            before
        }
    }
}

proof fn lemma_mismatched_below(placed: Map<usize, usize>, demand: Map<usize, usize>, n: nat)
    requires
        n <= usize::MAX + 1,
    ensures
        strictly_ascending(mismatched_below(placed, demand, n)),
        forall|id: usize| #[trigger]
            mismatched_below(placed, demand, n).contains(id) == (id < n && mismatch(placed, demand, id)),
    decreases n,
{
    if n > 0 {
        let last = (n - 1) as usize;
        let before = mismatched_below(placed, demand, last as nat);
        let all = mismatched_below(placed, demand, n);
        lemma_mismatched_below(placed, demand, last as nat);
        assert forall|i: int| 0 <= i < before.len() implies #[trigger] before[i] < last by {
            assert(before.contains(before[i]));
        }
        assert forall|id: usize| #[trigger]
            all.contains(id) == (id < n && mismatch(placed, demand, id)) by {
            if before.contains(id) {
                let k = choose|k: int| 0 <= k < before.len() && before[k] == id;
                assert(all[k] == id);
            }
            if mismatch(placed, demand, last) {
                assert(all[before.len() as int] == last);
            }
            if all.contains(id) {
                let k = choose|k: int| 0 <= k < all.len() && all[k] == id;
                if k < before.len() {
                    assert(before[k] == id);
                }
            }
        }
    }
}

/// **There is always a list of the ids whose counts differ**, and [`mismatched`] is it.
pub proof fn lemma_mismatched_is_the_list(placed: Map<usize, usize>, demand: Map<usize, usize>)
    ensures
        is_mismatch_list(mismatched(placed, demand), placed, demand),
{
    let n = (usize::MAX + 1) as nat;
    lemma_mismatched_below(placed, demand, n);
    assert(is_mismatch_list(mismatched_below(placed, demand, n), placed, demand));
}

proof fn lemma_ascending_unique(a: Seq<usize>, b: Seq<usize>)
    requires
        strictly_ascending(a),
        strictly_ascending(b),
        forall|id: usize| #[trigger] a.contains(id) == b.contains(id),
    ensures
        a == b,
    decreases a.len(),
{
    if a.len() == 0 {
        if b.len() > 0 {
            assert(b.contains(b[0]));
            assert(a.contains(b[0]));
        }
        assert(a =~= b);
    } else {
        let x = a.last();
        assert(a[a.len() - 1] == x);
        assert(a.contains(x));
        let p = choose|p: int| 0 <= p < b.len() && b[p] == x;
        let y = b.last();
        assert(b[b.len() - 1] == y);
        assert(b.contains(y));
        assert(a.contains(y));
        let q = choose|q: int| 0 <= q < a.len() && a[q] == y;
        assert(x == y) by {
            if p < b.len() - 1 {
                assert(b[p] < b[b.len() - 1]);
                assert(a[q] <= a[a.len() - 1]);
            }
        }
        let a1 = a.drop_last();
        let b1 = b.drop_last();
        assert forall|id: usize| #[trigger] a1.contains(id) == b1.contains(id) by {
            lemma_drop_last_contains(a, id);
            lemma_drop_last_contains(b, id);
            assert(a.contains(id) == b.contains(id));
        }
        lemma_ascending_unique(a1, b1);
        assert(a =~= a1.push(x));
        assert(b =~= b1.push(x));
    }
}

proof fn lemma_drop_last_contains(a: Seq<usize>, id: usize)
    requires
        strictly_ascending(a),
        a.len() > 0,
    ensures
        a.drop_last().contains(id) == (a.contains(id) && id != a.last()),
{
    let b = a.drop_last();
    if a.contains(id) && id != a.last() {
        let k = choose|k: int| 0 <= k < a.len() && a[k] == id;
        assert(b[k] == id);
    }
    if b.contains(id) {
        let k = choose|k: int| 0 <= k < b.len() && b[k] == id;
        assert(a[k] == id);
        assert(a[k] < a[a.len() - 1]);
    }
}

/// Merges two ascending lists into one, without repeats.
fn merged(a: &Vec<usize>, b: &Vec<usize>) -> (r: Vec<usize>)
    requires
        strictly_ascending(a@),
        strictly_ascending(b@),
    ensures
        strictly_ascending(r@),
        forall|id: usize| #[trigger] r@.contains(id) == (a@.contains(id) || b@.contains(id)),
{
    let mut r: Vec<usize> = Vec::new();
    let mut i: usize = 0;
    let mut j: usize = 0;
    while i < a.len() || j < b.len()
        invariant
            i <= a@.len(),
            j <= b@.len(),
            strictly_ascending(a@),
            strictly_ascending(b@),
            strictly_ascending(r@),
            forall|k: int, p: int|
                0 <= k < r@.len() && i <= p < a@.len() ==> #[trigger] r@[k] < #[trigger] a@[p],
            forall|k: int, p: int|
                0 <= k < r@.len() && j <= p < b@.len() ==> #[trigger] r@[k] < #[trigger] b@[p],
            forall|k: int|
                0 <= k < r@.len() ==> a@.contains(#[trigger] r@[k]) || b@.contains(r@[k]),
            forall|p: int| 0 <= p < i ==> r@.contains(#[trigger] a@[p]),
            forall|p: int| 0 <= p < j ==> r@.contains(#[trigger] b@[p]),
        decreases a@.len() - i + b@.len() - j,
    {
        let ghost before = r@;
        let take_a: bool = if i < a.len() {
            if j < b.len() {
                a[i] <= b[j]
            } else {
                true
            }
        } else {
            false
        };
        let take_b: bool = if j < b.len() {
            if i < a.len() {
                b[j] <= a[i]
            } else {
                true
            }
        } else {
            false
        };
        let ghost i0 = i;
        let ghost j0 = j;
        let id: usize = if take_a {
            a[i]
        } else {
            b[j]
        };
        proof {
            if take_a {
                assert(a@.contains(a@[i as int]));
            } else {
                assert(b@.contains(b@[j as int]));
            }
        }
        r.push(id);
        if take_a {
            i = i + 1;
        }
        if take_b {
            j = j + 1;
        }
        proof {
            assert(r@[before.len() as int] == id);
            assert forall|p: int| 0 <= p < i implies r@.contains(#[trigger] a@[p]) by {
                if p < i0 {
                    let k = choose|k: int| 0 <= k < before.len() && before[k] == a@[p];
                    assert(r@[k] == a@[p]);
                }
            }
            assert forall|p: int| 0 <= p < j implies r@.contains(#[trigger] b@[p]) by {
                if p < j0 {
                    let k = choose|k: int| 0 <= k < before.len() && before[k] == b@[p];
                    assert(r@[k] == b@[p]);
                }
            }
        }
    }
    assert forall|id: usize| #[trigger] r@.contains(id) == (a@.contains(id) || b@.contains(
        id,
    )) by {
        if a@.contains(id) {
            let p = choose|p: int| 0 <= p < a@.len() && a@[p] == id;
            assert(r@.contains(a@[p]));
        }
        if b@.contains(id) {
            let p = choose|p: int| 0 <= p < b@.len() && b@[p] == id;
            assert(r@.contains(b@[p]));
        }
    }
    r
}

fn mismatched_ids(placed: &BTreeMap<usize, usize>, demand: &BTreeMap<usize, usize>) -> (r: Vec<usize>)
    ensures
        r@ == mismatched(placed@, demand@),
        is_mismatch_list(r@, placed@, demand@),
{
    let all = merged(&keys_of(demand), &keys_of(placed));
    let mut r: Vec<usize> = Vec::new();
    let mut i: usize = 0;
    while i < all.len()
        invariant
            i <= all@.len(),
            strictly_ascending(all@),
            strictly_ascending(r@),
            forall|id: usize| #[trigger]
                all@.contains(id) == (demand@.contains_key(id) || placed@.contains_key(id)),
            forall|k: int, p: int|
                0 <= k < r@.len() && i <= p < all@.len() ==> #[trigger] r@[k] < #[trigger] all@[p],
            forall|k: int|
                0 <= k < r@.len() ==> mismatch(placed@, demand@, #[trigger] r@[k]),
            forall|p: int|
                0 <= p < i && mismatch(placed@, demand@, #[trigger] all@[p]) ==> r@.contains(
                    all@[p],
                ),
        decreases all@.len() - i,
    {
        let id: usize = all[i];
        let ghost before = r@;
        assert(all@.contains(id));
        if count(placed, id) != count(demand, id) {
            r.push(id);
            assert(r@[before.len() as int] == id);
        }
        proof {
            assert forall|p: int| 0 <= p < i + 1 && mismatch(
                placed@,
                demand@,
                #[trigger] all@[p],
            ) implies r@.contains(all@[p]) by {
                if p < i {
                    let k = choose|k: int| 0 <= k < before.len() && before[k] == all@[p];
                    assert(r@[k] == all@[p]);
                }
            }
        }
        i = i + 1;
    }
    proof {
        assert forall|id: usize| #[trigger] r@.contains(id) == mismatch(placed@, demand@, id) by {
            if mismatch(placed@, demand@, id) {
                assert(all@.contains(id));
                let p = choose|p: int| 0 <= p < all@.len() && all@[p] == id;
                assert(r@.contains(all@[p]));
            }
        }
        lemma_mismatched(placed@, demand@, r@);
    }
    r
}

/// **There is one list of mismatches**: a list is the list of the ids whose counts differ exactly if
/// it is ascending and holds those ids. It is empty exactly if the demand is covered.
pub proof fn lemma_mismatched(
    placed: Map<usize, usize>,
    demand: Map<usize, usize>,
    ids: Seq<usize>,
)
    requires
        is_mismatch_list(ids, placed, demand),
    ensures
        ids == mismatched(placed, demand),
        covers(placed, demand) <==> ids.len() == 0,
{
    let chosen = mismatched(placed, demand);
    assert(is_mismatch_list(chosen, placed, demand));
    assert forall|id: usize| #[trigger] ids.contains(id) == chosen.contains(id) by {
        assert(chosen.contains(id) == mismatch(placed, demand, id));
    }
    lemma_ascending_unique(ids, chosen);
    if ids.len() > 0 {
        assert(ids.contains(ids[0]));
    } else {
        assert forall|id: usize| count_of(placed, id) == count_of(demand, id) by {
            assert(!ids.contains(id));
        }
    }
}

/// The text about one id.
pub open spec fn mismatch_entry(
    placed: Map<usize, usize>,
    demand: Map<usize, usize>,
    id: usize,
) -> Seq<char> {
    "item "@ + text::decimal(id as nat) + ": placed "@ + text::decimal(
        count_of(placed, id) as nat,
    ) + ", demanded "@ + text::decimal(count_of(demand, id) as nat)
}

/// The texts about the first `m` ids, separated by semicolons.
pub open spec fn mismatch_text(
    placed: Map<usize, usize>,
    demand: Map<usize, usize>,
    ids: Seq<usize>,
    m: nat,
) -> Seq<char>
    decreases m,
{
    if m == 0 {
        seq![]
    } else {
        let head = mismatch_text(placed, demand, ids, (m - 1) as nat);
        (if m == 1 {
            head
        } else {
            head + "; "@
        }) + mismatch_entry(placed, demand, ids[m - 1])
    }
}

/// The text about all ids whose counts differ.
pub open spec fn demand_text(placed: Map<usize, usize>, demand: Map<usize, usize>) -> Seq<char> {
    let ids = mismatched(placed, demand);
    mismatch_text(placed, demand, ids, ids.len())
}

/// Formats the mismatches between what is placed and what is demanded into one line.
pub fn demand_error(placed: &BTreeMap<usize, usize>, demand: &BTreeMap<usize, usize>) -> (s: String)
    ensures
        s@ == demand_text(placed@, demand@),
{
    let ids = mismatched_ids(placed, demand);
    let mut s = String::new();
    let mut i: usize = 0;
    while i < ids.len()
        invariant
            i <= ids@.len(),
            s@ == mismatch_text(placed@, demand@, ids@, i as nat),
        decreases ids@.len() - i,
    {
        let id: usize = ids[i];
        if i > 0 {
            s.append("; ");
        }
        s.append("item ");
        push_decimal(&mut s, id as u64);
        s.append(": placed ");
        push_decimal(&mut s, count(placed, id) as u64);
        s.append(", demanded ");
        push_decimal(&mut s, count(demand, id) as u64);
        i = i + 1;
        assert(s@ =~= mismatch_text(placed@, demand@, ids@, i as nat));
    }
    s
}

/// The message about a solution that does not cover the demand.
pub open spec fn demand_message(
    what: Seq<char>,
    placed: Map<usize, usize>,
    demand: Map<usize, usize>,
) -> Seq<char> {
    what + " does not cover the instance demand exactly ("@ + demand_text(placed, demand) + ")"@
}

fn same_counts(a: &BTreeMap<usize, usize>, b: &BTreeMap<usize, usize>) -> (r: bool)
    ensures
        r == covers(a@, b@),
{
    let ids = mismatched_ids(a, b);
    proof {
        lemma_mismatched(a@, b@, ids@);
    }
    ids.len() == 0
}

/// Checks that what is placed matches the demand for every item id, and that no unknown id occurs.
pub fn check_demand(
    placed: &BTreeMap<usize, usize>,
    demand: &BTreeMap<usize, usize>,
    what: &str,
) -> (r: Result<(), String>)
    ensures
        match r {
            Ok(()) => covers(placed@, demand@),
            Err(message) => !covers(placed@, demand@) && message@ == demand_message(
                what@,
                placed@,
                demand@,
            ),
        },
{
    if same_counts(placed, demand) {
        return Ok(());
    }
    let mut message = String::new();
    message.append(what);
    message.append(" does not cover the instance demand exactly (");
    let detail = demand_error(placed, demand);
    message.append(detail.as_str());
    message.append(")");
    assert(message@ =~= demand_message(what@, placed@, demand@));
    Err(message)
}

/// The counts after an id occurred once more.
pub open spec fn counted(counts: Map<usize, usize>, id: usize) -> Map<usize, usize> {
    counts.insert(id, (count_of(counts, id) + 1) as usize)
}

/// How often each id occurs among the first `m`.
pub open spec fn counts_of(ids: Seq<usize>, m: nat) -> Map<usize, usize>
    decreases m,
{
    if m == 0 {
        Map::empty()
    } else {
        counted(counts_of(ids, (m - 1) as nat), ids[m - 1])
    }
}

proof fn lemma_counts_bounded(ids: Seq<usize>, m: nat, id: usize)
    requires
        m <= ids.len() <= usize::MAX,
    ensures
        count_of(counts_of(ids, m), id) <= m,
        counts_of(ids, m).contains_key(id) == exists|i: int| 0 <= i < m && #[trigger] ids[i] == id,
    decreases m,
{
    if m > 0 {
        lemma_counts_bounded(ids, (m - 1) as nat, id);
        lemma_counts_bounded(ids, (m - 1) as nat, ids[m - 1]);
    }
}

proof fn lemma_counts_up_to(ids: Seq<usize>, m: nat, id: usize)
    requires
        m <= ids.len() <= usize::MAX,
    ensures
        count_of(counts_of(ids, m), id) == ids.take(m as int).to_multiset().count(id),
        counts_of(ids, m).contains_key(id) == ids.take(m as int).contains(id),
    decreases m,
{
    broadcast use vstd::seq_lib::group_to_multiset_ensures;
    if m > 0 {
        let before = ids.take(m - 1);
        lemma_counts_up_to(ids, (m - 1) as nat, id);
        lemma_counts_up_to(ids, (m - 1) as nat, ids[m - 1]);
        lemma_counts_bounded(ids, (m - 1) as nat, ids[m - 1]);
        assert(ids.take(m as int) =~= before.push(ids[m - 1]));
        if before.contains(id) {
            let k = choose|k: int| 0 <= k < before.len() && before[k] == id;
            assert(ids.take(m as int)[k] == id);
        }
        if ids[m - 1] == id {
            assert(ids.take(m as int)[m - 1] == id);
        }
        if ids.take(m as int).contains(id) && ids[m - 1] != id {
            let k = choose|k: int| 0 <= k < m && ids.take(m as int)[k] == id;
            assert(before[k] == id);
        }
    } else {
        assert(ids.take(0) =~= Seq::empty());
    }
}

/// **Every occurrence is counted**: for every id the count is the number of places at which the id
/// stands in the list, and exactly the ids of the list are counted.
pub proof fn lemma_counts_are_occurrences(ids: Seq<usize>, id: usize)
    requires
        ids.len() <= usize::MAX,
    ensures
        count_of(counts_of(ids, ids.len()), id) == ids.to_multiset().count(id),
        counts_of(ids, ids.len()).contains_key(id) == ids.contains(id),
{
    lemma_counts_up_to(ids, ids.len(), id);
    assert(ids.take(ids.len() as int) =~= ids);
}

/// How many copies of each item id a solution places.
pub fn spp_placed(ids: &Vec<usize>) -> (r: BTreeMap<usize, usize>)
    ensures
        r@ == counts_of(ids@, ids@.len()),
        forall|id: usize| #[trigger] count_of(r@, id) == ids@.to_multiset().count(id),
        forall|id: usize| #[trigger] r@.contains_key(id) == ids@.contains(id),
{
    let mut r: BTreeMap<usize, usize> = BTreeMap::new();
    let n: usize = ids.len();
    let mut i: usize = 0;
    while i < n
        invariant
            n == ids@.len(),
            i <= n,
            r@ == counts_of(ids@, i as nat),
        decreases n - i,
    {
        proof {
            lemma_counts_bounded(ids@, i as nat, ids@[i as int]);
        }
        let id: usize = ids[i];
        let c: usize = count(&r, id);
        r.insert(id, c + 1);
        i = i + 1;
    }
    proof {
        assert forall|id: usize| #[trigger] count_of(r@, id) == ids@.to_multiset().count(id) by {
            lemma_counts_are_occurrences(ids@, id);
        }
        assert forall|id: usize| #[trigger] r@.contains_key(id) == ids@.contains(id) by {
            lemma_counts_are_occurrences(ids@, id);
        }
    }
    r
}

/// How often an id occurs in the first `m` layouts together.
pub open spec fn total_in(layouts: Seq<Vec<usize>>, m: nat, id: usize) -> nat
    decreases m,
{
    if m == 0 {
        0
    } else {
        total_in(layouts, (m - 1) as nat, id) + layouts[m - 1]@.to_multiset().count(id)
    }
}

/// **The layouts are taken together**: an id occurs in the list of all ids as often as it occurs in the
/// layouts together.
pub proof fn lemma_all_ids_add_up(layouts: Seq<Vec<usize>>, m: nat, id: usize)
    requires
        m <= layouts.len(),
    ensures
        all_ids(layouts, m).to_multiset().count(id) == total_in(layouts, m, id),
    decreases m,
{
    broadcast use vstd::seq_lib::group_to_multiset_ensures;
    if m > 0 {
        lemma_all_ids_add_up(layouts, (m - 1) as nat, id);
        vstd::seq_lib::lemma_multiset_commutative(
            all_ids(layouts, (m - 1) as nat),
            layouts[m - 1]@,
        );
    } else {
        assert(all_ids(layouts, 0) =~= Seq::empty());
    }
}

/// The ids of all layouts, one layout after the other, for the first `m` layouts.
pub open spec fn all_ids(layouts: Seq<Vec<usize>>, m: nat) -> Seq<usize>
    decreases m,
{
    if m == 0 {
        seq![]
    } else {
        all_ids(layouts, (m - 1) as nat) + layouts[m - 1]@
    }
}

/// How many copies of each item id a solution places, over all of its layouts.
pub fn bpp_placed(layouts: &Vec<Vec<usize>>) -> (r: BTreeMap<usize, usize>)
    ensures
        ({
            let ids = all_ids(layouts@, layouts@.len());
            r@ == counts_of(ids, ids.len())
        }),
        forall|id: usize| #[trigger]
            count_of(r@, id) == total_in(layouts@, layouts@.len(), id),
{
    let mut ids: Vec<usize> = Vec::new();
    let mut i: usize = 0;
    while i < layouts.len()
        invariant
            i <= layouts@.len(),
            ids@ == all_ids(layouts@, i as nat),
        decreases layouts@.len() - i,
    {
        let row: &Vec<usize> = &layouts[i];
        let ghost before = ids@;
        let mut j: usize = 0;
        while j < row.len()
            invariant
                j <= row@.len(),
                ids@ == before + row@.take(j as int),
            decreases row@.len() - j,
        {
            ids.push(row[j]);
            assert(row@.take(j + 1) =~= row@.take(j as int).push(row@[j as int]));
            j = j + 1;
        }
        assert(row@.take(j as int) =~= row@);
        i = i + 1;
    }
    proof {
        assert forall|id: usize| #[trigger] ids@.to_multiset().count(id) == total_in(
            layouts@,
            layouts@.len(),
            id,
        ) by {
            lemma_all_ids_add_up(layouts@, layouts@.len(), id);
        }
    }
    spp_placed(&ids)
}

/// The demands of the first `m` items.
pub open spec fn demands_of(items: Seq<(usize, usize)>, m: nat) -> Map<usize, usize>
    decreases m,
{
    if m == 0 {
        Map::empty()
    } else {
        demands_of(items, (m - 1) as nat).insert(items[m - 1].0, items[m - 1].1)
    }
}

/// **The demand of an item is what the last entry with its id says**, and an id without an entry is not
/// demanded.
pub proof fn lemma_demand_is_what_is_declared(items: Seq<(usize, usize)>, m: nat, id: usize)
    requires
        m <= items.len(),
    ensures
        demands_of(items, m).contains_key(id) == exists|k: int| 0 <= k < m && (#[trigger] items[k]).0 == id,
        forall|k: int|
            0 <= k < m && (#[trigger] items[k]).0 == id && (forall|j: int|
                k < j < m ==> (#[trigger] items[j]).0 != id) ==> demands_of(items, m)[id] == items[k].1,
    decreases m,
{
    if m > 0 {
        lemma_demand_is_what_is_declared(items, (m - 1) as nat, id);
        let before = demands_of(items, (m - 1) as nat);
        if items[m - 1].0 == id {
            assert(demands_of(items, m).contains_key(items[m - 1].0));
        }
        assert forall|k: int|
            0 <= k < m && (#[trigger] items[k]).0 == id && (forall|j: int|
                k < j < m ==> (#[trigger] items[j]).0 != id) implies demands_of(items, m)[id]
            == items[k].1 by {
            if k < m - 1 {
                assert(items[m - 1].0 != id);
            }
        }
    }
}

/// The demand per item id, from the ids of the items and how often each is demanded.
pub fn spp_demand(items: &Vec<(usize, usize)>) -> (r: BTreeMap<usize, usize>)
    ensures
        r@ == demands_of(items@, items@.len()),
{
    let mut r: BTreeMap<usize, usize> = BTreeMap::new();
    let mut i: usize = 0;
    while i < items.len()
        invariant
            i <= items@.len(),
            r@ == demands_of(items@, i as nat),
        decreases items@.len() - i,
    {
        let (id, qty) = items[i];
        r.insert(id, qty);
        i = i + 1;
    }
    r
}

/// The demand per item id, from the ids of the items and how often each is demanded.
pub fn bpp_demand(items: &Vec<(usize, usize)>) -> (r: BTreeMap<usize, usize>)
    ensures
        r@ == demands_of(items@, items@.len()),
{
    spp_demand(items)
}

/// The rotation of one placement.
#[derive(Debug, Clone)]
pub struct PlacedRotation {
    /// Which item is placed.
    pub item_id: usize,
    /// The rotation is one of the item's allowed ones.
    pub allowed: bool,
    /// The angle in degrees, as text.
    pub degrees: String,
}

/// Why a solution is refused.
#[derive(Debug, Clone, Copy, PartialEq, Eq, Structural)]
pub enum RefusalReason {
    /// It does not cover the demand.
    Demand,
    /// The placement at this position has a rotation that is not allowed.
    Rotation(usize),
    /// The layout at this position is not free of collisions.
    Collision(usize),
    /// An item straddles a wall.
    Straddling,
    /// It uses a bin type that there is none of.
    UnknownBin(usize),
    /// It uses more bins of this type than there are in stock.
    Stock(usize),
}

/// The refusal of a solution.
#[derive(Debug)]
pub struct Refusal {
    /// Why.
    pub reason: RefusalReason,
    /// The message for the user.
    pub message: String,
}

impl Refusal {
    /// The message for the user.
    pub fn to_string(&self) -> (s: String)
        ensures
            s@ == self.message@,
    {
        self.message.as_str().to_owned()
    }
}

/// The position of the first placement whose rotation is not allowed; the number of placements if
/// there is none.
pub open spec fn first_bad_rotation(rotations: Seq<PlacedRotation>) -> nat
    decreases rotations.len(),
{
    if rotations.len() == 0 || !rotations[0].allowed {
        0
    } else {
        1 + first_bad_rotation(rotations.skip(1))
    }
}

proof fn lemma_first_bad_rotation(rotations: Seq<PlacedRotation>, n: int)
    requires
        0 <= n <= rotations.len(),
        forall|i: int| 0 <= i < n ==> (#[trigger] rotations[i]).allowed,
        n < rotations.len() ==> !rotations[n].allowed,
    ensures
        first_bad_rotation(rotations) == n,
    decreases n,
{
    if n > 0 {
        assert(rotations[0].allowed);
        assert forall|i: int| 0 <= i < n - 1 implies (#[trigger] rotations.skip(1)[i]).allowed by {
            assert(rotations.skip(1)[i] == rotations[i + 1]);
        }
        lemma_first_bad_rotation(rotations.skip(1), n - 1);
    }
}

/// The message about a rotation that is not allowed.
pub open spec fn rotation_message(what: Seq<char>, p: PlacedRotation) -> Seq<char> {
    what + " places item "@ + text::decimal(p.item_id as nat) + " at a rotation of "@ + p.degrees@
        + " degrees, which is not one of its allowed rotations"@
}

fn check_rotations(rotations: &Vec<PlacedRotation>, what: &str) -> (r: Result<(), Refusal>)
    ensures
        ({
            let n = first_bad_rotation(rotations@);
            match r {
                Ok(()) => n == rotations@.len(),
                Err(e) => n < rotations@.len() && (e.reason matches RefusalReason::Rotation(i) && i
                    == n) && e.message@ == rotation_message(what@, rotations@[n as int]),
            }
        }),
{
    let mut i: usize = 0;
    while i < rotations.len()
        invariant
            i <= rotations@.len(),
            forall|k: int| 0 <= k < i ==> (#[trigger] rotations@[k]).allowed,
        decreases rotations@.len() - i,
    {
        if !rotations[i].allowed {
            proof {
                lemma_first_bad_rotation(rotations@, i as int);
            }
            let mut message = String::new();
            message.append(what);
            message.append(" places item ");
            push_decimal(&mut message, rotations[i].item_id as u64);
            message.append(" at a rotation of ");
            message.append(rotations[i].degrees.as_str());
            message.append(" degrees, which is not one of its allowed rotations");
            assert(message@ =~= rotation_message(what@, rotations@[i as int]));
            return Err(Refusal { reason: RefusalReason::Rotation(i), message });
        }
        i = i + 1;
    }
    proof {
        lemma_first_bad_rotation(rotations@, i as int);
    }
    Ok(())
}

/// The first `m` ids, separated by commas.
pub open spec fn id_list(ids: Seq<usize>, m: nat) -> Seq<char>
    decreases m,
{
    if m == 0 {
        seq![]
    } else {
        let head = id_list(ids, (m - 1) as nat);
        (if m == 1 {
            head
        } else {
            head + ", "@
        }) + text::decimal(ids[m - 1] as nat)
    }
}

fn push_ids(s: &mut String, ids: &Vec<usize>)
    ensures
        final(s)@ == old(s)@ + id_list(ids@, ids@.len()),
{
    let mut i: usize = 0;
    assert(s@ =~= old(s)@ + id_list(ids@, 0));
    while i < ids.len()
        invariant
            i <= ids@.len(),
            s@ == old(s)@ + id_list(ids@, i as nat),
        decreases ids@.len() - i,
    {
        if i > 0 {
            s.append(", ");
        }
        push_decimal(s, ids[i] as u64);
        i = i + 1;
        assert(s@ =~= old(s)@ + id_list(ids@, i as nat));
    }
}

/// What a strip solution consists of, as far as the checks go.
#[derive(Debug)]
pub struct StripFacts {
    /// How many copies of each item id it places.
    pub placed: BTreeMap<usize, usize>,
    /// The rotations of its placements.
    pub rotations: Vec<PlacedRotation>,
    /// Its layout is free of collisions.
    pub feasible: bool,
    /// What lies on each sheet, if the strip is walled.
    pub sheets: Option<Vec<SheetStats>>,
    /// The width of a sheet, as text.
    pub sheet_width: String,
}

/// The straddling items of a solution; none if the strip is not walled.
pub open spec fn straddling_of(facts: StripFacts) -> Seq<usize> {
    match facts.sheets {
        Some(stats) => sheets::all_straddling(stats@),
        None => seq![],
    }
}

/// The message about a layout that is not free of collisions.
pub open spec fn collision_message(what: Seq<char>) -> Seq<char> {
    what
        + " is not collision-free: items overlap each other, the strip border or a sheet wall"@
}

/// The message about straddling items.
pub open spec fn straddling_message(what: Seq<char>, ids: Seq<usize>, width: Seq<char>) -> Seq<char> {
    what + " has "@ + text::decimal(ids.len())
        + " item(s) straddling a sheet wall (item id(s): "@ + id_list(ids, ids.len())
        + "), so the strip cannot be cut into "@ + width + " mm sheets"@
}

/// Why a strip solution is refused, if it is: the demand is checked first, then the rotations, the
/// collisions and the walls.
pub open spec fn spp_verdict(facts: StripFacts, demand: Map<usize, usize>) -> Option<RefusalReason> {
    if !covers(facts.placed@, demand) {
        Some(RefusalReason::Demand)
    } else if first_bad_rotation(facts.rotations@) < facts.rotations@.len() {
        Some(RefusalReason::Rotation(first_bad_rotation(facts.rotations@) as usize))
    } else if !facts.feasible {
        Some(RefusalReason::Collision(0))
    } else if straddling_of(facts).len() > 0 {
        Some(RefusalReason::Straddling)
    } else {
        None
    }
}

/// The message about a refused strip solution.
pub open spec fn spp_message(
    facts: StripFacts,
    demand: Map<usize, usize>,
    what: Seq<char>,
    reason: RefusalReason,
) -> Seq<char> {
    match reason {
        RefusalReason::Demand => demand_message(what, facts.placed@, demand),
        RefusalReason::Rotation(i) => rotation_message(what, facts.rotations@[i as int]),
        RefusalReason::Straddling => straddling_message(
            what,
            straddling_of(facts),
            facts.sheet_width@,
        ),
        _ => collision_message(what),
    }
}

/// The check of a strip solution before it is exported: it covers the demand exactly, per item id;
/// every rotation is allowed; nothing collides; and nothing straddles a wall. `what` names the
/// solution in the message.
pub fn verify_spp_solution(facts: &StripFacts, demand: &BTreeMap<usize, usize>, what: &str) -> (r:
    Result<(), Refusal>)
    ensures
        match r {
            Ok(()) => spp_verdict(*facts, demand@) is None,
            Err(e) => spp_verdict(*facts, demand@) == Some(e.reason) && e.message@ == spp_message(
                *facts,
                demand@,
                what@,
                e.reason,
            ),
        },
{
    if let Err(message) = check_demand(&facts.placed, demand, what) {
        return Err(Refusal { reason: RefusalReason::Demand, message });
    }
    if let Err(e) = check_rotations(&facts.rotations, what) {
        return Err(e);
    }
    if !facts.feasible {
        let mut message = String::new();
        message.append(what);
        message.append(
            " is not collision-free: items overlap each other, the strip border or a sheet wall",
        );
        assert(message@ =~= collision_message(what@));
        return Err(Refusal { reason: RefusalReason::Collision(0), message });
    }
    if let Some(stats) = &facts.sheets {
        let ids = straddling_items(stats);
        if ids.len() > 0 {
            let mut message = String::new();
            message.append(what);
            message.append(" has ");
            push_decimal(&mut message, ids.len() as u64);
            message.append(" item(s) straddling a sheet wall (item id(s): ");
            push_ids(&mut message, &ids);
            message.append("), so the strip cannot be cut into ");
            message.append(facts.sheet_width.as_str());
            message.append(" mm sheets");
            assert(message@ =~= straddling_message(what@, ids@, facts.sheet_width@));
            return Err(Refusal { reason: RefusalReason::Straddling, message });
        }
    }
    Ok(())
}

/// **Nothing wrong is exported**: a strip solution passes exactly if it covers the demand, every
/// rotation is allowed, nothing collides, and no item straddles a wall.
pub proof fn lemma_spp_gate_is_complete(facts: StripFacts, demand: Map<usize, usize>)
    ensures
        spp_verdict(facts, demand) is None <==> {
            &&& covers(facts.placed@, demand)
            &&& forall|i: int|
                0 <= i < facts.rotations@.len() ==> (#[trigger] facts.rotations@[i]).allowed
            &&& facts.feasible
            &&& straddling_of(facts).len() == 0
        },
{
    lemma_rotations_split(facts.rotations@);
}

proof fn lemma_rotations_split(rotations: Seq<PlacedRotation>)
    ensures
        first_bad_rotation(rotations) <= rotations.len(),
        forall|i: int|
            0 <= i < first_bad_rotation(rotations) ==> (#[trigger] rotations[i]).allowed,
        first_bad_rotation(rotations) < rotations.len() ==> !rotations[first_bad_rotation(
            rotations,
        ) as int].allowed,
    decreases rotations.len(),
{
    if rotations.len() > 0 && rotations[0].allowed {
        lemma_rotations_split(rotations.skip(1));
        assert forall|i: int| 0 <= i < first_bad_rotation(rotations) implies (
        #[trigger] rotations[i]).allowed by {
            if i > 0 {
                assert(rotations.skip(1)[i - 1] == rotations[i]);
            }
        }
    }
}

/// One layout of a solution, as far as the checks go.
#[derive(Debug, Clone, Copy, PartialEq, Eq, Structural)]
pub struct LayoutFacts {
    /// Its key.
    pub key: LayKey,
    /// The bin type.
    pub bin_id: usize,
    /// It is free of collisions.
    pub feasible: bool,
}

/// What a bin solution consists of, as far as the checks go.
#[derive(Debug)]
pub struct BinFacts {
    /// How many copies of each item id it places.
    pub placed: BTreeMap<usize, usize>,
    /// The rotations of its placements.
    pub rotations: Vec<PlacedRotation>,
    /// Its layouts.
    pub layouts: Vec<LayoutFacts>,
}

/// The position of the first layout that is not free of collisions; the number of layouts if there
/// is none.
pub open spec fn first_collision(layouts: Seq<LayoutFacts>) -> nat
    decreases layouts.len(),
{
    if layouts.len() == 0 || !layouts[0].feasible {
        0
    } else {
        1 + first_collision(layouts.skip(1))
    }
}

proof fn lemma_first_collision(layouts: Seq<LayoutFacts>, n: int)
    requires
        0 <= n <= layouts.len(),
        forall|i: int| 0 <= i < n ==> (#[trigger] layouts[i]).feasible,
        n < layouts.len() ==> !layouts[n].feasible,
    ensures
        first_collision(layouts) == n,
    decreases n,
{
    if n > 0 {
        assert(layouts[0].feasible);
        assert forall|i: int| 0 <= i < n - 1 implies (#[trigger] layouts.skip(1)[i]).feasible by {
            assert(layouts.skip(1)[i] == layouts[i + 1]);
        }
        lemma_first_collision(layouts.skip(1), n - 1);
    }
}

/// The bin types of the layouts.
pub open spec fn bins_of(layouts: Seq<LayoutFacts>) -> Seq<usize> {
    layouts.map_values(|l: LayoutFacts| l.bin_id)
}

/// How many bins of this type are in stock: what the first entry with this id says.
pub open spec fn stock_of(bins: Seq<(usize, usize)>, id: usize) -> Option<usize>
    decreases bins.len(),
{
    if bins.len() == 0 {
        None
    } else if bins[0].0 == id {
        Some(bins[0].1)
    } else {
        stock_of(bins.skip(1), id)
    }
}

fn find_stock(bins: &Vec<(usize, usize)>, id: usize) -> (r: Option<usize>)
    ensures
        r == stock_of(bins@, id),
{
    let mut i: usize = 0;
    assert(bins@.skip(0) =~= bins@);
    while i < bins.len()
        invariant
            i <= bins@.len(),
            stock_of(bins@, id) == stock_of(bins@.skip(i as int), id),
        decreases bins@.len() - i,
    {
        assert(bins@.skip(i as int).skip(1) =~= bins@.skip(i + 1));
        if bins[i].0 == id {
            return Some(bins[i].1);
        }
        i = i + 1;
    }
    None
}

/// What is wrong with the use of a bin type, if anything is.
pub open spec fn bin_problem(
    bins: Seq<(usize, usize)>,
    used: Map<usize, usize>,
    id: usize,
) -> Option<RefusalReason> {
    match stock_of(bins, id) {
        None => Some(RefusalReason::UnknownBin(id)),
        Some(stock) => if used[id] > stock {
            Some(RefusalReason::Stock(id))
        } else {
            None
        },
    }
}

/// What is wrong with the used bins: the problem of the smallest bin type that has one.
pub open spec fn is_bin_verdict(
    bins: Seq<(usize, usize)>,
    used: Map<usize, usize>,
    verdict: Option<RefusalReason>,
) -> bool {
    match verdict {
        None => forall|id: usize| #[trigger]
            used.contains_key(id) ==> bin_problem(bins, used, id) is None,
        Some(reason) => exists|id: usize|
            {
                &&& #[trigger] used.contains_key(id)
                &&& bin_problem(bins, used, id) == Some(reason)
                &&& forall|other: usize| #[trigger]
                    used.contains_key(other) && other < id ==> bin_problem(bins, used, other)
                        is None
            },
    }
}

/// What is wrong with a bin solution: the demand is checked first, then the rotations, the
/// collisions and the stock.
pub open spec fn is_bpp_verdict(
    facts: BinFacts,
    demand: Map<usize, usize>,
    bins: Seq<(usize, usize)>,
    verdict: Option<RefusalReason>,
) -> bool {
    let used = counts_of(bins_of(facts.layouts@), facts.layouts@.len());
    if !covers(facts.placed@, demand) {
        verdict == Some(RefusalReason::Demand)
    } else if first_bad_rotation(facts.rotations@) < facts.rotations@.len() {
        verdict == Some(
            RefusalReason::Rotation(first_bad_rotation(facts.rotations@) as usize),
        )
    } else if first_collision(facts.layouts@) < facts.layouts@.len() {
        verdict == Some(RefusalReason::Collision(first_collision(facts.layouts@) as usize))
    } else {
        is_bin_verdict(bins, used, verdict)
    }
}

/// The text of a layout key: the index of its slot and the version.
pub open spec fn key_text(key: LayKey) -> Seq<char> {
    "LayKey("@ + text::decimal((key.rank / 0x1_0000_0000) as nat) + "v"@ + text::decimal(
        (key.rank % 0x1_0000_0000) as nat,
    ) + ")"@
}

/// The message about a refused bin solution.
pub open spec fn bpp_message(
    facts: BinFacts,
    demand: Map<usize, usize>,
    bins: Seq<(usize, usize)>,
    what: Seq<char>,
    reason: RefusalReason,
) -> Seq<char> {
    let used = counts_of(bins_of(facts.layouts@), facts.layouts@.len());
    match reason {
        RefusalReason::Demand => demand_message(what, facts.placed@, demand),
        RefusalReason::Rotation(i) => rotation_message(what, facts.rotations@[i as int]),
        RefusalReason::Collision(i) => what + ": layout "@ + key_text(facts.layouts@[i as int].key)
            + " is not collision-free"@,
        RefusalReason::UnknownBin(id) => what + " uses an unknown bin type "@ + text::decimal(
            id as nat,
        ),
        RefusalReason::Stock(id) => what + " uses "@ + text::decimal(used[id] as nat)
            + " copies of bin type "@ + text::decimal(id as nat) + ", but only "@ + text::decimal(
            stock_of(bins, id)->0 as nat,
        ) + " are in stock"@,
        RefusalReason::Straddling => what,
    }
}

fn check_stock(
    used: &BTreeMap<usize, usize>,
    bins: &Vec<(usize, usize)>,
    what: &str,
) -> (r: Result<(), Refusal>)
    ensures
        match r {
            Ok(()) => is_bin_verdict(bins@, used@, None),
            Err(e) => is_bin_verdict(bins@, used@, Some(e.reason)) && match e.reason {
                RefusalReason::UnknownBin(id) => e.message@ == what@
                    + " uses an unknown bin type "@ + text::decimal(id as nat),
                RefusalReason::Stock(id) => e.message@ == what@ + " uses "@ + text::decimal(
                    used@[id] as nat,
                ) + " copies of bin type "@ + text::decimal(id as nat) + ", but only "@
                    + text::decimal(stock_of(bins@, id)->0 as nat) + " are in stock"@,
                _ => false,
            },
        },
{
    let ids = keys_of(used);
    let mut i: usize = 0;
    while i < ids.len()
        invariant
            i <= ids@.len(),
            strictly_ascending(ids@),
            forall|id: usize| #[trigger] ids@.contains(id) == used@.contains_key(id),
            forall|k: int|
                0 <= k < i ==> bin_problem(bins@, used@, #[trigger] ids@[k]) is None,
        decreases ids@.len() - i,
    {
        let id: usize = ids[i];
        proof {
            assert(ids@.contains(id));
            assert(used@.contains_key(id));
            assert forall|other: usize| #[trigger]
                used@.contains_key(other) && other < id implies bin_problem(
                bins@,
                used@,
                other,
            ) is None by {
                assert(ids@.contains(other));
                let k = choose|k: int| 0 <= k < ids@.len() && ids@[k] == other;
                if k > i {
                    assert(ids@[i as int] < ids@[k]);
                }
                assert(bin_problem(bins@, used@, ids@[k]) is None);
            }
        }
        let n: usize = count(used, id);
        match find_stock(bins, id) {
            None => {
                let mut message = String::new();
                message.append(what);
                message.append(" uses an unknown bin type ");
                push_decimal(&mut message, id as u64);
                return Err(Refusal { reason: RefusalReason::UnknownBin(id), message });
            },
            Some(stock) => {
                if n > stock {
                    let mut message = String::new();
                    message.append(what);
                    message.append(" uses ");
                    push_decimal(&mut message, n as u64);
                    message.append(" copies of bin type ");
                    push_decimal(&mut message, id as u64);
                    message.append(", but only ");
                    push_decimal(&mut message, stock as u64);
                    message.append(" are in stock");
                    return Err(Refusal { reason: RefusalReason::Stock(id), message });
                }
            },
        }
        i = i + 1;
    }
    proof {
        assert forall|id: usize| #[trigger] used@.contains_key(id) implies bin_problem(
            bins@,
            used@,
            id,
        ) is None by {
            assert(ids@.contains(id));
            let k = choose|k: int| 0 <= k < ids@.len() && ids@[k] == id;
            assert(bin_problem(bins@, used@, ids@[k]) is None);
        }
    }
    Ok(())
}

/// The check of a bin solution before it is exported: it covers the demand exactly, per item id;
/// every rotation is allowed; no layout collides; and no more bins of a type are used than there are
/// in stock. `bins` lists the bin types with their stock; `what` names the solution in the message.
pub fn verify_bpp_solution(
    facts: &BinFacts,
    demand: &BTreeMap<usize, usize>,
    bins: &Vec<(usize, usize)>,
    what: &str,
) -> (r: Result<(), Refusal>)
    ensures
        match r {
            Ok(()) => is_bpp_verdict(*facts, demand@, bins@, None),
            Err(e) => is_bpp_verdict(*facts, demand@, bins@, Some(e.reason)) && e.message@
                == bpp_message(*facts, demand@, bins@, what@, e.reason),
        },
{
    if let Err(message) = check_demand(&facts.placed, demand, what) {
        return Err(Refusal { reason: RefusalReason::Demand, message });
    }
    if let Err(e) = check_rotations(&facts.rotations, what) {
        return Err(e);
    }
    let layouts: &Vec<LayoutFacts> = &facts.layouts;
    let mut ids: Vec<usize> = Vec::new();
    let mut i: usize = 0;
    while i < layouts.len()
        invariant
            layouts@ == facts.layouts@,
            i <= layouts@.len(),
            covers(facts.placed@, demand@),
            first_bad_rotation(facts.rotations@) == facts.rotations@.len(),
            forall|k: int| 0 <= k < i ==> (#[trigger] layouts@[k]).feasible,
            ids@.len() == i,
            forall|k: int| 0 <= k < i ==> #[trigger] ids@[k] == layouts@[k].bin_id,
        decreases layouts@.len() - i,
    {
        if !layouts[i].feasible {
            proof {
                lemma_first_collision(layouts@, i as int);
            }
            let key = layouts[i].key;
            let mut message = String::new();
            message.append(what);
            message.append(": layout ");
            message.append("LayKey(");
            push_decimal(&mut message, key.rank / 0x1_0000_0000);
            message.append("v");
            push_decimal(&mut message, key.rank % 0x1_0000_0000);
            message.append(")");
            message.append(" is not collision-free");
            assert(message@ =~= what@ + ": layout "@ + key_text(key) + " is not collision-free"@);
            return Err(Refusal { reason: RefusalReason::Collision(i), message });
        }
        ids.push(layouts[i].bin_id);
        i = i + 1;
    }
    proof {
        lemma_first_collision(layouts@, i as int);
        assert(ids@ =~= bins_of(facts.layouts@));
    }
    check_stock(&spp_placed(&ids), bins, what)
}

/// **Nothing wrong is exported**: a bin solution passes exactly if it covers the demand, every
/// rotation is allowed, no layout collides, and every bin type that it uses is known and in stock
/// often enough.
pub proof fn lemma_bpp_gate_is_complete(
    facts: BinFacts,
    demand: Map<usize, usize>,
    bins: Seq<(usize, usize)>,
)
    ensures
        is_bpp_verdict(facts, demand, bins, None) <==> {
            let used = counts_of(bins_of(facts.layouts@), facts.layouts@.len());
            &&& covers(facts.placed@, demand)
            &&& forall|i: int|
                0 <= i < facts.rotations@.len() ==> (#[trigger] facts.rotations@[i]).allowed
            &&& forall|i: int|
                0 <= i < facts.layouts@.len() ==> (#[trigger] facts.layouts@[i]).feasible
            &&& forall|id: usize| #[trigger]
                used.contains_key(id) ==> (stock_of(bins, id) matches Some(stock) && used[id]
                    <= stock)
        },
{
    lemma_rotations_split(facts.rotations@);
    lemma_collisions_split(facts.layouts@);
}

proof fn lemma_collisions_split(layouts: Seq<LayoutFacts>)
    ensures
        first_collision(layouts) <= layouts.len(),
        forall|i: int| 0 <= i < first_collision(layouts) ==> (#[trigger] layouts[i]).feasible,
        first_collision(layouts) < layouts.len() ==> !layouts[first_collision(
            layouts,
        ) as int].feasible,
    decreases layouts.len(),
{
    if layouts.len() > 0 && layouts[0].feasible {
        lemma_collisions_split(layouts.skip(1));
        assert forall|i: int| 0 <= i < first_collision(layouts) implies (
        #[trigger] layouts[i]).feasible by {
            if i > 0 {
                assert(layouts.skip(1)[i - 1] == layouts[i]);
            }
        }
    }
}

/// **A strip solution is refused for what is wrong with it**: the demand comes first, then the first
/// rotation that is not allowed, then a collision, then the walls.
pub proof fn lemma_strip_refusals_are_true(facts: StripFacts, demand: Map<usize, usize>)
    ensures
        match spp_verdict(facts, demand) {
            None => true,
            Some(RefusalReason::Demand) => !covers(facts.placed@, demand),
            Some(RefusalReason::Rotation(i)) => {
                &&& covers(facts.placed@, demand)
                &&& i <= facts.rotations@.len() <= usize::MAX ==> i < facts.rotations@.len()
                    && !facts.rotations@[i as int].allowed
                &&& facts.rotations@.len() <= usize::MAX ==> forall|k: int|
                    0 <= k < i ==> (#[trigger] facts.rotations@[k]).allowed
            },
            Some(RefusalReason::Collision(i)) => {
                &&& i == 0
                &&& covers(facts.placed@, demand)
                &&& forall|k: int|
                    0 <= k < facts.rotations@.len() ==> (#[trigger] facts.rotations@[k]).allowed
                &&& !facts.feasible
            },
            Some(RefusalReason::Straddling) => {
                &&& covers(facts.placed@, demand)
                &&& forall|k: int|
                    0 <= k < facts.rotations@.len() ==> (#[trigger] facts.rotations@[k]).allowed
                &&& facts.feasible
                &&& straddling_of(facts).len() > 0
            },
            Some(_) => false,
        },
{
    lemma_rotations_split(facts.rotations@);
    assert(facts.rotations.len() == facts.rotations@.len());
}

/// **The stock of a bin type is what the first entry with its id says.**
pub proof fn lemma_stock_is_what_is_declared(bins: Seq<(usize, usize)>, id: usize, k: int)
    requires
        0 <= k < bins.len(),
        bins[k].0 == id,
        forall|j: int| 0 <= j < k ==> (#[trigger] bins[j]).0 != id,
    ensures
        stock_of(bins, id) == Some(bins[k].1),
    decreases bins.len(),
{
    if k > 0 {
        assert(bins[0].0 != id);
        assert forall|j: int| 0 <= j < k - 1 implies (#[trigger] bins.skip(1)[j]).0 != id by {
            assert(bins.skip(1)[j] == bins[j + 1]);
        }
        lemma_stock_is_what_is_declared(bins.skip(1), id, k - 1);
    }
}

/// **A bin type without an entry is unknown.**
pub proof fn lemma_undeclared_bin_is_unknown(bins: Seq<(usize, usize)>, id: usize)
    requires
        forall|j: int| 0 <= j < bins.len() ==> (#[trigger] bins[j]).0 != id,
    ensures
        stock_of(bins, id) is None,
    decreases bins.len(),
{
    if bins.len() > 0 {
        assert(bins[0].0 != id);
        assert forall|j: int| 0 <= j < bins.len() - 1 implies (#[trigger] bins.skip(1)[j]).0 != id by {
            assert(bins.skip(1)[j] == bins[j + 1]);
        }
        lemma_undeclared_bin_is_unknown(bins.skip(1), id);
    }
}

/// **No bin type of an accepted solution is used more often than it is in stock**: the uses of a type
/// are the layouts of that type.
pub proof fn lemma_accepted_bins_are_in_stock(
    facts: BinFacts,
    demand: Map<usize, usize>,
    bins: Seq<(usize, usize)>,
    id: usize,
)
    requires
        is_bpp_verdict(facts, demand, bins, None),
        bins_of(facts.layouts@).contains(id),
    ensures
        stock_of(bins, id) matches Some(stock) && bins_of(facts.layouts@).to_multiset().count(id)
            <= stock,
{
    let known = bins_of(facts.layouts@);
    let used = counts_of(known, known.len());
    assert(facts.layouts.len() == facts.layouts@.len());
    assert(known.len() == facts.layouts@.len());
    lemma_counts_are_occurrences(known, id);
    lemma_bpp_gate_is_complete(facts, demand, bins);
    assert(used.contains_key(id));
}

/// **A bin solution is refused for what is wrong with it**: the demand comes first, then the first
/// rotation that is not allowed, then the first collision, then a bin type that is unknown or not in stock
/// often enough.
pub proof fn lemma_bin_refusals_are_true(
    facts: BinFacts,
    demand: Map<usize, usize>,
    bins: Seq<(usize, usize)>,
    reason: RefusalReason,
)
    requires
        is_bpp_verdict(facts, demand, bins, Some(reason)),
    ensures
        match reason {
            RefusalReason::Demand => !covers(facts.placed@, demand),
            RefusalReason::Rotation(i) => {
                &&& covers(facts.placed@, demand)
                &&& i < facts.rotations@.len() && !facts.rotations@[i as int].allowed
                &&& forall|k: int| 0 <= k < i ==> (#[trigger] facts.rotations@[k]).allowed
            },
            RefusalReason::Collision(i) => {
                &&& covers(facts.placed@, demand)
                &&& i < facts.layouts@.len() && !facts.layouts@[i as int].feasible
                &&& forall|k: int| 0 <= k < i ==> (#[trigger] facts.layouts@[k]).feasible
            },
            RefusalReason::UnknownBin(id) => {
                &&& bins_of(facts.layouts@).contains(id)
                &&& stock_of(bins, id) is None
            },
            RefusalReason::Stock(id) => {
                &&& bins_of(facts.layouts@).contains(id)
                &&& stock_of(bins, id) matches Some(stock) && bins_of(
                    facts.layouts@,
                ).to_multiset().count(id) > stock
            },
            RefusalReason::Straddling => false,
        },
{
    lemma_rotations_split(facts.rotations@);
    lemma_collisions_split(facts.layouts@);
    assert(facts.rotations.len() == facts.rotations@.len());
    assert(facts.layouts.len() == facts.layouts@.len());
    let known = bins_of(facts.layouts@);
    assert(known.len() == facts.layouts@.len());
    let used = counts_of(known, known.len());
    if !covers(facts.placed@, demand) {
    } else if first_bad_rotation(facts.rotations@) < facts.rotations@.len() {
    } else if first_collision(facts.layouts@) < facts.layouts@.len() {
    } else {
        assert(is_bin_verdict(bins, used, Some(reason)));
        let id = choose|id: usize|
            {
                &&& #[trigger] used.contains_key(id)
                &&& bin_problem(bins, used, id) == Some(reason)
                &&& forall|other: usize| #[trigger]
                    used.contains_key(other) && other < id ==> bin_problem(bins, used, other) is None
            };
        assert(used.contains_key(id) && bin_problem(bins, used, id) == Some(reason));
        lemma_counts_are_occurrences(known, id);
        assert(count_of(used, id) == used[id]);
    }
}

/// **A mismatch is reported with what is placed and what is demanded**: every id whose counts differ, with both
/// counts, one after the other.
pub proof fn lemma_every_mismatch_is_reported(
    placed: Map<usize, usize>,
    demand: Map<usize, usize>,
    ids: Seq<usize>,
    m: nat,
)
    requires
        m <= ids.len(),
    ensures
        mismatch_text(placed, demand, ids, m) == text::joined_by(
            ids.take(m as int).map_values(
                |id: usize|
                    "item "@ + text::decimal(id as nat) + ": placed "@ + text::decimal(
                        count_of(placed, id) as nat,
                    ) + ", demanded "@ + text::decimal(count_of(demand, id) as nat),
            ),
            "; "@,
        ),
    decreases m,
{
    let f = |id: usize|
        "item "@ + text::decimal(id as nat) + ": placed "@ + text::decimal(
            count_of(placed, id) as nat,
        ) + ", demanded "@ + text::decimal(count_of(demand, id) as nat);
    let parts = ids.take(m as int).map_values(f);
    if m > 0 {
        lemma_every_mismatch_is_reported(placed, demand, ids, (m - 1) as nat);
        text::lemma_joined_last(parts, "; "@);
        assert(parts.drop_last() =~= ids.take(m - 1).map_values(f));
        assert(parts.last() == f(ids[m - 1]));
        if m == 1 {
            assert(mismatch_text(placed, demand, ids, 0) =~= seq![]);
            assert(mismatch_text(placed, demand, ids, 1) =~= f(ids[0]));
        }
    }
}

/// **Every id is listed**, one after the other.
pub proof fn lemma_every_id_is_listed(ids: Seq<usize>, m: nat)
    requires
        m <= ids.len(),
    ensures
        id_list(ids, m) == text::joined_by(
            ids.take(m as int).map_values(|id: usize| text::decimal(id as nat)),
            ", "@,
        ),
    decreases m,
{
    let f = |id: usize| text::decimal(id as nat);
    let parts = ids.take(m as int).map_values(f);
    if m > 0 {
        lemma_every_id_is_listed(ids, (m - 1) as nat);
        text::lemma_joined_last(parts, ", "@);
        assert(parts.drop_last() =~= ids.take(m - 1).map_values(f));
        assert(parts.last() == f(ids[m - 1]));
        if m == 1 {
            assert(id_list(ids, 1) =~= f(ids[0]));
        }
    }
}

} // verus!
