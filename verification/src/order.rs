//! Orderings: every list that the optimizer walks is sorted by integers, ties included, so that
//! there is exactly one order.
use itertools::Itertools;
use vstd::prelude::*;

verus! {

/// A sort key: primary key, secondary key, and the position that breaks the remaining ties.
pub open spec fn key_less(a: (u64, u64, u64), b: (u64, u64, u64)) -> bool {
    a.0 < b.0 || (a.0 == b.0 && (a.1 < b.1 || (a.1 == b.1 && a.2 < b.2)))
}

/// Lexicographic order of sort keys.
pub open spec fn key_le(a: (u64, u64, u64), b: (u64, u64, u64)) -> bool {
    a == b || key_less(a, b)
}

/// Sorts keys with `itertools::Itertools::sorted`.
///
/// The contract is what `sorted` documents: the same elements, in ascending order, where the
/// order of tuples of integers is the lexicographic one.
#[verifier::external_body]
fn sorted_keys(keys: Vec<(u64, u64, u64)>) -> (sorted: Vec<(u64, u64, u64)>)
    ensures
        sorted@.to_multiset() == keys@.to_multiset(),
        forall|i: int, j: int| 0 <= i <= j < sorted@.len() ==> key_le(sorted@[i], sorted@[j]),
{
    keys.into_iter().sorted().collect()
}

/// The positions `0..keys.len()` in ascending order of their keys, each key followed by its
/// position.
pub open spec fn is_order(keys: Seq<(u64, u64)>, order: Seq<usize>) -> bool {
    &&& order.len() == keys.len()
    &&& forall|i: int| 0 <= i < order.len() ==> (#[trigger] order[i]) < keys.len()
    &&& forall|p: usize| p < keys.len() ==> #[trigger] order.contains(p)
    &&& forall|i: int, j: int|
        0 <= i < j < order.len() ==> key_less(
            full_key(keys, #[trigger] order[i]),
            full_key(keys, #[trigger] order[j]),
        )
}

/// The key of position `p`, with the position as the last tie-break.
pub open spec fn full_key(keys: Seq<(u64, u64)>, p: usize) -> (u64, u64, u64) {
    (keys[p as int].0, keys[p as int].1, p as u64)
}

/// The positions of `keys` in ascending order.
pub open spec fn positions_in_order(keys: Seq<(u64, u64)>) -> Seq<usize> {
    choose|order: Seq<usize>| is_order(keys, order)
}

proof fn lemma_multiset_contains<T>(s: Seq<T>, t: Seq<T>, i: int)
    requires
        s.to_multiset() == t.to_multiset(),
        0 <= i < s.len(),
    ensures
        t.contains(s[i]),
{
    broadcast use vstd::seq_lib::group_to_multiset_ensures;

    assert(s.to_multiset().count(s[i]) > 0) by {
        assert(s.contains(s[i]));
    }
    assert(t.to_multiset().contains(s[i]));
}

/// Sorts the positions of `keys`, smallest key first. Equal keys keep the order in which they
/// stand.
pub fn order_by(keys: &Vec<(u64, u64)>) -> (order: Vec<usize>)
    ensures
        is_order(keys@, order@),
        order@ == positions_in_order(keys@),
{
    let n: usize = keys.len();
    let mut full: Vec<(u64, u64, u64)> = Vec::new();
    let mut i: usize = 0;
    while i < n
        invariant
            i <= n,
            n == keys@.len(),
            full@.len() == i,
            forall|k: int| 0 <= k < i ==> #[trigger] full@[k] == full_key(keys@, k as usize),
        decreases n - i,
    {
        full.push((keys[i].0, keys[i].1, i as u64));
        i = i + 1;
    }
    let ghost unsorted = full@;
    let sorted = sorted_keys(full);
    proof {
        broadcast use vstd::seq_lib::group_to_multiset_ensures;

        assert(sorted@.to_multiset().len() == sorted@.len());
        assert(unsorted.to_multiset().len() == unsorted.len());
        assert(unsorted.no_duplicates());
        unsorted.lemma_multiset_has_no_duplicates();
        assert forall|x| sorted@.to_multiset().contains(x) implies sorted@.to_multiset().count(x)
            == 1 by {}
        sorted@.lemma_multiset_has_no_duplicates_conv();
        assert forall|k: int| 0 <= k < sorted@.len() implies (#[trigger] sorted@[k]).2 < n
            && sorted@[k] == full_key(keys@, sorted@[k].2 as usize) by {
            lemma_multiset_contains(sorted@, unsorted, k);
        }
        assert forall|q: int| 0 <= q < n implies sorted@.contains(#[trigger] unsorted[q]) by {
            lemma_multiset_contains(unsorted, sorted@, q);
        }
    }
    let mut order: Vec<usize> = Vec::new();
    let mut j: usize = 0;
    while j < n
        invariant
            j <= n,
            n == sorted@.len(),
            order@.len() == j,
            forall|k: int| 0 <= k < n ==> (#[trigger] sorted@[k]).2 < n,
            forall|k: int| 0 <= k < j ==> #[trigger] order@[k] == sorted@[k].2 as usize,
        decreases n - j,
    {
        order.push(sorted[j].2 as usize);
        j = j + 1;
    }
    proof {
        assert forall|i: int, j: int| 0 <= i < j < order@.len() implies key_less(
            full_key(keys@, #[trigger] order@[i]),
            full_key(keys@, #[trigger] order@[j]),
        ) by {
            assert(key_le(sorted@[i], sorted@[j]));
            assert(sorted@[i] != sorted@[j]);
        }
        assert forall|p: usize| p < keys@.len() implies #[trigger] order@.contains(p) by {
            assert(sorted@.contains(unsorted[p as int]));
            let k = choose|k: int| 0 <= k < sorted@.len() && sorted@[k] == unsorted[p as int];
            assert(order@[k] == p);
        }
        assert(is_order(keys@, order@));
        lemma_order_unique(keys@, order@, positions_in_order(keys@));
    }
    order
}

proof fn lemma_order_prefix(keys: Seq<(u64, u64)>, a: Seq<usize>, b: Seq<usize>, n: int)
    requires
        is_order(keys, a),
        is_order(keys, b),
        0 <= n <= a.len(),
    ensures
        forall|k: int| 0 <= k < n ==> a[k] == b[k],
    decreases n,
{
    if n > 0 {
        lemma_order_prefix(keys, a, b, n - 1);
        let m = n - 1;
        assert(b.contains(a[m]) && a.contains(b[m]));
        let j = choose|j: int| 0 <= j < b.len() && b[j] == a[m];
        let i = choose|i: int| 0 <= i < a.len() && a[i] == b[m];
        if j < m {
            assert(a[j] == b[j]);
            assert(key_less(full_key(keys, a[j]), full_key(keys, a[m])));
        }
        if i < m {
            assert(a[i] == b[i]);
            assert(key_less(full_key(keys, b[i]), full_key(keys, b[m])));
        }
        if m < j {
            assert(key_less(full_key(keys, b[m]), full_key(keys, b[j])));
        }
        if m < i {
            assert(key_less(full_key(keys, a[m]), full_key(keys, a[i])));
        }
    }
}

/// There is only one order of the positions, so whatever is walked in this order is walked the
/// same way every time.
pub proof fn lemma_order_unique(keys: Seq<(u64, u64)>, a: Seq<usize>, b: Seq<usize>)
    requires
        is_order(keys, a),
        is_order(keys, b),
    ensures
        a == b,
{
    lemma_order_prefix(keys, a, b, a.len() as int);
    assert(a =~= b);
}

/// Every list of keys has an order.
pub proof fn lemma_order_exists(keys: Seq<(u64, u64)>)
    requires
        keys.len() <= usize::MAX,
    ensures
        is_order(keys, positions_in_order(keys)),
{
    broadcast use vstd::seq_lib::group_to_multiset_ensures;

    let leq = |a: usize, b: usize| key_le(full_key(keys, a), full_key(keys, b));
    let all = Seq::new(keys.len(), |i: int| i as usize);
    assert(vstd::relations::total_ordering(leq));
    all.lemma_sort_by_ensures(leq);
    let o = all.sort_by(leq);
    assert(o.to_multiset().len() == o.len());
    assert(all.to_multiset().len() == all.len());
    assert(all.no_duplicates());
    all.lemma_multiset_has_no_duplicates();
    assert forall|x| o.to_multiset().contains(x) implies o.to_multiset().count(x) == 1 by {}
    o.lemma_multiset_has_no_duplicates_conv();
    assert forall|i: int| 0 <= i < o.len() implies (#[trigger] o[i]) < keys.len() by {
        lemma_multiset_contains(o, all, i);
    }
    assert forall|p: usize| p < keys.len() implies #[trigger] o.contains(p) by {
        lemma_multiset_contains(all, o, p as int);
        assert(all[p as int] == p);
    }
    assert forall|i: int, j: int| 0 <= i < j < o.len() implies key_less(
        full_key(keys, #[trigger] o[i]),
        full_key(keys, #[trigger] o[j]),
    ) by {
        assert(leq(o[i], o[j]));
        assert(o[i] != o[j]);
    }
    assert(is_order(keys, o));
}

/// Walking values in an order visits every one of them, as often as it occurs.
pub proof fn lemma_order_permutes<T>(keys: Seq<(u64, u64)>, values: Seq<T>)
    requires
        keys.len() == values.len(),
        keys.len() <= usize::MAX,
    ensures
        positions_in_order(keys).map_values(|p: usize| values[p as int]).to_multiset()
            == values.to_multiset(),
{
    broadcast use vstd::seq_lib::group_to_multiset_ensures;

    lemma_order_exists(keys);
    let o = positions_in_order(keys);
    let all = Seq::new(keys.len(), |i: int| i as usize);
    assert(o.no_duplicates());
    assert(all.no_duplicates());
    o.lemma_multiset_has_no_duplicates();
    all.lemma_multiset_has_no_duplicates();
    assert forall|x: usize| o.to_multiset().count(x) == all.to_multiset().count(x) by {
        if x < keys.len() {
            assert(o.contains(x));
            assert(all[x as int] == x);
            assert(all.contains(x));
        } else {
            assert(!o.contains(x));
            assert(!all.contains(x));
        }
    }
    assert(o.to_multiset() =~= all.to_multiset());
    let f = |p: usize| values[p as int];
    lemma_map_multiset(o, all, f);
    assert(all.map_values(f) =~= values);
}

/// Two sequences with the same elements have the same elements after a map.
pub proof fn lemma_map_multiset<A, B>(a: Seq<A>, b: Seq<A>, f: spec_fn(A) -> B)
    requires
        a.to_multiset() == b.to_multiset(),
    ensures
        a.map_values(f).to_multiset() == b.map_values(f).to_multiset(),
    decreases a.len(),
{
    broadcast use vstd::seq_lib::group_to_multiset_ensures;

    assert(a.to_multiset().len() == a.len());
    assert(b.to_multiset().len() == b.len());
    if a.len() == 0 {
        assert(a.map_values(f) =~= b.map_values(f));
    } else {
        let x = a.last();
        lemma_multiset_contains(a, b, a.len() - 1);
        let k = choose|k: int| 0 <= k < b.len() && b[k] == x;
        let a1 = a.drop_last();
        let b1 = b.remove(k);
        assert(a =~= a1.push(x));
        assert(a1.to_multiset() =~= a.to_multiset().remove(x));
        assert(b1.to_multiset() =~= b.to_multiset().remove(x));
        lemma_map_multiset(a1, b1, f);
        assert(a.map_values(f) =~= a1.map_values(f).push(f(x)));
        assert(b.map_values(f).remove(k) =~= b1.map_values(f));
        assert(b.map_values(f)[k] == f(x));
        assert(b.map_values(f).to_multiset().remove(f(x)) =~= b1.map_values(f).to_multiset());
        assert(b.map_values(f).to_multiset() =~= b1.map_values(f).to_multiset().insert(f(x)));
    }
}

} // verus!
