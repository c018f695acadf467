//! Checks that turn an instance that cannot be packed into a clear message.
use crate::scalar::{Scalar, INFINITE_MAGNITUDE};
use crate::text;
use crate::text::push_decimal;
use vstd::prelude::*;

verus! {

/// The extent of an item in one direction, for each rotation that it is tried at.
#[derive(Debug, Clone)]
pub struct MeasuredItem {
    /// Which item of the instance.
    pub item_id: usize,
    /// It may be rotated freely, so that its rotations are a sample of a continuum.
    pub continuous: bool,
    /// The extents.
    pub extents: Vec<Scalar>,
}

/// The least of the first `m` extents in the total order; infinite if there is none.
pub open spec fn least_extent_of(extents: Seq<Scalar>, m: nat) -> Scalar
    decreases m,
{
    if m == 0 {
        Scalar { bits: INFINITE_MAGNITUDE }
    } else if m == 1 {
        extents[0]
    } else {
        let least = least_extent_of(extents, (m - 1) as nat);
        if extents[m - 1].before(least) {
            extents[m - 1]
        } else {
            least
        }
    }
}

/// The least of the extents in the total order; infinite if there is none.
pub fn least_extent(extents: &Vec<Scalar>) -> (r: Scalar)
    ensures
        r == least_extent_of(extents@, extents@.len()),
{
    if extents.len() == 0 {
        return Scalar { bits: INFINITE_MAGNITUDE };
    }
    let mut r = extents[0];
    let mut i: usize = 1;
    while i < extents.len()
        invariant
            1 <= i <= extents@.len(),
            r == least_extent_of(extents@, i as nat),
        decreases extents@.len() - i,
    {
        proof {
            crate::scalar::lemma_key_is_order(extents@[i as int], r);
        }
        if extents[i].order_key() < r.order_key() {
            r = extents[i];
        }
        i = i + 1;
    }
    r
}

/// Whether an item is known not to fit: it cannot be rotated freely, and it exceeds the limit at
/// every rotation.
pub open spec fn exceeds(item: MeasuredItem, limit: Scalar) -> bool {
    !item.continuous && limit.less(least_extent_of(item.extents@, item.extents@.len()))
}

/// The items among the first `m` that are known not to fit, with their least extents.
pub open spec fn exceeding(items: Seq<MeasuredItem>, limit: Scalar, m: nat) -> Seq<(usize, Scalar)>
    decreases m,
{
    if m == 0 {
        seq![]
    } else {
        let before = exceeding(items, limit, (m - 1) as nat);
        let item = items[m - 1];
        if exceeds(item, limit) {
            before.push((item.item_id, least_extent_of(item.extents@, item.extents@.len())))
        } else {
            before
        }
    }
}

fn items_exceeding(items: &Vec<MeasuredItem>, limit: Scalar) -> (r: Vec<(usize, Scalar)>)
    ensures
        r@ == exceeding(items@, limit, items@.len()),
{
    let mut r: Vec<(usize, Scalar)> = Vec::new();
    let mut i: usize = 0;
    while i < items.len()
        invariant
            i <= items@.len(),
            r@ == exceeding(items@, limit, i as nat),
        decreases items@.len() - i,
    {
        let item: &MeasuredItem = &items[i];
        let least = least_extent(&item.extents);
        if !item.continuous && limit.lt(least) {
            r.push((item.item_id, least));
        }
        i = i + 1;
    }
    r
}

/// The items that are taller than the strip at every allowed rotation, with their least heights.
pub fn items_too_tall_for_strip(items: &Vec<MeasuredItem>, height: Scalar) -> (r: Vec<(usize, Scalar)>)
    ensures
        r@ == exceeding(items@, height, items@.len()),
{
    items_exceeding(items, height)
}

/// The items that are wider than a sheet at every allowed rotation, with their least widths.
pub fn items_too_wide_for_sheet(items: &Vec<MeasuredItem>, sheet_width: Scalar) -> (r: Vec<
    (usize, Scalar),
>)
    ensures
        r@ == exceeding(items@, sheet_width, items@.len()),
{
    items_exceeding(items, sheet_width)
}

/// The item may not be rotated freely, and is within the limit at none of its rotations.
pub open spec fn fits_nowhere(item: MeasuredItem, limit: Scalar) -> bool {
    !item.continuous && forall|i: int|
        0 <= i < item.extents@.len() ==> !(#[trigger] item.extents@[i]).less_or_equal(limit)
}

/// **No item that may fit is refused**: an item that is listed may not be rotated freely, and is
/// within the limit at none of its rotations.
pub proof fn lemma_no_item_is_refused_in_error(
    items: Seq<MeasuredItem>,
    limit: Scalar,
    m: nat,
    entry: (usize, Scalar),
)
    requires
        m <= items.len(),
        exceeding(items, limit, m).contains(entry),
    ensures
        exists|k: int|
            0 <= k < m && (#[trigger] items[k]).item_id == entry.0 && fits_nowhere(items[k], limit),
    decreases m,
{
    if m > 0 {
        let before = exceeding(items, limit, (m - 1) as nat);
        let item = items[m - 1];
        if before.contains(entry) {
            lemma_no_item_is_refused_in_error(items, limit, (m - 1) as nat, entry);
        } else {
            assert forall|i: int| 0 <= i < item.extents@.len() implies !(
            #[trigger] item.extents@[i]).less_or_equal(limit) by {
                lemma_least_is_least(item.extents@, item.extents@.len(), i);
            }
            assert(fits_nowhere(items[m - 1], limit));
        }
    }
}

proof fn lemma_least_is_least(extents: Seq<Scalar>, m: nat, i: int)
    requires
        0 <= i < m <= extents.len(),
    ensures
        !extents[i].before(least_extent_of(extents, m)),
    decreases m,
{
    if m > 1 {
        if i < m - 1 {
            lemma_least_is_least(extents, (m - 1) as nat, i);
        }
    }
}

/// **The least extent is the least**: it is one of the extents, and none of them comes before it.
pub proof fn lemma_least_extent_is_least(extents: Seq<Scalar>, m: nat)
    requires
        0 < m <= extents.len(),
    ensures
        exists|i: int| 0 <= i < m && #[trigger] extents[i] == least_extent_of(extents, m),
        forall|i: int| 0 <= i < m ==> !(#[trigger] extents[i]).before(least_extent_of(extents, m)),
    decreases m,
{
    if m > 1 {
        lemma_least_extent_is_least(extents, (m - 1) as nat);
        let i = choose|i: int|
            0 <= i < m - 1 && #[trigger] extents[i] == least_extent_of(extents, (m - 1) as nat);
        if extents[m - 1].before(extents[i]) {
            assert(extents[m - 1] == least_extent_of(extents, m));
        } else {
            assert(extents[i] == least_extent_of(extents, m));
        }
    } else {
        assert(extents[0] == least_extent_of(extents, m));
    }
    assert forall|i: int| 0 <= i < m implies !(#[trigger] extents[i]).before(
        least_extent_of(extents, m),
    ) by {
        lemma_least_is_least(extents, m, i);
    }
}

/// An item that cannot be packed within the limit: it may not be rotated freely, it is within the limit
/// at none of its rotations, and beyond it at one at least. One without any extent is taken for infinite.
pub open spec fn cannot_fit(item: MeasuredItem, limit: Scalar) -> bool {
    let extents = item.extents@;
    &&& !item.continuous
    &&& if extents.len() == 0 {
        limit.less(Scalar { bits: INFINITE_MAGNITUDE })
    } else {
        &&& exists|i: int| 0 <= i < extents.len() && limit.less(#[trigger] extents[i])
        &&& forall|i: int| 0 <= i < extents.len() ==> !(#[trigger] extents[i]).less_or_equal(limit)
    }
}

proof fn lemma_exceeds_is_cannot_fit(item: MeasuredItem, limit: Scalar)
    ensures
        exceeds(item, limit) == cannot_fit(item, limit),
{
    let extents = item.extents@;
    if extents.len() > 0 {
        let least = least_extent_of(extents, extents.len());
        lemma_least_extent_is_least(extents, extents.len());
        let i = choose|i: int| 0 <= i < extents.len() && #[trigger] extents[i] == least;
        assert(limit.less(extents[i]) == limit.less(least));
        if cannot_fit(item, limit) {
            let k = choose|k: int| 0 <= k < extents.len() && limit.less(#[trigger] extents[k]);
            assert(!extents[k].before(least));
            assert(!extents[i].less_or_equal(limit));
        }
    }
}

/// **Every item that fits nowhere is refused, and no other one**: the list holds exactly the items that
/// cannot be packed within the limit, in their order, each with its id and its least extent.
pub proof fn lemma_every_misfit_is_refused(items: Seq<MeasuredItem>, limit: Scalar, m: nat)
    requires
        m <= items.len(),
    ensures
        exceeding(items, limit, m) == items.take(m as int).filter(
            |item: MeasuredItem| cannot_fit(item, limit),
        ).map_values(
            |item: MeasuredItem|
                (item.item_id, least_extent_of(item.extents@, item.extents@.len())),
        ),
    decreases m,
{
    reveal(Seq::filter);
    let misfit = |item: MeasuredItem| cannot_fit(item, limit);
    if m > 0 {
        lemma_every_misfit_is_refused(items, limit, (m - 1) as nat);
        lemma_exceeds_is_cannot_fit(items[m - 1], limit);
        assert(items.take(m as int).drop_last() =~= items.take(m - 1));
        assert(items.take(m as int).last() == items[m - 1]);
        assert(exceeding(items, limit, m) =~= items.take(m as int).filter(misfit).map_values(
            |item: MeasuredItem|
                (item.item_id, least_extent_of(item.extents@, item.extents@.len())),
        ));
    } else {
        assert(items.take(0) =~= Seq::empty());
        assert(exceeding(items, limit, 0) =~= items.take(0).filter(misfit).map_values(
            |item: MeasuredItem|
                (item.item_id, least_extent_of(item.extents@, item.extents@.len())),
        ));
    }
}

/// **A misfit at any position is in the list.**
pub proof fn lemma_misfit_is_listed(items: Seq<MeasuredItem>, limit: Scalar, m: nat, k: int)
    requires
        0 <= k < m <= items.len(),
        cannot_fit(items[k], limit),
    ensures
        exceeding(items, limit, m).contains(
            (items[k].item_id, least_extent_of(items[k].extents@, items[k].extents@.len())),
        ),
    decreases m,
{
    let entry = (items[k].item_id, least_extent_of(items[k].extents@, items[k].extents@.len()));
    let all = exceeding(items, limit, m);
    if k < m - 1 {
        lemma_misfit_is_listed(items, limit, (m - 1) as nat, k);
        let before = exceeding(items, limit, (m - 1) as nat);
        let j = choose|j: int| 0 <= j < before.len() && before[j] == entry;
        assert(all[j] == entry);
    } else {
        lemma_exceeds_is_cannot_fit(items[k], limit);
        assert(all[all.len() - 1] == entry);
    }
}

/// The minimum separation of the items, with what it makes of the strip.
#[derive(Debug, Clone, Copy, PartialEq, Eq, Structural)]
pub struct Separation {
    /// The separation.
    pub distance: Scalar,
    /// The smallest width at which the container survives the deflation by half of it on each side,
    /// with something to spare.
    pub viable_width: Scalar,
}

/// Whether there is a separation to speak of.
pub open spec fn applies(separation: Option<Separation>) -> bool {
    separation matches Some(s) && !s.distance.less_or_equal(Scalar { bits: 0 })
}

/// The width that the strip has to have; `None` without a separation.
pub fn min_viable_strip_width(separation: Option<Separation>) -> (r: Option<Scalar>)
    ensures
        r == if applies(separation) {
            Some(separation->0.viable_width)
        } else {
            None
        },
{
    match separation {
        Some(s) => {
            let zero = Scalar { bits: 0 };
            if s.distance.le(zero) {
                None
            } else {
                Some(s.viable_width)
            }
        },
        None => None,
    }
}

/// Why an instance cannot be packed.
#[derive(Debug)]
pub enum PackabilityError {
    /// These items are taller than the strip.
    TooTall(Vec<(usize, Scalar)>),
    /// The separation leaves nothing of the strip.
    SeparationTooLarge,
}

/// The check of a strip packing instance at the start. A width is returned if the strip has to be
/// widened to it first.
pub fn check_spp_packability(
    items: &Vec<MeasuredItem>,
    height: Scalar,
    width: Scalar,
    separation: Option<Separation>,
) -> (r: Result<Option<Scalar>, PackabilityError>)
    ensures
        ({
            let tall = exceeding(items@, height, items@.len());
            match r {
                Err(PackabilityError::TooTall(list)) => tall.len() > 0 && list@ == tall,
                Err(PackabilityError::SeparationTooLarge) => tall.len() == 0 && applies(separation)
                    && height.less_or_equal(separation->0.distance),
                Ok(widen) => {
                    &&& tall.len() == 0
                    &&& applies(separation) ==> !height.less_or_equal(separation->0.distance)
                    &&& widen == if applies(separation) && width.less(
                        separation->0.viable_width,
                    ) {
                        Some(separation->0.viable_width)
                    } else {
                        None
                    }
                },
            }
        }),
{
    let tall = items_too_tall_for_strip(items, height);
    if tall.len() > 0 {
        return Err(PackabilityError::TooTall(tall));
    }
    if let Some(min_width) = min_viable_strip_width(separation) {
        if let Some(s) = separation {
            if height.le(s.distance) {
                return Err(PackabilityError::SeparationTooLarge);
            }
            if width.lt(min_width) {
                return Ok(Some(min_width));
            }
        }
    }
    Ok(None)
}

/// The first `m` items with their measures, separated by commas.
pub open spec fn measured_list(entries: Seq<(usize, String)>, m: nat) -> Seq<char>
    decreases m,
{
    if m == 0 {
        seq![]
    } else {
        let head = measured_list(entries, (m - 1) as nat);
        (if m == 1 {
            head
        } else {
            head + ", "@
        }) + "item "@ + text::decimal(entries[m - 1].0 as nat) + " ("@ + entries[m - 1].1@ + " mm)"@
    }
}

fn push_measured(s: &mut String, entries: &Vec<(usize, String)>)
    ensures
        final(s)@ == old(s)@ + measured_list(entries@, entries@.len()),
{
    let mut i: usize = 0;
    assert(s@ =~= old(s)@ + measured_list(entries@, 0));
    while i < entries.len()
        invariant
            i <= entries@.len(),
            s@ == old(s)@ + measured_list(entries@, i as nat),
        decreases entries@.len() - i,
    {
        if i > 0 {
            s.append(", ");
        }
        s.append("item ");
        push_decimal(s, entries[i].0 as u64);
        s.append(" (");
        s.append(entries[i].1.as_str());
        s.append(" mm)");
        i = i + 1;
        assert(s@ =~= old(s)@ + measured_list(entries@, i as nat));
    }
}

/// The message about items that are taller than the strip. The numbers come as text.
pub fn too_tall_message(height: &str, entries: &Vec<(usize, String)>, note: &str) -> (s: String)
    ensures
        s@ == "the strip is only "@ + height@ + " mm high, but "@ + measured_list(
            entries@,
            entries@.len(),
        ) + " do(es) not fit inside it in any allowed rotation"@ + note@
            + ", so no solution can exist"@,
{
    let mut s = String::new();
    s.append("the strip is only ");
    s.append(height);
    s.append(" mm high, but ");
    push_measured(&mut s, entries);
    s.append(" do(es) not fit inside it in any allowed rotation");
    s.append(note);
    s.append(", so no solution can exist");
    assert(s@ =~= "the strip is only "@ + height@ + " mm high, but "@ + measured_list(
        entries@,
        entries@.len(),
    ) + " do(es) not fit inside it in any allowed rotation"@ + note@
        + ", so no solution can exist"@);
    s
}

/// The message about items that are wider than a sheet. The numbers come as text.
pub fn too_wide_message(sheet_width: &str, entries: &Vec<(usize, String)>) -> (s: String)
    ensures
        s@ == "--sheet-width "@ + sheet_width@ + " mm is too narrow for this instance: "@
            + measured_list(entries@, entries@.len())
            + " do(es) not fit inside a single sheet in any allowed rotation, so no walled solution can exist"@,
{
    let mut s = String::new();
    s.append("--sheet-width ");
    s.append(sheet_width);
    s.append(" mm is too narrow for this instance: ");
    push_measured(&mut s, entries);
    s.append(
        " do(es) not fit inside a single sheet in any allowed rotation, so no walled solution can exist",
    );
    assert(s@ =~= "--sheet-width "@ + sheet_width@ + " mm is too narrow for this instance: "@
        + measured_list(entries@, entries@.len())
        + " do(es) not fit inside a single sheet in any allowed rotation, so no walled solution can exist"@);
    s
}

/// The message about a separation that leaves nothing of the strip. The numbers come as text; `half`
/// is half of the separation.
pub fn separation_message(separation: &str, height: &str, half: &str) -> (s: String)
    ensures
        s@ == "--min-sep "@ + separation@ + " is at least as large as the "@ + height@
            + " mm strip height: deflating the container by "@ + half@
            + " mm on each side leaves nothing to pack into. Use a smaller separation or a taller strip"@,
{
    let mut s = String::new();
    s.append("--min-sep ");
    s.append(separation);
    s.append(" is at least as large as the ");
    s.append(height);
    s.append(" mm strip height: deflating the container by ");
    s.append(half);
    s.append(
        " mm on each side leaves nothing to pack into. Use a smaller separation or a taller strip",
    );
    assert(s@ =~= "--min-sep "@ + separation@ + " is at least as large as the "@ + height@
        + " mm strip height: deflating the container by "@ + half@
        + " mm on each side leaves nothing to pack into. Use a smaller separation or a taller strip"@);
    s
}

/// **A separation counts if it is positive**, and only then the strip has to have a width.
pub proof fn lemma_only_a_positive_separation_counts(separation: Option<Separation>)
    ensures
        separation is None ==> !applies(separation),
        separation matches Some(s) ==> (!s.distance.nan() ==> (applies(separation)
            <==> s.distance.value() > 0)),
{
}

/// **Every item that does not fit is named with its measure**, one after the other.
pub proof fn lemma_every_misfit_is_named(entries: Seq<(usize, String)>, m: nat)
    requires
        m <= entries.len(),
    ensures
        measured_list(entries, m) == text::joined_by(
            entries.take(m as int).map_values(
                |e: (usize, String)|
                    "item "@ + text::decimal(e.0 as nat) + " ("@ + e.1@ + " mm)"@,
            ),
            ", "@,
        ),
    decreases m,
{
    let f = |e: (usize, String)| "item "@ + text::decimal(e.0 as nat) + " ("@ + e.1@ + " mm)"@;
    let parts = entries.take(m as int).map_values(f);
    if m > 0 {
        lemma_every_misfit_is_named(entries, (m - 1) as nat);
        text::lemma_joined_last(parts, ", "@);
        assert(parts.drop_last() =~= entries.take(m - 1).map_values(f));
        assert(parts.last() == f(entries[m - 1]));
        assert(measured_list(entries, m) =~= if m == 1 {
            parts.last()
        } else {
            measured_list(entries, (m - 1) as nat) + ", "@ + parts.last()
        });
    }
}

} // verus!
