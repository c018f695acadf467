//! The cap on the demand of an instance.
use crate::text;
use crate::text::push_decimal;
use vstd::prelude::*;

verus! {

/// Largest total demand that is accepted. Every demanded copy is materialised individually, so a
/// demand is an allocation size.
pub const MAX_TOTAL_DEMAND: u64 = 1_000_000;

/// Largest demand of a single item that is accepted.
pub const MAX_ITEM_DEMAND: u64 = MAX_TOTAL_DEMAND;

/// Why the demand of an instance is refused.
#[derive(Debug, Clone, Copy, PartialEq, Eq, Structural)]
pub enum DemandError {
    /// A single item is demanded too often.
    ItemTooLarge {
        /// Position of the item.
        index: usize,
        /// Its demand.
        demand: u64,
    },
    /// The items up to this one are demanded too often in total.
    TotalTooLarge {
        /// Position of the item.
        index: usize,
        /// The total up to it.
        total: u64,
    },
}

/// The sum of the first `m` demands.
pub open spec fn demand_sum(demands: Seq<u64>, m: nat) -> nat
    decreases m,
{
    if m == 0 {
        0
    } else {
        demand_sum(demands, (m - 1) as nat) + demands[m - 1] as nat
    }
}

/// What is wrong with the item at position `i`, given that nothing is wrong before it.
pub open spec fn demand_problem(demands: Seq<u64>, i: int) -> Option<DemandError> {
    if demands[i] > MAX_ITEM_DEMAND {
        Some(DemandError::ItemTooLarge { index: i as usize, demand: demands[i] })
    } else if demand_sum(demands, (i + 1) as nat) > MAX_TOTAL_DEMAND {
        Some(
            DemandError::TotalTooLarge {
                index: i as usize,
                total: demand_sum(demands, (i + 1) as nat) as u64,
            },
        )
    } else {
        None
    }
}

/// Sums the demands of the items, and refuses a demand or a total above the cap.
pub fn total_demand(demands: &[u64]) -> (r: Result<u64, DemandError>)
    ensures
        match r {
            Ok(total) => {
                &&& total == demand_sum(demands@, demands@.len())
                &&& forall|i: int|
                    0 <= i < demands@.len() ==> #[trigger] demand_problem(demands@, i) is None
            },
            Err(e) => exists|i: int|
                {
                    &&& 0 <= i < demands@.len()
                    &&& #[trigger] demand_problem(demands@, i) == Some(e)
                    &&& forall|j: int|
                        0 <= j < i ==> #[trigger] demand_problem(demands@, j) is None
                },
        },
{
    let mut total: u64 = 0;
    let mut i: usize = 0;
    while i < demands.len()
        invariant
            i <= demands@.len(),
            total == demand_sum(demands@, i as nat),
            total <= MAX_TOTAL_DEMAND,
            forall|j: int| 0 <= j < i ==> #[trigger] demand_problem(demands@, j) is None,
        decreases demands@.len() - i,
    {
        let d: u64 = demands[i];
        if d > MAX_ITEM_DEMAND {
            assert(demand_problem(demands@, i as int) == Some(
                DemandError::ItemTooLarge { index: i, demand: d },
            ));
            return Err(DemandError::ItemTooLarge { index: i, demand: d });
        }
        total = total + d;
        if total > MAX_TOTAL_DEMAND {
            assert(demand_problem(demands@, i as int) == Some(
                DemandError::TotalTooLarge { index: i, total },
            ));
            return Err(DemandError::TotalTooLarge { index: i, total });
        }
        i = i + 1;
    }
    Ok(total)
}

/// **The sum never wraps**: whatever the demands are, what is accepted is the true sum, and it is at
/// most the cap; and demands with a true sum within the cap are accepted.
pub proof fn lemma_accepted_sums_are_true(demands: Seq<u64>, m: nat)
    requires
        m <= demands.len(),
    ensures
        (forall|i: int| 0 <= i < m ==> #[trigger] demand_problem(demands, i) is None)
            <==> demand_sum(demands, m) <= MAX_TOTAL_DEMAND,
    decreases m,
{
    if m > 0 {
        lemma_accepted_sums_are_true(demands, (m - 1) as nat);
        let last = m - 1;
        assert(demand_problem(demands, last) is None <==> (demands[last] <= MAX_ITEM_DEMAND
            && demand_sum(demands, m) <= MAX_TOTAL_DEMAND));
    }
}

/// The message about a refused demand.
pub open spec fn demand_message(e: DemandError) -> Seq<char> {
    match e {
        DemandError::ItemTooLarge { index, demand } => "item #"@ + text::decimal(index as nat)
            + " demands "@ + text::decimal(demand as nat)
            + " copies, more than the supported maximum of "@ + text::decimal(1_000_000)
            + " for a single item; every copy is materialised individually, so this would exhaust memory before the first placement"@,
        DemandError::TotalTooLarge { index, total } => "the instance demands more than "@
            + text::decimal(1_000_000) + " items in total (already "@ + text::decimal(total as nat)
            + " at item #"@ + text::decimal(index as nat)
            + "); every copy is materialised individually, so this would exhaust memory before the first placement"@,
    }
}

impl DemandError {
    /// The message for the user.
    pub fn to_string(&self) -> (s: String)
        ensures
            s@ == demand_message(*self),
    {
        let mut s = String::new();
        match self {
            DemandError::ItemTooLarge { index, demand } => {
                s.append("item #");
                push_decimal(&mut s, *index as u64);
                s.append(" demands ");
                push_decimal(&mut s, *demand);
                s.append(" copies, more than the supported maximum of ");
                push_decimal(&mut s, MAX_ITEM_DEMAND);
                s.append(
                    " for a single item; every copy is materialised individually, so this would exhaust memory before the first placement",
                );
            },
            DemandError::TotalTooLarge { index, total } => {
                s.append("the instance demands more than ");
                push_decimal(&mut s, MAX_TOTAL_DEMAND);
                s.append(" items in total (already ");
                push_decimal(&mut s, *total);
                s.append(" at item #");
                push_decimal(&mut s, *index as u64);
                s.append(
                    "); every copy is materialised individually, so this would exhaust memory before the first placement",
                );
            },
        }
        assert(s@ =~= demand_message(*self));
        s
    }
}

/// **The total is the sum of all demands**, none left out and none counted twice.
pub proof fn lemma_total_is_the_sum(demands: Seq<u64>, m: nat)
    requires
        m <= demands.len(),
    ensures
        demand_sum(demands, m) == demands.take(m as int).fold_left(
            0nat,
            |sum: nat, d: u64| sum + d as nat,
        ),
    decreases m,
{
    let plus = |sum: nat, d: u64| sum + d as nat;
    if m > 0 {
        lemma_total_is_the_sum(demands, (m - 1) as nat);
        assert(demands.take(m as int).drop_last() =~= demands.take(m - 1));
        assert(demands.take(m as int).fold_left(0nat, plus) == plus(
            demands.take(m - 1).fold_left(0nat, plus),
            demands[m - 1],
        ));
    }
}

/// **A refusal names the first item with which the demand goes too far**, with its demand or the true
/// total up to it.
pub proof fn lemma_demand_refusals_are_true(demands: Seq<u64>, i: int)
    requires
        0 <= i < demands.len() <= usize::MAX,
        forall|j: int| 0 <= j < i ==> #[trigger] demand_problem(demands, j) is None,
    ensures
        match demand_problem(demands, i) {
            Some(DemandError::ItemTooLarge { index, demand }) => index == i && demand == demands[i]
                && demands[i] > MAX_ITEM_DEMAND,
            Some(DemandError::TotalTooLarge { index, total }) => index == i && demands[i]
                <= MAX_ITEM_DEMAND && demand_sum(demands, i as nat) <= MAX_TOTAL_DEMAND && demand_sum(
                demands,
                (i + 1) as nat,
            ) > MAX_TOTAL_DEMAND && total == demand_sum(demands, (i + 1) as nat),
            None => demands[i] <= MAX_ITEM_DEMAND && demand_sum(demands, (i + 1) as nat)
                <= MAX_TOTAL_DEMAND,
        },
{
    lemma_accepted_sums_are_true(demands, i as nat);
}

} // verus!
