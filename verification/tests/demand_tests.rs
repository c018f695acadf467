use sparrow::util::demand::{total_demand, DemandError, MAX_ITEM_DEMAND, MAX_TOTAL_DEMAND};

#[test]
fn a_normal_instance_sums_normally() {
    assert_eq!(total_demand(&[3, 4, 5]).unwrap(), 12);
    assert_eq!(total_demand(&[]).unwrap(), 0);
}

#[test]
fn the_cap_itself_is_accepted_and_one_more_is_not() {
    assert_eq!(total_demand(&[MAX_TOTAL_DEMAND]).unwrap(), MAX_TOTAL_DEMAND);
    assert!(total_demand(&[MAX_TOTAL_DEMAND + 1]).is_err());
    // Split across two items, so only the running total exceeds it.
    assert!(total_demand(&[MAX_TOTAL_DEMAND, 1]).is_err());
}

#[test]
fn the_audit_overflow_fixture_is_an_error_not_a_wrap() {
    let err = total_demand(&[u64::MAX, 1]).unwrap_err().to_string();
    assert!(err.contains("item #0"), "the first item is the culprit: {err}");
    assert_eq!(u64::MAX.wrapping_add(1), 0);
}

#[test]
fn a_single_enormous_demand_is_caught_by_the_per_item_cap() {
    assert!(total_demand(&[u64::MAX]).is_err());
}

#[test]
fn the_unchecked_sum_really_does_wrap() {
    let demands = [u64::MAX, 1u64];
    let wrapped = demands.iter().fold(0u64, |a, b| a.wrapping_add(*b));
    assert_eq!(wrapped, 0, "u64::MAX + 1 wraps to 0");
    assert!(wrapped <= 1_000_000, "and 0 passes any sane demand limit");
    let checked = demands.iter().try_fold(0u64, |a, b| a.checked_add(*b));
    assert!(checked.is_none(), "checked_add must report the overflow rather than wrap");
    assert!(total_demand(&demands).is_err(), "the checked sum must refuse it too");
}

#[test]
fn the_demand_cap_boundary_is_exact() {
    assert_eq!(total_demand(&[MAX_TOTAL_DEMAND]).unwrap(), MAX_TOTAL_DEMAND, "the cap itself is a legal instance");
    assert!(total_demand(&[MAX_TOTAL_DEMAND + 1]).is_err(), "one over the cap must be rejected");
    assert!(total_demand(&[MAX_TOTAL_DEMAND - 1, 2]).is_err(), "the total is capped, not merely each item");
    assert!(total_demand(&[u64::MAX]).is_err(), "a single enormous demand must be caught by the per-item cap");
}

#[test]
fn the_first_offending_item_is_named() {
    assert_eq!(MAX_ITEM_DEMAND, 1_000_000);
    assert_eq!(
        total_demand(&[1, 2, 1_000_001, u64::MAX]).unwrap_err(),
        DemandError::ItemTooLarge { index: 2, demand: 1_000_001 }
    );
    let err = total_demand(&[600_000, 400_000, 0, 7]).unwrap_err();
    assert_eq!(err, DemandError::TotalTooLarge { index: 3, total: 1_000_007 });
    assert_eq!(
        err.to_string(),
        "the instance demands more than 1000000 items in total (already 1000007 at item #3); every copy is \
         materialised individually, so this would exhaust memory before the first placement"
    );
}
