use pan_balance::inventory::{
    count_combinations, validate_inventory, Denomination, InventoryError, MAX_COMBINATIONS,
};

fn inventory(pairs: &[(i64, u64)]) -> Vec<Denomination> {
    pairs.iter().map(|&(value, count)| Denomination { value, count }).collect()
}

#[test]
fn counts_the_product_of_the_list_lengths() {
    assert_eq!(count_combinations(&inventory(&[(5, 3), (3, 1), (4, 2)]), 1000), Some(105));
    assert_eq!(count_combinations(&inventory(&[(2, 1), (3, 2), (6, 2)]), 75), Some(75));
}

#[test]
fn counts_one_combination_for_the_empty_inventory() {
    assert_eq!(count_combinations(&Vec::new(), 1), Some(1));
    assert_eq!(count_combinations(&Vec::new(), 0), None);
}

#[test]
fn stops_counting_above_the_budget() {
    assert_eq!(count_combinations(&inventory(&[(2, 1), (3, 2), (6, 2)]), 74), None);
    assert_eq!(count_combinations(&inventory(&[(1, u64::MAX)]), u64::MAX), None);
    assert_eq!(
        count_combinations(&inventory(&[(1, u64::MAX), (1, u64::MAX), (1, u64::MAX)]), u64::MAX),
        None
    );
}

#[test]
fn counts_up_to_the_largest_budget() {
    assert_eq!(
        count_combinations(&inventory(&[(1, (u64::MAX - 1) / 2)]), u64::MAX),
        Some(u64::MAX)
    );
}

#[test]
fn accepts_an_ordinary_inventory() {
    assert_eq!(validate_inventory(&inventory(&[(2, 1), (3, 2), (6, 2)]), 75), Ok(()));
}

#[test]
fn accepts_the_empty_inventory() {
    assert_eq!(validate_inventory(&Vec::new(), MAX_COMBINATIONS), Ok(()));
}

#[test]
fn refuses_a_zero_value() {
    assert_eq!(
        validate_inventory(&inventory(&[(2, 1), (0, 2)]), MAX_COMBINATIONS),
        Err(InventoryError::InvalidInventory)
    );
    assert_eq!(
        validate_inventory(&inventory(&[(0, 0)]), MAX_COMBINATIONS),
        Err(InventoryError::InvalidInventory)
    );
}

#[test]
fn refuses_too_many_combinations() {
    assert_eq!(
        validate_inventory(&inventory(&[(2, 1), (3, 2), (6, 2)]), 74),
        Err(InventoryError::IntractableInventory)
    );
    assert_eq!(
        validate_inventory(&inventory(&[(1, 1000), (2, 1000), (3, 1000)]), MAX_COMBINATIONS),
        Err(InventoryError::IntractableInventory)
    );
    assert_eq!(validate_inventory(&Vec::new(), 0), Err(InventoryError::IntractableInventory));
}

#[test]
fn refuses_sums_that_do_not_fit() {
    assert_eq!(
        validate_inventory(&inventory(&[(i64::MAX, 2)]), MAX_COMBINATIONS),
        Err(InventoryError::SumOverflow)
    );
    assert_eq!(
        validate_inventory(&inventory(&[(i64::MIN, 1)]), MAX_COMBINATIONS),
        Err(InventoryError::SumOverflow)
    );
    assert_eq!(
        validate_inventory(&inventory(&[(i64::MAX, 1), (1, 1)]), MAX_COMBINATIONS),
        Err(InventoryError::SumOverflow)
    );
}

#[test]
fn accepts_the_largest_span() {
    assert_eq!(validate_inventory(&inventory(&[(i64::MAX, 1)]), MAX_COMBINATIONS), Ok(()));
    assert_eq!(validate_inventory(&inventory(&[(-i64::MAX, 1)]), MAX_COMBINATIONS), Ok(()));
    assert_eq!(
        validate_inventory(&inventory(&[(i64::MAX - 1, 1), (1, 1)]), MAX_COMBINATIONS),
        Ok(())
    );
    assert_eq!(validate_inventory(&inventory(&[(i64::MIN, 0)]), MAX_COMBINATIONS), Ok(()));
}

#[test]
fn reports_a_zero_value_before_anything_else() {
    assert_eq!(
        validate_inventory(&inventory(&[(i64::MAX, u64::MAX), (0, 1)]), 1),
        Err(InventoryError::InvalidInventory)
    );
}

#[test]
fn reports_the_budget_before_the_overflow() {
    assert_eq!(
        validate_inventory(&inventory(&[(i64::MAX, 2)]), 4),
        Err(InventoryError::IntractableInventory)
    );
}
