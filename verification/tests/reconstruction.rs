use pan_balance::inventory::{Denomination, InventoryError};
use pan_balance::placement::place;
use pan_balance::solution::Solution;
use std::collections::HashMap;

fn inventory(pairs: &[(i64, u64)]) -> Vec<Denomination> {
    pairs.iter().map(|&(value, count)| Denomination { value, count }).collect()
}

#[test]
fn places_negative_contributions_left_and_positive_ones_right() {
    let denominations = inventory(&[(2, 1), (3, 2), (6, 2)]);
    assert_eq!(place(&denominations, &vec![0, 3, 3]), (vec![2], vec![3, 6]));
    assert_eq!(place(&denominations, &vec![0, 1, 4]), (vec![2, 3], vec![6, 6]));
    assert_eq!(place(&denominations, &vec![2, 0, 0]), (vec![3, 3, 6, 6], vec![2]));
}

#[test]
fn places_nothing_for_unused_denominations() {
    let denominations = inventory(&[(2, 1), (3, 2), (6, 2)]);
    assert_eq!(place(&denominations, &vec![1, 2, 2]), (vec![], vec![]));
    assert_eq!(place(&inventory(&[(5, 0)]), &vec![0]), (vec![], vec![]));
    assert_eq!(place(&Vec::new(), &Vec::new()), (vec![], vec![]));
}

#[test]
fn places_every_unit_of_a_denomination() {
    let denominations = inventory(&[(7, 4)]);
    assert_eq!(place(&denominations, &vec![0]), (vec![7, 7, 7, 7], vec![]));
    assert_eq!(place(&denominations, &vec![8]), (vec![], vec![7, 7, 7, 7]));
    assert_eq!(place(&denominations, &vec![5]), (vec![], vec![7]));
}

#[test]
fn places_a_negative_value_by_the_sign_of_its_contribution() {
    let denominations = inventory(&[(-3, 2)]);
    assert_eq!(place(&denominations, &vec![0]), (vec![], vec![-3, -3]));
    assert_eq!(place(&denominations, &vec![3]), (vec![-3], vec![]));
}

#[test]
fn builds_the_rows_in_ascending_order_of_their_sums() {
    let denominations = inventory(&[(2, 1), (3, 2)]);
    let mut sums: HashMap<i64, Vec<usize>> = HashMap::new();
    sums.insert(8, vec![2, 4]);
    sums.insert(-1, vec![2, 1]);
    sums.insert(0, vec![1, 2]);
    sums.insert(5, vec![2, 3]);
    sums.insert(1, vec![0, 3]);
    let table = Solution::create(&sums, &denominations).unwrap();
    assert_eq!(
        table.rows(),
        &vec![
            (-1, vec![3], vec![2]),
            (0, vec![], vec![]),
            (1, vec![2], vec![3]),
            (5, vec![], vec![2, 3]),
            (8, vec![], vec![2, 3, 3]),
        ]
    );
}

#[test]
fn builds_an_empty_table_from_no_sums() {
    let table = Solution::create(&HashMap::new(), &inventory(&[(2, 1)])).unwrap();
    assert!(table.rows().is_empty());
    assert!(table.records(false).is_empty());
}

#[test]
fn builds_many_rows_in_order() {
    let denominations = inventory(&[(1, 500)]);
    let mut sums: HashMap<i64, Vec<usize>> = HashMap::new();
    for k in 0..1001usize {
        sums.insert(((k * 7919) % 1001) as i64 - 500, vec![(k * 7919) % 1001]);
    }
    let table = Solution::create(&sums, &denominations).unwrap();
    let rows = table.rows();
    assert_eq!(rows.len(), 1001);
    for (i, row) in rows.iter().enumerate() {
        let sum = i as i64 - 500;
        assert_eq!(row.0, sum);
        assert_eq!(row.1.len() as i64, if sum < 0 { -sum } else { 0 });
        assert_eq!(row.2.len() as i64, if sum > 0 { sum } else { 0 });
    }
}

#[test]
fn create_refuses_a_zero_value() {
    let mut sums: HashMap<i64, Vec<usize>> = HashMap::new();
    sums.insert(0, vec![1, 1]);
    let outcome = Solution::create(&sums, &inventory(&[(2, 1), (0, 1)]));
    assert!(matches!(outcome, Err(InventoryError::InvalidInventory)));
}
