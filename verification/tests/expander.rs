use pan_balance::inventory::{expand, generate_weight_perms, Denomination};

#[test]
fn three_units_of_two() {
    assert_eq!(generate_weight_perms(3, 2), vec![-6, -4, -2, 0, 2, 4, 6]);
}

#[test]
fn two_units_of_three() {
    assert_eq!(generate_weight_perms(2, 3), vec![-6, -3, 0, 3, 6]);
}

#[test]
fn no_unit_gives_zero_alone() {
    assert_eq!(generate_weight_perms(0, 17), vec![0]);
    assert_eq!(generate_weight_perms(0, i64::MIN), vec![0]);
}

#[test]
fn negative_count_gives_nothing() {
    assert_eq!(generate_weight_perms(-1, 5), Vec::<i64>::new());
    assert_eq!(generate_weight_perms(i64::MIN, 5), Vec::<i64>::new());
}

#[test]
fn negative_value_descends() {
    assert_eq!(generate_weight_perms(2, -3), vec![6, 3, 0, -3, -6]);
}

#[test]
fn largest_value_fits() {
    assert_eq!(generate_weight_perms(1, i64::MAX), vec![-i64::MAX, 0, i64::MAX]);
}

#[test]
fn list_has_odd_length_mirrors_itself_and_holds_zero() {
    for (count, value) in [(0i64, 4i64), (1, 1), (5, 7), (12, -9), (3, 1000)] {
        let list = generate_weight_perms(count, value);
        assert_eq!(list.len() as i64, 2 * count + 1);
        for i in 0..list.len() {
            assert_eq!(list[i], -list[list.len() - 1 - i]);
        }
        assert!(list.contains(&0));
        assert_eq!(list[count as usize], 0);
    }
}

#[test]
fn expands_every_denomination_in_order() {
    let inventory = vec![
        Denomination { value: 2, count: 1 },
        Denomination { value: 3, count: 2 },
        Denomination { value: 6, count: 2 },
    ];
    assert_eq!(
        expand(&inventory),
        vec![vec![-2, 0, 2], vec![-6, -3, 0, 3, 6], vec![-12, -6, 0, 6, 12]]
    );
}

#[test]
fn expands_the_empty_inventory_to_nothing() {
    assert_eq!(expand(&Vec::new()), Vec::<Vec<i64>>::new());
}
