use pan_balance::inventory::Denomination;
use pan_balance::solver::solve;
use pan_balance::sorting::sort_ascending;

fn inventory(pairs: &[(i64, u64)]) -> Vec<Denomination> {
    pairs.iter().map(|&(value, count)| Denomination { value, count }).collect()
}

fn achievable(pairs: &[(i64, u64)]) -> Vec<i64> {
    let mut sums = vec![0i64];
    for (value, count) in pairs {
        let mut next = Vec::new();
        for s in &sums {
            for k in -(*count as i64)..=(*count as i64) {
                next.push(s + k * value);
            }
        }
        next.sort();
        next.dedup();
        sums = next;
    }
    sums
}

const INVENTORIES: [&[(i64, u64)]; 5] = [
    &[(2, 1), (3, 2), (6, 2)],
    &[(5, 3), (3, 1), (4, 2)],
    &[(1000, 12), (7, 1)],
    &[(4000, 3), (4500, 1), (1, 2)],
    &[(9, 2), (9, 2), (1, 1)],
];

#[test]
fn every_row_balances() {
    for pairs in INVENTORIES {
        let table = solve(&inventory(pairs)).unwrap();
        for row in table.rows() {
            assert_eq!(row.0, row.2.iter().sum::<i64>() - row.1.iter().sum::<i64>());
        }
    }
}

#[test]
fn the_sums_ascend_strictly() {
    for pairs in INVENTORIES {
        let table = solve(&inventory(pairs)).unwrap();
        let rows = table.rows();
        for i in 1..rows.len() {
            assert!(rows[i - 1].0 < rows[i].0);
        }
    }
}

#[test]
fn the_table_holds_the_achievable_sums_of_the_range_and_one_above() {
    for pairs in INVENTORIES {
        let table = solve(&inventory(pairs)).unwrap();
        let all = achievable(pairs);
        let mut expected: Vec<i64> = all.iter().copied().filter(|s| 0 <= *s && *s <= 10000).collect();
        if let Some(over) = all.iter().copied().find(|s| *s > 10000) {
            expected.push(over);
        }
        let found: Vec<i64> = table.rows().iter().map(|row| row.0).collect();
        assert_eq!(found, expected);
    }
}

#[test]
fn an_achievable_mass_is_found_exactly() {
    for pairs in INVENTORIES {
        let table = solve(&inventory(pairs)).unwrap();
        for s in achievable(pairs) {
            if 0 <= s && s <= 10000 {
                assert_eq!(table.get_closest_combination(s).0, s);
            }
        }
    }
}

#[test]
fn no_neighbour_is_nearer_than_the_row_returned() {
    for pairs in INVENTORIES {
        let table = solve(&inventory(pairs)).unwrap();
        let rows = table.rows();
        for target in (-50..10200).step_by(7) {
            let found = table.get_closest_combination(target).0;
            let at = rows.iter().position(|row| row.0 == found).unwrap();
            let here = (found - target).abs();
            if at > 0 {
                assert!(here <= (rows[at - 1].0 - target).abs());
            }
            if at + 1 < rows.len() {
                assert!(here <= (rows[at + 1].0 - target).abs());
            }
        }
    }
}

#[test]
fn sorts_into_ascending_order() {
    assert_eq!(sort_ascending(&vec![5, -1, 3, 3, 0, i64::MAX, i64::MIN]), vec![
        i64::MIN,
        -1,
        0,
        3,
        3,
        5,
        i64::MAX
    ]);
    assert_eq!(sort_ascending(&Vec::new()), Vec::<i64>::new());
    assert_eq!(sort_ascending(&vec![9]), vec![9]);
    let scrambled: Vec<i64> = (0..1000).map(|k| (k * 389) % 1000).collect();
    assert_eq!(sort_ascending(&scrambled), (0..1000).collect::<Vec<i64>>());
}
