use pan_balance::enumerate::{enumerate_sums, recurse};
use std::collections::HashMap;

fn sum_of(arr: &Vec<Vec<i64>>, combination: &Vec<usize>) -> i64 {
    assert_eq!(combination.len(), arr.len());
    (0..arr.len()).map(|i| arr[i][combination[i]]).sum()
}

fn sorted_keys(sums: &HashMap<i64, Vec<usize>>) -> Vec<i64> {
    let mut keys: Vec<i64> = sums.keys().copied().collect();
    keys.sort();
    keys
}

fn all_sums(arr: &Vec<Vec<i64>>) -> Vec<i64> {
    let mut sums = vec![0i64];
    for list in arr {
        let mut next = Vec::new();
        for s in &sums {
            for x in list {
                next.push(s + x);
            }
        }
        sums = next;
    }
    sums.sort();
    sums.dedup();
    sums
}

#[test]
fn keeps_every_sum_in_range() {
    let arr = vec![vec![-2, 0, 2], vec![-6, -3, 0, 3, 6], vec![-12, -6, 0, 6, 12]];
    let sums = enumerate_sums(&arr, 0, 10000);
    let mut expected: Vec<i64> = (0..=18).collect();
    expected.push(20);
    assert_eq!(sorted_keys(&sums), expected);
}

#[test]
fn keeps_a_combination_that_gives_the_sum() {
    let arr = vec![vec![-2, 0, 2], vec![-6, -3, 0, 3, 6], vec![-12, -6, 0, 6, 12]];
    let sums = enumerate_sums(&arr, -5, 12);
    for (sum, combination) in &sums {
        assert_eq!(sum_of(&arr, combination), *sum);
    }
}

#[test]
fn keeps_the_first_combination_found() {
    let arr = vec![vec![-2, 0, 2], vec![-6, -3, 0, 3, 6], vec![-12, -6, 0, 6, 12]];
    let sums = enumerate_sums(&arr, 0, 10000);
    assert_eq!(sums[&7], vec![0, 1, 4]);
    assert_eq!(sums[&0], vec![1, 0, 3]);
}

#[test]
fn keeps_the_nearest_sum_above_the_range_only() {
    let arr = vec![vec![-15, -10, -5, 0, 5, 10, 15]];
    let sums = enumerate_sums(&arr, 0, 7);
    assert_eq!(sorted_keys(&sums), vec![0, 5, 10]);
    assert_eq!(sums[&10], vec![5]);
}

#[test]
fn drops_the_sums_below_the_range() {
    let arr = vec![vec![-15, -10, -5, 0, 5, 10, 15]];
    let sums = enumerate_sums(&arr, 4, 11);
    assert_eq!(sorted_keys(&sums), vec![5, 10, 15]);
    let sums = enumerate_sums(&arr, 20, 30);
    assert_eq!(sorted_keys(&sums), Vec::<i64>::new());
}

#[test]
fn keeps_the_nearest_sum_above_an_empty_range() {
    let arr = vec![vec![-15, -10, -5, 0, 5, 10, 15]];
    let sums = enumerate_sums(&arr, 3, -7);
    assert_eq!(sorted_keys(&sums), vec![-5]);
}

#[test]
fn replaces_the_sum_above_the_range_by_a_nearer_one() {
    let arr = vec![vec![30, 20, 10, 0]];
    let sums = enumerate_sums(&arr, 0, 5);
    assert_eq!(sorted_keys(&sums), vec![0, 10]);
    assert_eq!(sums[&10], vec![2]);
}

#[test]
fn agrees_with_the_product_of_the_lists() {
    let arr = vec![vec![-7, 0, 7], vec![-4, -2, 0, 2, 4], vec![-1, 0, 1], vec![-26, -13, 0, 13, 26]];
    let (low, high) = (-3, 21);
    let sums = enumerate_sums(&arr, low, high);
    let all = all_sums(&arr);
    let mut expected: Vec<i64> = all.iter().copied().filter(|s| low <= *s && *s <= high).collect();
    if let Some(over) = all.iter().copied().find(|s| *s > high) {
        expected.push(over);
    }
    assert_eq!(sorted_keys(&sums), expected);
}

#[test]
fn finds_zero_alone_without_lists() {
    let sums = enumerate_sums(&Vec::new(), 0, 10000);
    assert_eq!(sorted_keys(&sums), vec![0]);
    assert_eq!(sums[&0], Vec::<usize>::new());
}

#[test]
fn finds_nothing_with_an_empty_list() {
    let arr = vec![vec![-1, 0, 1], vec![]];
    let sums = enumerate_sums(&arr, -10, 10);
    assert!(sums.is_empty());
}

#[test]
fn reaches_the_ends_of_the_integers() {
    let arr = vec![vec![-i64::MAX, 0, i64::MAX], vec![-1, 0]];
    let sums = enumerate_sums(&arr, i64::MIN, i64::MAX);
    assert_eq!(sorted_keys(&sums), vec![i64::MIN, -i64::MAX, -1, 0, i64::MAX - 1, i64::MAX]);
    let sums = enumerate_sums(&arr, 1, 2);
    assert_eq!(sorted_keys(&sums), vec![i64::MAX - 1]);
}

#[test]
fn visits_the_combinations_that_extend_the_prefix() {
    let arr = vec![vec![-2, 0, 2], vec![-3, 0, 3]];
    let mut sums: HashMap<i64, Vec<usize>> = HashMap::new();
    let mut overshoot: Option<i64> = None;
    let mut counters = vec![2, 0];
    recurse(&mut sums, &mut overshoot, &arr, 1, &mut counters, 2, 0, 4);
    assert_eq!(sorted_keys(&sums), vec![2, 5]);
    assert_eq!(overshoot, Some(5));
    assert_eq!(sums[&2], vec![2, 1]);
    assert_eq!(sums[&5], vec![2, 2]);
    assert_eq!(counters[0], 2);
}

#[test]
fn adds_to_what_earlier_calls_recorded() {
    let arr = vec![vec![-2, 0, 2], vec![-3, 0, 3]];
    let mut sums: HashMap<i64, Vec<usize>> = HashMap::new();
    let mut overshoot: Option<i64> = None;
    let mut counters = vec![0, 0];
    recurse(&mut sums, &mut overshoot, &arr, 1, &mut counters, -2, 0, 3);
    assert_eq!(sorted_keys(&sums), vec![1]);
    assert_eq!(overshoot, None);
    let mut counters = vec![1, 0];
    recurse(&mut sums, &mut overshoot, &arr, 1, &mut counters, 0, 0, 3);
    assert_eq!(sorted_keys(&sums), vec![0, 1, 3]);
    assert_eq!(overshoot, None);
    let mut counters = vec![2, 0];
    recurse(&mut sums, &mut overshoot, &arr, 1, &mut counters, 2, 0, 3);
    assert_eq!(sorted_keys(&sums), vec![0, 1, 2, 3, 5]);
    assert_eq!(overshoot, Some(5));
    assert_eq!(sums[&1], vec![0, 2]);
    assert_eq!(sums[&0], vec![1, 1]);
    assert_eq!(sums[&5], vec![2, 2]);
}

#[test]
fn keeps_the_earlier_combination_of_two_with_one_sum() {
    let arr = vec![vec![0, 1, 2], vec![0, 1, 2]];
    let sums = enumerate_sums(&arr, 0, 3);
    assert_eq!(sums[&0], vec![0, 0]);
    assert_eq!(sums[&1], vec![0, 1]);
    assert_eq!(sums[&2], vec![0, 2]);
    assert_eq!(sums[&3], vec![1, 2]);
    assert_eq!(sums[&4], vec![2, 2]);
    let sums = enumerate_sums(&arr, 0, 1);
    assert_eq!(sorted_keys(&sums), vec![0, 1, 2]);
    assert_eq!(sums[&2], vec![0, 2]);
}

#[test]
fn records_the_finished_combination_at_full_depth() {
    let arr = vec![vec![-2, 0, 2], vec![-3, 0, 3]];
    let mut sums: HashMap<i64, Vec<usize>> = HashMap::new();
    let mut overshoot: Option<i64> = None;
    let mut counters = vec![2, 2];
    recurse(&mut sums, &mut overshoot, &arr, 2, &mut counters, 5, 0, 10);
    assert_eq!(sorted_keys(&sums), vec![5]);
    assert_eq!(sums[&5], vec![2, 2]);
    assert_eq!(overshoot, None);
}
