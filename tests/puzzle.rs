use gf32::coins::{assign, generate_all_patterns, random_assign, siwake, solve_coin_problem, tenbin};
use gf32::euclid::gcd;

#[test]
fn split_into_pans() {
    let arr = vec![1, 2, 3, 4, 5];
    let groups = vec![-1, 0, 1, 7, -1];
    let (left, center, right) = siwake(&arr, &groups);
    assert_eq!(left, vec![1, 5]);
    assert_eq!(center, vec![2]);
    assert_eq!(right, vec![3]);
}

#[test]
fn balance_readings() {
    assert_eq!(tenbin(vec![1, 0], vec![0, 0]), -1);
    assert_eq!(tenbin(vec![0, 0], vec![0, 1]), 1);
    assert_eq!(tenbin(vec![-1, 1], vec![0]), 0);
    assert_eq!(tenbin(vec![], vec![]), 0);
    assert_eq!(tenbin(vec![i32::MAX, 1, -1], vec![i32::MAX]), 0);
}

#[test]
fn every_pattern_is_solved() {
    let patterns = generate_all_patterns();
    assert_eq!(patterns.len(), 24);
    for (i, (pattern, _)) in patterns.iter().enumerate() {
        let k = i % 12;
        let w = if i < 12 { -1 } else { 1 };
        assert_eq!(solve_coin_problem(pattern), Some((k, w)), "pattern {}", i);
    }
}

#[test]
fn pattern_labels() {
    let patterns = generate_all_patterns();
    assert_eq!(patterns[0].1, "１番目がー１");
    assert_eq!(patterns[7].1, "８番目がマイナス１");
    assert_eq!(patterns[23].1, "１２番目が１");
    assert_eq!(patterns[9].1, "１０番目がー１");
    assert_eq!(patterns[13].1, "２番目が１");
    assert_eq!(patterns[5].0, vec![0, 0, 0, 0, 0, -1, 0, 0, 0, 0, 0, 0]);
}

#[test]
fn gcd_of_two() {
    assert_eq!(gcd(vec![12, 18]), 6);
    assert_eq!(gcd(vec![7, 13]), 1);
}

#[test]
fn gcd_of_three() {
    assert_eq!(gcd(vec![12, 18, 27]), 3);
    assert_eq!(gcd(vec![100, 75, 50, 25]), 25);
}

#[test]
fn gcd_with_zero_is_zero() {
    assert_eq!(gcd(vec![0, 5]), 0);
    assert_eq!(gcd(vec![4, 8, 0]), 0);
}

#[test]
fn gcd_of_absolute_values() {
    assert_eq!(gcd(vec![-4, 6]), 2);
    assert_eq!(gcd(vec![4, -6]), 2);
    assert_eq!(gcd(vec![12, 18, 8]), 2);
}

#[test]
fn gcd_edge_cases() {
    assert_eq!(gcd(vec![]), 0);
    assert_eq!(gcd(vec![0]), 0);
    assert_eq!(gcd(vec![-7]), 7);
    assert_eq!(gcd(vec![0, i32::MIN]), 0);
    assert_eq!(gcd(vec![i32::MIN, 2]), 2);
    assert_eq!(gcd(vec![i32::MIN, -1]), 1);
    assert_eq!(gcd(vec![i32::MIN, i32::MAX]), 1);
}

#[test]
fn assign_places_one_coin() {
    let coins = assign(3, true);
    assert_eq!(coins, vec![0, 0, 0, 1, 0, 0, 0, 0, 0, 0, 0, 0]);
    assert_eq!(solve_coin_problem(&assign(11, false)), Some((11, -1)));
    let r = random_assign();
    assert_eq!(r.len(), 12);
    assert_eq!(r.iter().filter(|&&c| c != 0).count(), 1);
}
