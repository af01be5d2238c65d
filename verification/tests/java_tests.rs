use rusticg::reversal::java::java_random::{next, next_boolean, next_bound_int, next_int, next_long};
use rusticg::util::lcg::{java, Random};

// The internal seed of Java's `new Random(0)` is `0 ^ 0x5DEECE66D`.
fn java_random_zero() -> Random {
    Random::of_seed(java(), 0x5DEECE66D)
}

#[test]
fn next_int_matches_java() {
    let mut r = java_random_zero();
    assert_eq!(next_int(&mut r), -1155484576);
}

#[test]
fn next_boolean_matches_java() {
    let mut r = java_random_zero();
    assert!(next_boolean(&mut r));
}

#[test]
fn next_long_matches_java() {
    let mut r = java_random_zero();
    assert_eq!(next_long(&mut r), -4962768465676381896);
}

#[test]
fn next_bound_int_matches_java() {
    let mut r = java_random_zero();
    let drawn: Vec<i32> = (0..5).map(|_| next_bound_int(&mut r, 10)).collect();
    assert_eq!(drawn, vec![0, 8, 9, 7, 5]);
}

#[test]
fn next_bound_int_power_of_two() {
    let mut r = java_random_zero();
    assert_eq!(next_bound_int(&mut r, 16), 11);
}

#[test]
fn next_returns_top_bits_and_advances() {
    let mut r = Random::of_seed(java(), 0);
    let bits = next(&mut r, 48);
    assert_eq!(r.get_seed(), 11);
    assert_eq!(bits, 11);
}
