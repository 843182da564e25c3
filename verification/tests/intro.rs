use sorts::comparison::intro::{floor_log2_usize, intro_sort_impl, INSERTION_THRESHOLD};
use sorts::intro_sort;

// Helper function that checks for every pair next to another that left <= right side
fn is_sorted(v: &[i64]) -> bool {
    v.windows(2).all(|w| w[0] <= w[1])
}

// Deterministic RNG so no rand crate needed
fn lcg_next(state: &mut u64) -> u64 {
    // Constants from Numerical Recipes
    *state = state.wrapping_mul(6364136223846793005).wrapping_add(1);
    *state
}

// Generates a pseudo-random vector depending on the seed
fn generate_vec(len: usize, seed: u64) -> Vec<i64> {
    let mut s = seed;
    let mut out = Vec::with_capacity(len);
    for _ in 0..len {
        let x = lcg_next(&mut s);
        out.push(((x >> 33) as i32 ^ (x as i32)) as i64);
    }
    out
}

#[test]
fn small_vec_integers_are_sorted() {
    let mut v: Vec<i64> = vec![3, 1, 2];
    intro_sort(&mut v);
    assert_eq!(v, vec![1, 2, 3]);
}

#[test]
fn intro_handles_empty() {
    let mut v: Vec<i64> = vec![];
    intro_sort(&mut v);
    assert_eq!(v, vec![]);
}

#[test]
fn depth_limit_zero_triggers_heap_sort() {
    let n = INSERTION_THRESHOLD + 1;
    // Reverse sorted vec
    let mut v = (0..n as i64).rev().collect::<Vec<_>>();
    assert!(!is_sorted(&v), "input should not be sorted");
    assert!(v.len() > INSERTION_THRESHOLD);

    // Call with depth_limit 0 to ensure heap branch is taken
    intro_sort_impl(&mut v, 0);

    assert!(is_sorted(&v));
}

#[test]
fn sorts_big_enough_input() {
    let n = INSERTION_THRESHOLD * 4;
    let mut v = (0..n as i64).rev().collect::<Vec<_>>();

    intro_sort(&mut v);

    assert!(is_sorted(&v));
}

#[test]
fn intro_sort_is_idempotent() {
    let mut v: Vec<i64> = vec![9, -4, 2, 2, 7, 0, -4, 11];
    intro_sort(&mut v);
    let once = v.clone();
    intro_sort(&mut v);
    assert_eq!(v, once);
}

#[test]
fn floor_log2_matches_powers_of_two() {
    assert_eq!(floor_log2_usize(1), 0);
    assert_eq!(floor_log2_usize(2), 1);
    assert_eq!(floor_log2_usize(3), 1);
    assert_eq!(floor_log2_usize(8), 3);
    assert_eq!(floor_log2_usize(1023), 9);
    assert_eq!(floor_log2_usize(1024), 10);
}

#[test]
fn stress_random_input() {
    let mut v = generate_vec(100_000, 42);
    let mut expected = v.clone();
    expected.sort();
    intro_sort(&mut v);
    assert_eq!(v, expected);
}

#[test]
fn stress_all_equal_input() {
    let mut v: Vec<i64> = vec![7; 100_000];
    intro_sort(&mut v);
    assert!(is_sorted(&v));
    assert_eq!(v.len(), 100_000);
    assert!(v.iter().all(|&x| x == 7));
}

#[test]
fn stress_sorted_input() {
    let mut v = (0..100_000i64).collect::<Vec<_>>();
    let expected = v.clone();
    intro_sort(&mut v);
    assert_eq!(v, expected);
}

#[test]
fn stress_reverse_sorted_input() {
    let mut v = (0..100_000i64).rev().collect::<Vec<_>>();
    let expected = (0..100_000i64).collect::<Vec<_>>();
    intro_sort(&mut v);
    assert_eq!(v, expected);
}
