use sorts::comparison::quick::{dutch_3_way, hoare, middle_of_three};
use sorts::{quick_sort, quick_sort_with, Partition};

#[test]
fn sorts_integers_lomuto() {
    let mut v: Vec<i64> = vec![3, 1, 2, 4, 0, 13, 12];
    quick_sort_with(&mut v, Partition::Lomuto);
    assert_eq!(v, vec![0, 1, 2, 3, 4, 12, 13]);
}

#[test]
fn sorts_integers_hoare() {
    let mut v: Vec<i64> = vec![3, 1, 2, 4, 0, 13, 12];
    quick_sort_with(&mut v, Partition::Hoare);
    assert_eq!(v, vec![0, 1, 2, 3, 4, 12, 13]);
}

#[test]
fn sorts_integers_3_way() {
    let mut v: Vec<i64> = vec![3, 1, 2, 4, 0, 13, 12];
    quick_sort_with(&mut v, Partition::Dutch3Way);
    assert_eq!(v, vec![0, 1, 2, 3, 4, 12, 13]);
}

#[test]
fn quick_handles_empty() {
    let mut v: Vec<i64> = vec![];
    quick_sort(&mut v);
    assert_eq!(v, vec![]);
}

#[test]
fn three_way_optimal() {
    let mut v: Vec<i64> = vec![3, 6, 1, 4, 1, 1, 4, 3, 2, 7, 6, 6, 6, 7, 5, 5, 5];
    quick_sort_with(&mut v, Partition::Dutch3Way);
    assert_eq!(v, vec![1, 1, 1, 2, 3, 3, 4, 4, 5, 5, 5, 6, 6, 6, 6, 7, 7]);
}

#[test]
fn quick_sorts_integers() {
    let mut v: Vec<i64> = vec![3, 1, 2];
    sorts::quick::quick_sort(&mut v);
    assert_eq!(v, vec![1, 2, 3]);
}

#[test]
fn plain_quick_handles_empty() {
    let mut v: Vec<i64> = vec![];
    sorts::quick::quick_sort(&mut v);
    assert_eq!(v, vec![]);
}

#[test]
fn lomuto_sorts_three_elements() {
    let mut v: Vec<i64> = vec![3, 1, 2];
    quick_sort_with(&mut v, Partition::Lomuto);
    assert_eq!(v, vec![1, 2, 3]);
}

#[test]
fn hoare_partitions_around_pivot() {
    let mut v: Vec<i64> = vec![5, 9, 1, 7, 3, 8, 2];
    let p = hoare(&mut v, 0, 7, 0);
    assert!(p < 7);
    let pivot = v[p];
    assert_eq!(pivot, 5);
    assert!(v[..p].iter().all(|&x| x <= pivot));
    assert!(v[p + 1..].iter().all(|&x| x >= pivot));
}

#[test]
fn dutch_three_way_groups_pivot_copies() {
    let mut v: Vec<i64> = vec![4, 1, 4, 6, 4, 0, 9];
    let (lt, gt) = dutch_3_way(&mut v, 0, 7, 0);
    let pivot = v[gt];
    assert_eq!(pivot, 4);
    assert!(lt <= gt && gt < 7);
    assert!(v[..lt].iter().all(|&x| x < pivot));
    assert!(v[lt..=gt].iter().all(|&x| x == pivot));
    assert!(v[gt + 1..].iter().all(|&x| x > pivot));
}

#[test]
fn dutch_three_way_length_two_sorts_pair() {
    let mut v: Vec<i64> = vec![2, 1];
    let (lt, gt) = dutch_3_way(&mut v, 0, 2, 0);
    assert_eq!((lt, gt), (0, 1));
    assert_eq!(v, vec![1, 2]);

    let mut w: Vec<i64> = vec![1, 2];
    let (lt2, gt2) = dutch_3_way(&mut w, 0, 2, 0);
    assert_eq!((lt2, gt2), (0, 1));
    assert_eq!(w, vec![1, 2]);
}

#[test]
fn middle_of_three_picks_a_median() {
    let v: Vec<i64> = vec![5, 0, 0, 3, 0, 0, 1];
    // first = 5, middle = 3, last = 1: the median value is 3, at the middle.
    assert_eq!(middle_of_three(&v, 0, 7), 3);
    let w: Vec<i64> = vec![1, 2];
    assert_eq!(middle_of_three(&w, 0, 2), 0);
}
