use sorts::comparison::selection::get_min;
use sorts::comparison::tim::count_run;
use sorts::{counting_sort, heap_sort, insertion_sort, merge_sort, selection_sort, tim_sort};

#[test]
fn selection_sorts_integers() {
    let mut v: Vec<i64> = vec![3, 1, 2];
    selection_sort(&mut v);
    assert_eq!(v, vec![1, 2, 3]);
}

#[test]
fn selection_handles_empty() {
    let mut v: Vec<i64> = vec![];
    selection_sort(&mut v);
    assert_eq!(v, vec![]);
}

#[test]
fn tim_sorts_integers() {
    let mut v: Vec<i64> = vec![3, 1, 2];
    tim_sort(&mut v);
    assert_eq!(v, vec![1, 2, 3]);
}

#[test]
fn tim_handles_empty() {
    let mut v: Vec<i64> = vec![];
    tim_sort(&mut v);
    assert_eq!(v, vec![]);
}

#[test]
fn heap_sorts_integers() {
    let mut v: Vec<i64> = vec![3, 1, 2];
    heap_sort(&mut v);
    assert_eq!(v, vec![1, 2, 3]);
}

#[test]
fn heap_handles_empty() {
    let mut v: Vec<i64> = vec![];
    heap_sort(&mut v);
    assert_eq!(v, vec![]);
}

#[test]
fn insertion_sorts_integers() {
    let mut v: Vec<i64> = vec![3, 1, 2];
    insertion_sort(&mut v);
    assert_eq!(v, vec![1, 2, 3]);
}

#[test]
fn insertion_handles_empty() {
    let mut v: Vec<i64> = vec![];
    insertion_sort(&mut v);
    assert_eq!(v, vec![]);
}

#[test]
fn merge_sorts_integers() {
    let mut v: Vec<i64> = vec![3, 1, 2];
    merge_sort(&mut v);
    assert_eq!(v, vec![1, 2, 3]);
}

#[test]
fn merge_handles_empty() {
    let mut v: Vec<i64> = vec![];
    merge_sort(&mut v);
    assert_eq!(v, vec![]);
}

#[test]
fn counting_sorts_integers() {
    let mut v: Vec<u32> = vec![3, 1, 2];
    counting_sort(&mut v);
    assert_eq!(v, vec![1, 2, 3]);
}

#[test]
fn counting_handles_empty() {
    let mut v: Vec<u32> = vec![];
    counting_sort(&mut v);
    assert_eq!(v, vec![]);
}

#[test]
fn counting_sorts_duplicates() {
    let mut v: Vec<u32> = vec![5, 3, 5, 0, 3, 5];
    counting_sort(&mut v);
    assert_eq!(v, vec![0, 3, 3, 5, 5, 5]);
}

#[test]
fn heap_sorts_duplicates() {
    let mut v: Vec<i64> = vec![2, 2, 1, 3, 1, 2];
    heap_sort(&mut v);
    assert_eq!(v, vec![1, 1, 2, 2, 2, 3]);
}

#[test]
fn merge_sorts_larger_input() {
    let mut v: Vec<i64> = vec![10, -3, 7, 7, 0, 22, -8, 5, 5, 1, 4, 19, -3];
    let mut expected = v.clone();
    expected.sort();
    merge_sort(&mut v);
    assert_eq!(v, expected);
}

#[test]
fn get_min_finds_smallest() {
    let v: Vec<i64> = vec![4, 2, 9, 2, 8];
    let m = get_min(&v, 0, 5);
    assert_eq!(v[m], 2);
    let m_tail = get_min(&v, 2, 5);
    assert_eq!(v[m_tail], 2);
    assert_eq!(m_tail, 3);
}

#[test]
fn count_run_measures_ascending_run() {
    let v: Vec<i64> = vec![1, 2, 2, 1];
    assert_eq!(count_run(&v, 0, 4), (3, false));
}

#[test]
fn count_run_measures_descending_run() {
    let v: Vec<i64> = vec![3, 2, 1, 5];
    assert_eq!(count_run(&v, 0, 4), (3, true));
}

#[test]
fn count_run_single_element() {
    let v: Vec<i64> = vec![9];
    assert_eq!(count_run(&v, 0, 1), (1, false));
}

#[test]
fn tim_sorts_descending_prefix() {
    let mut v: Vec<i64> = vec![9, 7, 5, 1, 4, 8];
    tim_sort(&mut v);
    assert_eq!(v, vec![1, 4, 5, 7, 8, 9]);
}
