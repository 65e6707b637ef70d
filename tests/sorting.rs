#![allow(non_snake_case)]
use clrs::common::{assert_asc, assert_desc, random_index, random_vec, random_vec_range};
use clrs::getting_started::{bubble_sort, insertion_sort, merge_sort};
use clrs::heapsort::heap_sort;
use clrs::linear_sort::counting_sort;
use clrs::order_statistics::randomized_select;
use clrs::quicksort::{partition_by, quick_sort, PartitionBy};

fn sorted_copy(v: &[i64]) -> Vec<i64> {
    let mut w = v.to_vec();
    w.sort();
    w
}

#[test]
fn bubble_sort_bubble_sort() {
    let mut a = random_vec(10);
    bubble_sort(a.as_mut_slice());
    assert!(assert_asc(&a));
}

#[test]
fn insertion_sort_insertion_sort() {
    let mut a = random_vec(100);
    insertion_sort(a.as_mut_slice());
    assert!(assert_asc(&a));
}

#[test]
fn merge_sort_merge_sort() {
    let mut a = random_vec(10);
    merge_sort(a.as_mut_slice());
    assert!(assert_asc(&a));
}

#[test]
fn mod_heap_sort() {
    let mut a = random_vec(100);
    heap_sort(a.as_mut_slice());
    assert!(assert_asc(&a));
}

#[test]
fn counting_sort_counting_sort() {
    let mut a: Vec<i32> = random_vec_range(100, 1050, 1100).into_iter().map(|x| x as i32).collect();
    counting_sort(a.as_mut_slice(), 1050, 1100);
    assert!(a.windows(2).all(|w| w[0] <= w[1]));
}

#[test]
fn ch02_Getting_Start_insertion_sort() {
    let mut a = random_vec(100);
    insertion_sort(a.as_mut_slice());
    assert!(assert_asc(&a));
}

#[test]
fn ch02_Getting_Start_merge_sort() {
    let mut a = random_vec(10);
    merge_sort(a.as_mut_slice());
    assert!(assert_asc(&a));
}

#[test]
fn ch02_Getting_Start_bubble_sort() {
    let mut a = random_vec(10);
    bubble_sort(a.as_mut_slice());
    assert!(assert_asc(&a));
}

#[test]
fn ch06_Heapsort_heap_sort() {
    let mut a = random_vec(100);
    heap_sort(a.as_mut_slice());
    assert!(assert_asc(&a));
}

#[test]
fn quick_sort_last() {
    let mut a = random_vec(100);
    quick_sort(a.as_mut_slice(), PartitionBy::Last);
    assert!(assert_asc(&a));
}

#[test]
fn quick_sort_random() {
    let mut a = random_vec(100);
    quick_sort(a.as_mut_slice(), PartitionBy::Random);
    assert!(assert_asc(&a));
}

#[test]
fn ch08_Sorting_in_Linear_Time_counting_sort() {
    let mut a: Vec<i32> = random_vec_range(100, 1050, 1100).into_iter().map(|x| x as i32).collect();
    counting_sort(a.as_mut_slice(), 1050, 1100);
    assert!(a.windows(2).all(|w| w[0] <= w[1]));
}

#[test]
fn ch09_Medians_and_Order_Statistics_randomized_select() {
    let mut a = random_vec(100);
    let i = random_index(100);
    let x = randomized_select(a.as_mut_slice(), i);
    a.sort();
    assert_eq!(x, a[i]);
}

#[test]
fn randomized_select_randomized_select() {
    let mut a = random_vec(100);
    let i = random_index(100);
    let x = randomized_select(a.as_mut_slice(), i);
    a.sort();
    assert_eq!(x, a[i]);
}

#[test]
fn select() {
    let mut a = random_vec(100);
    let i = random_index(100);
    let x = clrs::order_statistics::select(a.as_mut_slice(), i);
    a.sort();
    assert_eq!(x, a[i]);
}

#[test]
fn every_sort_agrees_on_fixed_input() {
    let input = vec![5, -3, 9, 0, 5, 12, -7, 3, 3, 1];
    let expected = vec![-7, -3, 0, 1, 3, 3, 5, 5, 9, 12];
    let mut a = input.clone();
    bubble_sort(&mut a);
    assert_eq!(a, expected);
    let mut a = input.clone();
    insertion_sort(&mut a);
    assert_eq!(a, expected);
    let mut a = input.clone();
    merge_sort(&mut a);
    assert_eq!(a, expected);
    let mut a = input.clone();
    heap_sort(&mut a);
    assert_eq!(a, expected);
    let mut a = input.clone();
    quick_sort(&mut a, PartitionBy::Last);
    assert_eq!(a, expected);
    let mut a = input.clone();
    quick_sort(&mut a, PartitionBy::Random);
    assert_eq!(a, expected);
}

#[test]
fn sorts_handle_empty_and_single() {
    let mut e: Vec<i64> = vec![];
    bubble_sort(&mut e);
    insertion_sort(&mut e);
    merge_sort(&mut e);
    heap_sort(&mut e);
    quick_sort(&mut e, PartitionBy::Last);
    assert!(e.is_empty());
    let mut one = vec![42];
    heap_sort(&mut one);
    merge_sort(&mut one);
    assert_eq!(one, vec![42]);
}

#[test]
fn sorts_match_std_on_random_input() {
    for _ in 0..20 {
        let a = random_vec(37);
        let want = sorted_copy(&a);
        let mut b = a.clone();
        heap_sort(&mut b);
        assert_eq!(b, want);
        let mut b = a.clone();
        merge_sort(&mut b);
        assert_eq!(b, want);
        let mut b = a.clone();
        quick_sort(&mut b, PartitionBy::Random);
        assert_eq!(b, want);
    }
}

#[test]
fn counting_sort_fixed() {
    let mut a = vec![3, -2, 3, 0, -2, 1];
    counting_sort(&mut a, -2, 3);
    assert_eq!(a, vec![-2, -2, 0, 1, 3, 3]);
}

#[test]
fn counting_sort_extreme_bounds() {
    let mut b = vec![i32::MAX, i32::MAX - 1];
    counting_sort(&mut b, i32::MAX - 1, i32::MAX);
    assert_eq!(b, vec![i32::MAX - 1, i32::MAX]);
}

#[test]
fn partition_by_places_the_pivot() {
    let mut a = vec![9, 4, 7, 1, 8];
    let q = partition_by(&mut a, 2);
    assert_eq!(q, 2);
    assert_eq!(a[2], 7);
    assert!(a[..2].iter().all(|&x| x <= 7));
    assert!(a[3..].iter().all(|&x| x > 7));
}

#[test]
fn select_fixed_ranks() {
    let base = vec![15, 3, 9, 3, 27, 1, 8, 20, 11, 6, 14, 2];
    let want = sorted_copy(&base);
    for i in 0..base.len() {
        let mut a = base.clone();
        assert_eq!(clrs::order_statistics::select(&mut a, i), want[i]);
        let mut a = base.clone();
        assert_eq!(randomized_select(&mut a, i), want[i]);
    }
}

#[test]
fn order_checks() {
    assert!(assert_asc(&[1, 2, 2, 5]));
    assert!(!assert_asc(&[1, 3, 2]));
    assert!(assert_asc(&[]));
    assert!(assert_desc(&[5, 2, 2, 1]));
    assert!(!assert_desc(&[1, 2]));
}

#[test]
fn random_draws_stay_in_range() {
    let v = random_vec_range(500, -3, 4);
    assert_eq!(v.len(), 500);
    assert!(v.iter().all(|&x| -3 <= x && x < 4));
    assert_eq!(random_vec(7).len(), 7);
    for _ in 0..100 {
        assert!(random_index(5) < 5);
    }
}

fn check_radix<T: clrs::linear_sort::Radix + Ord + std::fmt::Debug>(mut v: Vec<T>) {
    let mut want = v.clone();
    want.sort();
    clrs::linear_sort::radix_sort(v.as_mut_slice());
    assert_eq!(v, want);
}

#[test]
fn radix_sort() {
    let raw = random_vec(200);
    check_radix::<i32>(raw.iter().map(|&x| x as i32).collect());
    check_radix::<i64>(raw.clone());
    check_radix::<u8>(raw.iter().map(|&x| x as u8).collect());
    check_radix::<u16>(raw.iter().map(|&x| x as u16).collect());
    check_radix::<u32>(raw.iter().map(|&x| x as u32).collect());
    check_radix::<u64>(raw.iter().map(|&x| x as u64).collect());
}

#[test]
fn radix_sort_fixed_signed() {
    let mut v: Vec<i64> = vec![0, -1, i64::MIN, 5, i64::MAX, -300, 17, 0];
    clrs::linear_sort::radix_sort(v.as_mut_slice());
    assert_eq!(v, vec![i64::MIN, -300, -1, 0, 0, 5, 17, i64::MAX]);
    let mut w: Vec<u64> = vec![u64::MAX, 0, 16, 15, 256];
    clrs::linear_sort::radix_sort(w.as_mut_slice());
    assert_eq!(w, vec![0, 15, 16, 256, u64::MAX]);
}

#[test]
fn random_draws_vary() {
    let v = random_vec_range(200, 0, 1000);
    assert!(v.iter().any(|&x| x != 0));
    assert!(v.iter().any(|&x| x != v[0]));
    let w = random_vec(50);
    assert!(w.iter().any(|&x| x != w[0]));
    let picks: Vec<usize> = (0..200).map(|_| random_index(10)).collect();
    assert!(picks.iter().any(|&i| i != 0));
}
