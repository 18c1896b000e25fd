use bitonic_sorter::utils::{is_sorted_ascending, is_sorted_descending, new_u32_vec};
use bitonic_sorter::SortOrder::{Ascending, Descending};
use bitonic_sorter::{first, fourth, is_power_of_two, third, NotPowerOfTwo};

fn counts(x: &[u32]) -> Vec<(u32, usize)> {
    let mut v: Vec<u32> = x.to_vec();
    v.sort();
    let mut out: Vec<(u32, usize)> = Vec::new();
    for e in v {
        match out.last_mut() {
            Some((k, c)) if *k == e => *c += 1,
            _ => out.push((e, 1)),
        }
    }
    out
}

#[test]
fn first_sort_ascending_and_descending() {
    let mut x: Vec<u32> = vec![10, 30, 11, 20, 4, 330, 21, 110];
    first::sort(&mut x, true);
    assert_eq!(x, vec![4, 10, 11, 20, 21, 30, 110, 330]);
    first::sort(&mut x, false);
    assert_eq!(x, vec![330, 110, 30, 21, 20, 11, 10, 4]);
}

#[test]
fn two_elements_are_exchanged() {
    let mut x: Vec<u32> = vec![2, 1];
    assert_eq!(fourth::sort(&mut x, &Ascending), Ok(()));
    assert_eq!(x, vec![1, 2]);
    let mut y: Vec<u32> = vec![1, 2];
    assert_eq!(third::sort(&mut y, &Descending), Ok(()));
    assert_eq!(y, vec![2, 1]);
}

#[test]
fn resorting_sorted_input_keeps_it() {
    let sorted: Vec<u32> = vec![4, 10, 11, 20, 21, 30, 110, 330];
    let mut x = sorted.clone();
    assert_eq!(fourth::sort(&mut x, &Ascending), Ok(()));
    assert_eq!(x, sorted);
    let mut y = sorted.clone();
    assert_eq!(third::sort(&mut y, &Ascending), Ok(()));
    assert_eq!(y, sorted);
    let desc: Vec<u32> = vec![330, 110, 30, 21, 20, 11, 10, 4];
    let mut z = desc.clone();
    assert_eq!(fourth::sort(&mut z, &Descending), Ok(()));
    assert_eq!(z, desc);
    let mut w = desc.clone();
    first::sort(&mut w, false);
    assert_eq!(w, desc);
}

#[test]
fn output_is_a_permutation_of_input() {
    let input: Vec<u32> = vec![7, 3, 7, 1, 0, 3, 9, 7, 2, 2, 5, 1, 8, 6, 4, 7];
    let mut x = input.clone();
    assert_eq!(fourth::sort(&mut x, &Descending), Ok(()));
    assert_eq!(counts(&x), counts(&input));
    assert!(is_sorted_descending(&x));
    let mut y = input.clone();
    assert_eq!(third::sort_by(&mut y, &|a: &u32, b: &u32| a.cmp(b)), Ok(()));
    assert_eq!(counts(&y), counts(&input));
    assert!(is_sorted_ascending(&y));
}

#[test]
fn length_not_power_of_two_is_refused_untouched() {
    let mut x: Vec<u32> = vec![10, 30, 11];
    assert_eq!(fourth::sort(&mut x, &Ascending), Err(NotPowerOfTwo { len: 3 }));
    assert_eq!(x, vec![10, 30, 11]);
    let mut y: Vec<u32> = vec![5, 4, 3, 2, 1, 0];
    assert_eq!(third::sort(&mut y, &Descending), Err(NotPowerOfTwo { len: 6 }));
    assert_eq!(y, vec![5, 4, 3, 2, 1, 0]);
    let mut z: Vec<u32> = vec![3, 2, 1, 0, 9];
    assert_eq!(fourth::sort_by(&mut z, &|a: &u32, b: &u32| a.cmp(b)), Err(NotPowerOfTwo { len: 5 }));
    assert_eq!(z, vec![3, 2, 1, 0, 9]);
}

#[test]
fn empty_and_single_succeed_untouched() {
    let mut e: Vec<u32> = Vec::new();
    assert_eq!(fourth::sort(&mut e, &Ascending), Ok(()));
    assert!(e.is_empty());
    let mut one: Vec<u32> = vec![42];
    assert_eq!(third::sort(&mut one, &Descending), Ok(()));
    assert_eq!(one, vec![42]);
    let mut one_by: Vec<u32> = vec![7];
    assert_eq!(fourth::sort_by(&mut one_by, &|a: &u32, b: &u32| b.cmp(a)), Ok(()));
    assert_eq!(one_by, vec![7]);
}

#[test]
fn equal_keys_may_change_places() {
    let mut x: Vec<(u32, char)> = vec![(1, 'a'), (2, 'b'), (1, 'c'), (1, 'd')];
    assert_eq!(fourth::sort_by(&mut x, &|a: &(u32, char), b: &(u32, char)| a.0.cmp(&b.0)), Ok(()));
    assert_eq!(x, vec![(1, 'a'), (1, 'd'), (1, 'c'), (2, 'b')]);
}

#[test]
fn descending_by_reversed_comparator() {
    let mut x: Vec<u32> = vec![10, 30, 11, 20, 4, 330, 21, 110];
    assert_eq!(fourth::sort_by(&mut x, &|a: &u32, b: &u32| b.cmp(a)), Ok(()));
    assert_eq!(x, vec![330, 110, 30, 21, 20, 11, 10, 4]);
}

#[test]
fn power_of_two_lengths() {
    assert!(is_power_of_two(0));
    assert!(is_power_of_two(1));
    assert!(is_power_of_two(2));
    assert!(!is_power_of_two(3));
    assert!(is_power_of_two(4));
    assert!(!is_power_of_two(6));
    assert!(is_power_of_two(65536));
    assert!(!is_power_of_two(65535));
    assert!(is_power_of_two(1usize << (usize::BITS - 1)));
    assert!(!is_power_of_two(usize::MAX));
}

#[test]
fn order_checks() {
    assert!(is_sorted_ascending(&[]));
    assert!(is_sorted_ascending(&[1, 1, 2, 5]));
    assert!(!is_sorted_ascending(&[1, 3, 2, 5]));
    assert!(is_sorted_descending(&[5, 2, 2, 1]));
    assert!(!is_sorted_descending(&[5, 2, 3, 1]));
}

#[test]
fn generated_vectors_are_reproducible() {
    let a = new_u32_vec(1024);
    let b = new_u32_vec(1024);
    assert_eq!(a.len(), 1024);
    assert_eq!(a, b);
    assert!(a.iter().any(|&v| v != a[0]));
    assert!(new_u32_vec(0).is_empty());
}
