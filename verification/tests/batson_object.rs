use std::cmp::Ordering;
use std::mem::size_of;

use jiter::batson::object::{binary_search, SuperHeaderItem16, SuperHeaderItem32, SuperHeaderItem8};

fn binary_search_vec<S: Clone>(haystack: &[S], compare: impl Fn(&S) -> Ordering) -> Option<Vec<S>> {
    binary_search(haystack, compare).map(|(start, end)| haystack[start..end].to_vec())
}

#[test]
fn super_header_sizes() {
    assert_eq!(size_of::<SuperHeaderItem8>(), 3);
    assert_eq!(size_of::<SuperHeaderItem16>(), 6);
    assert_eq!(size_of::<SuperHeaderItem32>(), 12);
}

#[test]
fn binary_search_direct() {
    let slice = &["", "b", "ba", "fo", "spam"];
    let mut count = 0;
    let (start, end) = binary_search(slice, |x| x.len().cmp(&1)).unwrap();
    for i in &slice[start..end] {
        assert_eq!(*i, "b");
        count += 1;
    }
    assert_eq!(count, 1);
}

#[test]
fn binary_search_ints() {
    let slice = &[1, 2, 2, 2, 3, 4, 5, 6, 7, 7, 7, 7, 7, 7, 7, 7, 8, 8];
    assert_eq!(binary_search_vec(slice, |x| x.cmp(&1)), Some(vec![1]));
    assert_eq!(binary_search_vec(slice, |x| x.cmp(&2)), Some(vec![2, 2, 2]));
    assert_eq!(binary_search_vec(slice, |x| x.cmp(&3)), Some(vec![3]));
    assert_eq!(binary_search_vec(slice, |x| x.cmp(&4)), Some(vec![4]));
    assert_eq!(
        binary_search_vec(slice, |x| x.cmp(&7)),
        Some(vec![7, 7, 7, 7, 7, 7, 7, 7])
    );
    assert_eq!(binary_search_vec(slice, |x| x.cmp(&8)), Some(vec![8, 8]));
    assert_eq!(binary_search_vec(slice, |x| x.cmp(&12)), None);
}

#[test]
fn binary_search_strings() {
    let slice = &["", "b", "ba", "fo", "spam"];
    assert_eq!(binary_search_vec(slice, |x| x.len().cmp(&0)), Some(vec![""]));
    assert_eq!(binary_search_vec(slice, |x| x.len().cmp(&1)), Some(vec!["b"]));
    assert_eq!(binary_search_vec(slice, |x| x.len().cmp(&2)), Some(vec!["ba", "fo"]));
    assert_eq!(binary_search_vec(slice, |x| x.len().cmp(&4)), Some(vec!["spam"]));
    assert_eq!(binary_search_vec(slice, |x| x.len().cmp(&5)), None);
}

#[test]
fn binary_search_take_while() {
    // in valid input to test take_while isn't iterating further
    let slice = &[1, 2, 2, 1, 3];
    assert_eq!(binary_search_vec(slice, |x| x.cmp(&1)), Some(vec![1]));
}
