use async_iterator::{AsyncIterator, Iter};

#[test]
fn fold_of_one_to_five_with_add_is_fifteen() {
    let data: Vec<i32> = vec![1, 2, 3, 4, 5];
    let sum = Iter { slice: &data }.async_fold(0, |acc, x: &i32| acc + *x);
    assert_eq!(sum, 15);
}

#[test]
fn filter_positive_of_alternating_input_collects_512_ones() {
    let data: Vec<i32> = (0..512).flat_map(|_| [-1, 1]).collect();
    assert_eq!(data.len(), 1024);
    let kept = Iter { slice: &data }.filter(|x: &&i32| **x > 0).collect_vec();
    assert_eq!(kept.len(), 512);
    assert!(kept.iter().all(|x| **x == 1));
    let expected: Vec<&i32> = data.iter().filter(|x| **x > 0).collect();
    assert_eq!(kept, expected);
    for (position, item) in kept.iter().enumerate() {
        assert!(std::ptr::eq(*item, &data[2 * position + 1]));
    }
}

#[test]
fn filter_positive_of_1024_pairs_collects_1024_ones() {
    let data: Vec<i32> = (0..1_024).flat_map(|_| [-1, 1]).collect();
    let kept = Iter { slice: &data }.filter(|x: &&i32| **x > 0).collect_vec();
    assert_eq!(kept.len(), 1_024);
    assert!(kept.iter().all(|x| **x == 1));
}

#[test]
fn fold_of_empty_input_is_the_initial_value() {
    let data: Vec<i32> = Vec::new();
    let sum = Iter { slice: &data }.async_fold(0, |acc, x: &i32| acc + *x);
    assert_eq!(sum, 0);
    let other = Iter { slice: &data }.async_fold(42, |acc, x: &i32| acc + *x);
    assert_eq!(other, 42);
}

#[test]
fn collect_of_empty_input_is_empty() {
    let data: Vec<i32> = Vec::new();
    let items = Iter { slice: &data }.collect_vec();
    assert!(items.is_empty());
    let mapped = Iter { slice: &data }.map(|x: &i32| *x + 1).collect_vec();
    assert!(mapped.is_empty());
}

#[test]
fn map_plus_one_filter_even_counts_five_of_one_to_ten() {
    let data: Vec<i32> = (1..=10).collect();
    let count = Iter { slice: &data }
        .map(|x: &i32| *x + 1)
        .filter(|x: &i32| *x % 2 == 0)
        .async_fold(0, |acc: usize, _x: i32| acc + 1);
    let expected = (2..=11).filter(|x| x % 2 == 0).count();
    assert_eq!(expected, 5);
    assert_eq!(count, expected);
}

#[test]
fn fold_sums_alternating_input_like_the_standard_fold() {
    let data: Vec<i32> = (0..1_024).flat_map(|_| [-1, 1]).collect();
    let fold_result: i32 = data.iter().fold(0, |acc, &x| acc + x);
    let async_fold_result: i32 = Iter { slice: &data }.async_fold(0, |acc, &x| acc + x);
    assert_eq!(fold_result, async_fold_result);
    assert_eq!(async_fold_result, 0);
}

#[test]
fn filter_count_matches_the_standard_filter() {
    let data: Vec<i32> = (0..1_024).flat_map(|_| [-1, 1]).collect();
    let expected = data.iter().filter(|&&x| x > 0).fold(0, |acc, _x| acc + 1);
    let counted = Iter { slice: &data }.filter(|&&x| x > 0).async_fold(0, |acc, _x| acc + 1);
    assert_eq!(expected, counted);
    assert_eq!(counted, 1_024);
}

#[test]
fn collect_hands_back_every_item_in_order() {
    let data: Vec<i32> = (0..3_000).collect();
    let collected = Iter { slice: &data }.collect_vec();
    let expected: Vec<&i32> = data.iter().collect();
    assert_eq!(collected, expected);
}

#[test]
fn into_iter_walks_the_slice() {
    let data: Vec<i32> = vec![3, 1, 4, 1, 5];
    let walked: Vec<i32> = Iter { slice: &data }.into_iter().copied().collect();
    assert_eq!(walked, data);
}
