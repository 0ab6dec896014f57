use async_iterator::{AsyncIterator, BasicFolder, Iter, Step};
use std::cell::{Cell, RefCell};

fn sum() -> BasicFolder<i64, fn(i64, &i64) -> i64> {
    fn add(acc: i64, x: &i64) -> i64 {
        acc + *x
    }
    BasicFolder::new(0, add as fn(i64, &i64) -> i64)
}

#[test]
fn first_chunk_holds_chunk_size_items_and_the_rest_is_handed_back() {
    let data: Vec<i64> = (1..=10).collect();
    match (Iter { slice: &data }).fold_chunk(sum(), 4) {
        Step::Yield(rest, partial) => {
            assert_eq!(rest.slice, &data[4..]);
            assert_eq!(partial.init, 1 + 2 + 3 + 4);
        },
        Step::Done(_) => panic!("six items are left"),
    }
}

#[test]
fn last_chunk_is_clamped_to_what_is_left() {
    let data: Vec<i64> = (1..=10).collect();
    match (Iter { slice: &data[8..] }).fold_chunk(sum(), 4) {
        Step::Done(out) => assert_eq!(out, 9 + 10),
        Step::Yield(_, _) => panic!("two items fit in one chunk of four"),
    }
}

#[test]
fn a_chunk_that_takes_exactly_what_is_left_is_the_last() {
    let data: Vec<i64> = (1..=4).collect();
    match (Iter { slice: &data }).fold_chunk(sum(), 4) {
        Step::Done(out) => assert_eq!(out, 10),
        Step::Yield(_, _) => panic!("nothing is left after four of four"),
    }
}

#[test]
fn chunk_size_above_the_length_is_done_in_one_step() {
    let data: Vec<i64> = (1..=10).collect();
    match (Iter { slice: &data }).fold_chunk(sum(), data.len() + 1) {
        Step::Done(out) => assert_eq!(out, 55),
        Step::Yield(_, _) => panic!("one chunk holds everything"),
    }
    match (Iter { slice: &data }).fold_chunk(sum(), usize::MAX) {
        Step::Done(out) => assert_eq!(out, 55),
        Step::Yield(_, _) => panic!("one chunk holds everything"),
    }
}

#[test]
fn empty_source_is_done_at_once_with_the_folder_untouched() {
    let data: Vec<i64> = Vec::new();
    let calls = Cell::new(0);
    let folder = BasicFolder::new(31, |acc: i64, x: &i64| {
        calls.set(calls.get() + 1);
        acc + *x
    });
    match (Iter { slice: &data }).fold_chunk(folder, 1024) {
        Step::Done(out) => assert_eq!(out, 31),
        Step::Yield(_, _) => panic!("nothing to suspend for"),
    }
    assert_eq!(calls.get(), 0);
}

fn suspensions(length: usize, chunk_size: usize) -> usize {
    let data: Vec<i64> = (0..length as i64).collect();
    let mut source = Iter { slice: &data };
    let mut folder = sum();
    let mut count = 0;
    loop {
        match source.fold_chunk(folder, chunk_size) {
            Step::Done(out) => {
                assert_eq!(out, data.iter().sum::<i64>());
                return count;
            },
            Step::Yield(rest, partial) => {
                assert_eq!(rest.slice.len(), source_len_after(length, chunk_size, count));
                source = rest;
                folder = partial;
                count += 1;
            },
        }
    }
}

fn source_len_after(length: usize, chunk_size: usize, suspended_before: usize) -> usize {
    length - chunk_size * (suspended_before + 1)
}

#[test]
fn there_is_one_suspension_between_two_chunks_and_none_after_the_last() {
    assert_eq!(suspensions(0, 1), 0);
    assert_eq!(suspensions(1, 1), 0);
    assert_eq!(suspensions(5, 1), 4);
    assert_eq!(suspensions(5, 2), 2);
    assert_eq!(suspensions(6, 2), 2);
    assert_eq!(suspensions(7, 2), 3);
    assert_eq!(suspensions(1024, 1024), 0);
    assert_eq!(suspensions(1025, 1024), 1);
    assert_eq!(suspensions(2048, 1024), 1);
    assert_eq!(suspensions(2049, 1024), 2);
    assert_eq!(suspensions(10, 11), 0);
}

#[test]
fn chunks_are_processed_one_after_the_other() {
    let data: Vec<i32> = (0..7).collect();
    let log = RefCell::new(Vec::new());
    let mut source = Iter { slice: &data }.map(|x: &i32| {
        log.borrow_mut().push(format!("map {}", x));
        *x
    });
    let mut folder = BasicFolder::new(0, |acc: i32, x: i32| {
        log.borrow_mut().push(format!("fold {}", x));
        acc + x
    });
    let total = loop {
        match source.fold_chunk(folder, 3) {
            Step::Done(out) => break out,
            Step::Yield(rest, partial) => {
                log.borrow_mut().push(String::from("yield"));
                source = rest;
                folder = partial;
            },
        }
    };
    assert_eq!(total, 21);
    let expected = vec![
        "map 0", "fold 0", "map 1", "fold 1", "map 2", "fold 2", "yield", "map 3", "fold 3",
        "map 4", "fold 4", "map 5", "fold 5", "yield", "map 6", "fold 6",
    ];
    assert_eq!(*log.borrow(), expected);
}

#[test]
fn adapters_hand_the_chunk_down_and_come_back_with_their_operation() {
    let data: Vec<i32> = (1..=6).collect();
    let pipeline = Iter { slice: &data }.map(|x: &i32| *x * 2).filter(|x: &i32| *x % 3 != 0);
    let folder = BasicFolder::new(Vec::new(), |mut acc: Vec<i32>, x: i32| {
        acc.push(x);
        acc
    });
    match pipeline.fold_chunk(folder, 4) {
        Step::Yield(rest, partial) => {
            assert_eq!(partial.init, vec![2, 4, 8]);
            assert_eq!(rest.base.base.slice, &data[4..]);
            match rest.fold_chunk(partial, 4) {
                Step::Done(out) => assert_eq!(out, vec![2, 4, 8, 10]),
                Step::Yield(_, _) => panic!("two items fit in one chunk of four"),
            }
        },
        Step::Done(_) => panic!("two items are left"),
    }
}

#[test]
fn step_does_what_fold_chunk_does() {
    let data: Vec<i64> = (1..=5).collect();
    match (Iter { slice: &data }).step(sum(), 2) {
        Step::Yield(rest, partial) => {
            assert_eq!(rest.slice, &data[2..]);
            assert_eq!(partial.init, 3);
            match rest.step(partial, 3) {
                Step::Done(out) => assert_eq!(out, 15),
                Step::Yield(_, _) => panic!("three items fit in one chunk of three"),
            }
        },
        Step::Done(_) => panic!("three items are left"),
    }
}

#[test]
fn map_and_filter_build_the_node_they_are_given() {
    let data: Vec<i32> = vec![1, 2, 3];
    fn double(x: &i32) -> i32 {
        *x * 2
    }
    fn odd(x: &i32) -> bool {
        *x % 2 == 1
    }
    let mapped = Iter { slice: &data }.map(double as fn(&i32) -> i32);
    assert_eq!(mapped.base.slice, &data[..]);
    assert_eq!((mapped.op)(&21), 42);
    let filtered = mapped.filter(odd as fn(&i32) -> bool);
    assert_eq!(filtered.base.base.slice, &data[..]);
    assert!((filtered.pred)(&3));
    assert!(!(filtered.pred)(&4));
}

#[test]
fn take_chunk_cuts_min_of_max_size_and_length() {
    let data: Vec<i32> = (0..10).collect();
    let (chunk, rest) = Iter { slice: &data }.take_chunk(3);
    assert_eq!(chunk, &data[..3]);
    assert_eq!(rest.slice, &data[3..]);
    let (chunk, rest) = rest.take_chunk(100);
    assert_eq!(chunk, &data[3..]);
    assert!(rest.slice.is_empty());
    let (chunk, rest) = rest.take_chunk(5);
    assert!(chunk.is_empty());
    assert!(rest.slice.is_empty());
}

#[test]
fn take_chunk_neither_copies_nor_reorders() {
    let data: Vec<String> = vec![String::from("a"), String::from("b"), String::from("c")];
    let (chunk, rest) = Iter { slice: &data }.take_chunk(2);
    assert!(std::ptr::eq(&chunk[0], &data[0]));
    assert!(std::ptr::eq(&chunk[1], &data[1]));
    assert!(std::ptr::eq(&rest.slice[0], &data[2]));
    let (none, all) = Iter { slice: &data }.take_chunk(0);
    assert!(none.is_empty());
    assert_eq!(all.slice.len(), 3);
}
