use async_iterator::{BasicFolder, FilterFolder, Folder, MapFolder};
use std::cell::RefCell;

#[test]
fn basic_folder_reduces_a_batch_left_to_right() {
    let folder = BasicFolder::new(100, |acc: i32, x: i32| acc * 2 - x);
    let folder = folder.fold(vec![1, 2, 3].into_iter());
    assert_eq!(folder.into_result(), ((100 * 2 - 1) * 2 - 2) * 2 - 3);
}

#[test]
fn basic_folder_new_holds_the_initial_value() {
    let folder = BasicFolder::new(9u8, |acc: u8, _x: u8| acc);
    assert_eq!(folder.init, 9);
    assert_eq!(Folder::<u8>::into_result(folder), 9);
}

#[test]
fn basic_folder_feed_merges_one_item() {
    let folder = BasicFolder::new(10, |acc: i32, x: i32| acc - x);
    let folder = folder.feed(3).feed(4);
    assert_eq!(folder.into_result(), 3);
}

#[test]
fn basic_folder_is_unchanged_by_an_empty_batch() {
    let calls = RefCell::new(0);
    let folder = BasicFolder::new(5, |acc: i32, x: i32| {
        *calls.borrow_mut() += 1;
        acc + x
    });
    let folder = folder.fold(Vec::new().into_iter());
    assert_eq!(folder.into_result(), 5);
    assert_eq!(*calls.borrow(), 0);
}

#[test]
fn folding_two_batches_equals_folding_their_concatenation() {
    let op = |acc: String, x: char| format!("{}{}", acc, x);
    let split = BasicFolder::new(String::new(), op)
        .fold("abc".chars())
        .fold("".chars())
        .fold("defg".chars())
        .into_result();
    let whole = BasicFolder::new(String::new(), op).fold("abcdefg".chars()).into_result();
    assert_eq!(split, whole);
    assert_eq!(whole, "abcdefg");
}

#[test]
fn map_folder_applies_the_operation_before_the_inner_folder() {
    let inner = BasicFolder::new(0, |acc: i32, x: i32| acc * 10 + x);
    let folder = MapFolder { folder: inner, op: |x: &i32| *x + 1 };
    let data = [1, 2, 3];
    let folder = folder.fold(data.iter());
    assert_eq!(folder.into_result(), 234);
}

#[test]
fn map_folder_feed_maps_one_item() {
    let inner = BasicFolder::new(Vec::new(), |mut acc: Vec<usize>, x: usize| {
        acc.push(x);
        acc
    });
    let folder = MapFolder { folder: inner, op: |x: &str| x.len() };
    let folder = folder.feed("ab").feed("").feed("cde");
    assert_eq!(folder.into_result(), vec![2, 0, 3]);
}

#[test]
fn map_folder_interleaves_mapping_and_folding_item_by_item() {
    let log = RefCell::new(Vec::new());
    let inner = BasicFolder::new(0, |acc: i32, x: i32| {
        log.borrow_mut().push(format!("fold {}", x));
        acc + x
    });
    let folder = MapFolder {
        folder: inner,
        op: |x: i32| {
            log.borrow_mut().push(format!("map {}", x));
            x * 10
        },
    };
    let total = folder.fold(vec![1, 2].into_iter()).into_result();
    assert_eq!(total, 30);
    assert_eq!(*log.borrow(), vec!["map 1", "fold 10", "map 2", "fold 20"]);
}

#[test]
fn filter_folder_keeps_the_items_that_satisfy_the_predicate() {
    let inner = BasicFolder::new(Vec::new(), |mut acc: Vec<i32>, x: i32| {
        acc.push(x);
        acc
    });
    let folder = FilterFolder { folder: inner, pred: |x: &i32| *x % 2 == 1 };
    let folder = folder.fold(vec![5, 4, 3, 2, 1, 0, 7].into_iter());
    assert_eq!(folder.into_result(), vec![5, 3, 1, 7]);
}

#[test]
fn filter_folder_feed_drops_or_keeps_one_item() {
    let inner = BasicFolder::new(0, |acc: i32, x: i32| acc + x);
    let folder = FilterFolder { folder: inner, pred: |x: &i32| *x > 10 };
    let folder = folder.feed(3).feed(30).feed(10).feed(11);
    assert_eq!(folder.into_result(), 41);
}

#[test]
fn filter_folder_needs_no_clone_of_the_items() {
    struct Token(u32);
    let inner = BasicFolder::new(0, |acc: u32, x: Token| acc + x.0);
    let folder = FilterFolder { folder: inner, pred: |x: &Token| x.0 != 2 };
    let folder = folder.fold(vec![Token(1), Token(2), Token(3)].into_iter());
    assert_eq!(folder.into_result(), 4);
}

#[test]
fn every_item_is_shown_to_each_operation_once_and_in_order() {
    let tested = RefCell::new(Vec::new());
    let mapped = RefCell::new(Vec::new());
    let folded = RefCell::new(Vec::new());
    let basic = BasicFolder::new((), |_acc: (), x: i32| {
        folded.borrow_mut().push(x);
    });
    let mapping = MapFolder {
        folder: basic,
        op: |x: i32| {
            mapped.borrow_mut().push(x);
            x * 100
        },
    };
    let filtering = FilterFolder {
        folder: mapping,
        pred: |x: &i32| {
            tested.borrow_mut().push(*x);
            *x % 3 != 0
        },
    };
    let filtering = filtering.fold(vec![1, 2, 3].into_iter());
    let filtering = filtering.fold(vec![4, 5, 6, 7].into_iter());
    filtering.into_result();
    assert_eq!(*tested.borrow(), vec![1, 2, 3, 4, 5, 6, 7]);
    assert_eq!(*mapped.borrow(), vec![1, 2, 4, 5, 7]);
    assert_eq!(*folded.borrow(), vec![100, 200, 400, 500, 700]);
}

#[test]
fn adapter_folders_hand_out_the_result_of_the_innermost_folder() {
    let basic = BasicFolder::new(77, |acc: i32, _x: i32| acc);
    let mapping = MapFolder { folder: basic, op: |x: i32| x };
    let filtering = FilterFolder { folder: mapping, pred: |_x: &i32| true };
    assert_eq!(filtering.into_result(), 77);
}
