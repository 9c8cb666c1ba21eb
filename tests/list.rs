use commons::list::{Iterator, List};

#[test]
fn test_new_basic() {
    let _list: List<i32> = List::new();
    let list: List<List<i32>> = List::new();
    assert_eq!(list.len(), 0);
}

#[test]
fn test_push_front() {
    let mut list: List<i32> = List::new();
    list.push_front(1);
    assert_eq!(list.front(), Some(&1));
    list.push_front(2);
    assert_eq!(list.front(), Some(&2));
    let mut it = list.iter();
    it.next();
    assert_eq!(it.next(), Some(&1));
    assert_eq!(list.len(), 2);
}

#[test]
fn test_pop_front() {
    let mut list: List<i32> = List::new();
    list.push_front(1);
    list.push_front(2);
    list.push_front(3);
    assert_eq!(list.len(), 3);
    assert_eq!(list.pop_front().unwrap(), 3);
    assert_eq!(list.len(), 2);
    assert_eq!(list.pop_front().unwrap(), 2);
    assert_eq!(list.pop_front().unwrap(), 1);
    assert!(list.pop_front().is_none());
    assert!(list.pop_front().is_none());
    assert_eq!(list.len(), 0);
}

#[test]
fn test_front_reference() {
    let mut list: List<i32> = List::new();
    assert_eq!(list.front(), None);
    list.push_front(1);
    assert_eq!(list.front(), Some(&1));
}

#[test]
fn test_front_mut_reference() {
    let mut list: List<i32> = List::new();
    assert_eq!(list.front_mut(), None);
    list.push_front(1);
    assert_eq!(list.front_mut(), Some(&mut 1));
    *list.front_mut().unwrap() = 2;
    assert_eq!(list.front_mut(), Some(&mut 2));
}

#[test]
fn test_clear_and_is_empty() {
    let mut list: List<String> = List::new();
    assert!(list.is_empty());
    list.push_front("test".to_string());
    list.push_front("clear".to_string());
    assert_eq!(list.len(), 2);
    assert!(!list.is_empty());
    assert_eq!(list.front(), Some(&"clear".to_string()));
    list.clear();
    assert_eq!(list.len(), 0);
    assert_eq!(list.front(), None);
    assert!(list.is_empty());
}

#[test]
fn test_contains() {
    let mut list: List<String> = List::new();
    list.push_front("test".to_string());
    list.push_front("clear".to_string());
    assert!(list.contains(&"test".to_string()));
    assert!(!list.contains(&"fail".to_string()));
    list.push_front("secondary".to_string());
    assert!(list.contains(&"secondary".to_string()));
}

#[test]
fn test_into_iter() {
    let mut list: List<i32> = List::new();
    list.push_front(1);
    list.push_front(2);
    list.push_front(3);
    let mut iter = list.into_iter();
    assert_eq!(iter.next(), Some(3));
    assert_eq!(iter.next(), Some(2));
    assert_eq!(iter.next(), Some(1));
    assert_eq!(iter.next(), None);
}

#[test]
fn test_iter() {
    let mut list: List<i32> = List::new();
    list.push_front(1);
    list.push_front(2);
    list.push_front(3);
    let mut iter = list.iter();
    assert_eq!(iter.next(), Some(&3));
    assert_eq!(iter.next(), Some(&2));
    assert_eq!(iter.next(), Some(&1));
    assert_eq!(iter.next(), None);
}

#[test]
fn pops_come_out_in_reverse_push_order() {
    let mut list: List<u32> = List::new();
    for e in 1..=5u32 {
        list.push_front(e);
    }
    let mut out = Vec::new();
    for _ in 0..5 {
        out.push(list.pop_front().unwrap());
    }
    assert_eq!(out, vec![5, 4, 3, 2, 1]);
    assert!(list.is_empty());
}

#[test]
fn length_counts_pushes_minus_pops() {
    let mut list: List<u8> = List::new();
    for e in 0..7u8 {
        list.push_front(e);
    }
    list.pop_front();
    list.pop_front();
    assert_eq!(list.len(), 5);
    assert_eq!(list.is_empty(), list.len() == 0);
}

#[test]
fn front_is_latest_push_not_yet_popped() {
    let mut list: List<i32> = List::new();
    list.push_front(10);
    list.push_front(20);
    list.push_front(30);
    list.pop_front();
    assert_eq!(list.front(), Some(&20));
    list.pop_front();
    list.pop_front();
    assert_eq!(list.front(), None);
}

#[test]
fn contains_is_false_on_empty_list() {
    let list: List<i32> = List::new();
    assert!(!list.contains(&0));
}

#[test]
fn clear_after_many_pushes_leaves_nothing() {
    let mut list: List<u64> = List::new();
    for e in 0..1000u64 {
        list.push_front(e);
    }
    list.clear();
    assert_eq!(list.len(), 0);
    assert_eq!(list.front(), None);
}

#[test]
fn into_iter_stays_exhausted() {
    let mut list: List<i32> = List::new();
    list.push_front(3);
    list.push_front(2);
    list.push_front(1);
    let mut it = list.into_iter();
    assert_eq!(it.next(), Some(1));
    assert_eq!(it.next(), Some(2));
    assert_eq!(it.next(), Some(3));
    assert_eq!(it.next(), None);
    assert_eq!(it.next(), None);
}

#[test]
fn iter_leaves_list_untouched_and_repeats() {
    let mut list: List<i32> = List::new();
    list.push_front(3);
    list.push_front(2);
    list.push_front(1);
    let mut first = Vec::new();
    let mut it = list.iter();
    while let Some(e) = it.next() {
        first.push(*e);
    }
    assert_eq!(first, vec![1, 2, 3]);
    assert_eq!(list.len(), 3);
    assert_eq!(list.front(), Some(&1));
    let mut second = Vec::new();
    let mut it = list.iter();
    while let Some(e) = it.next() {
        second.push(*e);
    }
    assert_eq!(first, second);
}

#[test]
fn long_list_clears_and_drops_without_overflow() {
    let mut list: List<u32> = List::new();
    for e in 0..200_000u32 {
        list.push_front(e);
    }
    list.clear();
    assert!(list.is_empty());
    for e in 0..200_000u32 {
        list.push_front(e);
    }
    assert_eq!(list.len(), 200_000);
    drop(list);
}

#[test]
fn partly_consumed_into_iter_drops_cleanly() {
    let mut list: List<u32> = List::new();
    for e in 0..150_000u32 {
        list.push_front(e);
    }
    let mut it = list.into_iter();
    assert_eq!(it.next(), Some(149_999));
    drop(it);
}
