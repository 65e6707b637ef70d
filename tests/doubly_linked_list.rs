use clrs::doubly_linked_list::DoublyLinkedList;
use testdrop::TestDrop;

fn values(lst: &DoublyLinkedList<i32>) -> Vec<i32> {
    let mut out = Vec::new();
    let mut it = lst.iter();
    while let Some(a) = it.next() {
        out.push(lst.get(a).value());
    }
    out
}

fn values_rev(lst: &DoublyLinkedList<i32>) -> Vec<i32> {
    let mut out = Vec::new();
    let mut it = lst.iter_rev();
    while let Some(a) = it.next() {
        out.push(lst.get(a).value());
    }
    out
}

#[test]
fn test_drop() {
    let td = TestDrop::new();
    {
        let mut lst = DoublyLinkedList::new();
        lst.insert_front(td.new_item().1);
        lst.insert_front(td.new_item().1);
    }
    assert_eq!(2, td.num_dropped_items());
}

#[test]
fn test_insert_front() {
    let mut lst = DoublyLinkedList::new();
    lst.insert_front(2i32);
    lst.insert_front(1i32);
    assert_eq!(lst.len(), 2);

    let head = lst.head().unwrap();
    assert_eq!(lst.get(head).value(), 1);
    assert_eq!(lst.get(head.next(&lst).unwrap()).value(), 2);
    assert!(head.next(&lst).unwrap().next(&lst).is_none());

    let tail = lst.tail().unwrap();
    assert_eq!(lst.get(tail).value(), 2);
    assert_eq!(lst.get(tail.prev(&lst).unwrap()).value(), 1);
    assert!(tail.prev(&lst).unwrap().prev(&lst).is_none());

    assert_eq!(lst.get(tail.prev(&lst).unwrap().next(&lst).unwrap()).value(), 2);
}

#[test]
fn test_insert_back() {
    let mut lst = DoublyLinkedList::new();
    lst.insert_back(1i32);
    lst.insert_back(2i32);
    assert_eq!(lst.len(), 2);

    let head = lst.head().unwrap();
    assert_eq!(lst.get(head).value(), 1);
    assert_eq!(lst.get(head.next(&lst).unwrap()).value(), 2);
    assert!(head.next(&lst).unwrap().next(&lst).is_none());

    let tail = lst.tail().unwrap();
    assert_eq!(lst.get(tail).value(), 2);
    assert_eq!(lst.get(tail.prev(&lst).unwrap()).value(), 1);
    assert!(tail.prev(&lst).unwrap().prev(&lst).is_none());

    assert_eq!(lst.get(tail.prev(&lst).unwrap().next(&lst).unwrap()).value(), 2);
}

#[test]
fn test_detach_front() {
    let mut lst = DoublyLinkedList::new();
    lst.insert_back(1i32);
    lst.insert_back(2i32);

    assert_eq!(lst.detach_front().unwrap().value(), 1i32);

    assert_eq!(lst.len(), 1);
    let head = lst.head().unwrap();
    assert_eq!(lst.get(head).value(), 2);
    assert!(head.next(&lst).is_none());
}

#[test]
fn drop_releases_every_node_once() {
    let td = TestDrop::new();
    {
        let mut lst = DoublyLinkedList::new();
        for _ in 0..5 {
            lst.insert_back(td.new_item().1);
        }
        let mid = lst.head().unwrap().next(&lst).unwrap();
        mid.insert_after(&mut lst, td.new_item().1);
        assert_eq!(0, td.num_dropped_items());
    }
    assert_eq!(6, td.num_dropped_items());
}

#[test]
fn detached_node_is_dropped_with_its_owner() {
    let td = TestDrop::new();
    let mut lst = DoublyLinkedList::new();
    lst.insert_back(td.new_item().1);
    lst.insert_back(td.new_item().1);
    let node = lst.detach_back().unwrap();
    assert_eq!(0, td.num_dropped_items());
    drop(node);
    assert_eq!(1, td.num_dropped_items());
    drop(lst);
    assert_eq!(2, td.num_dropped_items());
}

#[test]
fn round_trip_through_the_back() {
    let mut lst = DoublyLinkedList::new();
    for v in [3, 1, 4, 1, 5, 9, 2, 6] {
        lst.insert_back(v);
    }
    let mut out = Vec::new();
    while let Some(n) = lst.detach_back() {
        out.push(n.into_value());
    }
    assert_eq!(out, vec![6, 2, 9, 5, 1, 4, 1, 3]);
    assert_eq!(lst.len(), 0);
    assert!(lst.is_empty());
}

#[test]
fn next_then_prev_returns_to_the_node() {
    let mut lst = DoublyLinkedList::new();
    for v in 0..6 {
        lst.insert_back(v);
    }
    let mut it = lst.iter();
    while let Some(a) = it.next() {
        if let Some(b) = a.next(&lst) {
            assert_eq!(b.prev(&lst), Some(a));
        }
        if let Some(b) = a.prev(&lst) {
            assert_eq!(b.next(&lst), Some(a));
        }
    }
}

#[test]
fn insert_around_a_cursor() {
    let mut lst = DoublyLinkedList::new();
    let mid = lst.insert_back(5);
    mid.insert_before(&mut lst, 4);
    mid.insert_after(&mut lst, 6);
    let first = lst.head().unwrap();
    first.insert_before(&mut lst, 3);
    let last = lst.tail().unwrap();
    last.insert_after(&mut lst, 7);
    assert_eq!(values(&lst), vec![3, 4, 5, 6, 7]);
    assert_eq!(values_rev(&lst), vec![7, 6, 5, 4, 3]);
    assert!(lst.head().unwrap().is_head(&lst));
    assert!(lst.tail().unwrap().is_tail(&lst));
    assert!(!mid.is_head(&lst));
    assert!(!mid.is_tail(&lst));
}

#[test]
fn detach_in_the_middle_keeps_the_rest_linked() {
    let mut lst = DoublyLinkedList::new();
    for v in 1..=5 {
        lst.insert_back(v);
    }
    let second = lst.head().unwrap().next(&lst).unwrap();
    let node = second.detach(&mut lst);
    assert_eq!(node.value(), 2);
    assert_eq!(node.prev_raw(), None);
    assert_eq!(node.next_raw(), None);
    assert_eq!(values(&lst), vec![1, 3, 4, 5]);
    assert_eq!(values_rev(&lst), vec![5, 4, 3, 1]);
    assert_eq!(lst.len(), 4);
    let third = lst.head().unwrap().next(&lst).unwrap();
    third.delete(&mut lst);
    assert_eq!(values(&lst), vec![1, 4, 5]);
    assert_eq!(*lst.front_ref().unwrap(), 1);
    assert_eq!(*lst.back_ref().unwrap(), 5);
}

#[test]
fn front_and_back_can_be_changed_in_place() {
    let mut lst = DoublyLinkedList::new();
    assert!(lst.front_mut().is_none());
    lst.insert_back(1);
    lst.insert_back(2);
    *lst.front_mut().unwrap() = 10;
    *lst.back_mut().unwrap() = 20;
    assert_eq!(values(&lst), vec![10, 20]);
}

#[test]
fn empty_list_has_no_ends() {
    let mut lst: DoublyLinkedList<i32> = DoublyLinkedList::new();
    assert!(lst.head().is_none());
    assert!(lst.tail().is_none());
    assert!(lst.head_raw().is_none());
    assert!(lst.tail_raw().is_none());
    assert!(lst.detach_front().is_none());
    assert!(lst.detach_back().is_none());
    assert!(lst.front_ref().is_none());
    assert!(lst.iter().next().is_none());
    assert!(lst.iter_rev().next().is_none());
}

#[test]
fn detach_moves_the_last_slot_into_the_freed_one() {
    let mut lst = DoublyLinkedList::new();
    let a = lst.insert_back(1);
    let b = lst.insert_back(2);
    let c = lst.insert_back(3);
    assert_eq!(c.raw(), 2);
    a.detach(&mut lst);
    assert!(c.is_dangling(&lst));
    assert!(!b.is_dangling(&lst));
    assert_eq!(lst.get(b).value(), 2);
    let moved = clrs::doubly_linked_list::Anchor::new(a.raw());
    assert_eq!(lst.get(moved).value(), 3);
    assert_eq!(b.next(&lst), Some(moved));
    assert_eq!(values(&lst), vec![2, 3]);
}
