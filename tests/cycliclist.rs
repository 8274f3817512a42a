use heaps::heap::cycliclist::{CyclicList, Indexer};

fn contents(list: &CyclicList<i32>) -> Vec<i32> {
    let mut out = Vec::new();
    let mut node = list.take_one();
    for _ in 0..list.len() {
        out.push(*node.key());
        node = list.next(&node);
    }
    out
}

#[test]
fn cycliclist() {
    let mut list = CyclicList::new(1);
    let mut iter = list.take_one();
    assert_eq!(contents(&list), vec![1]);
    list.insert_prev(&iter, 3);
    assert_eq!(contents(&list), vec![3, 1]);
    list.insert_next(&iter, 10);
    assert_eq!(contents(&list), vec![3, 1, 10]);
    iter = list.next(&iter);
    list.insert_next(&iter, 11);
    assert_eq!(contents(&list), vec![3, 1, 10, 11]);
    list.insert_prev(&iter, 15);
    assert_eq!(contents(&list), vec![3, 1, 15, 10, 11]);
    let iter2 = list.delete(&iter);
    assert_eq!(contents(&list), vec![3, 1, 15, 11]);
    assert_eq!(*iter2.key(), 11);
    assert_eq!(Indexer::into_key(iter).unwrap_or_default(), 10);
}

#[test]
fn wraps_around_both_ways() {
    let mut list = CyclicList::new(1);
    let head = list.take_one();
    let tail = list.insert_next(&head, 2);
    assert_eq!(*list.next(&tail).key(), 1);
    assert_eq!(*list.prev(&head).key(), 2);
    assert_eq!(list.len(), 2);
}

#[test]
fn deleting_the_tail_returns_the_head() {
    let mut list = CyclicList::new(1);
    let head = list.take_one();
    let tail = list.insert_next(&head, 2);
    let after = list.delete(&tail);
    assert_eq!(*after.key(), 1);
    assert_eq!(list.len(), 1);
    assert_eq!(contents(&list), vec![1]);
    assert_eq!(*list.next(&tail).key(), 1);
    assert_eq!(*list.prev(&tail).key(), 1);
}

#[test]
fn deleting_the_head_moves_it() {
    let mut list = CyclicList::new(1);
    let head = list.take_one();
    list.insert_next(&head, 2);
    let new_head = list.delete(&head);
    assert_eq!(*new_head.key(), 2);
    assert_eq!(*list.take_one().key(), 2);
}

#[test]
fn last_node_stays() {
    let mut list = CyclicList::new(7);
    let only = list.take_one();
    let same = list.delete(&only);
    assert_eq!(*same.key(), 7);
    assert_eq!(list.len(), 1);
    let shared = Indexer::into_key(same);
    assert!(shared.is_err());
}
