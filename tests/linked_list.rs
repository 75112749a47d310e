use rust_demo::data_structures::LinkedList;
use std::rc::Rc;

#[test]
fn linked_list_empty() {
    let list: LinkedList<i32> = LinkedList::new();
    assert_eq!(list.size(), 0);
}

#[test]
fn offer_head() {
    let mut list = LinkedList::new();
    let expect_val = 2;

    list.offer_head(1);
    list.offer_head(expect_val);

    assert_eq!(list.get(0), Some(&expect_val));
}

#[test]
fn offer_tail() {
    let mut list = LinkedList::new();
    let expect_val = 2;

    list.offer_tail(1);
    list.offer_tail(expect_val);

    assert_eq!(list.get(1), Some(&expect_val));
}

#[test]
fn poll_head() {
    let mut list = LinkedList::new();

    list.offer_head(1);
    list.offer_head(2);

    assert_eq!(list.poll_head(), Some(2));
    assert_eq!(list.poll_head(), Some(1));
    assert_eq!(list.size(), 0);
}

#[test]
fn poll_tail() {
    let mut list = LinkedList::new();

    list.offer_tail(1);
    list.offer_tail(2);

    assert_eq!(list.poll_tail(), Some(2));
    assert_eq!(list.poll_tail(), Some(1));
    assert_eq!(list.size(), 0);
}

fn contents(list: &LinkedList<i32>) -> Vec<i32> {
    let mut out = Vec::new();
    for i in 0..list.size() {
        out.push(*list.get(i).unwrap());
    }
    out
}

#[test]
fn head_offers_read_back_in_reverse() {
    let mut list = LinkedList::new();
    list.offer_head(1);
    list.offer_head(2);
    assert_eq!(list.get(0), Some(&2));
    assert_eq!(list.get(1), Some(&1));
    assert_eq!(list.size(), 2);
}

#[test]
fn tail_polls_drain_to_none() {
    let mut list = LinkedList::new();
    list.offer_tail(1);
    list.offer_tail(2);
    assert_eq!(list.poll_tail(), Some(2));
    assert_eq!(list.poll_tail(), Some(1));
    assert_eq!(list.poll_tail(), None);
    assert_eq!(list.size(), 0);
}

#[test]
fn insert_and_remove_in_the_middle() {
    let mut list = LinkedList::new();
    list.offer_tail(1);
    list.offer_tail(2);
    list.offer_tail(3);
    list.insert(1, 99);
    assert_eq!(contents(&list), vec![1, 99, 2, 3]);
    assert_eq!(list.remove(2), Some(2));
    assert_eq!(contents(&list), vec![1, 99, 3]);
}

#[test]
fn poll_on_empty_gives_none() {
    let mut list: LinkedList<i32> = LinkedList::new();
    assert_eq!(list.poll_head(), None);
    assert_eq!(list.poll_tail(), None);
    assert_eq!(list.size(), 0);
}

#[test]
fn insert_at_size_matches_offer_tail() {
    let mut a = LinkedList::new();
    let mut b = LinkedList::new();
    for v in [5, 6, 7] {
        a.offer_tail(v);
        b.offer_tail(v);
    }
    a.insert(3, 8);
    b.offer_tail(8);
    assert_eq!(contents(&a), contents(&b));
    assert_eq!(contents(&a), vec![5, 6, 7, 8]);
}

#[test]
fn insert_at_front_and_remove_at_front() {
    let mut list = LinkedList::new();
    list.insert(0, 3);
    list.insert(0, 1);
    list.insert(1, 2);
    assert_eq!(contents(&list), vec![1, 2, 3]);
    assert_eq!(list.remove(0), Some(1));
    assert_eq!(list.remove(1), Some(3));
    assert_eq!(contents(&list), vec![2]);
}

#[test]
fn offer_tail_then_poll_head_round_trip() {
    let mut list = LinkedList::new();
    list.offer_tail(42);
    assert_eq!(list.poll_head(), Some(42));
    assert_eq!(list.size(), 0);

    list.offer_tail(1);
    list.offer_tail(2);
    assert_eq!(list.poll_head(), Some(1));
    assert_eq!(list.size(), 1);
}

#[test]
fn mixed_operations_keep_order() {
    let mut list = LinkedList::new();
    for i in 0..10 {
        if i % 2 == 0 {
            list.offer_tail(i);
        } else {
            list.offer_head(i);
        }
    }
    assert_eq!(contents(&list), vec![9, 7, 5, 3, 1, 0, 2, 4, 6, 8]);
    assert_eq!(list.remove(4), Some(1));
    assert_eq!(list.remove(0), Some(9));
    assert_eq!(list.poll_tail(), Some(8));
    list.insert(2, 100);
    assert_eq!(contents(&list), vec![7, 5, 100, 3, 0, 2, 4, 6]);
    while list.poll_head().is_some() {}
    assert_eq!(list.size(), 0);
}

#[test]
fn owned_values_are_moved_out() {
    let mut list = LinkedList::new();
    list.offer_tail(String::from("a"));
    list.offer_tail(String::from("b"));
    list.offer_head(String::from("c"));
    assert_eq!(list.remove(1), Some(String::from("a")));
    assert_eq!(list.poll_head(), Some(String::from("c")));
    assert_eq!(list.get(0), Some(&String::from("b")));
}

#[test]
fn forward_and_backward_walks_agree() {
    let mut list = LinkedList::new();
    for v in [3, 1, 4, 1, 5, 9, 2, 6] {
        list.offer_tail(v);
    }
    list.remove(3);
    list.insert(5, 7);
    list.offer_head(0);
    let forward = contents(&list);
    let mut backward = Vec::new();
    while let Some(v) = list.poll_tail() {
        backward.push(v);
    }
    backward.reverse();
    assert_eq!(forward, backward);
    assert_eq!(forward, vec![0, 3, 1, 4, 5, 9, 7, 2, 6]);
}

#[test]
fn no_value_outlives_the_list() {
    let token = Rc::new(());
    {
        let mut list = LinkedList::new();
        for i in 0..20 {
            if i % 3 == 0 {
                list.offer_head(Rc::clone(&token));
            } else {
                list.offer_tail(Rc::clone(&token));
            }
        }
        let _ = list.remove(4);
        let _ = list.poll_head();
        let _ = list.poll_tail();
        list.insert(3, Rc::clone(&token));
        assert_eq!(Rc::strong_count(&token), 1 + list.size());
    }
    assert_eq!(Rc::strong_count(&token), 1);

    let mut list = LinkedList::new();
    for _ in 0..5 {
        list.offer_tail(Rc::clone(&token));
    }
    while list.poll_head().is_some() {}
    assert_eq!(list.size(), 0);
    assert_eq!(Rc::strong_count(&token), 1);
}
