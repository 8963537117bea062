use addressable_queue::fifo::Queue;

#[test]
fn new_with_keeps_order() {
    let mut queue = Queue::new_with(vec![(2u8, 4u8), (3, 6), (4, 8)]);
    assert_eq!(Some((2, 4)), queue.remove_head());
    assert_eq!(Some((3, 6)), queue.remove_head());
    assert_eq!(Some((4, 8)), queue.remove_head());
    assert_eq!(None, queue.remove_head());
}

#[test]
fn len_counts_live_entries() {
    let mut queue = Queue::new();
    queue.insert(2u8, 4u8);
    queue.insert(3u8, 6u8);
    queue.insert(4u8, 8u8);
    assert_eq!(3, queue.len());
    queue.remove_head();
    assert_eq!(2, queue.len());
    queue.remove_head();
    queue.remove_head();
    assert_eq!(0, queue.len());
}

#[test]
fn insert_then_remove_head() {
    let mut queue = Queue::new();
    queue.insert(2u8, 4u8);
    queue.insert(3u8, 6u8);
    queue.insert(4u8, 8u8);
    assert_eq!(Some((2, 4)), queue.remove_head());
    assert_eq!(Some((3, 6)), queue.remove_head());
    assert_eq!(Some((4, 8)), queue.remove_head());
    assert_eq!(None, queue.remove_head());
}

#[test]
fn insert_head_reverses() {
    let mut queue = Queue::new();
    queue.insert_head(2u8, 4u8);
    queue.insert_head(3u8, 6u8);
    queue.insert_head(4u8, 8u8);
    assert_eq!(Some((4, 8)), queue.remove_head());
    assert_eq!(Some((3, 6)), queue.remove_head());
    assert_eq!(Some((2, 4)), queue.remove_head());
    assert_eq!(None, queue.remove_head());
}

#[test]
fn remove_tail_newest_first() {
    let mut queue = Queue::new();
    queue.insert(2u8, 4u8);
    queue.insert(3u8, 6u8);
    queue.insert(4u8, 8u8);
    assert_eq!(Some((4, 8)), queue.remove_tail());
    assert_eq!(Some((3, 6)), queue.remove_tail());
    assert_eq!(Some((2, 4)), queue.remove_tail());
    assert_eq!(None, queue.remove_tail());
}

#[test]
fn remove_key_each() {
    let mut queue = Queue::new();
    queue.insert(2u8, 4u8);
    queue.insert(3u8, 6u8);
    queue.insert(4u8, 8u8);
    assert_eq!(Some(4), queue.remove_key(&2));
    assert_eq!(Some(6), queue.remove_key(&3));
    assert_eq!(None, queue.remove_key(&3));
    assert_eq!(Some(8), queue.remove_key(&4));
    assert_eq!(None, queue.remove_head());
}

#[test]
fn into_vec_head_first() {
    let mut queue = Queue::new();
    queue.insert(2u8, 4u8);
    queue.insert(3u8, 6u8);
    queue.insert(4u8, 8u8);
    let vec = queue.into_vec();
    assert_eq!(vec, vec![(2, 4), (3, 6), (4, 8)]);
}

#[test]
fn serde_test() {
    let queue = Queue::new_with(vec![(2u8, 4u8), (3, 6), (4, 8)]);
    let json = serde_json::to_string(&queue.into_vec()).unwrap();
    let pairs: Vec<(u8, u8)> = serde_json::from_str(&json).unwrap();
    let mut queue2: Queue<u8, u8> = Queue::new_with(pairs);
    assert_eq!(queue2.len(), 3);
    assert_eq!(queue2.remove_head(), Some((2, 4)));
    assert_eq!(queue2.remove_head(), Some((3, 6)));
    assert_eq!(queue2.remove_head(), Some((4, 8)));
}

#[test]
fn tail_inserts_drain_in_order_both_ways() {
    let mut queue = Queue::new();
    for k in 0u32..5 {
        queue.insert(k, k * 10);
    }
    for k in 0u32..5 {
        assert_eq!(Some((k, k * 10)), queue.remove_head());
    }
    assert_eq!(None, queue.remove_head());
    let mut queue = Queue::new();
    for k in 0u32..5 {
        queue.insert(k, k * 10);
    }
    for k in (0u32..5).rev() {
        assert_eq!(Some((k, k * 10)), queue.remove_tail());
    }
    assert_eq!(None, queue.remove_tail());
}

#[test]
fn head_inserts_drain_reversed() {
    let mut queue = Queue::new();
    for k in 0u32..5 {
        queue.insert_head(k, k + 100);
    }
    for k in (0u32..5).rev() {
        assert_eq!(Some((k, k + 100)), queue.remove_head());
    }
    assert_eq!(None, queue.remove_head());
}

#[test]
fn len_after_mixed_operations() {
    let mut queue = Queue::new();
    queue.insert(1u8, 'a');
    queue.insert_head(2u8, 'b');
    queue.insert(3u8, 'c');
    assert_eq!(3, queue.len());
    queue.remove_key(&2);
    assert_eq!(2, queue.len());
    queue.insert(1u8, 'd');
    assert_eq!(2, queue.len());
    queue.remove_tail();
    assert_eq!(1, queue.len());
    queue.remove_head();
    assert_eq!(0, queue.len());
    assert_eq!(None, queue.remove_key(&3));
    assert_eq!(0, queue.len());
}

#[test]
fn middle_removal_keeps_order() {
    let mut queue = Queue::new_with(vec![(1u8, 1u8), (2, 2), (3, 3), (4, 4), (5, 5)]);
    assert_eq!(Some(3), queue.remove_key(&3));
    assert_eq!(Some((5, 5)), queue.remove_tail());
    assert_eq!(Some((1, 1)), queue.remove_head());
    assert_eq!(Some((2, 2)), queue.remove_head());
    assert_eq!(Some((4, 4)), queue.remove_head());
    assert_eq!(None, queue.remove_head());
}

#[test]
fn remove_key_twice() {
    let mut queue = Queue::new_with(vec![(7u8, 70u8), (8, 80)]);
    assert_eq!(Some(70), queue.remove_key(&7));
    assert_eq!(None, queue.remove_key(&7));
    assert_eq!(1, queue.len());
}

#[test]
fn round_trip_through_new_with() {
    let pairs = vec![(5u16, 'x'), (1, 'y'), (9, 'z'), (3, 'w')];
    let queue = Queue::new_with(pairs.clone());
    assert_eq!(pairs, queue.into_vec());
}

#[test]
fn remove_key_then_drain() {
    let mut queue = Queue::new();
    queue.insert(2u8, 4u8);
    queue.insert(3u8, 6u8);
    queue.insert(4u8, 8u8);
    assert_eq!(Some(6), queue.remove_key(&3));
    assert_eq!(Some((2, 4)), queue.remove_head());
    assert_eq!(Some((4, 8)), queue.remove_head());
    assert_eq!(None, queue.remove_head());
}

#[test]
fn reinsert_shadows_older_entry() {
    let mut queue = Queue::new();
    queue.insert(1u8, 10u8);
    queue.insert(2u8, 20u8);
    queue.insert(1u8, 11u8);
    assert_eq!(2, queue.len());
    assert_eq!(Some((2, 20)), queue.remove_head());
    assert_eq!(Some((1, 11)), queue.remove_head());
    assert_eq!(None, queue.remove_head());
    assert_eq!(0, queue.len());
}

#[test]
fn new_with_duplicate_keys_keeps_newest() {
    let queue = Queue::new_with(vec![(1u8, 1u8), (2, 2), (1, 3)]);
    assert_eq!(vec![(2, 2), (1, 3)], queue.into_vec());
}

#[test]
fn empty_queue() {
    let mut queue: Queue<u8, u8> = Queue::new();
    assert_eq!(0, queue.len());
    assert_eq!(None, queue.remove_head());
    assert_eq!(None, queue.remove_tail());
    assert_eq!(None, queue.remove_key(&1));
    assert_eq!(Vec::<(u8, u8)>::new(), queue.into_vec());
}

#[test]
fn tombstones_swept_at_both_ends() {
    let mut queue = Queue::new_with(vec![(1u8, 1u8), (2, 2), (3, 3), (4, 4)]);
    assert_eq!(Some(1), queue.remove_key(&1));
    assert_eq!(Some(4), queue.remove_key(&4));
    assert_eq!(Some((3, 3)), queue.remove_tail());
    assert_eq!(Some((2, 2)), queue.remove_head());
    assert_eq!(None, queue.remove_tail());
    queue.insert(5, 5);
    assert_eq!(Some((5, 5)), queue.remove_head());
}

#[test]
fn string_keys() {
    let mut queue = Queue::new();
    queue.insert(String::from("a"), 1u8);
    queue.insert(String::from("b"), 2u8);
    assert_eq!(Some(1), queue.remove_key(&String::from("a")));
    assert_eq!(Some((String::from("b"), 2)), queue.remove_head());
}

#[test]
fn slots_reused_across_many_cycles() {
    let mut queue = Queue::new();
    for round in 0u32..50 {
        queue.insert(round, round);
        queue.insert_head(round + 1000, round);
        assert_eq!(Some(round), queue.remove_key(&round));
        queue.insert(round + 2000, round + 1);
        assert_eq!(Some((round + 1000, round)), queue.remove_head());
        assert_eq!(1, queue.len());
        assert_eq!(Some((round + 2000, round + 1)), queue.remove_tail());
        assert_eq!(0, queue.len());
    }
    queue.insert(7, 7);
    queue.insert(8, 8);
    assert_eq!(vec![(7, 7), (8, 8)], queue.into_vec());
}
