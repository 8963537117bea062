use addressable_queue::lru::Queue;

#[test]
fn access_moves_to_tail() {
    let mut queue = Queue::new();
    queue.insert('a', 1u8);
    queue.insert('b', 2u8);
    assert_eq!(Some(&1), queue.get(&'a'));
    assert_eq!(Some(('b', 2)), queue.remove_head());
    assert_eq!(Some(('a', 1)), queue.remove_head());
    assert_eq!(None, queue.remove_head());
}

#[test]
fn access_absent_key_changes_nothing() {
    let mut queue = Queue::new();
    queue.insert('a', 1u8);
    queue.insert('b', 2u8);
    assert_eq!(None, queue.get(&'z'));
    assert_eq!(Some(('a', 1)), queue.remove_head());
    assert_eq!(Some(('b', 2)), queue.remove_head());
}

#[test]
fn lru_insert_head_goes_first() {
    let mut queue = Queue::new();
    queue.insert(1u8, 10u8);
    queue.insert_head(2u8, 20u8);
    assert_eq!(Some((2, 20)), queue.remove_head());
    assert_eq!(Some((1, 10)), queue.remove_tail());
    assert_eq!(None, queue.remove_tail());
}

#[test]
fn lru_remove_key() {
    let mut queue = Queue::new();
    queue.insert(1u8, 10u8);
    queue.insert(2u8, 20u8);
    assert_eq!(Some(10), queue.remove_key(&1));
    assert_eq!(None, queue.remove_key(&1));
    assert_eq!(None, queue.get(&1));
    assert_eq!(Some(&20), queue.get(&2));
    assert_eq!(Some((2, 20)), queue.remove_tail());
}
