//! An addressable LRU queue: an addressable FIFO queue in which accessing an
//! entry moves it to the tail, so that the head is the least recently used.
use crate::fifo;
use crate::fifo::{key_model, lookup, pushed_back, pushed_front, without};
use std::hash::Hash;
use vstd::prelude::*;

verus! {

/// An addressable LRU queue.
pub struct Queue<K, V> {
    inner: fifo::Queue<K, V>,
}

impl<K, V> View for Queue<K, V> {
    type V = Seq<(K, V)>;

    /// The live pairs, from least recently used (head) to most recently used (tail).
    closed spec fn view(&self) -> Seq<(K, V)> {
        self.inner@
    }
}

impl<K: Clone + Eq + Hash, V> Queue<K, V> {
    /// The queue's internal invariant.
    pub closed spec fn wf(&self) -> bool {
        &&& self.inner.wf()
        &&& key_model::<K>()
    }

    /// Creates an empty queue.
    pub fn new() -> (q: Self)
        requires
            key_model::<K>(),
        ensures
            q.wf(),
            q@ == Seq::<(K, V)>::empty(),
    {
        Queue { inner: fifo::Queue::new() }
    }

    /// Accesses the entry with key `key`. If there is one, it moves to the tail
    /// (most recently used) and its value is returned.
    pub fn get(&mut self, key: &K) -> (r: Option<&V>)
        requires
            old(self).wf(),
        ensures
            final(self).wf(),
            r is Some <==> lookup(old(self)@, *key) is Some,
            r is Some ==> lookup(old(self)@, *key) == Some(*r.unwrap()),
            final(self)@ == match lookup(old(self)@, *key) {
                Some(v) => pushed_back(old(self)@, *key, v),
                None => old(self)@,
            },
    {
        match self.inner.remove_key(key) {
            Some(v) => {
                let ghost gv = v;
                let k = key.clone();
                self.inner.insert(k, v);
                proof {
                    fifo::lemma_remove_twice(old(self)@, *key);
                    assert(lookup(self.inner@, *key) == Some(gv));
                }
                self.inner.value_of(key)
            },
            None => {
                proof {
                    fifo::lemma_without_absent(old(self)@, *key);
                }
                None
            },
        }
    }

    /// Inserts an entry at the tail (most recently used). An older entry with the same key is dropped.
    pub fn insert(&mut self, key: K, value: V)
        requires
            old(self).wf(),
        ensures
            final(self).wf(),
            final(self)@ == pushed_back(old(self)@, key, value),
    {
        self.inner.insert(key, value);
    }

    /// Inserts an entry at the head (least recently used). An older entry with the same key is dropped.
    pub fn insert_head(&mut self, key: K, value: V)
        requires
            old(self).wf(),
        ensures
            final(self).wf(),
            final(self)@ == pushed_front(old(self)@, key, value),
    {
        self.inner.insert_head(key, value);
    }

    /// Removes the head (least recently used entry) and returns it, if there is one.
    pub fn remove_head(&mut self) -> (r: Option<(K, V)>)
        requires
            old(self).wf(),
        ensures
            final(self).wf(),
            old(self)@.len() == 0 ==> r is None && final(self)@ == old(self)@,
            old(self)@.len() > 0 ==> r == Some(old(self)@[0]) && final(self)@ == old(self)@.drop_first(),
    {
        self.inner.remove_head()
    }

    /// Removes the tail (most recently used entry) and returns it, if there is one.
    pub fn remove_tail(&mut self) -> (r: Option<(K, V)>)
        requires
            old(self).wf(),
        ensures
            final(self).wf(),
            old(self)@.len() == 0 ==> r is None && final(self)@ == old(self)@,
            old(self)@.len() > 0 ==> r == Some(old(self)@.last()) && final(self)@ == old(self)@.drop_last(),
    {
        self.inner.remove_tail()
    }

    /// Removes the entry with key `key` and returns its value, if there is one.
    pub fn remove_key(&mut self, key: &K) -> (r: Option<V>)
        requires
            old(self).wf(),
        ensures
            final(self).wf(),
            r == lookup(old(self)@, *key),
            final(self)@ == without(old(self)@, *key),
    {
        self.inner.remove_key(key)
    }
}

} // verus!
