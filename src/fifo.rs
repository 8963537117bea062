//! An addressable FIFO queue: a queue whose entries can also be removed by key.
//!
//! Entries live in a slot arena. The queue order holds slot indices, and a
//! hash map sends each key to the slot of its live entry. Removing by key
//! clears the value in place (a tombstone); the dead slot is swept and
//! recycled when a removal at either end walks past it.
use std::collections::HashMap;
use std::collections::VecDeque;
use std::hash::Hash;
use vstd::pervasive::VecAdditionalExecFns;
use vstd::prelude::*;
use vstd::std_specs::hash::obeys_key_model;

verus! {

/// The key type behaves as a hash-map key should: hashing is deterministic,
/// `==` is identity, and cloning yields an identical key.
pub open spec fn key_model<K: Clone>() -> bool {
    &&& obeys_key_model::<K>()
    &&& forall|a: K, b: K| #[trigger] call_ensures(K::clone, (&a,), b) ==> a == b
}

/// The keys of a sequence of pairs, in order.
pub open spec fn keys<K, V>(s: Seq<(K, V)>) -> Seq<K> {
    s.map_values(|p: (K, V)| p.0)
}

/// `s` without its pairs whose key is `k`.
pub open spec fn without<K, V>(s: Seq<(K, V)>, k: K) -> Seq<(K, V)>
    decreases s.len(),
{
    if s.len() == 0 {
        s
    } else if s.last().0 == k {
        without(s.drop_last(), k)
    } else {
        without(s.drop_last(), k).push(s.last())
    }
}

/// The value paired with `k` in `s`, if any (the last one, should there be several).
pub open spec fn lookup<K, V>(s: Seq<(K, V)>, k: K) -> Option<V>
    decreases s.len(),
{
    if s.len() == 0 {
        None
    } else if s.last().0 == k {
        Some(s.last().1)
    } else {
        lookup(s.drop_last(), k)
    }
}

/// The contents after inserting `(k, v)` at the tail: an older entry for `k` is dropped.
pub open spec fn pushed_back<K, V>(s: Seq<(K, V)>, k: K, v: V) -> Seq<(K, V)> {
    without(s, k).push((k, v))
}

/// The contents after inserting `(k, v)` at the head: an older entry for `k` is dropped.
pub open spec fn pushed_front<K, V>(s: Seq<(K, V)>, k: K, v: V) -> Seq<(K, V)> {
    seq![(k, v)] + without(s, k)
}

/// The contents of a queue built by inserting each pair of `pairs` at the tail, in order.
pub open spec fn from_pairs<K, V>(pairs: Seq<(K, V)>) -> Seq<(K, V)>
    decreases pairs.len(),
{
    if pairs.len() == 0 {
        Seq::empty()
    } else {
        pushed_back(from_pairs(pairs.drop_last()), pairs.last().0, pairs.last().1)
    }
}

/// The contents of a queue built by inserting each pair of `pairs` at the head, in order.
pub open spec fn from_pairs_front<K, V>(pairs: Seq<(K, V)>) -> Seq<(K, V)>
    decreases pairs.len(),
{
    if pairs.len() == 0 {
        Seq::empty()
    } else {
        pushed_front(from_pairs_front(pairs.drop_last()), pairs.last().0, pairs.last().1)
    }
}

/// The live pairs of a sequence of physical slots, in order; tombstones are skipped.
pub open spec fn live<K, V>(p: Seq<Option<(K, V)>>) -> Seq<(K, V)>
    decreases p.len(),
{
    if p.len() == 0 {
        Seq::empty()
    } else {
        match p.last() {
            Some(e) => live(p.drop_last()).push(e),
            None => live(p.drop_last()),
        }
    }
}

/// No two live slots of `p` hold the same key.
pub open spec fn unique_live_keys<K, V>(p: Seq<Option<(K, V)>>) -> bool {
    forall|a: int, b: int|
        0 <= a < p.len() && 0 <= b < p.len() && (#[trigger] p[a]) is Some && (#[trigger] p[b]) is Some
            && p[a].unwrap().0 == p[b].unwrap().0 ==> a == b
}

/// A key is live in `p` exactly when it is one of the keys of `live(p)`.
proof fn lemma_live_keys<K, V>(p: Seq<Option<(K, V)>>, k: K)
    ensures
        keys(live(p)).contains(k) <==> exists|j: int|
            0 <= j < p.len() && (#[trigger] p[j]) is Some && p[j].unwrap().0 == k,
    decreases p.len(),
{
    if p.len() > 0 {
        let q = p.drop_last();
        lemma_live_keys(q, k);
        assert(keys(live(q)).contains(k) ==> keys(live(p)).contains(k)) by {
            if keys(live(q)).contains(k) {
                let i = choose|i: int| 0 <= i < keys(live(q)).len() && keys(live(q))[i] == k;
                assert(keys(live(p))[i] == k);
            }
        }
        if exists|j: int| 0 <= j < q.len() && (#[trigger] q[j]) is Some && q[j].unwrap().0 == k {
            let j = choose|j: int| 0 <= j < q.len() && (#[trigger] q[j]) is Some && q[j].unwrap().0 == k;
            assert(p[j] == q[j]);
        }
        if exists|j: int| 0 <= j < p.len() && (#[trigger] p[j]) is Some && p[j].unwrap().0 == k {
            let j = choose|j: int| 0 <= j < p.len() && (#[trigger] p[j]) is Some && p[j].unwrap().0 == k;
            if j < q.len() {
                assert(q[j] == p[j]);
            } else {
                let l = live(p);
                assert(l.last() == p[j]->0);
                assert(keys(l)[l.len() - 1] == k);
            }
        }
        if keys(live(p)).contains(k) && !keys(live(q)).contains(k) {
            let l = live(p);
            let i = choose|i: int| 0 <= i < keys(l).len() && keys(l)[i] == k;
            if p.last() is None {
                assert(keys(live(q))[i] == k);
            } else if i < l.len() - 1 {
                assert(keys(live(q))[i] == k);
            } else {
                assert(p[p.len() - 1] is Some);
            }
        }
    }
}

/// Distinct live keys in the slots give distinct keys in the contents.
proof fn lemma_live_no_dups<K, V>(p: Seq<Option<(K, V)>>)
    requires
        unique_live_keys(p),
    ensures
        keys(live(p)).no_duplicates(),
    decreases p.len(),
{
    if p.len() > 0 {
        let q = p.drop_last();
        assert(unique_live_keys(q)) by {
            assert forall|a: int, b: int|
                0 <= a < q.len() && 0 <= b < q.len() && (#[trigger] q[a]) is Some
                    && (#[trigger] q[b]) is Some && q[a].unwrap().0 == q[b].unwrap().0 implies a == b by {
                assert(p[a] == q[a] && p[b] == q[b]);
            }
        }
        lemma_live_no_dups(q);
        if let Some(e) = p.last() {
            lemma_live_keys(q, e.0);
            if keys(live(q)).contains(e.0) {
                let j = choose|j: int| 0 <= j < q.len() && (#[trigger] q[j]) is Some && q[j].unwrap().0 == e.0;
                assert(p[j] == q[j]);
                assert(p[p.len() - 1] is Some);
            }
            assert(keys(live(p)) =~= keys(live(q)).push(e.0));
        }
    }
}

/// Where no live slot holds `k`, the contents hold no pair for `k`.
proof fn lemma_absent<K, V>(s: Seq<(K, V)>, k: K)
    requires
        !keys(s).contains(k),
    ensures
        without(s, k) == s,
        lookup(s, k) is None,
    decreases s.len(),
{
    if s.len() > 0 {
        let t = s.drop_last();
        assert(!keys(t).contains(k)) by {
            if keys(t).contains(k) {
                let i = choose|i: int| 0 <= i < keys(t).len() && keys(t)[i] == k;
                assert(keys(s)[i] == k);
            }
        }
        lemma_absent(t, k);
        assert(keys(s)[s.len() - 1] == s.last().0);
        assert(s =~= t.push(s.last()));
    }
}

/// After `without(s, k)` no pair for `k` is left.
proof fn lemma_without_drops<K, V>(s: Seq<(K, V)>, k: K)
    ensures
        !keys(without(s, k)).contains(k),
    decreases s.len(),
{
    if s.len() > 0 {
        let t = s.drop_last();
        lemma_without_drops(t, k);
        let w = without(s, k);
        if keys(w).contains(k) {
            let i = choose|i: int| 0 <= i < keys(w).len() && keys(w)[i] == k;
            if s.last().0 != k && i < w.len() - 1 {
                assert(keys(without(t, k))[i] == k);
            } else if s.last().0 == k {
                assert(keys(without(t, k))[i] == k);
            }
        }
    }
}

/// Clearing the one live slot that holds `k` removes `k` from the contents.
proof fn lemma_tombstone<K, V>(p: Seq<Option<(K, V)>>, j: int, k: K, v: V)
    requires
        0 <= j < p.len(),
        p[j] == Some((k, v)),
        unique_live_keys(p),
    ensures
        live(p.update(j, None)) == without(live(p), k),
        lookup(live(p), k) == Some(v),
    decreases p.len(),
{
    let q = p.drop_last();
    let u = p.update(j, None);
    assert(u.drop_last() =~= if j == p.len() - 1 { q } else { q.update(j, None) });
    if j == p.len() - 1 {
        assert forall|i: int| 0 <= i < q.len() && (#[trigger] q[i]) is Some implies q[i].unwrap().0 != k by {
            assert(p[i] == q[i]);
        }
        lemma_live_keys(q, k);
        lemma_absent(live(q), k);
        assert(live(p) == live(q).push((k, v)));
        assert(live(p).drop_last() =~= live(q));
    } else {
        assert(unique_live_keys(q)) by {
            assert forall|a: int, b: int|
                0 <= a < q.len() && 0 <= b < q.len() && (#[trigger] q[a]) is Some
                    && (#[trigger] q[b]) is Some && q[a].unwrap().0 == q[b].unwrap().0 implies a == b by {
                assert(p[a] == q[a] && p[b] == q[b]);
            }
        }
        assert(q[j] == p[j]);
        lemma_tombstone(q, j, k, v);
        if let Some(e) = p.last() {
            assert(p[p.len() - 1] is Some);
            assert(e.0 != k);
            assert(live(p).drop_last() =~= live(q));
            assert(live(u) =~= live(u.drop_last()).push(e));
        } else {
            assert(live(u) == live(u.drop_last()));
        }
    }
}

/// A slot added at the front shows up at the front of the contents.
proof fn lemma_live_front<K, V>(x: Option<(K, V)>, p: Seq<Option<(K, V)>>)
    ensures
        live(seq![x] + p) == match x {
            Some(e) => seq![e] + live(p),
            None => live(p),
        },
    decreases p.len(),
{
    let s = seq![x] + p;
    if p.len() == 0 {
        assert(s.drop_last() =~= Seq::<Option<(K, V)>>::empty());
        assert(p =~= Seq::<Option<(K, V)>>::empty());
        assert(s.last() == x);
        assert(live(s.drop_last()) == Seq::<(K, V)>::empty());
        assert(live(s) =~= match x {
            Some(e) => seq![e] + live(p),
            None => live(p),
        });
    } else {
        lemma_live_front(x, p.drop_last());
        assert(s.drop_last() =~= seq![x] + p.drop_last());
        match x {
            Some(e) => {
                match p.last() {
                    Some(f) => assert(live(s) =~= seq![e] + live(p)),
                    None => assert(live(s) =~= seq![e] + live(p)),
                }
            },
            None => {},
        }
    }
}

/// A queued entry: its key, and its value until it is taken out (then a tombstone).
struct Entry<K, V> {
    key: K,
    val: Option<V>,
}

spec fn slot_pair<K, V>(s: Option<Entry<K, V>>) -> Option<(K, V)> {
    match s {
        Some(e) => match e.val {
            Some(v) => Some((e.key, v)),
            None => None,
        },
        None => None,
    }
}

/// An addressable FIFO queue.
///
/// It combines the operations of a FIFO queue with the removal of an entry
/// by its key, without a scan of the queue.
pub struct Queue<K, V> {
    slots: Vec<Option<Entry<K, V>>>,
    order: VecDeque<usize>,
    index: HashMap<K, usize>,
    free: Vec<usize>,
}

impl<K, V> View for Queue<K, V> {
    type V = Seq<(K, V)>;

    /// The live pairs, from head (oldest) to tail (newest).
    closed spec fn view(&self) -> Seq<(K, V)> {
        live(self.phys())
    }
}

impl<K, V> Queue<K, V> {
    /// The entry each queued slot shows: its pair while live, `None` once a tombstone.
    spec fn phys(&self) -> Seq<Option<(K, V)>> {
        self.order@.map_values(|i: usize| slot_pair(self.slots@[i as int]))
    }

    spec fn slot_of(&self, k: K) -> usize {
        self.index@[k]
    }
}

impl<K: Clone + Eq + Hash, V> Queue<K, V> {
    /// The queue's internal invariant.
    pub closed spec fn wf(&self) -> bool {
        let n = self.slots@.len();
        let ord = self.order@;
        &&& key_model::<K>()
        &&& ord.no_duplicates()
        &&& forall|j: int| 0 <= j < ord.len() ==> (#[trigger] ord[j]) < n && self.slots@[ord[j] as int] is Some
        &&& self.free@.no_duplicates()
        &&& forall|j: int|
            0 <= j < self.free@.len() ==> (#[trigger] self.free@[j]) < n && self.slots@[self.free@[j] as int] is None
        &&& forall|k: K| #[trigger]
            self.index@.contains_key(k) ==> {
                &&& ord.contains(self.slot_of(k))
                &&& slot_pair(self.slots@[self.slot_of(k) as int]) is Some
                &&& slot_pair(self.slots@[self.slot_of(k) as int]).unwrap().0 == k
            }
        &&& forall|j: int|
            0 <= j < ord.len() && (#[trigger] self.phys()[j]) is Some ==> self.index@.contains_key(self.phys()[j].unwrap().0)
                && self.slot_of(self.phys()[j].unwrap().0) == ord[j]
    }

    /// Facts about the contents that follow from the invariant.
    proof fn lemma_view(&self)
        requires
            self.wf(),
        ensures
            unique_live_keys(self.phys()),
            keys(self@).no_duplicates(),
            forall|k: K| #[trigger] self.index@.contains_key(k) <==> keys(self@).contains(k),
            self.index@.len() == self@.len(),
    {
        let p = self.phys();
        assert(unique_live_keys(p)) by {
            assert forall|a: int, b: int|
                0 <= a < p.len() && 0 <= b < p.len() && (#[trigger] p[a]) is Some && (#[trigger] p[b]) is Some
                    && p[a].unwrap().0 == p[b].unwrap().0 implies a == b by {
                assert(self.order@[a] == self.order@[b]);
            }
        }
        lemma_live_no_dups(p);
        assert forall|k: K| #[trigger] self.index@.contains_key(k) <==> keys(self@).contains(k) by {
            lemma_live_keys(p, k);
            if self.index@.contains_key(k) {
                let j = choose|j: int| 0 <= j < self.order@.len() && self.order@[j] == self.slot_of(k);
                assert(p[j] is Some && p[j].unwrap().0 == k);
            }
            if keys(self@).contains(k) {
                let j = choose|j: int| 0 <= j < p.len() && (#[trigger] p[j]) is Some && p[j].unwrap().0 == k;
                assert(self.index@.contains_key(k));
            }
        }
        assert(self.index@.dom() =~= keys(self@).to_set());
        keys(self@).unique_seq_to_set();
    }

    /// No two live entries share a key, so the length counts distinct keys.
    pub proof fn lemma_distinct_keys(&self)
        requires
            self.wf(),
        ensures
            keys(self@).no_duplicates(),
    {
        self.lemma_view();
    }

    /// Creates an empty queue.
    pub fn new() -> (q: Self)
        requires
            key_model::<K>(),
        ensures
            q.wf(),
            q@ == Seq::<(K, V)>::empty(),
    {
        let q = Queue { slots: Vec::new(), order: VecDeque::new(), index: HashMap::new(), free: Vec::new() };
        assert(q.phys() =~= Seq::<Option<(K, V)>>::empty());
        q
    }

    /// Creates a queue holding `pairs`, inserted at the tail in the given order.
    pub fn new_with(pairs: Vec<(K, V)>) -> (q: Self)
        requires
            key_model::<K>(),
        ensures
            q.wf(),
            q@ == from_pairs(pairs@),
    {
        let ghost ps = pairs@;
        let mut q = Queue::new();
        for pair in it: pairs
            invariant
                q.wf(),
                it.seq() == ps,
                q@ == from_pairs(ps.take(it.index() as int)),
        {
            proof {
                assert(ps.take(it.index() + 1).drop_last() =~= ps.take(it.index() as int));
            }
            q.insert(pair.0, pair.1);
        }
        proof {
            assert(ps.take(ps.len() as int) =~= ps);
        }
        q
    }

    /// The number of live entries.
    pub fn len(&self) -> (n: usize)
        requires
            self.wf(),
        ensures
            n == self@.len(),
    {
        proof {
            self.lemma_view();
        }
        self.index.len()
    }

    /// Stores `e` in a free slot, or in a new one, and returns the slot's index.
    fn take_slot(&mut self, e: Entry<K, V>) -> (i: usize)
        requires
            old(self).wf(),
        ensures
            final(self).order@ == old(self).order@,
            final(self).index@ == old(self).index@,
            i < final(self).slots@.len(),
            old(self).slots@.len() <= final(self).slots@.len(),
            final(self).slots@[i as int] == Some(e),
            i < old(self).slots@.len() ==> old(self).slots@[i as int] is None,
            forall|j: int|
                0 <= j < old(self).slots@.len() && j != i ==> final(self).slots@[j] == old(self).slots@[j],
            final(self).free@.no_duplicates(),
            forall|j: int|
                0 <= j < final(self).free@.len() ==> (#[trigger] final(self).free@[j]) < final(self).slots@.len()
                    && final(self).slots@[final(self).free@[j] as int] is None,
    {
        let ghost f0 = self.free@;
        match self.free.pop() {
            Some(i) => {
                proof {
                    assert(f0[f0.len() - 1] == i);
                    assert forall|j: int| 0 <= j < self.free@.len() implies #[trigger] self.free@[j] != i by {
                        assert(f0[j] == self.free@[j]);
                    }
                    assert forall|j: int| 0 <= j < self.free@.len() implies f0[j] == #[trigger] self.free@[j] by {}
                }
                self.slots.set(i, Some(e));
                i
            },
            None => {
                let i = self.slots.len();
                self.slots.push(Some(e));
                i
            },
        }
    }

    /// Inserts an entry at the tail. An older entry with the same key is dropped.
    pub fn insert(&mut self, key: K, value: V)
        requires
            old(self).wf(),
        ensures
            final(self).wf(),
            final(self)@ == pushed_back(old(self)@, key, value),
    {
        let k2 = key.clone();
        let _ = self.remove_key(&key);
        let ghost s0 = *self;
        proof {
            s0.lemma_view();
            lemma_without_drops(old(self)@, key);
        }
        let i = self.take_slot(Entry { key: k2, val: Some(value) });
        proof {
            assert forall|j: int| 0 <= j < s0.order@.len() implies self.slots@[(#[trigger] s0.order@[j]) as int]
                == s0.slots@[s0.order@[j] as int] by {}
            assert(!s0.order@.contains(i));
        }
        self.order.push_back(i);
        self.index.insert(key, i);
        proof {
            let p0 = s0.phys();
            assert(self.phys() =~= p0.push(Some((key, value))));
            assert(self.phys().drop_last() =~= p0);
            assert(live(self.phys()) == live(p0).push((key, value)));
            assert forall|j: int| 0 <= j < self.order@.len() && (#[trigger] self.phys()[j]) is Some
                implies self.index@.contains_key(self.phys()[j].unwrap().0)
                    && self.slot_of(self.phys()[j].unwrap().0) == self.order@[j] by {
                if j < p0.len() {
                    assert(self.phys()[j] == p0[j]);
                    assert(s0.index@.contains_key(p0[j].unwrap().0));
                }
            }
            assert forall|k: K| #[trigger] self.index@.contains_key(k) implies {
                &&& self.order@.contains(self.slot_of(k))
                &&& slot_pair(self.slots@[self.slot_of(k) as int]) is Some
                &&& slot_pair(self.slots@[self.slot_of(k) as int]).unwrap().0 == k
            } by {
                if k == key {
                    assert(self.order@[self.order@.len() - 1] == i);
                } else {
                    assert(s0.index@.contains_key(k));
                    let j = choose|j: int| 0 <= j < s0.order@.len() && s0.order@[j] == s0.slot_of(k);
                    assert(self.order@[j] == s0.slot_of(k));
                }
            }
        }
    }

    /// Inserts an entry at the head. An older entry with the same key is dropped.
    pub fn insert_head(&mut self, key: K, value: V)
        requires
            old(self).wf(),
        ensures
            final(self).wf(),
            final(self)@ == pushed_front(old(self)@, key, value),
    {
        let k2 = key.clone();
        let _ = self.remove_key(&key);
        let ghost s0 = *self;
        proof {
            s0.lemma_view();
            lemma_without_drops(old(self)@, key);
        }
        let i = self.take_slot(Entry { key: k2, val: Some(value) });
        proof {
            assert forall|j: int| 0 <= j < s0.order@.len() implies self.slots@[(#[trigger] s0.order@[j]) as int]
                == s0.slots@[s0.order@[j] as int] by {}
            assert(!s0.order@.contains(i));
        }
        self.order.push_front(i);
        self.index.insert(key, i);
        proof {
            let p0 = s0.phys();
            let o0 = s0.order@;
            assert(self.phys() =~= seq![Some((key, value))] + p0);
            lemma_live_front(Some((key, value)), p0);
            assert forall|j: int| 0 <= j < self.order@.len() && (#[trigger] self.phys()[j]) is Some
                implies self.index@.contains_key(self.phys()[j].unwrap().0)
                    && self.slot_of(self.phys()[j].unwrap().0) == self.order@[j] by {
                if j > 0 {
                    assert(self.phys()[j] == p0[j - 1]);
                    assert(self.order@[j] == o0[j - 1]);
                    assert(s0.index@.contains_key(p0[j - 1].unwrap().0));
                }
            }
            assert forall|k: K| #[trigger] self.index@.contains_key(k) implies {
                &&& self.order@.contains(self.slot_of(k))
                &&& slot_pair(self.slots@[self.slot_of(k) as int]) is Some
                &&& slot_pair(self.slots@[self.slot_of(k) as int]).unwrap().0 == k
            } by {
                if k == key {
                    assert(self.order@[0] == i);
                } else {
                    assert(s0.index@.contains_key(k));
                    let j = choose|j: int| 0 <= j < o0.len() && o0[j] == s0.slot_of(k);
                    assert(self.order@[j + 1] == s0.slot_of(k));
                }
            }
        }
    }

    /// Removes the entry with key `key` and returns its value, if there is one.
    /// The slot stays queued as a tombstone until a removal at an end sweeps it.
    pub fn remove_key(&mut self, key: &K) -> (r: Option<V>)
        requires
            old(self).wf(),
        ensures
            final(self).wf(),
            r == lookup(old(self)@, *key),
            final(self)@ == without(old(self)@, *key),
    {
        proof {
            self.lemma_view();
        }
        let ghost p0 = self.phys();
        match self.index.remove(key) {
            None => {
                proof {
                    lemma_absent(self@, *key);
                }
                None
            },
            Some(i) => {
                let ghost j = choose|j: int| 0 <= j < self.order@.len() && self.order@[j] == i;
                let mut taken: Option<Entry<K, V>> = None;
                self.slots.set_and_swap(i, &mut taken);
                match taken {
                    Some(mut e) => {
                        let r = e.val.take();
                        self.slots.set(i, Some(e));
                        proof {
                            assert(p0[j] == Some((*key, r.unwrap())));
                            lemma_tombstone(p0, j, *key, r.unwrap());
                            assert(self.phys() =~= p0.update(j, None));
                            assert forall|k: K| #[trigger] self.index@.contains_key(k) implies {
                                &&& self.order@.contains(self.slot_of(k))
                                &&& slot_pair(self.slots@[self.slot_of(k) as int]) is Some
                                &&& slot_pair(self.slots@[self.slot_of(k) as int]).unwrap().0 == k
                            } by {
                                assert(old(self).index@.contains_key(k));
                            }
                            assert forall|a: int| 0 <= a < self.order@.len() && (#[trigger] self.phys()[a]) is Some
                                implies self.index@.contains_key(self.phys()[a].unwrap().0)
                                    && self.slot_of(self.phys()[a].unwrap().0) == self.order@[a] by {
                                assert(p0[a] is Some);
                                assert(a != j);
                            }
                        }
                        r
                    },
                    None => None,
                }
            },
        }
    }

    /// Removes the head (oldest live entry) and returns it, if there is one.
    /// Tombstones met on the way are discarded.
    pub fn remove_head(&mut self) -> (r: Option<(K, V)>)
        requires
            old(self).wf(),
        ensures
            final(self).wf(),
            old(self)@.len() == 0 ==> r is None && final(self)@ == old(self)@,
            old(self)@.len() > 0 ==> r == Some(old(self)@[0]) && final(self)@ == old(self)@.drop_first(),
    {
        loop
            invariant
                self.wf(),
                self@ == old(self)@,
            decreases self.order@.len(),
        {
            let ghost s0 = *self;
            proof {
                s0.lemma_view();
            }
            let ghost p0 = self.phys();
            match self.order.pop_front() {
                None => {
                    proof {
                        assert(p0 =~= Seq::<Option<(K, V)>>::empty());
                    }
                    return None;
                },
                Some(i) => {
                    proof {
                        assert(p0 =~= seq![p0[0]] + p0.drop_first());
                        lemma_live_front(p0[0], p0.drop_first());
                    }
                    let mut taken: Option<Entry<K, V>> = None;
                    self.slots.set_and_swap(i, &mut taken);
                    self.free.push(i);
                    proof {
                        assert(self.phys() =~= p0.drop_first());
                        assert(!s0.free@.contains(i));
                        assert forall|j: int| 0 <= j < self.free@.len() implies (#[trigger] self.free@[j]) < self.slots@.len()
                            && self.slots@[self.free@[j] as int] is None by {
                            if j < s0.free@.len() {
                                assert(self.free@[j] == s0.free@[j]);
                            }
                        }
                    }
                    match taken {
                        Some(e) => match e.val {
                            Some(v) => {
                                self.index.remove(&e.key);
                                proof {
                                    assert(p0[0] == Some((e.key, v)));
                                    assert forall|k: K| #[trigger] self.index@.contains_key(k) implies {
                                        &&& self.order@.contains(self.slot_of(k))
                                        &&& slot_pair(self.slots@[self.slot_of(k) as int]) is Some
                                        &&& slot_pair(self.slots@[self.slot_of(k) as int]).unwrap().0 == k
                                    } by {
                                        assert(s0.index@.contains_key(k));
                                        let jj = choose|jj: int| 0 <= jj < s0.order@.len() && s0.order@[jj] == s0.slot_of(k);
                                        assert(jj > 0);
                                        assert(self.order@[jj - 1] == self.slot_of(k));
                                    }
                                    assert forall|a: int| 0 <= a < self.order@.len() && (#[trigger] self.phys()[a]) is Some
                                        implies self.index@.contains_key(self.phys()[a].unwrap().0)
                                            && self.slot_of(self.phys()[a].unwrap().0) == self.order@[a] by {
                                        assert(p0[a + 1] is Some);
                                        assert(a + 1 != 0);
                                    }
                                }
                                return Some((e.key, v));
                            },
                            None => {},
                        },
                        None => {},
                    }
                    proof {
                        assert(slot_pair(s0.slots@[i as int]) is None);
                        assert forall|k: K| #[trigger] self.index@.contains_key(k) implies {
                            &&& self.order@.contains(self.slot_of(k))
                            &&& slot_pair(self.slots@[self.slot_of(k) as int]) is Some
                            &&& slot_pair(self.slots@[self.slot_of(k) as int]).unwrap().0 == k
                        } by {
                            assert(s0.index@.contains_key(k));
                            let jj = choose|jj: int| 0 <= jj < s0.order@.len() && s0.order@[jj] == s0.slot_of(k);
                            assert(jj > 0);
                            assert(self.order@[jj - 1] == self.slot_of(k));
                        }
                        assert forall|a: int| 0 <= a < self.order@.len() && (#[trigger] self.phys()[a]) is Some
                            implies self.index@.contains_key(self.phys()[a].unwrap().0)
                                && self.slot_of(self.phys()[a].unwrap().0) == self.order@[a] by {
                            assert(p0[a + 1] is Some);
                        }
                    }
                },
            }
        }
    }

    /// Removes the tail (newest live entry) and returns it, if there is one.
    /// Tombstones met on the way are discarded.
    pub fn remove_tail(&mut self) -> (r: Option<(K, V)>)
        requires
            old(self).wf(),
        ensures
            final(self).wf(),
            old(self)@.len() == 0 ==> r is None && final(self)@ == old(self)@,
            old(self)@.len() > 0 ==> r == Some(old(self)@.last()) && final(self)@ == old(self)@.drop_last(),
    {
        loop
            invariant
                self.wf(),
                self@ == old(self)@,
            decreases self.order@.len(),
        {
            let ghost s0 = *self;
            proof {
                s0.lemma_view();
            }
            let ghost p0 = self.phys();
            match self.order.pop_back() {
                None => {
                    proof {
                        assert(p0 =~= Seq::<Option<(K, V)>>::empty());
                    }
                    return None;
                },
                Some(i) => {
                    let mut taken: Option<Entry<K, V>> = None;
                    self.slots.set_and_swap(i, &mut taken);
                    self.free.push(i);
                    proof {
                        assert(self.phys() =~= p0.drop_last());
                        assert(!s0.free@.contains(i));
                        assert forall|j: int| 0 <= j < self.free@.len() implies (#[trigger] self.free@[j]) < self.slots@.len()
                            && self.slots@[self.free@[j] as int] is None by {
                            if j < s0.free@.len() {
                                assert(self.free@[j] == s0.free@[j]);
                            }
                        }
                    }
                    match taken {
                        Some(e) => match e.val {
                            Some(v) => {
                                self.index.remove(&e.key);
                                proof {
                                    assert(p0[p0.len() - 1] == Some((e.key, v)));
                                    assert forall|k: K| #[trigger] self.index@.contains_key(k) implies {
                                        &&& self.order@.contains(self.slot_of(k))
                                        &&& slot_pair(self.slots@[self.slot_of(k) as int]) is Some
                                        &&& slot_pair(self.slots@[self.slot_of(k) as int]).unwrap().0 == k
                                    } by {
                                        assert(s0.index@.contains_key(k));
                                        let jj = choose|jj: int| 0 <= jj < s0.order@.len() && s0.order@[jj] == s0.slot_of(k);
                                        assert(jj < s0.order@.len() - 1);
                                        assert(self.order@[jj] == self.slot_of(k));
                                    }
                                    assert forall|a: int| 0 <= a < self.order@.len() && (#[trigger] self.phys()[a]) is Some
                                        implies self.index@.contains_key(self.phys()[a].unwrap().0)
                                            && self.slot_of(self.phys()[a].unwrap().0) == self.order@[a] by {
                                        assert(p0[a] is Some);
                                    }
                                }
                                return Some((e.key, v));
                            },
                            None => {},
                        },
                        None => {},
                    }
                    proof {
                        assert(slot_pair(s0.slots@[i as int]) is None);
                        assert forall|k: K| #[trigger] self.index@.contains_key(k) implies {
                            &&& self.order@.contains(self.slot_of(k))
                            &&& slot_pair(self.slots@[self.slot_of(k) as int]) is Some
                            &&& slot_pair(self.slots@[self.slot_of(k) as int]).unwrap().0 == k
                        } by {
                            assert(s0.index@.contains_key(k));
                            let jj = choose|jj: int| 0 <= jj < s0.order@.len() && s0.order@[jj] == s0.slot_of(k);
                            assert(jj < s0.order@.len() - 1);
                            assert(self.order@[jj] == self.slot_of(k));
                        }
                        assert forall|a: int| 0 <= a < self.order@.len() && (#[trigger] self.phys()[a]) is Some
                            implies self.index@.contains_key(self.phys()[a].unwrap().0)
                                && self.slot_of(self.phys()[a].unwrap().0) == self.order@[a] by {
                            assert(p0[a] is Some);
                        }
                    }
                },
            }
        }
    }

    /// Drains the queue into a vector, head (oldest entry) first.
    pub fn into_vec(self) -> (v: Vec<(K, V)>)
        requires
            self.wf(),
        ensures
            v@ == self@,
    {
        let ghost all = self@;
        let mut q = self;
        let mut v: Vec<(K, V)> = Vec::new();
        loop
            invariant
                q.wf(),
                v@ + q@ == all,
            ensures
                v@ == all,
            decreases q@.len(),
        {
            match q.remove_head() {
                Some(pair) => {
                    proof {
                        assert(v@.push(pair) + q@ =~= all);
                    }
                    v.push(pair);
                },
                None => {
                    proof {
                        assert(v@ =~= all);
                    }
                    break;
                },
            }
        }
        v
    }

    /// The value of the live entry with key `key`, if there is one.
    pub(crate) fn value_of(&self, key: &K) -> (r: Option<&V>)
        requires
            self.wf(),
        ensures
            r is Some <==> lookup(self@, *key) is Some,
            r is Some ==> lookup(self@, *key) == Some(*r.unwrap()),
    {
        proof {
            self.lemma_view();
        }
        match self.index.get(key) {
            Some(i) => {
                let ghost j = choose|j: int| 0 <= j < self.order@.len() && self.order@[j] == *i;
                proof {
                    assert(self.phys()[j] is Some);
                    lemma_tombstone(self.phys(), j, *key, self.phys()[j].unwrap().1);
                }
                match &self.slots[*i] {
                    Some(e) => match &e.val {
                        Some(v) => Some(v),
                        None => None,
                    },
                    None => None,
                }
            },
            None => {
                proof {
                    lemma_absent(self@, *key);
                }
                None
            },
        }
    }
}

/// Removing a key twice: the second removal finds no value and changes nothing.
pub proof fn lemma_remove_twice<K, V>(s: Seq<(K, V)>, k: K)
    ensures
        lookup(without(s, k), k) is None,
        without(without(s, k), k) == without(s, k),
{
    lemma_without_drops(s, k);
    lemma_absent(without(s, k), k);
}

/// A key that is present is found: its first removal returns a value.
pub proof fn lemma_present_found<K, V>(s: Seq<(K, V)>, k: K)
    ensures
        keys(s).contains(k) <==> lookup(s, k) is Some,
    decreases s.len(),
{
    if s.len() > 0 {
        let t = s.drop_last();
        lemma_present_found(t, k);
        if keys(t).contains(k) {
            let i = choose|i: int| 0 <= i < keys(t).len() && keys(t)[i] == k;
            assert(keys(s)[i] == k);
        }
        if keys(s).contains(k) && s.last().0 != k {
            let i = choose|i: int| 0 <= i < keys(s).len() && keys(s)[i] == k;
            assert(i != s.len() - 1);
            assert(keys(t)[i] == k);
        }
        if s.last().0 == k {
            assert(keys(s)[s.len() - 1] == k);
        }
    }
}

/// Removing a key that has no entry changes nothing.
pub proof fn lemma_without_absent<K, V>(s: Seq<(K, V)>, k: K)
    requires
        lookup(s, k) is None,
    ensures
        without(s, k) == s,
{
    lemma_present_found(s, k);
    lemma_absent(s, k);
}

/// Removing the key of the entry at position `j` removes that entry alone:
/// the other entries keep their relative order.
pub proof fn lemma_remove_keeps_order<K, V>(s: Seq<(K, V)>, j: int)
    requires
        keys(s).no_duplicates(),
        0 <= j < s.len(),
    ensures
        without(s, s[j].0) == s.remove(j),
    decreases s.len(),
{
    let t = s.drop_last();
    let k = s[j].0;
    assert(keys(t) =~= keys(s).drop_last());
    assert(keys(t).no_duplicates());
    if j == s.len() - 1 {
        assert(!keys(t).contains(k)) by {
            if keys(t).contains(k) {
                let i = choose|i: int| 0 <= i < keys(t).len() && keys(t)[i] == k;
                assert(keys(s)[i] == keys(s)[j]);
            }
        }
        lemma_absent(t, k);
        assert(s.remove(j) =~= t);
    } else {
        lemma_remove_keeps_order(t, j);
        assert(keys(s)[j] != keys(s)[s.len() - 1]);
        assert(s.remove(j) =~= t.remove(j).push(s.last()));
    }
}

/// Inserting pairs with distinct keys at the tail keeps them in the order given.
pub proof fn lemma_tail_inserts_keep_order<K, V>(pairs: Seq<(K, V)>)
    requires
        keys(pairs).no_duplicates(),
    ensures
        from_pairs(pairs) == pairs,
    decreases pairs.len(),
{
    if pairs.len() > 0 {
        let t = pairs.drop_last();
        let k = pairs.last().0;
        assert(keys(t) =~= keys(pairs).drop_last());
        lemma_tail_inserts_keep_order(t);
        assert(!keys(t).contains(k)) by {
            if keys(t).contains(k) {
                let i = choose|i: int| 0 <= i < keys(t).len() && keys(t)[i] == k;
                assert(keys(pairs)[i] == keys(pairs)[pairs.len() - 1]);
            }
        }
        lemma_absent(t, k);
        assert(t.push((k, pairs.last().1)) =~= pairs);
    }
}

/// Inserting pairs with distinct keys at the head gives them in reverse order.
pub proof fn lemma_head_inserts_reverse<K, V>(pairs: Seq<(K, V)>)
    requires
        keys(pairs).no_duplicates(),
    ensures
        from_pairs_front(pairs) == pairs.reverse(),
    decreases pairs.len(),
{
    if pairs.len() > 0 {
        let t = pairs.drop_last();
        let k = pairs.last().0;
        assert(keys(t) =~= keys(pairs).drop_last());
        lemma_head_inserts_reverse(t);
        assert(!keys(t.reverse()).contains(k)) by {
            if keys(t.reverse()).contains(k) {
                let i = choose|i: int| 0 <= i < keys(t.reverse()).len() && keys(t.reverse())[i] == k;
                assert(keys(pairs)[t.len() - 1 - i] == keys(pairs)[pairs.len() - 1]);
            }
        }
        lemma_absent(t.reverse(), k);
        assert(seq![(k, pairs.last().1)] + t.reverse() =~= pairs.reverse());
    }
}

} // verus!
