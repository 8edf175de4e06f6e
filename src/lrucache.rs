//! A bounded cache that drops the least recently used entry.
use vstd::prelude::*;
use vstd::std_specs::cmp::PartialEqSpec;
use crate::mrucache::{Node, trimmed};

verus! {

/// A cache of at most `capacity` entries, one per key, ordered from the least to the
/// most recently used; inserting past the capacity drops the least recently used.
pub struct LRUCache<K, V> {
    nodes: Vec<Node<K, V>>,
    capacity: usize,
}

impl<K: Copy + PartialEq, V: Copy> LRUCache<K, V> {
    /// The entries, least recently used first.
    pub closed spec fn entries(&self) -> Seq<(K, V)> {
        self.nodes@.map_values(|n: Node<K, V>| (n.key, n.value))
    }

    pub closed spec fn cap(&self) -> nat {
        self.capacity as nat
    }

    pub fn new(capacity: usize) -> (r: LRUCache<K, V>)
        ensures
            r.entries() == Seq::<(K, V)>::empty(),
            r.cap() == capacity,
    {
        let r = LRUCache { nodes: Vec::new(), capacity };
        assert(r.entries() =~= Seq::<(K, V)>::empty());
        r
    }

    pub fn len(&self) -> (r: usize)
        ensures
            r == self.entries().len(),
    {
        self.nodes.len()
    }

    fn position(&self, key: &K) -> (r: Option<usize>)
        requires
            K::obeys_eq_spec(),
        ensures
            match r {
                Some(i) => i < self.entries().len() && self.entries()[i as int].0.eq_spec(key),
                None => forall|i: int| 0 <= i < self.entries().len() ==> !self.entries()[i].0.eq_spec(key),
            },
    {
        let mut i: usize = 0;
        while i < self.nodes.len()
            invariant
                K::obeys_eq_spec(),
                i <= self.nodes@.len(),
                forall|k: int| 0 <= k < i ==> !self.entries()[k].0.eq_spec(key),
            decreases self.nodes@.len() - i,
        {
            if self.nodes[i].key == *key {
                return Some(i);
            }
            i = i + 1;
        }
        None
    }

    /// Inserts `value` under `key`, replacing the key's entry if there is one; the new
    /// entry is the most recently used. When that makes more than `capacity` entries, the
    /// least recently used is dropped.
    pub fn insert(&mut self, key: K, value: V)
        requires
            K::obeys_eq_spec(),
        ensures
            (exists|i: int|
                0 <= i < old(self).entries().len() && old(self).entries()[i].0.eq_spec(&key)
                    && final(self).entries() == trimmed(old(self).entries().remove(i).push((key, value)), old(self).cap()))
                || ((forall|i: int| 0 <= i < old(self).entries().len() ==> !old(self).entries()[i].0.eq_spec(&key))
                    && final(self).entries() == trimmed(old(self).entries().push((key, value)), old(self).cap())),
            final(self).cap() == old(self).cap(),
    {
        let ghost base;
        match self.position(&key) {
            Some(i) => {
                let _ = self.nodes.remove(i);
                proof {
                    base = old(self).entries().remove(i as int);
                    assert(self.entries() =~= base);
                }
            },
            None => {
                proof {
                    base = old(self).entries();
                }
            },
        }
        self.nodes.push(Node::new(key, value));
        assert(self.entries() =~= base.push((key, value)));
        if self.nodes.len() > self.capacity {
            let _ = self.nodes.remove(0);
            assert(self.entries() =~= base.push((key, value)).drop_first());
        }
    }

    /// The value stored under `key`, if any; its entry becomes the most recently used.
    pub fn get(&mut self, key: &K) -> (r: Option<&V>)
        requires
            K::obeys_eq_spec(),
        ensures
            final(self).cap() == old(self).cap(),
            r is None ==> final(self).entries() == old(self).entries() && forall|i: int|
                0 <= i < old(self).entries().len() ==> !old(self).entries()[i].0.eq_spec(key),
            r is Some ==> exists|i: int|
                0 <= i < old(self).entries().len() && old(self).entries()[i].0.eq_spec(key)
                    && *r->0 == old(self).entries()[i].1
                    && final(self).entries() == old(self).entries().remove(i).push(old(self).entries()[i]),
    {
        match self.position(key) {
            Some(i) => {
                let n = self.nodes.remove(i);
                self.nodes.push(n);
                let last = self.nodes.len() - 1;
                assert(self.entries() =~= old(self).entries().remove(i as int).push(old(self).entries()[i as int]));
                Some(&self.nodes[last].value)
            },
            None => None,
        }
    }
}

} // verus!
