//! A bounded cache that keeps the most recently inserted entries.
use vstd::prelude::*;
use vstd::std_specs::cmp::PartialEqSpec;

verus! {

/// One entry of a cache.
pub struct Node<K, V> {
    pub key: K,
    pub value: V,
}

impl<K, V> Node<K, V> {
    pub fn new(key: K, value: V) -> (r: Node<K, V>)
        ensures
            r.key == key,
            r.value == value,
    {
        Node { key, value }
    }
}

/// The entries of a cache, handed out one at a time from the oldest.
pub struct NodeIter<K, V> {
    items: Vec<(K, V)>,
    pos: usize,
}

impl<K: Copy, V: Copy> NodeIter<K, V> {
    pub fn new(items: Vec<(K, V)>) -> (r: NodeIter<K, V>)
        ensures
            r.rest() == items@,
            r.wf(),
    {
        let r = NodeIter { items, pos: 0 };
        assert(r.items@.skip(0) =~= r.items@);
        r
    }

    pub closed spec fn wf(&self) -> bool {
        self.pos <= self.items@.len()
    }

    /// What is left to hand out.
    pub closed spec fn rest(&self) -> Seq<(K, V)> {
        self.items@.skip(self.pos as int)
    }

    /// The next entry, if any.
    pub fn next(&mut self) -> (r: Option<(K, V)>)
        requires
            old(self).wf(),
        ensures
            final(self).wf(),
            old(self).rest().len() == 0 ==> r is None && final(self).rest() == old(self).rest(),
            old(self).rest().len() > 0 ==> r == Some(old(self).rest()[0]) && final(self).rest()
                == old(self).rest().drop_first(),
    {
        if self.pos < self.items.len() {
            let x = self.items[self.pos];
            self.pos = self.pos + 1;
            assert(self.rest() =~= old(self).rest().drop_first());
            Some(x)
        } else {
            None
        }
    }
}

/// A cache of at most `capacity` entries, one per key; inserting past the capacity
/// drops the oldest entry.
pub struct MRUCache<K, V> {
    nodes: Vec<Node<K, V>>,
    capacity: usize,
}

/// `s` without its oldest entry when it holds more than `cap`.
pub open spec fn trimmed<K, V>(s: Seq<(K, V)>, cap: nat) -> Seq<(K, V)> {
    if s.len() > cap {
        s.drop_first()
    } else {
        s
    }
}

impl<K: Copy + PartialEq, V: Copy> MRUCache<K, V> {
    /// The entries, oldest first.
    pub closed spec fn entries(&self) -> Seq<(K, V)> {
        self.nodes@.map_values(|n: Node<K, V>| (n.key, n.value))
    }

    pub closed spec fn cap(&self) -> nat {
        self.capacity as nat
    }

    pub fn new(capacity: usize) -> (r: MRUCache<K, V>)
        ensures
            r.entries() == Seq::<(K, V)>::empty(),
            r.cap() == capacity,
    {
        let r = MRUCache { nodes: Vec::new(), capacity };
        assert(r.entries() =~= Seq::<(K, V)>::empty());
        r
    }

    pub fn len(&self) -> (r: usize)
        ensures
            r == self.entries().len(),
    {
        self.nodes.len()
    }

    /// The position of the entry of `key`.
    fn position(&self, key: &K) -> (r: Option<usize>)
        requires
            K::obeys_eq_spec(),
        ensures
            match r {
                Some(i) => i < self.entries().len() && self.entries()[i as int].0.eq_spec(key),
                None => forall|i: int| 0 <= i < self.entries().len() ==> !self.entries()[i].0.eq_spec(key),
            },
    {
        let mut i: usize = 0;
        while i < self.nodes.len()
            invariant
                K::obeys_eq_spec(),
                i <= self.nodes@.len(),
                forall|k: int| 0 <= k < i ==> !self.entries()[k].0.eq_spec(key),
            decreases self.nodes@.len() - i,
        {
            if self.nodes[i].key == *key {
                return Some(i);
            }
            i = i + 1;
        }
        None
    }

    /// Inserts `value` under `key`, replacing the key's entry if there is one; the new
    /// entry is the newest. When that makes more than `capacity` entries, the oldest is
    /// dropped.
    pub fn insert(&mut self, key: K, value: V)
        requires
            K::obeys_eq_spec(),
        ensures
            (exists|i: int|
                0 <= i < old(self).entries().len() && old(self).entries()[i].0.eq_spec(&key)
                    && final(self).entries() == trimmed(old(self).entries().remove(i).push((key, value)), old(self).cap()))
                || ((forall|i: int| 0 <= i < old(self).entries().len() ==> !old(self).entries()[i].0.eq_spec(&key))
                    && final(self).entries() == trimmed(old(self).entries().push((key, value)), old(self).cap())),
            final(self).cap() == old(self).cap(),
    {
        let ghost base;
        match self.position(&key) {
            Some(i) => {
                let _ = self.nodes.remove(i);
                proof {
                    base = old(self).entries().remove(i as int);
                    assert(self.entries() =~= base);
                }
            },
            None => {
                proof {
                    base = old(self).entries();
                }
            },
        }
        self.nodes.push(Node::new(key, value));
        assert(self.entries() =~= base.push((key, value)));
        if self.nodes.len() > self.capacity {
            let _ = self.nodes.remove(0);
            assert(self.entries() =~= base.push((key, value)).drop_first());
        }
    }

    /// The value stored under `key`, if any.
    pub fn get(&self, key: &K) -> (r: Option<&V>)
        requires
            K::obeys_eq_spec(),
        ensures
            r is Some <==> exists|i: int| 0 <= i < self.entries().len() && self.entries()[i].0.eq_spec(key),
            r is Some ==> exists|i: int|
                0 <= i < self.entries().len() && self.entries()[i].0.eq_spec(key) && self.entries()[i].1 == *r->0,
    {
        match self.position(key) {
            Some(i) => Some(&self.nodes[i].value),
            None => None,
        }
    }

    /// The entries, oldest first.
    pub fn iter(&self) -> (r: NodeIter<K, V>)
        ensures
            r.rest() == self.entries(),
            r.wf(),
    {
        let mut items: Vec<(K, V)> = Vec::new();
        let mut i: usize = 0;
        while i < self.nodes.len()
            invariant
                i <= self.nodes@.len(),
                items@ == self.entries().take(i as int),
            decreases self.nodes@.len() - i,
        {
            items.push((self.nodes[i].key, self.nodes[i].value));
            assert(items@ =~= self.entries().take(i + 1));
            i = i + 1;
        }
        assert(self.entries().take(self.nodes@.len() as int) =~= self.entries());
        NodeIter::new(items)
    }
}

} // verus!
