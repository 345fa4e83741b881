//! Executable keyed collections, each viewed as an association sequence in
//! insertion order (see [`crate::assoc`]). Lookups find the first entry with
//! a matching key; a well-formed collection has distinct keys, so the first
//! match is the only one.

use vstd::prelude::*;
use crate::assoc::{
    a_contains, a_first, a_get, a_no_dup, a_remove, a_set, e_no_dup, e_remove,
    lemma_a_first_at, lemma_a_remove_no_dup, lemma_a_set_no_dup, lemma_e_first_at,
    lemma_e_remove_no_dup,
};
use crate::node::NodeId;
use crate::node::NodeKey;

verus! {

/// An insertion-ordered set of node identities.
#[derive(Debug)]
pub struct NodeSet {
    items: Vec<NodeId>,
}

impl View for NodeSet {
    type V = Seq<NodeKey>;

    closed spec fn view(&self) -> Seq<NodeKey> {
        self.items@.map_values(|n: NodeId| n.key())
    }
}

impl NodeSet {
    pub open spec fn wf(&self) -> bool {
        e_no_dup(self@)
    }

    pub fn new() -> (s: NodeSet)
        ensures
            s@ == Seq::<NodeKey>::empty(),
            s.wf(),
    {
        let s = NodeSet { items: Vec::new() };
        proof {
            assert(s@ =~= Seq::<NodeKey>::empty());
        }
        s
    }

    pub fn len(&self) -> (n: usize)
        ensures
            n == self@.len(),
    {
        self.items.len()
    }

    pub fn at(&self, i: usize) -> (n: &NodeId)
        requires
            i < self@.len(),
        ensures
            n.key() == self@[i as int],
    {
        &self.items[i]
    }

    pub fn contains(&self, k: &NodeId) -> (r: bool)
        ensures
            r == self@.contains(k.key()),
    {
        let mut i: usize = 0;
        while i < self.items.len()
            invariant
                i <= self.items.len(),
                forall|j: int| 0 <= j < i ==> self@[j] != k.key(),
            decreases self.items.len() - i,
        {
            if self.items[i].eq_id(k) {
                proof {
                    assert(self@[i as int] == k.key());
                }
                return true;
            }
            i += 1;
        }
        false
    }

    /// Adds `k` unless an equal identity is already present.
    pub fn insert(&mut self, k: NodeId)
        requires
            old(self).wf(),
        ensures
            final(self).wf(),
            final(self)@ == if old(self)@.contains(k.key()) {
                old(self)@
            } else {
                old(self)@.push(k.key())
            },
    {
        if !self.contains(&k) {
            self.items.push(k);
            proof {
                assert(self@ =~= old(self)@.push(k.key()));
            }
        }
    }

    /// Removes the first (and in a well-formed set, only) occurrence of `k`.
    pub fn remove(&mut self, k: &NodeId)
        requires
            old(self).wf(),
        ensures
            final(self).wf(),
            final(self)@ == e_remove(old(self)@, k.key()),
    {
        let ghost v0 = self@;
        let mut i: usize = 0;
        while i < self.items.len()
            invariant
                i <= self.items.len(),
                self@ == v0,
                e_no_dup(v0),
                self.items@ == old(self).items@,
                forall|j: int| 0 <= j < i ==> v0[j] != k.key(),
            decreases self.items.len() - i,
        {
            if self.items[i].eq_id(k) {
                proof {
                    lemma_e_first_at(v0, k.key(), i as int);
                }
                self.items.remove(i);
                proof {
                    v0.remove_ensures(i as int);
                    assert(self@ =~= v0.remove(i as int));
                    lemma_e_remove_no_dup(v0, k.key());
                }
                return;
            }
            i += 1;
        }
        proof {
            assert(!v0.contains(k.key()));
        }
    }

    /// An owned copy with the same contents.
    pub fn dup(&self) -> (r: NodeSet)
        ensures
            r@ == self@,
    {
        let mut items: Vec<NodeId> = Vec::new();
        let mut i: usize = 0;
        while i < self.items.len()
            invariant
                i <= self.items.len(),
                items@.map_values(|n: NodeId| n.key()) == self@.take(i as int),
            decreases self.items.len() - i,
        {
            let ghost prev = items@;
            items.push(self.items[i].dup());
            proof {
                let f = |n: NodeId| n.key();
                assert(prev.map_values(f).len() == prev.len());
                assert(prev.len() == i as int);
                assert forall|j: int| 0 <= j < items@.len() implies items@.map_values(f)[j]
                    == self@.take(i as int + 1)[j] by {
                    if j < i {
                        assert(items@[j] == prev[j]);
                        assert(prev.map_values(f)[j] == f(prev[j]));
                    }
                }
                assert(items@.map_values(f) =~= self@.take(i as int + 1));
            }
            i += 1;
        }
        let r = NodeSet { items };
        proof {
            assert(self@.take(self@.len() as int) =~= self@);
        }
        r
    }
}

/// An insertion-ordered map from node identities to values.
#[derive(Debug)]
pub struct NodeMap<V> {
    entries: Vec<(NodeId, V)>,
}

impl<V: View> View for NodeMap<V> {
    type V = Seq<(NodeKey, V::V)>;

    closed spec fn view(&self) -> Seq<(NodeKey, V::V)> {
        self.entries@.map_values(|p: (NodeId, V)| (p.0.key(), p.1@))
    }
}

impl<V: View> NodeMap<V> {
    pub open spec fn wf(&self) -> bool {
        a_no_dup(self@)
    }

    pub fn new() -> (m: NodeMap<V>)
        ensures
            m@ == Seq::<(NodeKey, V::V)>::empty(),
            m.wf(),
    {
        let m = NodeMap { entries: Vec::new() };
        proof {
            assert(m@ =~= Seq::<(NodeKey, V::V)>::empty());
        }
        m
    }

    pub fn len(&self) -> (n: usize)
        ensures
            n == self@.len(),
    {
        self.entries.len()
    }

    pub fn key_at(&self, i: usize) -> (k: &NodeId)
        requires
            i < self@.len(),
        ensures
            k.key() == self@[i as int].0,
    {
        &self.entries[i].0
    }

    pub fn value_at(&self, i: usize) -> (v: &V)
        requires
            i < self@.len(),
        ensures
            v@ == self@[i as int].1,
    {
        &self.entries[i].1
    }

    /// Replaces the value at position `i`, keeping the key.
    pub fn set_value_at(&mut self, i: usize, v: V)
        requires
            i < old(self)@.len(),
        ensures
            final(self)@ == old(self)@.update(i as int, (old(self)@[i as int].0, v@)),
            final(self).wf() == old(self).wf(),
    {
        let k = self.entries[i].0.dup();
        self.entries.set(i, (k, v));
        proof {
            assert(final(self)@ =~= old(self)@.update(
                i as int,
                (old(self)@[i as int].0, v@),
            ));
            assert forall|a: int, b: int|
                0 <= a < b < final(self)@.len() implies (final(self)@[a].0 != final(self)@[b].0)
                == (old(self)@[a].0 != old(self)@[b].0) by {}
        }
    }

    /// Position of the entry keyed `k`, if present.
    pub fn find(&self, k: &NodeId) -> (r: Option<usize>)
        ensures
            match r {
                Some(i) => a_contains(self@, k.key()) && i < self@.len()
                    && self@[i as int].0 == k.key() && i == a_first(self@, k.key()),
                None => !a_contains(self@, k.key()),
            },
    {
        let mut i: usize = 0;
        while i < self.entries.len()
            invariant
                i <= self.entries.len(),
                forall|j: int| 0 <= j < i ==> self@[j].0 != k.key(),
            decreases self.entries.len() - i,
        {
            if self.entries[i].0.eq_id(k) {
                proof {
                    lemma_a_first_at(self@, k.key(), i as int);
                }
                return Some(i);
            }
            i += 1;
        }
        None
    }

    pub fn contains_key(&self, k: &NodeId) -> (r: bool)
        ensures
            r == a_contains(self@, k.key()),
    {
        let mut i: usize = 0;
        while i < self.entries.len()
            invariant
                i <= self.entries.len(),
                forall|j: int| 0 <= j < i ==> self@[j].0 != k.key(),
            decreases self.entries.len() - i,
        {
            if self.entries[i].0.eq_id(k) {
                proof {
                    assert(self@[i as int].0 == k.key());
                }
                return true;
            }
            i += 1;
        }
        false
    }

    pub fn get(&self, k: &NodeId) -> (r: Option<&V>)
        ensures
            match r {
                Some(v) => a_contains(self@, k.key()) && v@ == a_get(self@, k.key()),
                None => !a_contains(self@, k.key()),
            },
    {
        let mut i: usize = 0;
        while i < self.entries.len()
            invariant
                i <= self.entries.len(),
                forall|j: int| 0 <= j < i ==> self@[j].0 != k.key(),
            decreases self.entries.len() - i,
        {
            if self.entries[i].0.eq_id(k) {
                proof {
                    lemma_a_first_at(self@, k.key(), i as int);
                }
                return Some(&self.entries[i].1);
            }
            i += 1;
        }
        None
    }

    /// Binds `k` to `v`: updates the existing entry in place, or appends.
    pub fn insert(&mut self, k: NodeId, v: V)
        requires
            old(self).wf(),
        ensures
            final(self).wf(),
            final(self)@ == a_set(old(self)@, k.key(), v@),
    {
        let ghost v0 = self@;
        let mut i: usize = 0;
        while i < self.entries.len()
            invariant
                i <= self.entries.len(),
                self@ == v0,
                a_no_dup(v0),
                self.entries@ == old(self).entries@,
                forall|j: int| 0 <= j < i ==> v0[j].0 != k.key(),
            decreases self.entries.len() - i,
        {
            if self.entries[i].0.eq_id(&k) {
                proof {
                    lemma_a_first_at(v0, k.key(), i as int);
                    lemma_a_set_no_dup(v0, k.key(), v@);
                }
                self.entries.set(i, (k, v));
                proof {
                    assert(self@ =~= a_set(v0, k.key(), v@));
                }
                return;
            }
            i += 1;
        }
        proof {
            assert(!a_contains(v0, k.key()));
            lemma_a_set_no_dup(v0, k.key(), v@);
        }
        self.entries.push((k, v));
        proof {
            assert(self@ =~= a_set(v0, k.key(), v@));
        }
    }

    /// Removes the entry keyed `k`, returning its value.
    pub fn remove(&mut self, k: &NodeId) -> (r: Option<V>)
        requires
            old(self).wf(),
        ensures
            final(self).wf(),
            final(self)@ == a_remove(old(self)@, k.key()),
            match r {
                Some(v) => a_contains(old(self)@, k.key()) && v@ == a_get(old(self)@, k.key()),
                None => !a_contains(old(self)@, k.key()),
            },
    {
        let ghost v0 = self@;
        let mut i: usize = 0;
        while i < self.entries.len()
            invariant
                i <= self.entries.len(),
                self@ == v0,
                a_no_dup(v0),
                self.entries@ == old(self).entries@,
                forall|j: int| 0 <= j < i ==> v0[j].0 != k.key(),
            decreases self.entries.len() - i,
        {
            if self.entries[i].0.eq_id(k) {
                proof {
                    lemma_a_first_at(v0, k.key(), i as int);
                    lemma_a_remove_no_dup(v0, k.key());
                }
                let (_, v) = self.entries.remove(i);
                proof {
                    v0.remove_ensures(i as int);
                    assert(self@ =~= v0.remove(i as int));
                }
                return Some(v);
            }
            i += 1;
        }
        proof {
            assert(!a_contains(v0, k.key()));
        }
        None
    }

    /// Removes every entry.
    pub fn clear(&mut self)
        ensures
            final(self).wf(),
            final(self)@ == Seq::<(NodeKey, V::V)>::empty(),
    {
        self.entries.clear();
        proof {
            assert(self@ =~= Seq::<(NodeKey, V::V)>::empty());
        }
    }
}

/// An insertion-ordered map from expression ids to values.
#[derive(Debug)]
pub struct IdMap<V> {
    entries: Vec<(u64, V)>,
}

impl<V: View> View for IdMap<V> {
    type V = Seq<(u64, V::V)>;

    closed spec fn view(&self) -> Seq<(u64, V::V)> {
        self.entries@.map_values(|p: (u64, V)| (p.0, p.1@))
    }
}

impl<V: View> IdMap<V> {
    pub open spec fn wf(&self) -> bool {
        a_no_dup(self@)
    }

    pub fn new() -> (m: IdMap<V>)
        ensures
            m@ == Seq::<(u64, V::V)>::empty(),
            m.wf(),
    {
        let m = IdMap { entries: Vec::new() };
        proof {
            assert(m@ =~= Seq::<(u64, V::V)>::empty());
        }
        m
    }

    pub fn len(&self) -> (n: usize)
        ensures
            n == self@.len(),
    {
        self.entries.len()
    }

    pub fn key_at(&self, i: usize) -> (k: u64)
        requires
            i < self@.len(),
        ensures
            k == self@[i as int].0,
    {
        self.entries[i].0
    }

    pub fn value_at(&self, i: usize) -> (v: &V)
        requires
            i < self@.len(),
        ensures
            v@ == self@[i as int].1,
    {
        &self.entries[i].1
    }

    pub fn contains_key(&self, k: u64) -> (r: bool)
        ensures
            r == a_contains(self@, k),
    {
        let mut i: usize = 0;
        while i < self.entries.len()
            invariant
                i <= self.entries.len(),
                forall|j: int| 0 <= j < i ==> self@[j].0 != k,
            decreases self.entries.len() - i,
        {
            if self.entries[i].0 == k {
                proof {
                    assert(self@[i as int].0 == k);
                }
                return true;
            }
            i += 1;
        }
        false
    }

    pub fn get(&self, k: u64) -> (r: Option<&V>)
        ensures
            match r {
                Some(v) => a_contains(self@, k) && v@ == a_get(self@, k),
                None => !a_contains(self@, k),
            },
    {
        let mut i: usize = 0;
        while i < self.entries.len()
            invariant
                i <= self.entries.len(),
                forall|j: int| 0 <= j < i ==> self@[j].0 != k,
            decreases self.entries.len() - i,
        {
            if self.entries[i].0 == k {
                proof {
                    lemma_a_first_at(self@, k, i as int);
                }
                return Some(&self.entries[i].1);
            }
            i += 1;
        }
        None
    }

    /// Binds `k` to `v`: updates the existing entry in place, or appends.
    pub fn insert(&mut self, k: u64, v: V)
        requires
            old(self).wf(),
        ensures
            final(self).wf(),
            final(self)@ == a_set(old(self)@, k, v@),
    {
        let ghost v0 = self@;
        let mut i: usize = 0;
        while i < self.entries.len()
            invariant
                i <= self.entries.len(),
                self@ == v0,
                a_no_dup(v0),
                self.entries@ == old(self).entries@,
                forall|j: int| 0 <= j < i ==> v0[j].0 != k,
            decreases self.entries.len() - i,
        {
            if self.entries[i].0 == k {
                proof {
                    lemma_a_first_at(v0, k, i as int);
                    lemma_a_set_no_dup(v0, k, v@);
                }
                self.entries.set(i, (k, v));
                proof {
                    assert(self@ =~= a_set(v0, k, v@));
                }
                return;
            }
            i += 1;
        }
        proof {
            assert(!a_contains(v0, k));
            lemma_a_set_no_dup(v0, k, v@);
        }
        self.entries.push((k, v));
        proof {
            assert(self@ =~= a_set(v0, k, v@));
        }
    }

    /// Removes the entry keyed `k`, if present.
    pub fn remove(&mut self, k: u64)
        requires
            old(self).wf(),
        ensures
            final(self).wf(),
            final(self)@ == a_remove(old(self)@, k),
    {
        let ghost v0 = self@;
        let mut i: usize = 0;
        while i < self.entries.len()
            invariant
                i <= self.entries.len(),
                self@ == v0,
                a_no_dup(v0),
                self.entries@ == old(self).entries@,
                forall|j: int| 0 <= j < i ==> v0[j].0 != k,
            decreases self.entries.len() - i,
        {
            if self.entries[i].0 == k {
                proof {
                    lemma_a_first_at(v0, k, i as int);
                    lemma_a_remove_no_dup(v0, k);
                }
                self.entries.remove(i);
                proof {
                    v0.remove_ensures(i as int);
                    assert(self@ =~= v0.remove(i as int));
                }
                return;
            }
            i += 1;
        }
        proof {
            assert(!a_contains(v0, k));
        }
    }

    /// Removes every entry.
    pub fn clear(&mut self)
        ensures
            final(self).wf(),
            final(self)@ == Seq::<(u64, V::V)>::empty(),
    {
        self.entries.clear();
        proof {
            assert(self@ =~= Seq::<(u64, V::V)>::empty());
        }
    }
}

} // verus!
