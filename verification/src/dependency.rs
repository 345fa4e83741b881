//! The per-contract dependency sets collected before ordering: each entry
//! names a contract depended on and whether it must be published first.
//! The set is keyed by the contract identifier; adding a dependency that is
//! required before publish overrides an existing entry, while an ordinary
//! dependency never downgrades one.

use vstd::prelude::*;
use crate::assoc::{a_contains, a_get, a_no_dup, a_set, lemma_a_first_at};
use crate::text::str_eq;

verus! {

/// One dependency on another contract.
#[derive(Debug)]
pub struct Dependency {
    /// The identifier of the contract depended on.
    pub contract_id: String,
    /// Whether that contract must be published before this one.
    pub required_before_publish: bool,
}

impl View for Dependency {
    type V = (Seq<char>, bool);

    open spec fn view(&self) -> (Seq<char>, bool) {
        (self.contract_id@, self.required_before_publish)
    }
}

/// The dependencies of one contract, keyed by contract identifier.
#[derive(Debug)]
pub struct DependencySet {
    set: Vec<Dependency>,
}

impl View for DependencySet {
    type V = Seq<(Seq<char>, bool)>;

    closed spec fn view(&self) -> Seq<(Seq<char>, bool)> {
        self.set@.map_values(|d: Dependency| d@)
    }
}

impl DependencySet {
    pub open spec fn wf(&self) -> bool {
        a_no_dup(self@)
    }

    pub fn new() -> (s: DependencySet)
        ensures
            s@ == Seq::<(Seq<char>, bool)>::empty(),
            s.wf(),
    {
        let s = DependencySet { set: Vec::new() };
        proof {
            assert(s@ =~= Seq::<(Seq<char>, bool)>::empty());
        }
        s
    }

    pub fn len(&self) -> (n: usize)
        ensures
            n == self@.len(),
    {
        self.set.len()
    }

    /// Records a dependency on `contract_id`. A dependency required before
    /// publish overrides any existing entry; an ordinary one is recorded
    /// only when the contract was not present yet.
    pub fn add_dependency(&mut self, contract_id: String, required_before_publish: bool)
        requires
            old(self).wf(),
        ensures
            final(self).wf(),
            final(self)@ == if required_before_publish {
                a_set(old(self)@, contract_id@, true)
            } else if a_contains(old(self)@, contract_id@) {
                old(self)@
            } else {
                a_set(old(self)@, contract_id@, false)
            },
    {
        let ghost v0 = self@;
        let n = self.set.len();
        let mut i: usize = 0;
        while i < n
            invariant
                i <= n,
                n == self.set@.len(),
                self@ == v0,
                self.set@ == old(self).set@,
                a_no_dup(v0),
                forall|j: int| 0 <= j < i ==> v0[j].0 != contract_id@,
            decreases n - i,
        {
            if str_eq(self.set[i].contract_id.as_str(), contract_id.as_str()) {
                proof {
                    assert(v0[i as int].0 == contract_id@);
                    lemma_a_first_at(v0, contract_id@, i as int);
                }
                if required_before_publish {
                    self.set.set(
                        i,
                        Dependency { contract_id, required_before_publish: true },
                    );
                    proof {
                        assert(self@ =~= a_set(v0, old(self).set@[i as int].contract_id@, true));
                        crate::assoc::lemma_a_set_no_dup(
                            v0,
                            old(self).set@[i as int].contract_id@,
                            true,
                        );
                    }
                }
                return;
            }
            proof {
                assert(v0[i as int].0 == self.set@[i as int].contract_id@);
            }
            i += 1;
        }
        proof {
            assert(!a_contains(v0, contract_id@));
            crate::assoc::lemma_a_set_no_dup(v0, contract_id@, required_before_publish);
        }
        let ghost cid = contract_id@;
        self.set.push(Dependency { contract_id, required_before_publish });
        proof {
            assert(self@ =~= a_set(v0, cid, required_before_publish));
        }
    }

    /// Whether `contract_id` is depended on, and if so whether it must be
    /// published first.
    pub fn has_dependency(&self, contract_id: &String) -> (r: Option<bool>)
        ensures
            match r {
                Some(flag) => a_contains(self@, contract_id@) && flag == a_get(
                    self@,
                    contract_id@,
                ),
                None => !a_contains(self@, contract_id@),
            },
    {
        let n = self.set.len();
        let mut i: usize = 0;
        while i < n
            invariant
                i <= n,
                n == self.set@.len(),
                forall|j: int| 0 <= j < i ==> self@[j].0 != contract_id@,
            decreases n - i,
        {
            if str_eq(self.set[i].contract_id.as_str(), contract_id.as_str()) {
                proof {
                    assert(self@[i as int].0 == contract_id@);
                    lemma_a_first_at(self@, contract_id@, i as int);
                }
                return Some(self.set[i].required_before_publish);
            }
            proof {
                assert(self@[i as int].0 == self.set@[i as int].contract_id@);
            }
            i += 1;
        }
        None
    }

    /// The `i`th recorded dependency, in insertion order.
    pub fn dependency_at(&self, i: usize) -> (d: &Dependency)
        requires
            i < self@.len(),
        ensures
            d@ == self@[i as int],
    {
        &self.set[i]
    }
}

} // verus!
