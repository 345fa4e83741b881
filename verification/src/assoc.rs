//! Association sequences: the mathematical model used for every keyed
//! collection in this crate. A collection is viewed as a `Seq` of entries in
//! insertion order, looked up by the first entry with a matching key. Keeping
//! the order in the model makes every operation of the analysis a function of
//! its inputs, which is what lets the determinism of the whole pass be proved.

use vstd::prelude::*;

verus! {

/// Whether some entry of `s` has key `k`.
pub open spec fn a_contains<K, T>(s: Seq<(K, T)>, k: K) -> bool {
    exists|i: int| 0 <= i < s.len() && s[i].0 == k
}

/// Index of the first entry of `s` with key `k` (meaningful only when
/// `a_contains(s, k)` holds).
pub open spec fn a_first<K, T>(s: Seq<(K, T)>, k: K) -> int
    decreases s.len(),
{
    if s.len() == 0 {
        0
    } else if s[0].0 == k {
        0
    } else {
        1 + a_first(s.drop_first(), k)
    }
}

/// Value of the first entry of `s` with key `k`.
pub open spec fn a_get<K, T>(s: Seq<(K, T)>, k: K) -> T {
    s[a_first(s, k)].1
}

/// `s` with key `k` bound to `v`: updated in place if present, appended
/// otherwise.
pub open spec fn a_set<K, T>(s: Seq<(K, T)>, k: K, v: T) -> Seq<(K, T)> {
    if a_contains(s, k) {
        s.update(a_first(s, k), (k, v))
    } else {
        s.push((k, v))
    }
}

/// `s` without the first entry keyed `k` (unchanged if `k` is absent).
pub open spec fn a_remove<K, T>(s: Seq<(K, T)>, k: K) -> Seq<(K, T)> {
    if a_contains(s, k) {
        s.remove(a_first(s, k))
    } else {
        s
    }
}

/// All keys of `s` are distinct.
pub open spec fn a_no_dup<K, T>(s: Seq<(K, T)>) -> bool {
    forall|i: int, j: int| 0 <= i < j < s.len() ==> s[i].0 != s[j].0
}

/// When `k` occurs, `a_first` points at an occurrence and nothing before it
/// matches.
pub proof fn lemma_a_first_exists<K, T>(s: Seq<(K, T)>, k: K)
    requires
        a_contains(s, k),
    ensures
        0 <= a_first(s, k) < s.len(),
        s[a_first(s, k)].0 == k,
        forall|j: int| 0 <= j < a_first(s, k) ==> s[j].0 != k,
    decreases s.len(),
{
    if s.len() == 0 {
    } else if s[0].0 == k {
    } else {
        assert(a_contains(s.drop_first(), k)) by {
            let i = choose|i: int| 0 <= i < s.len() && s[i].0 == k;
            assert(s.drop_first()[i - 1] == s[i]);
        }
        lemma_a_first_exists(s.drop_first(), k);
        let f = a_first(s, k);
        assert(s[f] == s.drop_first()[f - 1]);
        assert forall|j: int| 0 <= j < f implies s[j].0 != k by {
            if j > 0 {
                assert(s[j] == s.drop_first()[j - 1]);
            }
        }
    }
}

/// `a_first` finds exactly the first occurrence.
pub proof fn lemma_a_first_at<K, T>(s: Seq<(K, T)>, k: K, i: int)
    requires
        0 <= i < s.len(),
        s[i].0 == k,
        forall|j: int| 0 <= j < i ==> s[j].0 != k,
    ensures
        a_contains(s, k),
        a_first(s, k) == i,
        a_get(s, k) == s[i].1,
    decreases s.len(),
{
    if i == 0 {
    } else {
        assert(s.drop_first()[i - 1] == s[i]);
        assert forall|j: int| 0 <= j < i - 1 implies s.drop_first()[j].0 != k by {
            assert(s.drop_first()[j] == s[j + 1]);
        }
        lemma_a_first_at(s.drop_first(), k, i - 1);
    }
}

/// Replacing or adding a binding keeps keys distinct.
pub proof fn lemma_a_set_no_dup<K, T>(s: Seq<(K, T)>, k: K, v: T)
    requires
        a_no_dup(s),
    ensures
        a_no_dup(a_set(s, k, v)),
{
    if a_contains(s, k) {
        lemma_a_first_exists(s, k);
    }
}

/// Removing a binding keeps keys distinct.
pub proof fn lemma_a_remove_no_dup<K, T>(s: Seq<(K, T)>, k: K)
    requires
        a_no_dup(s),
    ensures
        a_no_dup(a_remove(s, k)),
{
    if a_contains(s, k) {
        lemma_a_first_exists(s, k);
        let f = a_first(s, k);
        s.remove_ensures(f);
    }
}

/// Membership after an update: exactly the old keys plus `k`.
pub proof fn lemma_a_set_contains<K, T>(s: Seq<(K, T)>, k: K, v: T, k2: K)
    requires
        a_no_dup(s),
    ensures
        a_contains(a_set(s, k, v), k2) == (k2 == k || a_contains(s, k2)),
{
    let r = a_set(s, k, v);
    if a_contains(s, k) {
        lemma_a_first_exists(s, k);
        let f = a_first(s, k);
        if k2 == k {
            assert(r[f].0 == k2);
        } else if a_contains(s, k2) {
            let i = choose|i: int| 0 <= i < s.len() && s[i].0 == k2;
            assert(r[i].0 == k2);
        } else {
            assert forall|i: int| 0 <= i < r.len() implies r[i].0 != k2 by {
                if i != f {
                    assert(r[i] == s[i]);
                }
            }
        }
    } else {
        if k2 == k {
            assert(r[s.len() as int].0 == k2);
        } else if a_contains(s, k2) {
            let i = choose|i: int| 0 <= i < s.len() && s[i].0 == k2;
            assert(r[i].0 == k2);
        } else {
            assert forall|i: int| 0 <= i < r.len() implies r[i].0 != k2 by {
                if i < s.len() {
                    assert(r[i] == s[i]);
                }
            }
        }
    }
}

/// Lookup after an update: `k` yields `v`, other keys keep their value.
pub proof fn lemma_a_set_get<K, T>(s: Seq<(K, T)>, k: K, v: T, k2: K)
    requires
        a_no_dup(s),
        a_contains(a_set(s, k, v), k2),
    ensures
        a_get(a_set(s, k, v), k2) == if k2 == k {
            v
        } else {
            a_get(s, k2)
        },
{
    let r = a_set(s, k, v);
    if a_contains(s, k) {
        lemma_a_first_exists(s, k);
        let f = a_first(s, k);
        if k2 == k {
            assert forall|j: int| 0 <= j < f implies r[j].0 != k2 by {
                assert(r[j] == s[j]);
            }
            lemma_a_first_at(r, k2, f);
        } else {
            lemma_a_set_contains(s, k, v, k2);
            lemma_a_first_exists(s, k2);
            let i = a_first(s, k2);
            assert(i != f);
            assert(r[i] == s[i]);
            assert forall|j: int| 0 <= j < i implies r[j].0 != k2 by {
                if j != f {
                    assert(r[j] == s[j]);
                }
            }
            lemma_a_first_at(r, k2, i);
        }
    } else {
        let n = s.len() as int;
        if k2 == k {
            assert forall|j: int| 0 <= j < n implies r[j].0 != k2 by {
                assert(r[j] == s[j]);
            }
            assert(r[n].0 == k2);
            lemma_a_first_at(r, k2, n);
        } else {
            lemma_a_set_contains(s, k, v, k2);
            lemma_a_first_exists(s, k2);
            let i = a_first(s, k2);
            assert(r[i] == s[i]);
            assert forall|j: int| 0 <= j < i implies r[j].0 != k2 by {
                assert(r[j] == s[j]);
            }
            lemma_a_first_at(r, k2, i);
        }
    }
}

/// Membership after a removal: `k` is gone, other keys are untouched.
pub proof fn lemma_a_remove_contains<K, T>(s: Seq<(K, T)>, k: K, k2: K)
    requires
        a_no_dup(s),
    ensures
        a_contains(a_remove(s, k), k2) == (k2 != k && a_contains(s, k2)),
{
    let r = a_remove(s, k);
    if a_contains(s, k) {
        lemma_a_first_exists(s, k);
        let f = a_first(s, k);
        s.remove_ensures(f);
        if k2 == k {
            assert forall|i: int| 0 <= i < r.len() implies r[i].0 != k2 by {
                if i < f {
                    assert(r[i] == s[i]);
                } else {
                    assert(r[i] == s[i + 1]);
                }
            }
        } else if a_contains(s, k2) {
            let i = choose|i: int| 0 <= i < s.len() && s[i].0 == k2;
            assert(i != f);
            if i < f {
                assert(r[i].0 == k2);
            } else {
                assert(r[i - 1] == s[i]);
            }
        } else {
            assert forall|i: int| 0 <= i < r.len() implies r[i].0 != k2 by {
                if i < f {
                    assert(r[i] == s[i]);
                } else {
                    assert(r[i] == s[i + 1]);
                }
            }
        }
    }
}

/// Lookup after a removal: surviving keys keep their value.
pub proof fn lemma_a_remove_get<K, T>(s: Seq<(K, T)>, k: K, k2: K)
    requires
        a_no_dup(s),
        k2 != k,
        a_contains(s, k2),
    ensures
        a_contains(a_remove(s, k), k2),
        a_get(a_remove(s, k), k2) == a_get(s, k2),
{
    let r = a_remove(s, k);
    lemma_a_first_exists(s, k2);
    let i = a_first(s, k2);
    if a_contains(s, k) {
        lemma_a_first_exists(s, k);
        let f = a_first(s, k);
        s.remove_ensures(f);
        assert(i != f);
        if i < f {
            assert(r[i] == s[i]);
            assert forall|j: int| 0 <= j < i implies r[j].0 != k2 by {
                assert(r[j] == s[j]);
            }
            lemma_a_first_at(r, k2, i);
        } else {
            assert(r[i - 1] == s[i]);
            assert forall|j: int| 0 <= j < i - 1 implies r[j].0 != k2 by {
                if j < f {
                    assert(r[j] == s[j]);
                } else {
                    assert(r[j] == s[j + 1]);
                }
            }
            lemma_a_first_at(r, k2, i - 1);
        }
    }
}

/// Every entry after an update is either an old entry or the new binding.
pub proof fn lemma_a_set_entries<K, T>(s: Seq<(K, T)>, k: K, v: T)
    ensures
        a_set(s, k, v).len() == if a_contains(s, k) {
            s.len() as int
        } else {
            s.len() + 1 as int
        },
        forall|i: int|
            0 <= i < a_set(s, k, v).len() ==> #[trigger] a_set(s, k, v)[i] == (k, v) || (i
                < s.len() && a_set(s, k, v)[i] == s[i]),
{
    if a_contains(s, k) {
        lemma_a_first_exists(s, k);
    }
}

/// Every entry after a removal is an old entry: either the one at the same
/// position, or its right neighbour.
pub proof fn lemma_a_remove_entries<K, T>(s: Seq<(K, T)>, k: K)
    ensures
        a_remove(s, k).len() <= s.len(),
        forall|i: int|
            0 <= i < a_remove(s, k).len() ==> (0 <= i < s.len() && #[trigger] a_remove(s, k)[i]
                == s[i]) || (0 <= i + 1 < s.len() && a_remove(s, k)[i] == s[i + 1]),
{
    if a_contains(s, k) {
        lemma_a_first_exists(s, k);
        let f = a_first(s, k);
        s.remove_ensures(f);
    }
}

/// Membership in a sequence, split at its last element.
pub proof fn lemma_contains_drop_last<A>(s: Seq<A>, x: A)
    requires
        s.len() > 0,
    ensures
        s.contains(x) == (s.drop_last().contains(x) || s.last() == x),
{
    if s.contains(x) {
        let i = choose|i: int| 0 <= i < s.len() && s[i] == x;
        if i < s.len() - 1 {
            assert(s.drop_last()[i] == x);
        }
    }
    if s.drop_last().contains(x) {
        let i = choose|i: int| 0 <= i < s.drop_last().len() && s.drop_last()[i] == x;
        assert(s[i] == x);
    }
}

/// Index of the first occurrence of `x` in `s` (meaningful only when
/// `s.contains(x)`).
pub open spec fn e_first<A>(s: Seq<A>, x: A) -> int
    decreases s.len(),
{
    if s.len() == 0 {
        0
    } else if s[0] == x {
        0
    } else {
        1 + e_first(s.drop_first(), x)
    }
}

/// `s` without the first occurrence of `x` (unchanged if `x` is absent).
pub open spec fn e_remove<A>(s: Seq<A>, x: A) -> Seq<A> {
    if s.contains(x) {
        s.remove(e_first(s, x))
    } else {
        s
    }
}

/// All elements of `s` are distinct.
pub open spec fn e_no_dup<A>(s: Seq<A>) -> bool {
    forall|i: int, j: int| 0 <= i < j < s.len() ==> s[i] != s[j]
}

/// When `x` occurs, `e_first` points at an occurrence and nothing before it
/// matches.
pub proof fn lemma_e_first_exists<A>(s: Seq<A>, x: A)
    requires
        s.contains(x),
    ensures
        0 <= e_first(s, x) < s.len(),
        s[e_first(s, x)] == x,
        forall|j: int| 0 <= j < e_first(s, x) ==> s[j] != x,
    decreases s.len(),
{
    if s.len() == 0 {
    } else if s[0] == x {
    } else {
        assert(s.drop_first().contains(x)) by {
            let i = choose|i: int| 0 <= i < s.len() && s[i] == x;
            assert(s.drop_first()[i - 1] == s[i]);
        }
        lemma_e_first_exists(s.drop_first(), x);
        let f = e_first(s, x);
        assert(s[f] == s.drop_first()[f - 1]);
        assert forall|j: int| 0 <= j < f implies s[j] != x by {
            if j > 0 {
                assert(s[j] == s.drop_first()[j - 1]);
            }
        }
    }
}

/// `e_first` finds exactly the first occurrence.
pub proof fn lemma_e_first_at<A>(s: Seq<A>, x: A, i: int)
    requires
        0 <= i < s.len(),
        s[i] == x,
        forall|j: int| 0 <= j < i ==> s[j] != x,
    ensures
        s.contains(x),
        e_first(s, x) == i,
    decreases s.len(),
{
    if i == 0 {
    } else {
        assert(s.drop_first()[i - 1] == s[i]);
        assert forall|j: int| 0 <= j < i - 1 implies s.drop_first()[j] != x by {
            assert(s.drop_first()[j] == s[j + 1]);
        }
        lemma_e_first_at(s.drop_first(), x, i - 1);
    }
}

/// Removing an element keeps the rest distinct, and removes the element
/// entirely when elements were distinct.
pub proof fn lemma_e_remove_no_dup<A>(s: Seq<A>, x: A)
    requires
        e_no_dup(s),
    ensures
        e_no_dup(e_remove(s, x)),
        !e_remove(s, x).contains(x),
        forall|y: A| y != x ==> e_remove(s, x).contains(y) == s.contains(y),
{
    let r = e_remove(s, x);
    if s.contains(x) {
        lemma_e_first_exists(s, x);
        let f = e_first(s, x);
        s.remove_ensures(f);
        assert forall|i: int| 0 <= i < r.len() implies r[i] != x by {
            if i < f {
                assert(r[i] == s[i]);
            } else {
                assert(r[i] == s[i + 1]);
            }
        }
        assert forall|y: A| y != x implies r.contains(y) == s.contains(y) by {
            if s.contains(y) {
                let i = choose|i: int| 0 <= i < s.len() && s[i] == y;
                if i < f {
                    assert(r[i] == y);
                } else {
                    assert(i != f);
                    assert(r[i - 1] == s[i]);
                }
            }
            if r.contains(y) {
                let i = choose|i: int| 0 <= i < r.len() && r[i] == y;
                if i < f {
                    assert(s[i] == y);
                } else {
                    assert(s[i + 1] == y);
                }
            }
        }
    }
}

} // verus!
