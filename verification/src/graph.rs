//! The dependency graph walked to order contracts for analysis: an
//! adjacency-list digraph, a depth-first walker that visits every node
//! exactly once, and a cycle detector whose verdict depends only on the
//! graph and the set of nodes under consideration.

use vstd::prelude::*;
use crate::assoc::{e_first, e_no_dup, lemma_e_first_exists};
use vstd::set_lib::{lemma_int_range, lemma_len_subset, set_int_range};

verus! {

/// A digraph over the node indices `0 .. nodes_count()`.
#[derive(Debug)]
pub struct Graph {
    adjacency_list: Vec<Vec<usize>>,
}

impl View for Graph {
    type V = Seq<Seq<usize>>;

    closed spec fn view(&self) -> Seq<Seq<usize>> {
        self.adjacency_list@.map_values(|v: Vec<usize>| v@)
    }
}

impl Graph {
    /// Every edge's target is a node of the graph.
    pub open spec fn wf(&self) -> bool {
        forall|i: int, j: int|
            0 <= i < self@.len() && 0 <= j < self@[i].len() ==> #[trigger] self@[i][j]
                < self@.len()
    }

    pub fn new() -> (g: Graph)
        ensures
            g@ == Seq::<Seq<usize>>::empty(),
            g.wf(),
    {
        let g = Graph { adjacency_list: Vec::new() };
        proof {
            assert(g@ =~= Seq::<Seq<usize>>::empty());
        }
        g
    }

    /// Adds a node with no outgoing edges.
    pub fn add_node(&mut self, _expr_index: usize)
        ensures
            final(self)@ == old(self)@.push(Seq::<usize>::empty()),
            old(self).wf() ==> final(self).wf(),
    {
        let empty: Vec<usize> = Vec::new();
        self.adjacency_list.push(empty);
        proof {
            assert(final(self)@ =~= old(self)@.push(Seq::<usize>::empty()));
            if old(self).wf() {
                assert forall|i: int, j: int|
                    0 <= i < self@.len() && 0 <= j < self@[i].len() implies #[trigger] self@[i][j]
                    < self@.len() by {
                    if i < old(self)@.len() {
                        assert(self@[i] == old(self)@[i]);
                    }
                }
            }
        }
    }

    /// Adds the directed edge `src -> dst`. Both ends must already be
    /// nodes: a dangling edge target would make the walker run off the
    /// graph, and this library's functions do not panic.
    pub fn add_directed_edge(&mut self, src_expr_index: usize, dst_expr_index: usize)
        requires
            src_expr_index < old(self)@.len(),
            dst_expr_index < old(self)@.len(),
        ensures
            final(self)@ == old(self)@.update(
                src_expr_index as int,
                old(self)@[src_expr_index as int].push(dst_expr_index),
            ),
            old(self).wf() ==> final(self).wf(),
    {
        let ghost g0 = self@;
        let mut list = Vec::new();
        let taken = &mut self.adjacency_list[src_expr_index];
        core::mem::swap(&mut list, taken);
        list.push(dst_expr_index);
        self.adjacency_list.set(src_expr_index, list);
        proof {
            assert(final(self)@ =~= g0.update(
                src_expr_index as int,
                g0[src_expr_index as int].push(dst_expr_index),
            ));
            if old(self).wf() {
                assert forall|i: int, j: int|
                    0 <= i < self@.len() && 0 <= j < self@[i].len() implies #[trigger] self@[i][j]
                    < self@.len() by {
                    if i != src_expr_index {
                        assert(self@[i] == g0[i]);
                    } else {
                        if j < g0[i].len() {
                            assert(self@[i][j] == g0[i][j]);
                        }
                    }
                }
            }
        }
    }

    /// The targets of the node's outgoing edges, in insertion order.
    pub fn get_node_descendants(&self, expr_index: usize) -> (r: Vec<usize>)
        requires
            expr_index < self@.len(),
        ensures
            r@ == self@[expr_index as int],
    {
        let src = &self.adjacency_list[expr_index];
        let mut r: Vec<usize> = Vec::new();
        let n = src.len();
        let mut i: usize = 0;
        while i < n
            invariant
                i <= n,
                n == src@.len(),
                src@ == self@[expr_index as int],
                r@ == src@.take(i as int),
            decreases n - i,
        {
            r.push(src[i]);
            proof {
                assert(r@ =~= src@.take(i as int + 1));
            }
            i += 1;
        }
        proof {
            assert(src@.take(n as int) =~= src@);
        }
        r
    }

    /// Whether the node has any outgoing edge.
    pub fn has_node_descendants(&self, expr_index: usize) -> (r: bool)
        requires
            expr_index < self@.len(),
        ensures
            r == (self@[expr_index as int].len() > 0),
    {
        self.adjacency_list[expr_index].len() > 0
    }

    /// The number of nodes.
    pub fn nodes_count(&self) -> (n: usize)
        ensures
            n == self@.len(),
    {
        self.adjacency_list.len()
    }
}

/// A duplicate-free sequence of node indices all below `n` has at most `n`
/// elements.
proof fn lemma_distinct_nodes_bound(s: Seq<usize>, n: int)
    requires
        e_no_dup(s),
        n >= 0,
        forall|i: int| 0 <= i < s.len() ==> (s[i] as int) < n,
    ensures
        s.len() <= n,
{
    let si = s.map_values(|x: usize| x as int);
    assert(si.no_duplicates()) by {
        assert forall|i: int, j: int|
            0 <= i < si.len() && 0 <= j < si.len() && i != j implies si[i] != si[j] by {
            if i < j {
                assert(s[i] != s[j]);
            } else {
                assert(s[j] != s[i]);
            }
        }
    }
    si.unique_seq_to_set();
    lemma_int_range(0, n);
    assert(si.to_set().subset_of(set_int_range(0, n))) by {
        assert forall|x: int| si.to_set().contains(x) implies set_int_range(0, n).contains(
            x,
        ) by {
            let i = choose|i: int| 0 <= i < si.len() && si[i] == x;
            assert((s[i] as int) < n);
        }
    }
    lemma_len_subset(si.to_set(), set_int_range(0, n));
}

/// The depth-first walker that produces a post-order of the graph:
/// a node is emitted only after everything reachable from it.
#[derive(Debug)]
pub struct GraphWalker {
    seen: Vec<usize>,
}

impl GraphWalker {
    /// The visited set: duplicate-free, and within the node range `0..n`.
    pub closed spec fn seen_set(&self) -> Seq<usize> {
        self.seen@
    }

    pub open spec fn inv(&self, n: int) -> bool {
        e_no_dup(self.seen_set()) && forall|i: int|
            0 <= i < self.seen_set().len() ==> (#[trigger] self.seen_set()[i] as int) < n
    }

    pub fn new() -> (w: GraphWalker)
        ensures
            w.seen_set() == Seq::<usize>::empty(),
    {
        GraphWalker { seen: Vec::new() }
    }

    /// Whether the node was already visited.
    fn seen_contains(&self, x: usize) -> (r: bool)
        ensures
            r == self.seen_set().contains(x),
    {
        let n = self.seen.len();
        let mut i: usize = 0;
        while i < n
            invariant
                i <= n,
                n == self.seen@.len(),
                forall|j: int| 0 <= j < i ==> self.seen@[j] != x,
            decreases n - i,
        {
            if self.seen[i] == x {
                return true;
            }
            i += 1;
        }
        false
    }

    /// Visits everything reachable from `tle_index` depth-first, appending
    /// each newly visited node to `branch` exactly once, `tle_index` itself
    /// (if not seen before) last. The appended nodes are closed under the
    /// graph's edges: every edge target of an appended node is visited by
    /// the time the call returns.
    pub fn sort_dependencies_recursion(
        &mut self,
        tle_index: usize,
        graph: &Graph,
        branch: &mut Vec<usize>,
    )
        requires
            graph.wf(),
            tle_index < graph@.len(),
            old(self).inv(graph@.len() as int),
            e_no_dup(old(branch)@),
            forall|x: usize|
                #[trigger] old(branch)@.contains(x) ==> old(self).seen_set().contains(x),
        ensures
            e_no_dup(final(branch)@),
            forall|x: usize|
                #[trigger] final(branch)@.contains(x) ==> final(self).seen_set().contains(x),
            forall|t: int, j: int|
                old(branch)@.len() <= t < final(branch)@.len()
                    && 0 <= j < graph@[final(branch)@[t] as int].len()
                    ==> final(self).seen_set().contains(
                    #[trigger] graph@[final(branch)@[t] as int][j],
                ),
            final(self).inv(graph@.len() as int),
            final(self).seen_set().len() >= old(self).seen_set().len(),
            forall|x: usize|
                old(self).seen_set().contains(x) ==> final(self).seen_set().contains(x),
            forall|x: usize|
                #[trigger] final(self).seen_set().contains(x) ==> old(self).seen_set().contains(x)
                    || (x as int) < graph@.len(),
            final(self).seen_set().contains(tle_index),
            final(branch)@.len() >= old(branch)@.len(),
            final(branch)@.take(old(branch)@.len() as int) == old(branch)@,
            forall|x: usize|
                #[trigger] final(branch)@.contains(x) == (old(branch)@.contains(x)
                    || (final(self).seen_set().contains(x)
                    && !old(self).seen_set().contains(x))),
            !old(self).seen_set().contains(tle_index)
                ==> final(branch)@.len() > old(branch)@.len()
                    && final(branch)@.last() == tle_index,
        decreases graph@.len() - old(self).seen_set().len(), 1int,
    {
        proof {
            lemma_distinct_nodes_bound(self.seen@, graph@.len() as int);
        }
        if self.seen_contains(tle_index) {
            proof {
                assert(branch@.take(branch@.len() as int) =~= branch@);
            }
            return;
        }
        self.seen.push(tle_index);
        proof {
            assert(self.seen@.last() == tle_index);
            assert(self.seen@.contains(tle_index));
            assert forall|i: int, j: int|
                0 <= i < j < self.seen@.len() implies self.seen@[i] != self.seen@[j] by {
                if j < old(self).seen@.len() {
                } else {
                    assert(self.seen@[j] == tle_index);
                    if i < old(self).seen@.len() {
                        assert(old(self).seen@[i] == self.seen@[i]);
                        if self.seen@[i] == tle_index {
                            assert(old(self).seen@.contains(tle_index));
                        }
                    }
                }
            }
            assert forall|x: usize|
                old(self).seen_set().contains(x) implies self.seen@.contains(x) by {
                let t = choose|t: int|
                    0 <= t < old(self).seen@.len() && old(self).seen@[t] == x;
                assert(self.seen@[t] == x);
            }
            assert forall|x: usize|
                #[trigger] self.seen@.contains(x) implies old(self).seen_set().contains(x) || x
                    == tle_index by {
                let t = choose|t: int| 0 <= t < self.seen@.len() && self.seen@[t] == x;
                if t < old(self).seen@.len() {
                    assert(old(self).seen@[t] == x);
                }
            }
        }
        let ghost seen1 = self.seen@;
        let ghost b0 = branch@;
        let deps = graph.get_node_descendants(tle_index);
        let n = deps.len();
        let mut i: usize = 0;
        while i < n
            invariant
                i <= n,
                n == deps@.len(),
                graph.wf(),
                deps@ == graph@[tle_index as int],
                tle_index < graph@.len(),
                self.inv(graph@.len() as int),
                self.seen_set().len() >= seen1.len(),
                seen1.len() == old(self).seen_set().len() + 1,
                forall|x: usize| seen1.contains(x) ==> self.seen_set().contains(x),
                forall|x: usize|
                    #[trigger] self.seen_set().contains(x) ==> seen1.contains(x) || (x as int)
                        < graph@.len(),
                forall|x: usize| old(self).seen_set().contains(x) ==> seen1.contains(x),
                forall|x: usize|
                    #[trigger] seen1.contains(x) ==> old(self).seen_set().contains(x) || x
                        == tle_index,
                seen1.contains(tle_index),
                !old(self).seen_set().contains(tle_index),
                branch@.len() >= b0.len(),
                branch@.take(b0.len() as int) == b0,
                forall|x: usize|
                    #[trigger] branch@.contains(x) == (b0.contains(x) || (
                    self.seen_set().contains(x) && !seen1.contains(x))),
                e_no_dup(branch@),
                forall|x: usize|
                    #[trigger] branch@.contains(x) ==> self.seen_set().contains(x),
                forall|t: int, j: int|
                    b0.len() <= t < branch@.len() && 0 <= j < graph@[branch@[t] as int].len()
                        ==> self.seen_set().contains(#[trigger] graph@[branch@[t] as int][j]),
                forall|jj: int| 0 <= jj < i ==> self.seen_set().contains(#[trigger] deps@[jj]),
                e_no_dup(b0),
                forall|x: usize| #[trigger] b0.contains(x) ==> old(self).seen_set().contains(x),
            decreases graph@.len() - old(self).seen_set().len(), 0int, n - i,
        {
            let ghost seen_before = self.seen@;
            let ghost b_before = branch@;
            proof {
                lemma_distinct_nodes_bound(self.seen@, graph@.len() as int);
                assert(deps@[i as int] < graph@.len());
            }
            self.sort_dependencies_recursion(deps[i], graph, branch);
            proof {
                assert(branch@.take(b0.len() as int) =~= b0) by {
                    assert(branch@.take(b_before.len() as int) == b_before);
                    assert forall|t: int| 0 <= t < b0.len() implies branch@.take(
                        b0.len() as int,
                    )[t] == b0[t] by {
                        assert(branch@.take(b_before.len() as int)[t] == b_before[t]);
                        assert(b_before.take(b0.len() as int)[t] == b0[t]);
                    }
                }
                assert forall|t: int, j: int|
                    b0.len() <= t < branch@.len() && 0 <= j < graph@[branch@[t] as int].len()
                        implies self.seen_set().contains(
                        #[trigger] graph@[branch@[t] as int][j],
                    ) by {
                    if t < b_before.len() {
                        assert(branch@.take(b_before.len() as int)[t] == b_before[t]);
                        assert(branch@[t] == b_before[t]);
                        assert(seen_before.contains(graph@[b_before[t] as int][j]));
                    }
                }
            }
            i += 1;
        }
        let ghost b1 = branch@;
        branch.push(tle_index);
        proof {
            assert(branch@.last() == tle_index);
            assert(branch@.take(b0.len() as int) =~= b0) by {
                assert forall|t: int| 0 <= t < b0.len() implies branch@.take(b0.len() as int)[t]
                    == b0[t] by {
                    assert(branch@[t] == b1[t]);
                    assert(b1.take(b0.len() as int)[t] == b0[t]);
                }
            }
            assert forall|x: usize|
                #[trigger] branch@.contains(x) == (b0.contains(x) || (
                self.seen_set().contains(x) && !old(self).seen_set().contains(x))) by {
                let lhs = branch@.contains(x);
                if branch@.contains(x) {
                    let t = choose|t: int| 0 <= t < branch@.len() && branch@[t] == x;
                    if t < b1.len() {
                        assert(b1[t] == x);
                        assert(b1.contains(x));
                    } else {
                        assert(x == tle_index);
                    }
                }
                if b1.contains(x) {
                    let t = choose|t: int| 0 <= t < b1.len() && b1[t] == x;
                    assert(branch@[t] == x);
                    assert(branch@.contains(x));
                }
                if x == tle_index {
                    assert(branch@[branch@.len() - 1] == x);
                    assert(branch@.contains(x));
                }
            }
            assert(!b1.contains(tle_index)) by {
                if b1.contains(tle_index) {
                    assert(b0.contains(tle_index) || (self.seen_set().contains(tle_index)
                        && !seen1.contains(tle_index)));
                    assert(old(self).seen_set().contains(tle_index));
                }
            }
            assert forall|a: int, b: int|
                0 <= a < b < branch@.len() implies branch@[a] != branch@[b] by {
                if b < b1.len() {
                } else {
                    assert(branch@[b] == tle_index);
                    if a < b1.len() {
                        assert(branch@[a] == b1[a]);
                        if b1[a] == tle_index {
                            assert(b1.contains(tle_index));
                        }
                    }
                }
            }
            assert forall|x: usize|
                #[trigger] branch@.contains(x) implies self.seen_set().contains(x) by {
                let t = choose|t: int| 0 <= t < branch@.len() && branch@[t] == x;
                if t < b1.len() {
                    assert(b1[t] == x);
                    assert(b1.contains(x));
                } else {
                    assert(x == tle_index);
                }
            }
            assert forall|t: int, j: int|
                b0.len() <= t < branch@.len() && 0 <= j < graph@[branch@[t] as int].len()
                    implies self.seen_set().contains(
                    #[trigger] graph@[branch@[t] as int][j],
                ) by {
                if t < b1.len() {
                    assert(branch@[t] == b1[t]);
                } else {
                    assert(branch@[t] == tle_index);
                    assert(graph@[tle_index as int][j] == deps@[j]);
                }
            }
        }
    }

    /// Walks every node depth-first and returns the visit order: each node
    /// of the graph exactly once, a node appended only after everything
    /// reachable from it has been visited.
    pub fn get_sorted_dependencies(&mut self, graph: &Graph) -> (r: Vec<usize>)
        requires
            graph.wf(),
            old(self).seen_set() == Seq::<usize>::empty(),
        ensures
            e_no_dup(r@),
            r@.len() == graph@.len(),
            forall|x: usize| r@.contains(x) == ((x as int) < graph@.len()),
    {
        let mut branch: Vec<usize> = Vec::new();
        let n = graph.nodes_count();
        let mut i: usize = 0;
        while i < n
            invariant
                i <= n,
                n == graph@.len(),
                graph.wf(),
                self.inv(n as int),
                e_no_dup(branch@),
                forall|x: usize| branch@.contains(x) == self.seen_set().contains(x),
                forall|x: usize| (x as int) < i ==> self.seen_set().contains(x),
                forall|x: usize| #[trigger] self.seen_set().contains(x) ==> (x as int) < n,
            decreases n - i,
        {
            let ghost bprev = branch@;
            let ghost sprev = self.seen@;
            proof {
                assert forall|x: usize| #[trigger] branch@.contains(x) implies
                    self.seen_set().contains(x) by {}
            }
            self.sort_dependencies_recursion(i, graph, &mut branch);
            proof {
                assert forall|x: usize|
                    branch@.contains(x) == self.seen_set().contains(x) by {
                    if branch@.contains(x) {
                        let t = choose|t: int| 0 <= t < branch@.len() && branch@[t] == x;
                        if t < bprev.len() {
                            assert(branch@.take(bprev.len() as int)[t] == x);
                            assert(bprev.contains(x));
                        } else {
                            assert(branch@.skip(bprev.len() as int)[t - bprev.len()] == x);
                            assert(branch@.skip(bprev.len() as int).contains(x));
                        }
                    }
                    if self.seen_set().contains(x) {
                        if sprev.contains(x) {
                            assert(bprev.contains(x));
                            let t = choose|t: int| 0 <= t < bprev.len() && bprev[t] == x;
                            assert(branch@.take(bprev.len() as int)[t] == bprev[t]);
                            assert(branch@[t] == x);
                        } else {
                            assert(branch@.skip(bprev.len() as int).contains(x));
                            let t = choose|t: int|
                                0 <= t < branch@.skip(bprev.len() as int).len() && branch@.skip(
                                    bprev.len() as int,
                                )[t] == x;
                            assert(branch@[bprev.len() + t] == x);
                        }
                    }
                }
            }
            i += 1;
        }
        proof {
            let q = Seq::<int>::new(branch@.len(), |t: int| branch@[t] as int);
            assert(q.no_duplicates()) by {
                assert forall|a: int, b: int|
                    0 <= a < q.len() && 0 <= b < q.len() && a != b implies q[a] != q[b] by {
                    if a < b {
                        assert(branch@[a] != branch@[b]);
                    } else {
                        assert(branch@[b] != branch@[a]);
                    }
                }
            }
            assert forall|t: int| 0 <= t < q.len() implies 0 <= #[trigger] q[t] < n by {
                assert(branch@.contains(branch@[t]));
            }
            lemma_distinct_ints_bound(q, n as int);
            let q2 = Seq::<int>::new(n as nat, |k: int| e_first(branch@, k as usize));
            assert forall|k: int| 0 <= k < n implies branch@.contains((k as usize)) && 0
                <= #[trigger] q2[k] < branch@.len() && branch@[q2[k]] == k as usize by {
                assert(((k as usize) as int) < n);
                lemma_e_first_exists(branch@, k as usize);
            }
            assert(q2.no_duplicates()) by {
                assert forall|a: int, b: int|
                    0 <= a < q2.len() && 0 <= b < q2.len() && a != b implies q2[a] != q2[b] by {
                    assert(branch@[q2[a]] == a as usize);
                    assert(branch@[q2[b]] == b as usize);
                }
            }
            lemma_distinct_ints_bound(q2, branch@.len() as int);
        }
        branch
    }

    /// Detects cycles among the given nodes. A node of the list is marked
    /// *clean* once every target of its outgoing edges that lies in the
    /// list is already clean; passes repeat until nothing changes. A node
    /// stays dirty exactly when a walk from it inside the list can revisit
    /// a node — that is, when it reaches a cycle. Returns the dirty nodes
    /// (in the list's order), or nothing when the subgraph of `graph`
    /// restricted to the given nodes has no cycle at all; the answer
    /// depends only on the graph and the set of given nodes, not on their
    /// order.
    #[verifier::rlimit(100)]
    pub fn get_cycling_dependencies(
        &mut self,
        graph: &Graph,
        sorted_indexes: &Vec<usize>,
    ) -> (r: Option<Vec<usize>>)
        requires
            graph.wf(),
            e_no_dup(sorted_indexes@),
            forall|i: int|
                0 <= i < sorted_indexes@.len() ==> (#[trigger] sorted_indexes@[i] as int)
                    < graph@.len(),
        ensures
            match r {
                None => !has_cycle_in(graph@, sorted_indexes@),
                Some(ds) => {
                    &&& has_cycle_in(graph@, sorted_indexes@)
                    &&& e_no_dup(ds@)
                    &&& forall|x: usize|
                        #[trigger] ds@.contains(x) == (sorted_indexes@.contains(x)
                            && reaches_cycle_in(graph@, sorted_indexes@, x))
                },
            },
    {
        let ghost s = sorted_indexes@;
        let ghost g = graph@;
        let n = sorted_indexes.len();
        let mut clean: Vec<usize> = Vec::new();
        let mut changed = true;
        while changed
            invariant
                n == s.len(),
                s == sorted_indexes@,
                g == graph@,
                graph.wf(),
                e_no_dup(s),
                forall|i: int| 0 <= i < s.len() ==> (#[trigger] s[i] as int) < g.len(),
                e_no_dup(clean@),
                clean@.len() <= s.len(),
                forall|x: usize| #[trigger] clean@.contains(x) ==> s.contains(x),
                clean_prefix_closed(g, s, clean@),
                !changed ==> stuck_s(g, s, clean@),
            decreases s.len() - clean@.len(), (if changed {
                1int
            } else {
                0
            }),
        {
            changed = false;
            let ghost clean0 = clean@;
            let mut idx: usize = 0;
            while idx < n
                invariant
                    idx <= n,
                    n == s.len(),
                    s == sorted_indexes@,
                    g == graph@,
                    graph.wf(),
                    e_no_dup(s),
                    forall|i: int| 0 <= i < s.len() ==> (#[trigger] s[i] as int) < g.len(),
                    e_no_dup(clean@),
                    clean@.len() <= s.len(),
                    forall|x: usize| #[trigger] clean@.contains(x) ==> s.contains(x),
                    clean_prefix_closed(g, s, clean@),
                    clean@.len() >= clean0.len(),
                    changed ==> clean@.len() > clean0.len(),
                    !changed ==> clean@ == clean0,
                    !changed ==> forall|t: int|
                        0 <= t < idx && !clean@.contains(#[trigger] s[t]) ==> exists|j: int|
                            0 <= j < g[s[t] as int].len() && s.contains(
                                #[trigger] g[s[t] as int][j],
                            ) && !clean@.contains(g[s[t] as int][j]),
                decreases n - idx,
            {
                let u = sorted_indexes[idx];
                if !vec_contains(&clean, u) {
                    let deps = graph.get_node_descendants(u);
                    let dn = deps.len();
                    let mut all_clean = true;
                    let mut j: usize = 0;
                    while j < dn
                        invariant
                            j <= dn,
                            dn == deps@.len(),
                            s == sorted_indexes@,
                            deps@ == g[u as int],
                            all_clean ==> forall|t: int|
                                0 <= t < j && s.contains(#[trigger] deps@[t])
                                    ==> clean@.contains(deps@[t]),
                            !all_clean ==> exists|t: int|
                                0 <= t < dn && s.contains(#[trigger] deps@[t])
                                    && !clean@.contains(deps@[t]),
                        decreases dn - j,
                    {
                        let v = deps[j];
                        if vec_contains(sorted_indexes, v) && !vec_contains(&clean, v) {
                            all_clean = false;
                        }
                        j += 1;
                    }
                    if all_clean {
                        let ghost cprev = clean@;
                        clean.push(u);
                        changed = true;
                        proof {
                            assert(clean@.last() == u);
                            assert forall|x: usize| #[trigger] clean@.contains(x) implies
                                s.contains(x) by {
                                let t = choose|t: int|
                                    0 <= t < clean@.len() && clean@[t] == x;
                                if t < cprev.len() {
                                    assert(cprev[t] == x);
                                    assert(cprev.contains(x));
                                } else {
                                    assert(x == u);
                                    assert(s[idx as int] == u);
                                }
                            }
                            assert forall|a: int, b: int|
                                0 <= a < b < clean@.len() implies clean@[a] != clean@[b] by {
                                if b < cprev.len() {
                                } else {
                                    assert(clean@[b] == u);
                                    if a < cprev.len() {
                                        assert(clean@[a] == cprev[a]);
                                        if cprev[a] == u {
                                            assert(cprev.contains(u));
                                        }
                                    }
                                }
                            }
                            lemma_members_bound(clean@, s);
                            assert(clean_prefix_closed(g, s, clean@)) by {
                                assert forall|k: int, jj: int|
                                    0 <= k < clean@.len() && 0 <= jj < g[clean@[k] as int].len()
                                        && s.contains(#[trigger] g[clean@[k] as int][jj]) implies
                                    clean@.take(k).contains(g[clean@[k] as int][jj]) by {
                                    if k < cprev.len() {
                                        assert(clean@[k] == cprev[k]);
                                        assert(cprev.take(k).contains(g[cprev[k] as int][jj]));
                                        assert(clean@.take(k) =~= cprev.take(k));
                                    } else {
                                        assert(clean@[k] == u);
                                        assert(s.contains(g[u as int][jj]));
                                        assert(cprev.contains(g[u as int][jj]));
                                        assert(clean@.take(k) =~= cprev);
                                    }
                                }
                            }
                        }
                    }
                }
                idx += 1;
            }
        }
        proof {
            assert(stuck_s(g, s, clean@));
        }
        if clean.len() == n {
            proof {
                lemma_full_cover(clean@, s);
                lemma_no_cycle_when_closed(g, s, clean@);
            }
            return None;
        }
        let mut ds: Vec<usize> = Vec::new();
        let mut i2: usize = 0;
        while i2 < n
            invariant
                i2 <= n,
                n == s.len(),
                s == sorted_indexes@,
                ds@ == leftover_s(s.take(i2 as int), clean@),
            decreases n - i2,
        {
            if !vec_contains(&clean, sorted_indexes[i2]) {
                ds.push(sorted_indexes[i2]);
            }
            proof {
                assert(s.take(i2 as int + 1).drop_last() =~= s.take(i2 as int));
                assert(s.take(i2 as int + 1).last() == s[i2 as int]);
                if !clean@.contains(s[i2 as int]) {
                    assert(ds@ =~= leftover_s(s.take(i2 as int + 1), clean@));
                }
            }
            i2 += 1;
        }
        proof {
            assert(s.take(n as int) =~= s);
            lemma_leftover_props(s, clean@);
            // some node is dirty, because the clean list is too short to
            // cover the duplicate-free node list
            assert(exists|t: int| 0 <= t < s.len() && !clean@.contains(#[trigger] s[t])) by {
                if forall|t: int| 0 <= t < s.len() ==> clean@.contains(#[trigger] s[t]) {
                    assert forall|x: usize| s.contains(x) implies clean@.contains(x) by {
                        let t = choose|t: int| 0 <= t < s.len() && s[t] == x;
                    }
                    lemma_members_bound(s, clean@);
                    assert(false);
                }
            }
            let t0 = choose|t: int| 0 <= t < s.len() && !clean@.contains(#[trigger] s[t]);
            lemma_stuck_reaches(g, s, clean@, s[t0]);
            lemma_reach_has_cycle(g, s, s[t0]);
            assert forall|x: usize|
                #[trigger] ds@.contains(x) == (s.contains(x) && reaches_cycle_in(g, s, x)) by {
                if s.contains(x) {
                    if clean@.contains(x) {
                        lemma_clean_no_reach(g, s, clean@, x);
                    } else {
                        lemma_stuck_reaches(g, s, clean@, x);
                    }
                }
            }
        }
        Some(ds)
    }
}

/// Membership in a plain vector of node indices.
fn vec_contains(v: &Vec<usize>, x: usize) -> (r: bool)
    ensures
        r == v@.contains(x),
{
    let n = v.len();
    let mut i: usize = 0;
    while i < n
        invariant
            i <= n,
            n == v@.len(),
            forall|j: int| 0 <= j < i ==> v@[j] != x,
        decreases n - i,
    {
        if v[i] == x {
            return true;
        }
        i += 1;
    }
    false
}

/// The walk `p` takes an edge of `g` at position `i`.
pub open spec fn path_step(g: Seq<Seq<usize>>, p: Seq<usize>, i: int) -> bool {
    g[p[i] as int].contains(p[i + 1])
}

/// A walk inside the node list `s`: at least one node, every node a member
/// of `s`, every consecutive pair an edge of `g`.
pub open spec fn is_path_in(g: Seq<Seq<usize>>, s: Seq<usize>, p: Seq<usize>) -> bool {
    &&& p.len() >= 1
    &&& forall|i: int| 0 <= i < p.len() ==> s.contains(#[trigger] p[i])
    &&& forall|i: int| 0 <= i < p.len() - 1 ==> #[trigger] path_step(g, p, i)
}

/// The subgraph of `g` restricted to the nodes of `s` has a cycle.
pub open spec fn has_cycle_in(g: Seq<Seq<usize>>, s: Seq<usize>) -> bool {
    exists|p: Seq<usize>|
        is_path_in(g, s, p) && p.len() >= 2 && p[0] == p[p.len() - 1]
}

/// Some walk from `u` inside `s` revisits a node: `u` reaches a cycle of
/// the restricted subgraph.
pub open spec fn reaches_cycle_in(g: Seq<Seq<usize>>, s: Seq<usize>, u: usize) -> bool {
    exists|p: Seq<usize>|
        is_path_in(g, s, p) && p[0] == u && (exists|i: int, j: int|
            0 <= i < j < p.len() && p[i] == p[j])
}

/// Every in-list edge target of a cleaned node was cleaned strictly
/// earlier.
pub open spec fn clean_prefix_closed(
    g: Seq<Seq<usize>>,
    s: Seq<usize>,
    clean: Seq<usize>,
) -> bool {
    forall|k: int, j: int|
        0 <= k < clean.len() && 0 <= j < g[clean[k] as int].len() && s.contains(
            #[trigger] g[clean[k] as int][j],
        ) ==> clean.take(k).contains(g[clean[k] as int][j])
}

/// A saturated clean list: every dirty member of `s` keeps a dirty in-list
/// edge target.
pub open spec fn stuck_s(g: Seq<Seq<usize>>, s: Seq<usize>, clean: Seq<usize>) -> bool {
    forall|t: int|
        0 <= t < s.len() && !clean.contains(#[trigger] s[t]) ==> exists|j: int|
            0 <= j < g[s[t] as int].len() && s.contains(#[trigger] g[s[t] as int][j])
            && !clean.contains(g[s[t] as int][j])
}

/// The elements of `order` that are not in `clean`, in order.
pub open spec fn leftover_s(order: Seq<usize>, clean: Seq<usize>) -> Seq<usize>
    decreases order.len(),
{
    if order.len() == 0 {
        Seq::empty()
    } else {
        let acc = leftover_s(order.drop_last(), clean);
        if clean.contains(order.last()) {
            acc
        } else {
            acc.push(order.last())
        }
    }
}

/// The leftover holds exactly the dirty members, without duplicates when
/// the order had none.
proof fn lemma_leftover_props(order: Seq<usize>, clean: Seq<usize>)
    ensures
        forall|x: usize|
            #[trigger] leftover_s(order, clean).contains(x) == (order.contains(x)
                && !clean.contains(x)),
        e_no_dup(order) ==> e_no_dup(leftover_s(order, clean)),
    decreases order.len(),
{
    if order.len() == 0 {
        assert forall|x: usize|
            #[trigger] leftover_s(order, clean).contains(x) == (order.contains(x)
                && !clean.contains(x)) by {
            if leftover_s(order, clean).contains(x) {
                let t = choose|t: int|
                    0 <= t < leftover_s(order, clean).len() && leftover_s(order, clean)[t] == x;
            }
            if order.contains(x) {
                let t = choose|t: int| 0 <= t < order.len() && order[t] == x;
            }
        }
    } else {
        let d = order.drop_last();
        let last = order.last();
        lemma_leftover_props(d, clean);
        let acc = leftover_s(d, clean);
        let r = leftover_s(order, clean);
        assert forall|x: usize|
            #[trigger] r.contains(x) == (order.contains(x) && !clean.contains(x)) by {
            lemma_contains_drop_last_usize(order, x);
            if clean.contains(last) {
                assert(r == acc);
            } else {
                assert(r == acc.push(last));
                if r.contains(x) {
                    let t = choose|t: int| 0 <= t < r.len() && r[t] == x;
                    if t < acc.len() {
                        assert(acc[t] == x);
                        assert(acc.contains(x));
                    } else {
                        assert(x == last);
                    }
                }
                if acc.contains(x) {
                    let t = choose|t: int| 0 <= t < acc.len() && acc[t] == x;
                    assert(r[t] == x);
                }
                if x == last {
                    assert(r[r.len() - 1] == x);
                }
            }
        }
        if e_no_dup(order) {
            assert(e_no_dup(d)) by {
                assert forall|a: int, b: int| 0 <= a < b < d.len() implies d[a] != d[b] by {
                    assert(d[a] == order[a] && d[b] == order[b]);
                }
            }
            assert(!d.contains(last)) by {
                if d.contains(last) {
                    let t = choose|t: int| 0 <= t < d.len() && d[t] == last;
                    assert(order[t] == order[order.len() - 1]);
                }
            }
            if !clean.contains(last) {
                assert forall|a: int, b: int|
                    0 <= a < b < r.len() implies r[a] != r[b] by {
                    if b < acc.len() {
                    } else {
                        assert(r[b] == last);
                        if a < acc.len() {
                            assert(r[a] == acc[a]);
                            if acc[a] == last {
                                assert(acc.contains(last));
                                assert(d.contains(last));
                            }
                        }
                    }
                }
            }
        }
    }
}

/// Membership in a sequence of node indices, split at its last element.
proof fn lemma_contains_drop_last_usize(s: Seq<usize>, x: usize)
    requires
        s.len() > 0,
    ensures
        s.contains(x) == (s.drop_last().contains(x) || s.last() == x),
{
    if s.contains(x) {
        let i = choose|i: int| 0 <= i < s.len() && s[i] == x;
        if i < s.len() - 1 {
            assert(s.drop_last()[i] == x);
        }
    }
    if s.drop_last().contains(x) {
        let i = choose|i: int| 0 <= i < s.drop_last().len() && s.drop_last()[i] == x;
        assert(s[i] == x);
    }
}

/// Distinct integers below `n` number at most `n`.
proof fn lemma_distinct_ints_bound(q: Seq<int>, n: int)
    requires
        n >= 0,
        q.no_duplicates(),
        forall|i: int| 0 <= i < q.len() ==> 0 <= #[trigger] q[i] < n,
    ensures
        q.len() <= n,
{
    q.unique_seq_to_set();
    lemma_int_range(0, n);
    assert(q.to_set().subset_of(set_int_range(0, n))) by {
        assert forall|x: int| q.to_set().contains(x) implies set_int_range(0, n).contains(
            x,
        ) by {
            let i = choose|i: int| 0 <= i < q.len() && q[i] == x;
        }
    }
    lemma_len_subset(q.to_set(), set_int_range(0, n));
}

/// A duplicate-free sequence whose members all occur in `s` is no longer
/// than `s`.
proof fn lemma_members_bound(c: Seq<usize>, s: Seq<usize>)
    requires
        e_no_dup(c),
        forall|x: usize| #[trigger] c.contains(x) ==> s.contains(x),
    ensures
        c.len() <= s.len(),
{
    let q = Seq::<int>::new(c.len(), |i: int| e_first(s, c[i]));
    assert forall|i: int| 0 <= i < c.len() implies s.contains(c[i]) && 0 <= #[trigger] q[i]
        < s.len() && s[q[i]] == c[i] by {
        assert(c.contains(c[i]));
        lemma_e_first_exists(s, c[i]);
    }
    assert(q.no_duplicates()) by {
        assert forall|i: int, j: int|
            0 <= i < q.len() && 0 <= j < q.len() && i != j implies q[i] != q[j] by {
            if i < j {
                assert(c[i] != c[j]);
                assert(s[q[i]] == c[i] && s[q[j]] == c[j]);
            } else {
                assert(c[j] != c[i]);
                assert(s[q[i]] == c[i] && s[q[j]] == c[j]);
            }
        }
    }
    lemma_distinct_ints_bound(q, s.len() as int);
}

/// Duplicate-free lists of equal length with one inside the other cover
/// the same members.
proof fn lemma_full_cover(c: Seq<usize>, s: Seq<usize>)
    requires
        e_no_dup(c),
        e_no_dup(s),
        forall|x: usize| #[trigger] c.contains(x) ==> s.contains(x),
        c.len() == s.len(),
    ensures
        forall|x: usize| #[trigger] s.contains(x) ==> c.contains(x),
{
    assert forall|x: usize| #[trigger] s.contains(x) implies c.contains(x) by {
        if !c.contains(x) {
            let t = choose|t: int| 0 <= t < s.len() && s[t] == x;
            let s2 = s.remove(t);
            s.remove_ensures(t);
            assert forall|y: usize| #[trigger] c.contains(y) implies s2.contains(y) by {
                assert(s.contains(y));
                let ti = choose|ti: int| 0 <= ti < s.len() && s[ti] == y;
                assert(y != x);
                assert(ti != t);
                if ti < t {
                    assert(s2[ti] == y);
                } else {
                    assert(s2[ti - 1] == y);
                }
            }
            lemma_members_bound(c, s2);
            assert(false);
        }
    }
}

/// Along any walk that starts at a cleaned node, every node is cleaned and
/// the clean positions strictly decrease.
proof fn lemma_clean_path(g: Seq<Seq<usize>>, s: Seq<usize>, clean: Seq<usize>, p: Seq<usize>)
    requires
        clean_prefix_closed(g, s, clean),
        e_no_dup(clean),
        is_path_in(g, s, p),
        clean.contains(p[0]),
    ensures
        forall|i: int| 0 <= i < p.len() ==> clean.contains(#[trigger] p[i]),
        p.len() >= 2 ==> e_first(clean, p[p.len() - 1]) < e_first(clean, p[0]),
    decreases p.len(),
{
    if p.len() == 1 {
    } else {
        let k0 = e_first(clean, p[0]);
        lemma_e_first_exists(clean, p[0]);
        assert(clean[k0] == p[0]);
        assert(path_step(g, p, 0));
        assert(g[p[0] as int].contains(p[1]));
        let j = choose|j: int| 0 <= j < g[p[0] as int].len() && g[p[0] as int][j] == p[1];
        assert(s.contains(p[1]));
        assert(g[clean[k0] as int][j] == p[1]);
        assert(clean.take(k0).contains(p[1]));
        let t1 = choose|t1: int| 0 <= t1 < clean.take(k0).len() && clean.take(k0)[t1] == p[1];
        assert(clean[t1] == p[1]);
        assert(clean.contains(p[1]));
        lemma_e_first_exists(clean, p[1]);
        assert(e_first(clean, p[1]) <= t1) by {
            if e_first(clean, p[1]) > t1 {
                assert(clean[t1] != p[1]);
            }
        }
        assert(e_first(clean, p[1]) < k0);
        let q = p.drop_first();
        assert(is_path_in(g, s, q)) by {
            assert forall|i: int| 0 <= i < q.len() implies s.contains(#[trigger] q[i]) by {
                assert(q[i] == p[i + 1]);
            }
            assert forall|i: int| 0 <= i < q.len() - 1 implies #[trigger] path_step(
                g,
                q,
                i,
            ) by {
                assert(q[i] == p[i + 1] && q[i + 1] == p[i + 2]);
                assert(path_step(g, p, i + 1));
            }
        }
        assert(q[0] == p[1]);
        lemma_clean_path(g, s, clean, q);
        assert forall|i: int| 0 <= i < p.len() implies clean.contains(#[trigger] p[i]) by {
            if i > 0 {
                assert(q[i - 1] == p[i]);
            }
        }
        assert(p[p.len() - 1] == q[q.len() - 1]);
        if q.len() >= 2 {
            assert(e_first(clean, q[q.len() - 1]) < e_first(clean, q[0]));
        }
    }
}

/// A fully cleaned node list admits no cycle.
proof fn lemma_no_cycle_when_closed(g: Seq<Seq<usize>>, s: Seq<usize>, clean: Seq<usize>)
    requires
        clean_prefix_closed(g, s, clean),
        e_no_dup(clean),
        forall|x: usize| #[trigger] s.contains(x) ==> clean.contains(x),
    ensures
        !has_cycle_in(g, s),
{
    if has_cycle_in(g, s) {
        let p = choose|p: Seq<usize>|
            is_path_in(g, s, p) && p.len() >= 2 && p[0] == p[p.len() - 1];
        assert(s.contains(p[0]));
        lemma_clean_path(g, s, clean, p);
        assert(false);
    }
}

/// A subrange of a walk is a walk.
proof fn lemma_subpath(g: Seq<Seq<usize>>, s: Seq<usize>, p: Seq<usize>, a: int, b: int)
    requires
        is_path_in(g, s, p),
        0 <= a <= b < p.len(),
    ensures
        is_path_in(g, s, p.subrange(a, b + 1)),
{
    let q = p.subrange(a, b + 1);
    assert forall|i: int| 0 <= i < q.len() implies s.contains(#[trigger] q[i]) by {
        assert(q[i] == p[a + i]);
    }
    assert forall|i: int| 0 <= i < q.len() - 1 implies #[trigger] path_step(g, q, i) by {
        assert(q[i] == p[a + i] && q[i + 1] == p[a + i + 1]);
        assert(path_step(g, p, a + i));
    }
}

/// A cleaned node reaches no cycle.
#[verifier::rlimit(80)]
proof fn lemma_clean_no_reach(g: Seq<Seq<usize>>, s: Seq<usize>, clean: Seq<usize>, u: usize)
    requires
        clean_prefix_closed(g, s, clean),
        e_no_dup(clean),
        clean.contains(u),
    ensures
        !reaches_cycle_in(g, s, u),
{
    if reaches_cycle_in(g, s, u) {
        let p = choose|p: Seq<usize>|
            is_path_in(g, s, p) && p[0] == u && (exists|i: int, j: int|
                0 <= i < j < p.len() && p[i] == p[j]);
        let (i, j): (int, int) = choose|i: int, j: int| 0 <= i < j < p.len() && p[i] == p[j];
        lemma_clean_path(g, s, clean, p);
        let cyc = p.subrange(i, j + 1);
        lemma_subpath(g, s, p, i, j);
        assert(cyc[0] == p[i]);
        assert(cyc[cyc.len() - 1] == p[j]);
        assert(clean.contains(cyc[0]));
        lemma_clean_path(g, s, clean, cyc);
        assert(e_first(clean, cyc[cyc.len() - 1]) < e_first(clean, cyc[0]));
        assert(false);
    }
}

/// From a dirty node of a saturated clean list, a walk of any length can
/// be built that stays dirty.
proof fn build_walk(
    g: Seq<Seq<usize>>,
    s: Seq<usize>,
    clean: Seq<usize>,
    u: usize,
    len: nat,
) -> (p: Seq<usize>)
    requires
        stuck_s(g, s, clean),
        s.contains(u),
        !clean.contains(u),
        len >= 1,
    ensures
        is_path_in(g, s, p),
        p.len() == len,
        p[0] == u,
        forall|i: int| 0 <= i < p.len() ==> !clean.contains(#[trigger] p[i]),
    decreases len,
{
    if len == 1 {
        let p = seq![u];
        assert(p[0] == u);
        assert forall|i: int| 0 <= i < p.len() implies s.contains(#[trigger] p[i]) by {
            assert(p[i] == u);
        }
        assert forall|i: int| 0 <= i < p.len() implies !clean.contains(#[trigger] p[i]) by {
            assert(p[i] == u);
        }
        p
    } else {
        let p0 = build_walk(g, s, clean, u, (len - 1) as nat);
        let last = p0[p0.len() - 1];
        assert(s.contains(last));
        assert(!clean.contains(last));
        let t = choose|t: int| 0 <= t < s.len() && s[t] == last;
        assert(!clean.contains(s[t]));
        let j = choose|j: int|
            0 <= j < g[s[t] as int].len() && s.contains(#[trigger] g[s[t] as int][j])
                && !clean.contains(g[s[t] as int][j]);
        let v = g[last as int][j];
        let p = p0.push(v);
        assert(g[last as int].contains(v)) by {
            assert(g[last as int][j] == v);
        }
        assert forall|i: int| 0 <= i < p.len() implies s.contains(#[trigger] p[i]) by {
            if i < p0.len() {
                assert(p[i] == p0[i]);
            } else {
                assert(p[i] == v);
            }
        }
        assert forall|i: int| 0 <= i < p.len() implies !clean.contains(#[trigger] p[i]) by {
            if i < p0.len() {
                assert(p[i] == p0[i]);
            } else {
                assert(p[i] == v);
            }
        }
        assert forall|i: int| 0 <= i < p.len() - 1 implies #[trigger] path_step(g, p, i) by {
            if i < p0.len() - 1 {
                assert(p[i] == p0[i] && p[i + 1] == p0[i + 1]);
                assert(path_step(g, p0, i));
            } else {
                assert(p[i] == last && p[i + 1] == v);
            }
        }
        assert(p[0] == p0[0]);
        p
    }
}

/// A walk longer than the node list revisits a node.
proof fn lemma_walk_repeats(p: Seq<usize>, s: Seq<usize>)
    requires
        forall|i: int| 0 <= i < p.len() ==> s.contains(#[trigger] p[i]),
        p.len() > s.len(),
    ensures
        exists|i: int, j: int| 0 <= i < j < p.len() && p[i] == p[j],
{
    if forall|i: int, j: int| 0 <= i < j < p.len() ==> #[trigger] p[i] != #[trigger] p[j] {
        let q = Seq::<int>::new(p.len(), |i: int| e_first(s, p[i]));
        assert forall|i: int| 0 <= i < p.len() implies 0 <= #[trigger] q[i] < s.len()
            && s[q[i]] == p[i] by {
            lemma_e_first_exists(s, p[i]);
        }
        assert(q.no_duplicates()) by {
            assert forall|i: int, j: int|
                0 <= i < q.len() && 0 <= j < q.len() && i != j implies q[i] != q[j] by {
                if i < j {
                    assert(p[i] != p[j]);
                    assert(s[q[i]] == p[i] && s[q[j]] == p[j]);
                } else {
                    assert(p[j] != p[i]);
                    assert(s[q[i]] == p[i] && s[q[j]] == p[j]);
                }
            }
        }
        lemma_distinct_ints_bound(q, s.len() as int);
        assert(false);
    }
}

/// Every dirty node of a saturated clean list reaches a cycle.
proof fn lemma_stuck_reaches(g: Seq<Seq<usize>>, s: Seq<usize>, clean: Seq<usize>, u: usize)
    requires
        stuck_s(g, s, clean),
        s.contains(u),
        !clean.contains(u),
    ensures
        reaches_cycle_in(g, s, u),
{
    let p = build_walk(g, s, clean, u, (s.len() + 1) as nat);
    lemma_walk_repeats(p, s);
}

/// A node reaching a cycle witnesses a cycle of the restricted subgraph.
proof fn lemma_reach_has_cycle(g: Seq<Seq<usize>>, s: Seq<usize>, u: usize)
    requires
        reaches_cycle_in(g, s, u),
    ensures
        has_cycle_in(g, s),
{
    let p = choose|p: Seq<usize>|
        is_path_in(g, s, p) && p[0] == u && (exists|i: int, j: int|
            0 <= i < j < p.len() && p[i] == p[j]);
    let (i, j): (int, int) = choose|i: int, j: int| 0 <= i < j < p.len() && p[i] == p[j];
    let cyc = p.subrange(i, j + 1);
    lemma_subpath(g, s, p, i, j);
    assert(cyc[0] == p[i]);
    assert(cyc[cyc.len() - 1] == p[j]);
    assert(cyc.len() >= 2);
    assert(is_path_in(g, s, cyc) && cyc.len() >= 2 && cyc[0] == cyc[cyc.len() - 1]);
}

} // verus!
