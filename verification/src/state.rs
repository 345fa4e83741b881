//! The taint graph: a bipartite relation between taint *sources* (origins of
//! untrusted data) and *tainted nodes* (expressions or bindings currently
//! carrying taint), together with the per-expression diagnostic groups.
//!
//! Every mutation is specified as a mathematical function on [`StateV`], so
//! the whole analysis is a function of its inputs. The two sides of the
//! relation are kept consistent by construction: a tainted node lists a
//! source exactly when that source lists the node as a child.

use vstd::prelude::*;
use crate::assoc::{
    a_contains, a_first, a_get, a_no_dup, a_remove, a_set, e_no_dup, e_remove, lemma_a_first_at,
    lemma_a_first_exists, lemma_a_remove_contains, lemma_a_remove_entries, lemma_a_remove_get,
    lemma_a_remove_no_dup, lemma_a_set_contains, lemma_a_set_entries, lemma_a_set_get,
    lemma_a_set_no_dup, lemma_contains_drop_last, lemma_e_first_exists, lemma_e_remove_no_dup,
};
use crate::collections::{IdMap, NodeMap, NodeSet};
use crate::diagnostic::{DiagGroup, DiagV, Diagnostic, Level};
use crate::node::{NodeId, NodeKey};
use crate::span::Span;

verus! {

/// The mathematical content of one registered taint source.
pub struct SourceV {
    /// Where the untrusted data entered (used for diagnostic notes).
    pub span: Span,
    /// The tainted nodes currently depending on this source.
    pub children: Seq<NodeKey>,
}

/// The mathematical content of the whole graph.
pub struct StateV {
    pub sources: Seq<(NodeKey, SourceV)>,
    pub tainted: Seq<(NodeKey, Seq<NodeKey>)>,
    pub diags: Seq<(u64, Seq<DiagV>)>,
}

/// All key and element sequences of the state are duplicate-free.
pub open spec fn st_dupfree(st: StateV) -> bool {
    &&& a_no_dup(st.sources)
    &&& a_no_dup(st.tainted)
    &&& a_no_dup(st.diags)
    &&& forall|i: int| 0 <= i < st.sources.len() ==> e_no_dup(#[trigger] st.sources[i].1.children)
    &&& forall|i: int| 0 <= i < st.tainted.len() ==> e_no_dup(#[trigger] st.tainted[i].1)
}

/// A child set extended with `n` (unchanged when `n` is already present).
pub open spec fn child_insert(children: Seq<NodeKey>, n: NodeKey) -> Seq<NodeKey> {
    if children.contains(n) {
        children
    } else {
        children.push(n)
    }
}

/// Registers `node` as a child of every source in `srcs`, in order.
pub open spec fn attach_children_s(
    sources: Seq<(NodeKey, SourceV)>,
    node: NodeKey,
    srcs: Seq<NodeKey>,
) -> Seq<(NodeKey, SourceV)>
    decreases srcs.len(),
{
    if srcs.len() == 0 {
        sources
    } else {
        let s1 = attach_children_s(sources, node, srcs.drop_last());
        let sk = srcs.last();
        if a_contains(s1, sk) {
            let rec = a_get(s1, sk);
            a_set(s1, sk, SourceV { span: rec.span, children: child_insert(rec.children, node) })
        } else {
            s1
        }
    }
}

/// Removes `node` from the child set of every source in `srcs`, in order.
pub open spec fn detach_children_s(
    sources: Seq<(NodeKey, SourceV)>,
    node: NodeKey,
    srcs: Seq<NodeKey>,
) -> Seq<(NodeKey, SourceV)>
    decreases srcs.len(),
{
    if srcs.len() == 0 {
        sources
    } else {
        let s1 = detach_children_s(sources, node, srcs.drop_last());
        let sk = srcs.last();
        if a_contains(s1, sk) {
            let rec = a_get(s1, sk);
            a_set(s1, sk, SourceV { span: rec.span, children: e_remove(rec.children, node) })
        } else {
            s1
        }
    }
}

/// Withdraws `k`'s tainted record, keeping the relation symmetric: `k` is
/// also removed from the child set of each source it listed.
pub open spec fn detach_s(st: StateV, k: NodeKey) -> StateV {
    if a_contains(st.tainted, k) {
        let srcs = a_get(st.tainted, k);
        StateV {
            sources: detach_children_s(st.sources, k, srcs),
            tainted: a_remove(st.tainted, k),
            diags: st.diags,
        }
    } else {
        st
    }
}

/// Detaching children changes no source keys.
pub proof fn lemma_detach_children_contains(
    sources: Seq<(NodeKey, SourceV)>,
    node: NodeKey,
    srcs: Seq<NodeKey>,
)
    requires
        a_no_dup(sources),
    ensures
        a_no_dup(detach_children_s(sources, node, srcs)),
        forall|k: NodeKey|
            a_contains(#[trigger] detach_children_s(sources, node, srcs), k) == a_contains(
                sources,
                k,
            ),
    decreases srcs.len(),
{
    if srcs.len() == 0 {
    } else {
        lemma_detach_children_contains(sources, node, srcs.drop_last());
        let s1 = detach_children_s(sources, node, srcs.drop_last());
        let sk = srcs.last();
        if a_contains(s1, sk) {
            let rec = a_get(s1, sk);
            let v = SourceV { span: rec.span, children: e_remove(rec.children, node) };
            lemma_a_set_no_dup(s1, sk, v);
            assert forall|k: NodeKey|
                a_contains(#[trigger] a_set(s1, sk, v), k) == a_contains(sources, k) by {
                lemma_a_set_contains(s1, sk, v, k);
            }
        }
    }
}

/// Withdrawing a taint record changes no source keys.
pub proof fn lemma_detach_keeps_sources(st: StateV, k: NodeKey)
    requires
        st_dupfree(st),
    ensures
        forall|s: NodeKey|
            a_contains(#[trigger] detach_s(st, k).sources, s) == a_contains(st.sources, s),
{
    if a_contains(st.tainted, k) {
        lemma_detach_children_contains(st.sources, k, a_get(st.tainted, k));
    }
}

/// One step of [`filter_children_s`]: the former child `c` loses `src` from
/// its source set; a child left with no sources is dropped entirely, and
/// under `rollback` its previously recorded diagnostic group is discarded.
pub open spec fn filter_child_s(
    tainted: Seq<(NodeKey, Seq<NodeKey>)>,
    diags: Seq<(u64, Seq<DiagV>)>,
    src: NodeKey,
    c: NodeKey,
    rollback: bool,
) -> (Seq<(NodeKey, Seq<NodeKey>)>, Seq<(u64, Seq<DiagV>)>) {
    let dropped_diags = if rollback {
        match c {
            NodeKey::Expr(id) => a_remove(diags, id),
            NodeKey::Symbol(_) => diags,
        }
    } else {
        diags
    };
    if a_contains(tainted, c) {
        let rest = e_remove(a_get(tainted, c), src);
        if rest.len() > 0 {
            (a_set(tainted, c, rest), diags)
        } else {
            (a_remove(tainted, c), dropped_diags)
        }
    } else {
        (tainted, dropped_diags)
    }
}

/// Applies [`filter_child_s`] to every child in order.
pub open spec fn filter_children_s(
    tainted: Seq<(NodeKey, Seq<NodeKey>)>,
    diags: Seq<(u64, Seq<DiagV>)>,
    src: NodeKey,
    children: Seq<NodeKey>,
    rollback: bool,
) -> (Seq<(NodeKey, Seq<NodeKey>)>, Seq<(u64, Seq<DiagV>)>)
    decreases children.len(),
{
    if children.len() == 0 {
        (tainted, diags)
    } else {
        let (t1, d1) = filter_children_s(tainted, diags, src, children.drop_last(), rollback);
        filter_child_s(t1, d1, src, children.last(), rollback)
    }
}

/// Unregisters the source `k`. Its own taint record is withdrawn
/// symmetrically; every former child loses `k` from its source set;
/// children left with no sources are dropped, and under `rollback` their
/// recorded diagnostics are discarded as well.
pub open spec fn filter_source_s(st: StateV, k: NodeKey, rollback: bool) -> StateV {
    if a_contains(st.sources, k) {
        let st1 = detach_s(st, k);
        let rec = a_get(st1.sources, k);
        let sources2 = a_remove(st1.sources, k);
        let (tainted2, diags2) = filter_children_s(st1.tainted, st1.diags, k, rec.children, rollback);
        StateV { sources: sources2, tainted: tainted2, diags: diags2 }
    } else {
        st
    }
}

/// Applies [`filter_source_s`] to every source in order.
pub open spec fn filter_sources_s(st: StateV, srcs: Seq<NodeKey>, rollback: bool) -> StateV
    decreases srcs.len(),
{
    if srcs.len() == 0 {
        st
    } else {
        filter_source_s(filter_sources_s(st, srcs.drop_last(), rollback), srcs.last(), rollback)
    }
}

/// Clears the taint of the node `k`, and unregisters each of its sources:
/// its only observed use here has been validated.
pub open spec fn filter_taint_s(st: StateV, k: NodeKey, rollback: bool) -> StateV {
    if a_contains(st.tainted, k) {
        let srcs = a_get(st.tainted, k);
        filter_sources_s(detach_s(st, k), srcs, rollback)
    } else {
        st
    }
}

/// Empties every source's child set.
pub open spec fn clear_children_s(sources: Seq<(NodeKey, SourceV)>) -> Seq<(NodeKey, SourceV)> {
    sources.map_values(
        |p: (NodeKey, SourceV)| (p.0, SourceV { span: p.1.span, children: Seq::empty() }),
    )
}

/// Clears every tainted-node record while leaving the source registry in
/// place: downstream expressions are no longer considered tainted, but the
/// registered inputs can still seed new taint later.
pub open spec fn filter_all_s(st: StateV) -> StateV {
    StateV {
        sources: clear_children_s(st.sources),
        tainted: Seq::empty(),
        diags: st.diags,
    }
}

/// Registers `k` as a fresh source, tainted by itself. Any earlier record
/// under the same identity is withdrawn first, so the relation stays
/// symmetric.
pub open spec fn add_source_s(st: StateV, k: NodeKey, span: Span) -> StateV {
    let st1 = detach_s(filter_source_s(st, k, false), k);
    StateV {
        sources: a_set(st1.sources, k, SourceV { span, children: seq![k] }),
        tainted: a_set(st1.tainted, k, seq![k]),
        diags: st1.diags,
    }
}

/// Records that `k` is tainted by exactly `srcs`, replacing any prior record
/// and registering `k` as a child of every member of `srcs`.
pub open spec fn add_tainted_s(st: StateV, k: NodeKey, srcs: Seq<NodeKey>) -> StateV {
    let st1 = detach_s(st, k);
    StateV {
        sources: attach_children_s(st1.sources, k, srcs),
        tainted: a_set(st1.tainted, k, srcs),
        diags: st1.diags,
    }
}

/// The warning attached to a tainted expression reaching a sink.
pub open spec fn taint_warning_text() -> Seq<char> {
    "use of potentially unchecked data"@
}

/// The note attached to each contributing source.
pub open spec fn taint_note_text() -> Seq<char> {
    "source of untrusted input here"@
}

/// Inserts `sp` into a sorted sequence of distinct spans, keeping it sorted
/// and distinct.
pub open spec fn sorted_insert_span_s(s: Seq<Span>, sp: Span) -> Seq<Span>
    decreases s.len(),
{
    if s.len() == 0 {
        seq![sp]
    } else if sp.lt_spec(s[0]) {
        seq![sp] + s
    } else if sp == s[0] {
        s
    } else {
        seq![s[0]] + sorted_insert_span_s(s.drop_first(), sp)
    }
}

/// The spans of the given sources, in ascending span order and without
/// duplicates.
pub open spec fn note_spans_s(
    sources: Seq<(NodeKey, SourceV)>,
    srcs: Seq<NodeKey>,
) -> Seq<Span>
    decreases srcs.len(),
{
    if srcs.len() == 0 {
        Seq::empty()
    } else {
        let acc = note_spans_s(sources, srcs.drop_last());
        let sk = srcs.last();
        if a_contains(sources, sk) {
            sorted_insert_span_s(acc, a_get(sources, sk).span)
        } else {
            acc
        }
    }
}

/// Strictly ascending span order: sorted and free of duplicates.
pub open spec fn spans_sorted(s: Seq<Span>) -> bool {
    forall|i: int, j: int| 0 <= i < j < s.len() ==> s[i].lt_spec(s[j])
}

/// Sorted insertion keeps the span list strictly sorted, and its contents
/// are the old ones plus the inserted span.
pub proof fn lemma_sorted_insert_span_sorted(s: Seq<Span>, sp: Span)
    requires
        spans_sorted(s),
    ensures
        spans_sorted(sorted_insert_span_s(s, sp)),
        forall|x: Span|
            #[trigger] sorted_insert_span_s(s, sp).contains(x) == (s.contains(x) || x == sp),
    decreases s.len(),
{
    let r = sorted_insert_span_s(s, sp);
    if s.len() == 0 {
        assert forall|x: Span| #[trigger] r.contains(x) == (s.contains(x) || x == sp) by {
            if r.contains(x) {
                let t = choose|t: int| 0 <= t < r.len() && r[t] == x;
            }
            assert(r[0] == sp);
        }
    } else if sp.lt_spec(s[0]) {
        assert forall|i: int, j: int| 0 <= i < j < r.len() implies r[i].lt_spec(r[j]) by {
            if i == 0 {
                assert(r[j] == s[j - 1]);
                if j > 1 {
                    assert(s[0].lt_spec(s[j - 1]));
                    crate::span::lemma_span_le_total(sp, s[j - 1]);
                } else {
                    assert(r[j] == s[0]);
                }
            } else {
                assert(r[i] == s[i - 1] && r[j] == s[j - 1]);
            }
        }
        assert forall|x: Span| #[trigger] r.contains(x) == (s.contains(x) || x == sp) by {
            if r.contains(x) {
                let t = choose|t: int| 0 <= t < r.len() && r[t] == x;
                if t > 0 {
                    assert(s[t - 1] == x);
                }
            }
            if s.contains(x) {
                let t = choose|t: int| 0 <= t < s.len() && s[t] == x;
                assert(r[t + 1] == x);
            }
            assert(r[0] == sp);
        }
    } else if sp == s[0] {
    } else {
        crate::span::lemma_span_le_total(sp, s[0]);
        assert(s[0].lt_spec(sp));
        let d = s.drop_first();
        assert(spans_sorted(d)) by {
            assert forall|i: int, j: int| 0 <= i < j < d.len() implies d[i].lt_spec(d[j]) by {
                assert(d[i] == s[i + 1] && d[j] == s[j + 1]);
            }
        }
        lemma_sorted_insert_span_sorted(d, sp);
        let rd = sorted_insert_span_s(d, sp);
        assert forall|i: int, j: int| 0 <= i < j < r.len() implies r[i].lt_spec(r[j]) by {
            if i == 0 {
                assert(r[j] == rd[j - 1]);
                assert(rd.contains(rd[j - 1]));
                if d.contains(rd[j - 1]) {
                    let t = choose|t: int| 0 <= t < d.len() && d[t] == rd[j - 1];
                    assert(d[t] == s[t + 1]);
                    assert(s[0].lt_spec(s[t + 1]));
                } else {
                    assert(rd[j - 1] == sp);
                }
            } else {
                assert(r[i] == rd[i - 1] && r[j] == rd[j - 1]);
            }
        }
        assert forall|x: Span| #[trigger] r.contains(x) == (s.contains(x) || x == sp) by {
            if r.contains(x) {
                let t = choose|t: int| 0 <= t < r.len() && r[t] == x;
                if t > 0 {
                    assert(rd[t - 1] == x);
                    assert(rd.contains(x));
                    if d.contains(x) {
                        let t2 = choose|t2: int| 0 <= t2 < d.len() && d[t2] == x;
                        assert(s[t2 + 1] == x);
                    }
                } else {
                    assert(r[0] == s[0]);
                }
            }
            if s.contains(x) || x == sp {
                if s.contains(x) {
                    let t = choose|t: int| 0 <= t < s.len() && s[t] == x;
                    if t == 0 {
                        assert(r[0] == x);
                    } else {
                        assert(d[t - 1] == x);
                        assert(d.contains(x));
                        assert(rd.contains(x));
                        let t2 = choose|t2: int| 0 <= t2 < rd.len() && rd[t2] == x;
                        assert(r[t2 + 1] == x);
                    }
                } else {
                    assert(rd.contains(x));
                    let t2 = choose|t2: int| 0 <= t2 < rd.len() && rd[t2] == x;
                    assert(r[t2 + 1] == x);
                }
            }
        }
    }
}

/// With every contributing source registered — which the graph invariant
/// guarantees for a tainted node's record — no source is skipped: the
/// notes carry exactly the sources' spans.
pub proof fn lemma_note_spans_complete(sources: Seq<(NodeKey, SourceV)>, srcs: Seq<NodeKey>)
    requires
        forall|j: int| 0 <= j < srcs.len() ==> a_contains(sources, #[trigger] srcs[j]),
    ensures
        forall|x: Span|
            #[trigger] note_spans_s(sources, srcs).contains(x) == exists|j: int|
                0 <= j < srcs.len() && a_get(sources, #[trigger] srcs[j]).span == x,
    decreases srcs.len(),
{
    if srcs.len() == 0 {
        assert forall|x: Span|
            #[trigger] note_spans_s(sources, srcs).contains(x) == exists|j: int|
                0 <= j < srcs.len() && a_get(sources, #[trigger] srcs[j]).span == x by {
            if note_spans_s(sources, srcs).contains(x) {
                let t = choose|t: int|
                    0 <= t < note_spans_s(sources, srcs).len() && note_spans_s(sources, srcs)[t]
                        == x;
            }
        }
    } else {
        let d = srcs.drop_last();
        assert forall|j: int| 0 <= j < d.len() implies a_contains(
            sources,
            #[trigger] d[j],
        ) by {
            assert(d[j] == srcs[j]);
        }
        lemma_note_spans_complete(sources, d);
        lemma_note_spans_sorted(sources, d);
        let acc = note_spans_s(sources, d);
        let sp = a_get(sources, srcs.last()).span;
        assert(a_contains(sources, srcs.last())) by {
            assert(srcs[srcs.len() - 1] == srcs.last());
        }
        lemma_sorted_insert_span_sorted(acc, sp);
        assert forall|x: Span|
            #[trigger] note_spans_s(sources, srcs).contains(x) == exists|j: int|
                0 <= j < srcs.len() && a_get(sources, #[trigger] srcs[j]).span == x by {
            assert(note_spans_s(sources, srcs) == sorted_insert_span_s(acc, sp));
            if note_spans_s(sources, srcs).contains(x) {
                if acc.contains(x) {
                    let j = choose|j: int|
                        0 <= j < d.len() && a_get(sources, #[trigger] d[j]).span == x;
                    assert(srcs[j] == d[j]);
                    assert(a_get(sources, srcs[j]).span == x);
                } else {
                    assert(x == sp);
                    assert(a_get(sources, srcs[srcs.len() - 1]).span == x);
                }
            }
            if exists|j: int| 0 <= j < srcs.len() && a_get(sources, #[trigger] srcs[j]).span
                == x {
                let j = choose|j: int|
                    0 <= j < srcs.len() && a_get(sources, #[trigger] srcs[j]).span == x;
                if j < srcs.len() - 1 {
                    assert(d[j] == srcs[j]);
                    assert(a_get(sources, d[j]).span == x);
                    assert(acc.contains(x));
                } else {
                    assert(x == sp);
                }
            }
        }
    }
}

/// The note spans of a diagnostic group are strictly sorted, so they are
/// de-duplicated and their order does not depend on how the source set was
/// assembled.
pub proof fn lemma_note_spans_sorted(sources: Seq<(NodeKey, SourceV)>, srcs: Seq<NodeKey>)
    ensures
        spans_sorted(note_spans_s(sources, srcs)),
    decreases srcs.len(),
{
    if srcs.len() == 0 {
    } else {
        lemma_note_spans_sorted(sources, srcs.drop_last());
        if a_contains(sources, srcs.last()) {
            lemma_sorted_insert_span_sorted(
                note_spans_s(sources, srcs.drop_last()),
                a_get(sources, srcs.last()).span,
            );
        }
    }
}

/// The diagnostic group of a tainted expression: one warning at the
/// expression's own span, then one note per distinct contributing source
/// span, in ascending span order.
pub open spec fn group_s(st: StateV, id: u64, span: Span) -> Seq<DiagV> {
    let notes = note_spans_s(st.sources, a_get(st.tainted, NodeKey::Expr(id))).map_values(
        |sp: Span| DiagV {
            level: Level::Note,
            message: taint_note_text(),
            spans: seq![sp],
            suggestion: None,
        },
    );
    seq![
        DiagV {
            level: Level::Warning,
            message: taint_warning_text(),
            spans: seq![span],
            suggestion: None,
        },
    ] + notes
}

/// The sink check: if the expression `id` is currently tainted, store its
/// diagnostic group, replacing any prior group for the same expression.
pub open spec fn taint_check_s(st: StateV, id: u64, span: Span) -> StateV {
    if a_contains(st.tainted, NodeKey::Expr(id)) {
        StateV {
            sources: st.sources,
            tainted: st.tainted,
            diags: a_set(st.diags, id, group_s(st, id, span)),
        }
    } else {
        st
    }
}

/// Inserting into a sorted, duplicate-free span sequence at the first
/// position whose span is not below the new one matches the recursive
/// definition.
proof fn lemma_sorted_insert_at(s: Seq<Span>, sp: Span, p: int)
    requires
        0 <= p <= s.len(),
        forall|j: int| 0 <= j < p ==> s[j].lt_spec(sp),
        p < s.len() ==> !s[p].lt_spec(sp),
    ensures
        sorted_insert_span_s(s, sp) == if p < s.len() && s[p] == sp {
            s
        } else {
            s.take(p) + seq![sp] + s.skip(p)
        },
    decreases s.len(),
{
    if p == 0 {
        if s.len() == 0 {
            assert(seq![sp] =~= s.take(0) + seq![sp] + s.skip(0));
        } else {
            crate::span::lemma_span_le_total(s[0], sp);
            if sp.lt_spec(s[0]) {
                assert(seq![sp] + s =~= s.take(0) + seq![sp] + s.skip(0));
            } else {
                assert(s[0] == sp);
            }
        }
    } else {
        assert(s[0].lt_spec(sp));
        assert(!sp.lt_spec(s[0])) by {
            crate::span::lemma_span_le_total(s[0], sp);
        }
        let d = s.drop_first();
        assert forall|j: int| 0 <= j < p - 1 implies d[j].lt_spec(sp) by {
            assert(d[j] == s[j + 1]);
        }
        assert(p - 1 < d.len() ==> d[p - 1] == s[p]);
        lemma_sorted_insert_at(d, sp, p - 1);
        if p < s.len() && s[p] == sp {
            assert(seq![s[0]] + d =~= s);
        } else {
            assert(seq![s[0]] + (d.take(p - 1) + seq![sp] + d.skip(p - 1)) =~= s.take(p)
                + seq![sp] + s.skip(p));
        }
    }
}

/// Inserts `sp` into the sorted, duplicate-free vector `v`, keeping it
/// sorted and duplicate-free.
fn sorted_insert_span(v: &mut Vec<Span>, sp: Span)
    ensures
        final(v)@ == sorted_insert_span_s(old(v)@, sp),
{
    let n = v.len();
    let mut p: usize = 0;
    while p < n && v[p].lt(&sp)
        invariant
            p <= n,
            n == v@.len(),
            v@ == old(v)@,
            forall|j: int| 0 <= j < p ==> v@[j].lt_spec(sp),
        decreases n - p,
    {
        p += 1;
    }
    if p < n {
        let same = v[p] == sp;
        if same {
            proof {
                lemma_sorted_insert_at(v@, sp, p as int);
            }
            return;
        }
    }
    v.insert(p, sp);
    proof {
        lemma_sorted_insert_at(old(v)@, sp, p as int);
        assert(v@ =~= old(v)@.take(p as int) + seq![sp] + old(v)@.skip(p as int));
    }
}

/// The fixed warning message of the sink check.
pub fn taint_warning_msg() -> (s: String)
    ensures
        s@ == taint_warning_text(),
{
    "use of potentially unchecked data".to_owned()
}

/// The fixed message of a source note.
pub fn taint_note_msg() -> (s: String)
    ensures
        s@ == taint_note_text(),
{
    "source of untrusted input here".to_owned()
}

/// `n` is recorded as tainted by `s`.
pub open spec fn tainted_by(st: StateV, n: NodeKey, s: NodeKey) -> bool {
    a_contains(st.tainted, n) && a_get(st.tainted, n).contains(s)
}

/// `s` is a registered source listing `n` as a child.
pub open spec fn child_of(st: StateV, s: NodeKey, n: NodeKey) -> bool {
    a_contains(st.sources, s) && a_get(st.sources, s).children.contains(n)
}

/// The graph invariant: keys and element lists are duplicate-free, the two
/// sides of the bipartite relation agree exactly (a node lists a source as
/// tainting it precisely when that source lists the node as a child), and
/// no tainted node persists with an empty source set.
pub open spec fn st_wf(st: StateV) -> bool {
    &&& st_dupfree(st)
    &&& forall|n: NodeKey, s: NodeKey|
        #![trigger tainted_by(st, n, s)]
        #![trigger child_of(st, s, n)]
        tainted_by(st, n, s) == child_of(st, s, n)
    &&& forall|n: NodeKey| #[trigger] a_contains(st.tainted, n) ==> a_get(st.tainted, n).len() > 0
}

/// Bridges the per-entry duplicate-freedom facts to key-level lookups.
pub proof fn lemma_wf_lookup(st: StateV, n: NodeKey)
    requires
        st_dupfree(st),
    ensures
        a_contains(st.tainted, n) ==> e_no_dup(a_get(st.tainted, n)),
        a_contains(st.sources, n) ==> e_no_dup(a_get(st.sources, n).children),
{
    if a_contains(st.tainted, n) {
        lemma_a_first_exists(st.tainted, n);
    }
    if a_contains(st.sources, n) {
        lemma_a_first_exists(st.sources, n);
    }
}

/// Attaching a child changes no keys, and only the listed sources' child
/// sets, each exactly once.
pub proof fn lemma_attach_children_effect(
    sources: Seq<(NodeKey, SourceV)>,
    node: NodeKey,
    srcs: Seq<NodeKey>,
)
    requires
        a_no_dup(sources),
        e_no_dup(srcs),
    ensures
        a_no_dup(attach_children_s(sources, node, srcs)),
        forall|k: NodeKey|
            a_contains(#[trigger] attach_children_s(sources, node, srcs), k) == a_contains(
                sources,
                k,
            ),
        forall|k: NodeKey|
            a_contains(sources, k) ==> a_get(
                #[trigger] attach_children_s(sources, node, srcs),
                k,
            ) == if srcs.contains(k) {
                SourceV {
                    span: a_get(sources, k).span,
                    children: child_insert(a_get(sources, k).children, node),
                }
            } else {
                a_get(sources, k)
            },
    decreases srcs.len(),
{
    if srcs.len() == 0 {
    } else {
        let d = srcs.drop_last();
        let sk = srcs.last();
        assert(e_no_dup(d)) by {
            assert forall|i: int, j: int| 0 <= i < j < d.len() implies d[i] != d[j] by {
                assert(d[i] == srcs[i] && d[j] == srcs[j]);
            }
        }
        assert(!d.contains(sk)) by {
            if d.contains(sk) {
                let i = choose|i: int| 0 <= i < d.len() && d[i] == sk;
                assert(srcs[i] == srcs[srcs.len() - 1]);
            }
        }
        lemma_attach_children_effect(sources, node, d);
        let s1 = attach_children_s(sources, node, d);
        assert forall|k: NodeKey| #[trigger] srcs.contains(k) implies d.contains(k) || k
            == sk by {
            lemma_contains_drop_last(srcs, k);
        }
        assert forall|k: NodeKey| d.contains(k) implies srcs.contains(k) by {
            lemma_contains_drop_last(srcs, k);
        }
        if a_contains(s1, sk) {
            let rec = a_get(s1, sk);
            let v = SourceV { span: rec.span, children: child_insert(rec.children, node) };
            lemma_a_set_no_dup(s1, sk, v);
            assert forall|k: NodeKey|
                a_contains(#[trigger] a_set(s1, sk, v), k) == a_contains(sources, k) by {
                lemma_a_set_contains(s1, sk, v, k);
            }
            assert forall|k: NodeKey| a_contains(sources, k) implies a_get(
                #[trigger] a_set(s1, sk, v),
                k,
            ) == if srcs.contains(k) {
                SourceV {
                    span: a_get(sources, k).span,
                    children: child_insert(a_get(sources, k).children, node),
                }
            } else {
                a_get(sources, k)
            } by {
                lemma_a_set_contains(s1, sk, v, k);
                lemma_a_set_get(s1, sk, v, k);
                if k == sk {
                    assert(rec == a_get(sources, sk));
                    assert(srcs.contains(sk)) by {
                        assert(srcs[srcs.len() - 1] == sk);
                    }
                }
            }
        } else {
            assert(!a_contains(sources, sk));
        }
    }
}

/// Detaching a child changes no keys, and only the listed sources' child
/// sets, each exactly once.
pub proof fn lemma_detach_children_effect(
    sources: Seq<(NodeKey, SourceV)>,
    node: NodeKey,
    srcs: Seq<NodeKey>,
)
    requires
        a_no_dup(sources),
        e_no_dup(srcs),
    ensures
        a_no_dup(detach_children_s(sources, node, srcs)),
        forall|k: NodeKey|
            a_contains(#[trigger] detach_children_s(sources, node, srcs), k) == a_contains(
                sources,
                k,
            ),
        forall|k: NodeKey|
            a_contains(sources, k) ==> a_get(
                #[trigger] detach_children_s(sources, node, srcs),
                k,
            ) == if srcs.contains(k) {
                SourceV {
                    span: a_get(sources, k).span,
                    children: e_remove(a_get(sources, k).children, node),
                }
            } else {
                a_get(sources, k)
            },
    decreases srcs.len(),
{
    if srcs.len() == 0 {
    } else {
        let d = srcs.drop_last();
        let sk = srcs.last();
        assert(e_no_dup(d)) by {
            assert forall|i: int, j: int| 0 <= i < j < d.len() implies d[i] != d[j] by {
                assert(d[i] == srcs[i] && d[j] == srcs[j]);
            }
        }
        assert(!d.contains(sk)) by {
            if d.contains(sk) {
                let i = choose|i: int| 0 <= i < d.len() && d[i] == sk;
                assert(srcs[i] == srcs[srcs.len() - 1]);
            }
        }
        lemma_detach_children_effect(sources, node, d);
        let s1 = detach_children_s(sources, node, d);
        assert forall|k: NodeKey| #[trigger] srcs.contains(k) implies d.contains(k) || k
            == sk by {
            lemma_contains_drop_last(srcs, k);
        }
        assert forall|k: NodeKey| d.contains(k) implies srcs.contains(k) by {
            lemma_contains_drop_last(srcs, k);
        }
        if a_contains(s1, sk) {
            let rec = a_get(s1, sk);
            let v = SourceV { span: rec.span, children: e_remove(rec.children, node) };
            lemma_a_set_no_dup(s1, sk, v);
            assert forall|k: NodeKey|
                a_contains(#[trigger] a_set(s1, sk, v), k) == a_contains(sources, k) by {
                lemma_a_set_contains(s1, sk, v, k);
            }
            assert forall|k: NodeKey| a_contains(sources, k) implies a_get(
                #[trigger] a_set(s1, sk, v),
                k,
            ) == if srcs.contains(k) {
                SourceV {
                    span: a_get(sources, k).span,
                    children: e_remove(a_get(sources, k).children, node),
                }
            } else {
                a_get(sources, k)
            } by {
                lemma_a_set_contains(s1, sk, v, k);
                lemma_a_set_get(s1, sk, v, k);
                if k == sk {
                    assert(rec == a_get(sources, sk));
                    assert(srcs.contains(sk)) by {
                        assert(srcs[srcs.len() - 1] == sk);
                    }
                }
            }
        } else {
            assert(!a_contains(sources, sk));
        }
    }
}

/// The per-key effect of filtering a source out of its children's records.
pub proof fn lemma_filter_children_effect(
    tainted: Seq<(NodeKey, Seq<NodeKey>)>,
    diags: Seq<(u64, Seq<DiagV>)>,
    src: NodeKey,
    children: Seq<NodeKey>,
    rollback: bool,
)
    requires
        a_no_dup(tainted),
        a_no_dup(diags),
        e_no_dup(children),
        forall|i: int| 0 <= i < tainted.len() ==> e_no_dup(#[trigger] tainted[i].1),
    ensures
        ({
            let (t2, d2) = filter_children_s(tainted, diags, src, children, rollback);
            &&& a_no_dup(t2)
            &&& a_no_dup(d2)
            &&& forall|i: int| 0 <= i < t2.len() ==> e_no_dup(#[trigger] t2[i].1)
            &&& forall|n: NodeKey|
                !children.contains(n) ==> (a_contains(t2, n) == a_contains(tainted, n))
                    && (a_contains(tainted, n) ==> a_get(t2, n) == a_get(tainted, n))
            &&& forall|n: NodeKey|
                #[trigger] children.contains(n) ==> if a_contains(tainted, n) {
                    if e_remove(a_get(tainted, n), src).len() > 0 {
                        a_contains(t2, n) && a_get(t2, n) == e_remove(a_get(tainted, n), src)
                    } else {
                        !a_contains(t2, n)
                    }
                } else {
                    !a_contains(t2, n)
                }
        }),
    decreases children.len(),
{
    if children.len() == 0 {
    } else {
        let d = children.drop_last();
        let c = children.last();
        assert(e_no_dup(d)) by {
            assert forall|i: int, j: int| 0 <= i < j < d.len() implies d[i] != d[j] by {
                assert(d[i] == children[i] && d[j] == children[j]);
            }
        }
        assert(!d.contains(c)) by {
            if d.contains(c) {
                let i = choose|i: int| 0 <= i < d.len() && d[i] == c;
                assert(children[i] == children[children.len() - 1]);
            }
        }
        assert forall|k: NodeKey| #[trigger] children.contains(k) implies d.contains(k) || k
            == c by {
            lemma_contains_drop_last(children, k);
        }
        assert forall|k: NodeKey| d.contains(k) implies children.contains(k) by {
            lemma_contains_drop_last(children, k);
        }
        assert(children.contains(c)) by {
            assert(children[children.len() - 1] == c);
        }
        lemma_filter_children_effect(tainted, diags, src, d, rollback);
        let (t1, d1) = filter_children_s(tainted, diags, src, d, rollback);
        let (t2, d2) = filter_child_s(t1, d1, src, c, rollback);
        // the step only touches key `c`, which the prefix left untouched
        assert(a_contains(t1, c) == a_contains(tainted, c));
        if a_contains(t1, c) {
            let rest = e_remove(a_get(t1, c), src);
            assert(a_get(t1, c) == a_get(tainted, c));
            if rest.len() > 0 {
                lemma_a_set_no_dup(t1, c, rest);
                lemma_a_first_exists(t1, c);
                lemma_a_set_entries(t1, c, rest);
                assert(e_no_dup(rest)) by {
                    assert(e_no_dup(a_get(tainted, c))) by {
                        lemma_a_first_exists(tainted, c);
                    }
                    lemma_e_remove_no_dup(a_get(tainted, c), src);
                }
                assert forall|i: int| 0 <= i < t2.len() implies e_no_dup(
                    #[trigger] t2[i].1,
                ) by {
                    assert(t2[i] == (c, rest) || (i < t1.len() && t2[i] == t1[i]));
                }
                assert forall|n: NodeKey| n != c implies (a_contains(t2, n) == a_contains(
                    t1,
                    n,
                )) && (a_contains(t1, n) ==> a_get(t2, n) == a_get(t1, n)) by {
                    lemma_a_set_contains(t1, c, rest, n);
                    if a_contains(t1, n) {
                        lemma_a_set_get(t1, c, rest, n);
                    }
                }
                assert(a_contains(t2, c) && a_get(t2, c) == rest) by {
                    lemma_a_set_contains(t1, c, rest, c);
                    lemma_a_set_get(t1, c, rest, c);
                }
            } else {
                lemma_a_remove_no_dup(t1, c);
                lemma_a_remove_entries(t1, c);
                assert forall|i: int| 0 <= i < t2.len() implies e_no_dup(
                    #[trigger] t2[i].1,
                ) by {
                    if i < t1.len() {
                        assert(e_no_dup(t1[i].1));
                    }
                    if i + 1 < t1.len() {
                        assert(e_no_dup(t1[i + 1].1));
                    }
                }
                assert forall|n: NodeKey| n != c implies (a_contains(t2, n) == a_contains(
                    t1,
                    n,
                )) && (a_contains(t1, n) ==> a_get(t2, n) == a_get(t1, n)) by {
                    lemma_a_remove_contains(t1, c, n);
                    if a_contains(t1, n) {
                        lemma_a_remove_get(t1, c, n);
                    }
                }
                assert(!a_contains(t2, c)) by {
                    lemma_a_remove_contains(t1, c, c);
                }
                if rollback {
                    match c {
                        NodeKey::Expr(id) => {
                            lemma_a_remove_no_dup(d1, id);
                        },
                        NodeKey::Symbol(_) => {},
                    }
                }
            }
        } else {
            if rollback {
                match c {
                    NodeKey::Expr(id) => {
                        lemma_a_remove_no_dup(d1, id);
                    },
                    NodeKey::Symbol(_) => {},
                }
            }
        }
    }
}

/// Entry-level duplicate-freedom of children follows from key-level facts.
proof fn lemma_entry_children_no_dup(sources: Seq<(NodeKey, SourceV)>, i: int)
    requires
        a_no_dup(sources),
        0 <= i < sources.len(),
    ensures
        a_contains(sources, sources[i].0),
        a_get(sources, sources[i].0) == sources[i].1,
{
    lemma_a_first_at(sources, sources[i].0, i);
}

/// Entry-level lookup of a tainted record from its position.
proof fn lemma_entry_tainted(tainted: Seq<(NodeKey, Seq<NodeKey>)>, i: int)
    requires
        a_no_dup(tainted),
        0 <= i < tainted.len(),
    ensures
        a_contains(tainted, tainted[i].0),
        a_get(tainted, tainted[i].0) == tainted[i].1,
{
    lemma_a_first_at(tainted, tainted[i].0, i);
}

/// Withdrawing a node's taint record keeps the graph invariant; no source
/// is added or removed, and other taint records are untouched.
pub proof fn lemma_detach_wf(st: StateV, k: NodeKey)
    requires
        st_wf(st),
    ensures
        st_wf(detach_s(st, k)),
        forall|s: NodeKey|
            a_contains(#[trigger] detach_s(st, k).sources, s) == a_contains(st.sources, s),
        forall|n: NodeKey|
            a_contains(#[trigger] detach_s(st, k).tainted, n) == (n != k && a_contains(
                st.tainted,
                n,
            )),
        forall|n: NodeKey|
            n != k && a_contains(st.tainted, n) ==> a_get(
                #[trigger] detach_s(st, k).tainted,
                n,
            ) == a_get(st.tainted, n),
        detach_s(st, k).diags == st.diags,
        !a_contains(detach_s(st, k).tainted, k),
        forall|s: NodeKey, n: NodeKey|
            #![trigger tainted_by(detach_s(st, k), n, s)]
            #![trigger child_of(detach_s(st, k), s, n)]
            tainted_by(detach_s(st, k), n, s) == (n != k && tainted_by(st, n, s)),
{
    let r = detach_s(st, k);
    if !a_contains(st.tainted, k) {
        assert forall|s: NodeKey, n: NodeKey|
            #![trigger tainted_by(r, n, s)]
            #![trigger child_of(r, s, n)]
            tainted_by(r, n, s) == (n != k && tainted_by(st, n, s)) by {
            if n == k {
                assert(!tainted_by(st, k, s));
            }
        }
    } else {
        let srcs = a_get(st.tainted, k);
        lemma_wf_lookup(st, k);
        lemma_detach_children_effect(st.sources, k, srcs);
        lemma_a_remove_no_dup(st.tainted, k);
        assert forall|n: NodeKey|
            a_contains(#[trigger] r.tainted, n) == (n != k && a_contains(st.tainted, n)) by {
            lemma_a_remove_contains(st.tainted, k, n);
        }
        assert forall|n: NodeKey|
            n != k && a_contains(st.tainted, n) implies a_get(#[trigger] r.tainted, n) == a_get(
            st.tainted,
            n,
        ) by {
            lemma_a_remove_get(st.tainted, k, n);
        }
        // duplicate-freedom of entries
        assert forall|i: int| 0 <= i < r.tainted.len() implies e_no_dup(
            #[trigger] r.tainted[i].1,
        ) by {
            lemma_a_remove_entries(st.tainted, k);
            if i < st.tainted.len() {
                assert(e_no_dup(st.tainted[i].1));
            }
            if i + 1 < st.tainted.len() {
                assert(e_no_dup(st.tainted[i + 1].1));
            }
        }
        assert forall|i: int| 0 <= i < r.sources.len() implies e_no_dup(
            #[trigger] r.sources[i].1.children,
        ) by {
            lemma_entry_children_no_dup(r.sources, i);
            let key = r.sources[i].0;
            assert(a_contains(r.sources, key));
            assert(a_contains(st.sources, key));
            lemma_wf_lookup(st, key);
            if srcs.contains(key) {
                lemma_e_remove_no_dup(a_get(st.sources, key).children, k);
            }
        }
        // symmetry
        assert forall|s: NodeKey, n: NodeKey|
            #![trigger tainted_by(r, n, s)]
            #![trigger child_of(r, s, n)]
            tainted_by(r, n, s) == (n != k && tainted_by(st, n, s)) by {
            lemma_a_remove_contains(st.tainted, k, n);
            if n != k && a_contains(st.tainted, n) {
                lemma_a_remove_get(st.tainted, k, n);
            }
        }
        assert forall|s: NodeKey, n: NodeKey|
            #![trigger tainted_by(r, n, s)]
            #![trigger child_of(r, s, n)]
            tainted_by(r, n, s) == child_of(r, s, n) by {
            assert(tainted_by(r, n, s) == (n != k && tainted_by(st, n, s)));
            if a_contains(st.sources, s) {
                lemma_wf_lookup(st, s);
                if n == k {
                    assert(!tainted_by(r, k, s));
                    if srcs.contains(s) {
                        lemma_e_remove_no_dup(a_get(st.sources, s).children, k);
                        assert(!a_get(r.sources, s).children.contains(k));
                    } else {
                        assert(child_of(st, s, k) == tainted_by(st, k, s));
                        assert(tainted_by(st, k, s) == srcs.contains(s));
                        assert(a_get(r.sources, s) == a_get(st.sources, s));
                    }
                } else {
                    if srcs.contains(s) {
                        lemma_e_remove_no_dup(a_get(st.sources, s).children, k);
                        assert(a_get(r.sources, s).children.contains(n) == a_get(
                            st.sources,
                            s,
                        ).children.contains(n));
                    } else {
                        assert(a_get(r.sources, s) == a_get(st.sources, s));
                    }
                    assert(child_of(r, s, n) == child_of(st, s, n));
                    assert(tainted_by(st, n, s) == child_of(st, s, n));
                }
            } else {
                assert(!child_of(r, s, n));
                assert(!child_of(st, s, n));
                assert(!tainted_by(st, n, s));
            }
        }
        // non-empty records
        assert forall|n: NodeKey| #[trigger] a_contains(r.tainted, n) implies a_get(
            r.tainted,
            n,
        ).len() > 0 by {
            assert(n != k && a_contains(st.tainted, n));
        }
    }
}

/// Unregistering a source keeps the graph invariant; exactly that source
/// leaves the registry.
pub proof fn lemma_filter_source_wf(st: StateV, k: NodeKey, rollback: bool)
    requires
        st_wf(st),
    ensures
        st_wf(filter_source_s(st, k, rollback)),
        forall|s: NodeKey|
            a_contains(#[trigger] filter_source_s(st, k, rollback).sources, s) == (s != k
                && a_contains(st.sources, s)),
{
    let r = filter_source_s(st, k, rollback);
    if !a_contains(st.sources, k) {
    } else {
        let st1 = detach_s(st, k);
        lemma_detach_wf(st, k);
        let rec = a_get(st1.sources, k);
        lemma_wf_lookup(st1, k);
        let sources2 = a_remove(st1.sources, k);
        lemma_a_remove_no_dup(st1.sources, k);
        lemma_filter_children_effect(st1.tainted, st1.diags, k, rec.children, rollback);
        let (t2, d2) = filter_children_s(st1.tainted, st1.diags, k, rec.children, rollback);
        assert(r == (StateV { sources: sources2, tainted: t2, diags: d2 }));
        // source keys
        assert forall|s: NodeKey|
            #[trigger] a_contains(sources2, s) == (s != k && a_contains(st.sources, s)) by {
            lemma_a_remove_contains(st1.sources, k, s);
        }
        assert forall|s: NodeKey|
            s != k && #[trigger] a_contains(st1.sources, s) implies a_get(sources2, s) == a_get(
            st1.sources,
            s,
        ) by {
            lemma_a_remove_get(st1.sources, k, s);
        }
        // children of `k` are exactly the nodes tainted by `k` in st1
        assert forall|n: NodeKey|
            rec.children.contains(n) == #[trigger] tainted_by(st1, n, k) by {
            assert(child_of(st1, k, n) == tainted_by(st1, n, k));
        }
        // entry-level duplicate-freedom
        assert forall|i: int| 0 <= i < sources2.len() implies e_no_dup(
            #[trigger] sources2[i].1.children,
        ) by {
            lemma_entry_children_no_dup(sources2, i);
            let key = sources2[i].0;
            lemma_wf_lookup(st1, key);
        }
        // symmetry
        assert forall|s: NodeKey, n: NodeKey|
            #![trigger tainted_by(r, n, s)]
            #![trigger child_of(r, s, n)]
            tainted_by(r, n, s) == child_of(r, s, n) by {
            if a_contains(st1.sources, s) {
                lemma_wf_lookup(st1, s);
            }
            if rec.children.contains(n) {
                assert(tainted_by(st1, n, k));
                assert(a_contains(st1.tainted, n));
                lemma_wf_lookup(st1, n);
                let old_rec = a_get(st1.tainted, n);
                let rest = e_remove(old_rec, k);
                lemma_e_remove_no_dup(old_rec, k);
                if rest.len() > 0 {
                    assert(a_contains(t2, n) && a_get(t2, n) == rest);
                    assert(rest.contains(s) == (s != k && old_rec.contains(s)));
                    assert(tainted_by(r, n, s) == (s != k && tainted_by(st1, n, s)));
                } else {
                    assert(!a_contains(t2, n));
                    assert(!tainted_by(r, n, s));
                    // the record held only `k`, so no other source lists n
                    if s != k && child_of(st1, s, n) {
                        assert(tainted_by(st1, n, s));
                        assert(old_rec.contains(s));
                        assert(rest.contains(s));
                    }
                }
            } else {
                assert(a_contains(t2, n) == a_contains(st1.tainted, n));
                if a_contains(st1.tainted, n) {
                    assert(a_get(t2, n) == a_get(st1.tainted, n));
                }
                assert(tainted_by(r, n, s) == tainted_by(st1, n, s));
                if tainted_by(st1, n, s) && s == k {
                    assert(child_of(st1, k, n));
                    assert(rec.children.contains(n));
                }
            }
            if s != k {
                assert(child_of(r, s, n) == child_of(st1, s, n));
                assert(child_of(st1, s, n) == tainted_by(st1, n, s));
            } else {
                assert(!a_contains(sources2, k));
                assert(!child_of(r, k, n));
            }
        }
        // non-empty records
        assert forall|n: NodeKey| #[trigger] a_contains(t2, n) implies a_get(t2, n).len()
            > 0 by {
            if rec.children.contains(n) {
                assert(a_contains(st1.tainted, n));
                lemma_wf_lookup(st1, n);
                let rest = e_remove(a_get(st1.tainted, n), k);
                if rest.len() > 0 {
                    assert(a_get(t2, n) == rest);
                } else {
                    assert(!a_contains(t2, n));
                }
            } else {
                assert(a_contains(st1.tainted, n));
                assert(a_get(t2, n) == a_get(st1.tainted, n));
            }
        }
        // entry-level duplicate-freedom of the surviving records comes from
        // the effect lemma directly
        assert(a_no_dup(t2));
        assert(a_no_dup(d2));
    }
}

/// Applying [`filter_source_s`] over a sequence of sources keeps the
/// invariant.
pub proof fn lemma_filter_sources_wf(st: StateV, srcs: Seq<NodeKey>, rollback: bool)
    requires
        st_wf(st),
    ensures
        st_wf(filter_sources_s(st, srcs, rollback)),
    decreases srcs.len(),
{
    if srcs.len() == 0 {
    } else {
        lemma_filter_sources_wf(st, srcs.drop_last(), rollback);
        lemma_filter_source_wf(
            filter_sources_s(st, srcs.drop_last(), rollback),
            srcs.last(),
            rollback,
        );
    }
}

/// Clearing a node's taint and its sources keeps the invariant.
pub proof fn lemma_filter_taint_wf(st: StateV, k: NodeKey, rollback: bool)
    requires
        st_wf(st),
    ensures
        st_wf(filter_taint_s(st, k, rollback)),
{
    if a_contains(st.tainted, k) {
        lemma_detach_wf(st, k);
        lemma_filter_sources_wf(detach_s(st, k), a_get(st.tainted, k), rollback);
    }
}

/// Clearing every taint record keeps the invariant (the registry survives).
pub proof fn lemma_filter_all_wf(st: StateV)
    requires
        st_wf(st),
    ensures
        st_wf(filter_all_s(st)),
{
    let r = filter_all_s(st);
    assert forall|i: int, j: int| 0 <= i < j < r.sources.len() implies r.sources[i].0
        != r.sources[j].0 by {
        assert(r.sources[i].0 == st.sources[i].0);
        assert(r.sources[j].0 == st.sources[j].0);
    }
    assert forall|i: int| 0 <= i < r.sources.len() implies e_no_dup(
        #[trigger] r.sources[i].1.children,
    ) by {
        assert(r.sources[i].1.children == Seq::<NodeKey>::empty());
    }
    assert forall|s: NodeKey, n: NodeKey|
        #![trigger tainted_by(r, n, s)]
        #![trigger child_of(r, s, n)]
        tainted_by(r, n, s) == child_of(r, s, n) by {
        assert(!a_contains(r.tainted, n));
        if a_contains(r.sources, s) {
            lemma_a_first_exists(r.sources, s);
            let f = a_first(r.sources, s);
            assert(r.sources[f].1.children == Seq::<NodeKey>::empty());
        }
    }
}

/// Registering a fresh source keeps the invariant; exactly that source
/// joins the registry.
pub proof fn lemma_add_source_wf(st: StateV, k: NodeKey, span: Span)
    requires
        st_wf(st),
    ensures
        st_wf(add_source_s(st, k, span)),
        forall|s: NodeKey|
            a_contains(#[trigger] add_source_s(st, k, span).sources, s) == (s == k || a_contains(
                st.sources,
                s,
            )),
{
    let r = add_source_s(st, k, span);
    lemma_filter_source_wf(st, k, false);
    let st1 = filter_source_s(st, k, false);
    lemma_detach_wf(st1, k);
    let st2 = detach_s(st1, k);
    assert(!a_contains(st2.sources, k));
    assert(!a_contains(st2.tainted, k));
    // no record lists `k` as a source, and no child set holds `k`
    assert forall|n: NodeKey| !(#[trigger] tainted_by(st2, n, k)) by {
        if tainted_by(st2, n, k) {
            assert(child_of(st2, k, n));
        }
    }
    assert forall|s: NodeKey| !(#[trigger] child_of(st2, s, k)) by {
        if child_of(st2, s, k) {
            assert(tainted_by(st2, k, s));
        }
    }
    let v = SourceV { span, children: seq![k] };
    lemma_a_set_no_dup(st2.sources, k, v);
    lemma_a_set_no_dup(st2.tainted, k, seq![k]);
    assert(r.sources == a_set(st2.sources, k, v));
    assert(r.tainted == a_set(st2.tainted, k, seq![k]));
    assert forall|s: NodeKey|
        a_contains(#[trigger] r.sources, s) == (s == k || a_contains(st.sources, s)) by {
        lemma_a_set_contains(st2.sources, k, v, s);
    }
    assert forall|i: int| 0 <= i < r.sources.len() implies e_no_dup(
        #[trigger] r.sources[i].1.children,
    ) by {
        lemma_a_set_entries(st2.sources, k, v);
        assert(r.sources[i] == (k, v) || (i < st2.sources.len() && r.sources[i]
            == st2.sources[i]));
        assert(e_no_dup(seq![k])) by {
            assert(seq![k].len() == 1);
        }
    }
    assert forall|i: int| 0 <= i < r.tainted.len() implies e_no_dup(
        #[trigger] r.tainted[i].1,
    ) by {
        lemma_a_set_entries(st2.tainted, k, seq![k]);
        assert(r.tainted[i] == (k, seq![k]) || (i < st2.tainted.len() && r.tainted[i]
            == st2.tainted[i]));
        assert(e_no_dup(seq![k])) by {
            assert(seq![k].len() == 1);
        }
    }
    assert forall|s: NodeKey, n: NodeKey|
        #![trigger tainted_by(r, n, s)]
        #![trigger child_of(r, s, n)]
        tainted_by(r, n, s) == child_of(r, s, n) by {
        lemma_a_set_contains(st2.tainted, k, seq![k], n);
        lemma_a_set_contains(st2.sources, k, v, s);
        if a_contains(r.tainted, n) {
            lemma_a_set_get(st2.tainted, k, seq![k], n);
        }
        if a_contains(r.sources, s) {
            lemma_a_set_get(st2.sources, k, v, s);
        }
        if n == k {
            assert(a_contains(r.tainted, k));
            assert(a_get(r.tainted, k) == seq![k]);
            assert(seq![k].contains(s) == (s == k)) by {
                if seq![k].contains(s) {
                    let t = choose|t: int| 0 <= t < 1 && seq![k][t] == s;
                }
                assert(seq![k][0] == k);
            }
            if s == k {
                assert(a_get(r.sources, k) == v);
                assert(v.children.contains(k)) by {
                    assert(v.children[0] == k);
                }
            } else {
                if a_contains(st2.sources, s) {
                    assert(child_of(r, s, k) == child_of(st2, s, k));
                }
            }
        } else {
            assert(tainted_by(r, n, s) == tainted_by(st2, n, s));
            if s == k {
                assert(!tainted_by(st2, n, k));
                assert(a_get(r.sources, k) == v);
                assert(v.children.contains(n) == false) by {
                    if v.children.contains(n) {
                        let t = choose|t: int| 0 <= t < 1 && v.children[t] == n;
                    }
                }
            } else {
                assert(child_of(r, s, n) == child_of(st2, s, n));
            }
        }
    }
    assert forall|n: NodeKey| #[trigger] a_contains(r.tainted, n) implies a_get(
        r.tainted,
        n,
    ).len() > 0 by {
        lemma_a_set_contains(st2.tainted, k, seq![k], n);
        lemma_a_set_get(st2.tainted, k, seq![k], n);
    }
}

/// Recording a taint record for registered, distinct sources keeps the
/// invariant.
pub proof fn lemma_add_tainted_wf(st: StateV, k: NodeKey, srcs: Seq<NodeKey>)
    requires
        st_wf(st),
        e_no_dup(srcs),
        srcs.len() > 0,
        forall|j: int| 0 <= j < srcs.len() ==> a_contains(st.sources, #[trigger] srcs[j]),
    ensures
        st_wf(add_tainted_s(st, k, srcs)),
{
    let r = add_tainted_s(st, k, srcs);
    lemma_detach_wf(st, k);
    let st1 = detach_s(st, k);
    assert(!a_contains(st1.tainted, k));
    assert forall|s: NodeKey| !(#[trigger] child_of(st1, s, k)) by {
        if child_of(st1, s, k) {
            assert(tainted_by(st1, k, s));
        }
    }
    lemma_attach_children_effect(st1.sources, k, srcs);
    let sources2 = attach_children_s(st1.sources, k, srcs);
    lemma_a_set_no_dup(st1.tainted, k, srcs);
    assert(r.sources == sources2);
    assert(r.tainted == a_set(st1.tainted, k, srcs));
    assert forall|i: int| 0 <= i < r.sources.len() implies e_no_dup(
        #[trigger] r.sources[i].1.children,
    ) by {
        lemma_entry_children_no_dup(r.sources, i);
        let key = r.sources[i].0;
        assert(a_contains(r.sources, key));
        assert(a_contains(st1.sources, key));
        lemma_wf_lookup(st1, key);
        if srcs.contains(key) {
            let c = a_get(st1.sources, key).children;
            assert(e_no_dup(child_insert(c, k))) by {
                if !c.contains(k) {
                    assert forall|x: int, y: int|
                        0 <= x < y < c.push(k).len() implies c.push(k)[x] != c.push(k)[y] by {
                        if y < c.len() {
                        } else {
                            assert(c.push(k)[y] == k);
                            if x < c.len() {
                                assert(c.push(k)[x] == c[x]);
                                if c[x] == k {
                                    assert(c.contains(k));
                                }
                            }
                        }
                    }
                }
            }
        }
    }
    assert forall|i: int| 0 <= i < r.tainted.len() implies e_no_dup(
        #[trigger] r.tainted[i].1,
    ) by {
        lemma_a_set_entries(st1.tainted, k, srcs);
        assert(r.tainted[i] == (k, srcs) || (i < st1.tainted.len() && r.tainted[i]
            == st1.tainted[i]));
    }
    assert forall|s: NodeKey, n: NodeKey|
        #![trigger tainted_by(r, n, s)]
        #![trigger child_of(r, s, n)]
        tainted_by(r, n, s) == child_of(r, s, n) by {
        lemma_a_set_contains(st1.tainted, k, srcs, n);
        if a_contains(r.tainted, n) {
            lemma_a_set_get(st1.tainted, k, srcs, n);
        }
        if a_contains(st1.sources, s) {
            lemma_wf_lookup(st1, s);
        }
        if n == k {
            assert(a_contains(r.tainted, k) && a_get(r.tainted, k) == srcs);
            if srcs.contains(s) {
                assert(a_contains(st1.sources, s));
                let c = a_get(st1.sources, s).children;
                assert(a_get(r.sources, s) == (SourceV {
                    span: a_get(st1.sources, s).span,
                    children: child_insert(c, k),
                }));
                assert(child_insert(c, k).contains(k)) by {
                    if c.contains(k) {
                    } else {
                        assert(c.push(k)[c.len() as int] == k);
                    }
                }
                assert(child_of(r, s, k));
            } else {
                if a_contains(st1.sources, s) {
                    assert(a_get(r.sources, s) == a_get(st1.sources, s));
                    assert(!child_of(st1, s, k));
                }
            }
        } else {
            assert(tainted_by(r, n, s) == tainted_by(st1, n, s));
            if a_contains(st1.sources, s) {
                let c = a_get(st1.sources, s).children;
                if srcs.contains(s) {
                    assert(a_get(r.sources, s).children == child_insert(c, k));
                    assert(child_insert(c, k).contains(n) == c.contains(n)) by {
                        if !c.contains(k) {
                            if c.push(k).contains(n) {
                                let t = choose|t: int|
                                    0 <= t < c.push(k).len() && c.push(k)[t] == n;
                                if t < c.len() {
                                    assert(c[t] == n);
                                }
                            }
                            if c.contains(n) {
                                let t = choose|t: int| 0 <= t < c.len() && c[t] == n;
                                assert(c.push(k)[t] == n);
                            }
                        }
                    }
                    assert(child_of(r, s, n) == child_of(st1, s, n));
                } else {
                    assert(a_get(r.sources, s) == a_get(st1.sources, s));
                    assert(child_of(r, s, n) == child_of(st1, s, n));
                }
                assert(child_of(st1, s, n) == tainted_by(st1, n, s));
            } else {
                assert(!child_of(r, s, n));
                assert(!tainted_by(st1, n, s));
            }
        }
    }
    assert forall|n: NodeKey| #[trigger] a_contains(r.tainted, n) implies a_get(
        r.tainted,
        n,
    ).len() > 0 by {
        lemma_a_set_contains(st1.tainted, k, srcs, n);
        lemma_a_set_get(st1.tainted, k, srcs, n);
    }
}

/// The sink check and every other diagnostic recording keep the invariant:
/// they touch only the diagnostic groups.
pub proof fn lemma_diags_set_wf(st: StateV, id: u64, g: Seq<DiagV>)
    requires
        st_wf(st),
    ensures
        st_wf(
            StateV { sources: st.sources, tainted: st.tainted, diags: a_set(st.diags, id, g) },
        ),
{
    let r = StateV { sources: st.sources, tainted: st.tainted, diags: a_set(st.diags, id, g) };
    lemma_a_set_no_dup(st.diags, id, g);
    assert forall|s: NodeKey, n: NodeKey|
        #![trigger tainted_by(r, n, s)]
        #![trigger child_of(r, s, n)]
        tainted_by(r, n, s) == child_of(r, s, n) by {
        assert(tainted_by(r, n, s) == tainted_by(st, n, s));
        assert(child_of(r, s, n) == child_of(st, s, n));
    }
}

/// Under duplicate-freedom, a tainted node's recorded source set is itself
/// duplicate-free.
pub proof fn lemma_record_no_dup(st: StateV, k: NodeKey)
    requires
        st_dupfree(st),
        a_contains(st.tainted, k),
    ensures
        e_no_dup(a_get(st.tainted, k)),
{
    lemma_a_first_exists(st.tainted, k);
}

/// The executable taint graph. Its view is a [`StateV`]; every mutating
/// method states which state function it computes.
#[derive(Debug)]
pub struct TaintGraph {
    sources: NodeMap<SourceRec>,
    tainted: NodeMap<NodeSet>,
    diags: IdMap<DiagGroup>,
}

/// One registered taint source.
#[derive(Debug)]
pub struct SourceRec {
    pub span: Span,
    pub children: NodeSet,
}

impl View for SourceRec {
    type V = SourceV;

    open spec fn view(&self) -> SourceV {
        SourceV { span: self.span, children: self.children@ }
    }
}

impl View for TaintGraph {
    type V = StateV;

    closed spec fn view(&self) -> StateV {
        StateV { sources: self.sources@, tainted: self.tainted@, diags: self.diags@ }
    }
}

impl TaintGraph {
    /// The executable representation is duplicate-free.
    pub open spec fn wf(&self) -> bool {
        st_dupfree(self@)
    }

    pub fn new() -> (g: TaintGraph)
        ensures
            g@ == (StateV {
                sources: Seq::<(NodeKey, SourceV)>::empty(),
                tainted: Seq::<(NodeKey, Seq<NodeKey>)>::empty(),
                diags: Seq::<(u64, Seq<DiagV>)>::empty(),
            }),
            g.wf(),
    {
        TaintGraph { sources: NodeMap::new(), tainted: NodeMap::new(), diags: IdMap::new() }
    }

    pub fn is_source(&self, k: &NodeId) -> (r: bool)
        ensures
            r == a_contains(self@.sources, k.key()),
    {
        self.sources.contains_key(k)
    }

    pub fn is_tainted(&self, k: &NodeId) -> (r: bool)
        ensures
            r == a_contains(self@.tainted, k.key()),
    {
        self.tainted.contains_key(k)
    }

    pub fn has_diagnostic(&self, id: u64) -> (r: bool)
        ensures
            r == a_contains(self@.diags, id),
    {
        self.diags.contains_key(id)
    }

    /// The sources currently tainting `k`, if `k` is tainted.
    pub fn tainted_sources(&self, k: &NodeId) -> (r: Option<&NodeSet>)
        ensures
            match r {
                Some(s) => a_contains(self@.tainted, k.key()) && s@ == a_get(
                    self@.tainted,
                    k.key(),
                ),
                None => !a_contains(self@.tainted, k.key()),
            },
    {
        self.tainted.get(k)
    }

    /// Registers `node` as a child of every source in `srcs`.
    fn attach_children(&mut self, node: &NodeId, srcs: &NodeSet)
        requires
            old(self).wf(),
        ensures
            final(self).wf(),
            final(self)@ == (StateV {
                sources: attach_children_s(old(self)@.sources, node.key(), srcs@),
                tainted: old(self)@.tainted,
                diags: old(self)@.diags,
            }),
    {
        let ghost s0 = self@.sources;
        let n = srcs.len();
        let mut i: usize = 0;
        while i < n
            invariant
                i <= n,
                n == srcs@.len(),
                self.wf(),
                self@.sources == attach_children_s(s0, node.key(), srcs@.take(i as int)),
                self@.tainted == old(self)@.tainted,
                self@.diags == old(self)@.diags,
            decreases n - i,
        {
            let sk = srcs.at(i);
            let ghost cur = self@.sources;
            match self.sources.find(sk) {
                Some(j) => {
                    let span = self.sources.value_at(j).span;
                    let mut ch = self.sources.value_at(j).children.dup();
                    proof {
                        assert(e_no_dup(self@.sources[j as int].1.children));
                    }
                    ch.insert(node.dup());
                    let ghost newv = SourceV { span, children: ch@ };
                    self.sources.set_value_at(j, SourceRec { span, children: ch });
                    proof {
                        assert(self@.sources == a_set(cur, sk.key(), newv));
                        assert(newv == (SourceV {
                            span: a_get(cur, sk.key()).span,
                            children: child_insert(a_get(cur, sk.key()).children, node.key()),
                        }));
                        lemma_a_set_no_dup(cur, sk.key(), newv);
                        lemma_a_set_entries(cur, sk.key(), newv);
                        assert forall|m: int|
                            0 <= m < self@.sources.len() implies e_no_dup(
                            #[trigger] self@.sources[m].1.children,
                        ) by {
                            assert(self@.sources[m] == (sk.key(), newv) || (m < cur.len()
                                && self@.sources[m] == cur[m]));
                        }
                    }
                }
                None => {},
            }
            proof {
                assert(srcs@.take(i as int + 1).drop_last() =~= srcs@.take(i as int));
                assert(srcs@.take(i as int + 1).last() == srcs@[i as int]);
                assert(self@.sources == attach_children_s(
                    s0,
                    node.key(),
                    srcs@.take(i as int + 1),
                ));
            }
            i += 1;
        }
        proof {
            assert(srcs@.take(n as int) =~= srcs@);
        }
    }

    /// Removes `node` from the child set of every source in `srcs`.
    fn detach_children(&mut self, node: &NodeId, srcs: &NodeSet)
        requires
            old(self).wf(),
        ensures
            final(self).wf(),
            final(self)@ == (StateV {
                sources: detach_children_s(old(self)@.sources, node.key(), srcs@),
                tainted: old(self)@.tainted,
                diags: old(self)@.diags,
            }),
    {
        let ghost s0 = self@.sources;
        let n = srcs.len();
        let mut i: usize = 0;
        while i < n
            invariant
                i <= n,
                n == srcs@.len(),
                self.wf(),
                self@.sources == detach_children_s(s0, node.key(), srcs@.take(i as int)),
                self@.tainted == old(self)@.tainted,
                self@.diags == old(self)@.diags,
            decreases n - i,
        {
            let sk = srcs.at(i);
            let ghost cur = self@.sources;
            match self.sources.find(sk) {
                Some(j) => {
                    let span = self.sources.value_at(j).span;
                    let mut ch = self.sources.value_at(j).children.dup();
                    proof {
                        assert(e_no_dup(self@.sources[j as int].1.children));
                    }
                    ch.remove(node);
                    let ghost newv = SourceV { span, children: ch@ };
                    self.sources.set_value_at(j, SourceRec { span, children: ch });
                    proof {
                        assert(self@.sources == a_set(cur, sk.key(), newv));
                        assert(newv == (SourceV {
                            span: a_get(cur, sk.key()).span,
                            children: e_remove(a_get(cur, sk.key()).children, node.key()),
                        }));
                        lemma_a_set_no_dup(cur, sk.key(), newv);
                        lemma_a_set_entries(cur, sk.key(), newv);
                        assert forall|m: int|
                            0 <= m < self@.sources.len() implies e_no_dup(
                            #[trigger] self@.sources[m].1.children,
                        ) by {
                            assert(self@.sources[m] == (sk.key(), newv) || (m < cur.len()
                                && self@.sources[m] == cur[m]));
                        }
                    }
                }
                None => {},
            }
            proof {
                assert(srcs@.take(i as int + 1).drop_last() =~= srcs@.take(i as int));
                assert(srcs@.take(i as int + 1).last() == srcs@[i as int]);
                assert(self@.sources == detach_children_s(
                    s0,
                    node.key(),
                    srcs@.take(i as int + 1),
                ));
            }
            i += 1;
        }
        proof {
            assert(srcs@.take(n as int) =~= srcs@);
        }
    }

    /// Withdraws `k`'s tainted record symmetrically.
    fn detach(&mut self, k: &NodeId)
        requires
            old(self).wf(),
        ensures
            final(self).wf(),
            final(self)@ == detach_s(old(self)@, k.key()),
    {
        let removed = self.tainted.remove(k);
        match removed {
            Some(set) => {
                proof {
                    lemma_a_remove_no_dup(old(self)@.tainted, k.key());
                    lemma_a_remove_entries(old(self)@.tainted, k.key());
                    assert forall|m: int|
                        0 <= m < self@.tainted.len() implies e_no_dup(
                        #[trigger] self@.tainted[m].1,
                    ) by {
                        if m < old(self)@.tainted.len() {
                            assert(e_no_dup(old(self)@.tainted[m].1));
                        }
                        if m + 1 < old(self)@.tainted.len() {
                            assert(e_no_dup(old(self)@.tainted[m + 1].1));
                        }
                    }
                }
                self.detach_children(k, &set);
            },
            None => {},
        }
    }

    /// Records that `node` is tainted by exactly the sources in `srcs`,
    /// replacing any prior record for `node`. Every member of `srcs` must be
    /// a registered source.
    pub fn add_tainted_node(&mut self, node: &NodeId, srcs: &NodeSet)
        requires
            old(self).wf(),
            srcs.wf(),
        ensures
            final(self).wf(),
            final(self)@ == add_tainted_s(old(self)@, node.key(), srcs@),
            st_wf(old(self)@) && srcs@.len() > 0 && (forall|j: int|
                0 <= j < srcs@.len() ==> a_contains(old(self)@.sources, #[trigger] srcs@[j]))
                ==> st_wf(final(self)@),
    {
        proof {
            if st_wf(old(self)@) && srcs@.len() > 0 && (forall|j: int|
                0 <= j < srcs@.len() ==> a_contains(old(self)@.sources, #[trigger] srcs@[j])) {
                lemma_add_tainted_wf(old(self)@, node.key(), srcs@);
            }
        }
        self.detach(node);
        self.attach_children(node, srcs);
        let ghost before = self@.tainted;
        self.tainted.insert(node.dup(), srcs.dup());
        proof {
            lemma_a_set_entries(before, node.key(), srcs@);
            assert forall|m: int|
                0 <= m < self@.tainted.len() implies e_no_dup(#[trigger] self@.tainted[m].1) by {
                assert(self@.tainted[m] == (node.key(), srcs@) || (m < before.len()
                    && self@.tainted[m] == before[m]));
            }
        }
    }

    /// Registers `k` as a fresh source with the given span, tainted by
    /// itself. Any earlier record under the same identity is withdrawn
    /// first.
    pub fn add_taint_source(&mut self, k: &NodeId, span: Span)
        requires
            old(self).wf(),
        ensures
            final(self).wf(),
            final(self)@ == add_source_s(old(self)@, k.key(), span),
            st_wf(old(self)@) ==> st_wf(final(self)@),
    {
        proof {
            if st_wf(old(self)@) {
                lemma_add_source_wf(old(self)@, k.key(), span);
            }
        }
        self.filter_source(k, false);
        self.detach(k);
        let ghost st1 = self@;
        let mut children = NodeSet::new();
        children.insert(k.dup());
        proof {
            assert(children@ =~= seq![k.key()]);
        }
        self.sources.insert(k.dup(), SourceRec { span, children });
        let mut selfset = NodeSet::new();
        selfset.insert(k.dup());
        proof {
            assert(selfset@ =~= seq![k.key()]);
        }
        self.tainted.insert(k.dup(), selfset);
        proof {
            lemma_a_set_entries(st1.sources, k.key(), SourceV { span, children: seq![k.key()] });
            lemma_a_set_entries(st1.tainted, k.key(), seq![k.key()]);
            assert forall|m: int|
                0 <= m < self@.sources.len() implies e_no_dup(
                #[trigger] self@.sources[m].1.children,
            ) by {
                assert(self@.sources[m] == (k.key(), SourceV { span, children: seq![k.key()] })
                    || (m < st1.sources.len() && self@.sources[m] == st1.sources[m]));
            }
            assert forall|m: int|
                0 <= m < self@.tainted.len() implies e_no_dup(#[trigger] self@.tainted[m].1) by {
                assert(self@.tainted[m] == (k.key(), seq![k.key()]) || (m < st1.tainted.len()
                    && self@.tainted[m] == st1.tainted[m]));
            }
        }
    }

    /// Unregisters the source `k`; see [`filter_source_s`].
    pub fn filter_source(&mut self, k: &NodeId, rollback: bool)
        requires
            old(self).wf(),
        ensures
            final(self).wf(),
            final(self)@ == filter_source_s(old(self)@, k.key(), rollback),
            st_wf(old(self)@) ==> st_wf(final(self)@),
    {
        proof {
            if st_wf(old(self)@) {
                lemma_filter_source_wf(old(self)@, k.key(), rollback);
            }
        }
        if !self.sources.contains_key(k) {
            return;
        }
        self.detach(k);
        let ghost std = self@;
        proof {
            lemma_detach_keeps_sources(old(self)@, k.key());
        }
        let removed = self.sources.remove(k);
        match removed {
            Some(rec) => {
                proof {
                    lemma_a_remove_no_dup(std.sources, k.key());
                    lemma_a_remove_entries(std.sources, k.key());
                    assert forall|m: int|
                        0 <= m < self@.sources.len() implies e_no_dup(
                        #[trigger] self@.sources[m].1.children,
                    ) by {
                        if m < std.sources.len() {
                            assert(e_no_dup(std.sources[m].1.children));
                        }
                        if m + 1 < std.sources.len() {
                            assert(e_no_dup(std.sources[m + 1].1.children));
                        }
                    }
                }
                let ghost s1 = self@.sources;
                let ghost t1 = self@.tainted;
                let ghost d0 = self@.diags;
                proof {
                    assert(t1 == std.tainted);
                    assert(rec@ == a_get(std.sources, k.key()));
                }
                let n = rec.children.len();
                let mut i: usize = 0;
                while i < n
                    invariant
                        i <= n,
                        n == rec.children@.len(),
                        self.wf(),
                        self@.sources == s1,
                        (self@.tainted, self@.diags) == filter_children_s(
                            t1,
                            d0,
                            k.key(),
                            rec.children@.take(i as int),
                            rollback,
                        ),
                    decreases n - i,
                {
                    let c = rec.children.at(i);
                    let ghost tc = self@.tainted;
                    let ghost dc = self@.diags;
                    match self.tainted.find(c) {
                        Some(j) => {
                            let mut rest = self.tainted.value_at(j).dup();
                            proof {
                                assert(e_no_dup(self@.tainted[j as int].1));
                            }
                            rest.remove(k);
                            if rest.len() > 0 {
                                let ghost restv = rest@;
                                self.tainted.set_value_at(j, rest);
                                proof {
                                    assert(self@.tainted == a_set(tc, c.key(), restv));
                                    lemma_a_set_no_dup(tc, c.key(), restv);
                                    lemma_a_set_entries(tc, c.key(), restv);
                                    assert forall|m: int|
                                        0 <= m < self@.tainted.len() implies e_no_dup(
                                        #[trigger] self@.tainted[m].1,
                                    ) by {
                                        assert(self@.tainted[m] == (c.key(), restv) || (m
                                            < tc.len() && self@.tainted[m] == tc[m]));
                                    }
                                }
                            } else {
                                self.tainted.remove(c);
                                proof {
                                    lemma_a_remove_no_dup(tc, c.key());
                                    lemma_a_remove_entries(tc, c.key());
                                    assert forall|m: int|
                                        0 <= m < self@.tainted.len() implies e_no_dup(
                                        #[trigger] self@.tainted[m].1,
                                    ) by {
                                        if m < tc.len() {
                                            assert(e_no_dup(tc[m].1));
                                        }
                                        if m + 1 < tc.len() {
                                            assert(e_no_dup(tc[m + 1].1));
                                        }
                                    }
                                }
                                if rollback {
                                    if let NodeId::Expr(id) = c {
                                        self.diags.remove(*id);
                                        proof {
                                            lemma_a_remove_no_dup(dc, *id);
                                        }
                                    }
                                }
                            }
                        },
                        None => {
                            if rollback {
                                if let NodeId::Expr(id) = c {
                                    self.diags.remove(*id);
                                    proof {
                                        lemma_a_remove_no_dup(dc, *id);
                                    }
                                }
                            }
                        },
                    }
                    proof {
                        assert((self@.tainted, self@.diags) == filter_child_s(
                            tc,
                            dc,
                            k.key(),
                            c.key(),
                            rollback,
                        ));
                        assert(rec.children@.take(i as int + 1).drop_last() =~= rec.children@.take(
                            i as int,
                        ));
                        assert(rec.children@.take(i as int + 1).last() == rec.children@[i as int]);
                        assert((self@.tainted, self@.diags) == filter_children_s(
                            t1,
                            d0,
                            k.key(),
                            rec.children@.take(i as int + 1),
                            rollback,
                        ));
                    }
                    i += 1;
                }
                proof {
                    assert(rec.children@.take(n as int) =~= rec.children@);
                }
            },
            None => {
                proof {
                    assert(false);
                }
            },
        }
    }

    /// Clears the taint of node `k` and unregisters each of its sources;
    /// see [`filter_taint_s`].
    pub fn filter_taint(&mut self, k: &NodeId, rollback: bool)
        requires
            old(self).wf(),
        ensures
            final(self).wf(),
            final(self)@ == filter_taint_s(old(self)@, k.key(), rollback),
            st_wf(old(self)@) ==> st_wf(final(self)@),
    {
        proof {
            if st_wf(old(self)@) {
                lemma_filter_taint_wf(old(self)@, k.key(), rollback);
            }
        }
        let got = self.tainted.get(k);
        let set = match got {
            Some(s) => s.dup(),
            None => {
                return;
            },
        };
        self.detach(k);
        let ghost st1 = self@;
        let n = set.len();
                let mut i: usize = 0;
                while i < n
                    invariant
                        i <= n,
                        n == set@.len(),
                        self.wf(),
                        self@ == filter_sources_s(st1, set@.take(i as int), rollback),
                    decreases n - i,
                {
                    self.filter_source(set.at(i), rollback);
                    proof {
                        assert(set@.take(i as int + 1).drop_last() =~= set@.take(i as int));
                        assert(set@.take(i as int + 1).last() == set@[i as int]);
                    }
                    i += 1;
                }
        proof {
            assert(set@.take(n as int) =~= set@);
        }
    }

    /// Entering a new function definition clears all sources and tainted
    /// nodes, keeping the recorded diagnostics.
    pub fn reset(&mut self)
        requires
            old(self).wf(),
        ensures
            final(self).wf(),
            final(self)@ == (StateV {
                sources: Seq::<(NodeKey, SourceV)>::empty(),
                tainted: Seq::<(NodeKey, Seq<NodeKey>)>::empty(),
                diags: old(self)@.diags,
            }),
            st_wf(old(self)@) ==> st_wf(final(self)@),
    {
        self.sources.clear();
        self.tainted.clear();
        proof {
            if st_wf(old(self)@) {
                assert forall|s2: NodeKey, n: NodeKey|
                    #![trigger tainted_by(self@, n, s2)]
                    #![trigger child_of(self@, s2, n)]
                    tainted_by(self@, n, s2) == child_of(self@, s2, n) by {
                    assert(!a_contains(self@.tainted, n));
                    assert(!a_contains(self@.sources, s2));
                }
            }
        }
    }

    /// The number of registered sources.
    pub fn sources_len(&self) -> (n: usize)
        ensures
            n == self@.sources.len(),
    {
        self.sources.len()
    }

    /// The identity of the `i`th registered source.
    pub fn source_key_at(&self, i: usize) -> (k: &NodeId)
        requires
            i < self@.sources.len(),
        ensures
            k.key() == self@.sources[i as int].0,
    {
        self.sources.key_at(i)
    }

    /// Records a diagnostic group for expression `id`, replacing any prior
    /// group for the same expression.
    pub fn record_group(&mut self, id: u64, g: DiagGroup)
        requires
            old(self).wf(),
        ensures
            final(self).wf(),
            final(self)@ == (StateV {
                sources: old(self)@.sources,
                tainted: old(self)@.tainted,
                diags: a_set(old(self)@.diags, id, g@),
            }),
            st_wf(old(self)@) ==> st_wf(final(self)@),
    {
        proof {
            if st_wf(old(self)@) {
                lemma_diags_set_wf(old(self)@, id, g@);
            }
        }
        self.diags.insert(id, g);
    }

    /// The number of recorded diagnostic groups.
    pub fn diags_len(&self) -> (n: usize)
        ensures
            n == self@.diags.len(),
    {
        self.diags.len()
    }

    /// The expression id of the `i`th recorded group.
    pub fn diag_key_at(&self, i: usize) -> (k: u64)
        requires
            i < self@.diags.len(),
        ensures
            k == self@.diags[i as int].0,
    {
        self.diags.key_at(i)
    }

    /// The `i`th recorded group.
    pub fn diag_group_at(&self, i: usize) -> (g: &DiagGroup)
        requires
            i < self@.diags.len(),
        ensures
            g@ == self@.diags[i as int].1,
    {
        self.diags.value_at(i)
    }

    /// Builds the diagnostic group of the tainted expression `id`: one
    /// warning at `span`, then one note per distinct contributing source
    /// span in ascending span order. A contributing source with no registry
    /// entry yields no note; under the graph invariant that case cannot
    /// arise, and [`lemma_note_spans_complete`] proves that with every
    /// source registered the notes cover the whole record.
    pub fn generate_diagnostics(&self, id: u64, span: Span) -> (g: DiagGroup)
        requires
            self.wf(),
            a_contains(self@.tainted, NodeKey::Expr(id)),
        ensures
            g@ == group_s(self@, id, span),
    {
        let key = NodeId::Expr(id);
        let got = self.tainted.get(&key);
        match got {
            Some(set) => {
                let mut spans: Vec<Span> = Vec::new();
                let n = set.len();
                let mut i: usize = 0;
                while i < n
                    invariant
                        i <= n,
                        n == set@.len(),
                        set@ == a_get(self@.tainted, NodeKey::Expr(id)),
                        spans@ == note_spans_s(self@.sources, set@.take(i as int)),
                    decreases n - i,
                {
                    let sid = set.at(i);
                    match self.sources.get(sid) {
                        Some(rec) => {
                            sorted_insert_span(&mut spans, rec.span);
                        },
                        None => {},
                    }
                    proof {
                        assert(set@.take(i as int + 1).drop_last() =~= set@.take(i as int));
                        assert(set@.take(i as int + 1).last() == set@[i as int]);
                    }
                    i += 1;
                }
                proof {
                    assert(set@.take(n as int) =~= set@);
                }
                let mut items: Vec<Diagnostic> = Vec::new();
                items.push(Diagnostic::new_at(Level::Warning, taint_warning_msg(), span));
                let ghost note_of = |sp: Span| DiagV {
                    level: Level::Note,
                    message: taint_note_text(),
                    spans: seq![sp],
                    suggestion: None,
                };
                proof {
                    assert(items@.map_values(|d: Diagnostic| d@) =~= group_s(
                        self@,
                        id,
                        span,
                    ).take(1));
                }
                let m = spans.len();
                let mut j: usize = 0;
                while j < m
                    invariant
                        j <= m,
                        m == spans@.len(),
                        spans@ == note_spans_s(self@.sources, a_get(
                            self@.tainted,
                            NodeKey::Expr(id),
                        )),
                        items@.map_values(|d: Diagnostic| d@) == group_s(self@, id, span).take(
                            j as int + 1,
                        ),
                        group_s(self@, id, span).len() == m + 1,
                    decreases m - j,
                {
                    let ghost before = items@;
                    items.push(Diagnostic::new_at(Level::Note, taint_note_msg(), spans[j]));
                    proof {
                        let f = |d: Diagnostic| d@;
                        assert(before.map_values(f).len() == before.len());
                        assert forall|t: int| 0 <= t < items@.len() implies items@.map_values(f)[t]
                            == group_s(self@, id, span).take(j as int + 2)[t] by {
                            if t < before.len() {
                                assert(items@[t] == before[t]);
                                assert(before.map_values(f)[t] == f(before[t]));
                            }
                        }
                        assert(items@.map_values(f) =~= group_s(self@, id, span).take(
                            j as int + 2,
                        ));
                    }
                    j += 1;
                }
                let g = DiagGroup { items };
                proof {
                    assert(group_s(self@, id, span).take(m as int + 1) =~= group_s(
                        self@,
                        id,
                        span,
                    ));
                }
                g
            },
            None => {
                proof {
                    assert(false);
                }
                DiagGroup { items: Vec::new() }
            },
        }
    }

    /// The sink check: if expression `id` is currently tainted, record its
    /// diagnostic group, replacing any prior group for the same expression.
    pub fn taint_check(&mut self, id: u64, span: Span)
        requires
            old(self).wf(),
        ensures
            final(self).wf(),
            final(self)@ == taint_check_s(old(self)@, id, span),
            st_wf(old(self)@) ==> st_wf(final(self)@),
    {
        proof {
            if st_wf(old(self)@) && a_contains(old(self)@.tainted, NodeKey::Expr(id)) {
                lemma_diags_set_wf(old(self)@, id, group_s(old(self)@, id, span));
            }
        }
        let key = NodeId::Expr(id);
        if self.tainted.contains_key(&key) {
            let g = self.generate_diagnostics(id, span);
            self.diags.insert(id, g);
        }
    }

    /// Clears every tainted-node record, keeping the source registry; see
    /// [`filter_all_s`]. No entry leaves the source registry: the keys and
    /// spans of every registered source are preserved, in order.
    pub fn filter_all(&mut self)
        requires
            old(self).wf(),
        ensures
            final(self).wf(),
            final(self)@ == filter_all_s(old(self)@),
            final(self)@.sources.len() == old(self)@.sources.len(),
            forall|i: int|
                0 <= i < old(self)@.sources.len() ==> (#[trigger] final(self)@.sources[i]).0
                    == old(self)@.sources[i].0 && final(self)@.sources[i].1.span == old(
                    self,
                )@.sources[i].1.span,
            final(self)@.tainted == Seq::<(NodeKey, Seq<NodeKey>)>::empty(),
            final(self)@.diags == old(self)@.diags,
            st_wf(old(self)@) ==> st_wf(final(self)@),
    {
        proof {
            if st_wf(old(self)@) {
                lemma_filter_all_wf(old(self)@);
            }
        }
        self.tainted.clear();
        let ghost s0 = self@.sources;
        let n = self.sources.len();
        let mut i: usize = 0;
        while i < n
            invariant
                i <= n,
                n == self@.sources.len(),
                self.wf(),
                self@.tainted == Seq::<(NodeKey, Seq<NodeKey>)>::empty(),
                self@.diags == old(self)@.diags,
                s0.len() == n,
                forall|j: int| i <= j < n ==> self@.sources[j] == s0[j],
                forall|j: int|
                    0 <= j < i ==> self@.sources[j] == (
                        s0[j].0,
                        SourceV { span: s0[j].1.span, children: Seq::<NodeKey>::empty() },
                    ),
            decreases n - i,
        {
            let span = self.sources.value_at(i).span;
            let empty = NodeSet::new();
            self.sources.set_value_at(i, SourceRec { span, children: empty });
            i += 1;
        }
        proof {
            assert(self@.sources =~= clear_children_s(s0));
        }
    }
}

} // verus!
