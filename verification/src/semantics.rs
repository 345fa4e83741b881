//! The meaning of the traversal: every step of the analysis is defined here
//! as a mathematical function from checker state and expression to checker
//! state. The executable engine in [`crate::checker`] computes exactly these
//! functions, which pins the whole pass down as a function of its inputs —
//! in particular, two runs over the same tree yield the same diagnostics.

use vstd::prelude::*;
use crate::annotation::{AnnV, KindV, WarningKind};
use crate::assoc::{a_contains, a_get, a_set};
use crate::ast::{is_define_name, param_type_of_spec, Expr, ExprKind, ParamV};
use crate::diagnostic::DiagV;
use crate::diagnostic::Level;
use crate::node::NodeKey;
use crate::span::Span;
use crate::state::{
    add_source_s, add_tainted_s, child_insert, filter_all_s, filter_source_s, filter_taint_s,
    taint_check_s, SourceV, StateV,
};

verus! {

/// The mathematical content of one function's recorded parameter flags.
pub struct InfoV {
    /// Whether each parameter was force-registered as an untrusted input.
    pub unchecked_params: Seq<bool>,
    /// Whether each force-registered parameter ended up filtered out.
    pub filtered_params: Seq<bool>,
}

/// The mathematical content of the whole checker.
pub struct CheckerV {
    pub st: StateV,
    pub annotations: Seq<AnnV>,
    pub active: Option<int>,
    pub public_funcs: Seq<Seq<char>>,
    pub user_funcs: Seq<(Seq<char>, InfoV)>,
    pub in_as_contract: bool,
    pub trusted_sender: bool,
    pub trusted_caller: bool,
}

/// The freshly constructed checker.
pub open spec fn init_s(
    annotations: Seq<AnnV>,
    trusted_sender: bool,
    trusted_caller: bool,
) -> CheckerV {
    CheckerV {
        st: StateV {
            sources: Seq::empty(),
            tainted: Seq::empty(),
            diags: Seq::empty(),
        },
        annotations,
        active: None,
        public_funcs: Seq::empty(),
        user_funcs: Seq::empty(),
        in_as_contract: false,
        trusted_sender,
        trusted_caller,
    }
}

/// Scans the (line-sorted) annotations from position `i` for the one
/// anchored to the line directly above `line`; gives up at the first
/// annotation at or below `line`.
pub open spec fn resolve_from_s(annos: Seq<AnnV>, line: u32, i: int) -> Option<int>
    decreases annos.len() - i,
{
    if i < 0 || i >= annos.len() {
        None
    } else if annos[i].span.start_line + 1 == line {
        Some(i)
    } else if annos[i].span.start_line >= line {
        None
    } else {
        resolve_from_s(annos, line, i + 1)
    }
}

/// The annotation active for an expression starting at `span`, if any.
pub open spec fn resolve_s(annos: Seq<AnnV>, span: Span) -> Option<int> {
    resolve_from_s(annos, span.start_line, 0)
}

/// The kind of the active annotation, if one is active.
pub open spec fn active_kind_s(annos: Seq<AnnV>, active: Option<int>) -> Option<KindV> {
    match active {
        Some(i) => if 0 <= i < annos.len() {
            Some(annos[i].kind)
        } else {
            None
        },
        None => None,
    }
}

/// Whether the active annotation suppresses taint findings wholesale.
pub open spec fn allow_data_s(annos: Seq<AnnV>, active: Option<int>) -> bool {
    match active_kind_s(annos, active) {
        Some(KindV::Allow(w)) => w == WarningKind::UncheckedData,
        _ => false,
    }
}

/// Whether the active annotation asks a private function's parameters to be
/// treated as untrusted inputs.
pub open spec fn allow_params_s(annos: Seq<AnnV>, active: Option<int>) -> bool {
    match active_kind_s(annos, active) {
        Some(KindV::Allow(w)) => w == WarningKind::UncheckedParams,
        _ => false,
    }
}

/// Unregisters the named sources, in order, without rolling back recorded
/// diagnostics.
pub open spec fn filter_names_s(st: StateV, names: Seq<Seq<char>>) -> StateV
    decreases names.len(),
{
    if names.len() == 0 {
        st
    } else {
        filter_source_s(
            filter_names_s(st, names.drop_last()),
            NodeKey::Symbol(names.last()),
            false,
        )
    }
}

/// Applies the active annotation after an expression's own traversal: a
/// `filter` unregisters the named sources, a `filter(*)` clears every
/// tainted node.
pub open spec fn apply_filters_s(st: StateV, annos: Seq<AnnV>, active: Option<int>) -> StateV {
    match active_kind_s(annos, active) {
        Some(KindV::Filter(names)) => filter_names_s(st, names),
        Some(KindV::FilterAll) => filter_all_s(st),
        _ => st,
    }
}

/// The warning reported for an `asserts!` whose condition compares
/// `tx-sender` for equality.
pub open spec fn auth_warning_text() -> Seq<char> {
    "unsafe authentication: asserting equality with tx-sender"@
}

/// The pattern of an unsafely authenticated assertion:
/// `(asserts! (is-eq tx-sender ..) ..)`.
pub open spec fn is_unsafe_auth_s(e: Expr) -> bool {
    match e.kind {
        ExprKind::List(ref l) => l@.len() == 3 && l@[0].is_atom_named("asserts!"@)
            && (match l@[1].kind {
            ExprKind::List(ref c) => c@.len() == 3 && c@[0].is_atom_named("is-eq"@)
                && c@[1].is_atom_named("tx-sender"@),
            _ => false,
        }),
        _ => false,
    }
}

/// The single-warning diagnostic group of an unsafe authentication.
pub open spec fn auth_group_s(span: Span) -> Seq<DiagV> {
    seq![
        DiagV {
            level: Level::Warning,
            message: auth_warning_text(),
            spans: seq![span],
            suggestion: None,
        },
    ]
}

/// Records the unsafe-authentication warning when the pattern matches.
pub open spec fn detect_auth_s(st: StateV, e: Expr) -> StateV {
    if is_unsafe_auth_s(e) {
        StateV { sources: st.sources, tainted: st.tainted, diags: a_set(st.diags, e.id, auth_group_s(e.span)) }
    } else {
        st
    }
}

/// The atom rule: a symbol reference is tainted exactly when the symbol
/// currently is, and inherits its sources.
pub open spec fn visit_atom_s(st: StateV, id: u64, name: Seq<char>) -> StateV {
    if a_contains(st.tainted, NodeKey::Symbol(name)) {
        add_tainted_s(st, NodeKey::Expr(id), a_get(st.tainted, NodeKey::Symbol(name)))
    } else {
        st
    }
}

/// Folds the elements of `items` into the accumulated source set, keeping
/// first-insertion order and dropping duplicates.
pub open spec fn union_into_s(acc: Seq<NodeKey>, items: Seq<NodeKey>) -> Seq<NodeKey>
    decreases items.len(),
{
    if items.len() == 0 {
        acc
    } else {
        child_insert(union_into_s(acc, items.drop_last()), items.last())
    }
}

/// The union of the source sets of every tainted element of `l`, in
/// traversal order.
pub open spec fn collect_sources_s(st: StateV, l: Seq<Expr>) -> Seq<NodeKey>
    decreases l.len(),
{
    if l.len() == 0 {
        Seq::empty()
    } else {
        let acc = collect_sources_s(st, l.drop_last());
        let c = l.last();
        if a_contains(st.tainted, NodeKey::Expr(c.id)) {
            union_into_s(acc, a_get(st.tainted, NodeKey::Expr(c.id)))
        } else {
            acc
        }
    }
}

/// The conservative merge at an n-ary construct: the expression is tainted
/// by the union of its operands' sources, if that union is non-empty.
pub open spec fn merge_list_s(st: StateV, id: u64, l: Seq<Expr>) -> StateV {
    let srcs = collect_sources_s(st, l);
    if srcs.len() > 0 {
        add_tainted_s(st, NodeKey::Expr(id), srcs)
    } else {
        st
    }
}

/// Folding a record into the accumulator adds exactly its members.
pub proof fn lemma_union_into_contains(acc: Seq<NodeKey>, items: Seq<NodeKey>)
    ensures
        forall|x: NodeKey|
            #[trigger] union_into_s(acc, items).contains(x) == (acc.contains(x)
                || items.contains(x)),
    decreases items.len(),
{
    if items.len() == 0 {
        assert forall|x: NodeKey|
            #[trigger] union_into_s(acc, items).contains(x) == (acc.contains(x)
                || items.contains(x)) by {
            if items.contains(x) {
                let t = choose|t: int| 0 <= t < items.len() && items[t] == x;
            }
        }
    } else {
        let d = items.drop_last();
        let last = items.last();
        lemma_union_into_contains(acc, d);
        let u1 = union_into_s(acc, d);
        let r = union_into_s(acc, items);
        assert forall|x: NodeKey|
            #[trigger] r.contains(x) == (acc.contains(x) || items.contains(x)) by {
            crate::assoc::lemma_contains_drop_last(items, x);
            if u1.contains(last) {
                assert(r == u1);
            } else {
                assert(r == u1.push(last));
                if r.contains(x) {
                    let t = choose|t: int| 0 <= t < r.len() && r[t] == x;
                    if t < u1.len() {
                        assert(u1[t] == x);
                        assert(u1.contains(x));
                    } else {
                        assert(x == last);
                    }
                }
                if u1.contains(x) {
                    let t = choose|t: int| 0 <= t < u1.len() && u1[t] == x;
                    assert(r[t] == x);
                }
                if x == last {
                    assert(r[r.len() - 1] == x);
                }
            }
        }
    }
}

/// The merge policy at an n-ary construct, spelled out: the collected
/// source set holds exactly the sources tainting some operand, so the
/// construct is tainted by the union of its operands' source sets.
pub proof fn lemma_merge_collects_the_union(st: StateV, l: Seq<Expr>)
    ensures
        forall|x: NodeKey|
            #[trigger] collect_sources_s(st, l).contains(x) == exists|i: int|
                0 <= i < l.len() && crate::state::tainted_by(
                    st,
                    NodeKey::Expr(#[trigger] l[i].id),
                    x,
                ),
    decreases l.len(),
{
    if l.len() == 0 {
        assert forall|x: NodeKey| !(#[trigger] collect_sources_s(st, l).contains(x)) by {
            if collect_sources_s(st, l).contains(x) {
                let t = choose|t: int|
                    0 <= t < collect_sources_s(st, l).len() && collect_sources_s(st, l)[t] == x;
            }
        }
    } else {
        let d = l.drop_last();
        let c = l.last();
        lemma_merge_collects_the_union(st, d);
        let acc = collect_sources_s(st, d);
        if a_contains(st.tainted, NodeKey::Expr(c.id)) {
            lemma_union_into_contains(acc, a_get(st.tainted, NodeKey::Expr(c.id)));
        }
        assert forall|x: NodeKey|
            #[trigger] collect_sources_s(st, l).contains(x) == exists|i: int|
                0 <= i < l.len() && crate::state::tainted_by(
                    st,
                    NodeKey::Expr(#[trigger] l[i].id),
                    x,
                ) by {
            if collect_sources_s(st, l).contains(x) {
                if acc.contains(x) {
                    let i = choose|i: int|
                        0 <= i < d.len() && crate::state::tainted_by(
                            st,
                            NodeKey::Expr(d[i].id),
                            x,
                        );
                    assert(l[i] == d[i]);
                    assert(crate::state::tainted_by(st, NodeKey::Expr(l[i].id), x));
                } else {
                    assert(crate::state::tainted_by(st, NodeKey::Expr(c.id), x));
                    assert(l[l.len() - 1] == c);
                }
            }
            if exists|i: int|
                0 <= i < l.len() && crate::state::tainted_by(st, NodeKey::Expr(l[i].id), x) {
                let i = choose|i: int|
                    0 <= i < l.len() && crate::state::tainted_by(st, NodeKey::Expr(l[i].id), x);
                if i < l.len() - 1 {
                    assert(d[i] == l[i]);
                    assert(acc.contains(x));
                } else {
                    assert(l[i] == c);
                }
            }
        }
    }
}

/// A name list extended with `name` (unchanged when already present).
pub open spec fn name_insert_s(names: Seq<Seq<char>>, name: Seq<char>) -> Seq<Seq<char>> {
    if names.contains(name) {
        names
    } else {
        names.push(name)
    }
}

/// One parameter descriptor read from its `(name type)` pair, if the pair
/// is well-formed.
pub open spec fn param_of_s(e: Expr) -> Option<ParamV> {
    match e.kind {
        ExprKind::List(ref l) => if l@.len() == 2 {
            match l@[0].kind {
                ExprKind::Atom(ref n) => Some(
                    ParamV { name: n@, typ: param_type_of_spec(&l@[1]), decl_span: e.span },
                ),
                _ => None,
            }
        } else {
            None
        },
        _ => None,
    }
}

/// The parameter descriptors of a signature's pairs, if all are
/// well-formed.
pub open spec fn params_of_s(pairs: Seq<Expr>) -> Option<Seq<ParamV>>
    decreases pairs.len(),
{
    if pairs.len() == 0 {
        Some(Seq::empty())
    } else {
        match params_of_s(pairs.drop_last()) {
            Some(ps) => match param_of_s(pairs.last()) {
                Some(p) => Some(ps.push(p)),
                None => None,
            },
            None => None,
        }
    }
}

/// If any signature pair is malformed, the whole parameter list is.
pub proof fn lemma_params_none(pairs: Seq<Expr>, i: int)
    requires
        0 <= i < pairs.len(),
        param_of_s(pairs[i]) is None,
    ensures
        params_of_s(pairs) is None,
    decreases pairs.len(),
{
    if i == pairs.len() - 1 {
    } else {
        assert(pairs.drop_last()[i] == pairs[i]);
        lemma_params_none(pairs.drop_last(), i);
    }
}

/// Inserting a group at the first position whose key is above the new
/// group's key matches the recursive definition (and keeps the insertion
/// stable: equal keys go after).
pub proof fn lemma_sorted_group_insert_at(
    s: Seq<(u64, Seq<DiagV>)>,
    g: (u64, Seq<DiagV>),
    p: int,
)
    requires
        0 <= p <= s.len(),
        forall|j: int| 0 <= j < p ==> !gkey_s(g.1).lt_spec(gkey_s(#[trigger] s[j].1)),
        p < s.len() ==> gkey_s(g.1).lt_spec(gkey_s(s[p].1)),
    ensures
        sorted_insert_group_s(s, g) == s.take(p) + seq![g] + s.skip(p),
    decreases s.len(),
{
    if p == 0 {
        if s.len() == 0 {
            assert(seq![g] =~= s.take(0) + seq![g] + s.skip(0));
        } else {
            assert(seq![g] + s =~= s.take(0) + seq![g] + s.skip(0));
        }
    } else {
        let d = s.drop_first();
        assert(!gkey_s(g.1).lt_spec(gkey_s(s[0].1)));
        assert forall|j: int| 0 <= j < p - 1 implies !gkey_s(g.1).lt_spec(
            gkey_s(#[trigger] d[j].1),
        ) by {
            assert(d[j] == s[j + 1]);
        }
        assert(p - 1 < d.len() ==> d[p - 1] == s[p]);
        lemma_sorted_group_insert_at(d, g, p - 1);
        assert(seq![s[0]] + (d.take(p - 1) + seq![g] + d.skip(p - 1)) =~= s.take(p) + seq![g]
            + s.skip(p));
    }
}

/// Seeds the non-exempt parameters as fresh sources, in order.
pub open spec fn seed_params_s(st: StateV, ps: Seq<ParamV>) -> StateV
    decreases ps.len(),
{
    if ps.len() == 0 {
        st
    } else {
        let st1 = seed_params_s(st, ps.drop_last());
        let p = ps.last();
        if p.typ.is_exempt_spec() {
            st1
        } else {
            add_source_s(st1, NodeKey::Symbol(p.name), p.decl_span)
        }
    }
}

/// Seeds every parameter as a fresh source, regardless of exemption.
pub open spec fn seed_all_params_s(st: StateV, ps: Seq<ParamV>) -> StateV
    decreases ps.len(),
{
    if ps.len() == 0 {
        st
    } else {
        add_source_s(
            seed_all_params_s(st, ps.drop_last()),
            NodeKey::Symbol(ps.last().name),
            ps.last().decl_span,
        )
    }
}

/// A fresh per-function graph: entering a function definition clears all
/// sources and tainted nodes, keeping the recorded diagnostics.
pub open spec fn reset_graph_s(st: StateV) -> StateV {
    StateV { sources: Seq::empty(), tainted: Seq::empty(), diags: st.diags }
}

/// Unregisters the named source symmetrically on leaving its lexical scope.
pub open spec fn unbind_s(st: StateV, name: Seq<char>) -> StateV {
    filter_source_s(st, NodeKey::Symbol(name), false)
}

/// Unregisters all binding names of the `let` pairs on scope exit.
pub open spec fn unbind_pairs_s(st: StateV, pairs: Seq<Expr>) -> StateV
    decreases pairs.len(),
{
    if pairs.len() == 0 {
        st
    } else {
        let st1 = unbind_pairs_s(st, pairs.drop_last());
        match param_bind_name_s(pairs.last()) {
            Some(name) => unbind_s(st1, name),
            None => st1,
        }
    }
}

/// The binding name of a `let` pair `(name value)`, if well-formed.
pub open spec fn param_bind_name_s(pair: Expr) -> Option<Seq<char>> {
    match pair.kind {
        ExprKind::List(ref l) => if l@.len() == 2 {
            match l@[0].kind {
                ExprKind::Atom(ref n) => Some(n@),
                _ => None,
            }
        } else {
            None
        },
        _ => None,
    }
}

/// Every `let` pair is a well-formed `(name value)` pair.
pub open spec fn let_pairs_wf(pairs: Seq<Expr>) -> bool {
    forall|i: int| 0 <= i < pairs.len() ==> param_bind_name_s(#[trigger] pairs[i]) is Some
}

/// `tx-sender`, syntactically.
pub open spec fn match_tx_sender_s(e: Expr) -> bool {
    e.is_atom_named("tx-sender"@)
}

/// `contract-caller`, syntactically.
pub open spec fn match_contract_caller_s(e: Expr) -> bool {
    e.is_atom_named("contract-caller"@)
}

/// Whether the equality comparison with operands `a` and `b` counts as a
/// global trust check under the given settings.
pub open spec fn trust_check_fires_s(cv: CheckerV, a: Expr, b: Expr) -> bool {
    ||| cv.trusted_sender && ((match_tx_sender_s(a) && !a_contains(
        cv.st.tainted,
        NodeKey::Expr(b.id),
    )) || (match_tx_sender_s(b) && !a_contains(cv.st.tainted, NodeKey::Expr(a.id))))
    ||| cv.trusted_caller && ((match_contract_caller_s(a) && !a_contains(
        cv.st.tainted,
        NodeKey::Expr(b.id),
    )) || (match_contract_caller_s(b) && !a_contains(cv.st.tainted, NodeKey::Expr(a.id))))
}

/// The keys of every registered source, in registration order.
pub open spec fn source_keys_s(st: StateV) -> Seq<NodeKey> {
    st.sources.map_values(|p: (NodeKey, SourceV)| p.0)
}

/// The equality-comparison rule: when the trust check fires, every current
/// source is wiped, and the comparison expression itself is re-registered
/// as tainted by the pre-wipe sources, preserving provenance for queued
/// diagnostics while preventing future expressions from inheriting taint.
pub open spec fn comparison_s(cv: CheckerV, e: Expr, a: Expr, b: Expr) -> StateV {
    if trust_check_fires_s(cv, a, b) {
        let srcs = source_keys_s(cv.st);
        let st1 = filter_all_s(cv.st);
        if srcs.len() > 0 {
            add_tainted_s(st1, NodeKey::Expr(e.id), srcs)
        } else {
            st1
        }
    } else {
        cv.st
    }
}

/// One full expression step: resolve the active annotation, run the
/// unsafe-authentication pattern check, short-circuit under
/// `allow(unchecked-data)`, dispatch on the node's category, and finally
/// apply the active annotation's filters.
pub open spec fn traverse_expr_s(cv: CheckerV, e: Expr) -> CheckerV
    decreases e, 3int,
{
    let active = resolve_s(cv.annotations, e.span);
    let cv1 = CheckerV { st: detect_auth_s(cv.st, e), active, ..cv };
    if allow_data_s(cv1.annotations, active) {
        cv1
    } else {
        let cv2 = match e.kind {
            ExprKind::Atom(ref n) => CheckerV { st: visit_atom_s(cv1.st, e.id, n@), ..cv1 },
            ExprKind::Literal => cv1,
            ExprKind::Field => cv1,
            ExprKind::TraitRef => cv1,
            ExprKind::List(ref l) => traverse_list_s(cv1, e, l@),
        };
        let cv3 = CheckerV { active, ..cv2 };
        CheckerV { st: apply_filters_s(cv3.st, cv3.annotations, active), ..cv3 }
    }
}

/// Traverses the elements of `s` in order.
pub open spec fn traverse_seq_s(cv: CheckerV, s: Seq<Expr>) -> CheckerV
    decreases s, 4int,
{
    if s.len() == 0 {
        cv
    } else {
        traverse_expr_s(traverse_seq_s(cv, s.drop_last()), s.last())
    }
}

/// Traverses the lazy-logical operands in order, treating each as a
/// validating check that clears its own taint.
pub open spec fn lazy_fold_s(cv: CheckerV, ops: Seq<Expr>) -> CheckerV
    decreases ops, 4int,
{
    if ops.len() == 0 {
        cv
    } else {
        let cv1 = lazy_fold_s(cv, ops.drop_last());
        let cv2 = traverse_expr_s(cv1, ops.last());
        CheckerV {
            st: filter_taint_s(cv2.st, NodeKey::Expr(ops.last().id), false),
            ..cv2
        }
    }
}

/// Traverses the `let` binding pairs in order: a binding whose value is
/// tainted becomes a fresh synthetic source (anchored at the `let`'s own
/// span) carrying the value's source set.
pub open spec fn bindings_fold_s(cv: CheckerV, pairs: Seq<Expr>, let_span: Span) -> CheckerV
    decreases pairs, 4int,
{
    if pairs.len() == 0 {
        cv
    } else {
        let cv1 = bindings_fold_s(cv, pairs.drop_last(), let_span);
        let pair = pairs.last();
        match pair.kind {
            ExprKind::List(ref pl) => if pl@.len() == 2 {
                match pl@[0].kind {
                    ExprKind::Atom(ref n) => {
                        let cv2 = traverse_expr_s(cv1, pl@[1]);
                        if a_contains(cv2.st.tainted, NodeKey::Expr(pl@[1].id)) {
                            let srcs = a_get(cv2.st.tainted, NodeKey::Expr(pl@[1].id));
                            let st3 = add_source_s(cv2.st, NodeKey::Symbol(n@), let_span);
                            CheckerV {
                                st: add_tainted_s(st3, NodeKey::Symbol(n@), srcs),
                                ..cv2
                            }
                        } else {
                            cv2
                        }
                    },
                    _ => cv1,
                }
            } else {
                cv1
            },
            _ => cv1,
        }
    }
}

/// Dispatch over a list form's head.
pub open spec fn traverse_list_s(cv: CheckerV, e: Expr, l: Seq<Expr>) -> CheckerV
    decreases l, 2int,
{
    if l.len() == 0 {
        cv
    } else {
        match l[0].kind {
            ExprKind::Atom(ref n) => {
                if is_define_name(n@) {
                    if n@ == "define-public"@ {
                        traverse_define_public_s(cv, e, l)
                    } else if n@ == "define-private"@ {
                        traverse_define_private_s(cv, e, l)
                    } else if n@ == "define-read-only"@ {
                        visit_define_read_only_s(cv, l)
                    } else {
                        cv
                    }
                } else if n@ == "let"@ {
                    traverse_let_s(cv, e, l)
                } else if n@ == "begin"@ {
                    traverse_begin_s(cv, e, l)
                } else if n@ == "if"@ && l.len() == 4 {
                    let cv1 = traverse_expr_s(cv, l[1]);
                    let cv2 = CheckerV {
                        st: filter_taint_s(cv1.st, NodeKey::Expr(l[1].id), false),
                        ..cv1
                    };
                    let cv3 = traverse_expr_s(cv2, l[2]);
                    let cv4 = traverse_expr_s(cv3, l[3]);
                    CheckerV { st: merge_list_s(cv4.st, e.id, l), ..cv4 }
                } else if n@ == "and"@ || n@ == "or"@ {
                    let cv1 = lazy_fold_s(cv, l.drop_first());
                    CheckerV { st: merge_list_s(cv1.st, e.id, l), ..cv1 }
                } else if n@ == "as-contract"@ && l.len() == 2 {
                    let cv1 = CheckerV { in_as_contract: true, ..cv };
                    let cv2 = traverse_expr_s(cv1, l[1]);
                    let cv3 = CheckerV { in_as_contract: cv.in_as_contract, ..cv2 };
                    CheckerV { st: merge_list_s(cv3.st, e.id, l), ..cv3 }
                } else if n@ == "var-set"@ && l.len() == 3 {
                    let cv1 = traverse_expr_s(cv, l[2]);
                    let cv2 = CheckerV {
                        st: taint_check_s(cv1.st, l[2].id, l[2].span),
                        ..cv1
                    };
                    CheckerV { st: merge_list_s(cv2.st, e.id, l), ..cv2 }
                } else if n@ == "is-eq"@ && l.len() >= 3 {
                    let cv1 = traverse_seq_s(cv, l.drop_first());
                    let cv2 = CheckerV { st: comparison_s(cv1, e, l[1], l[2]), ..cv1 };
                    CheckerV { st: merge_list_s(cv2.st, e.id, l), ..cv2 }
                } else {
                    let cv1 = traverse_seq_s(cv, l.drop_first());
                    CheckerV { st: merge_list_s(cv1.st, e.id, l), ..cv1 }
                }
            },
            _ => {
                let cv1 = traverse_seq_s(cv, l.drop_first());
                CheckerV { st: merge_list_s(cv1.st, e.id, l), ..cv1 }
            },
        }
    }
}

/// The span a diagnostic group is ordered by: its first diagnostic's first
/// span (a fallback for the empty shapes that the engine never produces).
pub open spec fn gkey_s(items: Seq<DiagV>) -> Span {
    if items.len() > 0 && items[0].spans.len() > 0 {
        items[0].spans[0]
    } else {
        Span { start_line: 0, start_column: 0, end_line: 0, end_column: 0 }
    }
}

/// Stable insertion of a group into a sequence sorted by group key: an
/// incoming group goes after any group with an equal key.
pub open spec fn sorted_insert_group_s(
    s: Seq<(u64, Seq<DiagV>)>,
    g: (u64, Seq<DiagV>),
) -> Seq<(u64, Seq<DiagV>)>
    decreases s.len(),
{
    if s.len() == 0 {
        seq![g]
    } else if gkey_s(g.1).lt_spec(gkey_s(s[0].1)) {
        seq![g] + s
    } else {
        seq![s[0]] + sorted_insert_group_s(s.drop_first(), g)
    }
}

/// The stored groups, stably sorted by group key.
pub open spec fn sort_groups_s(s: Seq<(u64, Seq<DiagV>)>) -> Seq<(u64, Seq<DiagV>)>
    decreases s.len(),
{
    if s.len() == 0 {
        s
    } else {
        sorted_insert_group_s(sort_groups_s(s.drop_last()), s.last())
    }
}

/// The sorted groups flattened into one diagnostic sequence.
pub open spec fn flatten_groups_s(s: Seq<(u64, Seq<DiagV>)>) -> Seq<DiagV>
    decreases s.len(),
{
    if s.len() == 0 {
        Seq::empty()
    } else {
        flatten_groups_s(s.drop_last()) + s.last().1
    }
}

/// The pass's only output: the recorded groups sorted by the span of each
/// group's warning, flattened into one ordered sequence.
pub open spec fn finalize_s(diags: Seq<(u64, Seq<DiagV>)>) -> Seq<DiagV> {
    flatten_groups_s(sort_groups_s(diags))
}

/// The whole pass: traverse every top-level expression, then collect the
/// diagnostics in their final order.
pub open spec fn run_s(cv: CheckerV, exprs: Seq<Expr>) -> Seq<DiagV> {
    finalize_s(traverse_seq_s(cv, exprs).st.diags)
}

/// For a public function definition, parameters of an exempt type are
/// never registered as sources: seeding the freshly reset per-function
/// graph registers exactly the names of the non-exempt parameters.
pub proof fn lemma_exempt_params_never_sources(st: StateV, ps: Seq<ParamV>)
    requires
        crate::state::st_wf(st),
        st.sources.len() == 0,
    ensures
        crate::state::st_wf(seed_params_s(st, ps)),
        forall|k: NodeKey|
            a_contains(#[trigger] seed_params_s(st, ps).sources, k) == exists|i: int|
                0 <= i < ps.len() && !ps[i].typ.is_exempt_spec() && k == NodeKey::Symbol(
                    #[trigger] ps[i].name,
                ),
    decreases ps.len(),
{
    if ps.len() == 0 {
        assert forall|k: NodeKey| !a_contains(#[trigger] seed_params_s(st, ps).sources, k) by {
            if a_contains(st.sources, k) {
                crate::assoc::lemma_a_first_exists(st.sources, k);
            }
        }
    } else {
        let d = ps.drop_last();
        let p = ps.last();
        lemma_exempt_params_never_sources(st, d);
        let st1 = seed_params_s(st, d);
        let r = seed_params_s(st, ps);
        if !p.typ.is_exempt_spec() {
            crate::state::lemma_add_source_wf(st1, NodeKey::Symbol(p.name), p.decl_span);
        }
        assert forall|k: NodeKey|
            a_contains(#[trigger] r.sources, k) == exists|i: int|
                0 <= i < ps.len() && !ps[i].typ.is_exempt_spec() && k == NodeKey::Symbol(
                    #[trigger] ps[i].name,
                ) by {
            let in_prefix = exists|i: int|
                0 <= i < d.len() && !d[i].typ.is_exempt_spec() && k == NodeKey::Symbol(d[i].name);
            assert(a_contains(st1.sources, k) == in_prefix);
            let lhs = if p.typ.is_exempt_spec() {
                a_contains(st1.sources, k)
            } else {
                k == NodeKey::Symbol(p.name) || a_contains(st1.sources, k)
            };
            assert(a_contains(r.sources, k) == lhs);
            if lhs {
                if !p.typ.is_exempt_spec() && k == NodeKey::Symbol(p.name) {
                    assert(ps[ps.len() - 1] == p);
                    assert(0 <= ps.len() - 1 < ps.len() && !ps[ps.len()
                        - 1].typ.is_exempt_spec() && k == NodeKey::Symbol(ps[ps.len() - 1].name));
                } else {
                    assert(in_prefix);
                    let i = choose|i: int|
                        0 <= i < d.len() && !d[i].typ.is_exempt_spec() && k == NodeKey::Symbol(
                            d[i].name,
                        );
                    assert(d[i] == ps[i]);
                    assert(0 <= i < ps.len() && !ps[i].typ.is_exempt_spec() && k
                        == NodeKey::Symbol(ps[i].name));
                }
            }
            if exists|i: int|
                0 <= i < ps.len() && !ps[i].typ.is_exempt_spec() && k == NodeKey::Symbol(
                    ps[i].name,
                ) {
                let i = choose|i: int|
                    0 <= i < ps.len() && !ps[i].typ.is_exempt_spec() && k == NodeKey::Symbol(
                        ps[i].name,
                    );
                if i == ps.len() - 1 {
                    assert(ps[i] == p);
                    assert(lhs);
                } else {
                    assert(d[i] == ps[i]);
                    assert(in_prefix);
                    assert(lhs);
                }
            }
        }
    }
}

/// A bare reference to an unregistered symbol — one that is neither a
/// parameter nor a tainted `let` binding — has no effect on the analysis
/// state at all, so it can never be flagged.
pub proof fn lemma_unregistered_symbol_not_flagged(st: StateV, id: u64, name: Seq<char>)
    requires
        !a_contains(st.tainted, NodeKey::Symbol(name)),
    ensures
        visit_atom_s(st, id, name) == st,
{
}

/// Running the pass twice on an unmodified tree, with a fresh checker each
/// time, yields identical, order-stable diagnostic sequences: the output is
/// a function of the annotations, the trust settings, and the tree alone.
pub proof fn lemma_run_deterministic(
    annotations: Seq<AnnV>,
    trusted_sender: bool,
    trusted_caller: bool,
    exprs: Seq<Expr>,
    r1: Seq<DiagV>,
    r2: Seq<DiagV>,
)
    requires
        r1 == run_s(init_s(annotations, trusted_sender, trusted_caller), exprs),
        r2 == run_s(init_s(annotations, trusted_sender, trusted_caller), exprs),
    ensures
        r1 == r2,
{
}

/// The shape of a function definition: `(define-x (name params..) body)`.
pub open spec fn define_shape_wf(l: Seq<Expr>) -> bool {
    l.len() == 3 && (match l[1].kind {
        ExprKind::List(ref sig) => sig@.len() >= 1 && sig@[0].atom_spec() is Some,
        _ => false,
    })
}

/// The definition's name.
pub open spec fn define_name_s(l: Seq<Expr>) -> Seq<char> {
    match l[1].kind {
        ExprKind::List(ref sig) => match sig@[0].atom_spec() {
            Some(n) => n,
            None => Seq::empty(),
        },
        _ => Seq::empty(),
    }
}

/// The definition's parameter pairs.
pub open spec fn define_pairs_s(l: Seq<Expr>) -> Seq<Expr> {
    match l[1].kind {
        ExprKind::List(ref sig) => sig@.drop_first(),
        _ => Seq::empty(),
    }
}

/// A public function definition: record the name as public, reset the
/// graph, seed every non-exempt parameter as a source, and traverse the
/// body.
pub open spec fn traverse_define_public_s(cv: CheckerV, e: Expr, l: Seq<Expr>) -> CheckerV
    decreases l, 1int,
{
    if define_shape_wf(l) {
        let name = define_name_s(l);
        let st1 = reset_graph_s(cv.st);
        let st2 = match params_of_s(define_pairs_s(l)) {
            Some(ps) => seed_params_s(st1, ps),
            None => st1,
        };
        let cv2 = CheckerV {
            st: st2,
            public_funcs: name_insert_s(cv.public_funcs, name),
            ..cv
        };
        traverse_expr_s(cv2, l[2])
    } else {
        cv
    }
}

/// A private function definition: reset the graph; under
/// `allow(unchecked-params)` seed every parameter as a source; traverse the
/// body; run the sink check against the body's own taint; record which
/// parameters were force-registered and which ended up filtered out.
pub open spec fn traverse_define_private_s(cv: CheckerV, e: Expr, l: Seq<Expr>) -> CheckerV
    decreases l, 1int,
{
    if define_shape_wf(l) {
        let name = define_name_s(l);
        let allow = allow_params_s(cv.annotations, cv.active);
        let st1 = reset_graph_s(cv.st);
        let params = params_of_s(define_pairs_s(l));
        let st2 = match params {
            Some(ps) => if allow {
                seed_all_params_s(st1, ps)
            } else {
                st1
            },
            None => st1,
        };
        let unchecked = match params {
            Some(ps) => Seq::new(ps.len(), |i: int| allow),
            None => Seq::empty(),
        };
        let cv2 = traverse_expr_s(CheckerV { st: st2, ..cv }, l[2]);
        let st3 = taint_check_s(cv2.st, l[2].id, l[2].span);
        let filtered = match params {
            Some(ps) => Seq::new(
                ps.len(),
                |i: int| allow && !a_contains(st3.sources, NodeKey::Symbol(ps[i].name)),
            ),
            None => Seq::empty(),
        };
        CheckerV {
            st: st3,
            user_funcs: a_set(
                cv2.user_funcs,
                name,
                InfoV { unchecked_params: unchecked, filtered_params: filtered },
            ),
            ..cv2
        }
    } else {
        cv
    }
}

/// A read-only function definition: only the name is recorded as public;
/// its body is not analysed.
pub open spec fn visit_define_read_only_s(cv: CheckerV, l: Seq<Expr>) -> CheckerV {
    if define_shape_wf(l) {
        CheckerV { public_funcs: name_insert_s(cv.public_funcs, define_name_s(l)), ..cv }
    } else {
        cv
    }
}

/// The `let` rule: traverse each binding (tainted values register the
/// binding name as a synthetic source), traverse the body, give the whole
/// expression the last body statement's taint, and unregister the binding
/// names on scope exit.
pub open spec fn traverse_let_s(cv: CheckerV, e: Expr, l: Seq<Expr>) -> CheckerV
    decreases l, 1int,
{
    if l.len() >= 2 && (match l[1].kind {
        ExprKind::List(ref pairs) => let_pairs_wf(pairs@),
        _ => false,
    }) {
        let pairs = match l[1].kind {
            ExprKind::List(ref pairs) => pairs@,
            _ => Seq::empty(),
        };
        let body = l.skip(2);
        let cv1 = bindings_fold_s(cv, pairs, e.span);
        let cv2 = traverse_seq_s(cv1, body);
        let cv3 = if body.len() > 0 && a_contains(
            cv2.st.tainted,
            NodeKey::Expr(body.last().id),
        ) {
            CheckerV {
                st: add_tainted_s(
                    cv2.st,
                    NodeKey::Expr(e.id),
                    a_get(cv2.st.tainted, NodeKey::Expr(body.last().id)),
                ),
                ..cv2
            }
        } else {
            cv2
        };
        CheckerV { st: unbind_pairs_s(cv3.st, pairs), ..cv3 }
    } else {
        cv
    }
}

/// The `begin` rule: traverse each statement in order; the whole form's
/// taint is that of its final statement.
pub open spec fn traverse_begin_s(cv: CheckerV, e: Expr, l: Seq<Expr>) -> CheckerV
    decreases l, 1int,
{
    if l.len() == 0 {
        cv
    } else {
        let stmts = l.drop_first();
        let cv1 = traverse_seq_s(cv, stmts);
        if stmts.len() > 0 && a_contains(cv1.st.tainted, NodeKey::Expr(stmts.last().id)) {
            CheckerV {
                st: add_tainted_s(
                    cv1.st,
                    NodeKey::Expr(e.id),
                    a_get(cv1.st.tainted, NodeKey::Expr(stmts.last().id)),
                ),
                ..cv1
            }
        } else {
            cv1
        }
    }
}

} // verus!
