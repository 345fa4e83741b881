//! The traversal engine. One `Gecko` instance analyses one contract: it is
//! driven over every top-level expression, owns the taint graph for the
//! duration, and finally yields the ordered diagnostic sequence. Every
//! method computes the state function of the same name (with an `_s`
//! suffix) from [`crate::semantics`].

use vstd::prelude::*;
use crate::annotation::{Annotation, AnnotationKind, WarningKind};
use crate::assoc::{a_contains, a_set};
use crate::ast::{check_define_name, param_type_of, Expr, ExprKind, TypedParam};
use crate::collections::NodeSet;
use crate::diagnostic::{DiagGroup, Diagnostic, Level};
use crate::node::{NodeId, NodeKey};
use crate::semantics::{
    allow_data_s, allow_params_s, apply_filters_s, auth_group_s, auth_warning_text,
    bindings_fold_s, collect_sources_s, comparison_s, detect_auth_s, filter_names_s, init_s,
    lazy_fold_s, merge_list_s, name_insert_s, param_of_s, params_of_s, resolve_from_s, resolve_s,
    seed_all_params_s, seed_params_s, source_keys_s, traverse_begin_s, traverse_define_private_s,
    traverse_define_public_s, traverse_expr_s, traverse_let_s, traverse_list_s, traverse_seq_s,
    trust_check_fires_s, union_into_s, unbind_pairs_s, visit_atom_s, visit_define_read_only_s,
    CheckerV, InfoV,
};
use crate::semantics::{
    define_name_s, define_pairs_s, define_shape_wf, is_unsafe_auth_s, let_pairs_wf,
    match_contract_caller_s, match_tx_sender_s, param_bind_name_s,
};
use crate::semantics::{
    flatten_groups_s, gkey_s, run_s, sort_groups_s, sorted_insert_group_s,
};
use crate::span::Span;
use crate::state::{lemma_record_no_dup, st_dupfree, taint_check_s, TaintGraph};
use crate::text::str_eq;

verus! {

/// Per-function parameter flags, recorded for adjacent analyses.
#[derive(Debug)]
pub struct FunctionInfo {
    pub unchecked_params: Vec<bool>,
    pub filtered_params: Vec<bool>,
}

impl View for FunctionInfo {
    type V = InfoV;

    open spec fn view(&self) -> InfoV {
        InfoV {
            unchecked_params: self.unchecked_params@,
            filtered_params: self.filtered_params@,
        }
    }
}

/// The taint checker. One instance analyses one contract.
#[derive(Debug)]
pub struct Gecko {
    graph: TaintGraph,
    annotations: Vec<Annotation>,
    active_annotation: Option<usize>,
    public_funcs: Vec<String>,
    user_funcs: Vec<(String, FunctionInfo)>,
    in_as_contract: bool,
    trusted_sender: bool,
    trusted_caller: bool,
}

impl View for Gecko {
    type V = CheckerV;

    closed spec fn view(&self) -> CheckerV {
        CheckerV {
            st: self.graph@,
            annotations: self.annotations@.map_values(|a: Annotation| a@),
            active: match self.active_annotation {
                Some(i) => Some(i as int),
                None => None,
            },
            public_funcs: self.public_funcs@.map_values(|s: String| s@),
            user_funcs: self.user_funcs@.map_values(
                |p: (String, FunctionInfo)| (p.0@, p.1@),
            ),
            in_as_contract: self.in_as_contract,
            trusted_sender: self.trusted_sender,
            trusted_caller: self.trusted_caller,
        }
    }
}

/// `tx-sender`, syntactically.
pub fn match_tx_sender(e: &Expr) -> (r: bool)
    ensures
        r == match_tx_sender_s(*e),
{
    e.has_atom_name("tx-sender")
}

/// `contract-caller`, syntactically.
pub fn match_contract_caller(e: &Expr) -> (r: bool)
    ensures
        r == match_contract_caller_s(*e),
{
    e.has_atom_name("contract-caller")
}

/// The fixed message of the unsafe-authentication warning.
pub fn auth_warning_msg() -> (s: String)
    ensures
        s@ == auth_warning_text(),
{
    "unsafe authentication: asserting equality with tx-sender".to_owned()
}

/// The unsafe-authentication finding, as a diagnosable error: a fixed
/// message and no suggestion.
#[derive(Debug)]
pub struct CheckError;

impl CheckError {
    pub fn message(&self) -> (s: String)
        ensures
            s@ == auth_warning_text(),
    {
        auth_warning_msg()
    }

    pub fn suggestion(&self) -> (r: Option<String>)
        ensures
            r is None,
    {
        None
    }
}

impl Gecko {
    /// The executable representation is well-formed (duplicate-free).
    pub open spec fn wf(&self) -> bool {
        st_dupfree(self@.st)
    }

    /// A fresh checker over the given (line-sorted) annotations and trust
    /// settings.
    pub fn new(annotations: Vec<Annotation>, trusted_sender: bool, trusted_caller: bool) -> (g:
        Gecko)
        ensures
            g@ == init_s(
                annotations@.map_values(|a: Annotation| a@),
                trusted_sender,
                trusted_caller,
            ),
            g.wf(),
    {
        let g = Gecko {
            graph: TaintGraph::new(),
            annotations,
            active_annotation: None,
            public_funcs: Vec::new(),
            user_funcs: Vec::new(),
            in_as_contract: false,
            trusted_sender,
            trusted_caller,
        };
        proof {
            assert(g@.public_funcs =~= Seq::<Seq<char>>::empty());
            assert(g@.user_funcs =~= Seq::<(Seq<char>, InfoV)>::empty());
        }
        g
    }

    /// Read access to the underlying taint graph.
    pub fn graph(&self) -> (g: &TaintGraph)
        ensures
            g@ == self@.st,
    {
        &self.graph
    }

    /// Resolves the annotation active for an expression starting at `span`.
    fn process_annotations(&mut self, span: &Span)
        ensures
            final(self)@ == (CheckerV {
                active: resolve_s(old(self)@.annotations, *span),
                ..old(self)@
            }),
            final(self).wf() == old(self).wf(),
    {
        let ghost av = self@.annotations;
        let line = span.start_line;
        let n = self.annotations.len();
        let mut i: usize = 0;
        while i < n
            invariant
                i <= n,
                n == self.annotations.len(),
                self.annotations@ == old(self).annotations@,
                self@ == old(self)@,
                av == self@.annotations,
                line == span.start_line,
                resolve_from_s(av, line, 0) == resolve_from_s(av, line, i as int),
            decreases n - i,
        {
            let aline = self.annotations[i].span.start_line;
            proof {
                assert(av[i as int].span == self.annotations@[i as int].span);
            }
            if aline as u64 + 1 == line as u64 {
                self.active_annotation = Some(i);
                proof {
                    assert(resolve_from_s(av, line, i as int) == Some(i as int));
                }
                return;
            }
            if aline >= line {
                self.active_annotation = None;
                proof {
                    assert(resolve_from_s(av, line, i as int) == None::<int>);
                }
                return;
            }
            i += 1;
        }
        self.active_annotation = None;
        proof {
            assert(resolve_from_s(av, line, n as int) == None::<int>);
        }
    }

    /// Whether the active annotation is `allow(unchecked-data)`.
    fn allow_unchecked_data(&self) -> (r: bool)
        ensures
            r == allow_data_s(self@.annotations, self@.active),
    {
        match self.active_annotation {
            Some(idx) => {
                if idx < self.annotations.len() {
                    proof {
                        assert(self@.annotations[idx as int] == self.annotations@[idx as int]@);
                    }
                    matches!(
                        self.annotations[idx].kind,
                        AnnotationKind::Allow(WarningKind::UncheckedData)
                    )
                } else {
                    false
                }
            },
            None => false,
        }
    }

    /// Whether the active annotation is `allow(unchecked-params)`.
    fn allow_unchecked_params(&self) -> (r: bool)
        ensures
            r == allow_params_s(self@.annotations, self@.active),
    {
        match self.active_annotation {
            Some(idx) => {
                if idx < self.annotations.len() {
                    proof {
                        assert(self@.annotations[idx as int] == self.annotations@[idx as int]@);
                    }
                    matches!(
                        self.annotations[idx].kind,
                        AnnotationKind::Allow(WarningKind::UncheckedParams)
                    )
                } else {
                    false
                }
            },
            None => false,
        }
    }

    /// Applies the active annotation's filters after an expression's own
    /// traversal.
    fn apply_filters(&mut self)
        requires
            old(self).wf(),
        ensures
            final(self).wf(),
            final(self)@ == (CheckerV {
                st: apply_filters_s(old(self)@.st, old(self)@.annotations, old(self)@.active),
                ..old(self)@
            }),
    {
        let idx = match self.active_annotation {
            Some(idx) => idx,
            None => {
                return;
            },
        };
        if idx >= self.annotations.len() {
            return;
        }
        proof {
            assert(self@.annotations[idx as int] == self.annotations@[idx as int]@);
        }
        match &self.annotations[idx].kind {
            AnnotationKind::Filter(params) => {
                let ghost st0 = self@.st;
                let ghost names = self.annotations@[idx as int].kind@->Filter_0;
                proof {
                    assert(names == params@.map_values(|n: String| n@));
                }
                let n = params.len();
                let mut j: usize = 0;
                while j < n
                    invariant
                        j <= n,
                        n == params@.len(),
                        names == params@.map_values(|n2: String| n2@),
                        self.wf(),
                        self@ == (CheckerV {
                            st: filter_names_s(st0, names.take(j as int)),
                            ..old(self)@
                        }),
                    decreases n - j,
                {
                    let name = NodeId::Symbol(params[j].clone());
                    self.graph.filter_source(&name, false);
                    proof {
                        assert(names.take(j as int + 1).drop_last() =~= names.take(j as int));
                        assert(names.take(j as int + 1).last() == names[j as int]);
                        assert(names[j as int] == params@[j as int]@);
                    }
                    j += 1;
                }
                proof {
                    assert(names.take(n as int) =~= names);
                }
            },
            AnnotationKind::FilterAll => {
                self.graph.filter_all();
            },
            AnnotationKind::Allow(_) => {},
        }
    }

    /// The standalone unsafe-authentication pattern check, run on every
    /// expression before dispatch.
    fn detect_unsafe_authentication(&mut self, expr: &Expr)
        requires
            old(self).wf(),
        ensures
            final(self).wf(),
            final(self)@ == (CheckerV {
                st: detect_auth_s(old(self)@.st, *expr),
                ..old(self)@
            }),
    {
        let fires = match &expr.kind {
            ExprKind::List(l) => {
                if l.len() == 3 && l[0].has_atom_name("asserts!") {
                    match &l[1].kind {
                        ExprKind::List(c) => c.len() == 3 && c[0].has_atom_name("is-eq")
                            && c[1].has_atom_name("tx-sender"),
                        _ => false,
                    }
                } else {
                    false
                }
            },
            _ => false,
        };
        proof {
            assert(fires == is_unsafe_auth_s(*expr));
        }
        if fires {
            let mut items: Vec<Diagnostic> = Vec::new();
            items.push(Diagnostic::new_at(Level::Warning, auth_warning_msg(), expr.span));
            let g = DiagGroup { items };
            proof {
                assert(g@ =~= auth_group_s(expr.span));
            }
            self.graph.record_group(expr.id, g);
        }
    }

    /// Marks `name` as a public function.
    fn record_public_func(&mut self, name: &String)
        ensures
            final(self)@ == (CheckerV {
                public_funcs: name_insert_s(old(self)@.public_funcs, name@),
                ..old(self)@
            }),
            final(self).wf() == old(self).wf(),
    {
        let ghost pv = self@.public_funcs;
        let n = self.public_funcs.len();
        let mut i: usize = 0;
        while i < n
            invariant
                i <= n,
                n == self.public_funcs.len(),
                self@ == old(self)@,
                pv == self@.public_funcs,
                forall|j: int| 0 <= j < i ==> pv[j] != name@,
            decreases n - i,
        {
            if str_eq(self.public_funcs[i].as_str(), name.as_str()) {
                proof {
                    assert(pv[i as int] == name@);
                    assert(pv.contains(name@));
                }
                return;
            }
            proof {
                assert(pv[i as int] == self.public_funcs@[i as int]@);
            }
            i += 1;
        }
        proof {
            assert(!pv.contains(name@));
        }
        self.public_funcs.push(name.clone());
        proof {
            assert(self@.public_funcs =~= pv.push(name@));
            assert(self@ == (CheckerV {
                public_funcs: name_insert_s(old(self)@.public_funcs, name@),
                ..old(self)@
            }));
        }
    }

    /// Records the parameter flags of the user function `name`.
    fn record_user_func(&mut self, name: &String, info: FunctionInfo)
        ensures
            final(self)@ == (CheckerV {
                user_funcs: a_set(old(self)@.user_funcs, name@, info@),
                ..old(self)@
            }),
            final(self).wf() == old(self).wf(),
    {
        let ghost uv = self@.user_funcs;
        let n = self.user_funcs.len();
        let mut i: usize = 0;
        while i < n
            invariant
                i <= n,
                n == self.user_funcs.len(),
                self@ == old(self)@,
                uv == self@.user_funcs,
                forall|j: int| 0 <= j < i ==> uv[j].0 != name@,
            decreases n - i,
        {
            if str_eq(self.user_funcs[i].0.as_str(), name.as_str()) {
                proof {
                    assert(uv[i as int] == (
                        self.user_funcs@[i as int].0@,
                        self.user_funcs@[i as int].1@,
                    ));
                    crate::assoc::lemma_a_first_at(uv, name@, i as int);
                }
                let ghost infov = info@;
                self.user_funcs.set(i, (name.clone(), info));
                proof {
                    assert(self@.user_funcs =~= a_set(uv, name@, infov));
                }
                return;
            }
            proof {
                assert(uv[i as int] == (
                    self.user_funcs@[i as int].0@,
                    self.user_funcs@[i as int].1@,
                ));
            }
            i += 1;
        }
        proof {
            assert(!a_contains(uv, name@));
        }
        let ghost infov = info@;
        self.user_funcs.push((name.clone(), info));
        proof {
            assert(self@.user_funcs =~= a_set(uv, name@, infov));
        }
    }

    /// The atom rule: a bare symbol reference inherits the symbol's current
    /// taint; an unregistered symbol has no effect at all.
    fn visit_atom(&mut self, id: u64, name: &String)
        requires
            old(self).wf(),
        ensures
            final(self).wf(),
            final(self)@ == (CheckerV {
                st: visit_atom_s(old(self)@.st, id, name@),
                ..old(self)@
            }),
    {
        let sym = NodeId::Symbol(name.clone());
        let got = self.graph.tainted_sources(&sym);
        match got {
            Some(set) => {
                let srcs = set.dup();
                proof {
                    lemma_record_no_dup(self@.st, sym.key());
                }
                self.graph.add_tainted_node(&NodeId::Expr(id), &srcs);
            },
            None => {},
        }
    }

    /// The current source keys, in registration order.
    fn source_key_set(&self) -> (r: NodeSet)
        requires
            self.wf(),
        ensures
            r@ == source_keys_s(self@.st),
            r.wf(),
    {
        let mut r = NodeSet::new();
        let n = self.graph.sources_len();
        let mut i: usize = 0;
        while i < n
            invariant
                i <= n,
                n == self@.st.sources.len(),
                self.wf(),
                r.wf(),
                r@ == source_keys_s(self@.st).take(i as int),
            decreases n - i,
        {
            let k = self.graph.source_key_at(i);
            proof {
                assert(source_keys_s(self@.st).len() == self@.st.sources.len());
                assert(source_keys_s(self@.st)[i as int] == self@.st.sources[i as int].0);
                assert forall|j: int| 0 <= j < i implies r@[j] != k.key() by {
                    assert(r@[j] == source_keys_s(self@.st)[j]);
                    assert(source_keys_s(self@.st)[j] == self@.st.sources[j].0);
                }
                assert(!r@.contains(k.key()));
            }
            r.insert(k.dup());
            proof {
                assert(r@ =~= source_keys_s(self@.st).take(i as int + 1));
            }
            i += 1;
        }
        proof {
            assert(source_keys_s(self@.st).take(n as int) =~= source_keys_s(self@.st));
        }
        r
    }

    /// The union of the source sets of every tainted element of `l`.
    fn collect_list_sources(&self, l: &Vec<Expr>) -> (r: NodeSet)
        requires
            self.wf(),
        ensures
            r@ == collect_sources_s(self@.st, l@),
            r.wf(),
    {
        let mut r = NodeSet::new();
        let n = l.len();
        let mut i: usize = 0;
        while i < n
            invariant
                i <= n,
                n == l@.len(),
                self.wf(),
                r.wf(),
                r@ == collect_sources_s(self@.st, l@.take(i as int)),
            decreases n - i,
        {
            let key = NodeId::Expr(l[i].id);
            let got = self.graph.tainted_sources(&key);
            match got {
                Some(set) => {
                    let ghost acc = r@;
                    let m = set.len();
                    let mut j: usize = 0;
                    while j < m
                        invariant
                            j <= m,
                            m == set@.len(),
                            r.wf(),
                            r@ == union_into_s(acc, set@.take(j as int)),
                        decreases m - j,
                    {
                        r.insert(set.at(j).dup());
                        proof {
                            assert(set@.take(j as int + 1).drop_last() =~= set@.take(j as int));
                            assert(set@.take(j as int + 1).last() == set@[j as int]);
                        }
                        j += 1;
                    }
                    proof {
                        assert(set@.take(m as int) =~= set@);
                    }
                },
                None => {},
            }
            proof {
                assert(l@.take(i as int + 1).drop_last() =~= l@.take(i as int));
                assert(l@.take(i as int + 1).last() == l@[i as int]);
            }
            i += 1;
        }
        proof {
            assert(l@.take(n as int) =~= l@);
        }
        r
    }

    /// The conservative merge: the list expression is tainted by the union
    /// of its elements' sources, if non-empty.
    fn merge_list(&mut self, id: u64, l: &Vec<Expr>)
        requires
            old(self).wf(),
        ensures
            final(self).wf(),
            final(self)@ == (CheckerV {
                st: merge_list_s(old(self)@.st, id, l@),
                ..old(self)@
            }),
    {
        let srcs = self.collect_list_sources(l);
        if srcs.len() > 0 {
            self.graph.add_tainted_node(&NodeId::Expr(id), &srcs);
        }
    }

    /// Seeds every non-exempt parameter as a fresh source.
    fn seed_params(&mut self, ps: &Vec<TypedParam>)
        requires
            old(self).wf(),
        ensures
            final(self).wf(),
            final(self)@ == (CheckerV {
                st: seed_params_s(old(self)@.st, ps@.map_values(|p: TypedParam| p@)),
                ..old(self)@
            }),
    {
        let ghost psv = ps@.map_values(|p: TypedParam| p@);
        let ghost st0 = self@.st;
        let n = ps.len();
        let mut i: usize = 0;
        while i < n
            invariant
                i <= n,
                n == ps@.len(),
                psv == ps@.map_values(|p: TypedParam| p@),
                self.wf(),
                self@ == (CheckerV { st: seed_params_s(st0, psv.take(i as int)), ..old(self)@ }),
            decreases n - i,
        {
            proof {
                assert(psv[i as int] == ps@[i as int]@);
            }
            if !ps[i].typ.is_exempt() {
                let sym = NodeId::Symbol(ps[i].name.clone());
                let span = ps[i].decl_span;
                self.graph.add_taint_source(&sym, span);
            }
            proof {
                assert(psv.take(i as int + 1).drop_last() =~= psv.take(i as int));
                assert(psv.take(i as int + 1).last() == psv[i as int]);
            }
            i += 1;
        }
        proof {
            assert(psv.take(n as int) =~= psv);
        }
    }

    /// Seeds every parameter as a fresh source, regardless of exemption.
    fn seed_all_params(&mut self, ps: &Vec<TypedParam>)
        requires
            old(self).wf(),
        ensures
            final(self).wf(),
            final(self)@ == (CheckerV {
                st: seed_all_params_s(old(self)@.st, ps@.map_values(|p: TypedParam| p@)),
                ..old(self)@
            }),
    {
        let ghost psv = ps@.map_values(|p: TypedParam| p@);
        let ghost st0 = self@.st;
        let n = ps.len();
        let mut i: usize = 0;
        while i < n
            invariant
                i <= n,
                n == ps@.len(),
                psv == ps@.map_values(|p: TypedParam| p@),
                self.wf(),
                self@ == (CheckerV {
                    st: seed_all_params_s(st0, psv.take(i as int)),
                    ..old(self)@
                }),
            decreases n - i,
        {
            proof {
                assert(psv[i as int] == ps@[i as int]@);
            }
            let sym = NodeId::Symbol(ps[i].name.clone());
            let span = ps[i].decl_span;
            self.graph.add_taint_source(&sym, span);
            proof {
                assert(psv.take(i as int + 1).drop_last() =~= psv.take(i as int));
                assert(psv.take(i as int + 1).last() == psv[i as int]);
            }
            i += 1;
        }
        proof {
            assert(psv.take(n as int) =~= psv);
        }
    }

    /// The primary sink: storing a value into persistent contract state
    /// immediately runs the sink check against that value.
    fn visit_var_set(&mut self, value: &Expr)
        requires
            old(self).wf(),
        ensures
            final(self).wf(),
            final(self)@ == (CheckerV {
                st: taint_check_s(old(self)@.st, value.id, value.span),
                ..old(self)@
            }),
    {
        self.graph.taint_check(value.id, value.span);
    }

    /// The equality-comparison rule; see `comparison_s`.
    fn visit_comparison(&mut self, expr: &Expr, a: &Expr, b: &Expr)
        requires
            old(self).wf(),
        ensures
            final(self).wf(),
            final(self)@ == (CheckerV {
                st: comparison_s(old(self)@, *expr, *a, *b),
                ..old(self)@
            }),
    {
        let fires = (self.trusted_sender && ((match_tx_sender(a) && !self.graph.is_tainted(
            &NodeId::Expr(b.id),
        )) || (match_tx_sender(b) && !self.graph.is_tainted(&NodeId::Expr(a.id)))))
            || (self.trusted_caller && ((match_contract_caller(a) && !self.graph.is_tainted(
            &NodeId::Expr(b.id),
        )) || (match_contract_caller(b) && !self.graph.is_tainted(&NodeId::Expr(a.id)))));
        proof {
            assert(fires == trust_check_fires_s(self@, *a, *b));
        }
        if fires {
            let srcs = self.source_key_set();
            self.graph.filter_all();
            if srcs.len() > 0 {
                self.graph.add_tainted_node(&NodeId::Expr(expr.id), &srcs);
            }
        }
    }

    /// One full expression step; see `traverse_expr_s`.
    pub fn traverse_expr(&mut self, expr: &Expr)
        requires
            old(self).wf(),
        ensures
            final(self).wf(),
            final(self)@ == traverse_expr_s(old(self)@, *expr),
        decreases *expr, 3int,
    {
        self.process_annotations(&expr.span);
        let active = self.active_annotation;
        self.detect_unsafe_authentication(expr);
        let ghost cv1 = self@;
        if self.allow_unchecked_data() {
            return;
        }
        match &expr.kind {
            ExprKind::Atom(n) => {
                self.visit_atom(expr.id, n);
            },
            ExprKind::Literal => {},
            ExprKind::Field => {},
            ExprKind::TraitRef => {},
            ExprKind::List(l) => {
                proof {
                    assert(decreases_to!(*expr => l@));
                }
                self.traverse_list(expr, l);
            },
        }
        self.active_annotation = active;
        self.apply_filters();
        proof {
            assert(final(self)@ == traverse_expr_s(old(self)@, *expr));
        }
    }

    /// Traverses `items[start..]` in order.
    fn traverse_slice(&mut self, items: &Vec<Expr>, start: usize)
        requires
            old(self).wf(),
            start <= items@.len(),
        ensures
            final(self).wf(),
            final(self)@ == traverse_seq_s(old(self)@, items@.skip(start as int)),
        decreases items@, 0int,
    {
        let ghost cv0 = self@;
        let n = items.len();
        let mut i: usize = start;
        while i < n
            invariant
                start <= i <= n,
                n == items@.len(),
                self.wf(),
                self@ == traverse_seq_s(cv0, items@.subrange(start as int, i as int)),
            decreases n - i,
        {
            proof {
                assert(decreases_to!(items@ => items@[i as int]));
            }
            self.traverse_expr(&items[i]);
            proof {
                assert(items@.subrange(start as int, i as int + 1).drop_last() =~= items@.subrange(
                    start as int,
                    i as int,
                ));
                assert(items@.subrange(start as int, i as int + 1).last() == items@[i as int]);
            }
            i += 1;
        }
        proof {
            assert(items@.subrange(start as int, n as int) =~= items@.skip(start as int));
        }
    }

    /// Traverses the operands of a lazy-logical form, treating each as a
    /// validating check.
    fn traverse_lazy_logical(&mut self, l: &Vec<Expr>)
        requires
            old(self).wf(),
            l@.len() >= 1,
        ensures
            final(self).wf(),
            final(self)@ == lazy_fold_s(old(self)@, l@.drop_first()),
        decreases l@, 0int,
    {
        let ghost cv0 = self@;
        let ghost ops = l@.drop_first();
        let n = l.len();
        let mut i: usize = 1;
        while i < n
            invariant
                1 <= i <= n,
                n == l@.len(),
                ops == l@.drop_first(),
                self.wf(),
                self@ == lazy_fold_s(cv0, l@.subrange(1, i as int)),
            decreases n - i,
        {
            proof {
                assert(decreases_to!(l@ => l@[i as int]));
            }
            self.traverse_expr(&l[i]);
            self.graph.filter_taint(&NodeId::Expr(l[i].id), false);
            proof {
                assert(l@.subrange(1, i as int + 1).drop_last() =~= l@.subrange(1, i as int));
                assert(l@.subrange(1, i as int + 1).last() == l@[i as int]);
            }
            i += 1;
        }
        proof {
            assert(l@.subrange(1, n as int) =~= l@.drop_first());
        }
    }

    /// A public function definition; see `traverse_define_public_s`.
    fn traverse_define_public(&mut self, expr: &Expr, l: &Vec<Expr>)
        requires
            old(self).wf(),
        ensures
            final(self).wf(),
            final(self)@ == traverse_define_public_s(old(self)@, *expr, l@),
        decreases l@, 1int,
    {
        if l.len() != 3 {
            return;
        }
        match &l[1].kind {
            ExprKind::List(sig) => {
                if sig.len() == 0 {
                    return;
                }
                match &sig[0].kind {
                    ExprKind::Atom(name) => {
                        proof {
                            assert(define_shape_wf(l@));
                            assert(define_name_s(l@) == name@);
                            assert(define_pairs_s(l@) == sig@.drop_first());
                        }
                        self.record_public_func(name);
                        self.graph.reset();
                        let params = parse_params(sig);
                        match params {
                            Some(ps) => {
                                self.seed_params(&ps);
                            },
                            None => {},
                        }
                        proof {
                            assert(decreases_to!(l@ => l@[2]));
                        }
                        self.traverse_expr(&l[2]);
                        proof {
                            assert(final(self)@ == traverse_define_public_s(
                                old(self)@,
                                *expr,
                                l@,
                            ));
                        }
                    },
                    _ => {},
                }
            },
            _ => {},
        }
    }

    /// A private function definition; see `traverse_define_private_s`.
    fn traverse_define_private(&mut self, expr: &Expr, l: &Vec<Expr>)
        requires
            old(self).wf(),
        ensures
            final(self).wf(),
            final(self)@ == traverse_define_private_s(old(self)@, *expr, l@),
        decreases l@, 1int,
    {
        if l.len() != 3 {
            return;
        }
        match &l[1].kind {
            ExprKind::List(sig) => {
                if sig.len() == 0 {
                    return;
                }
                match &sig[0].kind {
                    ExprKind::Atom(name) => {
                        proof {
                            assert(define_shape_wf(l@));
                            assert(define_name_s(l@) == name@);
                            assert(define_pairs_s(l@) == sig@.drop_first());
                        }
                        let allow = self.allow_unchecked_params();
                        self.graph.reset();
                        let params = parse_params(sig);
                        let mut unchecked: Vec<bool> = Vec::new();
                        match &params {
                            Some(ps) => {
                                if allow {
                                    self.seed_all_params(ps);
                                }
                                let m = ps.len();
                                let mut j: usize = 0;
                                while j < m
                                    invariant
                                        j <= m,
                                        unchecked@.len() == j,
                                        forall|t: int| 0 <= t < j ==> unchecked@[t] == allow,
                                    decreases m - j,
                                {
                                    unchecked.push(allow);
                                    j += 1;
                                }
                            },
                            None => {},
                        }
                        proof {
                            assert(decreases_to!(l@ => l@[2]));
                        }
                        self.traverse_expr(&l[2]);
                        self.graph.taint_check(l[2].id, l[2].span);
                        let ghost st3 = self@.st;
                        let ghost cvb = self@;
                        let mut filtered: Vec<bool> = Vec::new();
                        match &params {
                            Some(ps) => {
                                let ghost psv = ps@.map_values(|p: TypedParam| p@);
                                let m = ps.len();
                                let mut j: usize = 0;
                                while j < m
                                    invariant
                                        j <= m,
                                        m == ps@.len(),
                                        psv == ps@.map_values(|p: TypedParam| p@),
                                        self.wf(),
                                        self@ == cvb,
                                        self@.st == st3,
                                        filtered@.len() == j,
                                        forall|t: int|
                                            0 <= t < j ==> filtered@[t] == (allow && !a_contains(
                                                st3.sources,
                                                NodeKey::Symbol(psv[t].name),
                                            )),
                                    decreases m - j,
                                {
                                    proof {
                                        assert(psv[j as int] == ps@[j as int]@);
                                    }
                                    let sym = NodeId::Symbol(ps[j].name.clone());
                                    let f = allow && !self.graph.is_source(&sym);
                                    filtered.push(f);
                                    j += 1;
                                }
                            },
                            None => {},
                        }
                        let info = FunctionInfo {
                            unchecked_params: unchecked,
                            filtered_params: filtered,
                        };
                        proof {
                            match params_of_s(define_pairs_s(l@)) {
                                Some(psv2) => {
                                    assert(info@.unchecked_params =~= Seq::new(
                                        psv2.len(),
                                        |t: int| allow,
                                    ));
                                    assert(info@.filtered_params =~= Seq::new(
                                        psv2.len(),
                                        |t: int| allow && !a_contains(
                                            st3.sources,
                                            NodeKey::Symbol(psv2[t].name),
                                        ),
                                    ));
                                },
                                None => {
                                    assert(info@.unchecked_params =~= Seq::<bool>::empty());
                                    assert(info@.filtered_params =~= Seq::<bool>::empty());
                                },
                            }
                        }
                        self.record_user_func(name, info);
                        proof {
                            assert(final(self)@ == traverse_define_private_s(
                                old(self)@,
                                *expr,
                                l@,
                            ));
                        }
                    },
                    _ => {},
                }
            },
            _ => {},
        }
    }

    /// A read-only function definition: only the name is recorded.
    fn visit_define_read_only(&mut self, l: &Vec<Expr>)
        requires
            old(self).wf(),
        ensures
            final(self).wf(),
            final(self)@ == visit_define_read_only_s(old(self)@, l@),
    {
        if l.len() != 3 {
            return;
        }
        match &l[1].kind {
            ExprKind::List(sig) => {
                if sig.len() == 0 {
                    return;
                }
                match &sig[0].kind {
                    ExprKind::Atom(name) => {
                        self.record_public_func(name);
                    },
                    _ => {},
                }
            },
            _ => {},
        }
    }

    /// The `let` rule; see `traverse_let_s`.
    fn traverse_let(&mut self, expr: &Expr, l: &Vec<Expr>)
        requires
            old(self).wf(),
        ensures
            final(self).wf(),
            final(self)@ == traverse_let_s(old(self)@, *expr, l@),
        decreases l@, 1int,
    {
        if l.len() < 2 {
            return;
        }
        match &l[1].kind {
            ExprKind::List(pairs) => {
                if !check_let_pairs(pairs) {
                    return;
                }
                let ghost cv0 = self@;
                let span = expr.span;
                let n = pairs.len();
                let mut i: usize = 0;
                while i < n
                    invariant
                        i <= n,
                        n == pairs@.len(),
                        span == expr.span,
                        l@.len() >= 2,
                        l@[1].kind matches ExprKind::List(pv) && pv@ == pairs@,
                        self.wf(),
                        self@ == bindings_fold_s(cv0, pairs@.take(i as int), span),
                    decreases n - i,
                {
                    let pair = &pairs[i];
                    match &pair.kind {
                        ExprKind::List(pl) => {
                            if pl.len() == 2 {
                                match &pl[0].kind {
                                    ExprKind::Atom(bname) => {
                                        proof {
                                            assert(decreases_to!(l@ => l@[1]));
                                            assert(decreases_to!(l@[1] => pairs@));
                                            assert(decreases_to!(pairs@ => pairs@[i as int]));
                                            assert(decreases_to!(pairs@[i as int] => pl@));
                                            assert(decreases_to!(pl@ => pl@[1]));
                                        }
                                        self.traverse_expr(&pl[1]);
                                        let vkey = NodeId::Expr(pl[1].id);
                                        let got = self.graph.tainted_sources(&vkey);
                                        match got {
                                            Some(set) => {
                                                let srcs = set.dup();
                                                proof {
                                                    lemma_record_no_dup(self@.st, vkey.key());
                                                }
                                                let sym = NodeId::Symbol(bname.clone());
                                                self.graph.add_taint_source(&sym, span);
                                                self.graph.add_tainted_node(&sym, &srcs);
                                            },
                                            None => {},
                                        }
                                    },
                                    _ => {},
                                }
                            }
                        },
                        _ => {},
                    }
                    proof {
                        assert(pairs@.take(i as int + 1).drop_last() =~= pairs@.take(i as int));
                        assert(pairs@.take(i as int + 1).last() == pairs@[i as int]);
                    }
                    i += 1;
                }
                proof {
                    assert(pairs@.take(n as int) =~= pairs@);
                }
                self.traverse_slice(l, 2);
                if l.len() > 2 {
                    let last = &l[l.len() - 1];
                    proof {
                        assert(l@.skip(2).len() > 0);
                        assert(l@.skip(2).last() == l@[l@.len() - 1]);
                    }
                    let lkey = NodeId::Expr(last.id);
                    let got = self.graph.tainted_sources(&lkey);
                    match got {
                        Some(set) => {
                            let srcs = set.dup();
                            proof {
                                lemma_record_no_dup(self@.st, lkey.key());
                            }
                            self.graph.add_tainted_node(&NodeId::Expr(expr.id), &srcs);
                        },
                        None => {},
                    }
                }
                let ghost stc = self@.st;
                let ghost cvc = self@;
                let mut i2: usize = 0;
                while i2 < n
                    invariant
                        i2 <= n,
                        n == pairs@.len(),
                        self.wf(),
                        self@ == (CheckerV { st: unbind_pairs_s(stc, pairs@.take(i2 as int)), ..cvc }),
                    decreases n - i2,
                {
                    let pair = &pairs[i2];
                    match &pair.kind {
                        ExprKind::List(pl) => {
                            if pl.len() == 2 {
                                match &pl[0].kind {
                                    ExprKind::Atom(bname) => {
                                        let sym = NodeId::Symbol(bname.clone());
                                        self.graph.filter_source(&sym, false);
                                    },
                                    _ => {},
                                }
                            }
                        },
                        _ => {},
                    }
                    proof {
                        assert(pairs@.take(i2 as int + 1).drop_last() =~= pairs@.take(i2 as int));
                        assert(pairs@.take(i2 as int + 1).last() == pairs@[i2 as int]);
                    }
                    i2 += 1;
                }
                proof {
                    assert(pairs@.take(n as int) =~= pairs@);
                    assert(final(self)@ == traverse_let_s(old(self)@, *expr, l@));
                }
            },
            _ => {},
        }
    }

    /// The `begin` rule; see `traverse_begin_s`.
    fn traverse_begin(&mut self, expr: &Expr, l: &Vec<Expr>)
        requires
            old(self).wf(),
        ensures
            final(self).wf(),
            final(self)@ == traverse_begin_s(old(self)@, *expr, l@),
        decreases l@, 1int,
    {
        if l.len() == 0 {
            return;
        }
        self.traverse_slice(l, 1);
        if l.len() > 1 {
            let last = &l[l.len() - 1];
            proof {
                assert(l@.drop_first().len() > 0);
                assert(l@.drop_first().last() == l@[l@.len() - 1]);
                assert(l@.skip(1) =~= l@.drop_first());
            }
            let lkey = NodeId::Expr(last.id);
            let got = self.graph.tainted_sources(&lkey);
            match got {
                Some(set) => {
                    let srcs = set.dup();
                    proof {
                        lemma_record_no_dup(self@.st, lkey.key());
                    }
                    self.graph.add_tainted_node(&NodeId::Expr(expr.id), &srcs);
                },
                None => {},
            }
        } else {
            proof {
                assert(l@.skip(1) =~= l@.drop_first());
            }
        }
    }

    /// Runs the whole pass: traverses every top-level expression, then
    /// collects the recorded diagnostic groups, sorts them by the span of
    /// each group's warning, and flattens them into one ordered sequence —
    /// the only externally visible output of the analysis.
    pub fn run(&mut self, exprs: &Vec<Expr>) -> (r: Vec<Diagnostic>)
        requires
            old(self).wf(),
        ensures
            final(self).wf(),
            final(self)@ == traverse_seq_s(old(self)@, exprs@),
            crate::diagnostic::diags_view(r@) == run_s(old(self)@, exprs@),
    {
        self.traverse_slice(exprs, 0);
        proof {
            assert(exprs@.skip(0) =~= exprs@);
        }
        let ghost dv = self@.st.diags;
        let mut groups: Vec<(u64, DiagGroup)> = Vec::new();
        let n = self.graph.diags_len();
        let mut i: usize = 0;
        while i < n
            invariant
                i <= n,
                n == self@.st.diags.len(),
                dv == self@.st.diags,
                self.wf(),
                groups@.map_values(|p: (u64, DiagGroup)| (p.0, p.1@)) == sort_groups_s(
                    dv.take(i as int),
                ),
            decreases n - i,
        {
            let key = self.graph.diag_key_at(i);
            let g = self.graph.diag_group_at(i).dup();
            let ghost gv = (key, g@);
            let ghost before = groups@.map_values(|p: (u64, DiagGroup)| (p.0, p.1@));
            let gk = group_key(&g);
            let m = groups.len();
            let mut p: usize = 0;
            while p < m && !gk.lt(&group_key(&groups[p].1))
                invariant
                    p <= m,
                    m == groups@.len(),
                    gk == gkey_s(gv.1),
                    gv.1 == g@,
                    groups@.map_values(|q: (u64, DiagGroup)| (q.0, q.1@)) == before,
                    forall|j: int|
                        0 <= j < p ==> !gkey_s(gv.1).lt_spec(gkey_s(#[trigger] before[j].1)),
                decreases m - p,
            {
                proof {
                    assert(before[p as int].1 == groups@[p as int].1@);
                }
                p += 1;
            }
            proof {
                assert(before.len() == groups@.len());
                if p < m {
                    assert(before[p as int].1 == groups@[p as int].1@);
                    assert(gkey_s(gv.1).lt_spec(gkey_s(before[p as int].1)));
                }
                crate::semantics::lemma_sorted_group_insert_at(before, gv, p as int);
            }
            let ghost gpre = groups@;
            groups.insert(p, (key, g));
            proof {
                let f = |q: (u64, DiagGroup)| (q.0, q.1@);
                assert(gpre.map_values(f).len() == gpre.len());
                assert forall|t: int| 0 <= t < groups@.len() implies groups@.map_values(f)[t]
                    == sorted_insert_group_s(before, gv)[t] by {
                    assert(sorted_insert_group_s(before, gv) == before.take(p as int) + seq![gv]
                        + before.skip(p as int));
                    if t < p {
                        assert(groups@[t] == gpre[t]);
                        assert(gpre.map_values(f)[t] == f(gpre[t]));
                    } else if t == p {
                        assert(groups@[t] == (key, g));
                    } else {
                        assert(groups@[t] == gpre[t - 1]);
                        assert(gpre.map_values(f)[t - 1] == f(gpre[t - 1]));
                    }
                }
                assert(groups@.map_values(f) =~= sorted_insert_group_s(before, gv));
                assert(dv.take(i as int + 1).drop_last() =~= dv.take(i as int));
                assert(dv.take(i as int + 1).last() == dv[i as int]);
                assert(gv == dv[i as int]);
            }
            i += 1;
        }
        proof {
            assert(dv.take(n as int) =~= dv);
        }
        let ghost sorted = sort_groups_s(dv);
        let mut out: Vec<Diagnostic> = Vec::new();
        let gn = groups.len();
        let mut i2: usize = 0;
        while i2 < gn
            invariant
                i2 <= gn,
                gn == groups@.len(),
                groups@.map_values(|p: (u64, DiagGroup)| (p.0, p.1@)) == sorted,
                out@.map_values(|d: Diagnostic| d@) == flatten_groups_s(sorted.take(i2 as int)),
            decreases gn - i2,
        {
            let items = &groups[i2].1.items;
            let inn = items.len();
            let mut j: usize = 0;
            while j < inn
                invariant
                    j <= inn,
                    i2 < gn,
                    gn == groups@.len(),
                    inn == items@.len(),
                    groups@.map_values(|p: (u64, DiagGroup)| (p.0, p.1@)) == sorted,
                    items@ == groups@[i2 as int].1.items@,
                    out@.map_values(|d: Diagnostic| d@) == flatten_groups_s(
                        sorted.take(i2 as int),
                    ) + sorted[i2 as int].1.take(j as int),
                decreases inn - j,
            {
                let ghost prev = out@;
                out.push(items[j].dup());
                proof {
                    let f = |d: Diagnostic| d@;
                    assert(prev.map_values(f).len() == prev.len());
                    assert(sorted[i2 as int].1 == groups@[i2 as int].1@);
                    assert(groups@[i2 as int].1@[j as int] == f(items@[j as int]));
                    assert forall|t: int| 0 <= t < out@.len() implies out@.map_values(f)[t] == (
                    flatten_groups_s(sorted.take(i2 as int)) + sorted[i2 as int].1.take(
                        j as int + 1,
                    ))[t] by {
                        if t < prev.len() {
                            assert(out@[t] == prev[t]);
                            assert(prev.map_values(f)[t] == f(prev[t]));
                        }
                    }
                    assert(out@.map_values(f) =~= flatten_groups_s(sorted.take(i2 as int))
                        + sorted[i2 as int].1.take(j as int + 1));
                }
                j += 1;
            }
            proof {
                assert(sorted[i2 as int].1.take(sorted[i2 as int].1.len() as int) =~= sorted[
                    i2 as int
                ].1);
                assert(sorted.take(i2 as int + 1).drop_last() =~= sorted.take(i2 as int));
                assert(sorted.take(i2 as int + 1).last() == sorted[i2 as int]);
            }
            i2 += 1;
        }
        proof {
            assert(sorted.take(gn as int) =~= sorted);
        }
        out
    }

    /// Dispatch over a list form's head; see `traverse_list_s`.
    fn traverse_list(&mut self, expr: &Expr, l: &Vec<Expr>)
        requires
            old(self).wf(),
        ensures
            final(self).wf(),
            final(self)@ == traverse_list_s(old(self)@, *expr, l@),
        decreases l@, 2int,
    {
        if l.len() == 0 {
            return;
        }
        match &l[0].kind {
            ExprKind::Atom(head) => {
                if check_define_name(head) {
                    if str_eq(head.as_str(), "define-public") {
                        self.traverse_define_public(expr, l);
                    } else if str_eq(head.as_str(), "define-private") {
                        self.traverse_define_private(expr, l);
                    } else if str_eq(head.as_str(), "define-read-only") {
                        self.visit_define_read_only(l);
                    }
                } else if str_eq(head.as_str(), "let") {
                    self.traverse_let(expr, l);
                } else if str_eq(head.as_str(), "begin") {
                    self.traverse_begin(expr, l);
                } else if str_eq(head.as_str(), "if") && l.len() == 4 {
                    proof {
                        assert(decreases_to!(l@ => l@[1]));
                        assert(decreases_to!(l@ => l@[2]));
                        assert(decreases_to!(l@ => l@[3]));
                    }
                    self.traverse_expr(&l[1]);
                    self.graph.filter_taint(&NodeId::Expr(l[1].id), false);
                    self.traverse_expr(&l[2]);
                    self.traverse_expr(&l[3]);
                    self.merge_list(expr.id, l);
                } else if str_eq(head.as_str(), "and") || str_eq(head.as_str(), "or") {
                    self.traverse_lazy_logical(l);
                    self.merge_list(expr.id, l);
                } else if str_eq(head.as_str(), "as-contract") && l.len() == 2 {
                    let saved = self.in_as_contract;
                    self.in_as_contract = true;
                    proof {
                        assert(decreases_to!(l@ => l@[1]));
                    }
                    self.traverse_expr(&l[1]);
                    self.in_as_contract = saved;
                    self.merge_list(expr.id, l);
                } else if str_eq(head.as_str(), "var-set") && l.len() == 3 {
                    proof {
                        assert(decreases_to!(l@ => l@[2]));
                    }
                    self.traverse_expr(&l[2]);
                    self.visit_var_set(&l[2]);
                    self.merge_list(expr.id, l);
                } else if str_eq(head.as_str(), "is-eq") && l.len() >= 3 {
                    self.traverse_slice(l, 1);
                    self.visit_comparison(expr, &l[1], &l[2]);
                    self.merge_list(expr.id, l);
                } else {
                    self.traverse_slice(l, 1);
                    self.merge_list(expr.id, l);
                }
            },
            _ => {
                self.traverse_slice(l, 1);
                self.merge_list(expr.id, l);
            },
        }
        proof {
            assert(final(self)@ == traverse_list_s(old(self)@, *expr, l@));
        }
    }
}

/// The span a diagnostic group is ordered by: its warning's span.
fn group_key(g: &DiagGroup) -> (k: Span)
    ensures
        k == gkey_s(g@),
{
    if g.items.len() > 0 {
        proof {
            assert(g@[0] == g.items@[0]@);
        }
        if g.items[0].spans.len() > 0 {
            return g.items[0].spans[0];
        }
    }
    Span::new(0, 0, 0, 0)
}

/// Every pair of a `let` binding list is a well-formed `(name value)` pair.
fn check_let_pairs(pairs: &Vec<Expr>) -> (r: bool)
    ensures
        r == let_pairs_wf(pairs@),
{
    let n = pairs.len();
    let mut i: usize = 0;
    while i < n
        invariant
            i <= n,
            n == pairs@.len(),
            forall|j: int| 0 <= j < i ==> param_bind_name_s(#[trigger] pairs@[j]) is Some,
        decreases n - i,
    {
        let ok = match &pairs[i].kind {
            ExprKind::List(pl) => {
                if pl.len() == 2 {
                    matches!(&pl[0].kind, ExprKind::Atom(_))
                } else {
                    false
                }
            },
            _ => false,
        };
        proof {
            assert(ok == (param_bind_name_s(pairs@[i as int]) is Some));
        }
        if !ok {
            return false;
        }
        i += 1;
    }
    true
}

/// Reads the typed parameters out of a definition signature, if every
/// `(name type)` pair is well-formed.
fn parse_params(sig: &Vec<Expr>) -> (r: Option<Vec<TypedParam>>)
    requires
        sig@.len() >= 1,
    ensures
        match r {
            Some(ps) => params_of_s(sig@.drop_first()) == Some(
                ps@.map_values(|p: TypedParam| p@),
            ),
            None => params_of_s(sig@.drop_first()) is None,
        },
{
    let ghost pairs = sig@.drop_first();
    let mut ps: Vec<TypedParam> = Vec::new();
    let n = sig.len();
    let mut i: usize = 1;
    while i < n
        invariant
            1 <= i <= n,
            n == sig@.len(),
            pairs == sig@.drop_first(),
            params_of_s(pairs.take(i - 1)) == Some(ps@.map_values(|p: TypedParam| p@)),
        decreases n - i,
    {
        proof {
            assert(pairs[i - 1] == sig@[i as int]);
        }
        let pair = &sig[i];
        let parsed = match &pair.kind {
            ExprKind::List(pl) => {
                if pl.len() == 2 {
                    match &pl[0].kind {
                        ExprKind::Atom(pname) => Some(
                            TypedParam {
                                name: pname.clone(),
                                typ: param_type_of(&pl[1]),
                                decl_span: pair.span,
                            },
                        ),
                        _ => None,
                    }
                } else {
                    None
                }
            },
            _ => None,
        };
        match parsed {
            Some(tp) => {
                proof {
                    assert(param_of_s(pairs[i - 1]) == Some(tp@));
                }
                let ghost prev = ps@;
                ps.push(tp);
                proof {
                    let f = |p: TypedParam| p@;
                    assert(prev.map_values(f).len() == prev.len());
                    assert forall|t: int| 0 <= t < ps@.len() implies ps@.map_values(f)[t]
                        == match params_of_s(pairs.take(i as int)) {
                        Some(s) => s[t],
                        None => f(ps@[t]),
                    } by {
                        assert(pairs.take(i as int).drop_last() =~= pairs.take(i - 1));
                        assert(pairs.take(i as int).last() == pairs[i - 1]);
                        if t < prev.len() {
                            assert(ps@[t] == prev[t]);
                            assert(prev.map_values(f)[t] == f(prev[t]));
                        }
                    }
                    assert(pairs.take(i as int).drop_last() =~= pairs.take(i - 1));
                    assert(params_of_s(pairs.take(i as int)) == Some(
                        ps@.map_values(f),
                    )) by {
                        let expected = match params_of_s(pairs.take(i as int)) {
                            Some(s) => s,
                            None => ps@.map_values(f),
                        };
                        assert(ps@.map_values(f) =~= expected);
                    }
                }
            },
            None => {
                proof {
                    assert(param_of_s(pairs[i - 1]) is None);
                    crate::semantics::lemma_params_none(pairs, i - 1);
                }
                return None;
            },
        }
        i += 1;
    }
    proof {
        assert(pairs.take(n - 1) =~= pairs);
    }
    Some(ps)
}

} // verus!
