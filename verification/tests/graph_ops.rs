//! Direct exercises of the taint graph operations: registration,
//! propagation, filtering, and the asymmetry of `filter_all` (tainted
//! records go, the source registry stays).

use gecko::{NodeId, NodeSet, Span, TaintGraph};

fn span(line: u32) -> Span {
    Span::new(line, 1, line, 10)
}

#[test]
fn a_fresh_source_is_tainted_by_itself() {
    let mut g = TaintGraph::new();
    let amount = NodeId::symbol("amount");
    g.add_taint_source(&amount, span(1));
    assert!(g.is_source(&amount));
    assert!(g.is_tainted(&amount));
}

#[test]
fn add_tainted_node_links_both_sides() {
    let mut g = TaintGraph::new();
    let amount = NodeId::symbol("amount");
    g.add_taint_source(&amount, span(1));
    let mut srcs = NodeSet::new();
    srcs.insert(amount.dup());
    let expr = NodeId::Expr(7);
    g.add_tainted_node(&expr, &srcs);
    assert!(g.is_tainted(&expr));
    let rec = g.tainted_sources(&expr).expect("expression must be tainted");
    assert_eq!(rec.len(), 1);
    assert!(rec.at(0).eq_id(&amount));
}

#[test]
fn filter_source_drops_dependent_nodes() {
    let mut g = TaintGraph::new();
    let amount = NodeId::symbol("amount");
    g.add_taint_source(&amount, span(1));
    let mut srcs = NodeSet::new();
    srcs.insert(amount.dup());
    let expr = NodeId::Expr(7);
    g.add_tainted_node(&expr, &srcs);
    g.filter_source(&amount, false);
    assert!(!g.is_source(&amount));
    assert!(!g.is_tainted(&amount));
    assert!(!g.is_tainted(&expr));
}

#[test]
fn filter_source_keeps_nodes_with_other_sources() {
    let mut g = TaintGraph::new();
    let a = NodeId::symbol("a");
    let b = NodeId::symbol("b");
    g.add_taint_source(&a, span(1));
    g.add_taint_source(&b, span(2));
    let mut srcs = NodeSet::new();
    srcs.insert(a.dup());
    srcs.insert(b.dup());
    let expr = NodeId::Expr(9);
    g.add_tainted_node(&expr, &srcs);
    g.filter_source(&a, false);
    assert!(!g.is_source(&a));
    assert!(g.is_source(&b));
    assert!(g.is_tainted(&expr));
    let rec = g.tainted_sources(&expr).expect("still tainted by b");
    assert_eq!(rec.len(), 1);
    assert!(rec.at(0).eq_id(&b));
}

#[test]
fn filter_taint_unregisters_the_contributing_sources() {
    let mut g = TaintGraph::new();
    let a = NodeId::symbol("a");
    g.add_taint_source(&a, span(1));
    let mut srcs = NodeSet::new();
    srcs.insert(a.dup());
    let cond = NodeId::Expr(3);
    g.add_tainted_node(&cond, &srcs);
    g.filter_taint(&cond, false);
    assert!(!g.is_tainted(&cond));
    assert!(!g.is_source(&a));
    assert!(!g.is_tainted(&a));
}

#[test]
fn filter_all_keeps_the_source_registry() {
    let mut g = TaintGraph::new();
    let a = NodeId::symbol("a");
    let b = NodeId::symbol("b");
    g.add_taint_source(&a, span(1));
    g.add_taint_source(&b, span(2));
    let mut srcs = NodeSet::new();
    srcs.insert(a.dup());
    let expr = NodeId::Expr(5);
    g.add_tainted_node(&expr, &srcs);
    g.filter_all();
    // no tainted node survives...
    assert!(!g.is_tainted(&a));
    assert!(!g.is_tainted(&b));
    assert!(!g.is_tainted(&expr));
    // ...but every registered source does
    assert!(g.is_source(&a));
    assert!(g.is_source(&b));
    assert_eq!(g.sources_len(), 2);
}

#[test]
fn taint_check_records_a_group_only_for_tainted_expressions() {
    let mut g = TaintGraph::new();
    let a = NodeId::symbol("a");
    g.add_taint_source(&a, span(1));
    let mut srcs = NodeSet::new();
    srcs.insert(a.dup());
    let expr = NodeId::Expr(5);
    g.add_tainted_node(&expr, &srcs);
    g.taint_check(5, span(4));
    g.taint_check(6, span(5));
    assert!(g.has_diagnostic(5));
    assert!(!g.has_diagnostic(6));
    let group = g.diag_group_at(0);
    assert_eq!(group.items.len(), 2);
    assert_eq!(group.items[0].message, "use of potentially unchecked data");
    assert_eq!(group.items[1].message, "source of untrusted input here");
}

#[test]
fn overwriting_a_record_detaches_the_old_sources() {
    let mut g = TaintGraph::new();
    let a = NodeId::symbol("a");
    let b = NodeId::symbol("b");
    g.add_taint_source(&a, span(1));
    g.add_taint_source(&b, span(2));
    let expr = NodeId::Expr(5);
    let mut srcs_a = NodeSet::new();
    srcs_a.insert(a.dup());
    g.add_tainted_node(&expr, &srcs_a);
    let mut srcs_b = NodeSet::new();
    srcs_b.insert(b.dup());
    g.add_tainted_node(&expr, &srcs_b);
    // removing `a` must no longer affect the expression
    g.filter_source(&a, false);
    assert!(g.is_tainted(&expr));
    let rec = g.tainted_sources(&expr).expect("tainted by b");
    assert_eq!(rec.len(), 1);
    assert!(rec.at(0).eq_id(&b));
}
