//! End-to-end scenarios for the taint checker: a contract tree is built,
//! the pass runs over it, and the emitted diagnostics are compared against
//! the expected findings.

use gecko::{Annotation, AnnotationKind, Diagnostic, Expr, Gecko, Level, Span, WarningKind};

fn sp(line: u32, col: u32, width: u32) -> Span {
    Span::new(line, col, line, col + width)
}

fn atom(id: u64, span: Span, name: &str) -> Expr {
    Expr::atom(id, span, name)
}

fn list(id: u64, span: Span, items: Vec<Expr>) -> Expr {
    Expr::list(id, span, items)
}

fn lit(id: u64, span: Span) -> Expr {
    Expr::literal(id, span)
}

/// `(define-public (f (amount uint)) body)` with the parameter pair at
/// `param_span`.
fn define_public_f_amount(param_span: Span, body: Expr) -> Expr {
    let pair = list(
        1,
        param_span,
        vec![atom(2, param_span, "amount"), atom(3, param_span, "uint")],
    );
    let sig = list(4, sp(1, 16, 20), vec![atom(5, sp(1, 17, 1), "f"), pair]);
    list(
        6,
        sp(1, 1, 40),
        vec![atom(7, sp(1, 2, 13), "define-public"), sig, body],
    )
}

fn run_pass(annotations: Vec<Annotation>, exprs: &Vec<Expr>) -> Vec<Diagnostic> {
    let mut checker = Gecko::new(annotations, false, false);
    checker.run(exprs)
}

#[test]
fn tainted_var_set_reports_warning_and_note() {
    let param_span = sp(1, 19, 13);
    let value_span = sp(2, 20, 6);
    let body = list(
        10,
        sp(2, 3, 25),
        vec![
            atom(11, sp(2, 4, 7), "var-set"),
            atom(12, sp(2, 12, 5), "total"),
            atom(13, value_span, "amount"),
        ],
    );
    let tree = vec![define_public_f_amount(param_span, body)];
    let diags = run_pass(vec![], &tree);
    assert_eq!(diags.len(), 2);
    assert!(matches!(diags[0].level, Level::Warning));
    assert_eq!(diags[0].message, "use of potentially unchecked data");
    assert_eq!(diags[0].spans.len(), 1);
    assert_eq!(diags[0].spans[0], value_span);
    assert!(matches!(diags[1].level, Level::Note));
    assert_eq!(diags[1].message, "source of untrusted input here");
    assert_eq!(diags[1].spans.len(), 1);
    assert_eq!(diags[1].spans[0], param_span);
}

#[test]
fn branch_condition_clears_taint_before_branches() {
    let param_span = sp(1, 19, 13);
    let cond = list(
        20,
        sp(2, 7, 14),
        vec![
            atom(21, sp(2, 8, 1), ">"),
            atom(22, sp(2, 10, 6), "amount"),
            lit(23, sp(2, 17, 1)),
        ],
    );
    let then_branch = list(
        24,
        sp(2, 20, 24),
        vec![
            atom(25, sp(2, 21, 7), "var-set"),
            atom(26, sp(2, 29, 5), "total"),
            atom(27, sp(2, 35, 6), "amount"),
        ],
    );
    let else_branch = lit(28, sp(2, 46, 2));
    let body = list(
        29,
        sp(2, 3, 46),
        vec![atom(30, sp(2, 4, 2), "if"), cond, then_branch, else_branch],
    );
    let tree = vec![define_public_f_amount(param_span, body)];
    let diags = run_pass(vec![], &tree);
    assert!(diags.is_empty());
}

#[test]
fn filter_annotation_clears_future_taint_but_keeps_past_findings() {
    let param_span = sp(1, 19, 13);
    let first_value_span = sp(3, 20, 6);
    let first_set = list(
        40,
        sp(3, 5, 22),
        vec![
            atom(41, sp(3, 6, 7), "var-set"),
            atom(42, sp(3, 14, 5), "total"),
            atom(43, first_value_span, "amount"),
        ],
    );
    // the annotation on line 4 anchors to this expression on line 5
    let anchored = lit(44, sp(5, 5, 2));
    let second_set = list(
        45,
        sp(6, 5, 22),
        vec![
            atom(46, sp(6, 6, 7), "var-set"),
            atom(47, sp(6, 14, 5), "total"),
            atom(48, sp(6, 20, 6), "amount"),
        ],
    );
    let body = list(
        49,
        sp(2, 3, 60),
        vec![atom(50, sp(2, 4, 5), "begin"), first_set, anchored, second_set],
    );
    let tree = vec![define_public_f_amount(param_span, body)];
    let annotations = vec![Annotation::new(
        sp(4, 5, 18),
        AnnotationKind::Filter(vec!["amount".to_string()]),
    )];
    let diags = run_pass(annotations, &tree);
    // only the finding recorded before the filter survives
    assert_eq!(diags.len(), 2);
    assert!(matches!(diags[0].level, Level::Warning));
    assert_eq!(diags[0].spans[0], first_value_span);
    assert!(matches!(diags[1].level, Level::Note));
    assert_eq!(diags[1].spans[0], param_span);
}

#[test]
fn allow_unchecked_data_skips_whole_subtree() {
    let param_span = sp(1, 19, 13);
    // the annotation on line 3 anchors to the var-set on line 4
    let guarded = list(
        60,
        sp(4, 5, 22),
        vec![
            atom(61, sp(4, 6, 7), "var-set"),
            atom(62, sp(4, 14, 5), "total"),
            atom(63, sp(4, 20, 6), "amount"),
        ],
    );
    let body = list(64, sp(2, 3, 40), vec![atom(65, sp(2, 4, 5), "begin"), guarded]);
    let tree = vec![define_public_f_amount(param_span, body)];
    let annotations = vec![Annotation::new(
        sp(3, 5, 24),
        AnnotationKind::Allow(WarningKind::UncheckedData),
    )];
    let diags = run_pass(annotations, &tree);
    assert!(diags.is_empty());
}

#[test]
fn two_runs_on_the_same_tree_agree() {
    let param_span = sp(1, 19, 13);
    let body = list(
        70,
        sp(2, 3, 25),
        vec![
            atom(71, sp(2, 4, 7), "var-set"),
            atom(72, sp(2, 12, 5), "total"),
            atom(73, sp(2, 20, 6), "amount"),
        ],
    );
    let tree = vec![define_public_f_amount(param_span, body)];
    let first = run_pass(vec![], &tree);
    let second = run_pass(vec![], &tree);
    assert_eq!(first.len(), second.len());
    for (a, b) in first.iter().zip(second.iter()) {
        assert_eq!(format!("{:?}", a.level), format!("{:?}", b.level));
        assert_eq!(a.message, b.message);
        assert_eq!(a.spans, b.spans);
        assert_eq!(a.suggestion, b.suggestion);
    }
}

#[test]
fn notes_are_ordered_by_declaration_span() {
    // (define-public (f (a uint) (b uint)) (var-set total (fn b a)))
    // the value mixes the parameters in reverse order; the notes still come
    // out sorted by the parameters' declaration spans
    let a_span = sp(1, 19, 8);
    let b_span = sp(1, 28, 8);
    let pair_a = list(1, a_span, vec![atom(2, a_span, "a"), atom(3, a_span, "uint")]);
    let pair_b = list(4, b_span, vec![atom(5, b_span, "b"), atom(6, b_span, "uint")]);
    let sig = list(7, sp(1, 16, 22), vec![atom(8, sp(1, 17, 1), "f"), pair_a, pair_b]);
    let value_span = sp(2, 20, 10);
    let value = list(
        9,
        value_span,
        vec![
            atom(10, sp(2, 21, 2), "fn"),
            atom(11, sp(2, 24, 1), "b"),
            atom(12, sp(2, 26, 1), "a"),
        ],
    );
    let body = list(
        13,
        sp(2, 3, 30),
        vec![atom(14, sp(2, 4, 7), "var-set"), atom(15, sp(2, 12, 5), "total"), value],
    );
    let def = list(
        16,
        sp(1, 1, 60),
        vec![atom(17, sp(1, 2, 13), "define-public"), sig, body],
    );
    let diags = run_pass(vec![], &vec![def]);
    assert_eq!(diags.len(), 3);
    assert!(matches!(diags[0].level, Level::Warning));
    assert_eq!(diags[0].spans[0], value_span);
    assert_eq!(diags[1].spans[0], a_span);
    assert_eq!(diags[2].spans[0], b_span);
}

#[test]
fn unsafe_authentication_is_flagged() {
    // (define-public (f) (asserts! (is-eq tx-sender u0) u1))
    let sig = list(1, sp(1, 16, 3), vec![atom(2, sp(1, 17, 1), "f")]);
    let cond = list(
        3,
        sp(2, 13, 20),
        vec![
            atom(4, sp(2, 14, 5), "is-eq"),
            atom(5, sp(2, 20, 9), "tx-sender"),
            lit(6, sp(2, 30, 2)),
        ],
    );
    let asserts_span = sp(2, 3, 36);
    let body = list(
        7,
        asserts_span,
        vec![atom(8, sp(2, 4, 8), "asserts!"), cond, lit(9, sp(2, 35, 2))],
    );
    let def = list(
        10,
        sp(1, 1, 60),
        vec![atom(11, sp(1, 2, 13), "define-public"), sig, body],
    );
    let diags = run_pass(vec![], &vec![def]);
    assert_eq!(diags.len(), 1);
    assert!(matches!(diags[0].level, Level::Warning));
    assert_eq!(
        diags[0].message,
        "unsafe authentication: asserting equality with tx-sender"
    );
    assert_eq!(diags[0].spans[0], asserts_span);
}

#[test]
fn trusted_sender_comparison_clears_all_taint() {
    // (define-public (f (amount uint))
    //   (begin (is-eq tx-sender u0) (var-set total amount)))
    let param_span = sp(1, 19, 13);
    let cmp = list(
        80,
        sp(2, 10, 22),
        vec![
            atom(81, sp(2, 11, 5), "is-eq"),
            atom(82, sp(2, 17, 9), "tx-sender"),
            lit(83, sp(2, 27, 2)),
        ],
    );
    let set = list(
        84,
        sp(3, 5, 22),
        vec![
            atom(85, sp(3, 6, 7), "var-set"),
            atom(86, sp(3, 14, 5), "total"),
            atom(87, sp(3, 20, 6), "amount"),
        ],
    );
    let body = list(88, sp(2, 3, 60), vec![atom(89, sp(2, 4, 5), "begin"), cmp, set]);
    let tree = vec![define_public_f_amount(param_span, body)];

    // with the trust exemption enabled the comparison wipes the taint
    let mut trusted = Gecko::new(vec![], true, false);
    let diags = trusted.run(&tree);
    assert!(diags.is_empty());

    // without it, the sink still fires
    let mut untrusted = Gecko::new(vec![], false, false);
    let diags2 = untrusted.run(&tree);
    assert_eq!(diags2.len(), 2);
}

#[test]
fn private_function_params_need_permissive_annotation() {
    // (define-private (g (x uint)) (var-set total x))
    let param_span = sp(2, 20, 8);
    let pair = list(1, param_span, vec![atom(2, param_span, "x"), atom(3, param_span, "uint")]);
    let sig = list(4, sp(2, 17, 14), vec![atom(5, sp(2, 18, 1), "g"), pair]);
    let value_span = sp(3, 20, 1);
    let body = list(
        6,
        sp(3, 3, 20),
        vec![
            atom(7, sp(3, 4, 7), "var-set"),
            atom(8, sp(3, 12, 5), "total"),
            atom(9, value_span, "x"),
        ],
    );
    let def = list(
        10,
        sp(2, 1, 60),
        vec![atom(11, sp(2, 2, 14), "define-private"), sig, body],
    );

    // without the annotation, private parameters are trusted
    let plain = {
        let mut checker = Gecko::new(vec![], false, false);
        checker.run(&vec![def])
    };
    assert!(plain.is_empty());

    // with `allow(unchecked-params)` on the line above, they are sources
    let pair2 = list(1, param_span, vec![atom(2, param_span, "x"), atom(3, param_span, "uint")]);
    let sig2 = list(4, sp(2, 17, 14), vec![atom(5, sp(2, 18, 1), "g"), pair2]);
    let body2 = list(
        6,
        sp(3, 3, 20),
        vec![
            atom(7, sp(3, 4, 7), "var-set"),
            atom(8, sp(3, 12, 5), "total"),
            atom(9, value_span, "x"),
        ],
    );
    let def2 = list(
        10,
        sp(2, 1, 60),
        vec![atom(11, sp(2, 2, 14), "define-private"), sig2, body2],
    );
    let annotations = vec![Annotation::new(
        sp(1, 1, 26),
        AnnotationKind::Allow(WarningKind::UncheckedParams),
    )];
    let mut checker = Gecko::new(annotations, false, false);
    let flagged = checker.run(&vec![def2]);
    // two findings: the var-set sink, and the function body's own resulting
    // taint, each a warning with one note
    assert_eq!(flagged.len(), 4);
    assert!(matches!(flagged[0].level, Level::Warning));
    assert_eq!(flagged[0].spans[0], sp(3, 3, 20));
    assert!(matches!(flagged[1].level, Level::Note));
    assert_eq!(flagged[1].spans[0], param_span);
    assert!(matches!(flagged[2].level, Level::Warning));
    assert_eq!(flagged[2].spans[0], value_span);
    assert!(matches!(flagged[3].level, Level::Note));
    assert_eq!(flagged[3].spans[0], param_span);
}

#[test]
fn exempt_parameter_types_are_not_sources() {
    // (define-public (f (who principal)) (var-set owner who))
    let param_span = sp(1, 19, 15);
    let pair = list(
        1,
        param_span,
        vec![atom(2, param_span, "who"), atom(3, param_span, "principal")],
    );
    let sig = list(4, sp(1, 16, 22), vec![atom(5, sp(1, 17, 1), "f"), pair]);
    let body = list(
        6,
        sp(2, 3, 22),
        vec![
            atom(7, sp(2, 4, 7), "var-set"),
            atom(8, sp(2, 12, 5), "owner"),
            atom(9, sp(2, 18, 3), "who"),
        ],
    );
    let def = list(
        10,
        sp(1, 1, 60),
        vec![atom(11, sp(1, 2, 13), "define-public"), sig, body],
    );
    let diags = run_pass(vec![], &vec![def]);
    assert!(diags.is_empty());
}

#[test]
fn unregistered_symbol_is_never_flagged() {
    // (define-public (f) (var-set total other))
    let sig = list(1, sp(1, 16, 3), vec![atom(2, sp(1, 17, 1), "f")]);
    let body = list(
        3,
        sp(2, 3, 24),
        vec![
            atom(4, sp(2, 4, 7), "var-set"),
            atom(5, sp(2, 12, 5), "total"),
            atom(6, sp(2, 18, 5), "other"),
        ],
    );
    let def = list(
        7,
        sp(1, 1, 40),
        vec![atom(8, sp(1, 2, 13), "define-public"), sig, body],
    );
    let diags = run_pass(vec![], &vec![def]);
    assert!(diags.is_empty());
}

#[test]
fn let_binding_carries_taint_and_leaves_scope() {
    // (define-public (f (amount uint))
    //   (begin
    //     (let ((x amount)) (var-set total x))
    //     (var-set total x)))
    let param_span = sp(1, 19, 13);
    let let_span = sp(3, 5, 40);
    let pair = list(
        20,
        sp(3, 11, 10),
        vec![atom(21, sp(3, 12, 1), "x"), atom(22, sp(3, 14, 6), "amount")],
    );
    let bindings = list(23, sp(3, 10, 12), vec![pair]);
    let inner_value_span = sp(3, 39, 1);
    let inner_set = list(
        24,
        sp(3, 24, 17),
        vec![
            atom(25, sp(3, 25, 7), "var-set"),
            atom(26, sp(3, 33, 5), "total"),
            atom(27, inner_value_span, "x"),
        ],
    );
    let let_form = list(28, let_span, vec![atom(29, sp(3, 6, 3), "let"), bindings, inner_set]);
    let outer_set = list(
        30,
        sp(4, 5, 17),
        vec![
            atom(31, sp(4, 6, 7), "var-set"),
            atom(32, sp(4, 14, 5), "total"),
            atom(33, sp(4, 20, 1), "x"),
        ],
    );
    let body = list(34, sp(2, 3, 70), vec![atom(35, sp(2, 4, 5), "begin"), let_form, outer_set]);
    let tree = vec![define_public_f_amount(param_span, body)];
    let diags = run_pass(vec![], &tree);
    // the inner use of x is flagged; the outer x is out of scope and is not
    assert_eq!(diags.len(), 2);
    assert!(matches!(diags[0].level, Level::Warning));
    assert_eq!(diags[0].spans[0], inner_value_span);
    assert!(matches!(diags[1].level, Level::Note));
    assert_eq!(diags[1].spans[0], param_span);
}

#[test]
fn lazy_logical_operands_count_as_validating_checks() {
    // (define-public (f (amount uint))
    //   (begin (and (> amount u0) u1) (var-set total amount)))
    let param_span = sp(1, 19, 13);
    let cmp = list(
        90,
        sp(2, 15, 14),
        vec![
            atom(91, sp(2, 16, 1), ">"),
            atom(92, sp(2, 18, 6), "amount"),
            lit(93, sp(2, 25, 2)),
        ],
    );
    let and_form = list(94, sp(2, 10, 24), vec![atom(95, sp(2, 11, 3), "and"), cmp, lit(96, sp(2, 31, 2))]);
    let set = list(
        97,
        sp(3, 5, 22),
        vec![
            atom(98, sp(3, 6, 7), "var-set"),
            atom(99, sp(3, 14, 5), "total"),
            atom(100, sp(3, 20, 6), "amount"),
        ],
    );
    let body = list(101, sp(2, 3, 60), vec![atom(102, sp(2, 4, 5), "begin"), and_form, set]);
    let tree = vec![define_public_f_amount(param_span, body)];
    let diags = run_pass(vec![], &tree);
    // the tainted operand of `and` is treated as a validating check, which
    // unregisters the contributing source before the sink runs
    assert!(diags.is_empty());
}

#[test]
fn begin_taint_is_the_last_statements_taint() {
    // ;; #[allow(unchecked-params)]
    // (define-private (g (x uint)) (begin u0 x))
    // the body's taint is that of its final statement, so the sink check at
    // the function boundary fires at the begin form's own span
    let param_span = sp(2, 21, 8);
    let pair = list(1, param_span, vec![atom(2, param_span, "x"), atom(3, param_span, "uint")]);
    let sig = list(4, sp(2, 18, 12), vec![atom(5, sp(2, 19, 1), "g"), pair]);
    let begin_span = sp(3, 3, 14);
    let body = list(
        6,
        begin_span,
        vec![atom(7, sp(3, 4, 5), "begin"), lit(8, sp(3, 10, 2)), atom(9, sp(3, 13, 1), "x")],
    );
    let def = list(
        10,
        sp(2, 1, 60),
        vec![atom(11, sp(2, 2, 14), "define-private"), sig, body],
    );
    let annotations = vec![Annotation::new(
        sp(1, 1, 26),
        AnnotationKind::Allow(WarningKind::UncheckedParams),
    )];
    let mut checker = Gecko::new(annotations, false, false);
    let diags = checker.run(&vec![def]);
    assert_eq!(diags.len(), 2);
    assert!(matches!(diags[0].level, Level::Warning));
    assert_eq!(diags[0].spans[0], begin_span);
    assert!(matches!(diags[1].level, Level::Note));
    assert_eq!(diags[1].spans[0], param_span);
}

#[test]
fn as_contract_passes_inner_taint_through() {
    // (define-public (f (amount uint)) (var-set total (as-contract amount)))
    let param_span = sp(1, 19, 13);
    let inner_span = sp(2, 20, 21);
    let wrapped = list(
        110,
        inner_span,
        vec![atom(111, sp(2, 21, 11), "as-contract"), atom(112, sp(2, 33, 6), "amount")],
    );
    let body = list(
        113,
        sp(2, 3, 40),
        vec![atom(114, sp(2, 4, 7), "var-set"), atom(115, sp(2, 12, 5), "total"), wrapped],
    );
    let tree = vec![define_public_f_amount(param_span, body)];
    let diags = run_pass(vec![], &tree);
    assert_eq!(diags.len(), 2);
    assert!(matches!(diags[0].level, Level::Warning));
    assert_eq!(diags[0].spans[0], inner_span);
    assert_eq!(diags[1].spans[0], param_span);
}
