use korrekt_ucp::cell::CellId;
use korrekt_ucp::domain::{UcpValueDomain, UcpValueFacts};
use korrekt_ucp::engine::{
    analyze_expressions, analyze_expressions_with_values,
    analyze_expressions_with_values_and_modulus, UcpExpressionStatus,
};
use korrekt_ucp::expr::{UcpExpr, UcpScalar};
use korrekt_ucp::facts::{initial_facts, initial_facts_from_expressions, UcpFacts};
use korrekt_ucp::integer::Integer;
use korrekt_ucp::plonkish::{
    expression_to_ucp_expr, expression_to_ucp_expr_with_enabled_selector_indices, PlonkExpr,
    PlonkQuery,
};
use std::collections::HashSet;

fn num(v: i64) -> Integer {
    Integer::from_i64(v)
}

fn cur(column_index: usize) -> PlonkQuery {
    PlonkQuery { column_index, rotation: 0 }
}

fn sum(a: PlonkExpr, b: PlonkExpr) -> PlonkExpr {
    PlonkExpr::Sum(Box::new(a), Box::new(b))
}

fn product(a: PlonkExpr, b: PlonkExpr) -> PlonkExpr {
    PlonkExpr::Product(Box::new(a), Box::new(b))
}

fn minus_constant(a: PlonkExpr, c: i64) -> PlonkExpr {
    sum(a, PlonkExpr::Negated(Box::new(PlonkExpr::Constant(num(c)))))
}

#[test]
fn classifies_unique_and_unresolved_expressions() {
    let x = CellId::advice(0, 0);
    let y = CellId::advice(1, 0);
    let facts = UcpFacts::from_iter([x.clone()]);
    let expressions = vec![
        UcpExpr::constant(),
        UcpExpr::add(UcpExpr::var(x), UcpExpr::constant()),
        UcpExpr::mul(UcpExpr::var(y), UcpExpr::constant()),
    ];

    let result = analyze_expressions(&expressions, facts);

    assert_eq!(result.checked_expressions, 3);
    assert_eq!(result.unique_expressions, 2);
    assert_eq!(result.unresolved_expressions, 1);
    assert_eq!(result.unresolved_indices(), vec![2]);
    assert!(!result.all_expressions_unique());
    assert_eq!(result.expression_results[0].status, UcpExpressionStatus::Unique);
    assert_eq!(result.expression_results[2].status, UcpExpressionStatus::Unresolved);
    assert_eq!(result.expression_results[2].index, 2);
}

#[test]
fn reports_all_unique_when_every_expression_is_known() {
    let x = CellId::instance(0, 0);
    let y = CellId::fixed(0, 0);
    let facts = UcpFacts::from_iter([x.clone(), y.clone()]);
    let expressions = vec![
        UcpExpr::var(x),
        UcpExpr::neg(UcpExpr::scale(UcpExpr::var(y))),
    ];

    let result = analyze_expressions(&expressions, facts);

    assert_eq!(result.checked_expressions, 2);
    assert_eq!(result.unique_expressions, 2);
    assert_eq!(result.unresolved_expressions, 0);
    assert!(result.unresolved_indices().is_empty());
    assert!(result.all_expressions_unique());
}

#[test]
fn propagates_single_unknown_from_zero_equation() {
    let known = CellId::instance(0, 0);
    let unknown = CellId::advice(0, 0);
    let facts = UcpFacts::from_iter([known.clone()]);
    let expressions = vec![UcpExpr::add(
        UcpExpr::var(known.clone()),
        UcpExpr::var(unknown.clone()),
    )];

    let result = analyze_expressions(&expressions, facts);

    assert!(result.facts.is_unique(&known));
    assert!(result.facts.is_unique(&unknown));
    assert_eq!(result.facts.unique_cells().len(), 2);
    assert!(result.all_expressions_unique());
}

#[test]
fn checks_target_cells_against_final_facts() {
    let known = CellId::instance(0, 0);
    let inferred = CellId::advice(0, 0);
    let unresolved = CellId::advice(1, 0);
    let facts = UcpFacts::from_iter([known.clone()]);
    let expressions = vec![UcpExpr::add(
        UcpExpr::var(known),
        UcpExpr::var(inferred.clone()),
    )];

    let result = analyze_expressions(&expressions, facts);
    let targets = vec![inferred, unresolved.clone()];
    let target_check = result.check_targets(&targets);

    assert!(!result.all_targets_unique(&targets));
    assert!(!target_check.all_targets_unique());
    assert_eq!(target_check.checked_targets, 2);
    assert_eq!(target_check.unique_targets, 1);
    assert_eq!(target_check.unresolved_targets, vec![unresolved]);
    assert_eq!(result.unresolved_targets(&targets), vec![unresolved]);
}

#[test]
fn root_domain_does_not_make_boolean_cell_unique_by_itself() {
    let b = CellId::advice(0, 0);
    let expressions = vec![UcpExpr::mul(
        UcpExpr::var(b.clone()),
        UcpExpr::add(UcpExpr::var(b.clone()), UcpExpr::known_constant_i64(-1)),
    )];

    let result = analyze_expressions(&expressions, UcpFacts::new());

    assert!(!result.facts.is_unique(&b));
    assert_eq!(
        result.value_facts.domain(&b),
        Some(
            &UcpValueDomain::finite_set(vec![num(0), num(1)])
                .expect("non-empty boolean domain")
        )
    );
}

#[test]
fn all_but_one_zero_marks_one_hot_outputs_unique() {
    let x = CellId::instance(0, 0);
    let e = CellId::instance(1, 0);
    let y0 = CellId::advice(0, 0);
    let y1 = CellId::advice(1, 0);
    let y2 = CellId::advice(2, 0);
    let product = |y: &CellId, root: i64| {
        UcpExpr::mul(
            UcpExpr::var(y.clone()),
            UcpExpr::add(UcpExpr::var(x.clone()), UcpExpr::known_constant_i64(-root)),
        )
    };
    let expressions = vec![
        product(&y0, 0),
        product(&y1, 1),
        product(&y2, 2),
        UcpExpr::add(
            UcpExpr::add(UcpExpr::var(y0.clone()), UcpExpr::var(y1.clone())),
            UcpExpr::add(
                UcpExpr::var(y2.clone()),
                UcpExpr::neg(UcpExpr::var(e.clone())),
            ),
        ),
    ];
    let facts = UcpFacts::from_iter([x.clone(), e.clone()]);
    let mut value_facts = UcpValueFacts::new();
    value_facts.mark_known(x, num(1));
    value_facts.mark_known(e, num(1));

    let result = analyze_expressions_with_values(&expressions, facts, value_facts);

    assert!(result.facts.is_unique(&y0));
    assert!(result.facts.is_unique(&y1));
    assert!(result.facts.is_unique(&y2));
    assert_eq!(result.value_facts.known_value(&y0), Some(&num(0)));
    assert_eq!(result.value_facts.known_value(&y1), Some(&num(1)));
    assert_eq!(result.value_facts.known_value(&y2), Some(&num(0)));
}

#[test]
fn base_conv_marks_binary_decomposition_bits_unique() {
    let x = CellId::instance(0, 0);
    let b0 = CellId::advice(0, 0);
    let b1 = CellId::advice(1, 0);
    let b2 = CellId::advice(2, 0);
    let expr = UcpExpr::add(
        UcpExpr::add(
            UcpExpr::var(b0.clone()),
            UcpExpr::scale_by(UcpExpr::var(b1.clone()), UcpScalar::known_i64(2)),
        ),
        UcpExpr::add(
            UcpExpr::scale_by(UcpExpr::var(b2.clone()), UcpScalar::known_i64(4)),
            UcpExpr::neg(UcpExpr::var(x.clone())),
        ),
    );
    let facts = UcpFacts::from_iter([x.clone()]);
    let boolean_domain = UcpValueDomain::finite_set(vec![num(0), num(1)]).unwrap();
    let mut value_facts = UcpValueFacts::new();
    value_facts.mark_known(x, num(5));
    value_facts.mark_domain(b0.clone(), boolean_domain.clone());
    value_facts.mark_domain(b1.clone(), boolean_domain.clone());
    value_facts.mark_domain(b2.clone(), boolean_domain);

    let result = analyze_expressions_with_values_and_modulus(&[expr], facts, value_facts, &num(101));

    assert!(result.facts.is_unique(&b0));
    assert!(result.facts.is_unique(&b1));
    assert!(result.facts.is_unique(&b2));
    assert_eq!(result.value_facts.known_value(&b0), Some(&num(1)));
    assert_eq!(result.value_facts.known_value(&b1), Some(&num(0)));
    assert_eq!(result.value_facts.known_value(&b2), Some(&num(1)));
}

#[test]
fn bigint_mul_marks_full_rank_linear_system_unique() {
    let a = CellId::instance(0, 0);
    let b = CellId::instance(1, 0);
    let x = CellId::advice(0, 0);
    let y = CellId::advice(1, 0);
    let facts = UcpFacts::from_iter([a.clone(), b.clone()]);
    let expressions = vec![
        UcpExpr::add(
            UcpExpr::add(UcpExpr::var(x.clone()), UcpExpr::var(y.clone())),
            UcpExpr::neg(UcpExpr::var(a)),
        ),
        UcpExpr::add(
            UcpExpr::add(
                UcpExpr::var(x.clone()),
                UcpExpr::neg(UcpExpr::var(y.clone())),
            ),
            UcpExpr::neg(UcpExpr::var(b)),
        ),
    ];

    let result = analyze_expressions_with_values_and_modulus(
        &expressions,
        facts,
        UcpValueFacts::new(),
        &num(101),
    );

    assert!(result.facts.is_unique(&x));
    assert!(result.facts.is_unique(&y));
    assert!(result.all_expressions_unique());
}

// Polynomials `fixed + public - 3` and `unknown + public - 5` over advice 0, fixed 0, instance 0.
#[test]
fn classifies_plonkish_constraint_system_gate_expressions() {
    let polys = vec![
        minus_constant(sum(PlonkExpr::Fixed(cur(0)), PlonkExpr::Instance(cur(0))), 3),
        minus_constant(sum(PlonkExpr::Advice(cur(0)), PlonkExpr::Instance(cur(0))), 5),
    ];
    let expressions: Vec<UcpExpr> = polys
        .iter()
        .map(|expr| expression_to_ucp_expr(expr, 0, 0))
        .collect();
    let facts = initial_facts([CellId::instance(0, 0)], [CellId::fixed(0, 0)]);

    let result = analyze_expressions(&expressions, facts);

    assert_eq!(result.checked_expressions, 2);
    assert_eq!(result.unique_expressions, 2);
    assert_eq!(result.unresolved_expressions, 0);
    assert!(result.unresolved_indices().is_empty());
    assert!(result.facts.is_unique(&CellId::advice(0, 0)));
}

// Polynomial `x + public + fixed - 9`.
#[test]
fn extracts_initial_facts_from_plonkish_expressions() {
    let polys = vec![minus_constant(
        sum(
            sum(PlonkExpr::Advice(cur(0)), PlonkExpr::Instance(cur(0))),
            PlonkExpr::Fixed(cur(0)),
        ),
        9,
    )];
    let expressions: Vec<UcpExpr> = polys
        .iter()
        .map(|expr| expression_to_ucp_expr(expr, 0, 0))
        .collect();
    let facts = initial_facts_from_expressions(&expressions);

    assert!(facts.is_unique(&CellId::instance(0, 0)));
    assert!(facts.is_unique(&CellId::fixed(0, 0)));
    assert!(!facts.is_unique(&CellId::advice(0, 0)));

    let result = analyze_expressions(&expressions, facts);

    assert!(result.facts.is_unique(&CellId::advice(0, 0)));
    assert!(result.all_expressions_unique());
}

// A selected chain: x = 5 - public, y = 7 - x, z = 2y + 11 under selector 0 (enabled), and
// dead + z - 13 under selector 1 (not enabled).
#[test]
fn propagates_through_selected_plonkish_assignment_chain() {
    let s_chain = || PlonkExpr::Selector(0);
    let s_dead = PlonkExpr::Selector(1);
    let public = || PlonkExpr::Instance(cur(0));
    let x = || PlonkExpr::Advice(cur(0));
    let y = || PlonkExpr::Advice(cur(1));
    let z = || PlonkExpr::Advice(cur(2));
    let dead = PlonkExpr::Advice(cur(3));
    let polys = vec![
        product(s_chain(), minus_constant(sum(x(), public()), 5)),
        product(s_chain(), minus_constant(sum(y(), x()), 7)),
        product(
            s_chain(),
            minus_constant(
                sum(
                    z(),
                    PlonkExpr::Negated(Box::new(product(PlonkExpr::Constant(num(2)), y()))),
                ),
                11,
            ),
        ),
        product(s_dead, minus_constant(sum(dead, z()), 13)),
    ];

    let selector_indices = HashSet::new();
    let enabled_selector_indices = HashSet::from([0usize]);
    let expressions: Vec<UcpExpr> = polys
        .iter()
        .map(|poly| {
            expression_to_ucp_expr_with_enabled_selector_indices(
                poly,
                0,
                0,
                &selector_indices,
                &enabled_selector_indices,
            )
        })
        .collect();

    let facts = initial_facts([CellId::instance(0, 0)], []);
    let result = analyze_expressions(&expressions, facts);

    assert!(result.facts.is_unique(&CellId::instance(0, 0)));
    assert!(result.facts.is_unique(&CellId::advice(0, 0)));
    assert!(result.facts.is_unique(&CellId::advice(1, 0)));
    assert!(result.facts.is_unique(&CellId::advice(2, 0)));
    assert!(!result.facts.is_unique(&CellId::advice(3, 0)));

    assert_eq!(result.checked_expressions, 4);
    assert_eq!(result.unique_expressions, 4);
    assert_eq!(result.unresolved_expressions, 0);
    assert!(result.unresolved_indices().is_empty());
    assert!(result.all_expressions_unique());
}

#[test]
fn known_values_in_delta_enter_k() {
    let x = CellId::advice(4, 4);
    let mut value_facts = UcpValueFacts::new();
    value_facts.mark_known(x, num(11));

    let result = analyze_expressions_with_values(&[], UcpFacts::new(), value_facts);

    assert!(result.facts.is_unique(&x));
    assert_eq!(result.checked_expressions, 0);
}

#[test]
fn unresolved_indices_list_every_unresolved_equation_in_order() {
    let x = CellId::advice(0, 0);
    let y = CellId::advice(1, 0);
    let z = CellId::advice(2, 0);
    let expressions = vec![
        UcpExpr::mul(UcpExpr::var(y), UcpExpr::var(z)),
        UcpExpr::var(x),
        UcpExpr::mul(UcpExpr::var(z), UcpExpr::constant()),
    ];

    let result = analyze_expressions(&expressions, UcpFacts::new());

    assert_eq!(result.unresolved_indices(), vec![0, 2]);
    assert_eq!(result.unresolved_indices().len(), result.unresolved_expressions);
    assert_eq!(result.unique_expressions, 1);
    assert!(result.facts.is_unique(&x));
    assert!(!result.facts.is_unique(&y));
    assert!(!result.facts.is_unique(&z));
}
