use korrekt_ucp::cell::CellId;
use korrekt_ucp::domain::{UcpValueDomain, UcpValueFacts};
use korrekt_ucp::engine::{analyze_expressions, analyze_expressions_with_values_and_modulus};
use korrekt_ucp::expr::UcpExpr;
use korrekt_ucp::facts::initial_facts;
use korrekt_ucp::integer::Integer;
use korrekt_ucp::plonkish::{
    expression_to_ucp_expr, expression_to_ucp_expr_with_active_selectors,
    expression_to_ucp_expr_with_fixed_values, expression_to_ucp_expr_with_inactive_selectors,
    PlonkExpr, PlonkQuery,
};
use std::collections::HashSet;

fn num(v: i64) -> Integer {
    Integer::from_i64(v)
}

fn at(column_index: usize, rotation: i32) -> PlonkQuery {
    PlonkQuery { column_index, rotation }
}

fn sum(a: PlonkExpr, b: PlonkExpr) -> PlonkExpr {
    PlonkExpr::Sum(Box::new(a), Box::new(b))
}

fn product(a: PlonkExpr, b: PlonkExpr) -> PlonkExpr {
    PlonkExpr::Product(Box::new(a), Box::new(b))
}

fn minus(a: PlonkExpr, b: PlonkExpr) -> PlonkExpr {
    sum(a, PlonkExpr::Negated(Box::new(b)))
}

fn collect_vars(expr: &UcpExpr, vars: &mut HashSet<CellId>) {
    match expr {
        UcpExpr::Var(cell) => {
            vars.insert(cell.clone());
        }
        UcpExpr::Const(_) => {}
        UcpExpr::Neg(inner) | UcpExpr::Scale(inner, _) => collect_vars(inner, vars),
        UcpExpr::Add(left, right) | UcpExpr::Mul(left, right) => {
            collect_vars(left, vars);
            collect_vars(right, vars);
        }
    }
}

// `s * (advice_cur + instance_prev) * (fixed_cur - 7)`.
#[test]
fn converts_plonkish_queries_to_absolute_ucp_cells() {
    let poly = product(
        product(
            PlonkExpr::Selector(0),
            sum(PlonkExpr::Advice(at(0, 0)), PlonkExpr::Instance(at(0, -1))),
        ),
        minus(PlonkExpr::Fixed(at(0, 0)), PlonkExpr::Constant(num(7))),
    );

    let ucp_expr = expression_to_ucp_expr(&poly, 10, 2);
    let mut vars = HashSet::new();
    collect_vars(&ucp_expr, &mut vars);

    assert_eq!(vars.len(), 3);
    assert!(vars.contains(&CellId::advice(0, 12)));
    assert!(vars.contains(&CellId::instance(0, 11)));
    assert!(vars.contains(&CellId::fixed(0, 12)));
}

#[test]
fn zero_scaled_expression_is_constant_for_ucp() {
    let expr = PlonkExpr::Scaled(Box::new(PlonkExpr::Constant(num(9))), num(0));

    assert_eq!(expression_to_ucp_expr(&expr, 0, 0), UcpExpr::zero());
}

// `selector * (b0 + 2 * b1 - x)`.
#[test]
fn converts_sample_circuit_gate_expression() {
    let poly = product(
        PlonkExpr::Selector(0),
        minus(
            sum(
                PlonkExpr::Advice(at(0, 0)),
                product(PlonkExpr::Constant(num(2)), PlonkExpr::Advice(at(1, 0))),
            ),
            PlonkExpr::Advice(at(2, 0)),
        ),
    );

    let ucp_expr = expression_to_ucp_expr(&poly, 0, 0);
    let mut vars = HashSet::new();
    collect_vars(&ucp_expr, &mut vars);

    assert!(vars.contains(&CellId::advice(0, 0)));
    assert!(vars.contains(&CellId::advice(1, 0)));
    assert!(vars.contains(&CellId::advice(2, 0)));
    assert_eq!(vars.len(), 3);
}

fn selected_assignment() -> PlonkExpr {
    product(
        PlonkExpr::Selector(0),
        minus(
            sum(PlonkExpr::Advice(at(0, 0)), PlonkExpr::Instance(at(0, 0))),
            PlonkExpr::Constant(num(5)),
        ),
    )
}

#[test]
fn active_selector_conversion_allows_assign_propagation() {
    let poly = selected_assignment();
    let default_expr = expression_to_ucp_expr(&poly, 0, 0);
    let default_result =
        analyze_expressions(&[default_expr], initial_facts([CellId::instance(0, 0)], []));

    assert!(!default_result.facts.is_unique(&CellId::advice(0, 0)));
    assert!(!default_result.all_expressions_unique());

    let active_expr = expression_to_ucp_expr_with_active_selectors(&poly, 0, 0, &HashSet::new());
    let active_result =
        analyze_expressions(&[active_expr], initial_facts([CellId::instance(0, 0)], []));

    assert!(active_result.facts.is_unique(&CellId::advice(0, 0)));
    assert!(active_result.all_expressions_unique());
}

#[test]
fn inactive_selector_conversion_does_not_propagate_assignment() {
    let poly = selected_assignment();
    let inactive_expr =
        expression_to_ucp_expr_with_inactive_selectors(&poly, 0, 0, &HashSet::new());
    let inactive_result = analyze_expressions(
        &[inactive_expr],
        initial_facts([CellId::instance(0, 0)], []),
    );

    assert!(!inactive_result.facts.is_unique(&CellId::advice(0, 0)));
    assert!(inactive_result.all_expressions_unique());
}

// `fixed_selector * (advice + public - 5)`, fixed column 0 assigned 1 at row 0.
#[test]
fn fixed_value_conversion_uses_assigned_one_selector() {
    let poly = product(
        PlonkExpr::Fixed(at(0, 0)),
        minus(
            sum(PlonkExpr::Advice(at(0, 0)), PlonkExpr::Instance(at(0, 0))),
            PlonkExpr::Constant(num(5)),
        ),
    );

    let fixed_values = vec![vec![Some(num(1))]];
    let expr = expression_to_ucp_expr_with_fixed_values(&poly, 0, 0, &fixed_values);
    let result = analyze_expressions(&[expr], initial_facts([CellId::instance(0, 0)], []));

    assert!(result.facts.is_unique(&CellId::advice(0, 0)));
    assert!(result.all_expressions_unique());
}

// `fixed_selector * (b0 + 2 * b1 - x)`, fixed column 0 assigned 0 at row 0.
#[test]
fn fixed_value_conversion_uses_assigned_zero_selector() {
    let poly = product(
        PlonkExpr::Fixed(at(0, 0)),
        minus(
            sum(
                PlonkExpr::Advice(at(0, 0)),
                product(PlonkExpr::Constant(num(2)), PlonkExpr::Advice(at(1, 0))),
            ),
            PlonkExpr::Instance(at(0, 0)),
        ),
    );

    let fixed_values = vec![vec![Some(num(0))]];
    let expr = expression_to_ucp_expr_with_fixed_values(&poly, 0, 0, &fixed_values);
    let mut value_facts = UcpValueFacts::new();
    let boolean_domain = UcpValueDomain::finite_set(vec![num(0), num(1)]).unwrap();
    value_facts.mark_domain(CellId::advice(0, 0), boolean_domain.clone());
    value_facts.mark_domain(CellId::advice(1, 0), boolean_domain);

    let result = analyze_expressions_with_values_and_modulus(
        &[expr],
        initial_facts([CellId::instance(0, 0)], []),
        value_facts,
        &num(101),
    );

    assert!(!result.facts.is_unique(&CellId::advice(0, 0)));
    assert!(!result.facts.is_unique(&CellId::advice(1, 0)));
    assert!(result.all_expressions_unique());
}
