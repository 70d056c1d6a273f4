use korrekt_ucp::cell::CellId;
use korrekt_ucp::expr::{UcpExpr, UcpScalar};
use korrekt_ucp::facts::UcpFacts;
use korrekt_ucp::rules::{expression_is_unique, infer_assigned_cell_from_zero_equation};

#[test]
fn const_rule_marks_constants_unique() {
    let facts = UcpFacts::new();

    assert!(expression_is_unique(&UcpExpr::constant(), &facts));
}

#[test]
fn var_rule_uses_known_unique_cells() {
    let known = CellId::advice(0, 3);
    let unknown = CellId::advice(1, 3);
    let facts = UcpFacts::from_iter([known.clone()]);

    assert!(expression_is_unique(&UcpExpr::var(known), &facts));
    assert!(!expression_is_unique(&UcpExpr::var(unknown), &facts));
}

#[test]
fn op_rule_requires_all_operands_to_be_unique() {
    let x = CellId::advice(0, 0);
    let y = CellId::advice(1, 0);
    let facts = UcpFacts::from_iter([x.clone()]);

    let unique_expr = UcpExpr::add(UcpExpr::var(x), UcpExpr::constant());
    let non_unique_expr = UcpExpr::mul(unique_expr.clone(), UcpExpr::var(y));

    assert!(expression_is_unique(&unique_expr, &facts));
    assert!(!expression_is_unique(&non_unique_expr, &facts));
}

#[test]
fn zero_product_is_unique() {
    let x = CellId::advice(0, 0);
    let facts = UcpFacts::new();
    let expr = UcpExpr::mul(UcpExpr::zero(), UcpExpr::var(x));

    assert!(expression_is_unique(&expr, &facts));
}

#[test]
fn unary_ops_preserve_uniqueness() {
    let x = CellId::instance(0, 0);
    let facts = UcpFacts::from_iter([x.clone()]);
    let expr = UcpExpr::neg(UcpExpr::scale(UcpExpr::var(x)));

    assert!(expression_is_unique(&expr, &facts));
}

#[test]
fn assign_rule_infers_single_linear_unknown() {
    let public = CellId::instance(0, 0);
    let advice = CellId::advice(0, 0);
    let facts = UcpFacts::from_iter([public.clone()]);
    let expr = UcpExpr::add(
        UcpExpr::scale_by(UcpExpr::var(advice.clone()), UcpScalar::NonZero),
        UcpExpr::var(public),
    );

    assert_eq!(
        infer_assigned_cell_from_zero_equation(&expr, &facts),
        Some(advice)
    );
}

#[test]
fn assign_rule_rejects_unknown_scalar() {
    let advice = CellId::advice(0, 0);
    let facts = UcpFacts::new();
    let expr = UcpExpr::scale_by(UcpExpr::var(advice), UcpScalar::Unknown);

    assert_eq!(infer_assigned_cell_from_zero_equation(&expr, &facts), None);
}

#[test]
fn assign_rule_rejects_multiple_unknowns() {
    let x = CellId::advice(0, 0);
    let y = CellId::advice(1, 0);
    let facts = UcpFacts::new();
    let expr = UcpExpr::add(UcpExpr::var(x), UcpExpr::var(y));

    assert_eq!(infer_assigned_cell_from_zero_equation(&expr, &facts), None);
}

#[test]
fn assign_rule_looks_through_non_zero_factor() {
    let public = CellId::instance(0, 0);
    let advice = CellId::advice(1, 0);
    let facts = UcpFacts::from_iter([public.clone()]);
    let expr = UcpExpr::mul(
        UcpExpr::non_zero_constant(),
        UcpExpr::add(UcpExpr::var(advice.clone()), UcpExpr::var(public)),
    );

    assert_eq!(
        infer_assigned_cell_from_zero_equation(&expr, &facts),
        Some(advice)
    );
}

#[test]
fn assign_rule_rejects_product_of_unknowns() {
    let x = CellId::advice(0, 0);
    let y = CellId::advice(1, 0);
    let facts = UcpFacts::new();
    let expr = UcpExpr::mul(UcpExpr::var(x), UcpExpr::var(y));

    assert_eq!(infer_assigned_cell_from_zero_equation(&expr, &facts), None);
}
