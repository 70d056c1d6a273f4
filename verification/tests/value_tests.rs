use korrekt_ucp::cell::CellId;
use korrekt_ucp::domain::{UcpValueDomain, UcpValueFacts, ValueKind};
use korrekt_ucp::expr::{UcpExpr, UcpScalar};
use korrekt_ucp::integer::Integer;
use korrekt_ucp::value::{
    evaluate_expr, expression_domain, infer_domains_from_expression_domain,
    infer_value_assignments_from_zero_equation, infer_value_domains_from_zero_equation,
    infer_value_domains_from_zero_equation_with_modulus, initial_values_from_instance_cells,
    parse_cell_id, value_kind,
};

fn num(v: i64) -> Integer {
    Integer::from_i64(v)
}

fn finite_domain(values: &[i64]) -> UcpValueDomain {
    UcpValueDomain::finite_set(values.iter().map(|value| Integer::from_i64(*value)).collect())
        .unwrap()
}

#[test]
fn evaluates_known_arithmetic_expression() {
    let x = CellId::instance(0, 0);
    let mut values = UcpValueFacts::new();
    values.mark_known(x.clone(), num(2));
    let expr = UcpExpr::add(UcpExpr::var(x), UcpExpr::known_constant_i64(-1));

    assert_eq!(evaluate_expr(&expr, &values), Some(num(1)));
    assert_eq!(value_kind(&expr, &values), ValueKind::NonZero);
}

#[test]
fn learns_zero_from_nonzero_product_equation() {
    let x = CellId::instance(0, 0);
    let y = CellId::advice(1, 0);
    let mut values = UcpValueFacts::new();
    values.mark_known(x.clone(), num(2));
    let nonzero = UcpExpr::add(UcpExpr::var(x), UcpExpr::known_constant_i64(-1));
    let expr = UcpExpr::mul(nonzero, UcpExpr::var(y.clone()));

    assert_eq!(
        infer_value_assignments_from_zero_equation(&expr, &values),
        vec![(y, num(0))]
    );
}

#[test]
fn learns_linear_assignment_value() {
    let x = CellId::advice(0, 0);
    let expr = UcpExpr::add(UcpExpr::var(x.clone()), UcpExpr::known_constant_i64(-5));

    assert_eq!(
        infer_value_assignments_from_zero_equation(&expr, &UcpValueFacts::new()),
        vec![(x, num(5))]
    );
}

#[test]
fn root_rule_learns_boolean_domain() {
    let b = CellId::advice(0, 0);
    let expr = UcpExpr::mul(
        UcpExpr::var(b.clone()),
        UcpExpr::add(UcpExpr::var(b.clone()), UcpExpr::known_constant_i64(-1)),
    );

    let inferences = infer_value_domains_from_zero_equation(&expr, &UcpValueFacts::new());

    assert_eq!(inferences, vec![(b, finite_domain(&[0, 1]))]);
}

#[test]
fn root_rule_learns_exact_zero_from_square_zero() {
    let x = CellId::advice(0, 0);
    let expr = UcpExpr::mul(UcpExpr::var(x.clone()), UcpExpr::var(x.clone()));

    let inferences = infer_value_domains_from_zero_equation(&expr, &UcpValueFacts::new());

    assert_eq!(inferences, vec![(x, UcpValueDomain::exact(num(0)))]);
}

#[test]
fn intersecting_domain_can_refine_boolean_to_exact_value() {
    let b = CellId::advice(0, 0);
    let mut values = UcpValueFacts::new();

    assert!(values.mark_domain(b.clone(), finite_domain(&[0, 1])));
    assert!(values.mark_known(b.clone(), num(1)));

    assert_eq!(values.known_value(&b), Some(&num(1)));
}

#[test]
fn finite_domain_can_be_checked_against_digit_range() {
    let b = CellId::advice(0, 0);
    let mut values = UcpValueFacts::new();

    values.mark_domain(b.clone(), finite_domain(&[0, 1]));

    assert!(values.domain_is_subset_of_range(&b, &num(0), &num(1)));
    assert!(values.domain_is_subset_of_range(&b, &num(0), &num(9)));
    assert!(!values.domain_is_subset_of_range(&b, &num(1), &num(9)));
}

#[test]
fn expression_domain_combines_finite_sets() {
    let x = CellId::advice(0, 0);
    let y = CellId::advice(1, 0);
    let mut values = UcpValueFacts::new();
    values.mark_domain(x.clone(), finite_domain(&[0, 1]));
    values.mark_domain(y.clone(), finite_domain(&[2, 3]));

    let sum = UcpExpr::add(UcpExpr::var(x.clone()), UcpExpr::var(y.clone()));
    let product = UcpExpr::mul(UcpExpr::var(x), UcpExpr::var(y));

    assert_eq!(
        expression_domain(&sum, &values),
        Some(finite_domain(&[2, 3, 4]))
    );
    assert_eq!(
        expression_domain(&product, &values),
        Some(finite_domain(&[0, 2, 3]))
    );
}

#[test]
fn linear_equation_learns_domain_from_expression_domain() {
    let b = CellId::advice(0, 0);
    let x = CellId::advice(1, 0);
    let mut values = UcpValueFacts::new();
    values.mark_domain(b.clone(), finite_domain(&[0, 1]));

    let expr = UcpExpr::add(
        UcpExpr::var(x.clone()),
        UcpExpr::neg(UcpExpr::add(
            UcpExpr::var(b),
            UcpExpr::known_constant_i64(1),
        )),
    );

    let inferences = infer_value_domains_from_zero_equation(&expr, &values);

    assert_eq!(inferences, vec![(x, finite_domain(&[1, 2]))]);
}

#[test]
fn scaled_linear_equation_uses_field_modulus_for_domain_division() {
    let b = CellId::advice(0, 0);
    let x = CellId::advice(1, 0);
    let mut values = UcpValueFacts::new();
    values.mark_domain(b.clone(), finite_domain(&[0, 2]));

    let expr = UcpExpr::add(
        UcpExpr::scale_by(UcpExpr::var(x.clone()), UcpScalar::known_i64(2)),
        UcpExpr::neg(UcpExpr::var(b)),
    );

    let inferences =
        infer_value_domains_from_zero_equation_with_modulus(&expr, &values, &num(5));

    assert_eq!(inferences, vec![(x, finite_domain(&[0, 1]))]);
}

#[test]
fn expression_membership_learns_affine_input_domain() {
    let x = CellId::advice(0, 0);
    let expr = UcpExpr::add(UcpExpr::var(x.clone()), UcpExpr::known_constant_i64(1));
    let table_domain = finite_domain(&[1, 2, 3]);

    let inferences =
        infer_domains_from_expression_domain(&expr, &table_domain, &UcpValueFacts::new());

    assert_eq!(inferences, vec![(x, finite_domain(&[0, 1, 2]))]);
}

#[test]
fn parses_analyzer_cell_names() {
    assert_eq!(parse_cell_id("A-0-0"), Some(CellId::advice(0, 0)));
    assert_eq!(parse_cell_id("I-2-17"), Some(CellId::instance(2, 17)));
    assert_eq!(parse_cell_id("F-+3-4"), Some(CellId::fixed(3, 4)));
    assert_eq!(parse_cell_id("X-0-0"), None);
    assert_eq!(parse_cell_id("A-0"), None);
    assert_eq!(parse_cell_id("A-0-0-1"), None);
    assert_eq!(parse_cell_id("A-0--1"), None);
    assert_eq!(parse_cell_id("A--0"), None);
    assert_eq!(parse_cell_id("A-x-0"), None);
    assert_eq!(parse_cell_id("A-0-2147483648"), None);
    assert_eq!(parse_cell_id("A-0-2147483647"), Some(CellId::advice(0, 2147483647)));
    assert_eq!(parse_cell_id("AA-0-0"), None);
}

#[test]
fn cell_names_parse_back() {
    for cell in [
        CellId::advice(0, 0),
        CellId::instance(12, 345),
        CellId::fixed(7, 2147483647),
    ] {
        assert_eq!(parse_cell_id(&cell.name()), Some(cell));
    }
    assert_eq!(CellId::advice(1, 2).name(), "A-1-2");
    assert_eq!(CellId::fixed(0, -3).name(), "F-0--3");
}

#[test]
fn instance_values_become_known_values() {
    let entries = vec![
        ("I-0-0".to_string(), 2i64),
        ("not a cell".to_string(), 9i64),
        ("I-0-1".to_string(), -4i64),
    ];

    let values = initial_values_from_instance_cells(&entries);

    assert_eq!(values.known_value(&CellId::instance(0, 0)), Some(&num(2)));
    assert_eq!(values.known_value(&CellId::instance(0, 1)), Some(&num(-4)));
    assert_eq!(values.known_values().len(), 2);
}

#[test]
fn kinds_and_domains_hold_for_unknown_scalars() {
    let x = CellId::advice(0, 0);
    let z = CellId::advice(1, 0);
    let mut values = UcpValueFacts::new();
    values.mark_domain(x.clone(), finite_domain(&[1, 2]));
    values.mark_known(z.clone(), num(0));

    let nonzero_product = UcpExpr::mul(UcpExpr::var(x.clone()), UcpExpr::non_zero_constant());
    let unknown_product = UcpExpr::mul(UcpExpr::var(x), UcpExpr::constant());
    let zero_scaled = UcpExpr::scale_by(UcpExpr::var(z), UcpScalar::NonZero);

    assert_eq!(value_kind(&nonzero_product, &values), ValueKind::NonZero);
    assert_eq!(value_kind(&unknown_product, &values), ValueKind::Unknown);
    assert_eq!(value_kind(&zero_scaled, &values), ValueKind::Zero);
    assert_eq!(expression_domain(&zero_scaled, &values), Some(UcpValueDomain::Exact(num(0))));
    assert_eq!(expression_domain(&nonzero_product, &values), None);
}
