use korrekt_ucp::base_conv::{
    infer_base_conversions, infer_base_conversions_with_modulus, BaseConvInference,
};
use korrekt_ucp::cell::CellId;
use korrekt_ucp::domain::{UcpValueDomain, UcpValueFacts};
use korrekt_ucp::expr::{UcpExpr, UcpScalar};
use korrekt_ucp::facts::UcpFacts;
use korrekt_ucp::integer::Integer;

fn num(v: i64) -> Integer {
    Integer::from_i64(v)
}

fn boolean_domain() -> UcpValueDomain {
    UcpValueDomain::finite_set(vec![num(0), num(1)]).unwrap()
}

fn mark_bits(values: &mut UcpValueFacts, bits: &[CellId]) {
    for bit in bits {
        values.mark_domain(bit.clone(), boolean_domain());
    }
}

#[test]
fn infers_binary_decomposition_digits_from_exact_x() {
    let x = CellId::instance(0, 0);
    let b0 = CellId::advice(0, 0);
    let b1 = CellId::advice(1, 0);
    let b2 = CellId::advice(2, 0);
    let expr = UcpExpr::add(
        UcpExpr::add(
            UcpExpr::var(b0.clone()),
            UcpExpr::scale_by(UcpExpr::var(b1.clone()), UcpScalar::known_i64(2)),
        ),
        UcpExpr::add(
            UcpExpr::scale_by(UcpExpr::var(b2.clone()), UcpScalar::known_i64(4)),
            UcpExpr::neg(UcpExpr::var(x.clone())),
        ),
    );
    let facts = UcpFacts::from_iter([x.clone()]);
    let mut values = UcpValueFacts::new();
    values.mark_known(x, num(5));
    mark_bits(&mut values, &[b0.clone(), b1.clone(), b2.clone()]);

    let inferences = infer_base_conversions(&[expr], &facts, &values);

    assert_eq!(
        inferences,
        vec![
            BaseConvInference {
                cell: b0,
                value: Some(num(1))
            },
            BaseConvInference {
                cell: b1,
                value: Some(num(0))
            },
            BaseConvInference {
                cell: b2,
                value: Some(num(1))
            },
        ]
    );
}

#[test]
fn infers_uniqueness_without_exact_x_value() {
    let x = CellId::instance(0, 0);
    let b0 = CellId::advice(0, 0);
    let b1 = CellId::advice(1, 0);
    let expr = UcpExpr::add(
        UcpExpr::add(
            UcpExpr::var(b0.clone()),
            UcpExpr::scale_by(UcpExpr::var(b1.clone()), UcpScalar::known_i64(2)),
        ),
        UcpExpr::neg(UcpExpr::var(x.clone())),
    );
    let facts = UcpFacts::from_iter([x]);
    let mut values = UcpValueFacts::new();
    mark_bits(&mut values, &[b0.clone(), b1.clone()]);

    let inferences = infer_base_conversions(&[expr], &facts, &values);

    assert_eq!(
        inferences,
        vec![
            BaseConvInference {
                cell: b0,
                value: None
            },
            BaseConvInference {
                cell: b1,
                value: None
            },
        ]
    );
}

#[test]
fn does_not_fire_without_digit_domains() {
    let x = CellId::instance(0, 0);
    let b0 = CellId::advice(0, 0);
    let b1 = CellId::advice(1, 0);
    let expr = UcpExpr::add(
        UcpExpr::add(
            UcpExpr::var(b0),
            UcpExpr::scale_by(UcpExpr::var(b1), UcpScalar::known_i64(2)),
        ),
        UcpExpr::neg(UcpExpr::var(x.clone())),
    );
    let facts = UcpFacts::from_iter([x]);
    let values = UcpValueFacts::new();

    assert!(infer_base_conversions(&[expr], &facts, &values).is_empty());
}

#[test]
fn does_not_fire_for_non_power_coefficients() {
    let x = CellId::instance(0, 0);
    let b0 = CellId::advice(0, 0);
    let b1 = CellId::advice(1, 0);
    let b2 = CellId::advice(2, 0);
    let expr = UcpExpr::add(
        UcpExpr::add(
            UcpExpr::var(b0.clone()),
            UcpExpr::scale_by(UcpExpr::var(b1.clone()), UcpScalar::known_i64(2)),
        ),
        UcpExpr::add(
            UcpExpr::scale_by(UcpExpr::var(b2.clone()), UcpScalar::known_i64(5)),
            UcpExpr::neg(UcpExpr::var(x.clone())),
        ),
    );
    let facts = UcpFacts::from_iter([x]);
    let mut values = UcpValueFacts::new();
    mark_bits(&mut values, &[b0, b1, b2]);

    assert!(infer_base_conversions(&[expr], &facts, &values).is_empty());
}

#[test]
fn does_not_fire_when_highest_digit_can_wrap_modulus() {
    let x = CellId::instance(0, 0);
    let b0 = CellId::advice(0, 0);
    let b1 = CellId::advice(1, 0);
    let expr = UcpExpr::add(
        UcpExpr::add(
            UcpExpr::var(b0.clone()),
            UcpExpr::scale_by(UcpExpr::var(b1.clone()), UcpScalar::known_i64(2)),
        ),
        UcpExpr::neg(UcpExpr::var(x.clone())),
    );
    let facts = UcpFacts::from_iter([x]);
    let mut values = UcpValueFacts::new();
    mark_bits(&mut values, &[b0, b1]);

    assert!(
        infer_base_conversions_with_modulus(&[expr], &facts, &values, &num(4))
            .is_empty()
    );
}
