use korrekt_ucp::all_but_one::{infer_all_but_one_zero, AllButOneInference};
use korrekt_ucp::cell::CellId;
use korrekt_ucp::domain::UcpValueFacts;
use korrekt_ucp::expr::UcpExpr;
use korrekt_ucp::facts::UcpFacts;
use korrekt_ucp::integer::Integer;

fn num(v: i64) -> Integer {
    Integer::from_i64(v)
}

fn product(y: &CellId, x: &CellId, root: i64) -> UcpExpr {
    UcpExpr::mul(
        UcpExpr::var(y.clone()),
        UcpExpr::add(UcpExpr::var(x.clone()), UcpExpr::known_constant_i64(-root)),
    )
}

#[test]
fn infers_all_outputs_unique_from_one_hot_pattern() {
    let x = CellId::instance(0, 0);
    let e = CellId::instance(1, 0);
    let y0 = CellId::advice(0, 0);
    let y1 = CellId::advice(1, 0);
    let y2 = CellId::advice(2, 0);
    let expressions = vec![
        product(&y0, &x, 0),
        product(&y1, &x, 1),
        product(&y2, &x, 2),
        UcpExpr::add(
            UcpExpr::add(UcpExpr::var(y0.clone()), UcpExpr::var(y1.clone())),
            UcpExpr::add(
                UcpExpr::var(y2.clone()),
                UcpExpr::neg(UcpExpr::var(e.clone())),
            ),
        ),
    ];
    let facts = UcpFacts::from_iter([x.clone(), e.clone()]);
    let values = UcpValueFacts::new();

    let inferences = infer_all_but_one_zero(&expressions, &facts, &values);

    assert_eq!(
        inferences,
        vec![
            AllButOneInference {
                cell: y0,
                value: None
            },
            AllButOneInference {
                cell: y1,
                value: None
            },
            AllButOneInference {
                cell: y2,
                value: None
            },
        ]
    );
}

#[test]
fn carries_exact_values_when_x_and_e_are_known() {
    let x = CellId::instance(0, 0);
    let e = CellId::instance(1, 0);
    let y0 = CellId::advice(0, 0);
    let y1 = CellId::advice(1, 0);
    let y2 = CellId::advice(2, 0);
    let expressions = vec![
        product(&y0, &x, 0),
        product(&y1, &x, 1),
        product(&y2, &x, 2),
        UcpExpr::add(
            UcpExpr::add(UcpExpr::var(y0.clone()), UcpExpr::var(y1.clone())),
            UcpExpr::add(
                UcpExpr::var(y2.clone()),
                UcpExpr::neg(UcpExpr::var(e.clone())),
            ),
        ),
    ];
    let facts = UcpFacts::from_iter([x.clone(), e.clone()]);
    let mut values = UcpValueFacts::new();
    values.mark_known(x, num(1));
    values.mark_known(e, num(1));

    let inferences = infer_all_but_one_zero(&expressions, &facts, &values);

    assert_eq!(
        inferences,
        vec![
            AllButOneInference {
                cell: y0,
                value: Some(num(0))
            },
            AllButOneInference {
                cell: y1,
                value: Some(num(1))
            },
            AllButOneInference {
                cell: y2,
                value: Some(num(0))
            },
        ]
    );
}

#[test]
fn does_not_fire_when_sum_target_is_not_unique() {
    let x = CellId::instance(0, 0);
    let e = CellId::advice(9, 0);
    let y0 = CellId::advice(0, 0);
    let y1 = CellId::advice(1, 0);
    let expressions = vec![
        product(&y0, &x, 0),
        product(&y1, &x, 1),
        UcpExpr::add(
            UcpExpr::var(e),
            UcpExpr::neg(UcpExpr::add(
                UcpExpr::var(y0.clone()),
                UcpExpr::var(y1.clone()),
            )),
        ),
    ];
    let facts = UcpFacts::from_iter([x]);
    let values = UcpValueFacts::new();

    assert!(infer_all_but_one_zero(&expressions, &facts, &values).is_empty());
}

#[test]
fn does_not_fire_when_roots_are_duplicated() {
    let x = CellId::instance(0, 0);
    let e = CellId::instance(1, 0);
    let y0 = CellId::advice(0, 0);
    let y1 = CellId::advice(1, 0);
    let expressions = vec![
        product(&y0, &x, 0),
        product(&y1, &x, 0),
        UcpExpr::add(
            UcpExpr::add(UcpExpr::var(y0), UcpExpr::var(y1)),
            UcpExpr::neg(UcpExpr::var(e.clone())),
        ),
    ];
    let facts = UcpFacts::from_iter([x, e]);
    let values = UcpValueFacts::new();

    assert!(infer_all_but_one_zero(&expressions, &facts, &values).is_empty());
}

#[test]
fn does_not_fire_when_roots_are_distinct_but_not_zero_to_n() {
    let x = CellId::instance(0, 0);
    let e = CellId::instance(1, 0);
    let y0 = CellId::advice(0, 0);
    let y1 = CellId::advice(1, 0);
    let expressions = vec![
        product(&y0, &x, 4),
        product(&y1, &x, 5),
        UcpExpr::add(
            UcpExpr::add(UcpExpr::var(y0), UcpExpr::var(y1)),
            UcpExpr::neg(UcpExpr::var(e.clone())),
        ),
    ];
    let facts = UcpFacts::from_iter([x, e]);
    let values = UcpValueFacts::new();

    assert!(infer_all_but_one_zero(&expressions, &facts, &values).is_empty());
}
