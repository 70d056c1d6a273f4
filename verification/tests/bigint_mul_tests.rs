use korrekt_ucp::bigint_mul::{infer_bigint_mul_with_modulus, BigIntMulInference};
use korrekt_ucp::cell::CellId;
use korrekt_ucp::expr::{UcpExpr, UcpScalar};
use korrekt_ucp::facts::UcpFacts;
use korrekt_ucp::integer::Integer;

fn num(v: i64) -> Integer {
    Integer::from_i64(v)
}

fn modulus() -> Integer {
    num(101)
}

fn add3(left: UcpExpr, middle: UcpExpr, right: UcpExpr) -> UcpExpr {
    UcpExpr::add(UcpExpr::add(left, middle), right)
}

#[test]
fn infers_unknowns_from_invertible_linear_system() {
    let a = CellId::instance(0, 0);
    let b = CellId::instance(1, 0);
    let x = CellId::advice(0, 0);
    let y = CellId::advice(1, 0);
    let facts = UcpFacts::from_iter([a.clone(), b.clone()]);
    let expressions = vec![
        add3(
            UcpExpr::var(x.clone()),
            UcpExpr::var(y.clone()),
            UcpExpr::neg(UcpExpr::var(a)),
        ),
        add3(
            UcpExpr::var(x.clone()),
            UcpExpr::neg(UcpExpr::var(y.clone())),
            UcpExpr::neg(UcpExpr::var(b)),
        ),
    ];

    let inferences = infer_bigint_mul_with_modulus(&expressions, &facts, &modulus());

    assert_eq!(
        inferences,
        vec![
            BigIntMulInference { cell: x },
            BigIntMulInference { cell: y },
        ]
    );
}

#[test]
fn does_not_fire_for_singular_matrix() {
    let a = CellId::instance(0, 0);
    let b = CellId::instance(1, 0);
    let x = CellId::advice(0, 0);
    let y = CellId::advice(1, 0);
    let facts = UcpFacts::from_iter([a.clone(), b.clone()]);
    let expressions = vec![
        add3(
            UcpExpr::var(x.clone()),
            UcpExpr::var(y.clone()),
            UcpExpr::neg(UcpExpr::var(a)),
        ),
        UcpExpr::add(
            UcpExpr::add(
                UcpExpr::scale_by(UcpExpr::var(x), UcpScalar::known_i64(2)),
                UcpExpr::scale_by(UcpExpr::var(y), UcpScalar::known_i64(2)),
            ),
            UcpExpr::neg(UcpExpr::var(b)),
        ),
    ];

    assert!(infer_bigint_mul_with_modulus(&expressions, &facts, &modulus()).is_empty());
}

#[test]
fn does_not_fire_when_rhs_contains_unconstrained_cell() {
    let a = CellId::instance(0, 0);
    let x = CellId::advice(0, 0);
    let y = CellId::advice(1, 0);
    let z = CellId::advice(2, 0);
    let facts = UcpFacts::from_iter([a.clone()]);
    let expressions = vec![
        add3(
            UcpExpr::var(x),
            UcpExpr::var(y.clone()),
            UcpExpr::neg(UcpExpr::var(z)),
        ),
        UcpExpr::add(UcpExpr::var(y), UcpExpr::neg(UcpExpr::var(a))),
    ];

    assert!(infer_bigint_mul_with_modulus(&expressions, &facts, &modulus()).is_empty());
}

#[test]
fn infers_sparse_full_rank_component() {
    let a = CellId::instance(0, 0);
    let b = CellId::instance(1, 0);
    let c = CellId::instance(2, 0);
    let x = CellId::advice(0, 0);
    let y = CellId::advice(1, 0);
    let z = CellId::advice(2, 0);
    let facts = UcpFacts::from_iter([a.clone(), b.clone(), c.clone()]);
    let expressions = vec![
        add3(
            UcpExpr::var(x.clone()),
            UcpExpr::var(y.clone()),
            UcpExpr::neg(UcpExpr::var(a)),
        ),
        add3(
            UcpExpr::var(y.clone()),
            UcpExpr::var(z.clone()),
            UcpExpr::neg(UcpExpr::var(b)),
        ),
        add3(
            UcpExpr::var(x.clone()),
            UcpExpr::var(z.clone()),
            UcpExpr::neg(UcpExpr::var(c)),
        ),
    ];

    let inferences = infer_bigint_mul_with_modulus(&expressions, &facts, &modulus());

    assert_eq!(
        inferences,
        vec![
            BigIntMulInference { cell: x },
            BigIntMulInference { cell: y },
            BigIntMulInference { cell: z },
        ]
    );
}

#[test]
fn accepts_unique_nonlinear_rhs_expression() {
    let a = CellId::instance(0, 0);
    let b = CellId::instance(1, 0);
    let x = CellId::advice(0, 0);
    let y = CellId::advice(1, 0);
    let facts = UcpFacts::from_iter([a.clone(), b.clone()]);
    let expressions = vec![
        add3(
            UcpExpr::var(x.clone()),
            UcpExpr::var(y.clone()),
            UcpExpr::mul(UcpExpr::var(a.clone()), UcpExpr::var(b)),
        ),
        add3(
            UcpExpr::var(x.clone()),
            UcpExpr::neg(UcpExpr::var(y.clone())),
            UcpExpr::var(a),
        ),
    ];

    let inferences = infer_bigint_mul_with_modulus(&expressions, &facts, &modulus());

    assert_eq!(
        inferences,
        vec![
            BigIntMulInference { cell: x },
            BigIntMulInference { cell: y },
        ]
    );
}

#[test]
fn rejects_unique_variable_coefficient() {
    let a = CellId::instance(0, 0);
    let b = CellId::instance(1, 0);
    let c = CellId::instance(2, 0);
    let x = CellId::advice(0, 0);
    let y = CellId::advice(1, 0);
    let facts = UcpFacts::from_iter([a.clone(), b.clone(), c.clone()]);
    let expressions = vec![
        add3(
            UcpExpr::mul(UcpExpr::var(a), UcpExpr::var(x.clone())),
            UcpExpr::var(y.clone()),
            UcpExpr::neg(UcpExpr::var(b)),
        ),
        add3(
            UcpExpr::var(x),
            UcpExpr::neg(UcpExpr::var(y)),
            UcpExpr::neg(UcpExpr::var(c)),
        ),
    ];

    assert!(infer_bigint_mul_with_modulus(&expressions, &facts, &modulus()).is_empty());
}

#[test]
fn accepts_invertible_square_subsystem_with_extra_equation() {
    let a = CellId::instance(0, 0);
    let b = CellId::instance(1, 0);
    let c = CellId::instance(2, 0);
    let x = CellId::advice(0, 0);
    let y = CellId::advice(1, 0);
    let facts = UcpFacts::from_iter([a.clone(), b.clone(), c.clone()]);
    let expressions = vec![
        add3(
            UcpExpr::var(x.clone()),
            UcpExpr::var(y.clone()),
            UcpExpr::neg(UcpExpr::var(a)),
        ),
        add3(
            UcpExpr::var(x.clone()),
            UcpExpr::neg(UcpExpr::var(y.clone())),
            UcpExpr::neg(UcpExpr::var(b)),
        ),
        add3(
            UcpExpr::scale_by(UcpExpr::var(x.clone()), UcpScalar::known_i64(2)),
            UcpExpr::var(y.clone()),
            UcpExpr::neg(UcpExpr::var(c)),
        ),
    ];

    let inferences = infer_bigint_mul_with_modulus(&expressions, &facts, &modulus());

    assert_eq!(
        inferences,
        vec![
            BigIntMulInference { cell: x },
            BigIntMulInference { cell: y },
        ]
    );
}

#[test]
fn infers_only_the_component_of_full_rank() {
    let a = CellId::instance(0, 0);
    let b = CellId::instance(1, 0);
    let x = CellId::advice(0, 0);
    let y = CellId::advice(1, 0);
    let z = CellId::advice(2, 0);
    let w = CellId::advice(3, 0);
    let facts = UcpFacts::from_iter([a.clone(), b.clone()]);
    let expressions = vec![
        add3(
            UcpExpr::var(x.clone()),
            UcpExpr::var(y.clone()),
            UcpExpr::neg(UcpExpr::var(a.clone())),
        ),
        add3(
            UcpExpr::var(x.clone()),
            UcpExpr::neg(UcpExpr::var(y.clone())),
            UcpExpr::neg(UcpExpr::var(b)),
        ),
        add3(UcpExpr::var(z), UcpExpr::var(w), UcpExpr::neg(UcpExpr::var(a))),
    ];

    let inferences = infer_bigint_mul_with_modulus(&expressions, &facts, &modulus());

    assert_eq!(
        inferences,
        vec![
            BigIntMulInference { cell: x },
            BigIntMulInference { cell: y },
        ]
    );
}

#[test]
fn does_not_fire_when_singular_only_modulo_the_field() {
    let a = CellId::instance(0, 0);
    let b = CellId::instance(1, 0);
    let x = CellId::advice(0, 0);
    let y = CellId::advice(1, 0);
    let facts = UcpFacts::from_iter([a.clone(), b.clone()]);
    let expressions = vec![
        add3(
            UcpExpr::var(x.clone()),
            UcpExpr::var(y.clone()),
            UcpExpr::neg(UcpExpr::var(a)),
        ),
        add3(
            UcpExpr::var(x),
            UcpExpr::scale_by(UcpExpr::var(y), UcpScalar::known_i64(102)),
            UcpExpr::neg(UcpExpr::var(b)),
        ),
    ];

    assert!(infer_bigint_mul_with_modulus(&expressions, &facts, &modulus()).is_empty());
}
