use korrekt_ucp::cell::CellId;
use korrekt_ucp::choose_var::choose_query_cell;
use korrekt_ucp::domain::{UcpValueDomain, UcpValueFacts};
use korrekt_ucp::engine::{analyze_expressions_with_values_and_modulus, UcpResult};
use korrekt_ucp::expr::{UcpExpr, UcpScalar};
use korrekt_ucp::facts::UcpFacts;
use korrekt_ucp::integer::Integer;

fn num(v: i64) -> Integer {
    Integer::from_i64(v)
}

fn modulus() -> Integer {
    num(101)
}

fn add3(left: UcpExpr, middle: UcpExpr, right: UcpExpr) -> UcpExpr {
    UcpExpr::add(UcpExpr::add(left, middle), right)
}

fn product(y: &CellId, x: &CellId, root: i64) -> UcpExpr {
    UcpExpr::mul(
        UcpExpr::var(y.clone()),
        UcpExpr::add(UcpExpr::var(x.clone()), UcpExpr::known_constant_i64(-root)),
    )
}

fn sorted_unique_cells(result: &UcpResult) -> Vec<CellId> {
    let mut cells: Vec<CellId> = result.facts.unique_cells().iter().cloned().collect();
    cells.sort();
    cells
}

#[test]
fn demo_assign_chain_grows_k_step_by_step() {
    let public = CellId::instance(0, 0);
    let x = CellId::advice(0, 0);
    let y = CellId::advice(1, 0);
    let z = CellId::advice(2, 0);

    let expressions = vec![
        add3(
            UcpExpr::var(x.clone()),
            UcpExpr::var(public.clone()),
            UcpExpr::known_constant_i64(-5),
        ),
        add3(
            UcpExpr::var(y.clone()),
            UcpExpr::neg(UcpExpr::var(x.clone())),
            UcpExpr::known_constant_i64(-1),
        ),
        add3(
            UcpExpr::var(z.clone()),
            UcpExpr::neg(UcpExpr::var(y.clone())),
            UcpExpr::known_constant_i64(-1),
        ),
    ];
    let facts = UcpFacts::from_iter([public.clone()]);

    let result = analyze_expressions_with_values_and_modulus(
        &expressions,
        facts,
        UcpValueFacts::new(),
        &modulus(),
    );

    println!("demo_assign_chain K={:?}", sorted_unique_cells(&result));

    assert!(result.facts.is_unique(&public));
    assert!(result.facts.is_unique(&x));
    assert!(result.facts.is_unique(&y));
    assert!(result.facts.is_unique(&z));
    assert!(result.all_expressions_unique());
}

#[test]
fn demo_boolean_roots_enable_base_conversion() {
    let x = CellId::instance(0, 0);
    let b0 = CellId::advice(0, 0);
    let b1 = CellId::advice(1, 0);

    let boolean_b0 = UcpExpr::mul(
        UcpExpr::var(b0.clone()),
        UcpExpr::add(UcpExpr::var(b0.clone()), UcpExpr::known_constant_i64(-1)),
    );
    let boolean_b1 = UcpExpr::mul(
        UcpExpr::var(b1.clone()),
        UcpExpr::add(UcpExpr::var(b1.clone()), UcpExpr::known_constant_i64(-1)),
    );
    let base_conv = add3(
        UcpExpr::var(b0.clone()),
        UcpExpr::scale_by(
            UcpExpr::var(b1.clone()),
            UcpScalar::known_i64(2),
        ),
        UcpExpr::neg(UcpExpr::var(x.clone())),
    );
    let expressions = vec![boolean_b0, boolean_b1, base_conv];
    let facts = UcpFacts::from_iter([x.clone()]);

    let result = analyze_expressions_with_values_and_modulus(
        &expressions,
        facts,
        UcpValueFacts::new(),
        &modulus(),
    );

    println!(
        "demo_boolean_base_conv K={:?} Delta={:?}",
        sorted_unique_cells(&result),
        result.value_facts.domains()
    );

    assert_eq!(
        result.value_facts.domain(&b0),
        Some(&UcpValueDomain::finite_set(vec![num(0), num(1)]).unwrap())
    );
    assert_eq!(
        result.value_facts.domain(&b1),
        Some(&UcpValueDomain::finite_set(vec![num(0), num(1)]).unwrap())
    );
    assert!(result.facts.is_unique(&b0));
    assert!(result.facts.is_unique(&b1));
}

#[test]
fn demo_all_but_one_learns_one_hot_values() {
    let x = CellId::instance(0, 0);
    let e = CellId::instance(1, 0);
    let y0 = CellId::advice(0, 0);
    let y1 = CellId::advice(1, 0);
    let y2 = CellId::advice(2, 0);

    let expressions = vec![
        product(&y0, &x, 0),
        product(&y1, &x, 1),
        product(&y2, &x, 2),
        add3(
            UcpExpr::var(y0.clone()),
            UcpExpr::var(y1.clone()),
            UcpExpr::add(
                UcpExpr::var(y2.clone()),
                UcpExpr::neg(UcpExpr::var(e.clone())),
            ),
        ),
    ];
    let facts = UcpFacts::from_iter([x.clone(), e.clone()]);
    let mut values = UcpValueFacts::new();
    values.mark_known(x.clone(), num(1));
    values.mark_known(e.clone(), num(7));

    let result =
        analyze_expressions_with_values_and_modulus(&expressions, facts, values, &modulus());

    println!(
        "demo_all_but_one K={:?} values={:?}",
        sorted_unique_cells(&result),
        result.value_facts.known_values()
    );

    assert!(result.facts.is_unique(&y0));
    assert!(result.facts.is_unique(&y1));
    assert!(result.facts.is_unique(&y2));
    assert_eq!(result.value_facts.known_value(&y0), Some(&num(0)));
    assert_eq!(result.value_facts.known_value(&y1), Some(&num(7)));
    assert_eq!(result.value_facts.known_value(&y2), Some(&num(0)));
}

#[test]
fn demo_bigint_mul_solves_invertible_linear_system() {
    let a = CellId::instance(0, 0);
    let b = CellId::instance(1, 0);
    let x = CellId::advice(0, 0);
    let y = CellId::advice(1, 0);

    let expressions = vec![
        add3(
            UcpExpr::scale_by(
                UcpExpr::var(x.clone()),
                UcpScalar::known_i64(2),
            ),
            UcpExpr::var(y.clone()),
            UcpExpr::neg(UcpExpr::var(a.clone())),
        ),
        add3(
            UcpExpr::var(x.clone()),
            UcpExpr::scale_by(
                UcpExpr::var(y.clone()),
                UcpScalar::known_i64(3),
            ),
            UcpExpr::neg(UcpExpr::var(b.clone())),
        ),
    ];
    let facts = UcpFacts::from_iter([a, b]);

    let result = analyze_expressions_with_values_and_modulus(
        &expressions,
        facts,
        UcpValueFacts::new(),
        &modulus(),
    );

    println!("demo_bigint_mul K={:?}", sorted_unique_cells(&result));

    assert!(result.facts.is_unique(&x));
    assert!(result.facts.is_unique(&y));
    assert!(result.all_expressions_unique());
}

#[test]
fn demo_choose_var_prefers_target_that_closes_the_goal() {
    let public = CellId::instance(0, 0);
    let x = CellId::advice(0, 0);
    let y = CellId::advice(1, 0);
    let z = CellId::advice(2, 0);

    let expressions = vec![
        add3(
            UcpExpr::var(x.clone()),
            UcpExpr::var(public.clone()),
            UcpExpr::known_constant_i64(-5),
        ),
        add3(
            UcpExpr::var(y.clone()),
            UcpExpr::neg(UcpExpr::var(x.clone())),
            UcpExpr::known_constant_i64(-1),
        ),
        add3(
            UcpExpr::var(z.clone()),
            UcpExpr::neg(UcpExpr::var(y.clone())),
            UcpExpr::known_constant_i64(-1),
        ),
    ];
    let facts = UcpFacts::from_iter([public.clone()]);
    let chosen = choose_query_cell(
        &expressions,
        &facts,
        &UcpValueFacts::new(),
        &modulus(),
        &[z.clone()],
        &[],
    );

    println!("demo_choose_var chosen={:?}", chosen);

    assert_eq!(chosen, Some(z));
}

#[test]
fn demo_underconstrained_equation_stays_unresolved() {
    let public = CellId::instance(0, 0);
    let x = CellId::advice(0, 0);
    let y = CellId::advice(1, 0);
    let expressions = vec![add3(
        UcpExpr::var(x.clone()),
        UcpExpr::var(y.clone()),
        UcpExpr::neg(UcpExpr::var(public.clone())),
    )];
    let facts = UcpFacts::from_iter([public]);

    let result = analyze_expressions_with_values_and_modulus(
        &expressions,
        facts,
        UcpValueFacts::new(),
        &modulus(),
    );

    println!(
        "demo_underconstrained unresolved={:?}",
        result.unresolved_targets(&[x.clone(), y.clone()])
    );

    assert!(!result.facts.is_unique(&x));
    assert!(!result.facts.is_unique(&y));
    assert_eq!(result.unresolved_targets(&[x, y]).len(), 2);
}
