use korrekt_ucp::cell::CellId;
use korrekt_ucp::choose_var::choose_query_cell;
use korrekt_ucp::domain::UcpValueFacts;
use korrekt_ucp::expr::UcpExpr;
use korrekt_ucp::facts::UcpFacts;
use korrekt_ucp::integer::Integer;

fn modulus() -> Integer {
    Integer::from_i64(101)
}

#[test]
fn chooses_cell_with_best_ucp_simulated_gain() {
    let x = CellId::advice(0, 0);
    let e = CellId::instance(0, 0);
    let target_a = CellId::advice(1, 0);
    let target_b = CellId::advice(2, 0);
    let expressions = vec![
        UcpExpr::mul(UcpExpr::var(target_a.clone()), UcpExpr::var(x.clone())),
        UcpExpr::mul(
            UcpExpr::var(target_b.clone()),
            UcpExpr::add(UcpExpr::var(x.clone()), UcpExpr::known_constant_i64(-1)),
        ),
        UcpExpr::add(
            UcpExpr::add(
                UcpExpr::var(target_a.clone()),
                UcpExpr::var(target_b.clone()),
            ),
            UcpExpr::neg(UcpExpr::var(e.clone())),
        ),
    ];

    let chosen = choose_query_cell(
        &expressions,
        &UcpFacts::from_iter([e]),
        &UcpValueFacts::new(),
        &modulus(),
        &[target_a, target_b],
        &[],
    );

    assert_eq!(chosen, Some(x));
}

#[test]
fn prefers_target_when_gain_is_tied() {
    let target = CellId::advice(0, 0);
    let other = CellId::advice(1, 0);
    let expressions = vec![UcpExpr::add(
        UcpExpr::var(target.clone()),
        UcpExpr::var(other),
    )];

    let chosen = choose_query_cell(
        &expressions,
        &UcpFacts::new(),
        &UcpValueFacts::new(),
        &modulus(),
        &[target.clone()],
        &[],
    );

    assert_eq!(chosen, Some(target));
}

#[test]
fn skips_already_queried_cells() {
    let first = CellId::advice(0, 0);
    let second = CellId::advice(1, 0);
    let expressions = vec![UcpExpr::var(first.clone()), UcpExpr::var(second.clone())];
    let queried = [first];

    let chosen = choose_query_cell(
        &expressions,
        &UcpFacts::new(),
        &UcpValueFacts::new(),
        &modulus(),
        &[],
        &queried,
    );

    assert_eq!(chosen, Some(second));
}

#[test]
fn chooses_nothing_when_every_cell_is_known_or_asked() {
    let x = CellId::advice(0, 0);
    let y = CellId::advice(1, 0);
    let expressions = vec![UcpExpr::add(UcpExpr::var(x.clone()), UcpExpr::var(y.clone()))];

    let chosen = choose_query_cell(
        &expressions,
        &UcpFacts::from_iter([x.clone()]),
        &UcpValueFacts::new(),
        &modulus(),
        &[x],
        &[y],
    );

    assert_eq!(chosen, None);
}

#[test]
fn smaller_cell_wins_a_complete_tie() {
    let a = CellId::advice(0, 5);
    let b = CellId::advice(3, 1);
    let expressions = vec![UcpExpr::var(b.clone()), UcpExpr::var(a.clone())];

    let chosen = choose_query_cell(
        &expressions,
        &UcpFacts::new(),
        &UcpValueFacts::new(),
        &modulus(),
        &[],
        &[],
    );

    assert_eq!(chosen, Some(a));
}
