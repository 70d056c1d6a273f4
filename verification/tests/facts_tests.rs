use korrekt_ucp::cell::CellId;
use korrekt_ucp::expr::UcpExpr;
use korrekt_ucp::facts::{initial_facts, initial_facts_from_expressions, UcpFacts};

#[test]
fn initial_facts_include_instance_and_fixed_cells() {
    let instance = CellId::instance(0, 0);
    let fixed = CellId::fixed(1, 2);

    let facts = initial_facts([instance.clone()], [fixed.clone()]);

    assert!(facts.is_unique(&instance));
    assert!(facts.is_unique(&fixed));
    assert_eq!(facts.unique_cells().len(), 2);
}

#[test]
fn initial_facts_ignore_advice_cells() {
    let advice = CellId::advice(0, 0);
    let fixed = CellId::fixed(0, 0);

    let facts = initial_facts([advice.clone()], [fixed.clone()]);

    assert!(!facts.is_unique(&advice));
    assert!(facts.is_unique(&fixed));
    assert_eq!(facts.unique_cells().len(), 1);
}

#[test]
fn initial_facts_from_expressions_collect_instance_and_fixed_only() {
    let instance = CellId::instance(0, 0);
    let fixed = CellId::fixed(1, 0);
    let advice = CellId::advice(2, 0);
    let expressions = vec![UcpExpr::add(
        UcpExpr::var(instance.clone()),
        UcpExpr::mul(UcpExpr::var(fixed.clone()), UcpExpr::var(advice.clone())),
    )];

    let facts = initial_facts_from_expressions(&expressions);

    assert!(facts.is_unique(&instance));
    assert!(facts.is_unique(&fixed));
    assert!(!facts.is_unique(&advice));
    assert_eq!(facts.unique_cells().len(), 2);
}

#[test]
fn mark_unique_reports_new_cells_only() {
    let cell = CellId::advice(3, 1);
    let mut facts = UcpFacts::new();

    assert!(facts.mark_unique(cell));
    assert!(!facts.mark_unique(cell));
    assert!(facts.is_unique(&cell));
    assert_eq!(facts.unique_cells().len(), 1);
}

#[test]
fn mark_initial_unique_refuses_advice_cells() {
    let mut facts = UcpFacts::new();

    assert!(!facts.mark_initial_unique(CellId::advice(0, 0)));
    assert!(facts.mark_initial_unique(CellId::instance(0, 0)));
    assert!(!facts.mark_initial_unique(CellId::instance(0, 0)));
    assert!(facts.mark_initial_unique(CellId::fixed(2, 5)));
    assert_eq!(facts.unique_cells().len(), 2);
    assert!(!facts.is_unique(&CellId::advice(0, 0)));
}

#[test]
fn cloned_facts_hold_the_same_cells() {
    let facts = UcpFacts::from_iter([CellId::advice(0, 0), CellId::fixed(1, 1)]);
    let copy = facts.clone();

    assert!(copy.is_unique(&CellId::advice(0, 0)));
    assert!(copy.is_unique(&CellId::fixed(1, 1)));
    assert_eq!(copy.unique_cells().len(), 2);
}

#[test]
fn marks_in_sequence_give_the_marked_cells_counted_once() {
    let a = CellId::advice(0, 0);
    let b = CellId::fixed(1, 2);
    let mut facts = UcpFacts::new();

    let flags = vec![
        facts.mark_unique(a),
        facts.mark_unique(b),
        facts.mark_unique(a),
        facts.mark_unique(b),
    ];

    assert_eq!(flags, vec![true, true, false, false]);
    let cells = facts.unique_cells();
    assert_eq!(cells.len(), flags.iter().filter(|f| **f).count());
    assert!(cells.contains(&a));
    assert!(cells.contains(&b));
    assert!(!facts.is_unique(&CellId::advice(0, 1)));
}
