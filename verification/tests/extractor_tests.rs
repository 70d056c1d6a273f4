use korrekt_ucp::base_conv::default_field_modulus;
use korrekt_ucp::cell::CellId;
use korrekt_ucp::domain::{UcpValueDomain, UcpValueFacts};
use korrekt_ucp::engine::{
    analyze_expressions, analyze_expressions_with_values, analyze_expressions_with_values_and_modulus,
};
use korrekt_ucp::expr::UcpExpr;
use korrekt_ucp::extractor::{
    assigned_advice_cell_id, dedup_cells_preserving_order, extract_lookup_value_facts,
    extract_ucp_expressions, extract_ucp_problem, extract_ucp_problem_with_targets,
    parse_field_modulus, region_has_advice_cell, row_has_enabled_selector,
    witness_cells_from_expressions, CellValue, CircuitData, ColumnKind, ColumnRef, LookupData,
    PermutationData, RegionData,
};
use korrekt_ucp::integer::Integer;
use korrekt_ucp::plonkish::{PlonkExpr, PlonkQuery};
use korrekt_ucp::value::initial_values_from_instance_cells;

fn num(v: i64) -> Integer {
    Integer::from_i64(v)
}

fn cur(column_index: usize) -> PlonkQuery {
    PlonkQuery { column_index, rotation: 0 }
}

fn sum(a: PlonkExpr, b: PlonkExpr) -> PlonkExpr {
    PlonkExpr::Sum(Box::new(a), Box::new(b))
}

fn product(a: PlonkExpr, b: PlonkExpr) -> PlonkExpr {
    PlonkExpr::Product(Box::new(a), Box::new(b))
}

fn minus_constant(a: PlonkExpr, c: i64) -> PlonkExpr {
    sum(a, PlonkExpr::Negated(Box::new(PlonkExpr::Constant(num(c)))))
}

fn column(kind: ColumnKind, index: usize) -> ColumnRef {
    ColumnRef { kind, index }
}

fn no_permutation() -> PermutationData {
    PermutationData { columns: vec![], mapping: vec![], sizes: vec![] }
}

fn one_row_region(enabled: Vec<Vec<usize>>, cells: Vec<(ColumnRef, usize)>) -> RegionData {
    RegionData { rows: Some((0, 0)), enabled_selectors: enabled, cells }
}

// One selected row: `selector * (advice + public - 5)`, the selector held as fixed column 0.
fn assignment_circuit() -> CircuitData {
    CircuitData {
        regions: vec![one_row_region(vec![vec![0]], vec![(column(ColumnKind::Advice, 0), 0)])],
        selector_count: 1,
        gates: vec![vec![product(
            PlonkExpr::Fixed(cur(0)),
            minus_constant(sum(PlonkExpr::Advice(cur(0)), PlonkExpr::Instance(cur(0))), 5),
        )]],
        lookups: vec![],
        fixed: vec![vec![CellValue::Assigned(num(1))]],
        permutation: no_permutation(),
    }
}

#[test]
fn extracts_problem_from_circuit_and_runs_ucp() {
    let circuit = assignment_circuit();
    let target = CellId::advice(0, 0);
    let problem = extract_ucp_problem_with_targets(&circuit, &[target], &default_field_modulus());

    assert!(!problem.expressions.is_empty());
    assert_eq!(problem.target_cells, vec![target]);
    assert_eq!(problem.output_cells, vec![target]);
    assert!(problem.witness_cells.contains(&target));
    assert_eq!(problem.field_modulus, default_field_modulus());
    assert!(problem.initial_facts.is_unique(&CellId::instance(0, 0)));
    assert!(!problem.initial_facts.is_unique(&target));

    let result = analyze_expressions(&problem.expressions, problem.initial_facts);
    let target_check = result.check_targets(&problem.target_cells);

    assert!(result.facts.is_unique(&target));
    assert!(result.all_targets_unique(&problem.target_cells));
    assert!(target_check.all_targets_unique());
    assert_eq!(target_check.checked_targets, 1);
    assert_eq!(target_check.unique_targets, 1);
    assert!(result.all_expressions_unique());
}

#[test]
fn regions_without_enabled_selectors_are_skipped() {
    let mut circuit = assignment_circuit();
    circuit.regions[0].enabled_selectors = vec![];

    assert!(extract_ucp_expressions(&circuit).is_empty());
    assert!(extract_ucp_problem(&circuit, &num(101)).target_cells.is_empty());
}

// An advice cell copied to an instance cell.
#[test]
fn extracts_copy_constraints_and_value_facts_can_learn_copied_advice() {
    let circuit = CircuitData {
        regions: vec![one_row_region(vec![], vec![(column(ColumnKind::Advice, 0), 0)])],
        selector_count: 0,
        gates: vec![],
        lookups: vec![],
        fixed: vec![],
        permutation: PermutationData {
            columns: vec![column(ColumnKind::Advice, 0), column(ColumnKind::Instance, 0)],
            mapping: vec![vec![(1, 0)], vec![(0, 0)]],
            sizes: vec![vec![2], vec![2]],
        },
    };
    let target = CellId::advice(0, 0);
    let problem = extract_ucp_problem_with_targets(&circuit, &[target], &num(101));

    assert_eq!(problem.output_cells, vec![target]);
    assert!(problem.witness_cells.contains(&target));
    assert_eq!(
        problem.expressions,
        vec![
            UcpExpr::add(UcpExpr::var(target), UcpExpr::neg(UcpExpr::var(CellId::instance(0, 0)))),
            UcpExpr::add(UcpExpr::var(CellId::instance(0, 0)), UcpExpr::neg(UcpExpr::var(target))),
        ]
    );

    let value_facts = initial_values_from_instance_cells(&[("I-0-0".to_string(), 2)]);
    let result = analyze_expressions_with_values(&problem.expressions, problem.initial_facts, value_facts);

    assert!(result.facts.is_unique(&target));
    assert_eq!(result.value_facts.known_value(&target), Some(&num(2)));
}

// Two gates under two selectors (fixed columns 0 and 1); only the second is enabled.
#[test]
fn extracts_compressed_selectors_using_actual_fixed_values() {
    let circuit = CircuitData {
        regions: vec![one_row_region(
            vec![vec![0]],
            vec![(column(ColumnKind::Advice, 0), 0), (column(ColumnKind::Advice, 1), 0)],
        )],
        selector_count: 2,
        gates: vec![
            vec![product(
                PlonkExpr::Fixed(cur(0)),
                minus_constant(sum(PlonkExpr::Advice(cur(0)), PlonkExpr::Instance(cur(0))), 5),
            )],
            vec![product(
                PlonkExpr::Fixed(cur(1)),
                minus_constant(sum(PlonkExpr::Advice(cur(1)), PlonkExpr::Instance(cur(0))), 7),
            )],
        ],
        lookups: vec![],
        fixed: vec![vec![CellValue::Assigned(num(0))], vec![CellValue::Assigned(num(1))]],
        permutation: no_permutation(),
    };
    let inactive_advice = CellId::advice(0, 0);
    let active_advice = CellId::advice(1, 0);
    let problem =
        extract_ucp_problem_with_targets(&circuit, &[inactive_advice, active_advice], &num(101));

    assert_eq!(problem.output_cells, vec![inactive_advice, active_advice]);
    assert!(problem.witness_cells.contains(&inactive_advice));
    assert!(problem.witness_cells.contains(&active_advice));

    let result = analyze_expressions_with_values_and_modulus(
        &problem.expressions,
        problem.initial_facts,
        UcpValueFacts::new(),
        &problem.field_modulus,
    );

    assert!(!result.facts.is_unique(&inactive_advice));
    assert!(result.facts.is_unique(&active_advice));
}

// `selector * advice` looked up in a table column holding 0..3 (fixed column 0), the complex
// selector held as fixed column 1.
fn lookup_circuit(input: PlonkExpr, table: Vec<CellValue>) -> CircuitData {
    CircuitData {
        regions: vec![one_row_region(vec![vec![0]], vec![(column(ColumnKind::Advice, 0), 0)])],
        selector_count: 1,
        gates: vec![],
        lookups: vec![LookupData {
            input_expressions: vec![product(PlonkExpr::Fixed(cur(1)), input)],
            table_expressions: vec![PlonkExpr::Fixed(cur(0))],
        }],
        fixed: vec![table, vec![CellValue::Assigned(num(1))]],
        permutation: no_permutation(),
    }
}

#[test]
fn extracts_lookup_table_domain_for_active_range_checked_advice() {
    let table = (0..4).map(|v| CellValue::Assigned(num(v))).collect();
    let circuit = lookup_circuit(PlonkExpr::Advice(cur(0)), table);
    let target = CellId::advice(0, 0);
    let problem = extract_ucp_problem_with_targets(&circuit, &[target], &num(101));
    let expected_domain =
        UcpValueDomain::finite_set((0..4).map(num).collect()).expect("non-empty range domain");

    assert_eq!(problem.initial_value_facts.domain(&target), Some(&expected_domain));

    let result = analyze_expressions_with_values_and_modulus(
        &problem.expressions,
        problem.initial_facts,
        problem.initial_value_facts,
        &problem.field_modulus,
    );

    assert!(result.value_facts.domain_is_subset_of_range(&target, &num(0), &num(3)));
    assert!(!result.facts.is_unique(&target));
}

#[test]
fn extracts_lookup_domain_from_scaled_input_expression() {
    let table = [0, 2, 4].into_iter().map(|v| CellValue::Assigned(num(v))).collect();
    let circuit = lookup_circuit(
        product(PlonkExpr::Constant(num(2)), PlonkExpr::Advice(cur(0))),
        table,
    );
    let target = CellId::advice(0, 0);
    let problem = extract_ucp_problem_with_targets(&circuit, &[target], &num(101));
    let expected_domain =
        UcpValueDomain::finite_set((0..3).map(num).collect()).expect("non-empty range domain");

    assert_eq!(problem.initial_value_facts.domain(&target), Some(&expected_domain));
}

#[test]
fn lookup_table_domain_does_not_learn_from_poisoned_table() {
    let mut table: Vec<CellValue> = (0..4).map(|v| CellValue::Assigned(num(v))).collect();
    table[0] = CellValue::Poison(0);
    let circuit = lookup_circuit(PlonkExpr::Advice(cur(0)), table);
    let target = CellId::advice(0, 0);
    let problem = extract_ucp_problem_with_targets(&circuit, &[target], &num(101));

    assert_eq!(problem.initial_value_facts.domain(&target), None);
}

#[test]
fn unassigned_table_cells_are_left_out_of_the_domain() {
    let table = vec![
        CellValue::Assigned(num(0)),
        CellValue::Unassigned,
        CellValue::Assigned(num(1)),
    ];
    let circuit = lookup_circuit(PlonkExpr::Advice(cur(0)), table);
    let values = extract_lookup_value_facts(&circuit, &num(101));
    let expected = UcpValueDomain::finite_set(vec![num(0), num(1)]).unwrap();

    assert_eq!(values.domain(&CellId::advice(0, 0)), Some(&expected));
}

#[test]
fn small_extractor_helpers() {
    let a = CellId::advice(0, 0);
    let b = CellId::advice(1, 0);
    assert_eq!(dedup_cells_preserving_order(&[b, a, b, a]), vec![b, a]);
    assert_eq!(
        assigned_advice_cell_id(&column(ColumnKind::Advice, 3), 4),
        Some(CellId::advice(3, 4))
    );
    assert_eq!(assigned_advice_cell_id(&column(ColumnKind::Fixed, 3), 4), None);
    assert_eq!(assigned_advice_cell_id(&column(ColumnKind::Advice, 3), 1 << 31), None);

    let region = one_row_region(vec![vec![3, 5]], vec![(column(ColumnKind::Instance, 0), 0)]);
    assert!(!region_has_advice_cell(&region));
    assert!(row_has_enabled_selector(&region, 5));
    assert!(!row_has_enabled_selector(&region, 4));

    let expressions = vec![
        UcpExpr::add(UcpExpr::var(b), UcpExpr::var(CellId::instance(0, 0))),
        UcpExpr::mul(UcpExpr::var(a), UcpExpr::var(b)),
    ];
    assert_eq!(witness_cells_from_expressions(&expressions), vec![a, b]);
}

#[test]
fn field_modulus_strings_parse_in_hex_or_decimal() {
    assert_eq!(parse_field_modulus("0x65"), Some(num(101)));
    assert_eq!(parse_field_modulus("101"), Some(num(101)));
    assert_eq!(parse_field_modulus("0xzz"), None);
    assert_eq!(
        parse_field_modulus(
            "0x30644e72e131a029b85045b68181585d2833e84879b9709143e1f593f0000001"
        ),
        Some(default_field_modulus())
    );
}

// A cycle through three cells: each of its steps gives one equation, in walk order.
#[test]
fn every_step_of_a_copy_cycle_gives_an_equation() {
    let circuit = CircuitData {
        regions: vec![],
        selector_count: 0,
        gates: vec![],
        lookups: vec![],
        fixed: vec![],
        permutation: PermutationData {
            columns: vec![column(ColumnKind::Advice, 0), column(ColumnKind::Advice, 1)],
            mapping: vec![vec![(1, 0), (0, 0)], vec![(0, 1)]],
            sizes: vec![vec![3, 3], vec![3]],
        },
    };
    let a = CellId::advice(0, 0);
    let b = CellId::advice(1, 0);
    let c = CellId::advice(0, 1);
    let edge = |l: CellId, r: CellId| UcpExpr::add(UcpExpr::var(l), UcpExpr::neg(UcpExpr::var(r)));

    assert_eq!(extract_ucp_expressions(&circuit), vec![edge(a, b), edge(b, c), edge(c, a)]);
}

// Two cycles of two cells: equations come column by column, row by row, along each cycle,
// and a step met again from another position of its cycle is not repeated.
#[test]
fn copy_equations_follow_the_walk_order_once_each() {
    let circuit = CircuitData {
        regions: vec![],
        selector_count: 0,
        gates: vec![],
        lookups: vec![],
        fixed: vec![],
        permutation: PermutationData {
            columns: vec![column(ColumnKind::Advice, 0), column(ColumnKind::Advice, 1)],
            mapping: vec![vec![(1, 0), (1, 1)], vec![(0, 0), (0, 1)]],
            sizes: vec![vec![2, 2], vec![2, 2]],
        },
    };
    let a0 = CellId::advice(0, 0);
    let a1 = CellId::advice(0, 1);
    let b0 = CellId::advice(1, 0);
    let b1 = CellId::advice(1, 1);
    let edge = |l: CellId, r: CellId| UcpExpr::add(UcpExpr::var(l), UcpExpr::neg(UcpExpr::var(r)));

    assert_eq!(
        extract_ucp_expressions(&circuit),
        vec![edge(a0, b0), edge(b0, a0), edge(a1, b1), edge(b1, a1)]
    );
}
