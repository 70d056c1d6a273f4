use korrekt_ucp::cell::CellId;
use korrekt_ucp::domain::UcpValueFacts;
use korrekt_ucp::expr::UcpExpr;
use korrekt_ucp::facts::{initial_facts_from_expressions, UcpFacts};
use korrekt_ucp::integer::Integer;
use korrekt_ucp::pipeline::{
    initial_pipeline_state, pipeline_answer, pipeline_round, AnalyzerOutputStatus, PipelineNext,
    PipelineStep, SemanticQueryResult, UcpAnalyzerPipelineOutput, UcpAnalyzerPipelineStatus,
    UcpPipelineState,
};
use korrekt_ucp::value::initial_values_from_instance_cells;

fn num(v: i64) -> Integer {
    Integer::from_i64(v)
}

fn run(
    expressions: &[UcpExpr],
    targets: &[CellId],
    facts: UcpFacts,
    values: UcpValueFacts,
    mut oracle: impl FnMut(&CellId) -> SemanticQueryResult,
    asked: &mut Vec<CellId>,
) -> UcpAnalyzerPipelineOutput {
    let modulus = num(101);
    let mut state: UcpPipelineState = initial_pipeline_state(facts, values);
    loop {
        match pipeline_round(expressions, &modulus, targets, state) {
            PipelineStep::Finished(output) => return output,
            PipelineStep::Query(pending) => {
                asked.push(pending.cell);
                let answer = oracle(&pending.cell);
                match pipeline_answer(targets, pending, answer) {
                    PipelineNext::Finished(output) => return output,
                    PipelineNext::Continue(next) => state = next,
                }
            }
        }
    }
}

#[test]
fn pipeline_verifies_targets_with_ucp_alone() {
    let advice = CellId::advice(0, 0);
    let public = CellId::instance(0, 0);
    let expressions = vec![UcpExpr::add(
        UcpExpr::add(UcpExpr::var(advice), UcpExpr::var(public)),
        UcpExpr::known_constant_i64(-5),
    )];
    let facts = initial_facts_from_expressions(&expressions);
    let values = initial_values_from_instance_cells(&[("I-0-0".to_string(), 2)]);
    let mut asked = Vec::new();

    let output = run(&expressions, &[advice], facts, values, |_| SemanticQueryResult::Unknown, &mut asked);

    assert_eq!(output.status, UcpAnalyzerPipelineStatus::VerifiedByUcp);
    assert!(!output.used_smt);
    assert_eq!(output.semantic_queries, 0);
    assert!(asked.is_empty());
    assert!(output.target_check.all_targets_unique());
    assert_eq!(
        output.analyzer_output.output_status,
        AnalyzerOutputStatus::NotUnderconstrainedLocal
    );
    assert_eq!(output.ucp_result.value_facts.known_value(&advice), Some(&num(3)));
}

fn repeated_root(x: &CellId) -> UcpExpr {
    UcpExpr::add(
        UcpExpr::add(
            UcpExpr::mul(UcpExpr::var(x.clone()), UcpExpr::var(x.clone())),
            UcpExpr::neg(UcpExpr::mul(UcpExpr::known_constant_i64(2), UcpExpr::var(x.clone()))),
        ),
        UcpExpr::known_constant_i64(1),
    )
}

#[test]
fn pipeline_learns_target_from_smt_and_updates_k() {
    let x = CellId::advice(0, 0);
    let expressions = vec![repeated_root(&x)];
    let mut asked = Vec::new();

    let output = run(
        &expressions,
        &[x],
        UcpFacts::new(),
        UcpValueFacts::new(),
        |_| SemanticQueryResult::ProvenUnique,
        &mut asked,
    );

    assert_eq!(output.status, UcpAnalyzerPipelineStatus::VerifiedBySmt);
    assert!(output.used_smt);
    assert_eq!(output.semantic_queries, 1);
    assert_eq!(output.smt_learned_cells, vec![x]);
    assert_eq!(asked, vec![x]);
    assert!(output.target_check.all_targets_unique());
    assert_eq!(
        output.analyzer_output.output_status,
        AnalyzerOutputStatus::NotUnderconstrainedLocal
    );
}

#[test]
fn pipeline_refutes_target_shown_not_unique() {
    let x = CellId::advice(0, 0);
    let y = CellId::advice(1, 0);
    let public = CellId::instance(0, 0);
    let expressions = vec![UcpExpr::add(
        UcpExpr::add(UcpExpr::var(x), UcpExpr::var(y)),
        UcpExpr::neg(UcpExpr::var(public)),
    )];
    let facts = initial_facts_from_expressions(&expressions);
    let mut asked = Vec::new();

    let output = run(
        &expressions,
        &[x],
        facts,
        UcpValueFacts::new(),
        |_| SemanticQueryResult::NotUnique,
        &mut asked,
    );

    assert_eq!(output.status, UcpAnalyzerPipelineStatus::RefutedBySmt);
    assert_eq!(asked, vec![x]);
    assert!(output.used_smt);
    assert_eq!(output.semantic_queries, 1);
    assert!(output.smt_learned_cells.is_empty());
    assert_eq!(
        output.analyzer_output.output_status,
        AnalyzerOutputStatus::Underconstrained
    );
}

#[test]
fn pipeline_gives_up_when_solver_never_decides() {
    let x = CellId::advice(0, 0);
    let y = CellId::advice(1, 0);
    let public = CellId::instance(0, 0);
    let expressions = vec![UcpExpr::add(
        UcpExpr::add(UcpExpr::var(x), UcpExpr::var(y)),
        UcpExpr::neg(UcpExpr::var(public)),
    )];
    let facts = initial_facts_from_expressions(&expressions);
    let mut asked = Vec::new();

    let output = run(
        &expressions,
        &[x],
        facts,
        UcpValueFacts::new(),
        |_| SemanticQueryResult::Unknown,
        &mut asked,
    );

    assert_eq!(output.status, UcpAnalyzerPipelineStatus::Unknown);
    assert_eq!(output.analyzer_output.output_status, AnalyzerOutputStatus::Invalid);
    assert_eq!(asked.len(), 2);
    assert!(asked.contains(&x) && asked.contains(&y));
    assert_eq!(output.semantic_queries, 2);
    assert!(output.used_smt);
}

#[test]
fn pipeline_stops_on_overconstrained_answer() {
    let x = CellId::advice(0, 0);
    let expressions = vec![repeated_root(&x)];
    let mut asked = Vec::new();

    let output = run(
        &expressions,
        &[x],
        UcpFacts::new(),
        UcpValueFacts::new(),
        |_| SemanticQueryResult::Overconstrained,
        &mut asked,
    );

    assert_eq!(output.status, UcpAnalyzerPipelineStatus::Unknown);
    assert_eq!(
        output.analyzer_output.output_status,
        AnalyzerOutputStatus::Overconstrained
    );
    assert_eq!(output.semantic_queries, 1);
}

#[test]
fn pipeline_asks_only_cells_outside_k() {
    let x = CellId::advice(0, 0);
    let y = CellId::advice(1, 0);
    let public = CellId::instance(0, 0);
    let expressions = vec![
        UcpExpr::mul(UcpExpr::var(x), UcpExpr::var(y)),
        UcpExpr::add(UcpExpr::var(y), UcpExpr::neg(UcpExpr::var(public))),
    ];
    let facts = initial_facts_from_expressions(&expressions);
    let mut asked = Vec::new();

    let output = run(
        &expressions,
        &[x],
        facts,
        UcpValueFacts::new(),
        |cell| {
            if *cell == CellId::advice(0, 0) {
                SemanticQueryResult::ProvenUnique
            } else {
                SemanticQueryResult::NotUnique
            }
        },
        &mut asked,
    );

    assert_eq!(output.status, UcpAnalyzerPipelineStatus::VerifiedBySmt);
    assert_eq!(output.smt_learned_cells, vec![x]);
    assert_eq!(asked, vec![x]);
}
