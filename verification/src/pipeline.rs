//! The decisions of the UCP + SMT pipeline. UCP runs to a fixpoint; when every target is
//! unique the answer is known without SMT; otherwise one cell is chosen and its uniqueness is
//! asked of an SMT solver, whose answer either settles the question or adds what was learnt
//! and starts a new round. The solver is outside the library: the caller runs the loop,
//! hands each query to it and each answer back here.
use crate::cell::CellId;
use crate::choose_var::{
    candidate_cells_model, choice_justified, choose_query_cell, contains_cell, insert_cell, lemma_candidate_is_new,
    CandidateScore, ExpressionInfo,
};
use crate::domain::UcpValueFacts;
use crate::engine::{
    analyze_expressions_with_values_and_modulus, exact_cells, fixpoint_of, lemma_missing_targets_len,
    missing_targets, UcpResult, UcpTargetCheck,
};
use crate::expr::{exprs_cells, exprs_model, ExprModel, UcpExpr};
use crate::facts::{lemma_push_to_set, UcpFacts};
use crate::integer::Integer;
use vstd::prelude::*;

verus! {

/// The overall outcome of the pipeline.
#[derive(Clone, Copy, Debug, PartialEq, Eq, Structural)]
pub enum UcpAnalyzerPipelineStatus {
    /// UCP alone showed every target unique.
    VerifiedByUcp,
    /// SMT was needed, and in the end every target is unique.
    VerifiedBySmt,
    /// SMT showed that a target is not unique.
    RefutedBySmt,
    /// Neither UCP nor the queries decided.
    Unknown,
}

/// The verdict in the form the SMT analyzer reports it.
#[derive(Clone, Copy, Debug, PartialEq, Eq, Structural)]
pub enum AnalyzerOutputStatus {
    /// Some output is not uniquely determined.
    Underconstrained,
    /// The constraints admit no witness.
    Overconstrained,
    /// Every output is uniquely determined.
    NotUnderconstrainedLocal,
    /// No verdict.
    Invalid,
}

/// The analyzer-compatible part of the pipeline's output.
#[derive(Clone, Copy, Debug, PartialEq, Eq, Structural)]
pub struct AnalyzerOutput {
    pub output_status: AnalyzerOutputStatus,
}

/// What the SMT solver answers about the uniqueness of one cell.
#[derive(Clone, Copy, Debug, PartialEq, Eq, Structural)]
pub enum SemanticQueryResult {
    /// The cell is uniquely determined.
    ProvenUnique,
    /// Two witnesses differ on the cell.
    NotUnique,
    /// The constraints admit no witness.
    Overconstrained,
    /// The solver did not decide.
    Unknown,
}

/// The output of the pipeline.
#[derive(Debug)]
pub struct UcpAnalyzerPipelineOutput {
    /// The overall outcome.
    pub status: UcpAnalyzerPipelineStatus,
    /// The last UCP fixpoint.
    pub ucp_result: UcpResult,
    /// The targets checked against it.
    pub target_check: UcpTargetCheck,
    /// The verdict in the analyzer's form.
    pub analyzer_output: AnalyzerOutput,
    /// Whether any SMT query ran.
    pub used_smt: bool,
    /// How many single-cell queries ran.
    pub semantic_queries: usize,
    /// The cells that SMT showed unique and that were added to `K`, in order.
    pub smt_learned_cells: Vec<CellId>,
}

/// What the pipeline carries from one round to the next.
#[derive(Debug)]
pub struct UcpPipelineState {
    /// `K` at the start of the round.
    pub facts: UcpFacts,
    /// `Delta` at the start of the round.
    pub value_facts: UcpValueFacts,
    /// Cells already asked about that are not in `K`.
    pub queried_cells: Vec<CellId>,
    /// The cells that SMT showed unique, in order.
    pub smt_learned_cells: Vec<CellId>,
    /// How many queries ran.
    pub semantic_queries: usize,
}

/// A round's outcome: a final output, or a cell to ask the solver about.
#[derive(Debug)]
pub enum PipelineStep {
    /// The pipeline is done.
    Finished(UcpAnalyzerPipelineOutput),
    /// Ask the solver whether `cell` is unique; the answer goes to `pipeline_answer` with the
    /// rest of this step.
    Query(PendingQuery),
}

/// A query waiting for the solver's answer, with what the round found and what the pipeline
/// carries on.
#[derive(Debug)]
pub struct PendingQuery {
    /// The cell asked about.
    pub cell: CellId,
    /// The round's UCP fixpoint.
    pub ucp_result: UcpResult,
    /// The targets checked against it.
    pub target_check: UcpTargetCheck,
    /// Cells already asked about that are not in `K`.
    pub queried_cells: Vec<CellId>,
    /// The cells that SMT showed unique, in order.
    pub smt_learned_cells: Vec<CellId>,
    /// How many queries ran before this one.
    pub semantic_queries: usize,
}

/// What follows an answer: a final output, or the state of the next round.
#[derive(Debug)]
pub enum PipelineNext {
    /// The pipeline is done.
    Finished(UcpAnalyzerPipelineOutput),
    /// Run another round from this state.
    Continue(UcpPipelineState),
}

/// Whether every target is in `K`.
pub open spec fn all_in(ts: Seq<CellId>, k: Set<CellId>) -> bool {
    forall|i: int| 0 <= i < ts.len() ==> k.contains(#[trigger] ts[i])
}

/// The state that starts the pipeline: `K` and `Delta` as given, nothing asked yet.
pub fn initial_pipeline_state(initial_facts: UcpFacts, initial_value_facts: UcpValueFacts) -> (r: UcpPipelineState)
    ensures
        r.facts@ == initial_facts@,
        r.value_facts == initial_value_facts,
        r.queried_cells@ == Seq::<CellId>::empty(),
        r.smt_learned_cells@ == Seq::<CellId>::empty(),
        r.semantic_queries == 0,
{
    UcpPipelineState {
        facts: initial_facts,
        value_facts: initial_value_facts,
        queried_cells: Vec::new(),
        smt_learned_cells: Vec::new(),
        semantic_queries: 0,
    }
}

/// One round: UCP runs from the state's `K` and `Delta`. If every target is then unique the
/// pipeline is verified (by UCP alone when no query ran yet); else, if no cell is left to
/// ask about, the outcome is unknown; else the best candidate is to be asked about.
pub fn pipeline_round(
    expressions: &[UcpExpr],
    field_modulus: &Integer,
    target_cells: &[CellId],
    state: UcpPipelineState,
) -> (r: PipelineStep)
    requires
        state.value_facts.wf(),
    ensures
        match r {
            PipelineStep::Finished(out) => {
                &&& out.ucp_result.value_facts.wf()
                &&& fixpoint_of(
                    exprs_model(expressions@),
                    state.facts@,
                    state.value_facts@,
                    Some(field_modulus@),
                    out.ucp_result.facts@,
                    out.ucp_result.value_facts@,
                )
                &&& out.target_check.checked_targets == target_cells@.len()
                &&& out.target_check.unresolved_targets@ == missing_targets(target_cells@, out.ucp_result.facts@)
                &&& out.used_smt == (state.semantic_queries > 0)
                &&& out.semantic_queries == state.semantic_queries
                &&& out.smt_learned_cells == state.smt_learned_cells
                &&& if all_in(target_cells@, out.ucp_result.facts@) {
                    &&& out.status == (if state.semantic_queries > 0 {
                        UcpAnalyzerPipelineStatus::VerifiedBySmt
                    } else {
                        UcpAnalyzerPipelineStatus::VerifiedByUcp
                    })
                    &&& out.analyzer_output.output_status == AnalyzerOutputStatus::NotUnderconstrainedLocal
                } else {
                    &&& candidate_cells_model(
                        exprs_model(expressions@),
                        out.ucp_result.facts@,
                        target_cells@,
                        state.queried_cells@,
                    ) == Set::<CellId>::empty()
                    &&& out.status == UcpAnalyzerPipelineStatus::Unknown
                    &&& out.analyzer_output.output_status == AnalyzerOutputStatus::Invalid
                }
            },
            PipelineStep::Query(q) => {
                let cell = q.cell;
                let ucp_result = q.ucp_result;
                let target_check = q.target_check;
                &&& ucp_result.value_facts.wf()
                &&& fixpoint_of(
                    exprs_model(expressions@),
                    state.facts@,
                    state.value_facts@,
                    Some(field_modulus@),
                    ucp_result.facts@,
                    ucp_result.value_facts@,
                )
                &&& target_check.checked_targets == target_cells@.len()
                &&& target_check.unresolved_targets@ == missing_targets(target_cells@, ucp_result.facts@)
                &&& !all_in(target_cells@, ucp_result.facts@)
                &&& candidate_cells_model(
                    exprs_model(expressions@),
                    ucp_result.facts@,
                    target_cells@,
                    state.queried_cells@,
                ).contains(cell)
                &&& exists|
                    infos: Seq<ExpressionInfo>,
                    d: Map<CellId, usize>,
                    cands: Seq<CellId>,
                    scores: Seq<CandidateScore>,
                    best: int,
                |
                    #[trigger] choice_justified(
                        cell,
                        infos,
                        d,
                        cands,
                        scores,
                        best,
                        exprs_model(expressions@),
                        ucp_result.facts@,
                        ucp_result.value_facts@,
                        field_modulus@,
                        target_cells@,
                        state.queried_cells@,
                    )
                &&& q.queried_cells == state.queried_cells
                &&& q.smt_learned_cells == state.smt_learned_cells
                &&& q.semantic_queries == state.semantic_queries
            },
        },
{
    let UcpPipelineState { facts, value_facts, queried_cells, smt_learned_cells, semantic_queries } = state;
    let ucp_result = analyze_expressions_with_values_and_modulus(expressions, facts, value_facts, field_modulus);
    let target_check = ucp_result.check_targets(target_cells);
    proof {
        lemma_missing_targets_len(target_cells@, ucp_result.facts@);
    }
    if target_check.all_targets_unique() {
        proof {
            assert(all_in(target_cells@, ucp_result.facts@));
        }
        let used_smt = semantic_queries > 0;
        let status = if used_smt {
            UcpAnalyzerPipelineStatus::VerifiedBySmt
        } else {
            UcpAnalyzerPipelineStatus::VerifiedByUcp
        };
        return PipelineStep::Finished(
            UcpAnalyzerPipelineOutput {
                status,
                ucp_result,
                target_check,
                analyzer_output: AnalyzerOutput { output_status: AnalyzerOutputStatus::NotUnderconstrainedLocal },
                used_smt,
                semantic_queries,
                smt_learned_cells,
            },
        );
    }
    let chosen = choose_query_cell(
        expressions,
        &ucp_result.facts,
        &ucp_result.value_facts,
        field_modulus,
        target_cells,
        queried_cells.as_slice(),
    );
    proof {
        assert(!all_in(target_cells@, ucp_result.facts@));
    }
    match chosen {
        None => PipelineStep::Finished(
            UcpAnalyzerPipelineOutput {
                status: UcpAnalyzerPipelineStatus::Unknown,
                ucp_result,
                target_check,
                analyzer_output: AnalyzerOutput { output_status: AnalyzerOutputStatus::Invalid },
                used_smt: semantic_queries > 0,
                semantic_queries,
                smt_learned_cells,
            },
        ),
        Some(cell) => {
            proof {
                assert(candidate_cells_model(
                    exprs_model(expressions@),
                    ucp_result.facts@,
                    target_cells@,
                    queried_cells@,
                ).contains(cell)) by {
                    let (infos, d, cands, scores, best) = choose|
                        infos: Seq<ExpressionInfo>,
                        d: Map<CellId, usize>,
                        cands: Seq<CellId>,
                        scores: Seq<CandidateScore>,
                        best: int,
                    |
                        #[trigger] choice_justified(
                            cell,
                            infos,
                            d,
                            cands,
                            scores,
                            best,
                            exprs_model(expressions@),
                            ucp_result.facts@,
                            ucp_result.value_facts@,
                            field_modulus@,
                            target_cells@,
                            queried_cells@,
                        );
                    assert(cands.to_set().contains(cands[best]));
                }
            }
            PipelineStep::Query(
                PendingQuery { cell, ucp_result, target_check, queried_cells, smt_learned_cells, semantic_queries },
            )
        },
    }
}

/// Takes the solver's answer about the pending cell; the query is counted. A cell shown
/// unique joins `K` (and the learnt cells when it is new); a target shown not unique refutes
/// the targets; an overconstrained answer ends with no verdict; any other answer marks the
/// cell as asked about. Where the pipeline goes on, the next round starts from the pending
/// round's `K` and `Delta`.
pub fn pipeline_answer(target_cells: &[CellId], pending: PendingQuery, answer: SemanticQueryResult) -> (r: PipelineNext)
    requires
        pending.semantic_queries < usize::MAX,
        pending.queried_cells@.no_duplicates(),
    ensures
        match r {
            PipelineNext::Finished(out) => {
                &&& (answer == SemanticQueryResult::Overconstrained || (answer == SemanticQueryResult::NotUnique
                    && target_cells@.contains(pending.cell)))
                &&& out.status == (if answer == SemanticQueryResult::NotUnique {
                    UcpAnalyzerPipelineStatus::RefutedBySmt
                } else {
                    UcpAnalyzerPipelineStatus::Unknown
                })
                &&& out.analyzer_output.output_status == (if answer == SemanticQueryResult::NotUnique {
                    AnalyzerOutputStatus::Underconstrained
                } else {
                    AnalyzerOutputStatus::Overconstrained
                })
                &&& out.ucp_result == pending.ucp_result
                &&& out.target_check == pending.target_check
                &&& out.used_smt
                &&& out.semantic_queries == pending.semantic_queries + 1
                &&& out.smt_learned_cells == pending.smt_learned_cells
            },
            PipelineNext::Continue(next) => {
                &&& !(answer == SemanticQueryResult::Overconstrained || (answer == SemanticQueryResult::NotUnique
                    && target_cells@.contains(pending.cell)))
                &&& next.value_facts == pending.ucp_result.value_facts
                &&& next.semantic_queries == pending.semantic_queries + 1
                &&& next.queried_cells@.no_duplicates()
                &&& if answer == SemanticQueryResult::ProvenUnique {
                    &&& next.facts@ == pending.ucp_result.facts@.insert(pending.cell)
                    &&& if pending.ucp_result.facts@.contains(pending.cell) {
                        &&& next.smt_learned_cells == pending.smt_learned_cells
                        &&& next.queried_cells@.to_set() == pending.queried_cells@.to_set().insert(pending.cell)
                    } else {
                        &&& next.smt_learned_cells@ == pending.smt_learned_cells@.push(pending.cell)
                        &&& next.queried_cells == pending.queried_cells
                    }
                } else {
                    &&& next.facts@ == pending.ucp_result.facts@
                    &&& next.smt_learned_cells == pending.smt_learned_cells
                    &&& next.queried_cells@.to_set() == pending.queried_cells@.to_set().insert(pending.cell)
                }
            },
        },
{
    let PendingQuery { cell, ucp_result, target_check, queried_cells, smt_learned_cells, semantic_queries } = pending;
    let semantic_queries = semantic_queries + 1;
    let mut queried_cells = queried_cells;
    let mut smt_learned_cells = smt_learned_cells;
    match answer {
        SemanticQueryResult::ProvenUnique => {
            let UcpResult { facts, value_facts, .. } = ucp_result;
            let mut facts = facts;
            if facts.mark_unique(cell) {
                smt_learned_cells.push(cell);
            } else {
                insert_cell(&mut queried_cells, cell);
            }
            PipelineNext::Continue(
                UcpPipelineState { facts, value_facts, queried_cells, smt_learned_cells, semantic_queries },
            )
        },
        SemanticQueryResult::NotUnique => {
            if contains_cell(target_cells, &cell) {
                return PipelineNext::Finished(
                    UcpAnalyzerPipelineOutput {
                        status: UcpAnalyzerPipelineStatus::RefutedBySmt,
                        ucp_result,
                        target_check,
                        analyzer_output: AnalyzerOutput { output_status: AnalyzerOutputStatus::Underconstrained },
                        used_smt: true,
                        semantic_queries,
                        smt_learned_cells,
                    },
                );
            }
            insert_cell(&mut queried_cells, cell);
            let UcpResult { facts, value_facts, .. } = ucp_result;
            PipelineNext::Continue(
                UcpPipelineState { facts, value_facts, queried_cells, smt_learned_cells, semantic_queries },
            )
        },
        SemanticQueryResult::Overconstrained => PipelineNext::Finished(
            UcpAnalyzerPipelineOutput {
                status: UcpAnalyzerPipelineStatus::Unknown,
                ucp_result,
                target_check,
                analyzer_output: AnalyzerOutput { output_status: AnalyzerOutputStatus::Overconstrained },
                used_smt: true,
                semantic_queries,
                smt_learned_cells,
            },
        ),
        SemanticQueryResult::Unknown => {
            insert_cell(&mut queried_cells, cell);
            let UcpResult { facts, value_facts, .. } = ucp_result;
            PipelineNext::Continue(
                UcpPipelineState { facts, value_facts, queried_cells, smt_learned_cells, semantic_queries },
            )
        },
    }
}

/// The cells the pipeline knows about: those in `K` and those asked about.
pub open spec fn settled_cells(k: Set<CellId>, queried: Seq<CellId>) -> Set<CellId> {
    k.union(queried.to_set())
}

/// A round that goes on settles one more cell: the cell asked about was neither in `K` nor
/// asked before, the next round starts knowing all that this one did plus that cell, and
/// every settled cell is one of the start, a cell with an exact initial value, a cell of the
/// equations or a target. Settled cells thus grow strictly within a finite set, so the
/// pipeline ends.
pub proof fn lemma_round_settles_a_cell(
    es: Seq<ExprModel>,
    targets: Seq<CellId>,
    k0: Set<CellId>,
    m0: Map<CellId, Set<int>>,
    p: int,
    q0: Seq<CellId>,
    k1: Set<CellId>,
    m1: Map<CellId, Set<int>>,
    c: CellId,
    k2: Set<CellId>,
    q2: Seq<CellId>,
)
    requires
        fixpoint_of(es, k0, m0, Some(p), k1, m1),
        candidate_cells_model(es, k1, targets, q0).contains(c),
        k2 == k1 || k2 == k1.insert(c),
        settled_cells(k2, q2) == settled_cells(k1, q0).insert(c),
    ensures
        !settled_cells(k0, q0).contains(c),
        settled_cells(k0, q0).subset_of(settled_cells(k2, q2)),
        settled_cells(k2, q2).contains(c),
        settled_cells(k2, q2).subset_of(
            settled_cells(k0, q0).union(exact_cells(m0)).union(exprs_cells(es)).union(targets.to_set()),
        ),
{
    lemma_candidate_is_new(es, k1, targets, q0, c);
    assert(!k0.contains(c));
    assert forall|x: CellId| settled_cells(k2, q2).contains(x) implies settled_cells(k0, q0).union(exact_cells(m0)).union(
        exprs_cells(es),
    ).union(targets.to_set()).contains(x) by {
        if x == c {
            if !targets.contains(c) {
                assert(exprs_cells(es).contains(c));
            }
        } else if k1.contains(x) {
            assert(k1.subset_of(k0.union(exact_cells(m0)).union(exprs_cells(es))));
        }
    }
}

/// Where the answer lets the pipeline go on, the next state settles exactly one more cell
/// than the pending round: the cell asked about.
pub proof fn lemma_answer_settles_cell(k1: Set<CellId>, q0: Seq<CellId>, c: CellId, k2: Set<CellId>, q2: Seq<CellId>, proven: bool)
    requires
        proven ==> k2 == k1.insert(c) && (q2 == q0 || q2.to_set() == q0.to_set().insert(c)),
        !proven ==> k2 == k1 && q2.to_set() == q0.to_set().insert(c),
    ensures
        settled_cells(k2, q2) == settled_cells(k1, q0).insert(c),
        k2 == k1 || k2 == k1.insert(c),
{
    assert(settled_cells(k2, q2) =~= settled_cells(k1, q0).insert(c));
}

} // verus!
