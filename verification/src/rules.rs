//! Expression-level uniqueness rules and the Assign rule.
use crate::cell::CellId;
use crate::expr::{evaluates, expr_cells, is_zero_const, is_zero_constant, result_of, Evaluation, ExprModel, ScalarModel, UcpExpr, UcpScalar};
use crate::facts::UcpFacts;
use vstd::prelude::*;

verus! {

/// Whether an expression is unique under `K`: variables by membership in `K`, constants
/// always, negation and non-zero scaling by the operand, zero scaling always, sums when both
/// operands are, products when a side is the zero constant or both operands are.
pub open spec fn unique_model(e: ExprModel, k: Set<CellId>) -> bool
    decreases e,
{
    match e {
        ExprModel::Var(c) => k.contains(c),
        ExprModel::Const(_) => true,
        ExprModel::Neg(inner) => unique_model(*inner, k),
        ExprModel::Scale(inner, s) => match s {
            ScalarModel::Zero => true,
            _ => unique_model(*inner, k),
        },
        ExprModel::Add(l, r) => unique_model(*l, k) && unique_model(*r, k),
        ExprModel::Mul(l, r) => is_zero_const(*l) || is_zero_const(*r) || (unique_model(*l, k)
            && unique_model(*r, k)),
    }
}

/// Whether an expression is a statically non-zero constant.
pub open spec fn is_non_zero_const(e: ExprModel) -> bool {
    match e {
        ExprModel::Const(ScalarModel::NonZero) => true,
        ExprModel::Const(ScalarModel::Known(_)) => true,
        _ => false,
    }
}

/// The outcome of the Assign analysis: the single unknown cell (if any), and whether the
/// inference is safe.
pub struct AssignModel {
    pub candidate: Option<CellId>,
    pub valid: bool,
}

pub open spec fn assign_none() -> AssignModel {
    AssignModel { candidate: None, valid: true }
}

pub open spec fn assign_invalid() -> AssignModel {
    AssignModel { candidate: None, valid: false }
}

/// Combines the analyses of the two operands of a sum.
pub open spec fn merge_add_model(a: AssignModel, b: AssignModel) -> AssignModel {
    if !a.valid || !b.valid {
        assign_invalid()
    } else {
        match (a.candidate, b.candidate) {
            (None, None) => assign_none(),
            (Some(c), None) => AssignModel { candidate: Some(c), valid: true },
            (None, Some(c)) => AssignModel { candidate: Some(c), valid: true },
            (Some(_), Some(_)) => assign_invalid(),
        }
    }
}

/// The Assign analysis: looks for exactly one linear occurrence of a non-unique cell.
pub open spec fn assign_model(e: ExprModel, k: Set<CellId>) -> AssignModel
    decreases e,
{
    if unique_model(e, k) {
        assign_none()
    } else {
        match e {
            ExprModel::Var(c) => AssignModel { candidate: Some(c), valid: true },
            ExprModel::Const(_) => assign_none(),
            ExprModel::Neg(inner) => assign_model(*inner, k),
            ExprModel::Scale(inner, s) => match s {
                ScalarModel::Zero => assign_none(),
                ScalarModel::Unknown => assign_invalid(),
                _ => assign_model(*inner, k),
            },
            ExprModel::Add(l, r) => merge_add_model(assign_model(*l, k), assign_model(*r, k)),
            ExprModel::Mul(l, r) => if is_zero_const(*l) || is_zero_const(*r) {
                assign_none()
            } else if unique_model(*l, k) && unique_model(*r, k) {
                assign_none()
            } else if is_non_zero_const(*l) {
                assign_model(*r, k)
            } else if is_non_zero_const(*r) {
                assign_model(*l, k)
            } else {
                assign_invalid()
            },
        }
    }
}

/// The cell that the Assign rule proves unique from the zero equation, if any.
pub open spec fn assigned_cell_model(e: ExprModel, k: Set<CellId>) -> Option<CellId> {
    let a = assign_model(e, k);
    if a.valid {
        a.candidate
    } else {
        None
    }
}

/// Uniqueness of an expression only grows with `K`.
pub proof fn lemma_unique_monotone(e: ExprModel, k1: Set<CellId>, k2: Set<CellId>)
    requires
        k1.subset_of(k2),
        unique_model(e, k1),
    ensures
        unique_model(e, k2),
    decreases e,
{
    match e {
        ExprModel::Var(c) => {},
        ExprModel::Const(_) => {},
        ExprModel::Neg(inner) => lemma_unique_monotone(*inner, k1, k2),
        ExprModel::Scale(inner, s) => {
            if !(s is Zero) {
                lemma_unique_monotone(*inner, k1, k2);
            }
        },
        ExprModel::Add(l, r) => {
            lemma_unique_monotone(*l, k1, k2);
            lemma_unique_monotone(*r, k1, k2);
        },
        ExprModel::Mul(l, r) => {
            if !(is_zero_const(*l) || is_zero_const(*r)) {
                lemma_unique_monotone(*l, k1, k2);
                lemma_unique_monotone(*r, k1, k2);
            }
        },
    }
}

/// An expression all of whose cells are in `K` is unique.
pub proof fn lemma_known_cells_make_unique(e: ExprModel, k: Set<CellId>)
    requires
        expr_cells(e).subset_of(k),
    ensures
        unique_model(e, k),
    decreases e,
{
    match e {
        ExprModel::Var(c) => {
            assert(expr_cells(e).contains(c));
        },
        ExprModel::Const(_) => {},
        ExprModel::Neg(inner) => lemma_known_cells_make_unique(*inner, k),
        ExprModel::Scale(inner, s) => lemma_known_cells_make_unique(*inner, k),
        ExprModel::Add(l, r) => {
            lemma_known_cells_make_unique(*l, k);
            lemma_known_cells_make_unique(*r, k);
        },
        ExprModel::Mul(l, r) => {
            lemma_known_cells_make_unique(*l, k);
            lemma_known_cells_make_unique(*r, k);
        },
    }
}

/// The Assign analysis only names a cell of the expression that is not yet in `K`.
pub proof fn lemma_assign_candidate_is_new_cell(e: ExprModel, k: Set<CellId>)
    ensures
        assign_model(e, k).candidate matches Some(c) ==> expr_cells(e).contains(c) && !k.contains(c),
    decreases e,
{
    if !unique_model(e, k) {
        match e {
            ExprModel::Var(c) => {},
            ExprModel::Const(_) => {},
            ExprModel::Neg(inner) => lemma_assign_candidate_is_new_cell(*inner, k),
            ExprModel::Scale(inner, s) => lemma_assign_candidate_is_new_cell(*inner, k),
            ExprModel::Add(l, r) => {
                lemma_assign_candidate_is_new_cell(*l, k);
                lemma_assign_candidate_is_new_cell(*r, k);
            },
            ExprModel::Mul(l, r) => {
                lemma_assign_candidate_is_new_cell(*l, k);
                lemma_assign_candidate_is_new_cell(*r, k);
            },
        }
    }
}

/// A cell that the Assign rule infers occurs in the equation and is not yet in `K`.
pub proof fn lemma_assigned_cell_is_new(e: ExprModel, k: Set<CellId>)
    ensures
        assigned_cell_model(e, k) matches Some(c) ==> expr_cells(e).contains(c) && !k.contains(c),
{
    lemma_assign_candidate_is_new_cell(e, k);
}

/// A valid Assign analysis accounts for all that keeps the expression from being unique:
/// without a candidate it is unique under `K`, with candidate `c` unique under `K` with `c`.
proof fn lemma_assign_completes(e: ExprModel, k: Set<CellId>)
    requires
        assign_model(e, k).valid,
    ensures
        assign_model(e, k).candidate is None ==> unique_model(e, k),
        assign_model(e, k).candidate matches Some(c) ==> unique_model(e, k.insert(c)),
    decreases e,
{
    if !unique_model(e, k) {
        match e {
            ExprModel::Var(c) => {
                assert(k.insert(c).contains(c));
            },
            ExprModel::Const(_) => {},
            ExprModel::Neg(inner) => lemma_assign_completes(*inner, k),
            ExprModel::Scale(inner, s) => {
                if !(s is Zero) {
                    lemma_assign_completes(*inner, k);
                }
            },
            ExprModel::Add(l, r) => {
                lemma_assign_completes(*l, k);
                lemma_assign_completes(*r, k);
                if let Some(c) = assign_model(e, k).candidate {
                    if assign_model(*l, k).candidate is Some {
                        lemma_unique_monotone(*r, k, k.insert(c));
                    } else {
                        lemma_unique_monotone(*l, k, k.insert(c));
                    }
                }
            },
            ExprModel::Mul(l, r) => {
                if !(is_zero_const(*l) || is_zero_const(*r)) && !(unique_model(*l, k) && unique_model(*r, k)) {
                    if is_non_zero_const(*l) {
                        lemma_assign_completes(*r, k);
                        if let Some(c) = assign_model(e, k).candidate {
                            assert(unique_model(*l, k.insert(c)));
                        }
                    } else if is_non_zero_const(*r) {
                        lemma_assign_completes(*l, k);
                        if let Some(c) = assign_model(e, k).candidate {
                            assert(unique_model(*r, k.insert(c)));
                        }
                    }
                }
            },
        }
    }
}

/// What the Assign rule infers: a cell of the equation that is not in `K`, of an equation that
/// is not unique under `K` and becomes unique once the cell is added to `K`.
pub proof fn lemma_assigned_cell_completes(e: ExprModel, k: Set<CellId>)
    ensures
        assigned_cell_model(e, k) matches Some(c) ==> expr_cells(e).contains(c) && !k.contains(c) && !unique_model(e, k)
            && unique_model(e, k.insert(c)),
{
    lemma_assign_candidate_is_new_cell(e, k);
    if assign_model(e, k).valid {
        lemma_assign_completes(e, k);
    }
}

/// `x` occurs in `e` exactly once, linearly: through negations, sums whose other operand is
/// unique under `K`, scalings by a non-zero scalar (`NonZero` or a known non-zero value), and
/// products with a non-zero constant.
pub open spec fn linear_in(e: ExprModel, k: Set<CellId>, x: CellId) -> bool
    decreases e,
{
    match e {
        ExprModel::Var(c) => c == x,
        ExprModel::Const(_) => false,
        ExprModel::Neg(inner) => linear_in(*inner, k, x),
        ExprModel::Add(l, r) => (linear_in(*l, k, x) && unique_model(*r, k)) || (unique_model(*l, k) && linear_in(*r, k, x)),
        ExprModel::Scale(inner, s) => (s is NonZero || (s matches ScalarModel::Known(v) && v != 0)) && linear_in(*inner, k, x),
        ExprModel::Mul(l, r) => (is_non_zero_const(*l) && linear_in(*r, k, x)) || (is_non_zero_const(*r) && linear_in(*l, k, x)),
    }
}

/// An expression in which a cell outside `K` occurs linearly is not unique under `K`.
proof fn lemma_linear_not_unique(e: ExprModel, k: Set<CellId>, x: CellId)
    requires
        linear_in(e, k, x),
        !k.contains(x),
    ensures
        !unique_model(e, k),
    decreases e,
{
    match e {
        ExprModel::Neg(inner) => lemma_linear_not_unique(*inner, k, x),
        ExprModel::Add(l, r) => {
            if linear_in(*l, k, x) && unique_model(*r, k) {
                lemma_linear_not_unique(*l, k, x);
            } else {
                lemma_linear_not_unique(*r, k, x);
            }
        },
        ExprModel::Scale(inner, s) => lemma_linear_not_unique(*inner, k, x),
        ExprModel::Mul(l, r) => {
            if is_non_zero_const(*l) && linear_in(*r, k, x) {
                lemma_linear_not_unique(*r, k, x);
            } else {
                lemma_linear_not_unique(*l, k, x);
            }
        },
        _ => {},
    }
}

/// The Assign rule is complete for linear equations: where the only cell outside `K` that
/// keeps the equation from being unique occurs in it linearly, the rule infers that cell.
pub proof fn lemma_assign_complete(e: ExprModel, k: Set<CellId>, x: CellId)
    requires
        linear_in(e, k, x),
        !k.contains(x),
    ensures
        assigned_cell_model(e, k) == Some(x),
    decreases e,
{
    lemma_linear_not_unique(e, k, x);
    match e {
        ExprModel::Var(c) => {
            assert(assign_model(e, k) == AssignModel { candidate: Some(x), valid: true });
        },
        ExprModel::Neg(inner) => {
            lemma_assign_complete(*inner, k, x);
            assert(assign_model(e, k) == assign_model(*inner, k));
        },
        ExprModel::Add(l, r) => {
            if linear_in(*l, k, x) && unique_model(*r, k) {
                lemma_assign_complete(*l, k, x);
                assert(assign_model(*r, k) == assign_none());
            } else {
                lemma_assign_complete(*r, k, x);
                assert(assign_model(*l, k) == assign_none());
            }
            assert(assign_model(e, k) == merge_add_model(assign_model(*l, k), assign_model(*r, k)));
        },
        ExprModel::Scale(inner, s) => {
            lemma_assign_complete(*inner, k, x);
            assert(assign_model(e, k) == assign_model(*inner, k));
        },
        ExprModel::Mul(l, r) => {
            if is_non_zero_const(*l) && linear_in(*r, k, x) {
                lemma_assign_complete(*r, k, x);
                lemma_linear_not_unique(*r, k, x);
            } else {
                lemma_assign_complete(*l, k, x);
                lemma_linear_not_unique(*l, k, x);
            }
        },
        _ => {},
    }
}

/// The Assign rule infers nothing from a sum of two operands that are both not unique, nor
/// from an expression scaled by an unknown scalar that is not unique.
pub proof fn lemma_assign_refuses(e: ExprModel, k: Set<CellId>)
    ensures
        (e matches ExprModel::Add(l, r) && !unique_model(*l, k) && !unique_model(*r, k)) ==> assigned_cell_model(e, k) is None,
        (e matches ExprModel::Scale(inner, s) && s is Unknown && !unique_model(*inner, k)) ==> assigned_cell_model(e, k) is None,
{
    if let ExprModel::Add(l, r) = e {
        if !unique_model(*l, k) && !unique_model(*r, k) {
            if assign_model(*l, k).valid {
                lemma_assign_completes(*l, k);
            }
            if assign_model(*r, k).valid {
                lemma_assign_completes(*r, k);
            }
        }
    }
}

/// Merging the analyses of the operands of a sum does not depend on their order; it is valid
/// exactly when both are and at most one names a candidate, and then names that one.
pub proof fn lemma_merge_add_symmetric(a: AssignModel, b: AssignModel)
    requires
        !a.valid ==> a.candidate is None,
        !b.valid ==> b.candidate is None,
    ensures
        merge_add_model(a, b) == merge_add_model(b, a),
        merge_add_model(a, b).valid == (a.valid && b.valid && !(a.candidate is Some && b.candidate is Some)),
        merge_add_model(a, b).candidate == (if merge_add_model(a, b).valid {
            if a.candidate is Some {
                a.candidate
            } else {
                b.candidate
            }
        } else {
            None
        }),
{
}

/// Two assignments agree on `K`: each gives a value to a cell of `K` exactly when the other
/// does, and the same value.
pub open spec fn agree_on(env1: Map<CellId, int>, env2: Map<CellId, int>, k: Set<CellId>) -> bool {
    forall|c: CellId|
        #[trigger] k.contains(c) ==> env1.dom().contains(c) == env2.dom().contains(c) && (env1.dom().contains(c)
            ==> env1[c] == env2[c])
}

/// No scalar of the expression is a `Known` zero (`UcpScalar::known` never builds one).
pub open spec fn no_known_zero(e: ExprModel) -> bool
    decreases e,
{
    match e {
        ExprModel::Var(_) => true,
        ExprModel::Const(s) => s != ScalarModel::Known(0),
        ExprModel::Neg(inner) => no_known_zero(*inner),
        ExprModel::Scale(inner, s) => s != ScalarModel::Known(0) && no_known_zero(*inner),
        ExprModel::Add(l, r) => no_known_zero(*l) && no_known_zero(*r),
        ExprModel::Mul(l, r) => no_known_zero(*l) && no_known_zero(*r),
    }
}

/// Two evaluations of `e` make the same choice at every scalar occurrence: the constants and
/// the scaling factors of the circuit are the same in both.
pub open spec fn same_scalars(e: ExprModel, t1: Evaluation, t2: Evaluation) -> bool
    decreases e,
{
    match e {
        ExprModel::Var(_) => true,
        ExprModel::Const(_) => result_of(t1) == result_of(t2),
        ExprModel::Neg(inner) => match (t1, t2) {
            (Evaluation::Unary(_, a1), Evaluation::Unary(_, a2)) => same_scalars(*inner, *a1, *a2),
            _ => false,
        },
        ExprModel::Add(l, r) => match (t1, t2) {
            (Evaluation::Binary(_, a1, b1), Evaluation::Binary(_, a2, b2)) => same_scalars(*l, *a1, *a2) && same_scalars(
                *r,
                *b1,
                *b2,
            ),
            _ => false,
        },
        ExprModel::Mul(l, r) => match (t1, t2) {
            (Evaluation::Binary(_, a1, b1), Evaluation::Binary(_, a2, b2)) => same_scalars(*l, *a1, *a2) && same_scalars(
                *r,
                *b1,
                *b2,
            ),
            _ => false,
        },
        ExprModel::Scale(inner, _) => match (t1, t2) {
            (Evaluation::Scaled(_, a1, k1), Evaluation::Scaled(_, a2, k2)) => k1 == k2 && same_scalars(*inner, *a1, *a2),
            _ => false,
        },
    }
}

/// The uniqueness rules are sound: a unique expression results in the same value under any
/// two assignments that agree on `K`, for every choice of the unknown scalars made alike in
/// both.
pub proof fn lemma_unique_sound(
    e: ExprModel,
    k: Set<CellId>,
    env1: Map<CellId, int>,
    env2: Map<CellId, int>,
    t1: Evaluation,
    t2: Evaluation,
)
    requires
        unique_model(e, k),
        agree_on(env1, env2, k),
        evaluates(e, env1, t1),
        evaluates(e, env2, t2),
        same_scalars(e, t1, t2),
    ensures
        result_of(t1) == result_of(t2),
    decreases e,
{
    reveal_with_fuel(evaluates, 2);
    reveal_with_fuel(same_scalars, 2);
    match e {
        ExprModel::Var(c) => {
            assert(k.contains(c));
        },
        ExprModel::Const(_) => {},
        ExprModel::Neg(inner) => match t1 {
            Evaluation::Unary(_, a1) => match t2 {
                Evaluation::Unary(_, a2) => {
                    lemma_unique_sound(*inner, k, env1, env2, *a1, *a2);
                },
                _ => {},
            },
            _ => {},
        },
        ExprModel::Scale(inner, s) => match t1 {
            Evaluation::Scaled(_, a1, k1) => match t2 {
                Evaluation::Scaled(_, a2, k2) => {
                    let u1 = result_of(*a1);
                    let u2 = result_of(*a2);
                    if s is Zero {
                        assert(u1 * 0 == 0 && u2 * 0 == 0) by (nonlinear_arith);
                    } else {
                        lemma_unique_sound(*inner, k, env1, env2, *a1, *a2);
                    }
                },
                _ => {},
            },
            _ => {},
        },
        ExprModel::Add(l, r) => match t1 {
            Evaluation::Binary(_, a1, b1) => match t2 {
                Evaluation::Binary(_, a2, b2) => {
                    lemma_unique_sound(*l, k, env1, env2, *a1, *a2);
                    lemma_unique_sound(*r, k, env1, env2, *b1, *b2);
                },
                _ => {},
            },
            _ => {},
        },
        ExprModel::Mul(l, r) => match t1 {
            Evaluation::Binary(_, ta1, tb1) => match t2 {
                Evaluation::Binary(_, ta2, tb2) => {
                    let a1 = result_of(*ta1);
                    let a2 = result_of(*ta2);
                    let b1 = result_of(*tb1);
                    let b2 = result_of(*tb2);
                    if is_zero_const(*l) {
                        assert(0 * b1 == 0 && 0 * b2 == 0) by (nonlinear_arith);
                    } else if is_zero_const(*r) {
                        assert(a1 * 0 == 0 && a2 * 0 == 0) by (nonlinear_arith);
                    } else {
                        lemma_unique_sound(*l, k, env1, env2, *ta1, *ta2);
                        lemma_unique_sound(*r, k, env1, env2, *tb1, *tb2);
                    }
                },
                _ => {},
            },
            _ => {},
        },
    }
}

/// What the Assign analysis says of two evaluations under assignments that agree on `K`,
/// with the scalars chosen alike: without a candidate they result in the same value; with
/// candidate `x` the difference of the results is a non-zero multiple `a` of the difference
/// at `x`.
proof fn lemma_assign_linear(
    e: ExprModel,
    k: Set<CellId>,
    env1: Map<CellId, int>,
    env2: Map<CellId, int>,
    t1: Evaluation,
    t2: Evaluation,
) -> (a: int)
    requires
        assign_model(e, k).valid,
        no_known_zero(e),
        agree_on(env1, env2, k),
        evaluates(e, env1, t1),
        evaluates(e, env2, t2),
        same_scalars(e, t1, t2),
    ensures
        assign_model(e, k).candidate is None ==> result_of(t1) == result_of(t2),
        assign_model(e, k).candidate matches Some(x) ==> env1.dom().contains(x) && env2.dom().contains(x) && a != 0
            && result_of(t1) - result_of(t2) == a * (env1[x] - env2[x]),
    decreases e,
{
    reveal_with_fuel(evaluates, 2);
    reveal_with_fuel(same_scalars, 2);
    if unique_model(e, k) {
        lemma_unique_sound(e, k, env1, env2, t1, t2);
        return 0;
    }
    match e {
        ExprModel::Var(c) => {
            assert(1 * (env1[c] - env2[c]) == env1[c] - env2[c]) by (nonlinear_arith);
            1
        },
        ExprModel::Const(_) => 0,
        ExprModel::Neg(inner) => match t1 {
            Evaluation::Unary(_, a1) => match t2 {
                Evaluation::Unary(_, a2) => {
                    let a = lemma_assign_linear(*inner, k, env1, env2, *a1, *a2);
                    if let Some(x) = assign_model(e, k).candidate {
                        let d = env1[x] - env2[x];
                        assert(-(a * d) == (-a) * d) by (nonlinear_arith);
                    }
                    -a
                },
                _ => 0,
            },
            _ => 0,
        },
        ExprModel::Scale(inner, s) => match t1 {
            Evaluation::Scaled(_, ta1, k1) => match t2 {
                Evaluation::Scaled(_, ta2, k2) => {
                    let u1 = result_of(*ta1);
                    let u2 = result_of(*ta2);
                    match s {
                        ScalarModel::Zero => {
                            assert(u1 * 0 == 0 && u2 * 0 == 0) by (nonlinear_arith);
                            0
                        },
                        ScalarModel::Unknown => 0,
                        _ => {
                            let b = k1;
                            assert(b != 0);
                            let a = lemma_assign_linear(*inner, k, env1, env2, *ta1, *ta2);
                            if let Some(x) = assign_model(e, k).candidate {
                                let d = env1[x] - env2[x];
                                assert(u1 * b - u2 * b == (a * b) * d && a * b != 0) by (nonlinear_arith)
                                    requires
                                        u1 - u2 == a * d,
                                        a != 0,
                                        b != 0,
                                ;
                            } else {
                                assert(u1 == u2);
                            }
                            a * b
                        },
                    }
                },
                _ => 0,
            },
            _ => 0,
        },
        ExprModel::Add(l, r) => match t1 {
            Evaluation::Binary(_, a1, b1) => match t2 {
                Evaluation::Binary(_, a2, b2) => {
                    let al = lemma_assign_linear(*l, k, env1, env2, *a1, *a2);
                    let ar = lemma_assign_linear(*r, k, env1, env2, *b1, *b2);
                    if assign_model(*l, k).candidate is Some {
                        al
                    } else {
                        ar
                    }
                },
                _ => 0,
            },
            _ => 0,
        },
        ExprModel::Mul(l, r) => match t1 {
            Evaluation::Binary(_, ta1, tb1) => match t2 {
                Evaluation::Binary(_, ta2, tb2) => {
                    let a1 = result_of(*ta1);
                    let a2 = result_of(*ta2);
                    let b1 = result_of(*tb1);
                    let b2 = result_of(*tb2);
                    if is_zero_const(*l) {
                        assert(0 * b1 == 0 && 0 * b2 == 0) by (nonlinear_arith);
                        0
                    } else if is_zero_const(*r) {
                        assert(a1 * 0 == 0 && a2 * 0 == 0) by (nonlinear_arith);
                        0
                    } else if unique_model(*l, k) && unique_model(*r, k) {
                        lemma_unique_sound(*l, k, env1, env2, *ta1, *ta2);
                        lemma_unique_sound(*r, k, env1, env2, *tb1, *tb2);
                        0
                    } else if is_non_zero_const(*l) {
                        let c = a1;
                        assert(no_known_zero(*l));
                        assert(c != 0);
                        assert(a1 == a2);
                        let a = lemma_assign_linear(*r, k, env1, env2, *tb1, *tb2);
                        if let Some(x) = assign_model(e, k).candidate {
                            let d = env1[x] - env2[x];
                            assert(c * b1 - c * b2 == (c * a) * d && c * a != 0) by (nonlinear_arith)
                                requires
                                    b1 - b2 == a * d,
                                    a != 0,
                                    c != 0,
                            ;
                        } else {
                            assert(b1 == b2);
                        }
                        c * a
                    } else {
                        let c = b1;
                        assert(is_non_zero_const(*r));
                        assert(no_known_zero(*r));
                        assert(c != 0);
                        assert(b1 == b2);
                        let a = lemma_assign_linear(*l, k, env1, env2, *ta1, *ta2);
                        if let Some(x) = assign_model(e, k).candidate {
                            let d = env1[x] - env2[x];
                            assert(a1 * c - a2 * c == (a * c) * d && a * c != 0) by (nonlinear_arith)
                                requires
                                    a1 - a2 == a * d,
                                    a != 0,
                                    c != 0,
                            ;
                        } else {
                            assert(a1 == a2);
                        }
                        a * c
                    }
                },
                _ => 0,
            },
            _ => 0,
        },
    }
}

/// The Assign rule is sound: where it infers cell `x` from the zero equation `e = 0`, any two
/// assignments that agree on `K` and make `e` zero, with the unknown scalars chosen alike,
/// give `x` the same value.
pub proof fn lemma_assign_sound(
    e: ExprModel,
    k: Set<CellId>,
    env1: Map<CellId, int>,
    env2: Map<CellId, int>,
    t1: Evaluation,
    t2: Evaluation,
)
    requires
        assigned_cell_model(e, k) is Some,
        no_known_zero(e),
        agree_on(env1, env2, k),
        evaluates(e, env1, t1),
        evaluates(e, env2, t2),
        same_scalars(e, t1, t2),
        result_of(t1) == 0,
        result_of(t2) == 0,
    ensures
        ({
            let x = assigned_cell_model(e, k)->0;
            env1.dom().contains(x) && env2.dom().contains(x) && env1[x] == env2[x]
        }),
{
    let x = assigned_cell_model(e, k)->0;
    let a = lemma_assign_linear(e, k, env1, env2, t1, t2);
    let d = env1[x] - env2[x];
    assert(d == 0) by (nonlinear_arith)
        requires
            a * d == 0,
            a != 0,
    ;
}

/// The uniqueness rules: whether the expression is unique under `K`.
pub fn expression_is_unique(expr: &UcpExpr, facts: &UcpFacts) -> (r: bool)
    ensures
        r == unique_model(expr@, facts@),
    decreases expr,
{
    match expr {
        UcpExpr::Var(cell) => facts.is_unique(cell),
        UcpExpr::Const(_) => true,
        UcpExpr::Neg(inner) => expression_is_unique(inner, facts),
        UcpExpr::Scale(inner, scalar) => match scalar {
            UcpScalar::Zero => true,
            UcpScalar::NonZero | UcpScalar::Unknown | UcpScalar::Known(_) => expression_is_unique(
                inner,
                facts,
            ),
        },
        UcpExpr::Add(left, right) => expression_is_unique(left, facts) && expression_is_unique(
            right,
            facts,
        ),
        UcpExpr::Mul(left, right) => is_zero_constant(left) || is_zero_constant(right) || (
        expression_is_unique(left, facts) && expression_is_unique(right, facts)),
    }
}

/// The Assign rule: from a zero equation with exactly one unknown linear cell, that cell.
pub fn infer_assigned_cell_from_zero_equation(expr: &UcpExpr, facts: &UcpFacts) -> (r: Option<
    CellId,
>)
    ensures
        r == assigned_cell_model(expr@, facts@),
{
    let analysis = analyze_assign_candidate(expr, facts);
    if analysis.valid {
        analysis.candidate
    } else {
        None
    }
}

struct AssignAnalysis {
    candidate: Option<CellId>,
    valid: bool,
}

impl View for AssignAnalysis {
    type V = AssignModel;

    closed spec fn view(&self) -> AssignModel {
        AssignModel { candidate: self.candidate, valid: self.valid }
    }
}

impl AssignAnalysis {
    fn none() -> (r: Self)
        ensures
            r@ == assign_none(),
    {
        Self { candidate: None, valid: true }
    }

    fn candidate(cell: CellId) -> (r: Self)
        ensures
            r@ == (AssignModel { candidate: Some(cell), valid: true }),
    {
        Self { candidate: Some(cell), valid: true }
    }

    fn invalid() -> (r: Self)
        ensures
            r@ == assign_invalid(),
    {
        Self { candidate: None, valid: false }
    }

    fn merge_add(self, other: Self) -> (r: Self)
        ensures
            r@ == merge_add_model(self@, other@),
    {
        if !self.valid || !other.valid {
            return Self::invalid();
        }
        match (self.candidate, other.candidate) {
            (None, None) => Self::none(),
            (Some(cell), None) => Self::candidate(cell),
            (None, Some(cell)) => Self::candidate(cell),
            (Some(_), Some(_)) => Self::invalid(),
        }
    }
}

fn is_non_zero_constant(e: &UcpExpr) -> (r: bool)
    ensures
        r == is_non_zero_const(e@),
{
    match e {
        UcpExpr::Const(UcpScalar::NonZero) => true,
        UcpExpr::Const(UcpScalar::Known(_)) => true,
        _ => false,
    }
}

fn analyze_assign_candidate(expr: &UcpExpr, facts: &UcpFacts) -> (r: AssignAnalysis)
    ensures
        r@ == assign_model(expr@, facts@),
    decreases expr,
{
    if expression_is_unique(expr, facts) {
        return AssignAnalysis::none();
    }
    match expr {
        UcpExpr::Var(cell) => AssignAnalysis::candidate(*cell),
        UcpExpr::Const(_) => AssignAnalysis::none(),
        UcpExpr::Neg(inner) => analyze_assign_candidate(inner, facts),
        UcpExpr::Scale(inner, scalar) => match scalar {
            UcpScalar::Zero => AssignAnalysis::none(),
            UcpScalar::NonZero | UcpScalar::Known(_) => analyze_assign_candidate(inner, facts),
            UcpScalar::Unknown => AssignAnalysis::invalid(),
        },
        UcpExpr::Add(left, right) => {
            let l = analyze_assign_candidate(left, facts);
            let r = analyze_assign_candidate(right, facts);
            l.merge_add(r)
        },
        UcpExpr::Mul(left, right) => {
            if is_zero_constant(left) || is_zero_constant(right) {
                return AssignAnalysis::none();
            }
            if expression_is_unique(left, facts) && expression_is_unique(right, facts) {
                return AssignAnalysis::none();
            }
            if is_non_zero_constant(left) {
                return analyze_assign_candidate(right, facts);
            }
            if is_non_zero_constant(right) {
                return analyze_assign_candidate(left, facts);
            }
            AssignAnalysis::invalid()
        },
    }
}

} // verus!
