//! What the values found by the All-But-One-0 and BigInt-Mul rules mean for the assignments
//! that satisfy the equations.
use crate::all_but_one::{candidate_value, int_sum, lemma_sum_of_single, signed_cells, signed_sum_model};
use crate::bigint_mul::{const_value_model, unknown_part_model};
use crate::cell::CellId;
use crate::domain::known_value_model;
use crate::expr::{evaluates, result_of, Evaluation, ExprModel, ScalarModel};
use crate::linear::{coef, lin_add, lin_const, lin_scale, lin_term, term_list, LinearModel};
use crate::rules::{agree_on, lemma_unique_sound, same_scalars, unique_model};
use crate::value_sound::{
    env_within, lemma_lin_value_ops, lemma_list_value, lemma_singleton_member, lemma_sum_remove, lemma_term_list_sorted,
    lin_ok, lin_value, list_value, sum_over,
};
use vstd::prelude::*;

verus! {

/// The values that an assignment gives a list of cells.
pub open spec fn values_of(cells: Seq<CellId>, env: Map<CellId, int>) -> Seq<int> {
    cells.map_values(|c: CellId| env[c])
}

/// The value of a list of terms is that of all but its last term plus the last.
proof fn lemma_list_value_last(ts: Seq<(CellId, int)>, env: Map<CellId, int>)
    requires
        ts.len() > 0,
    ensures
        list_value(ts, env) == list_value(ts.drop_last(), env) + ts.last().1 * env[ts.last().0],
    decreases ts.len(),
{
    if ts.len() > 1 {
        let rest = ts.drop_first();
        lemma_list_value_last(rest, env);
        assert(rest.drop_last() =~= ts.drop_last().drop_first());
        assert(ts.drop_last()[0] == ts[0]);
        assert(rest.last() == ts.last());
        assert(list_value(ts.drop_last(), env) == ts.drop_last()[0].1 * env[ts.drop_last()[0].0] + list_value(
            ts.drop_last().drop_first(),
            env,
        ));
    } else {
        assert(ts.drop_last().len() == 0);
        assert(ts.drop_first().len() == 0);
        assert(list_value(ts.drop_first(), env) == 0);
        assert(list_value(ts.drop_last(), env) == 0);
        assert(ts.last() == ts[0]);
    }
}

/// A list of terms with coefficients `1` and `-1` has the sum of its positive cells' values
/// less that of its negative ones.
proof fn lemma_signed_split(ts: Seq<(CellId, int)>, env: Map<CellId, int>)
    requires
        forall|i: int| 0 <= i < ts.len() ==> #[trigger] ts[i].1 == 1 || ts[i].1 == -1,
    ensures
        list_value(ts, env) == int_sum(values_of(signed_cells(ts, 1), env)) - int_sum(values_of(signed_cells(ts, -1), env)),
    decreases ts.len(),
{
    if ts.len() > 0 {
        let prev = ts.drop_last();
        assert forall|i: int| 0 <= i < prev.len() implies #[trigger] prev[i].1 == 1 || prev[i].1 == -1 by {
            assert(prev[i] == ts[i]);
        }
        lemma_signed_split(prev, env);
        lemma_list_value_last(ts, env);
        let last = ts.last();
        assert(ts[ts.len() - 1] == last);
        let pp = signed_cells(prev, 1);
        let pn = signed_cells(prev, -1);
        assert(values_of(pp.push(last.0), env) =~= values_of(pp, env).push(env[last.0]));
        assert(values_of(pn.push(last.0), env) =~= values_of(pn, env).push(env[last.0]));
        assert(values_of(pp.push(last.0), env).drop_last() == values_of(pp, env));
        assert(values_of(pn.push(last.0), env).drop_last() == values_of(pn, env));
        if last.1 == 1 {
            assert(1 * env[last.0] == env[last.0]);
        } else {
            assert(-1 * env[last.0] == -env[last.0]);
        }
    }
}

/// One value sums to itself.
proof fn lemma_sum_single(a: int)
    ensures
        int_sum(seq![a]) == a,
{
    assert(seq![a].drop_last() =~= Seq::<int>::empty());
    assert(int_sum(Seq::<int>::empty()) == 0);
    assert(seq![a].last() == a);
}

/// The All-But-One-0 rule reads `sum(y_i)` right: where a sum equation, a linear form whose
/// terms all have coefficient `1` or `-1`, gives the outputs `y_i` the total `e`, every
/// assignment within `Delta` that satisfies the equation gives the outputs values that add up
/// to `e`.
pub proof fn lemma_sum_total_forced(
    l: LinearModel,
    k: Set<CellId>,
    m: Map<CellId, Set<int>>,
    env: Map<CellId, int>,
    ys: Seq<CellId>,
    total: int,
)
    requires
        lin_ok(l),
        forall|c: CellId| #[trigger] l.terms.dom().contains(c) ==> l.terms[c] == 1 || l.terms[c] == -1,
        signed_sum_model(signed_cells(term_list(l), 1), signed_cells(term_list(l), -1), l.constant, k, m) == Some(
            (ys, Some(total)),
        ),
        env_within(env, m),
        lin_value(l, env) == 0,
    ensures
        int_sum(values_of(ys, env)) == total,
{
    let ts = term_list(l);
    lemma_term_list_sorted(l);
    lemma_list_value(ts, l.terms, env);
    assert forall|i: int| 0 <= i < ts.len() implies #[trigger] ts[i].1 == 1 || ts[i].1 == -1 by {
        assert(l.terms.dom().contains(ts[i].0));
        assert(l.terms[ts[i].0] == ts[i].1);
    }
    lemma_signed_split(ts, env);
    let pos = signed_cells(ts, 1);
    let neg = signed_cells(ts, -1);
    let sp = int_sum(values_of(pos, env));
    let sn = int_sum(values_of(neg, env));
    assert(l.constant + sp - sn == 0);
    if pos.len() >= 2 && neg.len() == 1 {
        let v = known_value_model(m, neg[0])->0;
        lemma_singleton_member(m[neg[0]], env[neg[0]]);
        assert(values_of(neg, env) =~= seq![env[neg[0]]]);
        lemma_sum_single(env[neg[0]]);
    } else if neg.len() >= 2 && pos.len() == 1 {
        let v = known_value_model(m, pos[0])->0;
        lemma_singleton_member(m[pos[0]], env[pos[0]]);
        assert(values_of(pos, env) =~= seq![env[pos[0]]]);
        lemma_sum_single(env[pos[0]]);
    } else if pos.len() >= 2 && neg.len() == 0 {
        assert(values_of(neg, env) =~= Seq::<int>::empty());
    } else {
        assert(values_of(pos, env) =~= Seq::<int>::empty());
    }
}

/// An expression whose value the constants fix takes that value in every evaluation.
proof fn lemma_const_value_evaluation(e: ExprModel, env: Map<CellId, int>, t: Evaluation)
    requires
        const_value_model(e) is Some,
        evaluates(e, env, t),
    ensures
        result_of(t) == const_value_model(e)->0,
    decreases e,
{
    reveal_with_fuel(evaluates, 2);
    match e {
        ExprModel::Neg(inner) => match t {
            Evaluation::Unary(_, a) => lemma_const_value_evaluation(*inner, env, *a),
            _ => {},
        },
        ExprModel::Add(l, r) => match t {
            Evaluation::Binary(_, a, b) => {
                lemma_const_value_evaluation(*l, env, *a);
                lemma_const_value_evaluation(*r, env, *b);
            },
            _ => {},
        },
        ExprModel::Mul(l, r) => match t {
            Evaluation::Binary(_, a, b) => {
                lemma_const_value_evaluation(*l, env, *a);
                lemma_const_value_evaluation(*r, env, *b);
            },
            _ => {},
        },
        ExprModel::Scale(inner, s) => match t {
            Evaluation::Scaled(_, a, kk) => {
                let x = result_of(*a);
                if s is Zero {
                    assert(x * 0 == 0) by (nonlinear_arith);
                } else {
                    lemma_const_value_evaluation(*inner, env, *a);
                }
            },
            _ => {},
        },
        _ => {},
    }
}

/// A form without cells is worth its constant.
proof fn lemma_const_form(v: int, env: Map<CellId, int>)
    ensures
        lin_ok(lin_const(v)),
        lin_value(lin_const(v), env) == v,
{
    let l = lin_const(v);
    assert(l.terms.dom() =~= Set::<CellId>::empty());
}

/// A single cell with coefficient one is worth the cell's value.
proof fn lemma_term_form(c: CellId, env: Map<CellId, int>)
    ensures
        lin_ok(lin_term(c, 1)),
        lin_value(lin_term(c, 1), env) == env[c],
{
    let l = lin_term(c, 1);
    let f = |d: CellId| coef(l.terms, d) * env[d];
    assert(l.terms.dom() =~= set![c]);
    lemma_sum_remove(l.terms.dom(), f, c);
    assert(l.terms.dom().remove(c) =~= Set::<CellId>::empty());
    assert(1 * env[c] == env[c]) by (nonlinear_arith);
}

/// The BigInt-Mul rule reads the unknown part right: the equation's value is that of its
/// unknown part plus a part fixed by `K` and the constants. For any two assignments that agree
/// on `K`, with the unknown scalars chosen alike, the equation's values differ by exactly as
/// much as the unknown part's values do.
pub proof fn lemma_unknown_part_sound(
    e: ExprModel,
    k: Set<CellId>,
    env1: Map<CellId, int>,
    env2: Map<CellId, int>,
    t1: Evaluation,
    t2: Evaluation,
)
    requires
        unknown_part_model(e, k) is Some,
        agree_on(env1, env2, k),
        evaluates(e, env1, t1),
        evaluates(e, env2, t2),
        same_scalars(e, t1, t2),
    ensures
        lin_ok(unknown_part_model(e, k)->0),
        result_of(t1) - result_of(t2) == lin_value(unknown_part_model(e, k)->0, env1) - lin_value(
            unknown_part_model(e, k)->0,
            env2,
        ),
    decreases e,
{
    reveal_with_fuel(evaluates, 2);
    reveal_with_fuel(same_scalars, 2);
    let a = unknown_part_model(e, k)->0;
    if unique_model(e, k) {
        lemma_unique_sound(e, k, env1, env2, t1, t2);
        lemma_const_form(0, env1);
        lemma_const_form(0, env2);
        return;
    }
    if const_value_model(e) is Some {
        lemma_const_value_evaluation(e, env1, t1);
        lemma_const_value_evaluation(e, env2, t2);
        lemma_const_form(0, env1);
        lemma_const_form(0, env2);
        return;
    }
    match e {
        ExprModel::Var(c) => {
            lemma_term_form(c, env1);
            lemma_term_form(c, env2);
        },
        ExprModel::Const(_) => {},
        ExprModel::Neg(inner) => match t1 {
            Evaluation::Unary(_, a1) => match t2 {
                Evaluation::Unary(_, a2) => {
                    lemma_unknown_part_sound(*inner, k, env1, env2, *a1, *a2);
                    let ai = unknown_part_model(*inner, k)->0;
                    lemma_lin_value_ops(ai, ai, -1, env1);
                    lemma_lin_value_ops(ai, ai, -1, env2);
                },
                _ => {},
            },
            _ => {},
        },
        ExprModel::Add(l, r) => match t1 {
            Evaluation::Binary(_, a1, b1) => match t2 {
                Evaluation::Binary(_, a2, b2) => {
                    lemma_unknown_part_sound(*l, k, env1, env2, *a1, *a2);
                    lemma_unknown_part_sound(*r, k, env1, env2, *b1, *b2);
                    let al = unknown_part_model(*l, k)->0;
                    let ar = unknown_part_model(*r, k)->0;
                    lemma_lin_value_ops(al, ar, 0, env1);
                    lemma_lin_value_ops(al, ar, 0, env2);
                },
                _ => {},
            },
            _ => {},
        },
        ExprModel::Mul(l, r) => match t1 {
            Evaluation::Binary(_, a1, b1) => match t2 {
                Evaluation::Binary(_, a2, b2) => {
                    let x1 = result_of(*a1);
                    let x2 = result_of(*a2);
                    let y1 = result_of(*b1);
                    let y2 = result_of(*b2);
                    if const_value_model(*l) is Some {
                        let v = const_value_model(*l)->0;
                        lemma_const_value_evaluation(*l, env1, *a1);
                        lemma_const_value_evaluation(*l, env2, *a2);
                        lemma_unknown_part_sound(*r, k, env1, env2, *b1, *b2);
                        let br = unknown_part_model(*r, k)->0;
                        lemma_lin_value_ops(br, br, v, env1);
                        lemma_lin_value_ops(br, br, v, env2);
                        let w1 = lin_value(br, env1);
                        let w2 = lin_value(br, env2);
                        assert(v * y1 - v * y2 == w1 * v - w2 * v) by (nonlinear_arith)
                            requires
                                y1 - y2 == w1 - w2,
                        ;
                    } else {
                        let v = const_value_model(*r)->0;
                        lemma_const_value_evaluation(*r, env1, *b1);
                        lemma_const_value_evaluation(*r, env2, *b2);
                        lemma_unknown_part_sound(*l, k, env1, env2, *a1, *a2);
                        let al = unknown_part_model(*l, k)->0;
                        lemma_lin_value_ops(al, al, v, env1);
                        lemma_lin_value_ops(al, al, v, env2);
                        let w1 = lin_value(al, env1);
                        let w2 = lin_value(al, env2);
                        assert(x1 * v - x2 * v == w1 * v - w2 * v) by (nonlinear_arith)
                            requires
                                x1 - x2 == w1 - w2,
                        ;
                    }
                },
                _ => {},
            },
            _ => {},
        },
        ExprModel::Scale(inner, s) => match t1 {
            Evaluation::Scaled(_, a1, k1) => match t2 {
                Evaluation::Scaled(_, a2, k2) => {
                    let x1 = result_of(*a1);
                    let x2 = result_of(*a2);
                    match s {
                        ScalarModel::Zero => {
                            assert(x1 * 0 == 0 && x2 * 0 == 0) by (nonlinear_arith);
                            lemma_const_form(0, env1);
                            lemma_const_form(0, env2);
                        },
                        ScalarModel::Known(c) => {
                            lemma_unknown_part_sound(*inner, k, env1, env2, *a1, *a2);
                            let ai = unknown_part_model(*inner, k)->0;
                            lemma_lin_value_ops(ai, ai, c, env1);
                            lemma_lin_value_ops(ai, ai, c, env2);
                            let w1 = lin_value(ai, env1);
                            let w2 = lin_value(ai, env2);
                            assert(x1 * c - x2 * c == w1 * c - w2 * c) by (nonlinear_arith)
                                requires
                                    x1 - x2 == w1 - w2,
                            ;
                        },
                        _ => {},
                    }
                },
                _ => {},
            },
            _ => {},
        },
    }
}

/// The values the All-But-One-0 rule gives the outputs of a sum solve its equations: where `x`
/// is known and one of the distinct roots is its value, each output `y_j` gets a value with
/// `y_j * (x - r_j) = 0`, and the values add up to the sum's total `e`.
pub proof fn lemma_output_values_solve(m: Map<CellId, Set<int>>, x: CellId, roots: Seq<int>, total: int)
    requires
        known_value_model(m, x) is Some,
        forall|a: int, b: int| 0 <= a < b < roots.len() ==> #[trigger] roots[a] != #[trigger] roots[b],
        exists|j: int| 0 <= j < roots.len() && roots[j] == known_value_model(m, x)->0,
    ensures
        forall|j: int| 0 <= j < roots.len() ==> (#[trigger] candidate_value(m, x, roots[j], Some(total))) is Some
            && candidate_value(m, x, roots[j], Some(total))->0 * (known_value_model(m, x)->0 - roots[j]) == 0,
        int_sum(Seq::new(roots.len(), |j: int| candidate_value(m, x, roots[j], Some(total))->0)) == total,
{
    let xv = known_value_model(m, x)->0;
    let vs = Seq::new(roots.len(), |j: int| candidate_value(m, x, roots[j], Some(total))->0);
    let j0 = choose|j: int| 0 <= j < roots.len() && roots[j] == xv;
    assert forall|j: int| 0 <= j < roots.len() implies (#[trigger] candidate_value(m, x, roots[j], Some(total))) is Some
        && candidate_value(m, x, roots[j], Some(total))->0 * (xv - roots[j]) == 0 by {
        let v = candidate_value(m, x, roots[j], Some(total))->0;
        if roots[j] == xv {
            assert(v * 0 == 0) by (nonlinear_arith);
        } else {
            assert(0 * (xv - roots[j]) == 0) by (nonlinear_arith);
        }
    }
    assert forall|j: int| 0 <= j < vs.len() && j != j0 implies #[trigger] vs[j] == 0 by {
        if j < j0 {
            assert(roots[j] != roots[j0]);
        } else {
            assert(roots[j0] != roots[j]);
        }
    }
    lemma_sum_of_single(vs, j0);
}

} // verus!
