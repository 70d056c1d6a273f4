//! What the value analysis claims of concrete assignments: evaluation under `Delta`, the
//! zero/non-zero kind and the expression domain are true of every assignment that gives each
//! cell of `Delta` a value of its domain.
use crate::cell::{cell_lt, lemma_cell_order, CellId};
use crate::cell_map::entry_keys;
use crate::expr::{
    concrete_evaluation, concrete_value, evaluates, lemma_concrete_evaluation, result_of, scalar_value, Evaluation, ExprModel,
    ScalarModel,
};
use crate::field::{field_repr, normalize_model};
use crate::integer::{abs, in_i64_range, trunc_div, trunc_rem};
use crate::linear::{coef, lin_add, lin_scale, sorted_terms_of, term_list, LinearModel};
use crate::rules::no_known_zero;
use crate::value::{
    all_normalize, all_solve, eval_model, expr_domain_model, factor_root_model, lin_model, linear_assign_model,
    linear_domains_model, linear_domains_over, linear_root, membership_inference_model, norm_of, pair_set, product_factors,
    push_all, push_inference, rest_model, root_domain_model, scaled_set, set_domain_model, solve_domain_model,
    solve_value_model, value_inference_model, value_kind_model, zero_assign_model, MAX_FINITE_DOMAIN_SIZE,
};
use vstd::prelude::*;

verus! {

/// The assignment gives every cell of `Delta` a value of its domain, and the domains are
/// finite.
pub open spec fn env_within(env: Map<CellId, int>, m: Map<CellId, Set<int>>) -> bool {
    forall|c: CellId|
        #[trigger] m.dom().contains(c) ==> env.dom().contains(c) && m[c].finite() && m[c].contains(env[c])
}

/// The value as the analysis keeps it: itself without a modulus, its signed representative
/// modulo `q` with one.
pub open spec fn kept_value(v: int, p: Option<int>) -> int {
    match p {
        None => v,
        Some(q) => field_repr(v, q),
    }
}

/// The assignment's values of the cells of `Delta` are already kept values.
pub open spec fn env_kept(env: Map<CellId, int>, m: Map<CellId, Set<int>>, p: Option<int>) -> bool {
    match p {
        None => true,
        Some(q) => q > 1 && forall|c: CellId| #[trigger] m.dom().contains(c) ==> field_repr(env[c], q) == env[c],
    }
}

/// Two members of a one-element set are equal, and the set's chosen element is one of them.
pub proof fn lemma_singleton_member(s: Set<int>, x: int)
    requires
        s.finite(),
        s.len() == 1,
        s.contains(x),
    ensures
        s.choose() == x,
{
    assert(s.contains(s.choose()));
    if s.choose() != x {
        assert(s.remove(x).len() == 0);
        assert(s.remove(x).contains(s.choose()));
    }
}

/// Evaluation under `Delta` is sound: where it gives a value, every assignment within `Delta`
/// gives the expression that value.
pub proof fn lemma_eval_sound(e: ExprModel, m: Map<CellId, Set<int>>, env: Map<CellId, int>)
    requires
        env_within(env, m),
        eval_model(e, m) is Some,
        concrete_value(e, env) is Some,
    ensures
        eval_model(e, m) == concrete_value(e, env),
    decreases e,
{
    match e {
        ExprModel::Var(c) => {
            assert(m.dom().contains(c));
            lemma_singleton_member(m[c], env[c]);
        },
        ExprModel::Const(_) => {},
        ExprModel::Neg(inner) => lemma_eval_sound(*inner, m, env),
        ExprModel::Add(l, r) => {
            lemma_eval_sound(*l, m, env);
            lemma_eval_sound(*r, m, env);
        },
        ExprModel::Mul(l, r) => {
            lemma_eval_sound(*l, m, env);
            lemma_eval_sound(*r, m, env);
        },
        ExprModel::Scale(inner, s) => {
            let a = concrete_value(*inner, env)->0;
            match s {
                ScalarModel::Zero => {
                    assert(a * 0 == 0) by (nonlinear_arith);
                },
                ScalarModel::Known(_) => lemma_eval_sound(*inner, m, env),
                _ => {},
            }
        },
    }
}

/// A value of a set that a domain is made of gives its kept value to the domain.
proof fn lemma_set_domain_member(t: Set<int>, p: Option<int>, s: Set<int>, x: int)
    requires
        set_domain_model(t, p) == Some(s),
        t.contains(x),
    ensures
        s.contains(kept_value(x, p)),
{
    assert(normalize_model(x, p) is Some);
    assert(s == t.map(|y: int| norm_of(y, p)));
    assert(t.map(|y: int| norm_of(y, p)).contains(norm_of(x, p)));
}

/// The signed representative modulo `q` depends only on the value modulo `q`.
proof fn lemma_repr_mod(v: int, q: int)
    requires
        q > 1,
    ensures
        field_repr(v, q) % q == v % q,
{
    let n = v % q;
    vstd::arithmetic::div_mod::lemma_mod_bound(v, q);
    vstd::arithmetic::div_mod::lemma_small_mod(n as nat, q as nat);
    if n > q / 2 {
        vstd::arithmetic::div_mod::lemma_mod_sub_multiples_vanish(n, q);
    }
}

/// Values congruent modulo `q` have one signed representative.
proof fn lemma_repr_congruent(a: int, b: int, q: int)
    requires
        q > 1,
        a % q == b % q,
    ensures
        field_repr(a, q) == field_repr(b, q),
{
}

/// Kept values add, multiply and scale as the values do.
proof fn lemma_kept_ops(a: int, b: int, p: Option<int>)
    requires
        p matches Some(q) ==> q > 1,
    ensures
        kept_value(kept_value(a, p) + kept_value(b, p), p) == kept_value(a + b, p),
        kept_value(kept_value(a, p) * kept_value(b, p), p) == kept_value(a * b, p),
        kept_value(kept_value(a, p) * b, p) == kept_value(a * b, p),
{
    if let Some(q) = p {
        let ra = field_repr(a, q);
        let rb = field_repr(b, q);
        lemma_repr_mod(a, q);
        lemma_repr_mod(b, q);
        vstd::arithmetic::div_mod::lemma_add_mod_noop(ra, rb, q);
        vstd::arithmetic::div_mod::lemma_add_mod_noop(a, b, q);
        lemma_repr_congruent(ra + rb, a + b, q);
        vstd::arithmetic::div_mod::lemma_mul_mod_noop(ra, rb, q);
        vstd::arithmetic::div_mod::lemma_mul_mod_noop(a, b, q);
        lemma_repr_congruent(ra * rb, a * b, q);
        vstd::arithmetic::div_mod::lemma_mul_mod_noop_left(ra, b, q);
        vstd::arithmetic::div_mod::lemma_mul_mod_noop_left(a, b, q);
        lemma_repr_congruent(ra * b, a * b, q);
    }
}

/// Evaluation under `Delta` is sound for every choice of the unknown scalars: where it gives a
/// value, every evaluation of the expression under an assignment within `Delta` results in
/// that value.
pub proof fn lemma_eval_takes(e: ExprModel, m: Map<CellId, Set<int>>, env: Map<CellId, int>, t: Evaluation)
    requires
        env_within(env, m),
        eval_model(e, m) is Some,
        evaluates(e, env, t),
    ensures
        eval_model(e, m) == Some(result_of(t)),
    decreases e,
{
    match e {
        ExprModel::Var(c) => {
            assert(m.dom().contains(c));
            lemma_singleton_member(m[c], env[c]);
        },
        ExprModel::Const(_) => {},
        ExprModel::Neg(inner) => match t {
            Evaluation::Unary(_, a) => lemma_eval_takes(*inner, m, env, *a),
            _ => {},
        },
        ExprModel::Add(l, r) => match t {
            Evaluation::Binary(_, a, b) => {
                lemma_eval_takes(*l, m, env, *a);
                lemma_eval_takes(*r, m, env, *b);
            },
            _ => {},
        },
        ExprModel::Mul(l, r) => match t {
            Evaluation::Binary(_, a, b) => {
                lemma_eval_takes(*l, m, env, *a);
                lemma_eval_takes(*r, m, env, *b);
            },
            _ => {},
        },
        ExprModel::Scale(inner, s) => match t {
            Evaluation::Scaled(_, a, k) => {
                let x = result_of(*a);
                match s {
                    ScalarModel::Zero => {
                        assert(x * 0 == 0) by (nonlinear_arith);
                    },
                    ScalarModel::Known(_) => lemma_eval_takes(*inner, m, env, *a),
                    _ => {
                        lemma_eval_takes(*inner, m, env, *a);
                        assert(0 * k == 0) by (nonlinear_arith);
                    },
                }
            },
            _ => {},
        },
    }
}

/// The zero/non-zero kind is sound for every choice of the unknown scalars: under every
/// assignment within `Delta`, every evaluation of an expression of kind `Zero` results in
/// zero, and none of one of kind `NonZero` does.
pub proof fn lemma_value_kind_sound(e: ExprModel, m: Map<CellId, Set<int>>, env: Map<CellId, int>, t: Evaluation)
    requires
        env_within(env, m),
        evaluates(e, env, t),
    ensures
        value_kind_model(e, m) is Zero ==> result_of(t) == 0,
        value_kind_model(e, m) is NonZero ==> result_of(t) != 0,
    decreases e,
{
    if eval_model(e, m) is Some {
        lemma_eval_takes(e, m, env, t);
    } else {
        match e {
            ExprModel::Var(c) => {
                if m.dom().contains(c) {
                    if m[c] == set![0int] {
                        assert(set![0int].contains(env[c]));
                    }
                }
            },
            ExprModel::Mul(l, r) => match t {
                Evaluation::Binary(_, ta, tb) => {
                    lemma_value_kind_sound(*l, m, env, *ta);
                    lemma_value_kind_sound(*r, m, env, *tb);
                    let a = result_of(*ta);
                    let b = result_of(*tb);
                    assert(a == 0 ==> a * b == 0) by (nonlinear_arith);
                    assert(b == 0 ==> a * b == 0) by (nonlinear_arith);
                    assert(a != 0 && b != 0 ==> a * b != 0) by (nonlinear_arith);
                },
                _ => {},
            },
            ExprModel::Scale(inner, s) => match t {
                Evaluation::Scaled(_, ta, k) => {
                    let a = result_of(*ta);
                    assert(a * 0 == 0) by (nonlinear_arith);
                },
                _ => {},
            },
            _ => {},
        }
    }
}

/// The zero/non-zero kind is sound: an expression of kind `Zero` is zero, and one of kind
/// `NonZero` is not, under every assignment within `Delta`.
pub proof fn lemma_kind_sound(e: ExprModel, m: Map<CellId, Set<int>>, env: Map<CellId, int>)
    requires
        env_within(env, m),
        concrete_value(e, env) is Some,
    ensures
        value_kind_model(e, m) is Zero ==> concrete_value(e, env)->0 == 0,
        value_kind_model(e, m) is NonZero ==> concrete_value(e, env)->0 != 0,
{
    lemma_concrete_evaluation(e, env);
    lemma_value_kind_sound(e, m, env, concrete_evaluation(e, env));
}

/// The expression domain is sound for every choice of the unknown scalars: every evaluation of
/// the expression under an assignment within `Delta` results in a value whose kept value lies
/// in the domain (modulo `q` where a modulus is given).
pub proof fn lemma_expression_domain_sound(
    e: ExprModel,
    m: Map<CellId, Set<int>>,
    p: Option<int>,
    env: Map<CellId, int>,
    t: Evaluation,
)
    requires
        env_within(env, m),
        env_kept(env, m, p),
        evaluates(e, env, t),
        expr_domain_model(e, m, p) is Some,
    ensures
        expr_domain_model(e, m, p)->0.contains(kept_value(result_of(t), p)),
    decreases e,
{
    let s = expr_domain_model(e, m, p)->0;
    let w = result_of(t);
    match e {
        ExprModel::Var(c) => {
            assert(m.dom().contains(c));
        },
        ExprModel::Const(sv) => {
            lemma_set_domain_member(set![w], p, s, w);
        },
        ExprModel::Neg(inner) => match t {
            Evaluation::Unary(_, ta) => {
                let a = result_of(*ta);
                lemma_expression_domain_sound(*inner, m, p, env, *ta);
                let d = expr_domain_model(*inner, m, p)->0;
                let ka = kept_value(a, p);
                assert(scaled_set(d, -1).contains(ka * -1));
                lemma_set_domain_member(scaled_set(d, -1), p, s, ka * -1);
                lemma_kept_ops(a, -1, p);
                assert(ka * -1 == kept_value(a, p) * -1);
                assert(a * -1 == w);
            },
            _ => {},
        },
        ExprModel::Add(l, r) => match t {
            Evaluation::Binary(_, ta, tb) => {
                let a = result_of(*ta);
                let b = result_of(*tb);
                lemma_expression_domain_sound(*l, m, p, env, *ta);
                lemma_expression_domain_sound(*r, m, p, env, *tb);
                let dl = expr_domain_model(*l, m, p)->0;
                let dr = expr_domain_model(*r, m, p)->0;
                let ka = kept_value(a, p);
                let kb = kept_value(b, p);
                assert(pair_set(dl, dr, false).contains(ka + kb));
                lemma_set_domain_member(pair_set(dl, dr, false), p, s, ka + kb);
                lemma_kept_ops(a, b, p);
            },
            _ => {},
        },
        ExprModel::Mul(l, r) => match t {
            Evaluation::Binary(_, ta, tb) => {
                let a = result_of(*ta);
                let b = result_of(*tb);
                if value_kind_model(*l, m) is Zero || value_kind_model(*r, m) is Zero {
                    lemma_value_kind_sound(*l, m, env, *ta);
                    lemma_value_kind_sound(*r, m, env, *tb);
                    assert(a == 0 ==> a * b == 0) by (nonlinear_arith);
                    assert(b == 0 ==> a * b == 0) by (nonlinear_arith);
                    assert(w == 0);
                    if let Some(q) = p {
                        vstd::arithmetic::div_mod::lemma_small_mod(0, q as nat);
                    }
                    assert(s == set![0int]);
                } else {
                    lemma_expression_domain_sound(*l, m, p, env, *ta);
                    lemma_expression_domain_sound(*r, m, p, env, *tb);
                    let dl = expr_domain_model(*l, m, p)->0;
                    let dr = expr_domain_model(*r, m, p)->0;
                    let ka = kept_value(a, p);
                    let kb = kept_value(b, p);
                    assert(pair_set(dl, dr, true).contains(ka * kb));
                    lemma_set_domain_member(pair_set(dl, dr, true), p, s, ka * kb);
                    lemma_kept_ops(a, b, p);
                }
            },
            _ => {},
        },
        ExprModel::Scale(inner, sv) => match t {
            Evaluation::Scaled(_, ta, k) => {
                let a = result_of(*ta);
                match sv {
                    ScalarModel::Zero => {
                        assert(a * 0 == 0) by (nonlinear_arith);
                        if let Some(q) = p {
                            vstd::arithmetic::div_mod::lemma_small_mod(0, q as nat);
                        }
                        assert(s == set![0int]);
                    },
                    ScalarModel::Known(kv) => {
                        lemma_expression_domain_sound(*inner, m, p, env, *ta);
                        let d = expr_domain_model(*inner, m, p)->0;
                        let ka = kept_value(a, p);
                        assert(scaled_set(d, kv).contains(ka * kv));
                        lemma_set_domain_member(scaled_set(d, kv), p, s, ka * kv);
                        lemma_kept_ops(a, kv, p);
                    },
                    _ => {
                        lemma_value_kind_sound(*inner, m, env, *ta);
                        assert(0 * k == 0) by (nonlinear_arith);
                        if let Some(q) = p {
                            vstd::arithmetic::div_mod::lemma_small_mod(0, q as nat);
                        }
                        assert(s == set![0int]);
                    },
                }
            },
            _ => {},
        },
    }
}

/// A value kept under a modulus `q` lies in `(q/2 - q, q/2]`; without one it is the value.
pub open spec fn in_kept_range(v: int, p: Option<int>) -> bool {
    in_i64_range(v) && (p matches Some(q) ==> q / 2 - q < v <= q / 2)
}

/// A domain built from a set of raw values is finite, has between one and
/// `MAX_FINITE_DOMAIN_SIZE` values, and holds only kept values.
proof fn lemma_set_domain_shape(t: Set<int>, p: Option<int>, n: Set<int>)
    requires
        set_domain_model(t, p) == Some(n),
    ensures
        n.finite(),
        1 <= n.len() <= MAX_FINITE_DOMAIN_SIZE,
        forall|v: int| #[trigger] n.contains(v) ==> in_kept_range(v, p),
{
    assert(n == t.map(|x: int| norm_of(x, p)));
    t.lemma_map_finite(|x: int| norm_of(x, p));
    assert forall|v: int| #[trigger] n.contains(v) implies in_kept_range(v, p) by {
        let x = choose|x: int| t.contains(x) && v == norm_of(x, p);
        assert(normalize_model(x, p) is Some);
        if let Some(q) = p {
            vstd::arithmetic::div_mod::lemma_mod_bound(x, q);
        }
    }
}

/// The domain of an expression other than a cell is finite, has between one and
/// `MAX_FINITE_DOMAIN_SIZE` values, and holds only kept values: in the range of `i64`, and
/// with a modulus `q > 1` in `(q/2 - q, q/2]`.
pub proof fn lemma_expression_domain_shape(e: ExprModel, m: Map<CellId, Set<int>>, p: Option<int>)
    requires
        !(e is Var),
        expr_domain_model(e, m, p) is Some,
        p matches Some(q) ==> q > 1,
    ensures
        expr_domain_model(e, m, p)->0.finite(),
        1 <= expr_domain_model(e, m, p)->0.len() <= MAX_FINITE_DOMAIN_SIZE,
        forall|v: int| #[trigger] expr_domain_model(e, m, p)->0.contains(v) ==> in_kept_range(v, p),
{
    let d = expr_domain_model(e, m, p)->0;
    if d == set![0int] {
        set![0int].lemma_singleton_size();
    } else {
        match e {
            ExprModel::Const(sv) => lemma_set_domain_shape(set![scalar_value(sv)->0], p, d),
            ExprModel::Neg(inner) => lemma_set_domain_shape(scaled_set(expr_domain_model(*inner, m, p)->0, -1), p, d),
            ExprModel::Add(l, r) => lemma_set_domain_shape(
                pair_set(expr_domain_model(*l, m, p)->0, expr_domain_model(*r, m, p)->0, false),
                p,
                d,
            ),
            ExprModel::Mul(l, r) => lemma_set_domain_shape(
                pair_set(expr_domain_model(*l, m, p)->0, expr_domain_model(*r, m, p)->0, true),
                p,
                d,
            ),
            ExprModel::Scale(inner, sv) => {
                let k = sv->Known_0;
                lemma_set_domain_shape(scaled_set(expr_domain_model(*inner, m, p)->0, k), p, d);
            },
            _ => {},
        }
    }
}

/// The sum of `f` over a finite set of cells.
pub open spec fn sum_over(s: Set<CellId>, f: spec_fn(CellId) -> int) -> int
    decreases s.len(),
    when s.finite()
{
    if s.len() == 0 {
        0
    } else {
        let c = s.choose();
        f(c) + sum_over(s.remove(c), f)
    }
}

/// The value of a linear form under an assignment: its constant plus each coefficient times
/// the cell's value.
pub open spec fn lin_value(l: LinearModel, env: Map<CellId, int>) -> int {
    l.constant + sum_over(l.terms.dom(), |c: CellId| coef(l.terms, c) * env[c])
}

/// Any element can be taken out of the sum first.
pub proof fn lemma_sum_remove(s: Set<CellId>, f: spec_fn(CellId) -> int, c: CellId)
    requires
        s.finite(),
        s.contains(c),
    ensures
        sum_over(s, f) == f(c) + sum_over(s.remove(c), f),
    decreases s.len(),
{
    let d = s.choose();
    if d != c {
        lemma_sum_remove(s.remove(d), f, c);
        lemma_sum_remove(s.remove(c), f, d);
        assert(s.remove(d).remove(c) =~= s.remove(c).remove(d));
    }
}

/// Sums of functions that agree on the set are equal.
proof fn lemma_sum_ext(s: Set<CellId>, f: spec_fn(CellId) -> int, g: spec_fn(CellId) -> int)
    requires
        s.finite(),
        forall|c: CellId| #[trigger] s.contains(c) ==> f(c) == g(c),
    ensures
        sum_over(s, f) == sum_over(s, g),
    decreases s.len(),
{
    if s.len() > 0 {
        let c = s.choose();
        lemma_sum_ext(s.remove(c), f, g);
    }
}

/// Cells where the function is zero can be added to the set.
proof fn lemma_sum_zero_extend(s: Set<CellId>, t: Set<CellId>, f: spec_fn(CellId) -> int)
    requires
        t.finite(),
        s.subset_of(t),
        forall|c: CellId| #[trigger] t.contains(c) && !s.contains(c) ==> f(c) == 0,
    ensures
        sum_over(t, f) == sum_over(s, f),
    decreases t.len(),
{
    vstd::set_lib::lemma_len_subset(s, t);
    if t.len() > 0 {
        let c = t.choose();
        lemma_sum_remove(t, f, c);
        if s.contains(c) {
            lemma_sum_remove(s, f, c);
            lemma_sum_zero_extend(s.remove(c), t.remove(c), f);
        } else {
            lemma_sum_zero_extend(s, t.remove(c), f);
        }
    } else {
        assert(s =~= t);
    }
}

/// The sum of a pointwise sum is the sum of the sums.
proof fn lemma_sum_add(s: Set<CellId>, f: spec_fn(CellId) -> int, g: spec_fn(CellId) -> int, h: spec_fn(CellId) -> int)
    requires
        s.finite(),
        forall|c: CellId| #[trigger] s.contains(c) ==> h(c) == f(c) + g(c),
    ensures
        sum_over(s, h) == sum_over(s, f) + sum_over(s, g),
    decreases s.len(),
{
    if s.len() > 0 {
        let c = s.choose();
        lemma_sum_add(s.remove(c), f, g, h);
    }
}

/// The sum of a scaled function is the scaled sum.
proof fn lemma_sum_scale(s: Set<CellId>, f: spec_fn(CellId) -> int, k: int, h: spec_fn(CellId) -> int)
    requires
        s.finite(),
        forall|c: CellId| #[trigger] s.contains(c) ==> h(c) == f(c) * k,
    ensures
        sum_over(s, h) == sum_over(s, f) * k,
    decreases s.len(),
{
    if s.len() > 0 {
        let c = s.choose();
        lemma_sum_scale(s.remove(c), f, k, h);
        let a = f(c);
        let b = sum_over(s.remove(c), f);
        assert(a * k + b * k == (a + b) * k) by (nonlinear_arith);
    }
}

/// The terms of a form that linearization builds are finitely many.
pub open spec fn lin_ok(l: LinearModel) -> bool {
    l.terms.dom().finite()
}

/// Sums and scalings of forms have the sum and the scaled value.
pub proof fn lemma_lin_value_ops(a: LinearModel, b: LinearModel, k: int, env: Map<CellId, int>)
    requires
        lin_ok(a),
        lin_ok(b),
    ensures
        lin_ok(lin_add(a, b)),
        lin_ok(lin_scale(a, k)),
        lin_value(lin_add(a, b), env) == lin_value(a, env) + lin_value(b, env),
        lin_value(lin_scale(a, k), env) == lin_value(a, env) * k,
{
    let fa = |c: CellId| coef(a.terms, c) * env[c];
    let fb = |c: CellId| coef(b.terms, c) * env[c];
    let sum = lin_add(a, b);
    let fs = |c: CellId| coef(sum.terms, c) * env[c];
    let u = a.terms.dom().union(b.terms.dom());
    assert(sum.terms.dom().subset_of(u));
    vstd::set_lib::lemma_set_union_finite_iff(a.terms.dom(), b.terms.dom());
    vstd::set_lib::lemma_len_subset(sum.terms.dom(), u);
    assert(sum.terms.dom().finite()) by {
        vstd::set_lib::lemma_set_subset_finite(u, sum.terms.dom());
    }
    lemma_sum_zero_extend(sum.terms.dom(), u, fs);
    lemma_sum_zero_extend(a.terms.dom(), u, fa);
    lemma_sum_zero_extend(b.terms.dom(), u, fb);
    assert forall|c: CellId| #[trigger] u.contains(c) implies fs(c) == fa(c) + fb(c) by {
        assert(coef(sum.terms, c) == coef(a.terms, c) + coef(b.terms, c));
        let x = env[c];
        let ca = coef(a.terms, c);
        let cb = coef(b.terms, c);
        assert((ca + cb) * x == ca * x + cb * x) by (nonlinear_arith);
    }
    lemma_sum_add(u, fa, fb, fs);
    let sc = lin_scale(a, k);
    let fk = |c: CellId| coef(sc.terms, c) * env[c];
    assert(sc.terms.dom().subset_of(a.terms.dom()));
    assert(sc.terms.dom().finite()) by {
        vstd::set_lib::lemma_set_subset_finite(a.terms.dom(), sc.terms.dom());
    }
    lemma_sum_zero_extend(sc.terms.dom(), a.terms.dom(), fk);
    assert forall|c: CellId| #[trigger] a.terms.dom().contains(c) implies fk(c) == fa(c) * k by {
        let x = env[c];
        let ca = coef(a.terms, c);
        assert(coef(sc.terms, c) == ca * k);
        assert((ca * k) * x == (ca * x) * k) by (nonlinear_arith);
    }
    lemma_sum_scale(a.terms.dom(), fa, k, fk);
    assert(a.constant * k + sum_over(a.terms.dom(), fa) * k == (a.constant + sum_over(a.terms.dom(), fa)) * k)
        by (nonlinear_arith);
}

/// Linearization is sound: under an assignment within `Delta`, the expression's value is the
/// value of its linear form.
pub proof fn lemma_lin_sound(e: ExprModel, m: Map<CellId, Set<int>>, env: Map<CellId, int>)
    requires
        env_within(env, m),
        lin_model(e, m) is Some,
        concrete_value(e, env) is Some,
    ensures
        lin_ok(lin_model(e, m)->0),
        lin_value(lin_model(e, m)->0, env) == concrete_value(e, env)->0,
    decreases e,
{
    let l = lin_model(e, m)->0;
    let w = concrete_value(e, env)->0;
    if eval_model(e, m) is Some {
        lemma_eval_sound(e, m, env);
        assert(l.terms.dom() =~= Set::<CellId>::empty());
        assert(sum_over(l.terms.dom(), |c: CellId| coef(l.terms, c) * env[c]) == 0);
        return;
    }
    match e {
        ExprModel::Var(c) => {
            let f = |d: CellId| coef(l.terms, d) * env[d];
            assert(l.terms.dom() =~= set![c]);
            lemma_sum_remove(l.terms.dom(), f, c);
            assert(l.terms.dom().remove(c) =~= Set::<CellId>::empty());
            assert(1 * env[c] == env[c]) by (nonlinear_arith);
        },
        ExprModel::Const(_) => {},
        ExprModel::Neg(inner) => {
            lemma_lin_sound(*inner, m, env);
            lemma_lin_value_ops(lin_model(*inner, m)->0, lin_model(*inner, m)->0, -1, env);
        },
        ExprModel::Add(a, b) => {
            lemma_lin_sound(*a, m, env);
            lemma_lin_sound(*b, m, env);
            lemma_lin_value_ops(lin_model(*a, m)->0, lin_model(*b, m)->0, 0, env);
        },
        ExprModel::Mul(a, b) => {
            if eval_model(*a, m) is Some {
                let v = eval_model(*a, m)->0;
                lemma_eval_sound(*a, m, env);
                lemma_lin_sound(*b, m, env);
                let lb = lin_model(*b, m)->0;
                lemma_lin_value_ops(lb, lb, v, env);
                let y = concrete_value(*b, env)->0;
                assert(v * y == y * v) by (nonlinear_arith);
            } else {
                let v = eval_model(*b, m)->0;
                lemma_eval_sound(*b, m, env);
                lemma_lin_sound(*a, m, env);
                let la = lin_model(*a, m)->0;
                lemma_lin_value_ops(la, la, v, env);
            }
        },
        ExprModel::Scale(inner, s) => {
            match s {
                ScalarModel::Zero => {
                    let y = concrete_value(*inner, env)->0;
                    assert(y * 0 == 0) by (nonlinear_arith);
                    assert(l.terms.dom() =~= Set::<CellId>::empty());
                },
                ScalarModel::Known(k) => {
                    lemma_lin_sound(*inner, m, env);
                    let li = lin_model(*inner, m)->0;
                    lemma_lin_value_ops(li, li, k, env);
                },
                _ => {},
            }
        },
    }
}

/// Truncating division without remainder is exact.
proof fn lemma_trunc_exact(a: int, b: int)
    requires
        b != 0,
        trunc_rem(a, b) == 0,
    ensures
        a == b * trunc_div(a, b),
{
    let q = abs(a) / abs(b);
    vstd::arithmetic::div_mod::lemma_fundamental_div_mod(abs(a), abs(b));
    assert(abs(a) % abs(b) == 0);
    assert(abs(a) == abs(b) * q);
    if a >= 0 && b > 0 {
    } else if a >= 0 && b < 0 {
        assert(b * (-q) == abs(b) * q) by (nonlinear_arith)
            requires
                b < 0,
                abs(b) == -b,
        ;
    } else if a < 0 && b > 0 {
        assert(b * (-q) == -(abs(b) * q)) by (nonlinear_arith)
            requires
                abs(b) == b,
        ;
    } else {
        assert(b * q == -(abs(b) * q)) by (nonlinear_arith)
            requires
                abs(b) == -b,
        ;
    }
}

/// The one-cell root is sound: where a linear form with a root is zero under an assignment,
/// the cell has the root's value.
pub proof fn lemma_linear_root_sound(l: LinearModel, unit_only: bool, env: Map<CellId, int>)
    requires
        lin_ok(l),
        linear_root(l, unit_only) is Some,
        lin_value(l, env) == 0,
    ensures
        env[linear_root(l, unit_only).unwrap().0] == linear_root(l, unit_only).unwrap().1,
{
    let c = l.terms.dom().choose();
    let k = l.terms[c];
    let v = trunc_div(-l.constant, k);
    let f = |d: CellId| coef(l.terms, d) * env[d];
    assert(l.terms.dom().len() == 1);
    assert(l.terms.dom().contains(c));
    lemma_sum_remove(l.terms.dom(), f, c);
    assert(l.terms.dom().remove(c).len() == 0);
    assert(sum_over(l.terms.dom(), f) == k * env[c]);
    lemma_trunc_exact(-l.constant, k);
    let x = env[c];
    assert(x == v) by (nonlinear_arith)
        requires
            k * x == k * v,
            k != 0,
    ;
}

/// The Assign rule on values is sound: where it gives cell `c` the value `v` from `e = 0`,
/// every assignment within `Delta` that makes `e` zero gives `c` the value `v`.
pub proof fn lemma_zero_assign_sound(e: ExprModel, m: Map<CellId, Set<int>>, env: Map<CellId, int>)
    requires
        env_within(env, m),
        no_known_zero(e),
        zero_assign_model(e, m) is Some,
        concrete_value(e, env) == Some(0int),
    ensures
        env[zero_assign_model(e, m).unwrap().0] == zero_assign_model(e, m).unwrap().1,
    decreases e,
{
    let linear = linear_assign_model(e, m) is Some && zero_assign_model(e, m) == linear_assign_model(e, m);
    match e {
        ExprModel::Mul(l, r) => {
            let a = concrete_value(*l, env)->0;
            let b = concrete_value(*r, env)->0;
            lemma_kind_sound(*l, m, env);
            lemma_kind_sound(*r, m, env);
            if value_kind_model(*l, m) is NonZero {
                assert(b == 0) by (nonlinear_arith)
                    requires
                        a * b == 0,
                        a != 0,
                ;
                lemma_zero_assign_sound(*r, m, env);
                return;
            } else if value_kind_model(*r, m) is NonZero {
                assert(a == 0) by (nonlinear_arith)
                    requires
                        a * b == 0,
                        b != 0,
                ;
                lemma_zero_assign_sound(*l, m, env);
                return;
            }
        },
        ExprModel::Scale(inner, s) => {
            if s is Known {
                let k = s->Known_0;
                let a = concrete_value(*inner, env)->0;
                assert(a == 0) by (nonlinear_arith)
                    requires
                        a * k == 0,
                        k != 0,
                ;
                lemma_zero_assign_sound(*inner, m, env);
                return;
            }
        },
        _ => {},
    }
    assert(linear);
    lemma_lin_sound(e, m, env);
    lemma_linear_root_sound(lin_model(e, m)->0, false, env);
}

/// The factors that the Root rule reads never pass through a zero scaling.
pub open spec fn no_zero_scaled_factor(e: ExprModel) -> bool
    decreases e,
{
    match e {
        ExprModel::Mul(l, r) => no_zero_scaled_factor(*l) && no_zero_scaled_factor(*r),
        ExprModel::Neg(inner) => no_zero_scaled_factor(*inner),
        ExprModel::Scale(inner, s) => !(s is Zero) && ((s is NonZero || s is Known) ==> no_zero_scaled_factor(*inner)),
        _ => true,
    }
}

/// A product that is zero has a factor that is zero.
proof fn lemma_zero_factor(e: ExprModel, env: Map<CellId, int>) -> (i: int)
    requires
        no_known_zero(e),
        no_zero_scaled_factor(e),
        concrete_value(e, env) == Some(0int),
    ensures
        0 <= i < product_factors(e).len(),
        concrete_value(product_factors(e)[i], env) == Some(0int),
    decreases e,
{
    match e {
        ExprModel::Mul(l, r) => {
            let a = concrete_value(*l, env)->0;
            let b = concrete_value(*r, env)->0;
            if a == 0 {
                let i = lemma_zero_factor(*l, env);
                assert(product_factors(e)[i] == product_factors(*l)[i]);
                i
            } else {
                assert(b == 0) by (nonlinear_arith)
                    requires
                        a * b == 0,
                        a != 0,
                ;
                let j = lemma_zero_factor(*r, env);
                let n = product_factors(*l).len() as int;
                assert(product_factors(e)[n + j] == product_factors(*r)[j]);
                n + j
            }
        },
        ExprModel::Neg(inner) => lemma_zero_factor(*inner, env),
        ExprModel::Scale(inner, s) => {
            if s is Known {
                let k = s->Known_0;
                let a = concrete_value(*inner, env)->0;
                assert(a == 0) by (nonlinear_arith)
                    requires
                        a * k == 0,
                        k != 0,
                ;
                lemma_zero_factor(*inner, env)
            } else {
                0
            }
        },
        _ => 0,
    }
}

/// The Root rule is sound: where it gives cell `c` the domain `{r_i}` from a product of
/// factors `c - r_i` that is zero, every assignment within `Delta` that makes the product
/// zero gives `c` one of the roots. (A factor under a zero scaling is passed over by the
/// rule and is left out here.)
pub proof fn lemma_root_sound(e: ExprModel, m: Map<CellId, Set<int>>, env: Map<CellId, int>)
    requires
        env_within(env, m),
        no_known_zero(e),
        no_zero_scaled_factor(e),
        root_domain_model(e, m) is Some,
        concrete_value(e, env) == Some(0int),
    ensures
        root_domain_model(e, m).unwrap().1.contains(env[root_domain_model(e, m).unwrap().0]),
{
    let fs = product_factors(e);
    let i = lemma_zero_factor(e, env);
    assert(factor_root_model(fs[i], m) is Some);
    lemma_lin_sound(fs[i], m, env);
    lemma_linear_root_sound(lin_model(fs[i], m)->0, true, env);
    let roots = Seq::new(fs.len(), |j: int| factor_root_model(fs[j], m).unwrap().1);
    assert(roots[i] == factor_root_model(fs[i], m).unwrap().1);
    assert(roots.contains(roots[i]));
}

/// A finite non-empty set of cells has a largest cell.
proof fn lemma_max_cell(s: Set<CellId>) -> (mx: CellId)
    requires
        s.finite(),
        s.len() > 0,
    ensures
        s.contains(mx),
        forall|d: CellId| #[trigger] s.contains(d) && d != mx ==> cell_lt(d, mx),
    decreases s.len(),
{
    let x = s.choose();
    let rest = s.remove(x);
    if rest.len() == 0 {
        assert forall|d: CellId| #[trigger] s.contains(d) && d != x implies cell_lt(d, x) by {
            assert(rest.contains(d));
        }
        x
    } else {
        let y = lemma_max_cell(rest);
        lemma_cell_order(x, y, x);
        if cell_lt(x, y) {
            assert forall|d: CellId| #[trigger] s.contains(d) && d != y implies cell_lt(d, y) by {
                if d != x {
                    assert(rest.contains(d));
                }
            }
            y
        } else {
            assert forall|d: CellId| #[trigger] s.contains(d) && d != x implies cell_lt(d, x) by {
                assert(rest.contains(d));
                if d != y {
                    lemma_cell_order(d, y, x);
                }
            }
            x
        }
    }
}

/// A finite map of terms has a listing in cell order, so `term_list` lists it.
proof fn lemma_terms_listed(t: Map<CellId, int>)
    requires
        t.dom().finite(),
    ensures
        exists|s: Seq<(CellId, int)>| sorted_terms_of(s, t),
    decreases t.dom().len(),
{
    if t.dom().len() == 0 {
        let s = Seq::<(CellId, int)>::empty();
        assert(sorted_terms_of(s, t));
    } else {
        let mx = lemma_max_cell(t.dom());
        let t2 = t.remove(mx);
        lemma_terms_listed(t2);
        let s2 = choose|s: Seq<(CellId, int)>| sorted_terms_of(s, t2);
        let s = s2.push((mx, t[mx]));
        assert forall|i: int, j: int| 0 <= i < j < s.len() implies cell_lt(
            #[trigger] entry_keys(s)[i],
            #[trigger] entry_keys(s)[j],
        ) by {
            if j == s.len() - 1 {
                assert(t2.dom().contains(s2[i].0));
                assert(entry_keys(s)[i] == s2[i].0);
            } else {
                assert(entry_keys(s)[i] == entry_keys(s2)[i]);
                assert(entry_keys(s)[j] == entry_keys(s2)[j]);
            }
        }
        assert forall|c: CellId| #[trigger] t.dom().contains(c) <==> exists|i: int| 0 <= i < s.len() && s[i].0 == c by {
            if t.dom().contains(c) && c != mx {
                assert(t2.dom().contains(c));
                let i = choose|i: int| 0 <= i < s2.len() && s2[i].0 == c;
                assert(s[i] == s2[i]);
            }
            if t.dom().contains(c) && c == mx {
                assert(s[s.len() - 1].0 == c);
            }
            if exists|i: int| 0 <= i < s.len() && s[i].0 == c {
                let i = choose|i: int| 0 <= i < s.len() && s[i].0 == c;
                if i < s2.len() {
                    assert(s[i] == s2[i]);
                    assert(t2.dom().contains(c));
                }
            }
        }
        assert forall|i: int| 0 <= i < s.len() implies t[#[trigger] s[i].0] == s[i].1 by {
            if i < s2.len() {
                assert(s[i] == s2[i]);
                assert(t2.dom().contains(s2[i].0));
            }
        }
        assert(sorted_terms_of(s, t));
    }
}

/// The term list of a form with finitely many terms lists its terms in cell order.
pub proof fn lemma_term_list_sorted(l: LinearModel)
    requires
        lin_ok(l),
    ensures
        sorted_terms_of(term_list(l), l.terms),
{
    lemma_terms_listed(l.terms);
}

/// The sum of `coefficient * value` over a list of terms, first to last.
pub open spec fn list_value(ts: Seq<(CellId, int)>, env: Map<CellId, int>) -> int
    decreases ts.len(),
{
    if ts.len() == 0 {
        0
    } else {
        ts[0].1 * env[ts[0].0] + list_value(ts.drop_first(), env)
    }
}

/// A list of terms in cell order without its first entry lists the rest of the terms.
proof fn lemma_listing_rest(ts: Seq<(CellId, int)>, t: Map<CellId, int>)
    requires
        sorted_terms_of(ts, t),
        ts.len() > 0,
    ensures
        sorted_terms_of(ts.drop_first(), t.remove(ts[0].0)),
        t.dom().contains(ts[0].0),
        t[ts[0].0] == ts[0].1,
        forall|i: int| 0 < i < ts.len() ==> #[trigger] ts[i].0 != ts[0].0,
{
    let r = ts.drop_first();
    let c0 = ts[0].0;
    assert forall|i: int| 0 < i < ts.len() implies #[trigger] ts[i].0 != c0 by {
        assert(entry_keys(ts)[0] == c0);
        assert(entry_keys(ts)[i] == ts[i].0);
        lemma_cell_order(c0, c0, c0);
    }
    assert forall|i: int, j: int| 0 <= i < j < r.len() implies cell_lt(#[trigger] entry_keys(r)[i], #[trigger] entry_keys(r)[j]) by {
        assert(entry_keys(r)[i] == entry_keys(ts)[i + 1]);
        assert(entry_keys(r)[j] == entry_keys(ts)[j + 1]);
    }
    assert forall|c: CellId| #[trigger] t.remove(c0).dom().contains(c) <==> exists|i: int| 0 <= i < r.len() && r[i].0 == c by {
        if t.remove(c0).dom().contains(c) {
            let i = choose|i: int| 0 <= i < ts.len() && ts[i].0 == c;
            assert(r[i - 1] == ts[i]);
        }
        if exists|i: int| 0 <= i < r.len() && r[i].0 == c {
            let i = choose|i: int| 0 <= i < r.len() && r[i].0 == c;
            assert(r[i] == ts[i + 1]);
        }
    }
    assert forall|i: int| 0 <= i < r.len() implies t.remove(c0)[#[trigger] r[i].0] == r[i].1 by {
        assert(r[i] == ts[i + 1]);
    }
    assert(t.dom().contains(c0));
}

/// The value of a list of terms in cell order is the value of the terms.
pub proof fn lemma_list_value(ts: Seq<(CellId, int)>, t: Map<CellId, int>, env: Map<CellId, int>)
    requires
        sorted_terms_of(ts, t),
        t.dom().finite(),
    ensures
        list_value(ts, env) == sum_over(t.dom(), |c: CellId| coef(t, c) * env[c]),
    decreases ts.len(),
{
    let f = |c: CellId| coef(t, c) * env[c];
    if ts.len() == 0 {
        assert(t.dom() =~= Set::<CellId>::empty());
    } else {
        let c0 = ts[0].0;
        lemma_listing_rest(ts, t);
        let t2 = t.remove(c0);
        lemma_list_value(ts.drop_first(), t2, env);
        lemma_sum_remove(t.dom(), f, c0);
        assert(t2.dom() =~= t.dom().remove(c0));
        lemma_sum_ext(t.dom().remove(c0), f, |c: CellId| coef(t2, c) * env[c]);
    }
}

/// The sum over the terms of a list other than `target`, first to last.
pub open spec fn others_value(ts: Seq<(CellId, int)>, target: CellId, env: Map<CellId, int>) -> int
    decreases ts.len(),
{
    if ts.len() == 0 {
        0
    } else {
        (if ts[0].0 == target {
            0
        } else {
            ts[0].1 * env[ts[0].0]
        }) + others_value(ts.drop_first(), target, env)
    }
}

/// The part of a list's sum that comes from `target`.
spec fn target_part(ts: Seq<(CellId, int)>, target: CellId, env: Map<CellId, int>) -> int
    decreases ts.len(),
{
    if ts.len() == 0 {
        0
    } else {
        (if ts[0].0 == target {
            ts[0].1 * env[target]
        } else {
            0
        }) + target_part(ts.drop_first(), target, env)
    }
}

/// A list's sum splits into the other terms and the target's.
proof fn lemma_split_target(ts: Seq<(CellId, int)>, target: CellId, env: Map<CellId, int>)
    ensures
        list_value(ts, env) == others_value(ts, target, env) + target_part(ts, target, env),
    decreases ts.len(),
{
    if ts.len() > 0 {
        lemma_split_target(ts.drop_first(), target, env);
    }
}

/// Without the target among its cells, a list gives the target no part.
proof fn lemma_no_target_part(ts: Seq<(CellId, int)>, target: CellId, env: Map<CellId, int>)
    requires
        forall|i: int| 0 <= i < ts.len() ==> #[trigger] ts[i].0 != target,
    ensures
        target_part(ts, target, env) == 0,
    decreases ts.len(),
{
    if ts.len() > 0 {
        assert forall|i: int| 0 <= i < ts.len() - 1 implies #[trigger] ts.drop_first()[i].0 != target by {
            assert(ts.drop_first()[i] == ts[i + 1]);
        }
        lemma_no_target_part(ts.drop_first(), target, env);
    }
}

/// In a list in cell order, the target's part is its coefficient times its value.
proof fn lemma_target_part(ts: Seq<(CellId, int)>, t: Map<CellId, int>, target: CellId, env: Map<CellId, int>)
    requires
        sorted_terms_of(ts, t),
    ensures
        target_part(ts, target, env) == coef(t, target) * env[target],
    decreases ts.len(),
{
    if ts.len() == 0 {
        assert(!t.dom().contains(target));
        assert(0 * env[target] == 0) by (nonlinear_arith);
    } else {
        lemma_listing_rest(ts, t);
        let c0 = ts[0].0;
        if c0 == target {
            assert forall|i: int| 0 <= i < ts.len() - 1 implies #[trigger] ts.drop_first()[i].0 != target by {
                assert(ts.drop_first()[i] == ts[i + 1]);
            }
            lemma_no_target_part(ts.drop_first(), target, env);
        } else {
            lemma_target_part(ts.drop_first(), t.remove(c0), target, env);
            assert(coef(t.remove(c0), target) == coef(t, target));
        }
    }
}

/// The values that the other terms can take together, as `rest_model` collects them, hold
/// the assignment's sum of the other terms (without a modulus).
proof fn lemma_rest_sound(
    ts: Seq<(CellId, int)>,
    target: CellId,
    m: Map<CellId, Set<int>>,
    rest0: Set<int>,
    n0: int,
    r0: int,
    env: Map<CellId, int>,
)
    requires
        env_within(env, m),
        rest_model(ts, target, m, None, rest0, n0) is Some,
        rest0.contains(r0),
    ensures
        rest_model(ts, target, m, None, rest0, n0).unwrap().0.contains(r0 + others_value(ts, target, env)),
    decreases ts.len(),
{
    if ts.len() > 0 {
        let c = ts[0].0;
        let k = ts[0].1;
        if c == target {
            lemma_rest_sound(ts.drop_first(), target, m, rest0, n0, r0, env);
        } else {
            assert(m.dom().contains(c));
            let raw = pair_set(rest0, scaled_set(m[c], k), false);
            let r1 = r0 + env[c] * k;
            assert(scaled_set(m[c], k).contains(env[c] * k));
            assert(raw.contains(r1));
            assert(all_normalize(raw, None));
            assert(normalize_model(r1, None) is Some);
            let next = raw.map(|x: int| norm_of(x, None));
            assert(next.contains(norm_of(r1, None)));
            lemma_rest_sound(ts.drop_first(), target, m, next, n0 * m[c].len(), r1, env);
            assert(env[c] * k == k * env[c]) by (nonlinear_arith);
        }
    }
}

/// Solving a linear equation for one cell over the domains of the others is sound (without a
/// modulus): where the form's value under the assignment lies in `rhs`, the solved domain
/// holds the cell's value.
proof fn lemma_solve_sound(
    l: LinearModel,
    target: CellId,
    rhs: Set<int>,
    m: Map<CellId, Set<int>>,
    env: Map<CellId, int>,
)
    requires
        lin_ok(l),
        env_within(env, m),
        l.terms.dom().contains(target),
        rhs.contains(lin_value(l, env)),
        solve_domain_model(term_list(l), l.constant, target, l.terms[target], rhs, m, None) is Some,
    ensures
        solve_domain_model(term_list(l), l.constant, target, l.terms[target], rhs, m, None).unwrap().contains(env[target]),
{
    let ts = term_list(l);
    let k = l.terms[target];
    let rv = lin_value(l, env);
    lemma_term_list_sorted(l);
    lemma_list_value(ts, l.terms, env);
    lemma_split_target(ts, target, env);
    lemma_target_part(ts, l.terms, target, env);
    let others = others_value(ts, target, env);
    assert(rv == l.constant + others + k * env[target]);
    let c0 = l.constant;
    assert(normalize_model(c0, None) == Some(c0));
    lemma_rest_sound(ts, target, m, set![c0], 1, c0, env);
    let rest = rest_model(ts, target, m, None, set![c0], 1).unwrap().0;
    assert(rest.contains(c0 + others));
    let x = rv + (c0 + others) * -1;
    assert(scaled_set(rest, -1).contains((c0 + others) * -1));
    let diffs = pair_set(rhs, scaled_set(rest, -1), false);
    assert(diffs.contains(x));
    assert(x == k * env[target]);
    assert(all_solve(diffs, k, None));
    assert(solve_value_model(x, k, None) is Some);
    let q = trunc_div(x, k);
    lemma_trunc_exact(x, k);
    let y = env[target];
    assert(y == q) by (nonlinear_arith)
        requires
            k * y == k * q,
            k != 0,
    ;
    let solved = diffs.map(|z: int| solve_value_model(z, k, None).unwrap());
    assert(solved.contains(solve_value_model(x, k, None).unwrap()));
    lemma_set_domain_member(solved, None, solve_domain_model(ts, c0, target, k, rhs, m, None).unwrap(), q);
}

/// Every listed domain holds the assignment's value of its cell.
pub open spec fn inferences_hold(list: Seq<(CellId, Set<int>)>, env: Map<CellId, int>) -> bool {
    forall|i: int| 0 <= i < list.len() ==> (#[trigger] list[i]).1.contains(env[list[i].0])
}

/// Recording a domain that holds the cell's value keeps every listed domain holding it.
proof fn lemma_push_holds(list: Seq<(CellId, Set<int>)>, c: CellId, d: Set<int>, env: Map<CellId, int>)
    requires
        inferences_hold(list, env),
        d.contains(env[c]),
    ensures
        inferences_hold(push_inference(list, c, d), env),
    decreases list.len(),
{
    if list.len() == 0 {
        assert(push_inference(list, c, d)[0] == (c, d));
    } else if list[0].0 == c {
        let x = list[0].1.intersect(d);
        if !x.is_empty() {
            let r = list.update(0, (c, x));
            assert forall|i: int| 0 <= i < r.len() implies (#[trigger] r[i]).1.contains(env[r[i].0]) by {
                if i == 0 {
                    assert(list[0].1.contains(env[c]));
                } else {
                    assert(r[i] == list[i]);
                }
            }
        }
    } else {
        let rest = list.drop_first();
        assert forall|i: int| 0 <= i < rest.len() implies (#[trigger] rest[i]).1.contains(env[rest[i].0]) by {
            assert(rest[i] == list[i + 1]);
        }
        lemma_push_holds(rest, c, d, env);
        let r = seq![list[0]] + push_inference(rest, c, d);
        assert forall|i: int| 0 <= i < r.len() implies (#[trigger] r[i]).1.contains(env[r[i].0]) by {
            if i == 0 {
                assert(list[0].1.contains(env[list[0].0]));
            } else {
                assert(r[i] == push_inference(rest, c, d)[i - 1]);
            }
        }
    }
}

/// Recording a list of domains that hold their cells' values keeps every domain holding.
proof fn lemma_push_all_holds(list: Seq<(CellId, Set<int>)>, items: Seq<(CellId, Set<int>)>, env: Map<CellId, int>)
    requires
        inferences_hold(list, env),
        inferences_hold(items, env),
    ensures
        inferences_hold(push_all(list, items), env),
    decreases items.len(),
{
    if items.len() > 0 {
        let init = items.drop_last();
        assert forall|i: int| 0 <= i < init.len() implies (#[trigger] init[i]).1.contains(env[init[i].0]) by {
            assert(init[i] == items[i]);
        }
        lemma_push_all_holds(list, init, env);
        assert(items[items.len() - 1].1.contains(env[items[items.len() - 1].0]));
        lemma_push_holds(push_all(list, init), items.last().0, items.last().1, env);
    }
}

/// The domains that a linear form `= rhs` gives its cells hold the cells' values under every
/// assignment within `Delta` that gives the form a value in `rhs` (without a modulus).
proof fn lemma_linear_domains_sound(
    ts: Seq<(CellId, int)>,
    l: LinearModel,
    rhs: Set<int>,
    m: Map<CellId, Set<int>>,
    env: Map<CellId, int>,
)
    requires
        lin_ok(l),
        env_within(env, m),
        rhs.contains(lin_value(l, env)),
        forall|i: int| 0 <= i < ts.len() ==> l.terms.dom().contains(#[trigger] ts[i].0) && l.terms[ts[i].0] == ts[i].1,
    ensures
        inferences_hold(linear_domains_over(ts, l, rhs, m, None), env),
    decreases ts.len(),
{
    if ts.len() > 0 {
        let init = ts.drop_last();
        assert forall|i: int| 0 <= i < init.len() implies l.terms.dom().contains(#[trigger] init[i].0) && l.terms[init[i].0]
            == init[i].1 by {
            assert(init[i] == ts[i]);
        }
        lemma_linear_domains_sound(init, l, rhs, m, env);
        let prev = linear_domains_over(init, l, rhs, m, None);
        let c = ts.last().0;
        let k = ts.last().1;
        assert(l.terms.dom().contains(ts[ts.len() - 1].0));
        if k != 0 {
            if solve_domain_model(term_list(l), l.constant, c, k, rhs, m, None) is Some {
                lemma_solve_sound(l, c, rhs, m, env);
                let d = solve_domain_model(term_list(l), l.constant, c, k, rhs, m, None).unwrap();
                let r = prev.push((c, d));
                assert forall|i: int| 0 <= i < r.len() implies (#[trigger] r[i]).1.contains(env[r[i].0]) by {
                    if i < prev.len() {
                        assert(r[i] == prev[i]);
                    }
                }
            }
        }
    }
}

/// The linear domains of a form, over its term list.
proof fn lemma_linear_domains_model_sound(l: LinearModel, rhs: Set<int>, m: Map<CellId, Set<int>>, env: Map<CellId, int>)
    requires
        lin_ok(l),
        env_within(env, m),
        rhs.contains(lin_value(l, env)),
    ensures
        inferences_hold(linear_domains_model(l, rhs, m, None), env),
{
    lemma_term_list_sorted(l);
    let ts = term_list(l);
    assert forall|i: int| 0 <= i < ts.len() implies l.terms.dom().contains(#[trigger] ts[i].0) && l.terms[ts[i].0] == ts[i].1 by {
        assert(exists|j: int| 0 <= j < ts.len() && ts[j].0 == ts[i].0);
    }
    lemma_linear_domains_sound(ts, l, rhs, m, env);
}

/// The value rules on a zero equation are sound (without a modulus): every domain that
/// `e = 0` teaches holds the cell's value under every assignment within `Delta` that makes
/// `e` zero. (The Root rule passes over a factor under a zero scaling, and a `Known` zero
/// scalar would make a zero equation say nothing of its operand: both are left out here.)
pub proof fn lemma_value_inference_sound(e: ExprModel, m: Map<CellId, Set<int>>, env: Map<CellId, int>)
    requires
        env_within(env, m),
        no_known_zero(e),
        no_zero_scaled_factor(e),
        concrete_value(e, env) == Some(0int),
    ensures
        inferences_hold(value_inference_model(e, m, None), env),
{
    let empty = Seq::<(CellId, Set<int>)>::empty();
    let l1 = match root_domain_model(e, m) {
        Some((c, d)) => push_inference(empty, c, d),
        None => empty,
    };
    if root_domain_model(e, m) is Some {
        lemma_root_sound(e, m, env);
        lemma_push_holds(empty, root_domain_model(e, m).unwrap().0, root_domain_model(e, m).unwrap().1, env);
    }
    let l2 = match zero_assign_model(e, m) {
        Some((c, v)) => push_inference(l1, c, set![v]),
        None => l1,
    };
    if zero_assign_model(e, m) is Some {
        lemma_zero_assign_sound(e, m, env);
        let (c, v) = zero_assign_model(e, m).unwrap();
        assert(set![v].contains(env[c]));
        lemma_push_holds(l1, c, set![v], env);
    }
    if lin_model(e, m) is Some {
        let l = lin_model(e, m).unwrap();
        lemma_lin_sound(e, m, env);
        assert(set![0int].contains(lin_value(l, env)));
        lemma_linear_domains_model_sound(l, set![0int], m, env);
        lemma_push_all_holds(l2, linear_domains_model(l, set![0int], m, None), env);
    }
}

/// The domains that `e in rhs` teaches hold the cells' values under every assignment within
/// `Delta` that gives `e` a value in `rhs` (without a modulus).
pub proof fn lemma_membership_inference_sound(e: ExprModel, rhs: Set<int>, m: Map<CellId, Set<int>>, env: Map<CellId, int>)
    requires
        env_within(env, m),
        concrete_value(e, env) is Some,
        rhs.contains(concrete_value(e, env).unwrap()),
    ensures
        inferences_hold(membership_inference_model(e, rhs, m, None), env),
{
    let empty = Seq::<(CellId, Set<int>)>::empty();
    if lin_model(e, m) is Some {
        let l = lin_model(e, m).unwrap();
        lemma_lin_sound(e, m, env);
        lemma_linear_domains_model_sound(l, rhs, m, env);
        lemma_push_all_holds(empty, linear_domains_model(l, rhs, m, None), env);
    }
}

} // verus!
