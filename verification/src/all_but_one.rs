//! The All-But-One-0 rule. Over several zero equations
//!   `sum(y_i) = e` and `y_i * (x - i) = 0` for `i` in `0..n`,
//! with `x` and `e` unique, every `y_i` is unique; where `x` and `e` are known, `y_x = e`
//! and the other outputs are zero.
use crate::cell::CellId;
use crate::cell_map::{entry_keys, sorted_cells, CellMap};
use crate::domain::{known_value_model, UcpValueFacts};
use crate::expr::{expr_cells, exprs_cells, exprs_model, ExprModel, ScalarModel, UcpExpr, UcpScalar};
use crate::facts::UcpFacts;
use crate::integer::{int_add, int_eq, int_le, int_lt, int_sub, Integer};
use crate::domain::{contains_value, int_seq, ints_of};
use crate::linear::{int_entries, sorted_terms_of, term_list, LinearExpr, LinearModel};
use crate::value::{bnd, value_kind, factor_root, factor_root_model, lemma_lin_cells, lin_model, linearize};
use vstd::prelude::*;

verus! {

/// A cell that the rule proves unique, with its value where `x` and `e` are known.
#[derive(Debug, PartialEq)]
pub struct AllButOneInference {
    pub cell: CellId,
    pub value: Option<Integer>,
}

/// The factors of a product that matter for the rule: through negation and non-zero
/// scaling, dropping non-zero constants; zero parts have none.
pub open spec fn meaningful_factors(e: ExprModel) -> Seq<ExprModel>
    decreases e,
{
    match e {
        ExprModel::Mul(l, r) => meaningful_factors(*l) + meaningful_factors(*r),
        ExprModel::Neg(inner) => meaningful_factors(*inner),
        ExprModel::Scale(inner, s) => if s is NonZero || s is Known {
            meaningful_factors(*inner)
        } else if s is Zero {
            Seq::empty()
        } else {
            seq![e]
        },
        ExprModel::Const(s) => if s is Unknown {
            seq![e]
        } else {
            Seq::empty()
        },
        _ => seq![e],
    }
}

/// A single cell, through negation and non-zero scaling.
pub open spec fn plain_var_model(e: ExprModel) -> Option<CellId>
    decreases e,
{
    match e {
        ExprModel::Var(c) => Some(c),
        ExprModel::Neg(inner) => plain_var_model(*inner),
        ExprModel::Scale(inner, s) => if s is NonZero || s is Known {
            plain_var_model(*inner)
        } else {
            None
        },
        _ => None,
    }
}

/// `y * (x - root)` read from a plain cell and a root factor: `(y, x, root)`.
pub open spec fn product_pair_model(y_expr: ExprModel, root_expr: ExprModel) -> Option<(CellId, CellId, int)> {
    match (plain_var_model(y_expr), factor_root_model(root_expr, Map::empty())) {
        (Some(y), Some((x, r))) => Some((y, x, r)),
        _ => None,
    }
}

/// A product constraint `y * (x - root) = 0`, in either order of its two factors.
pub open spec fn product_model(e: ExprModel) -> Option<(CellId, CellId, int)> {
    let fs = meaningful_factors(e);
    if fs.len() != 2 {
        None
    } else {
        match product_pair_model(fs[0], fs[1]) {
            Some(t) => Some(t),
            None => product_pair_model(fs[1], fs[0]),
        }
    }
}

/// The product constraints with `x` in `K`, in the order of the equations, as `(x, y, root)`.
pub open spec fn product_list(es: Seq<ExprModel>, k: Set<CellId>) -> Seq<(CellId, CellId, int)>
    decreases es.len(),
{
    if es.len() == 0 {
        Seq::empty()
    } else {
        let prev = product_list(es.drop_last(), k);
        match product_model(es.last()) {
            Some((y, x, r)) => if k.contains(x) {
                prev.push((x, y, r))
            } else {
                prev
            },
            None => prev,
        }
    }
}

/// The selector cells `x` of the product constraints, each once, in order of first appearance.
pub open spec fn selector_list(ps: Seq<(CellId, CellId, int)>) -> Seq<CellId>
    decreases ps.len(),
{
    if ps.len() == 0 {
        Seq::empty()
    } else {
        let prev = selector_list(ps.drop_last());
        if prev.contains(ps.last().0) {
            prev
        } else {
            prev.push(ps.last().0)
        }
    }
}

/// The product constraints give `y` the root `r` for selector `x`, and no other root.
pub open spec fn is_single_root(ps: Seq<(CellId, CellId, int)>, x: CellId, y: CellId, r: int) -> bool {
    &&& exists|i: int| 0 <= i < ps.len() && ps[i] == (x, y, r)
    &&& forall|i: int| 0 <= i < ps.len() && ps[i].0 == x && ps[i].1 == y ==> #[trigger] ps[i].2 == r
}

/// The one root that the product constraints give `y` for selector `x`, where they give it
/// at least once and never another.
pub open spec fn single_root(ps: Seq<(CellId, CellId, int)>, x: CellId, y: CellId) -> Option<int> {
    if exists|r: int| #[trigger] is_single_root(ps, x, y, r) {
        Some(choose|r: int| #[trigger] is_single_root(ps, x, y, r))
    } else {
        None
    }
}

/// The roots of the outputs of a sum for selector `x`: each output has a single root, and the
/// roots are distinct and lie in `0..n`, so they are exactly `0, ..., n-1`.
pub open spec fn roots_for_sum_model(ys: Seq<CellId>, ps: Seq<(CellId, CellId, int)>, x: CellId) -> Option<Seq<int>> {
    let n = ys.len();
    if (forall|j: int| 0 <= j < n ==> #[trigger] single_root(ps, x, ys[j]) is Some) && (forall|j: int|
        0 <= j < n ==> 0 <= #[trigger] single_root(ps, x, ys[j]).unwrap() < n) && (forall|j1: int, j2: int|
        0 <= j1 < j2 < n ==> #[trigger] single_root(ps, x, ys[j1]).unwrap() != #[trigger] single_root(ps, x, ys[j2]).unwrap()) {
        Some(Seq::new(n, |j: int| single_root(ps, x, ys[j]).unwrap()))
    } else {
        None
    }
}

/// The linear form of a zero equation: of its one meaningful factor where it has exactly one.
pub open spec fn zero_equation_lin(e: ExprModel, m: Map<CellId, Set<int>>) -> Option<LinearModel> {
    let fs = meaningful_factors(e);
    if fs.len() == 1 {
        lin_model(fs[0], m)
    } else {
        lin_model(e, m)
    }
}

/// The cells of the terms with a given coefficient, in order.
pub open spec fn signed_cells(ts: Seq<(CellId, int)>, sign: int) -> Seq<CellId>
    decreases ts.len(),
{
    if ts.len() == 0 {
        Seq::empty()
    } else {
        let prev = signed_cells(ts.drop_last(), sign);
        if ts.last().1 == sign {
            prev.push(ts.last().0)
        } else {
            prev
        }
    }
}

/// A sum `sum(y_i) = e` from the cells with coefficient `1` and `-1` and the constant:
/// the outputs, and the value of `e` where it is known. `e` is the constant, or a single cell
/// of the other sign that is in `K`.
pub open spec fn signed_sum_model(
    pos: Seq<CellId>,
    neg: Seq<CellId>,
    c: int,
    k: Set<CellId>,
    m: Map<CellId, Set<int>>,
) -> Option<(Seq<CellId>, Option<int>)> {
    if pos.len() >= 2 && neg.len() == 0 {
        Some((pos, bnd(-c)))
    } else if neg.len() >= 2 && pos.len() == 0 {
        Some((neg, bnd(c)))
    } else if pos.len() >= 2 && neg.len() == 1 {
        if !k.contains(neg[0]) {
            None
        } else {
            Some(
                (
                    pos,
                    match known_value_model(m, neg[0]) {
                        Some(v) => bnd(v - c),
                        None => None,
                    },
                ),
            )
        }
    } else if neg.len() >= 2 && pos.len() == 1 {
        if !k.contains(pos[0]) {
            None
        } else {
            Some(
                (
                    neg,
                    match known_value_model(m, pos[0]) {
                        Some(v) => bnd(v + c),
                        None => None,
                    },
                ),
            )
        }
    } else {
        None
    }
}

/// A sum constraint: a linear zero equation of at least two cells, all with coefficient `1`
/// or `-1`.
pub open spec fn sum_model(e: ExprModel, k: Set<CellId>, m: Map<CellId, Set<int>>) -> Option<(Seq<CellId>, Option<int>)> {
    match zero_equation_lin(e, m) {
        None => None,
        Some(l) => if l.terms.len() < 2 || exists|c: CellId|
            #[trigger] l.terms.dom().contains(c) && l.terms[c] != 1 && l.terms[c] != -1 {
            None
        } else {
            signed_sum_model(
                signed_cells(term_list(l), 1),
                signed_cells(term_list(l), -1),
                l.constant,
                k,
                m,
            )
        },
    }
}

/// The models of a list of expression references.
pub open spec fn ref_models(s: Seq<&UcpExpr>) -> Seq<ExprModel> {
    s.map_values(|x: &UcpExpr| x@)
}

/// Product constraints with their roots as values.
pub open spec fn product_view(v: Seq<(CellId, CellId, Integer)>) -> Seq<(CellId, CellId, int)> {
    v.map_values(|t: (CellId, CellId, Integer)| (t.0, t.1, t.2@))
}

fn collect_meaningful_product_factors<'a>(expr: &'a UcpExpr, factors: &mut Vec<&'a UcpExpr>)
    ensures
        ref_models(final(factors)@) == ref_models(old(factors)@) + meaningful_factors(expr@),
    decreases expr,
{
    let ghost before = ref_models(factors@);
    match expr {
        UcpExpr::Mul(left, right) => {
            collect_meaningful_product_factors(left, factors);
            collect_meaningful_product_factors(right, factors);
            proof {
                assert(before + meaningful_factors(left@) + meaningful_factors(right@) =~= before + (
                meaningful_factors(left@) + meaningful_factors(right@)));
            }
        },
        UcpExpr::Neg(inner) => collect_meaningful_product_factors(inner, factors),
        UcpExpr::Scale(inner, scalar) => {
            if scalar.is_statically_non_zero() {
                collect_meaningful_product_factors(inner, factors)
            } else if let UcpScalar::Zero = scalar {
                assert(ref_models(factors@) =~= before + Seq::<ExprModel>::empty());
            } else {
                let ghost b = factors@;
                factors.push(expr);
                assert(ref_models(factors@) =~= ref_models(b) + seq![expr@]);
            }
        },
        UcpExpr::Const(scalar) => {
            if let UcpScalar::Unknown = scalar {
                let ghost b = factors@;
                factors.push(expr);
                assert(ref_models(factors@) =~= ref_models(b) + seq![expr@]);
            } else {
                assert(ref_models(factors@) =~= before + Seq::<ExprModel>::empty());
            }
        },
        _ => {
            let ghost b = factors@;
            factors.push(expr);
            assert(ref_models(factors@) =~= ref_models(b) + seq![expr@]);
        },
    }
}

fn meaningful_product_factors(expr: &UcpExpr) -> (r: Vec<&UcpExpr>)
    ensures
        ref_models(r@) == meaningful_factors(expr@),
{
    let mut factors: Vec<&UcpExpr> = Vec::new();
    assert(ref_models(factors@) =~= Seq::<ExprModel>::empty());
    collect_meaningful_product_factors(expr, &mut factors);
    assert(Seq::<ExprModel>::empty() + meaningful_factors(expr@) =~= meaningful_factors(expr@));
    factors
}

fn parse_plain_var(expr: &UcpExpr) -> (r: Option<CellId>)
    ensures
        r == plain_var_model(expr@),
    decreases expr,
{
    match expr {
        UcpExpr::Var(cell) => Some(*cell),
        UcpExpr::Neg(inner) => parse_plain_var(inner),
        UcpExpr::Scale(inner, scalar) => {
            if scalar.is_statically_non_zero() {
                parse_plain_var(inner)
            } else {
                None
            }
        },
        _ => None,
    }
}

fn parse_product_pair(y_expr: &UcpExpr, root_expr: &UcpExpr) -> (r: Option<(CellId, CellId, Integer)>)
    ensures
        r matches Some(t) ==> product_pair_model(y_expr@, root_expr@) == Some((t.0, t.1, t.2@)),
        r is None ==> product_pair_model(y_expr@, root_expr@) is None,
{
    let y = match parse_plain_var(y_expr) {
        Some(y) => y,
        None => {
            return None;
        },
    };
    let empty = UcpValueFacts::new();
    match factor_root(root_expr, &empty) {
        Some((x, root)) => Some((y, x, root)),
        None => None,
    }
}

fn parse_product_constraint(expr: &UcpExpr) -> (r: Option<(CellId, CellId, Integer)>)
    ensures
        r matches Some(t) ==> product_model(expr@) == Some((t.0, t.1, t.2@)),
        r is None ==> product_model(expr@) is None,
{
    let factors = meaningful_product_factors(expr);
    if factors.len() != 2 {
        return None;
    }
    proof {
        assert(ref_models(factors@)[0] == factors@[0]@);
        assert(ref_models(factors@)[1] == factors@[1]@);
    }
    match parse_product_pair(factors[0], factors[1]) {
        Some(t) => Some(t),
        None => parse_product_pair(factors[1], factors[0]),
    }
}

/// The product constraints whose selector is in `K`, in order, as `(x, y, root)`.
fn collect_product_constraints(expressions: &[UcpExpr], facts: &UcpFacts) -> (r: Vec<(CellId, CellId, Integer)>)
    ensures
        product_view(r@) == product_list(exprs_model(expressions@), facts@),
{
    let ghost es = exprs_model(expressions@);
    let mut out: Vec<(CellId, CellId, Integer)> = Vec::new();
    let mut i: usize = 0;
    proof {
        assert(product_view(out@) =~= product_list(es.subrange(0, 0), facts@));
    }
    while i < expressions.len()
        invariant
            es == exprs_model(expressions@),
            i <= expressions@.len(),
            product_view(out@) == product_list(es.subrange(0, i as int), facts@),
        decreases expressions@.len() - i,
    {
        let ghost before = out@;
        proof {
            let pre = es.subrange(0, i + 1);
            assert(pre.drop_last() =~= es.subrange(0, i as int));
            assert(pre.last() == expressions@[i as int]@);
        }
        match parse_product_constraint(&expressions[i]) {
            Some((y, x, root)) => {
                if facts.is_unique(&x) {
                    let ghost rv = root@;
                    out.push((x, y, root));
                    proof {
                        assert(product_view(out@) =~= product_view(before).push((x, y, rv)));
                    }
                }
            },
            None => {},
        }
        i = i + 1;
    }
    proof {
        assert(es.subrange(0, expressions@.len() as int) =~= es);
    }
    out
}

/// The meaningful factors of a product refer to cells of the product.
proof fn lemma_meaningful_factor_cells(e: ExprModel, i: int)
    requires
        0 <= i < meaningful_factors(e).len(),
    ensures
        expr_cells(meaningful_factors(e)[i]).subset_of(expr_cells(e)),
    decreases e,
{
    match e {
        ExprModel::Mul(l, r) => {
            let a = meaningful_factors(*l);
            let b = meaningful_factors(*r);
            assert(meaningful_factors(e) == a + b);
            if i < a.len() {
                lemma_meaningful_factor_cells(*l, i);
                assert((a + b)[i] == a[i]);
            } else {
                lemma_meaningful_factor_cells(*r, i - a.len());
                assert((a + b)[i] == b[i - a.len()]);
            }
        },
        ExprModel::Neg(inner) => lemma_meaningful_factor_cells(*inner, i),
        ExprModel::Scale(inner, s) => {
            if s is NonZero || s is Known {
                lemma_meaningful_factor_cells(*inner, i);
            }
        },
        _ => {},
    }
}

pub(crate) fn linearize_zero_equation(expr: &UcpExpr, values: &UcpValueFacts) -> (r: Option<LinearExpr>)
    requires
        values.wf(),
    ensures
        r matches Some(l) ==> l.wf() && zero_equation_lin(expr@, values@) == Some(l@) && l@.terms.dom().subset_of(
            expr_cells(expr@),
        ),
        r is None ==> zero_equation_lin(expr@, values@) is None,
{
    let factors = meaningful_product_factors(expr);
    if factors.len() == 1 {
        proof {
            assert(ref_models(factors@)[0] == factors@[0]@);
            lemma_meaningful_factor_cells(expr@, 0);
            lemma_lin_cells(factors@[0]@, values@);
        }
        return linearize(factors[0], values);
    }
    proof {
        lemma_lin_cells(expr@, values@);
    }
    linearize(expr, values)
}

/// The value of an optional integer.
pub open spec fn opt_int(v: Option<Integer>) -> Option<int> {
    match v {
        Some(x) => Some(x@),
        None => None,
    }
}

fn bounded(value: Integer) -> (r: Option<Integer>)
    ensures
        opt_int(r) == bnd(value@),
{
    if crate::integer::int_in_i64_range(&value) {
        Some(value)
    } else {
        None
    }
}

fn sum_from_signed_terms(
    positive: Vec<CellId>,
    negative: Vec<CellId>,
    constant: &Integer,
    facts: &UcpFacts,
    values: &UcpValueFacts,
) -> (r: Option<(Vec<CellId>, Option<Integer>)>)
    requires
        values.wf(),
    ensures
        r matches Some(t) ==> signed_sum_model(positive@, negative@, constant@, facts@, values@) == Some(
            (t.0@, opt_int(t.1)),
        ),
        r is None ==> signed_sum_model(positive@, negative@, constant@, facts@, values@) is None,
        r matches Some(t) ==> t.0@ == positive@ || t.0@ == negative@,
{
    if positive.len() >= 2 && negative.len() == 0 {
        return Some((positive, bounded(constant.neg())));
    }
    if negative.len() >= 2 && positive.len() == 0 {
        return Some((negative, bounded(constant.clone())));
    }
    if positive.len() >= 2 && negative.len() == 1 {
        let e = negative[0];
        if !facts.is_unique(&e) {
            return None;
        }
        let e_value = match values.known_value(&e) {
            Some(v) => bounded(int_sub(v, constant)),
            None => None,
        };
        return Some((positive, e_value));
    }
    if negative.len() >= 2 && positive.len() == 1 {
        let e = positive[0];
        if !facts.is_unique(&e) {
            return None;
        }
        let e_value = match values.known_value(&e) {
            Some(v) => bounded(int_add(v, constant)),
            None => None,
        };
        return Some((negative, e_value));
    }
    None
}

fn parse_sum_constraint(expr: &UcpExpr, facts: &UcpFacts, values: &UcpValueFacts) -> (r: Option<
    (Vec<CellId>, Option<Integer>),
>)
    requires
        values.wf(),
    ensures
        r matches Some(t) ==> sum_model(expr@, facts@, values@) == Some((t.0@, opt_int(t.1))),
        r is None ==> sum_model(expr@, facts@, values@) is None,
        r matches Some(t) ==> forall|j: int| 0 <= j < t.0@.len() ==> expr_cells(expr@).contains(#[trigger] t.0@[j]),
{
    let linear = match linearize_zero_equation(expr, values) {
        Some(l) => l,
        None => {
            return None;
        },
    };
    if linear.num_terms() < 2 {
        return None;
    }
    let ghost terms = term_list(linear@);
    proof {
        linear.lemma_term_list();
        linear.lemma_wf();
    }
    let entries = linear.entries();
    let one = Integer::one();
    let minus_one = Integer::from_i64(-1);
    let mut positive: Vec<CellId> = Vec::new();
    let mut negative: Vec<CellId> = Vec::new();
    let mut i: usize = 0;
    proof {
        assert(terms.subrange(0, 0) =~= Seq::<(CellId, int)>::empty());
    }
    while i < entries.len()
        invariant
            terms == int_entries(entries@),
            terms == term_list(linear@),
            sorted_terms_of(terms, linear@.terms),
            linear@.terms.dom().subset_of(expr_cells(expr@)),
            zero_equation_lin(expr@, values@) == Some(linear@),
            one@ == 1,
            minus_one@ == -1,
            i <= entries@.len(),
            forall|j: int| 0 <= j < i ==> terms[j].1 == 1 || terms[j].1 == -1,
            positive@ == signed_cells(terms.subrange(0, i as int), 1),
            negative@ == signed_cells(terms.subrange(0, i as int), -1),
            forall|j: int| 0 <= j < positive@.len() ==> expr_cells(expr@).contains(#[trigger] positive@[j]),
            forall|j: int| 0 <= j < negative@.len() ==> expr_cells(expr@).contains(#[trigger] negative@[j]),
        decreases entries@.len() - i,
    {
        let entry = &entries[i];
        proof {
            let pre = terms.subrange(0, i + 1);
            assert(pre.drop_last() =~= terms.subrange(0, i as int));
            assert(pre.last() == (entry.0, entry.1@));
            assert(terms[i as int] == (entry.0, entry.1@));
            assert(linear@.terms.dom().contains(entry.0));
        }
        if int_eq(&entry.1, &one) {
            positive.push(entry.0);
        } else if int_eq(&entry.1, &minus_one) {
            negative.push(entry.0);
        } else {
            proof {
                assert(linear@.terms.dom().contains(terms[i as int].0));
                assert(linear@.terms[terms[i as int].0] == terms[i as int].1);
                assert(entry.1@ != 1 && entry.1@ != -1);
                let c = terms[i as int].0;
                assert(linear@.terms.dom().contains(c) && linear@.terms[c] != 1 && linear@.terms[c] != -1);
                assert(zero_equation_lin(expr@, values@) == Some(linear@));
            }
            return None;
        }
        i = i + 1;
    }
    proof {
        assert(terms.subrange(0, entries@.len() as int) =~= terms);
        assert forall|c: CellId| #[trigger] linear@.terms.dom().contains(c) implies !(linear@.terms[c] != 1
            && linear@.terms[c] != -1) by {
            let j = choose|j: int| 0 <= j < terms.len() && terms[j].0 == c;
        }
    }
    sum_from_signed_terms(positive, negative, linear.constant_value(), facts, values)
}

/// The sum of a list of integers.
pub open spec fn int_sum(s: Seq<int>) -> int
    decreases s.len(),
{
    if s.len() == 0 {
        0
    } else {
        int_sum(s.drop_last()) + s.last()
    }
}

/// A list whose entries are all zero but possibly the one at `j0` sums to that entry; one
/// whose entries are all zero sums to zero.
pub proof fn lemma_sum_of_single(s: Seq<int>, j0: int)
    requires
        forall|j: int| 0 <= j < s.len() && j != j0 ==> #[trigger] s[j] == 0,
    ensures
        0 <= j0 < s.len() ==> int_sum(s) == s[j0],
        !(0 <= j0 < s.len()) ==> int_sum(s) == 0,
    decreases s.len(),
{
    if s.len() > 0 {
        let t = s.drop_last();
        assert forall|j: int| 0 <= j < t.len() && j != j0 implies #[trigger] t[j] == 0 by {
            assert(t[j] == s[j]);
        }
        lemma_sum_of_single(t, j0);
    }
}

/// The All-But-One-0 rule is sound: where outputs `y_j` with distinct roots `r_j` meet
/// `y_j * (x - r_j) = 0` and `sum(y_j) = e`, the output whose root is `x` equals `e` and every
/// other output is zero.
pub proof fn lemma_all_but_one_values(ys: Seq<int>, roots: Seq<int>, xv: int, ev: int)
    requires
        ys.len() == roots.len(),
        forall|j1: int, j2: int| 0 <= j1 < j2 < roots.len() ==> #[trigger] roots[j1] != #[trigger] roots[j2],
        forall|j: int| 0 <= j < ys.len() ==> #[trigger] ys[j] * (xv - roots[j]) == 0,
        int_sum(ys) == ev,
    ensures
        forall|j: int| 0 <= j < ys.len() ==> #[trigger] ys[j] == (if roots[j] == xv {
            ev
        } else {
            0
        }),
{
    assert forall|j: int| 0 <= j < ys.len() && roots[j] != xv implies #[trigger] ys[j] == 0 by {
        let y = ys[j];
        let d = xv - roots[j];
        assert(y * d == 0);
        assert(y == 0) by (nonlinear_arith)
            requires
                y * d == 0,
                d != 0,
        ;
    }
    if exists|j: int| 0 <= j < roots.len() && roots[j] == xv {
        let j0 = choose|j: int| 0 <= j < roots.len() && roots[j] == xv;
        assert forall|j: int| 0 <= j < ys.len() && j != j0 implies #[trigger] ys[j] == 0 by {
            if j < j0 {
                assert(roots[j] != roots[j0]);
            } else {
                assert(roots[j0] != roots[j]);
            }
        }
        lemma_sum_of_single(ys, j0);
        assert forall|j: int| 0 <= j < ys.len() implies #[trigger] ys[j] == (if roots[j] == xv {
            ev
        } else {
            0
        }) by {
            if roots[j] == xv && j != j0 {
                if j < j0 {
                    assert(roots[j] != roots[j0]);
                } else {
                    assert(roots[j0] != roots[j]);
                }
            }
        }
    } else {
        lemma_sum_of_single(ys, -1);
    }
}

/// The value that the rule gives an output: where `x` is known, `e` for the output whose root
/// is `x`, and zero for the others.
pub open spec fn candidate_value(m: Map<CellId, Set<int>>, x: CellId, root: int, e_value: Option<int>) -> Option<int> {
    match known_value_model(m, x) {
        None => None,
        Some(xv) => if root == xv {
            e_value
        } else {
            Some(0)
        },
    }
}

/// The outputs of one sum with their values, for each selector in turn that fits it.
pub open spec fn sum_candidates(
    ys: Seq<CellId>,
    e_value: Option<int>,
    xs: Seq<CellId>,
    ps: Seq<(CellId, CellId, int)>,
    m: Map<CellId, Set<int>>,
) -> Seq<(CellId, Option<int>)>
    decreases xs.len(),
{
    if xs.len() == 0 {
        Seq::empty()
    } else {
        let prev = sum_candidates(ys, e_value, xs.drop_last(), ps, m);
        let x = xs.last();
        match roots_for_sum_model(ys, ps, x) {
            Some(rs) => prev + Seq::new(ys.len(), |j: int| (ys[j], candidate_value(m, x, rs[j], e_value))),
            None => prev,
        }
    }
}

/// The sum constraints, in the order of the equations.
pub open spec fn sum_list(es: Seq<ExprModel>, k: Set<CellId>, m: Map<CellId, Set<int>>) -> Seq<(Seq<CellId>, Option<int>)>
    decreases es.len(),
{
    if es.len() == 0 {
        Seq::empty()
    } else {
        let prev = sum_list(es.drop_last(), k, m);
        match sum_model(es.last(), k, m) {
            Some(t) => prev.push(t),
            None => prev,
        }
    }
}

/// The outputs with their values, for each sum in turn.
pub open spec fn all_candidates(
    sums: Seq<(Seq<CellId>, Option<int>)>,
    xs: Seq<CellId>,
    ps: Seq<(CellId, CellId, int)>,
    m: Map<CellId, Set<int>>,
) -> Seq<(CellId, Option<int>)>
    decreases sums.len(),
{
    if sums.len() == 0 {
        Seq::empty()
    } else {
        all_candidates(sums.drop_last(), xs, ps, m) + sum_candidates(sums.last().0, sums.last().1, xs, ps, m)
    }
}

/// Everything the rule finds, in the order it finds it.
pub open spec fn abo_candidates(es: Seq<ExprModel>, k: Set<CellId>, m: Map<CellId, Set<int>>) -> Seq<(CellId, Option<int>)> {
    let ps = product_list(es, k);
    all_candidates(sum_list(es, k, m), selector_list(ps), ps, m)
}

/// Each cell with the first value found for it, added to `m0`'s cells.
pub open spec fn first_values_from(m0: Map<CellId, Option<int>>, cs: Seq<(CellId, Option<int>)>) -> Map<CellId, Option<int>>
    decreases cs.len(),
{
    if cs.len() == 0 {
        m0
    } else {
        let m = first_values_from(m0, cs.drop_last());
        if m.dom().contains(cs.last().0) {
            m
        } else {
            m.insert(cs.last().0, cs.last().1)
        }
    }
}

pub proof fn lemma_first_values_concat(m0: Map<CellId, Option<int>>, a: Seq<(CellId, Option<int>)>, b: Seq<(CellId, Option<int>)>)
    ensures
        first_values_from(m0, a + b) == first_values_from(first_values_from(m0, a), b),
    decreases b.len(),
{
    if b.len() == 0 {
        assert(a + b =~= a);
    } else {
        lemma_first_values_concat(m0, a, b.drop_last());
        assert((a + b).drop_last() =~= a + b.drop_last());
        assert((a + b).last() == b.last());
    }
}

/// A found value of an inference, as a map value.
pub(crate) struct FoundValue {
    pub(crate) value: Option<Integer>,
}

impl View for FoundValue {
    type V = Option<int>;

    closed spec fn view(&self) -> Option<int> {
        opt_int(self.value)
    }
}

fn single_root_of(ps: &Vec<(CellId, CellId, Integer)>, x: &CellId, y: &CellId) -> (r: Option<Integer>)
    ensures
        opt_int(r) == single_root(product_view(ps@), *x, *y),
{
    let ghost pv = product_view(ps@);
    let mut found: Option<Integer> = None;
    let ghost mut first: int = -1;
    let mut i: usize = 0;
    while i < ps.len()
        invariant
            pv == product_view(ps@),
            i <= ps@.len(),
            found is None ==> forall|j: int| 0 <= j < i ==> !(pv[j].0 == *x && pv[j].1 == *y),
            found matches Some(f) ==> 0 <= first < i && pv[first] == (*x, *y, f@) && forall|j: int|
                0 <= j < i && pv[j].0 == *x && pv[j].1 == *y ==> #[trigger] pv[j].2 == f@,
        decreases ps@.len() - i,
    {
        proof {
            assert(pv[i as int] == (ps@[i as int].0, ps@[i as int].1, ps@[i as int].2@));
        }
        if ps[i].0 == *x && ps[i].1 == *y {
            match &found {
                None => {
                    found = Some(ps[i].2.clone());
                    proof {
                        first = i as int;
                    }
                },
                Some(f) => {
                    if !int_eq(f, &ps[i].2) {
                        proof {
                            assert forall|r: int| !is_single_root(pv, *x, *y, r) by {
                                if is_single_root(pv, *x, *y, r) {
                                    assert(pv[first].2 == r);
                                    assert(pv[i as int].2 == r);
                                }
                            }
                        }
                        return None;
                    }
                },
            }
        }
        i = i + 1;
    }
    proof {
        match &found {
            Some(f) => {
                assert(is_single_root(pv, *x, *y, f@));
                let r = choose|r: int| #[trigger] is_single_root(pv, *x, *y, r);
                let j = choose|j: int| 0 <= j < pv.len() && pv[j] == (*x, *y, r);
                assert(pv[j].2 == f@);
            },
            None => {
                assert forall|r: int| !is_single_root(pv, *x, *y, r) by {
                    if is_single_root(pv, *x, *y, r) {
                        let j = choose|j: int| 0 <= j < pv.len() && pv[j] == (*x, *y, r);
                    }
                }
            },
        }
    }
    found
}

fn roots_for_sum(ys: &Vec<CellId>, ps: &Vec<(CellId, CellId, Integer)>, x: &CellId) -> (r: Option<Vec<Integer>>)
    ensures
        r matches Some(rs) ==> roots_for_sum_model(ys@, product_view(ps@), *x) == Some(int_seq(rs@)),
        r is None ==> roots_for_sum_model(ys@, product_view(ps@), *x) is None,
{
    let ghost pv = product_view(ps@);
    let ghost n = ys@.len() as int;
    let count = Integer::from_u64(ys.len() as u64);
    let zero = Integer::zero();
    let mut roots: Vec<Integer> = Vec::new();
    let mut j: usize = 0;
    while j < ys.len()
        invariant
            pv == product_view(ps@),
            n == ys@.len(),
            count@ == n,
            zero@ == 0,
            j <= ys@.len(),
            roots@.len() == j,
            forall|k: int| 0 <= k < j ==> #[trigger] single_root(pv, *x, ys@[k]) is Some,
            forall|k: int| 0 <= k < j ==> roots@[k]@ == #[trigger] single_root(pv, *x, ys@[k]).unwrap(),
            forall|k: int| 0 <= k < j ==> 0 <= #[trigger] roots@[k]@ < n,
            forall|k1: int, k2: int| 0 <= k1 < k2 < j ==> #[trigger] roots@[k1]@ != #[trigger] roots@[k2]@,
        decreases ys@.len() - j,
    {
        let r = match single_root_of(ps, x, &ys[j]) {
            Some(r) => r,
            None => {
                proof {
                    assert(single_root(pv, *x, ys@[j as int]) is None);
                }
                return None;
            },
        };
        if !(int_le(&zero, &r) && int_lt(&r, &count)) {
            proof {
                assert(single_root(pv, *x, ys@[j as int]) is Some);
                assert(!(0 <= single_root(pv, *x, ys@[j as int]).unwrap() < n));
            }
            return None;
        }
        if contains_value(&roots, &r) {
            proof {
                let k = choose|k: int| 0 <= k < int_seq(roots@).len() && int_seq(roots@)[k] == r@;
                assert(roots@[k]@ == r@);
                assert(single_root(pv, *x, ys@[k]).unwrap() == single_root(pv, *x, ys@[j as int]).unwrap());
                assert(single_root(pv, *x, ys@[j as int]) is Some);
            }
            return None;
        }
        let ghost before = roots@;
        roots.push(r);
        proof {
            assert forall|k1: int, k2: int| 0 <= k1 < k2 < j + 1 implies #[trigger] roots@[k1]@ != #[trigger] roots@[k2]@ by {
                if k2 == j {
                    assert(int_seq(before)[k1] == before[k1]@);
                    assert(!ints_of(before).contains(r@));
                    assert(int_seq(before).contains(before[k1]@));
                }
            }
        }
        j = j + 1;
    }
    proof {
        assert(int_seq(roots@) =~= Seq::new(ys@.len(), |k: int| single_root(pv, *x, ys@[k]).unwrap()));
    }
    Some(roots)
}

/// A found value views as its optional value.
pub(crate) proof fn lemma_found_view(f: FoundValue)
    ensures
        f@ == opt_int(f.value),
{
}

pub(crate) fn clone_found(v: &Option<Integer>) -> (r: Option<Integer>)
    ensures
        opt_int(r) == opt_int(*v),
{
    match v {
        Some(x) => Some(x.clone()),
        None => None,
    }
}

/// Adds the outputs of one sum for each selector that fits it, keeping first values.
fn add_sum_candidates(
    map: &mut CellMap<FoundValue>,
    ys: &Vec<CellId>,
    e_value: &Option<Integer>,
    xs: &Vec<CellId>,
    ps: &Vec<(CellId, CellId, Integer)>,
    values: &UcpValueFacts,
    cells: Ghost<Set<CellId>>,
)
    requires
        old(map).wf(),
        values.wf(),
        forall|j: int| 0 <= j < ys@.len() ==> cells@.contains(#[trigger] ys@[j]),
        forall|c: CellId| #[trigger] old(map)@.dom().contains(c) ==> cells@.contains(c),
    ensures
        final(map).wf(),
        final(map)@ == first_values_from(old(map)@, sum_candidates(ys@, opt_int(*e_value), xs@, product_view(ps@), values@)),
        forall|c: CellId| #[trigger] final(map)@.dom().contains(c) ==> cells@.contains(c),
{
    let ghost m0 = map@;
    let ghost pv = product_view(ps@);
    let ghost ev = opt_int(*e_value);
    let mut b: usize = 0;
    proof {
        assert(xs@.subrange(0, 0) =~= Seq::<CellId>::empty());
    }
    while b < xs.len()
        invariant
            map.wf(),
            values.wf(),
            pv == product_view(ps@),
            ev == opt_int(*e_value),
            b <= xs@.len(),
            forall|j: int| 0 <= j < ys@.len() ==> cells@.contains(#[trigger] ys@[j]),
            forall|c: CellId| #[trigger] map@.dom().contains(c) ==> cells@.contains(c),
            map@ == first_values_from(m0, sum_candidates(ys@, ev, xs@.subrange(0, b as int), pv, values@)),
        decreases xs@.len() - b,
    {
        let x = &xs[b];
        let ghost mb = map@;
        proof {
            let pre = xs@.subrange(0, b + 1);
            assert(pre.drop_last() =~= xs@.subrange(0, b as int));
            assert(pre.last() == *x);
        }
        match roots_for_sum(ys, ps, x) {
            Some(rs) => {
                let ghost block = Seq::new(ys@.len(), |j: int| (ys@[j], candidate_value(values@, *x, int_seq(rs@)[j], ev)));
                let x_value = values.known_value(x);
                let mut j: usize = 0;
                proof {
                    assert(block.subrange(0, 0) =~= Seq::<(CellId, Option<int>)>::empty());
                    assert(roots_for_sum_model(ys@, pv, *x) == Some(int_seq(rs@)));
                    assert(int_seq(rs@).len() == ys@.len());
                }
                while j < ys.len()
                    invariant
                        map.wf(),
                        values.wf(),
                        j <= ys@.len(),
                        rs@.len() == ys@.len(),
                        block == Seq::new(ys@.len(), |j: int| (ys@[j], candidate_value(values@, *x, int_seq(rs@)[j], ev))),
                        x_value matches Some(v) ==> known_value_model(values@, *x) == Some(v@),
                        x_value is None ==> known_value_model(values@, *x) is None,
                        ev == opt_int(*e_value),
                        forall|j: int| 0 <= j < ys@.len() ==> cells@.contains(#[trigger] ys@[j]),
                        forall|c: CellId| #[trigger] map@.dom().contains(c) ==> cells@.contains(c),
                        map@ == first_values_from(mb, block.subrange(0, j as int)),
                    decreases ys@.len() - j,
                {
                    let value = match x_value {
                        None => None,
                        Some(xv) => {
                            if int_eq(&rs[j], xv) {
                                clone_found(e_value)
                            } else {
                                Some(Integer::zero())
                            }
                        },
                    };
                    proof {
                        let pre = block.subrange(0, j + 1);
                        assert(pre.drop_last() =~= block.subrange(0, j as int));
                        assert(int_seq(rs@)[j as int] == rs@[j as int]@);
                        assert(pre.last() == (ys@[j as int], opt_int(value)));
                    }
                    match map.get(&ys[j]) {
                        Some(_) => {},
                        None => {
                            map.insert(ys[j], FoundValue { value });
                        },
                    }
                    j = j + 1;
                }
                proof {
                    assert(block.subrange(0, ys@.len() as int) =~= block);
                    lemma_first_values_concat(m0, sum_candidates(ys@, ev, xs@.subrange(0, b as int), pv, values@), block);
                }
            },
            None => {},
        }
        b = b + 1;
    }
    proof {
        assert(xs@.subrange(0, xs@.len() as int) =~= xs@);
    }
}

fn selectors(ps: &Vec<(CellId, CellId, Integer)>) -> (r: Vec<CellId>)
    ensures
        r@ == selector_list(product_view(ps@)),
{
    let ghost pv = product_view(ps@);
    let mut out: Vec<CellId> = Vec::new();
    let mut i: usize = 0;
    proof {
        assert(pv.subrange(0, 0) =~= Seq::<(CellId, CellId, int)>::empty());
    }
    while i < ps.len()
        invariant
            pv == product_view(ps@),
            i <= ps@.len(),
            out@ == selector_list(pv.subrange(0, i as int)),
        decreases ps@.len() - i,
    {
        proof {
            let pre = pv.subrange(0, i + 1);
            assert(pre.drop_last() =~= pv.subrange(0, i as int));
            assert(pre.last().0 == ps@[i as int].0);
        }
        let x = ps[i].0;
        let mut k: usize = 0;
        let mut present = false;
        while k < out.len()
            invariant
                k <= out@.len(),
                present == (exists|j: int| 0 <= j < k && out@[j] == x),
            decreases out@.len() - k,
        {
            if out[k] == x {
                present = true;
            }
            k = k + 1;
        }
        if !present {
            out.push(x);
        }
        i = i + 1;
    }
    proof {
        assert(pv.subrange(0, ps@.len() as int) =~= pv);
    }
    out
}

/// The outputs and `e` values of a list of sums.
pub open spec fn sums_view(v: Seq<(Vec<CellId>, Option<Integer>)>) -> Seq<(Seq<CellId>, Option<int>)> {
    v.map_values(|t: (Vec<CellId>, Option<Integer>)| (t.0@, opt_int(t.1)))
}

fn collect_sum_constraints(expressions: &[UcpExpr], facts: &UcpFacts, values: &UcpValueFacts) -> (r: Vec<
    (Vec<CellId>, Option<Integer>),
>)
    requires
        values.wf(),
    ensures
        sums_view(r@) == sum_list(exprs_model(expressions@), facts@, values@),
        forall|i: int, j: int|
            0 <= i < r@.len() && 0 <= j < r@[i].0@.len() ==> exprs_cells(exprs_model(expressions@)).contains(
                #[trigger] r@[i].0@[j],
            ),
{
    let ghost es = exprs_model(expressions@);
    let mut out: Vec<(Vec<CellId>, Option<Integer>)> = Vec::new();
    let mut i: usize = 0;
    proof {
        assert(sums_view(out@) =~= sum_list(es.subrange(0, 0), facts@, values@));
    }
    while i < expressions.len()
        invariant
            values.wf(),
            es == exprs_model(expressions@),
            i <= expressions@.len(),
            sums_view(out@) == sum_list(es.subrange(0, i as int), facts@, values@),
            forall|a: int, j: int|
                0 <= a < out@.len() && 0 <= j < out@[a].0@.len() ==> exprs_cells(es).contains(#[trigger] out@[a].0@[j]),
        decreases expressions@.len() - i,
    {
        let ghost before = out@;
        proof {
            let pre = es.subrange(0, i + 1);
            assert(pre.drop_last() =~= es.subrange(0, i as int));
            assert(pre.last() == expressions@[i as int]@);
            assert(es[i as int] == expressions@[i as int]@);
        }
        match parse_sum_constraint(&expressions[i], facts, values) {
            Some(t) => {
                let ghost tv = (t.0@, opt_int(t.1));
                proof {
                    assert forall|j: int| 0 <= j < t.0@.len() implies exprs_cells(es).contains(#[trigger] t.0@[j]) by {
                        assert(expr_cells(es[i as int]).contains(t.0@[j]));
                    }
                }
                out.push(t);
                proof {
                    assert(sums_view(out@) =~= sums_view(before).push(tv));
                    assert forall|a: int, j: int| 0 <= a < out@.len() && 0 <= j < out@[a].0@.len() implies exprs_cells(es).contains(#[trigger] out@[a].0@[j]) by {
                        if a < before.len() {
                            assert(out@[a] == before[a]);
                        }
                    }
                }
            },
            None => {},
        }
        i = i + 1;
    }
    proof {
        assert(es.subrange(0, expressions@.len() as int) =~= es);
    }
    out
}

/// Runs the rule over all zero equations: the outputs it proves unique, in cell order, each
/// with the value of the first match (in the order of the sums, then of the selectors).
pub fn infer_all_but_one_zero(expressions: &[UcpExpr], facts: &UcpFacts, values: &UcpValueFacts) -> (r: Vec<
    AllButOneInference,
>)
    requires
        values.wf(),
    ensures
        sorted_cells(r@.map_values(|x: AllButOneInference| x.cell)),
        forall|i: int|
            0 <= i < r@.len() ==> first_values_from(
                Map::empty(),
                abo_candidates(exprs_model(expressions@), facts@, values@),
            ).dom().contains(#[trigger] r@[i].cell) && first_values_from(
                Map::empty(),
                abo_candidates(exprs_model(expressions@), facts@, values@),
            )[r@[i].cell] == opt_int(r@[i].value),
        forall|c: CellId|
            #[trigger] first_values_from(Map::empty(), abo_candidates(exprs_model(expressions@), facts@, values@)).dom().contains(c)
                ==> exists|i: int| 0 <= i < r@.len() && r@[i].cell == c,
        forall|i: int| 0 <= i < r@.len() ==> exprs_cells(exprs_model(expressions@)).contains(#[trigger] r@[i].cell),
{
    let ghost es = exprs_model(expressions@);
    let ghost cells = exprs_cells(es);
    let products = collect_product_constraints(expressions, facts);
    let ghost pv = product_view(products@);
    let xs = selectors(&products);
    let sums = collect_sum_constraints(expressions, facts, values);
    let ghost sv = sums_view(sums@);
    let mut map: CellMap<FoundValue> = CellMap::new();
    let mut a: usize = 0;
    proof {
        assert(sv.subrange(0, 0) =~= Seq::<(Seq<CellId>, Option<int>)>::empty());
    }
    while a < sums.len()
        invariant
            map.wf(),
            values.wf(),
            es == exprs_model(expressions@),
            cells == exprs_cells(es),
            pv == product_view(products@),
            pv == product_list(es, facts@),
            xs@ == selector_list(pv),
            sv == sums_view(sums@),
            a <= sums@.len(),
            forall|i: int, j: int|
                0 <= i < sums@.len() && 0 <= j < sums@[i].0@.len() ==> cells.contains(#[trigger] sums@[i].0@[j]),
            forall|c: CellId| #[trigger] map@.dom().contains(c) ==> cells.contains(c),
            map@ == first_values_from(Map::empty(), all_candidates(sv.subrange(0, a as int), xs@, pv, values@)),
        decreases sums@.len() - a,
    {
        let sum = &sums[a];
        proof {
            let pre = sv.subrange(0, a + 1);
            assert(pre.drop_last() =~= sv.subrange(0, a as int));
            assert(pre.last() == (sum.0@, opt_int(sum.1)));
            lemma_first_values_concat(
                Map::empty(),
                all_candidates(sv.subrange(0, a as int), xs@, pv, values@),
                sum_candidates(sum.0@, opt_int(sum.1), xs@, pv, values@),
            );
            assert forall|j: int| 0 <= j < sum.0@.len() implies cells.contains(#[trigger] sum.0@[j]) by {
                assert(cells.contains(sums@[a as int].0@[j]));
            }
        }
        add_sum_candidates(&mut map, &sum.0, &sum.1, &xs, &products, values, Ghost(cells));
        a = a + 1;
    }
    proof {
        assert(sv.subrange(0, sums@.len() as int) =~= sv);
        assert(sv == sum_list(es, facts@, values@));
        map.lemma_wf();
    }
    let entries = map.entries();
    let mut out: Vec<AllButOneInference> = Vec::new();
    let mut i: usize = 0;
    while i < entries.len()
        invariant
            map.wf(),
            entries@ == map.entries_view(),
            sorted_cells(entry_keys(entries@)),
            forall|k: int|
                0 <= k < entries@.len() ==> #[trigger] map@.dom().contains(entries@[k].0) && map@[entries@[k].0] == entries@[k].1@,
            forall|c: CellId| #[trigger] map@.dom().contains(c) ==> cells.contains(c),
            i <= entries@.len(),
            out@.len() == i,
            forall|k: int| 0 <= k < i ==> #[trigger] out@[k].cell == entries@[k].0 && opt_int(out@[k].value) == entries@[k].1@,
        decreases entries@.len() - i,
    {
        let entry = &entries[i];
        let value = clone_found(&entry.1.value);
        out.push(AllButOneInference { cell: entry.0, value });
        proof {
            assert(opt_int(entry.1.value) == entry.1@);
        }
        i = i + 1;
    }
    proof {
        assert(out@.map_values(|x: AllButOneInference| x.cell) =~= entry_keys(entries@));
        assert forall|c: CellId| #[trigger] map@.dom().contains(c) implies exists|k: int| 0 <= k < out@.len() && out@[k].cell == c by {
            let k = choose|k: int| 0 <= k < entries@.len() && entries@[k].0 == c;
            assert(out@[k].cell == c);
        }
        assert forall|k: int| 0 <= k < out@.len() implies cells.contains(#[trigger] out@[k].cell) by {
            assert(map@.dom().contains(entries@[k].0));
        }
        let fv = first_values_from(Map::empty(), abo_candidates(es, facts@, values@));
        assert(map@ == fv);
        assert forall|k: int| 0 <= k < out@.len() implies fv.dom().contains(#[trigger] out@[k].cell) && fv[out@[k].cell]
            == opt_int(out@[k].value) by {
            assert(out@[k].cell == entries@[k].0 && opt_int(out@[k].value) == entries@[k].1@);
            assert(map@.dom().contains(entries@[k].0) && map@[entries@[k].0] == entries@[k].1@);
        }
    }
    out
}

} // verus!
