//! Value inference over `Delta`: evaluation of expressions, their zero/non-zero kind,
//! linear forms, finite expression domains, and the rules that learn cell domains from
//! zero equations.
use crate::cell::{ascii_chars, cell_name_bytes, decimal_bytes, kind_letter, signed_decimal_bytes, CellId, CellKind};
use crate::domain::{
    domain_kind_model, known_value_model, mark_domain_model, UcpValueDomain, UcpValueFacts, ValueKind,
};
use crate::expr::{expr_cells, scalar_value, ExprModel, ScalarModel, UcpExpr, UcpScalar};
use crate::integer::{
    in_i64_range, int_add, int_div, int_eq, int_in_i64_range, int_mul, int_rem, trunc_div, trunc_rem,
    Integer,
};
use crate::field::{is_mod_inverse, lemma_inverse_unique, mod_inverse, normalize_model, normalize_value, opt_view};
use crate::domain::{contains_value, domain_valid, domain_values_model, insert_sorted, int_seq, ints_of, lemma_domain_valid, lemma_push_set, lemma_sorted_set_len, sorted_ints};
use crate::linear::{int_entries, term_list, lin_add, lin_const, lin_scale, lin_term, LinearExpr, LinearModel};
use vstd::prelude::*;
use vstd::string::StringSliceAdditionalSpecFns;

verus! {

/// A value kept by inference: only values in the range of `i64` are used.
pub open spec fn bnd(v: int) -> Option<int> {
    if in_i64_range(v) {
        Some(v)
    } else {
        None
    }
}

/// The concrete value of an expression under the exact values of `Delta`, where every
/// intermediate value stays in the range of `i64`; a zero scaling is zero, and an unknown
/// non-zero scaling of a zero operand is zero.
pub open spec fn eval_model(e: ExprModel, m: Map<CellId, Set<int>>) -> Option<int>
    decreases e,
{
    match e {
        ExprModel::Var(c) => match known_value_model(m, c) {
            Some(v) => bnd(v),
            None => None,
        },
        ExprModel::Const(s) => match scalar_value(s) {
            Some(v) => bnd(v),
            None => None,
        },
        ExprModel::Neg(inner) => match eval_model(*inner, m) {
            Some(v) => bnd(-v),
            None => None,
        },
        ExprModel::Add(l, r) => match (eval_model(*l, m), eval_model(*r, m)) {
            (Some(a), Some(b)) => bnd(a + b),
            _ => None,
        },
        ExprModel::Mul(l, r) => match (eval_model(*l, m), eval_model(*r, m)) {
            (Some(a), Some(b)) => bnd(a * b),
            _ => None,
        },
        ExprModel::Scale(inner, s) => match s {
            ScalarModel::Zero => Some(0),
            ScalarModel::Known(k) => match eval_model(*inner, m) {
                Some(a) => bnd(a * k),
                None => None,
            },
            _ => match eval_model(*inner, m) {
                Some(a) => if a == 0 {
                    Some(0)
                } else {
                    None
                },
                None => None,
            },
        },
    }
}

/// The kind of a known value.
pub open spec fn kind_of_value(v: int) -> ValueKind {
    if v == 0 {
        ValueKind::Zero
    } else {
        ValueKind::NonZero
    }
}

/// Whether an expression is certainly zero, certainly non-zero, or neither: by its value
/// where it evaluates, else by the domain of a cell, the constant, a zero scaling, or the
/// kinds of the factors of a product.
pub open spec fn value_kind_model(e: ExprModel, m: Map<CellId, Set<int>>) -> ValueKind
    decreases e,
{
    match eval_model(e, m) {
        Some(v) => kind_of_value(v),
        None => match e {
            ExprModel::Var(c) => if m.dom().contains(c) {
                domain_kind_model(m[c])
            } else {
                ValueKind::Unknown
            },
            ExprModel::Const(ScalarModel::Zero) => ValueKind::Zero,
            ExprModel::Const(ScalarModel::NonZero) => ValueKind::NonZero,
            ExprModel::Const(ScalarModel::Known(v)) => if in_i64_range(v) {
                kind_of_value(v)
            } else {
                ValueKind::Unknown
            },
            ExprModel::Scale(_, ScalarModel::Zero) => ValueKind::Zero,
            ExprModel::Mul(l, r) => {
                let a = value_kind_model(*l, m);
                let b = value_kind_model(*r, m);
                if a is Zero || b is Zero {
                    ValueKind::Zero
                } else if a is NonZero && b is NonZero {
                    ValueKind::NonZero
                } else {
                    ValueKind::Unknown
                }
            },
            _ => ValueKind::Unknown,
        },
    }
}

/// The value, where it lies in the range of `i64`.
fn bounded_value(value: Integer) -> (r: Option<Integer>)
    ensures
        r matches Some(v) ==> v@ == value@ && in_i64_range(value@),
        r is None ==> !in_i64_range(value@),
{
    if int_in_i64_range(&value) {
        Some(value)
    } else {
        None
    }
}

/// Evaluates an expression with the exact values of `Delta`.
pub fn evaluate_expr(expr: &UcpExpr, values: &UcpValueFacts) -> (r: Option<Integer>)
    requires
        values.wf(),
    ensures
        r matches Some(v) ==> eval_model(expr@, values@) == Some(v@),
        r is None ==> eval_model(expr@, values@) is None,
    decreases expr,
{
    match expr {
        UcpExpr::Var(cell) => match values.known_value(cell) {
            Some(v) => bounded_value(v.clone()),
            None => None,
        },
        UcpExpr::Const(scalar) => match scalar.as_known() {
            Some(v) => bounded_value(v),
            None => None,
        },
        UcpExpr::Neg(inner) => match evaluate_expr(inner, values) {
            Some(v) => bounded_value(v.neg()),
            None => None,
        },
        UcpExpr::Add(left, right) => match evaluate_expr(left, values) {
            Some(a) => match evaluate_expr(right, values) {
                Some(b) => bounded_value(int_add(&a, &b)),
                None => None,
            },
            None => None,
        },
        UcpExpr::Mul(left, right) => match evaluate_expr(left, values) {
            Some(a) => match evaluate_expr(right, values) {
                Some(b) => bounded_value(int_mul(&a, &b)),
                None => None,
            },
            None => None,
        },
        UcpExpr::Scale(inner, scalar) => match scalar {
            UcpScalar::Zero => Some(Integer::zero()),
            UcpScalar::Known(scale) => match evaluate_expr(inner, values) {
                Some(a) => bounded_value(int_mul(&a, scale)),
                None => None,
            },
            UcpScalar::NonZero | UcpScalar::Unknown => match evaluate_expr(inner, values) {
                Some(a) => if a.is_zero() {
                    Some(Integer::zero())
                } else {
                    None
                },
                None => None,
            },
        },
    }
}

fn kind_of(v: &Integer) -> (r: ValueKind)
    ensures
        r == kind_of_value(v@),
{
    if v.is_zero() {
        ValueKind::Zero
    } else {
        ValueKind::NonZero
    }
}

/// Whether an expression is certainly zero, certainly non-zero, or neither under `Delta`.
pub fn value_kind(expr: &UcpExpr, values: &UcpValueFacts) -> (r: ValueKind)
    requires
        values.wf(),
    ensures
        r == value_kind_model(expr@, values@),
    decreases expr,
{
    if let Some(value) = evaluate_expr(expr, values) {
        return kind_of(&value);
    }
    match expr {
        UcpExpr::Var(cell) => match values.domain(cell) {
            Some(d) => d.kind(),
            None => ValueKind::Unknown,
        },
        UcpExpr::Const(UcpScalar::Zero) => ValueKind::Zero,
        UcpExpr::Const(UcpScalar::NonZero) => ValueKind::NonZero,
        UcpExpr::Const(UcpScalar::Known(v)) => match bounded_value(v.clone()) {
            Some(b) => kind_of(&b),
            None => ValueKind::Unknown,
        },
        UcpExpr::Scale(_, UcpScalar::Zero) => ValueKind::Zero,
        UcpExpr::Mul(left, right) => {
            let a = value_kind(left, values);
            let b = value_kind(right, values);
            match (a, b) {
                (ValueKind::Zero, _) | (_, ValueKind::Zero) => ValueKind::Zero,
                (ValueKind::NonZero, ValueKind::NonZero) => ValueKind::NonZero,
                _ => ValueKind::Unknown,
            }
        },
        _ => ValueKind::Unknown,
    }
}

/// The linear form of an expression under `Delta`: a constant where it evaluates, a cell
/// with coefficient one, sums of forms, forms scaled by an evaluated factor or a known
/// scalar in the range of `i64`; `None` where the expression is not linear in this sense.
pub open spec fn lin_model(e: ExprModel, m: Map<CellId, Set<int>>) -> Option<LinearModel>
    decreases e,
{
    match eval_model(e, m) {
        Some(v) => Some(lin_const(v)),
        None => match e {
            ExprModel::Var(c) => Some(lin_term(c, 1)),
            ExprModel::Const(_) => None,
            ExprModel::Neg(inner) => match lin_model(*inner, m) {
                Some(a) => Some(lin_scale(a, -1)),
                None => None,
            },
            ExprModel::Add(l, r) => match (lin_model(*l, m), lin_model(*r, m)) {
                (Some(a), Some(b)) => Some(lin_add(a, b)),
                _ => None,
            },
            ExprModel::Mul(l, r) => match eval_model(*l, m) {
                Some(v) => match lin_model(*r, m) {
                    Some(b) => Some(lin_scale(b, v)),
                    None => None,
                },
                None => match eval_model(*r, m) {
                    Some(v) => match lin_model(*l, m) {
                        Some(a) => Some(lin_scale(a, v)),
                        None => None,
                    },
                    None => None,
                },
            },
            ExprModel::Scale(inner, s) => match s {
                ScalarModel::Zero => Some(lin_const(0)),
                ScalarModel::Known(k) => if in_i64_range(k) {
                    match lin_model(*inner, m) {
                        Some(a) => Some(lin_scale(a, k)),
                        None => None,
                    }
                } else {
                    None
                },
                _ => None,
            },
        },
    }
}

/// The linear form of an expression under `Delta`.
pub fn linearize(expr: &UcpExpr, values: &UcpValueFacts) -> (r: Option<LinearExpr>)
    requires
        values.wf(),
    ensures
        r matches Some(l) ==> l.wf() && lin_model(expr@, values@) == Some(l@),
        r is None ==> lin_model(expr@, values@) is None,
    decreases expr,
{
    if let Some(value) = evaluate_expr(expr, values) {
        return Some(LinearExpr::constant(value));
    }
    match expr {
        UcpExpr::Var(cell) => Some(LinearExpr::term(*cell, Integer::one())),
        UcpExpr::Const(_) => None,
        UcpExpr::Neg(inner) => match linearize(inner, values) {
            Some(a) => Some(a.scale(&Integer::from_i64(-1))),
            None => None,
        },
        UcpExpr::Add(left, right) => match linearize(left, values) {
            Some(a) => match linearize(right, values) {
                Some(b) => Some(a.add(b)),
                None => None,
            },
            None => None,
        },
        UcpExpr::Mul(left, right) => {
            if let Some(v) = evaluate_expr(left, values) {
                return match linearize(right, values) {
                    Some(b) => Some(b.scale(&v)),
                    None => None,
                };
            }
            if let Some(v) = evaluate_expr(right, values) {
                return match linearize(left, values) {
                    Some(a) => Some(a.scale(&v)),
                    None => None,
                };
            }
            None
        },
        UcpExpr::Scale(inner, scalar) => match scalar {
            UcpScalar::Zero => Some(LinearExpr::constant(Integer::zero())),
            UcpScalar::Known(scale) => match bounded_value(scale.clone()) {
                Some(k) => match linearize(inner, values) {
                    Some(a) => Some(a.scale(&k)),
                    None => None,
                },
                None => None,
            },
            UcpScalar::NonZero | UcpScalar::Unknown => None,
        },
    }
}

/// The zero of a one-cell linear form `k * c + constant`: the cell and `-constant / k`,
/// where `k` divides `-constant` and the quotient lies in the range of `i64`; with
/// `unit_only`, only coefficients `1` and `-1` are taken.
pub open spec fn linear_root(l: LinearModel, unit_only: bool) -> Option<(CellId, int)> {
    if l.terms.len() == 1 {
        let c = l.terms.dom().choose();
        let k = l.terms[c];
        if k != 0 && (!unit_only || k == 1 || k == -1) && trunc_rem(-l.constant, k) == 0
            && in_i64_range(trunc_div(-l.constant, k)) {
            Some((c, trunc_div(-l.constant, k)))
        } else {
            None
        }
    } else {
        None
    }
}

/// The Assign rule on values: a zero equation linear in one cell gives that cell's value.
pub open spec fn linear_assign_model(e: ExprModel, m: Map<CellId, Set<int>>) -> Option<(CellId, int)> {
    match lin_model(e, m) {
        Some(l) => linear_root(l, false),
        None => None,
    }
}

/// The root that a linear factor `c - r` (or `r - c`) forces on its cell.
pub open spec fn factor_root_model(f: ExprModel, m: Map<CellId, Set<int>>) -> Option<(CellId, int)> {
    match lin_model(f, m) {
        Some(l) => linear_root(l, true),
        None => None,
    }
}

/// A value for a cell learned from a zero equation: a factor known to be non-zero is
/// dropped from a product, and a non-zero scaling from its operand; a product with a zero
/// factor, or a zero scaling, teaches nothing; otherwise the equation must be linear in one
/// cell.
pub open spec fn zero_assign_model(e: ExprModel, m: Map<CellId, Set<int>>) -> Option<(CellId, int)>
    decreases e,
{
    match e {
        ExprModel::Mul(l, r) => {
            let a = value_kind_model(*l, m);
            let b = value_kind_model(*r, m);
            if a is NonZero {
                zero_assign_model(*r, m)
            } else if b is NonZero {
                zero_assign_model(*l, m)
            } else if a is Zero || b is Zero {
                None
            } else {
                linear_assign_model(e, m)
            }
        },
        ExprModel::Scale(inner, s) => if s is NonZero || s is Known {
            zero_assign_model(*inner, m)
        } else if s is Zero {
            None
        } else {
            linear_assign_model(e, m)
        },
        _ => linear_assign_model(e, m),
    }
}

/// The factors of a product, through negations and non-zero scalings; a zero scaling has none.
pub open spec fn product_factors(e: ExprModel) -> Seq<ExprModel>
    decreases e,
{
    match e {
        ExprModel::Mul(l, r) => product_factors(*l) + product_factors(*r),
        ExprModel::Neg(inner) => product_factors(*inner),
        ExprModel::Scale(inner, s) => if s is NonZero || s is Known {
            product_factors(*inner)
        } else if s is Zero {
            Seq::empty()
        } else {
            seq![e]
        },
        _ => seq![e],
    }
}

/// The Root rule: a product of at least two factors, each of the form `c - r_i` for one and
/// the same cell `c`, gives `c` the domain `{r_i}`.
pub open spec fn root_domain_model(e: ExprModel, m: Map<CellId, Set<int>>) -> Option<(CellId, Set<int>)> {
    let fs = product_factors(e);
    if fs.len() >= 2 && (forall|i: int| 0 <= i < fs.len() ==> #[trigger] factor_root_model(fs[i], m) is Some)
        && (forall|i: int| 0 <= i < fs.len() ==> #[trigger] factor_root_model(fs[i], m).unwrap().0
        == factor_root_model(fs[0], m).unwrap().0) {
        Some((
            factor_root_model(fs[0], m).unwrap().0,
            Seq::new(fs.len(), |i: int| factor_root_model(fs[i], m).unwrap().1).to_set(),
        ))
    } else {
        None
    }
}

/// The models of a list of expression references.
pub open spec fn ref_models(s: Seq<&UcpExpr>) -> Seq<ExprModel> {
    s.map_values(|x: &UcpExpr| x@)
}

/// The single term of a one-term form, in the form's own terms.
fn single_term(l: &LinearExpr) -> (r: (CellId, Integer))
    requires
        l.wf(),
        l@.terms.len() == 1,
    ensures
        r.0 == l@.terms.dom().choose(),
        r.1@ == l@.terms[r.0],
{
    proof {
        l.lemma_wf();
        crate::linear::lemma_entries_len(l.term_entries());
    }
    let entries = l.entries();
    let e = &entries[0];
    proof {
        let c0 = l.term_entries()[0].0;
        assert(l@.terms.dom() =~= set![c0]) by {
            assert forall|c: CellId| #[trigger] l@.terms.dom().contains(c) == set![c0].contains(c) by {
                if l@.terms.dom().contains(c) {
                    let i = choose|i: int| 0 <= i < l.term_entries().len() && l.term_entries()[i].0 == c;
                }
            }
        }
        let x = l@.terms.dom().choose();
        assert(l@.terms.dom().contains(x));
    }
    (e.0, e.1.clone())
}

/// The zero of a one-cell linear form.
fn solve_single_term(l: &LinearExpr, unit_only: bool) -> (r: Option<(CellId, Integer)>)
    requires
        l.wf(),
    ensures
        r matches Some((c, v)) ==> linear_root(l@, unit_only) == Some((c, v@)),
        r is None ==> linear_root(l@, unit_only) is None,
{
    if l.num_terms() != 1 {
        return None;
    }
    let (cell, coefficient) = single_term(l);
    if coefficient.is_zero() {
        return None;
    }
    if unit_only && !(int_eq(&coefficient, &Integer::one()) || int_eq(&coefficient, &Integer::from_i64(-1))) {
        return None;
    }
    let numerator = l.constant_value().neg();
    if !int_rem(&numerator, &coefficient).is_zero() {
        return None;
    }
    match bounded_value(int_div(&numerator, &coefficient)) {
        Some(v) => Some((cell, v)),
        None => None,
    }
}

fn infer_linear_assignment(expr: &UcpExpr, values: &UcpValueFacts) -> (r: Option<(CellId, Integer)>)
    requires
        values.wf(),
    ensures
        r matches Some((c, v)) ==> linear_assign_model(expr@, values@) == Some((c, v@)),
        r is None ==> linear_assign_model(expr@, values@) is None,
{
    match linearize(expr, values) {
        Some(l) => solve_single_term(&l, false),
        None => None,
    }
}

pub fn factor_root(factor: &UcpExpr, values: &UcpValueFacts) -> (r: Option<(CellId, Integer)>)
    requires
        values.wf(),
    ensures
        r matches Some((c, v)) ==> factor_root_model(factor@, values@) == Some((c, v@)),
        r is None ==> factor_root_model(factor@, values@) is None,
{
    match linearize(factor, values) {
        Some(l) => solve_single_term(&l, true),
        None => None,
    }
}

/// A cell value learned from a zero equation by the Assign rule, through non-zero factors.
fn infer_from_zero_expr(expr: &UcpExpr, values: &UcpValueFacts) -> (r: Option<(CellId, Integer)>)
    requires
        values.wf(),
    ensures
        r matches Some((c, v)) ==> zero_assign_model(expr@, values@) == Some((c, v@)),
        r is None ==> zero_assign_model(expr@, values@) is None,
    decreases expr,
{
    match expr {
        UcpExpr::Mul(left, right) => {
            let a = value_kind(left, values);
            let b = value_kind(right, values);
            match (a, b) {
                (ValueKind::NonZero, _) => infer_from_zero_expr(right, values),
                (_, ValueKind::NonZero) => infer_from_zero_expr(left, values),
                (ValueKind::Zero, _) | (_, ValueKind::Zero) => None,
                _ => infer_linear_assignment(expr, values),
            }
        },
        UcpExpr::Scale(inner, scalar) => {
            if scalar.is_statically_non_zero() {
                infer_from_zero_expr(inner, values)
            } else if let UcpScalar::Zero = scalar {
                None
            } else {
                infer_linear_assignment(expr, values)
            }
        },
        _ => infer_linear_assignment(expr, values),
    }
}

/// Appends the factors of a product.
fn collect_product_factors<'a>(expr: &'a UcpExpr, factors: &mut Vec<&'a UcpExpr>)
    ensures
        ref_models(final(factors)@) == ref_models(old(factors)@) + product_factors(expr@),
    decreases expr,
{
    match expr {
        UcpExpr::Mul(left, right) => {
            let ghost before = ref_models(factors@);
            collect_product_factors(left, factors);
            collect_product_factors(right, factors);
            proof {
                assert(before + product_factors(left@) + product_factors(right@) =~= before + (
                product_factors(left@) + product_factors(right@)));
            }
        },
        UcpExpr::Neg(inner) => collect_product_factors(inner, factors),
        UcpExpr::Scale(inner, scalar) => {
            if scalar.is_statically_non_zero() {
                collect_product_factors(inner, factors)
            } else if let UcpScalar::Zero = scalar {
                assert(ref_models(factors@) =~= ref_models(factors@) + Seq::<ExprModel>::empty());
            } else {
                let ghost before = factors@;
                factors.push(expr);
                assert(ref_models(factors@) =~= ref_models(before) + seq![expr@]);
            }
        },
        _ => {
            let ghost before = factors@;
            factors.push(expr);
            assert(ref_models(factors@) =~= ref_models(before) + seq![expr@]);
        },
    }
}

/// The Root rule: `c * (c - 1) = 0` gives `Delta(c) = {0, 1}`.
fn infer_root_domain(expr: &UcpExpr, values: &UcpValueFacts) -> (r: Option<(CellId, UcpValueDomain)>)
    requires
        values.wf(),
    ensures
        r matches Some((c, d)) ==> crate::domain::domain_valid(d) && root_domain_model(expr@, values@)
            == Some((c, d@)),
        r is None ==> root_domain_model(expr@, values@) is None,
{
    let mut factors: Vec<&UcpExpr> = Vec::new();
    collect_product_factors(expr, &mut factors);
    let ghost fs = product_factors(expr@);
    assert(ref_models(factors@) =~= fs);
    if factors.len() < 2 {
        return None;
    }
    let mut cell: Option<CellId> = None;
    let mut roots: Vec<Integer> = Vec::new();
    let mut i: usize = 0;
    while i < factors.len()
        invariant
            values.wf(),
            i <= factors@.len(),
            factors@.len() >= 2,
            ref_models(factors@) == fs,
            fs == product_factors(expr@),
            roots@.len() == i,
            i == 0 <==> cell is None,
            forall|j: int| 0 <= j < i ==> #[trigger] factor_root_model(fs[j], values@) is Some,
            cell matches Some(c) ==> forall|j: int|
                0 <= j < i ==> #[trigger] factor_root_model(fs[j], values@).unwrap().0 == c,
            forall|j: int| 0 <= j < i ==> #[trigger] roots@[j]@ == factor_root_model(fs[j], values@).unwrap().1,
        decreases factors@.len() - i,
    {
        assert(ref_models(factors@)[i as int] == factors@[i as int]@);
        let (c, root) = match factor_root(factors[i], values) {
            Some(x) => x,
            None => {
                proof {
                    assert(factor_root_model(fs[i as int], values@) is None);
                }
                return None;
            },
        };
        match cell {
            Some(existing) => {
                if !(existing == c) {
                    proof {
                        assert(factor_root_model(fs[0], values@).unwrap().0 == existing);
                        assert(factor_root_model(fs[i as int], values@).unwrap().0 == c);
                    }
                    return None;
                }
            },
            None => {
                cell = Some(c);
            },
        }
        roots.push(root);
        i = i + 1;
    }
    let c = match cell {
        Some(c) => c,
        None => {
            return None;
        },
    };
    let ghost rs = Seq::new(fs.len(), |j: int| factor_root_model(fs[j], values@).unwrap().1);
    proof {
        assert(crate::domain::int_seq(roots@) =~= rs);
        assert(factor_root_model(fs[0], values@).unwrap().0 == c);
        assert forall|j: int| 0 <= j < rs.len() implies in_i64_range(#[trigger] rs[j]) by {
            assert(factor_root_model(fs[j], values@) is Some);
        }
    }
    match UcpValueDomain::finite_set(roots) {
        Some(d) => Some((c, d)),
        None => None,
    }
}

/// At most this many distinct values are kept in an inferred domain.
pub const MAX_FINITE_DOMAIN_SIZE: usize = 256;

/// The normalized value (meaningful where normalization succeeds).
pub open spec fn norm_of(v: int, p: Option<int>) -> int {
    normalize_model(v, p).unwrap()
}

/// The domain that a finite set of raw values gives: each normalized, at least one and at
/// most `MAX_FINITE_DOMAIN_SIZE` distinct results; `None` where a value does not normalize.
pub open spec fn set_domain_model(s: Set<int>, p: Option<int>) -> Option<Set<int>> {
    if s.finite() && (forall|x: int| #[trigger] s.contains(x) ==> normalize_model(x, p) is Some) {
        let n = s.map(|x: int| norm_of(x, p));
        if 1 <= n.len() <= MAX_FINITE_DOMAIN_SIZE {
            Some(n)
        } else {
            None
        }
    } else {
        None
    }
}

/// Sums or products of a value of one set with a value of the other.
pub open spec fn pair_set(l: Set<int>, r: Set<int>, product: bool) -> Set<int> {
    Set::new(
        |z: int|
            exists|a: int, b: int|
                l.contains(a) && r.contains(b) && z == (if product {
                    a * b
                } else {
                    a + b
                }),
    )
}

/// The values of a set multiplied by `k`.
pub open spec fn scaled_set(s: Set<int>, k: int) -> Set<int> {
    Set::new(|z: int| exists|a: int| s.contains(a) && z == a * k)
}

/// Whether `a * b` exceeds the cap on domain sizes.
pub open spec fn exceeds_cap(a: int, b: int) -> bool {
    a * b > MAX_FINITE_DOMAIN_SIZE
}

/// Whether a product of two counts exceeds the cap.
fn product_exceeds(a: usize, b: usize) -> (r: bool)
    ensures
        r == exceeds_cap(a as int, b as int),
{
    if a == 0 || b == 0 {
        proof {
            assert(a * b == 0) by (nonlinear_arith)
                requires
                    a == 0 || b == 0,
            ;
        }
        false
    } else if a > MAX_FINITE_DOMAIN_SIZE || b > MAX_FINITE_DOMAIN_SIZE {
        proof {
            assert(a * b > 256) by (nonlinear_arith)
                requires
                    a >= 1,
                    b >= 1,
                    a > 256 || b > 256,
            ;
        }
        true
    } else {
        proof {
            assert(a * b <= 65536) by (nonlinear_arith)
                requires
                    a <= 256,
                    b <= 256,
            ;
        }
        a * b > MAX_FINITE_DOMAIN_SIZE
    }
}

/// The listed values of a valid domain are as many as its values, and are them.
proof fn lemma_values_len(d: UcpValueDomain)
    requires
        domain_valid(d),
    ensures
        domain_values_model(d).len() == d@.len(),
        domain_values_model(d).to_set() == d@,
        d@.finite(),
{
    lemma_domain_valid(d);
    match d {
        UcpValueDomain::Exact(v) => {},
        UcpValueDomain::FiniteSet(vs) => {
            lemma_sorted_set_len(int_seq(vs@));
        },
    }
}

/// The domain of a list of raw values.
fn finite_domain_from_values(values: &Vec<Integer>, modulus: Option<&Integer>) -> (r: Option<
    UcpValueDomain,
>)
    ensures
        r matches Some(d) ==> domain_valid(d) && set_domain_model(
            int_seq(values@).to_set(),
            opt_view(modulus),
        ) == Some(d@),
        r is None ==> set_domain_model(int_seq(values@).to_set(), opt_view(modulus)) is None,
{
    let ghost p = opt_view(modulus);
    let ghost all = int_seq(values@);
    let ghost f = |x: int| norm_of(x, p);
    let mut set: Vec<Integer> = Vec::new();
    let mut i: usize = 0;
    proof {
        vstd::seq_lib::seq_to_set_is_finite(all);
        assert(all.subrange(0, 0).to_set() =~= Set::<int>::empty());
        assert(ints_of(set@) =~= Set::<int>::empty());
        assert(Set::<int>::empty().map(f) =~= Set::<int>::empty());
    }
    while i < values.len()
        invariant
            p == opt_view(modulus),
            all == int_seq(values@),
            f == (|x: int| norm_of(x, p)),
            all.to_set().finite(),
            i <= values@.len(),
            sorted_ints(int_seq(set@)),
            set@.len() <= MAX_FINITE_DOMAIN_SIZE,
            forall|j: int| 0 <= j < i ==> normalize_model(#[trigger] all[j], p) is Some,
            ints_of(set@) == all.subrange(0, i as int).to_set().map(f),
        decreases values@.len() - i,
    {
        let ghost pre = all.subrange(0, i as int);
        assert(all[i as int] == values@[i as int]@);
        let v = match normalize_value(&values[i], modulus) {
            Some(v) => v,
            None => {
                proof {
                    assert(all.to_set().contains(all[i as int]));
                }
                return None;
            },
        };
        let present = contains_value(&set, &v);
        if !present && set.len() >= MAX_FINITE_DOMAIN_SIZE {
            proof {
                lemma_sorted_set_len(int_seq(set@));
                let whole = all.to_set();
                if forall|x: int| #[trigger] whole.contains(x) ==> normalize_model(x, p) is Some {
                    assert(ints_of(set@).insert(v@).subset_of(whole.map(f))) by {
                        assert forall|z: int| #[trigger] ints_of(set@).insert(v@).contains(z) implies whole.map(f).contains(z) by {
                            if z == v@ {
                                assert(whole.contains(all[i as int]));
                            } else {
                                let x = choose|x: int| pre.to_set().contains(x) && f(x) == z;
                                let j = choose|j: int| 0 <= j < pre.len() && pre[j] == x;
                                assert(whole.contains(all[j]));
                            }
                        }
                    }
                    whole.lemma_map_finite(f);
                    vstd::set_lib::lemma_len_subset(ints_of(set@).insert(v@), whole.map(f));
                }
            }
            return None;
        }
        let ghost before = ints_of(set@);
        proof {
            lemma_sorted_set_len(int_seq(set@));
        }
        insert_sorted(&mut set, v);
        proof {
            lemma_sorted_set_len(int_seq(set@));
            assert(all.subrange(0, i + 1) =~= pre.push(all[i as int]));
            lemma_push_set(pre, all[i as int]);
            pre.to_set().lemma_set_map_insert_commute(all[i as int], f);
            if present {
                assert(before.insert(v@) =~= before);
            }
        }
        i = i + 1;
    }
    proof {
        assert(all.subrange(0, values@.len() as int) =~= all);
        lemma_sorted_set_len(int_seq(set@));
        assert forall|x: int| #[trigger] all.to_set().contains(x) implies normalize_model(x, p) is Some by {
            let j = choose|j: int| 0 <= j < all.len() && all[j] == x;
        }
        assert forall|k: int| 0 <= k < int_seq(set@).len() implies crate::integer::in_i64_range(
            #[trigger] int_seq(set@)[k],
        ) by {
            assert(ints_of(set@).contains(int_seq(set@)[k]));
            let x = choose|x: int| all.to_set().contains(x) && f(x) == int_seq(set@)[k];
        }
    }
    let r = UcpValueDomain::finite_set(set);
    proof {
        if r is None {
            assert(int_seq(set@).len() == 0);
            assert(ints_of(set@).len() == 0);
        }
    }
    r
}

/// The values of a list multiplied by `k`.
fn scaled_values(vals: &Vec<Integer>, k: &Integer) -> (r: Vec<Integer>)
    ensures
        int_seq(r@).to_set() == scaled_set(int_seq(vals@).to_set(), k@),
{
    let mut out: Vec<Integer> = Vec::new();
    let mut i: usize = 0;
    while i < vals.len()
        invariant
            i <= vals@.len(),
            int_seq(out@).to_set() == scaled_set(int_seq(vals@).subrange(0, i as int).to_set(), k@),
        decreases vals@.len() - i,
    {
        let ghost before = int_seq(out@);
        let ghost pre = int_seq(vals@).subrange(0, i as int);
        out.push(int_mul(&vals[i], k));
        proof {
            assert(int_seq(out@) =~= before.push(vals@[i as int]@ * k@));
            lemma_push_set(before, vals@[i as int]@ * k@);
            assert(int_seq(vals@).subrange(0, i + 1) =~= pre.push(vals@[i as int]@));
            lemma_push_set(pre, vals@[i as int]@);
            let x = vals@[i as int]@;
            let np = pre.push(x).to_set();
            assert forall|z: int| #[trigger] scaled_set(np, k@).contains(z) == scaled_set(pre.to_set(), k@).insert(x * k@).contains(z) by {
                if scaled_set(np, k@).contains(z) {
                    let a = choose|a: int| np.contains(a) && z == a * k@;
                    if a != x {
                        assert(pre.to_set().contains(a));
                    }
                }
                if scaled_set(pre.to_set(), k@).contains(z) {
                    let a = choose|a: int| pre.to_set().contains(a) && z == a * k@;
                    assert(np.contains(a));
                }
                if z == x * k@ {
                    assert(np.contains(x));
                }
            }
            assert(int_seq(out@).to_set() =~= scaled_set(pre.push(vals@[i as int]@).to_set(), k@));
        }
        i = i + 1;
    }
    proof {
        assert(int_seq(vals@).subrange(0, vals@.len() as int) =~= int_seq(vals@));
    }
    out
}

/// All sums or products of a value of one list with a value of the other.
fn pair_values(left: &Vec<Integer>, right: &Vec<Integer>, product: bool) -> (r: Vec<Integer>)
    ensures
        int_seq(r@).to_set() == pair_set(int_seq(left@).to_set(), int_seq(right@).to_set(), product),
{
    let ghost rs = int_seq(right@).to_set();
    let mut out: Vec<Integer> = Vec::new();
    let mut i: usize = 0;
    proof {
        assert(int_seq(out@).to_set() =~= pair_set(int_seq(left@).subrange(0, 0).to_set(), rs, product));
    }
    while i < left.len()
        invariant
            i <= left@.len(),
            rs == int_seq(right@).to_set(),
            int_seq(out@).to_set() == pair_set(int_seq(left@).subrange(0, i as int).to_set(), rs, product),
        decreases left@.len() - i,
    {
        let ghost pre = int_seq(left@).subrange(0, i as int);
        let ghost a = left@[i as int]@;
        let ghost base = int_seq(out@).to_set();
        let mut j: usize = 0;
        proof {
            assert(int_seq(right@).subrange(0, 0).to_set() =~= Set::<int>::empty());
            assert(base =~= base.union(pair_set(set![a], int_seq(right@).subrange(0, 0).to_set(), product)));
        }
        while j < right.len()
            invariant
                i < left@.len(),
                j <= right@.len(),
                a == left@[i as int]@,
                int_seq(out@).to_set() == base.union(pair_set(set![a], int_seq(right@).subrange(0, j as int).to_set(), product)),
            decreases right@.len() - j,
        {
            let ghost before = int_seq(out@);
            let ghost rpre = int_seq(right@).subrange(0, j as int);
            let b = &right[j];
            let v = if product {
                int_mul(&left[i], b)
            } else {
                int_add(&left[i], b)
            };
            out.push(v);
            proof {
                assert(int_seq(out@) =~= before.push(v@));
                lemma_push_set(before, v@);
                assert(int_seq(right@).subrange(0, j + 1) =~= rpre.push(right@[j as int]@));
                lemma_push_set(rpre, right@[j as int]@);
                let nr = rpre.push(right@[j as int]@).to_set();
                assert forall|z: int| #[trigger] pair_set(set![a], nr, product).contains(z) == pair_set(set![a], rpre.to_set(), product).insert(v@).contains(z) by {
                    if pair_set(set![a], nr, product).contains(z) {
                        let (x, y) = choose|x: int, y: int| set![a].contains(x) && nr.contains(y) && z == (if product { x * y } else { x + y });
                        if y != right@[j as int]@ {
                            assert(rpre.to_set().contains(y));
                        }
                    }
                    if z == v@ {
                        assert(set![a].contains(a) && nr.contains(right@[j as int]@));
                    }
                    if pair_set(set![a], rpre.to_set(), product).contains(z) {
                        let (x, y) = choose|x: int, y: int| set![a].contains(x) && rpre.to_set().contains(y) && z == (if product { x * y } else { x + y });
                        assert(nr.contains(y));
                    }
                }
                assert(int_seq(out@).to_set() =~= base.union(pair_set(set![a], int_seq(right@).subrange(0, j + 1).to_set(), product)));
            }
            j = j + 1;
        }
        proof {
            assert(int_seq(right@).subrange(0, right@.len() as int) =~= int_seq(right@));
            assert(int_seq(left@).subrange(0, i + 1) =~= pre.push(a));
            lemma_push_set(pre, a);
            let np = pre.push(a).to_set();
            assert forall|z: int| #[trigger] pair_set(np, rs, product).contains(z) == base.union(pair_set(set![a], rs, product)).contains(z) by {
                if pair_set(np, rs, product).contains(z) {
                    let (x, y) = choose|x: int, y: int| np.contains(x) && rs.contains(y) && z == (if product { x * y } else { x + y });
                    if x == a {
                        assert(set![a].contains(x));
                    } else {
                        assert(pre.to_set().contains(x));
                    }
                }
                if pair_set(set![a], rs, product).contains(z) {
                    let (x, y) = choose|x: int, y: int| set![a].contains(x) && rs.contains(y) && z == (if product { x * y } else { x + y });
                    assert(np.contains(x));
                }
                if base.contains(z) {
                    let (x, y) = choose|x: int, y: int| pre.to_set().contains(x) && rs.contains(y) && z == (if product { x * y } else { x + y });
                    assert(np.contains(x));
                }
            }
            assert(int_seq(out@).to_set() =~= pair_set(int_seq(left@).subrange(0, i + 1).to_set(), rs, product));
        }
        i = i + 1;
    }
    proof {
        assert(int_seq(left@).subrange(0, left@.len() as int) =~= int_seq(left@));
    }
    out
}

/// The finite domain of an expression under `Delta`, computed value by value: a cell's
/// domain, a known constant, and the pointwise negation, scaling, sum and product of domains,
/// normalized (modulo `p` where given) and capped at `MAX_FINITE_DOMAIN_SIZE` combinations;
/// a product with a factor known to be zero, and a zero scaling, is `{0}`.
pub open spec fn expr_domain_model(e: ExprModel, m: Map<CellId, Set<int>>, p: Option<int>) -> Option<
    Set<int>,
>
    decreases e,
{
    match e {
        ExprModel::Var(c) => if m.dom().contains(c) {
            Some(m[c])
        } else {
            None
        },
        ExprModel::Const(s) => match scalar_value(s) {
            Some(v) => set_domain_model(set![v], p),
            None => None,
        },
        ExprModel::Neg(inner) => match expr_domain_model(*inner, m, p) {
            Some(d) => set_domain_model(scaled_set(d, -1), p),
            None => None,
        },
        ExprModel::Add(l, r) => match (expr_domain_model(*l, m, p), expr_domain_model(*r, m, p)) {
            (Some(a), Some(b)) => if exceeds_cap(a.len() as int, b.len() as int) {
                None
            } else {
                set_domain_model(pair_set(a, b, false), p)
            },
            _ => None,
        },
        ExprModel::Mul(l, r) => if value_kind_model(*l, m) is Zero || value_kind_model(*r, m) is Zero {
            Some(set![0])
        } else {
            match (expr_domain_model(*l, m, p), expr_domain_model(*r, m, p)) {
                (Some(a), Some(b)) => if exceeds_cap(a.len() as int, b.len() as int) {
                    None
                } else {
                    set_domain_model(pair_set(a, b, true), p)
                },
                _ => None,
            }
        },
        ExprModel::Scale(inner, s) => match s {
            ScalarModel::Zero => Some(set![0]),
            ScalarModel::Known(k) => match expr_domain_model(*inner, m, p) {
                Some(d) => set_domain_model(scaled_set(d, k), p),
                None => None,
            },
            _ => if value_kind_model(*inner, m) is Zero {
                Some(set![0])
            } else {
                None
            },
        },
    }
}

/// A copy of a valid domain, with the same listed values and variant, is valid and equal.
pub proof fn lemma_domain_clone(a: UcpValueDomain, b: UcpValueDomain)
    requires
        domain_valid(a),
        domain_values_model(b) == domain_values_model(a),
        b is Exact <==> a is Exact,
    ensures
        domain_valid(b),
        b@ == a@,
{
    match (a, b) {
        (UcpValueDomain::FiniteSet(x), UcpValueDomain::FiniteSet(y)) => {
            assert(int_seq(y@) == int_seq(x@));
            assert(y@.len() == int_seq(y@).len());
            assert(x@.len() == int_seq(x@).len());
        },
        _ => {},
    }
}

fn zero_domain() -> (r: UcpValueDomain)
    ensures
        domain_valid(r),
        r@ == set![0int],
{
    let r = UcpValueDomain::exact(Integer::zero());
    proof {
        assert(domain_values_model(r) =~= seq![0int]);
    }
    r
}

fn map_domain_values(domain: &UcpValueDomain, modulus: Option<&Integer>, k: &Integer) -> (r: Option<
    UcpValueDomain,
>)
    requires
        domain_valid(*domain),
    ensures
        r matches Some(d) ==> domain_valid(d) && set_domain_model(scaled_set(domain@, k@), opt_view(modulus)) == Some(d@),
        r is None ==> set_domain_model(scaled_set(domain@, k@), opt_view(modulus)) is None,
{
    proof {
        lemma_values_len(*domain);
    }
    let vals = domain.values();
    let scaled = scaled_values(&vals, k);
    finite_domain_from_values(&scaled, modulus)
}

fn combine_domain_values(
    left: &UcpValueDomain,
    right: &UcpValueDomain,
    modulus: Option<&Integer>,
    product: bool,
) -> (r: Option<UcpValueDomain>)
    requires
        domain_valid(*left),
        domain_valid(*right),
    ensures
        exceeds_cap(left@.len() as int, right@.len() as int) ==> r is None,
        !exceeds_cap(left@.len() as int, right@.len() as int) ==> {
            &&& r matches Some(d) ==> domain_valid(d) && set_domain_model(pair_set(left@, right@, product), opt_view(modulus)) == Some(d@)
            &&& r is None ==> set_domain_model(pair_set(left@, right@, product), opt_view(modulus)) is None
        },
{
    proof {
        lemma_values_len(*left);
        lemma_values_len(*right);
    }
    let lv = left.values();
    let rv = right.values();
    if product_exceeds(lv.len(), rv.len()) {
        return None;
    }
    let vals = pair_values(&lv, &rv, product);
    finite_domain_from_values(&vals, modulus)
}

fn expression_domain_with_optional_modulus(
    expr: &UcpExpr,
    values: &UcpValueFacts,
    modulus: Option<&Integer>,
) -> (r: Option<UcpValueDomain>)
    requires
        values.wf(),
    ensures
        r matches Some(d) ==> domain_valid(d) && expr_domain_model(expr@, values@, opt_view(modulus)) == Some(d@),
        r is None ==> expr_domain_model(expr@, values@, opt_view(modulus)) is None,
    decreases expr,
{
    match expr {
        UcpExpr::Var(cell) => match values.domain(cell) {
            Some(d) => {
                let c = d.clone();
                proof {
                    lemma_domain_clone(*d, c);
                }
                Some(c)
            },
            None => None,
        },
        UcpExpr::Const(scalar) => match scalar.as_known() {
            Some(v) => {
                let mut vals: Vec<Integer> = Vec::new();
                let ghost vv = v@;
                vals.push(v);
                proof {
                    assert(int_seq(vals@) =~= seq![vv]);
                    crate::domain::lemma_single_seq_set(vv);
                }
                finite_domain_from_values(&vals, modulus)
            },
            None => None,
        },
        UcpExpr::Neg(inner) => match expression_domain_with_optional_modulus(inner, values, modulus) {
            Some(d) => map_domain_values(&d, modulus, &Integer::from_i64(-1)),
            None => None,
        },
        UcpExpr::Add(left, right) => {
            let a = match expression_domain_with_optional_modulus(left, values, modulus) {
                Some(a) => a,
                None => {
                    return None;
                },
            };
            let b = match expression_domain_with_optional_modulus(right, values, modulus) {
                Some(b) => b,
                None => {
                    return None;
                },
            };
            combine_domain_values(&a, &b, modulus, false)
        },
        UcpExpr::Mul(left, right) => {
            if value_kind(left, values) == ValueKind::Zero || value_kind(right, values) == ValueKind::Zero {
                return Some(zero_domain());
            }
            let a = match expression_domain_with_optional_modulus(left, values, modulus) {
                Some(a) => a,
                None => {
                    return None;
                },
            };
            let b = match expression_domain_with_optional_modulus(right, values, modulus) {
                Some(b) => b,
                None => {
                    return None;
                },
            };
            combine_domain_values(&a, &b, modulus, true)
        },
        UcpExpr::Scale(inner, scalar) => match scalar {
            UcpScalar::Zero => Some(zero_domain()),
            UcpScalar::Known(k) => match expression_domain_with_optional_modulus(inner, values, modulus) {
                Some(d) => map_domain_values(&d, modulus, k),
                None => None,
            },
            UcpScalar::NonZero | UcpScalar::Unknown => {
                if value_kind(inner, values) == ValueKind::Zero {
                    Some(zero_domain())
                } else {
                    None
                }
            },
        },
    }
}

/// The finite domain of an expression under `Delta`, without a modulus.
pub fn expression_domain(expr: &UcpExpr, values: &UcpValueFacts) -> (r: Option<UcpValueDomain>)
    requires
        values.wf(),
    ensures
        r matches Some(d) ==> domain_valid(d) && expr_domain_model(expr@, values@, None) == Some(d@),
        r is None ==> expr_domain_model(expr@, values@, None) is None,
{
    expression_domain_with_optional_modulus(expr, values, None)
}

/// The finite domain of an expression under `Delta`, with values taken modulo the field
/// modulus.
pub fn expression_domain_with_modulus(
    expr: &UcpExpr,
    values: &UcpValueFacts,
    field_modulus: &Integer,
) -> (r: Option<UcpValueDomain>)
    requires
        values.wf(),
    ensures
        r matches Some(d) ==> domain_valid(d) && expr_domain_model(expr@, values@, Some(field_modulus@)) == Some(d@),
        r is None ==> expr_domain_model(expr@, values@, Some(field_modulus@)) is None,
{
    expression_domain_with_optional_modulus(expr, values, Some(field_modulus))
}

/// Whether every value of a set normalizes.
pub open spec fn all_normalize(s: Set<int>, p: Option<int>) -> bool {
    forall|x: int| #[trigger] s.contains(x) ==> normalize_model(x, p) is Some
}

/// The value of a cell with coefficient `coef` that makes `coef * x = num`: with a modulus,
/// `num` times the inverse of `coef`, normalized; without one, the exact quotient in the
/// range of `i64`.
pub open spec fn solve_value_model(num: int, coef: int, p: Option<int>) -> Option<int> {
    match p {
        Some(q) => if q > 1 && exists|t: int| is_mod_inverse(coef, q, t) {
            normalize_model(num * (choose|t: int| is_mod_inverse(coef, q, t)), p)
        } else {
            None
        },
        None => if coef != 0 && trunc_rem(num, coef) == 0 {
            bnd(trunc_div(num, coef))
        } else {
            None
        },
    }
}

/// Whether every value of a set can be solved for.
pub open spec fn all_solve(s: Set<int>, coef: int, p: Option<int>) -> bool {
    forall|x: int| #[trigger] s.contains(x) ==> solve_value_model(x, coef, p) is Some
}

/// The values that the terms other than `target` can take together, with the constant, term
/// by term in cell order, each partial sum normalized; with how many combinations were
/// formed. `None` where a cell has no domain, the combinations would exceed the cap, or a
/// partial sum does not normalize.
pub open spec fn rest_model(
    terms: Seq<(CellId, int)>,
    target: CellId,
    m: Map<CellId, Set<int>>,
    p: Option<int>,
    rest: Set<int>,
    n: int,
) -> Option<(Set<int>, int)>
    decreases terms.len(),
{
    if terms.len() == 0 {
        Some((rest, n))
    } else {
        let c = terms[0].0;
        let k = terms[0].1;
        if c == target {
            rest_model(terms.drop_first(), target, m, p, rest, n)
        } else if !m.dom().contains(c) {
            None
        } else if exceeds_cap(n, m[c].len() as int) {
            None
        } else {
            let raw = pair_set(rest, scaled_set(m[c], k), false);
            if all_normalize(raw, p) {
                rest_model(
                    terms.drop_first(),
                    target,
                    m,
                    p,
                    raw.map(|x: int| norm_of(x, p)),
                    n * m[c].len(),
                )
            } else {
                None
            }
        }
    }
}

/// The domain of `target` in `constant + sum(k_i * c_i) = rhs` with `rhs` in a domain and
/// the other cells in their domains of `Delta`: each `rhs - rest` solved for the target's
/// coefficient, under the cap.
pub open spec fn solve_domain_model(
    terms: Seq<(CellId, int)>,
    constant: int,
    target: CellId,
    coef: int,
    rhs: Set<int>,
    m: Map<CellId, Set<int>>,
    p: Option<int>,
) -> Option<Set<int>> {
    match normalize_model(constant, p) {
        None => None,
        Some(c0) => match rest_model(terms, target, m, p, set![c0], 1) {
            None => None,
            Some((rest, n)) => {
                let diffs = pair_set(rhs, scaled_set(rest, -1), false);
                if exceeds_cap(rhs.len() as int, n) || !all_solve(diffs, coef, p) {
                    None
                } else {
                    set_domain_model(diffs.map(|x: int| solve_value_model(x, coef, p).unwrap()), p)
                }
            },
        },
    }
}

fn solve_linear_value(numerator: &Integer, coefficient: &Integer, modulus: Option<&Integer>) -> (r: Option<
    Integer,
>)
    ensures
        r matches Some(v) ==> solve_value_model(numerator@, coefficient@, opt_view(modulus)) == Some(v@),
        r is None ==> solve_value_model(numerator@, coefficient@, opt_view(modulus)) is None,
{
    match modulus {
        Some(q) => {
            if !crate::integer::int_lt(&Integer::one(), q) {
                return None;
            }
            match mod_inverse(coefficient, q) {
                Some(inverse) => {
                    proof {
                        let t = choose|t: int| is_mod_inverse(coefficient@, q@, t);
                        lemma_inverse_unique(coefficient@, q@, t, inverse@);
                    }
                    normalize_value(&int_mul(numerator, &inverse), Some(q))
                },
                None => None,
            }
        },
        None => {
            if coefficient.is_zero() {
                return None;
            }
            if !int_rem(numerator, coefficient).is_zero() {
                return None;
            }
            bounded_value(int_div(numerator, coefficient))
        },
    }
}

/// Normalizes every value of a list; `None` where one does not normalize.
fn normalize_all(vals: &Vec<Integer>, modulus: Option<&Integer>) -> (r: Option<Vec<Integer>>)
    ensures
        r matches Some(out) ==> all_normalize(int_seq(vals@).to_set(), opt_view(modulus)) && int_seq(
            out@,
        ).to_set() == int_seq(vals@).to_set().map(|x: int| norm_of(x, opt_view(modulus))),
        r is None ==> !all_normalize(int_seq(vals@).to_set(), opt_view(modulus)),
{
    let ghost p = opt_view(modulus);
    let ghost f = |x: int| norm_of(x, p);
    let mut out: Vec<Integer> = Vec::new();
    let mut i: usize = 0;
    proof {
        assert(int_seq(vals@).subrange(0, 0).to_set() =~= Set::<int>::empty());
        assert(Set::<int>::empty().map(f) =~= Set::<int>::empty());
        assert(int_seq(out@).to_set() =~= Set::<int>::empty());
    }
    while i < vals.len()
        invariant
            p == opt_view(modulus),
            f == (|x: int| norm_of(x, p)),
            i <= vals@.len(),
            all_normalize(int_seq(vals@).subrange(0, i as int).to_set(), p),
            int_seq(out@).to_set() == int_seq(vals@).subrange(0, i as int).to_set().map(f),
        decreases vals@.len() - i,
    {
        let ghost pre = int_seq(vals@).subrange(0, i as int);
        let ghost x = vals@[i as int]@;
        let ghost before = int_seq(out@);
        assert(int_seq(vals@)[i as int] == x);
        let v = match normalize_value(&vals[i], modulus) {
            Some(v) => v,
            None => {
                proof {
                    assert(int_seq(vals@).to_set().contains(x));
                }
                return None;
            },
        };
        out.push(v);
        proof {
            assert(int_seq(out@) =~= before.push(f(x)));
            lemma_push_set(before, f(x));
            assert(int_seq(vals@).subrange(0, i + 1) =~= pre.push(x));
            lemma_push_set(pre, x);
            pre.to_set().lemma_set_map_insert_commute(x, f);
            assert forall|y: int| #[trigger] pre.to_set().insert(x).contains(y) implies normalize_model(y, p) is Some by {
                if y != x {
                    assert(pre.to_set().contains(y));
                }
            }
        }
        i = i + 1;
    }
    proof {
        assert(int_seq(vals@).subrange(0, vals@.len() as int) =~= int_seq(vals@));
    }
    Some(out)
}

/// Solves every value of a list for a coefficient; `None` where one has no solution.
fn solve_all(vals: &Vec<Integer>, coefficient: &Integer, modulus: Option<&Integer>) -> (r: Option<Vec<Integer>>)
    ensures
        r matches Some(out) ==> all_solve(int_seq(vals@).to_set(), coefficient@, opt_view(modulus))
            && int_seq(out@).to_set() == int_seq(vals@).to_set().map(
            |x: int| solve_value_model(x, coefficient@, opt_view(modulus)).unwrap(),
        ),
        r is None ==> !all_solve(int_seq(vals@).to_set(), coefficient@, opt_view(modulus)),
{
    let ghost p = opt_view(modulus);
    let ghost f = |x: int| solve_value_model(x, coefficient@, p).unwrap();
    let mut out: Vec<Integer> = Vec::new();
    let mut i: usize = 0;
    proof {
        assert(int_seq(vals@).subrange(0, 0).to_set() =~= Set::<int>::empty());
        assert(Set::<int>::empty().map(f) =~= Set::<int>::empty());
        assert(int_seq(out@).to_set() =~= Set::<int>::empty());
    }
    while i < vals.len()
        invariant
            p == opt_view(modulus),
            f == (|x: int| solve_value_model(x, coefficient@, p).unwrap()),
            i <= vals@.len(),
            all_solve(int_seq(vals@).subrange(0, i as int).to_set(), coefficient@, p),
            int_seq(out@).to_set() == int_seq(vals@).subrange(0, i as int).to_set().map(f),
        decreases vals@.len() - i,
    {
        let ghost pre = int_seq(vals@).subrange(0, i as int);
        let ghost x = vals@[i as int]@;
        let ghost before = int_seq(out@);
        assert(int_seq(vals@)[i as int] == x);
        let v = match solve_linear_value(&vals[i], coefficient, modulus) {
            Some(v) => v,
            None => {
                proof {
                    assert(int_seq(vals@).to_set().contains(x));
                }
                return None;
            },
        };
        out.push(v);
        proof {
            assert(int_seq(out@) =~= before.push(f(x)));
            lemma_push_set(before, f(x));
            assert(int_seq(vals@).subrange(0, i + 1) =~= pre.push(x));
            lemma_push_set(pre, x);
            pre.to_set().lemma_set_map_insert_commute(x, f);
            assert forall|y: int| #[trigger] pre.to_set().insert(x).contains(y) implies solve_value_model(y, coefficient@, p) is Some by {
                if y != x {
                    assert(pre.to_set().contains(y));
                }
            }
        }
        i = i + 1;
    }
    proof {
        assert(int_seq(vals@).subrange(0, vals@.len() as int) =~= int_seq(vals@));
    }
    Some(out)
}

spec fn entries_len(l: &LinearExpr) -> int {
    l.term_entries().len() as int
}

fn solve_linear_domain_for_cell_with_rhs(
    linear: &LinearExpr,
    target: &CellId,
    coefficient: &Integer,
    rhs_domain: &UcpValueDomain,
    values: &UcpValueFacts,
    modulus: Option<&Integer>,
) -> (r: Option<UcpValueDomain>)
    requires
        linear.wf(),
        values.wf(),
        domain_valid(*rhs_domain),
    ensures
        r matches Some(d) ==> domain_valid(d) && solve_domain_model(
            term_list(linear@),
            linear@.constant,
            *target,
            coefficient@,
            rhs_domain@,
            values@,
            opt_view(modulus),
        ) == Some(d@),
        r is None ==> solve_domain_model(
            term_list(linear@),
            linear@.constant,
            *target,
            coefficient@,
            rhs_domain@,
            values@,
            opt_view(modulus),
        ) is None,
{
    let ghost p = opt_view(modulus);
    let ghost terms = term_list(linear@);
    proof {
        linear.lemma_term_list();
    }
    let c0 = match normalize_value(linear.constant_value(), modulus) {
        Some(c0) => c0,
        None => {
            return None;
        },
    };
    let mut rest: Vec<Integer> = Vec::new();
    rest.push(c0);
    let mut count: usize = 1;
    proof {
        assert(int_seq(rest@) =~= seq![c0@]);
        crate::domain::lemma_single_seq_set(c0@);
        assert(terms.subrange(0, terms.len() as int) =~= terms);
        assert(terms.len() == entries_len(linear));
    }
    let entries = linear.entries();
    let mut i: usize = 0;
    while i < entries.len()
        invariant
            values.wf(),
            p == opt_view(modulus),
            terms == int_entries(entries@),
            terms == term_list(linear@),
            i <= entries@.len(),
            1 <= count <= MAX_FINITE_DOMAIN_SIZE,
            normalize_model(linear@.constant, p) == Some(c0@),
            rest_model(terms, *target, values@, p, set![c0@], 1) == rest_model(
                terms.subrange(i as int, terms.len() as int),
                *target,
                values@,
                p,
                int_seq(rest@).to_set(),
                count as int,
            ),
        decreases entries@.len() - i,
    {
        let ghost tail = terms.subrange(i as int, terms.len() as int);
        proof {
            assert(tail[0] == (entries@[i as int].0, entries@[i as int].1@));
            assert(tail.drop_first() =~= terms.subrange(i + 1, terms.len() as int));
        }
        let entry = &entries[i];
        if entry.0 == *target {
            proof {
                assert(rest_model(tail, *target, values@, p, int_seq(rest@).to_set(), count as int) == rest_model(
                    terms.subrange(i + 1, terms.len() as int),
                    *target,
                    values@,
                    p,
                    int_seq(rest@).to_set(),
                    count as int,
                ));
            }
            i = i + 1;
            continue;
        }
        let ghost cur = int_seq(rest@).to_set();
        let domain = match values.domain(&entry.0) {
            Some(d) => d,
            None => {
                proof {
                    assert(rest_model(tail, *target, values@, p, cur, count as int) is None);
                }
                return None;
            },
        };
        proof {
            lemma_values_len(*domain);
        }
        let term_values = domain.values();
        if product_exceeds(count, term_values.len()) {
            proof {
                assert(rest_model(tail, *target, values@, p, cur, count as int) is None);
            }
            return None;
        }
        let scaled = scaled_values(&term_values, &entry.1);
        let raw = pair_values(&rest, &scaled, false);
        proof {
            assert(int_seq(term_values@).to_set() == values@[entry.0]);
            assert(int_seq(raw@).to_set() == pair_set(cur, scaled_set(values@[entry.0], entry.1@), false));
        }
        let next = match normalize_all(&raw, modulus) {
            Some(n) => n,
            None => {
                proof {
                    assert(rest_model(tail, *target, values@, p, cur, count as int) is None);
                }
                return None;
            },
        };
        proof {
            assert(count * term_values@.len() <= 256);
            assert(count * term_values@.len() >= 1) by (nonlinear_arith)
                requires
                    count >= 1,
                    term_values@.len() >= 1,
            ;
            assert(rest_model(tail, *target, values@, p, cur, count as int) == rest_model(
                terms.subrange(i + 1, terms.len() as int),
                *target,
                values@,
                p,
                int_seq(next@).to_set(),
                count * term_values@.len(),
            ));
        }
        rest = next;
        count = count * term_values.len();
        i = i + 1;
    }
    proof {
        assert(terms.subrange(entries@.len() as int, terms.len() as int) =~= Seq::<(CellId, int)>::empty());
        lemma_values_len(*rhs_domain);
    }
    let rhs_values = rhs_domain.values();
    if product_exceeds(rhs_values.len(), count) {
        return None;
    }
    let negated = scaled_values(&rest, &Integer::from_i64(-1));
    let diffs = pair_values(&rhs_values, &negated, false);
    let solved = match solve_all(&diffs, coefficient, modulus) {
        Some(s) => s,
        None => {
            return None;
        },
    };
    finite_domain_from_values(&solved, modulus)
}

/// The domains that a linear form `= rhs` gives its cells, over the terms `ts` in order:
/// each cell solved with the other cells over their domains of `Delta`.
pub open spec fn linear_domains_over(
    ts: Seq<(CellId, int)>,
    l: LinearModel,
    rhs: Set<int>,
    m: Map<CellId, Set<int>>,
    p: Option<int>,
) -> Seq<(CellId, Set<int>)>
    decreases ts.len(),
{
    if ts.len() == 0 {
        Seq::empty()
    } else {
        let prev = linear_domains_over(ts.drop_last(), l, rhs, m, p);
        let c = ts.last().0;
        let k = ts.last().1;
        if k == 0 {
            prev
        } else {
            match solve_domain_model(term_list(l), l.constant, c, k, rhs, m, p) {
                Some(d) => prev.push((c, d)),
                None => prev,
            }
        }
    }
}

/// The domains that a linear form `= rhs` gives its cells, in cell order.
pub open spec fn linear_domains_model(
    l: LinearModel,
    rhs: Set<int>,
    m: Map<CellId, Set<int>>,
    p: Option<int>,
) -> Seq<(CellId, Set<int>)> {
    linear_domains_over(term_list(l), l, rhs, m, p)
}

/// The cells and domain sets of a list of inferences.
pub open spec fn inference_view(v: Seq<(CellId, UcpValueDomain)>) -> Seq<(CellId, Set<int>)> {
    v.map_values(|e: (CellId, UcpValueDomain)| (e.0, e.1@))
}

/// The cells of a list of inferences.
pub open spec fn inference_cells(v: Seq<(CellId, UcpValueDomain)>) -> Set<CellId> {
    Set::new(|c: CellId| exists|i: int| 0 <= i < v.len() && #[trigger] v[i].0 == c)
}

/// Every domain of a list of inferences is valid.
pub open spec fn inferences_valid(v: Seq<(CellId, UcpValueDomain)>) -> bool {
    forall|i: int| 0 <= i < v.len() ==> domain_valid(#[trigger] v[i].1)
}

/// The listed cells are cells of the form.
pub open spec fn sorted_terms_of_entries(terms: Seq<(CellId, int)>, l: LinearModel) -> bool {
    forall|i: int| 0 <= i < terms.len() ==> l.terms.dom().contains(#[trigger] terms[i].0)
}

fn linear_domains(
    linear: &LinearExpr,
    rhs: &UcpValueDomain,
    values: &UcpValueFacts,
    modulus: Option<&Integer>,
) -> (r: Vec<(CellId, UcpValueDomain)>)
    requires
        linear.wf(),
        values.wf(),
        domain_valid(*rhs),
    ensures
        inference_view(r@) == linear_domains_model(linear@, rhs@, values@, opt_view(modulus)),
        inferences_valid(r@),
        inference_cells(r@).subset_of(linear@.terms.dom()),
{
    let ghost p = opt_view(modulus);
    let ghost terms = term_list(linear@);
    proof {
        linear.lemma_term_list();
    }
    let entries = linear.entries();
    let mut out: Vec<(CellId, UcpValueDomain)> = Vec::new();
    let mut i: usize = 0;
    proof {
        assert(inference_view(out@) =~= linear_domains_over(terms.subrange(0, 0), linear@, rhs@, values@, p));
        assert(inference_cells(out@) =~= Set::<CellId>::empty());
        assert forall|i: int| 0 <= i < terms.len() implies linear@.terms.dom().contains(#[trigger] terms[i].0) by {
            assert(crate::linear::sorted_terms_of(terms, linear@.terms));
        }
    }
    while i < entries.len()
        invariant
            linear.wf(),
            values.wf(),
            domain_valid(*rhs),
            p == opt_view(modulus),
            terms == int_entries(entries@),
            terms == term_list(linear@),
            i <= entries@.len(),
            inferences_valid(out@),
            inference_cells(out@).subset_of(linear@.terms.dom()),
            sorted_terms_of_entries(terms, linear@),
            inference_view(out@) == linear_domains_over(terms.subrange(0, i as int), linear@, rhs@, values@, p),
        decreases entries@.len() - i,
    {
        let entry = &entries[i];
        let ghost before = out@;
        proof {
            let pre = terms.subrange(0, i + 1);
            assert(pre.drop_last() =~= terms.subrange(0, i as int));
            assert(pre.last() == (entry.0, entry.1@));
        }
        if !entry.1.is_zero() {
            match solve_linear_domain_for_cell_with_rhs(linear, &entry.0, &entry.1, rhs, values, modulus) {
                Some(d) => {
                    out.push((entry.0, d));
                    proof {
                        assert(inference_view(out@) =~= inference_view(before).push((entry.0, d@)));
                        assert(terms[i as int].0 == entry.0);
                        assert(linear@.terms.dom().contains(entry.0));
                        assert forall|c: CellId| #[trigger] inference_cells(out@).contains(c) implies linear@.terms.dom().contains(c) by {
                            let k = choose|k: int| 0 <= k < out@.len() && out@[k].0 == c;
                            if k < before.len() {
                                assert(before[k] == out@[k]);
                                assert(inference_cells(before).contains(c));
                            }
                        }
                    }
                },
                None => {},
            }
        }
        i = i + 1;
    }
    proof {
        assert(terms.subrange(0, entries@.len() as int) =~= terms);
    }
    out
}

/// Records an inference: a cell already listed takes the intersection with its listed domain
/// where that is non-empty (else the list stays), a new cell is appended.
pub open spec fn push_inference(list: Seq<(CellId, Set<int>)>, c: CellId, d: Set<int>) -> Seq<
    (CellId, Set<int>),
>
    decreases list.len(),
{
    if list.len() == 0 {
        seq![(c, d)]
    } else if list[0].0 == c {
        let x = list[0].1.intersect(d);
        if x.is_empty() {
            list
        } else {
            list.update(0, (c, x))
        }
    } else {
        seq![list[0]] + push_inference(list.drop_first(), c, d)
    }
}

/// Records a list of inferences in order.
pub open spec fn push_all(list: Seq<(CellId, Set<int>)>, items: Seq<(CellId, Set<int>)>) -> Seq<
    (CellId, Set<int>),
>
    decreases items.len(),
{
    if items.len() == 0 {
        list
    } else {
        push_inference(push_all(list, items.drop_last()), items.last().0, items.last().1)
    }
}

/// `push_inference` acts at the first position that holds the cell.
proof fn lemma_push_inference_at(list: Seq<(CellId, Set<int>)>, c: CellId, d: Set<int>, j: int)
    requires
        0 <= j <= list.len(),
        forall|i: int| 0 <= i < j ==> #[trigger] list[i].0 != c,
        j < list.len() ==> list[j].0 == c,
    ensures
        j == list.len() ==> push_inference(list, c, d) == list.push((c, d)),
        j < list.len() ==> push_inference(list, c, d) == (if list[j].1.intersect(d).is_empty() {
            list
        } else {
            list.update(j, (c, list[j].1.intersect(d)))
        }),
    decreases j,
{
    if j == 0 {
        if list.len() == 0 {
            assert(seq![(c, d)] =~= list.push((c, d)));
        }
    } else {
        let rest = list.drop_first();
        assert forall|i: int| 0 <= i < j - 1 implies #[trigger] rest[i].0 != c by {
            assert(rest[i] == list[i + 1]);
        }
        lemma_push_inference_at(rest, c, d, j - 1);
        if j == list.len() {
            assert(seq![list[0]] + rest.push((c, d)) =~= list.push((c, d)));
        } else {
            assert(rest[j - 1] == list[j]);
            if !list[j].1.intersect(d).is_empty() {
                assert(seq![list[0]] + rest.update(j - 1, (c, list[j].1.intersect(d))) =~= list.update(
                    j,
                    (c, list[j].1.intersect(d)),
                ));
            } else {
                assert(seq![list[0]] + rest =~= list);
            }
        }
    }
}

/// Records an inference, intersecting with a listed domain of the same cell.
fn push_domain_inference(inferences: &mut Vec<(CellId, UcpValueDomain)>, cell: CellId, domain: UcpValueDomain)
    requires
        inferences_valid(old(inferences)@),
        domain_valid(domain),
    ensures
        inferences_valid(final(inferences)@),
        inference_view(final(inferences)@) == push_inference(inference_view(old(inferences)@), cell, domain@),
        inference_cells(final(inferences)@).subset_of(inference_cells(old(inferences)@).insert(cell)),
{
    let ghost orig = inferences@;
    let ghost list = inference_view(inferences@);
    let mut j: usize = 0;
    while j < inferences.len() && !(inferences[j].0 == cell)
        invariant
            j <= inferences@.len(),
            list == inference_view(inferences@),
            forall|i: int| 0 <= i < j ==> #[trigger] list[i].0 != cell,
        decreases inferences@.len() - j,
    {
        j = j + 1;
    }
    proof {
        lemma_push_inference_at(list, cell, domain@, j as int);
    }
    if j < inferences.len() {
        assert(domain_valid(inferences@[j as int].1));
        match inferences[j].1.intersect(&domain) {
            Some(x) => {
                let ghost before = inferences@;
                inferences.set(j, (cell, x));
                proof {
                    assert(inference_view(inferences@) =~= list.update(j as int, (cell, list[j as int].1.intersect(domain@))));
                    assert forall|i: int| 0 <= i < inferences@.len() implies domain_valid(#[trigger] inferences@[i].1) by {
                        if i != j {
                            assert(inferences@[i] == before[i]);
                        }
                    }
                    assert forall|c: CellId| #[trigger] inference_cells(inferences@).contains(c) implies inference_cells(orig).insert(cell).contains(c) by {
                        let k = choose|k: int| 0 <= k < inferences@.len() && inferences@[k].0 == c;
                        if k != j {
                            assert(orig[k] == inferences@[k]);
                        }
                    }
                }
            },
            None => {
                proof {
                    assert(inference_cells(inferences@) =~= inference_cells(orig));
                }
            },
        }
    } else {
        let ghost before = inferences@;
        inferences.push((cell, domain));
        proof {
            assert(inference_view(inferences@) =~= list.push((cell, domain@)));
            assert forall|i: int| 0 <= i < inferences@.len() implies domain_valid(#[trigger] inferences@[i].1) by {
                if i < before.len() {
                    assert(inferences@[i] == before[i]);
                }
            }
            assert forall|c: CellId| #[trigger] inference_cells(inferences@).contains(c) implies inference_cells(orig).insert(cell).contains(c) by {
                let k = choose|k: int| 0 <= k < inferences@.len() && inferences@[k].0 == c;
                if k < before.len() {
                    assert(orig[k] == inferences@[k]);
                }
            }
        }
    }
}

/// The domains that a zero equation teaches, in order: the Root rule, then the Assign rule on
/// values, then each cell of a linear equation solved over the domains of the others; a cell
/// learned twice keeps the non-empty intersection.
pub open spec fn value_inference_model(e: ExprModel, m: Map<CellId, Set<int>>, p: Option<int>) -> Seq<
    (CellId, Set<int>),
> {
    let l1 = match root_domain_model(e, m) {
        Some((c, d)) => push_inference(Seq::empty(), c, d),
        None => Seq::empty(),
    };
    let l2 = match zero_assign_model(e, m) {
        Some((c, v)) => push_inference(l1, c, set![v]),
        None => l1,
    };
    match lin_model(e, m) {
        Some(l) => push_all(l2, linear_domains_model(l, set![0], m, p)),
        None => l2,
    }
}

/// The domains that `e in rhs` teaches the cells of a linear `e`.
pub open spec fn membership_inference_model(
    e: ExprModel,
    rhs: Set<int>,
    m: Map<CellId, Set<int>>,
    p: Option<int>,
) -> Seq<(CellId, Set<int>)> {
    match lin_model(e, m) {
        Some(l) => push_all(Seq::empty(), linear_domains_model(l, rhs, m, p)),
        None => Seq::empty(),
    }
}

/// The exact values among inferences, in order.
pub open spec fn exact_assignments(list: Seq<(CellId, Set<int>)>) -> Seq<(CellId, int)>
    decreases list.len(),
{
    if list.len() == 0 {
        Seq::empty()
    } else {
        let prev = exact_assignments(list.drop_last());
        if list.last().1.len() == 1 {
            prev.push((list.last().0, list.last().1.choose()))
        } else {
            prev
        }
    }
}

fn push_all_inferences(inferences: &mut Vec<(CellId, UcpValueDomain)>, items: &Vec<(CellId, UcpValueDomain)>)
    requires
        inferences_valid(old(inferences)@),
        inferences_valid(items@),
    ensures
        inferences_valid(final(inferences)@),
        inference_view(final(inferences)@) == push_all(inference_view(old(inferences)@), inference_view(items@)),
        inference_cells(final(inferences)@).subset_of(inference_cells(old(inferences)@).union(inference_cells(items@))),
{
    let ghost orig = inferences@;
    let ghost start = inference_view(inferences@);
    let ghost all = inference_view(items@);
    let mut k: usize = 0;
    proof {
        assert(all.subrange(0, 0) =~= Seq::<(CellId, Set<int>)>::empty());
    }
    while k < items.len()
        invariant
            inferences_valid(items@),
            inferences_valid(inferences@),
            all == inference_view(items@),
            k <= items@.len(),
            inference_view(inferences@) == push_all(start, all.subrange(0, k as int)),
            inference_cells(inferences@).subset_of(inference_cells(orig).union(inference_cells(items@))),
        decreases items@.len() - k,
    {
        let item = &items[k];
        let d = item.1.clone();
        proof {
            assert(domain_valid(item.1));
            lemma_domain_clone(item.1, d);
            let pre = all.subrange(0, k + 1);
            assert(pre.drop_last() =~= all.subrange(0, k as int));
            assert(pre.last() == (item.0, item.1@));
        }
        proof {
            assert(inference_cells(items@).contains(item.0));
        }
        push_domain_inference(inferences, item.0, d);
        k = k + 1;
    }
    proof {
        assert(all.subrange(0, all.len() as int) =~= all);
    }
}

/// Values that the Assign rule on values learns are in the range of `i64`.
proof fn lemma_zero_assign_in_range(e: ExprModel, m: Map<CellId, Set<int>>)
    ensures
        zero_assign_model(e, m) matches Some((c, v)) ==> in_i64_range(v),
    decreases e,
{
    match e {
        ExprModel::Mul(l, r) => {
            lemma_zero_assign_in_range(*l, m);
            lemma_zero_assign_in_range(*r, m);
        },
        ExprModel::Scale(inner, s) => {
            lemma_zero_assign_in_range(*inner, m);
        },
        _ => {},
    }
}

fn infer_value_domains_from_zero_equation_with_optional_modulus(
    expr: &UcpExpr,
    values: &UcpValueFacts,
    modulus: Option<&Integer>,
) -> (r: Vec<(CellId, UcpValueDomain)>)
    requires
        values.wf(),
    ensures
        inferences_valid(r@),
        inference_view(r@) == value_inference_model(expr@, values@, opt_view(modulus)),
        inference_cells(r@).subset_of(expr_cells(expr@)),
{
    let mut inferences: Vec<(CellId, UcpValueDomain)> = Vec::new();
    proof {
        assert(inference_view(inferences@) =~= Seq::<(CellId, Set<int>)>::empty());
        assert(inference_cells(inferences@) =~= Set::<CellId>::empty());
        lemma_root_domain_cell(expr@, values@);
        lemma_zero_assign_cell(expr@, values@);
        lemma_lin_cells(expr@, values@);
    }
    if let Some((cell, domain)) = infer_root_domain(expr, values) {
        push_domain_inference(&mut inferences, cell, domain);
    }
    if let Some((cell, value)) = infer_from_zero_expr(expr, values) {
        proof {
            lemma_zero_assign_in_range(expr@, values@);
        }
        let d = UcpValueDomain::exact(value);
        push_domain_inference(&mut inferences, cell, d);
    }
    if let Some(linear) = linearize(expr, values) {
        let zero = zero_domain();
        let items = linear_domains(&linear, &zero, values, modulus);
        push_all_inferences(&mut inferences, &items);
    }
    inferences
}

/// The domains that a zero equation `expr = 0` teaches under `Delta`.
pub fn infer_value_domains_from_zero_equation(expr: &UcpExpr, values: &UcpValueFacts) -> (r: Vec<
    (CellId, UcpValueDomain),
>)
    requires
        values.wf(),
    ensures
        inferences_valid(r@),
        inference_view(r@) == value_inference_model(expr@, values@, None),
        inference_cells(r@).subset_of(expr_cells(expr@)),
{
    infer_value_domains_from_zero_equation_with_optional_modulus(expr, values, None)
}

/// The domains that a zero equation teaches, with values taken modulo the field modulus.
pub fn infer_value_domains_from_zero_equation_with_modulus(
    expr: &UcpExpr,
    values: &UcpValueFacts,
    field_modulus: &Integer,
) -> (r: Vec<(CellId, UcpValueDomain)>)
    requires
        values.wf(),
    ensures
        inferences_valid(r@),
        inference_view(r@) == value_inference_model(expr@, values@, Some(field_modulus@)),
        inference_cells(r@).subset_of(expr_cells(expr@)),
{
    infer_value_domains_from_zero_equation_with_optional_modulus(expr, values, Some(field_modulus))
}

/// The exact cell values that a zero equation teaches.
pub fn infer_value_assignments_from_zero_equation(expr: &UcpExpr, values: &UcpValueFacts) -> (r: Vec<
    (CellId, Integer),
>)
    requires
        values.wf(),
    ensures
        r@.map_values(|e: (CellId, Integer)| (e.0, e.1@)) == exact_assignments(
            value_inference_model(expr@, values@, None),
        ),
{
    let all = infer_value_domains_from_zero_equation(expr, values);
    let ghost list = inference_view(all@);
    let mut out: Vec<(CellId, Integer)> = Vec::new();
    let mut i: usize = 0;
    proof {
        assert(out@.map_values(|e: (CellId, Integer)| (e.0, e.1@)) =~= exact_assignments(list.subrange(0, 0)));
    }
    while i < all.len()
        invariant
            i <= all@.len(),
            list == inference_view(all@),
            inferences_valid(all@),
            out@.map_values(|e: (CellId, Integer)| (e.0, e.1@)) == exact_assignments(list.subrange(0, i as int)),
        decreases all@.len() - i,
    {
        let ghost before = out@;
        let entry = &all[i];
        proof {
            assert(domain_valid(entry.1));
            lemma_domain_valid(entry.1);
            let pre = list.subrange(0, i + 1);
            assert(pre.drop_last() =~= list.subrange(0, i as int));
            assert(pre.last() == (entry.0, entry.1@));
        }
        match &entry.1 {
            UcpValueDomain::Exact(v) => {
                out.push((entry.0, v.clone()));
                proof {
                    let x = set![v@].choose();
                    assert(set![v@].contains(x));
                    assert(out@.map_values(|e: (CellId, Integer)| (e.0, e.1@)) =~= before.map_values(
                        |e: (CellId, Integer)| (e.0, e.1@),
                    ).push((entry.0, v@)));
                }
            },
            UcpValueDomain::FiniteSet(_) => {},
        }
        i = i + 1;
    }
    proof {
        assert(list.subrange(0, all@.len() as int) =~= list);
    }
    out
}

fn infer_domains_from_expression_domain_with_optional_modulus(
    expr: &UcpExpr,
    expr_domain: &UcpValueDomain,
    values: &UcpValueFacts,
    modulus: Option<&Integer>,
) -> (r: Vec<(CellId, UcpValueDomain)>)
    requires
        values.wf(),
        domain_valid(*expr_domain),
    ensures
        inferences_valid(r@),
        inference_view(r@) == membership_inference_model(expr@, expr_domain@, values@, opt_view(modulus)),
        inference_cells(r@).subset_of(expr_cells(expr@)),
{
    let mut inferences: Vec<(CellId, UcpValueDomain)> = Vec::new();
    proof {
        assert(inference_view(inferences@) =~= Seq::<(CellId, Set<int>)>::empty());
        assert(inference_cells(inferences@) =~= Set::<CellId>::empty());
        lemma_lin_cells(expr@, values@);
    }
    match linearize(expr, values) {
        Some(linear) => {
            let items = linear_domains(&linear, expr_domain, values, modulus);
            push_all_inferences(&mut inferences, &items);
        },
        None => {},
    }
    inferences
}

/// The domains that `expr in expr_domain` (a lookup) teaches the cells of a linear `expr`.
pub fn infer_domains_from_expression_domain(
    expr: &UcpExpr,
    expr_domain: &UcpValueDomain,
    values: &UcpValueFacts,
) -> (r: Vec<(CellId, UcpValueDomain)>)
    requires
        values.wf(),
        domain_valid(*expr_domain),
    ensures
        inferences_valid(r@),
        inference_view(r@) == membership_inference_model(expr@, expr_domain@, values@, None),
        inference_cells(r@).subset_of(expr_cells(expr@)),
{
    infer_domains_from_expression_domain_with_optional_modulus(expr, expr_domain, values, None)
}

/// The same, with values taken modulo the field modulus.
pub fn infer_domains_from_expression_domain_with_modulus(
    expr: &UcpExpr,
    expr_domain: &UcpValueDomain,
    values: &UcpValueFacts,
    field_modulus: &Integer,
) -> (r: Vec<(CellId, UcpValueDomain)>)
    requires
        values.wf(),
        domain_valid(*expr_domain),
    ensures
        inferences_valid(r@),
        inference_view(r@) == membership_inference_model(expr@, expr_domain@, values@, Some(field_modulus@)),
        inference_cells(r@).subset_of(expr_cells(expr@)),
{
    infer_domains_from_expression_domain_with_optional_modulus(expr, expr_domain, values, Some(field_modulus))
}

/// The cells of an expression are finitely many.
pub proof fn lemma_expr_cells_finite(e: ExprModel)
    ensures
        expr_cells(e).finite(),
    decreases e,
{
    match e {
        ExprModel::Var(c) => {},
        ExprModel::Const(_) => {},
        ExprModel::Neg(inner) => lemma_expr_cells_finite(*inner),
        ExprModel::Add(l, r) => {
            lemma_expr_cells_finite(*l);
            lemma_expr_cells_finite(*r);
        },
        ExprModel::Mul(l, r) => {
            lemma_expr_cells_finite(*l);
            lemma_expr_cells_finite(*r);
        },
        ExprModel::Scale(inner, _) => lemma_expr_cells_finite(*inner),
    }
}

/// The cells of a linear form are cells of the expression.
pub proof fn lemma_lin_cells(e: ExprModel, m: Map<CellId, Set<int>>)
    ensures
        lin_model(e, m) matches Some(l) ==> l.terms.dom().subset_of(expr_cells(e)) && l.terms.dom().finite(),
    decreases e,
{
    lemma_expr_cells_finite(e);
    if eval_model(e, m) is Some {
        assert(Map::<CellId, int>::empty().dom() =~= Set::<CellId>::empty());
    } else {
        match e {
            ExprModel::Var(c) => {
                assert(map![c => 1int].dom() =~= set![c]);
            },
            ExprModel::Const(_) => {},
            ExprModel::Neg(inner) => {
                lemma_lin_cells(*inner, m);
            },
            ExprModel::Add(l, r) => {
                lemma_lin_cells(*l, m);
                lemma_lin_cells(*r, m);
            },
            ExprModel::Mul(l, r) => {
                lemma_lin_cells(*l, m);
                lemma_lin_cells(*r, m);
            },
            ExprModel::Scale(inner, _) => {
                lemma_lin_cells(*inner, m);
            },
        }
        if let Some(l) = lin_model(e, m) {
            vstd::set_lib::lemma_set_subset_finite(expr_cells(e), l.terms.dom());
        }
    }
}

/// The root of a one-cell form is at its cell.
pub proof fn lemma_linear_root_cell(l: LinearModel, unit_only: bool)
    requires
        l.terms.dom().finite(),
    ensures
        linear_root(l, unit_only) matches Some((c, v)) ==> l.terms.dom().contains(c),
{
    if l.terms.len() == 1 {
        assert(l.terms.dom().len() > 0);
        let x = l.terms.dom().choose();
    }
}

/// The factors of a product refer to cells of the product.
proof fn lemma_factor_cells(e: ExprModel, i: int)
    requires
        0 <= i < product_factors(e).len(),
    ensures
        expr_cells(product_factors(e)[i]).subset_of(expr_cells(e)),
    decreases e,
{
    match e {
        ExprModel::Mul(l, r) => {
            let a = product_factors(*l);
            let b = product_factors(*r);
            assert(product_factors(e) == a + b);
            if i < a.len() {
                lemma_factor_cells(*l, i);
                assert((a + b)[i] == a[i]);
            } else {
                lemma_factor_cells(*r, i - a.len());
                assert((a + b)[i] == b[i - a.len()]);
            }
        },
        ExprModel::Neg(inner) => lemma_factor_cells(*inner, i),
        ExprModel::Scale(inner, s) => {
            if s is NonZero || s is Known {
                lemma_factor_cells(*inner, i);
            }
        },
        _ => {},
    }
}

/// The Assign rule on values names a cell of the equation.
proof fn lemma_zero_assign_cell(e: ExprModel, m: Map<CellId, Set<int>>)
    ensures
        zero_assign_model(e, m) matches Some((c, v)) ==> expr_cells(e).contains(c),
    decreases e,
{
    lemma_lin_cells(e, m);
    if let Some(l) = lin_model(e, m) {
        lemma_linear_root_cell(l, false);
    }
    match e {
        ExprModel::Mul(l, r) => {
            lemma_zero_assign_cell(*l, m);
            lemma_zero_assign_cell(*r, m);
        },
        ExprModel::Scale(inner, s) => {
            lemma_zero_assign_cell(*inner, m);
        },
        _ => {},
    }
}

/// The Root rule names a cell of the equation.
proof fn lemma_root_domain_cell(e: ExprModel, m: Map<CellId, Set<int>>)
    ensures
        root_domain_model(e, m) matches Some((c, d)) ==> expr_cells(e).contains(c),
{
    let fs = product_factors(e);
    if fs.len() >= 2 {
        lemma_factor_cells(e, 0);
        lemma_lin_cells(fs[0], m);
        if let Some(l) = lin_model(fs[0], m) {
            lemma_linear_root_cell(l, true);
        }
        assert(expr_cells(fs[0]).subset_of(expr_cells(e)));
    }
}

/// Whether a byte is an ASCII decimal digit.
pub open spec fn is_digit(b: u8) -> bool {
    48 <= b <= 57
}

/// The value of a non-empty string of decimal digits; `None` for an empty string or one
/// with another byte.
pub open spec fn decimal_value(s: Seq<u8>) -> Option<nat>
    decreases s.len(),
{
    if s.len() == 0 || !is_digit(s.last()) {
        None
    } else if s.len() == 1 {
        Some((s.last() - 48) as nat)
    } else {
        match decimal_value(s.drop_last()) {
            Some(v) => Some(v * 10 + (s.last() - 48) as nat),
            None => None,
        }
    }
}

/// The value of a decimal number as std parses an unsigned one: an optional `+`, then digits.
pub open spec fn number_value(s: Seq<u8>) -> Option<nat> {
    if s.len() > 0 && s[0] == 43 {
        decimal_value(s.drop_first())
    } else {
        decimal_value(s)
    }
}

/// The cell named `K-column-row`, `K` one of `A`, `I`, `F` (advice, instance, fixed), the
/// column a number that fits `usize`, the row one that fits `i32`; `None` for any other text.
pub open spec fn cell_name_model(b: Seq<u8>) -> Option<CellId> {
    if b.len() < 2 || b[1] != 45 || !(b[0] == 65 || b[0] == 73 || b[0] == 70) {
        None
    } else {
        let rest = b.subrange(2, b.len() as int);
        if exists|j: int| 0 <= j < rest.len() && rest[j] == 45 && forall|i: int| 0 <= i < rest.len() && i != j ==> rest[i] != 45 {
            let j = choose|j: int| 0 <= j < rest.len() && rest[j] == 45 && forall|i: int| 0 <= i < rest.len() && i != j ==> rest[i] != 45;
            match (number_value(rest.subrange(0, j)), number_value(rest.subrange(j + 1, rest.len() as int))) {
                (Some(column), Some(row)) => if column <= usize::MAX && row <= i32::MAX {
                    Some(CellId {
                        kind: if b[0] == 65 {
                            CellKind::Advice
                        } else if b[0] == 73 {
                            CellKind::Instance
                        } else {
                            CellKind::Fixed
                        },
                        column: column as usize,
                        row: row as i32,
                    })
                } else {
                    None
                },
                _ => None,
            }
        } else {
            None
        }
    }
}

/// The decimal digits of a number are digits and read back as the number.
pub proof fn lemma_decimal_round_trip(n: nat)
    ensures
        decimal_bytes(n).len() >= 1,
        forall|i: int| 0 <= i < decimal_bytes(n).len() ==> #[trigger] is_digit(decimal_bytes(n)[i]),
        decimal_value(decimal_bytes(n)) == Some(n),
    decreases n,
{
    if n >= 10 {
        lemma_decimal_round_trip(n / 10);
        let d = decimal_bytes(n / 10);
        assert(decimal_bytes(n) == d.push((48 + n % 10) as u8));
        assert(decimal_bytes(n).drop_last() =~= d);
        assert forall|i: int| 0 <= i < decimal_bytes(n).len() implies #[trigger] is_digit(decimal_bytes(n)[i]) by {
            if i < d.len() {
                assert(decimal_bytes(n)[i] == d[i]);
                assert(is_digit(d[i]));
            }
        }
    }
}

/// A cell's name reads back as the cell: every cell with a row of at least zero is what its
/// name, `K-column-row`, parses to.
#[verifier::spinoff_prover]
#[verifier::rlimit(50)]
pub proof fn lemma_cell_name_round_trip(c: CellId)
    requires
        c.row >= 0,
    ensures
        cell_name_model(cell_name_bytes(c)) == Some(c),
{
    let b = cell_name_bytes(c);
    let dc = decimal_bytes(c.column as nat);
    let dr = decimal_bytes(c.row as nat);
    lemma_decimal_round_trip(c.column as nat);
    lemma_decimal_round_trip(c.row as nat);
    assert(signed_decimal_bytes(c.column as int) == dc);
    assert(signed_decimal_bytes(c.row as int) == dr);
    let rest = b.subrange(2, b.len() as int);
    assert(rest =~= dc + seq![45u8] + dr);
    let j = dc.len() as int;
    assert(rest[j] == 45);
    assert forall|i: int| 0 <= i < rest.len() && i != j implies rest[i] != 45 by {
        if i < j {
            assert(rest[i] == dc[i]);
            assert(is_digit(dc[i]));
        } else {
            assert(rest[i] == dr[i - j - 1]);
            assert(is_digit(dr[i - j - 1]));
        }
    }
    let jj = choose|jj: int| 0 <= jj < rest.len() && rest[jj] == 45 && forall|i: int| 0 <= i < rest.len() && i != jj ==> rest[i] != 45;
    assert(jj == j);
    assert(rest.subrange(0, j) =~= dc);
    assert(rest.subrange(j + 1, rest.len() as int) =~= dr);
    assert(is_digit(dc[0]) && is_digit(dr[0]));
    assert(b[0] == kind_letter(c.kind));
}

proof fn lemma_digits_prefix(s: Seq<u8>, n: int)
    requires
        0 < n <= s.len(),
        decimal_value(s) is Some,
    ensures
        decimal_value(s.subrange(0, n)) is Some,
        decimal_value(s.subrange(0, n))->0 <= decimal_value(s)->0,
    decreases s.len(),
{
    if n < s.len() {
        assert(s.drop_last() =~= s.subrange(0, s.len() - 1));
        if s.len() > 1 {
            lemma_digits_prefix(s.drop_last(), n);
            assert(s.drop_last().subrange(0, n) =~= s.subrange(0, n));
        }
    } else {
        assert(s.subrange(0, n) =~= s);
    }
}

/// The value of the digits `bytes[start..end]` where it is at most `max`.
fn parse_digits(bytes: &[u8], start: usize, end: usize, max: usize) -> (r: Option<usize>)
    requires
        start <= end <= bytes@.len(),
    ensures
        r matches Some(v) ==> decimal_value(bytes@.subrange(start as int, end as int)) == Some(v as nat) && v <= max,
        r is None ==> !(decimal_value(bytes@.subrange(start as int, end as int)) matches Some(v) && v <= max),
{
    if start == end {
        return None;
    }
    let mut acc: usize = 0;
    let mut i: usize = start;
    while i < end
        invariant
            start <= i <= end <= bytes@.len(),
            acc <= max,
            i > start ==> decimal_value(bytes@.subrange(start as int, i as int)) == Some(acc as nat),
            i == start ==> acc == 0,
        decreases end - i,
    {
        let b = bytes[i];
        let ghost pre = bytes@.subrange(start as int, i as int);
        let ghost next = bytes@.subrange(start as int, i + 1);
        proof {
            assert(next.drop_last() =~= pre);
            assert(next.last() == b);
        }
        if b < 48 || b > 57 {
            proof {
                assert(!is_digit(next.last()));
                assert(decimal_value(next) is None);
                if decimal_value(bytes@.subrange(start as int, end as int)) is Some {
                    lemma_digits_prefix(bytes@.subrange(start as int, end as int), i + 1 - start);
                    assert(bytes@.subrange(start as int, end as int).subrange(0, i + 1 - start) =~= next);
                }
            }
            return None;
        }
        let d: usize = (b - 48) as usize;
        let next_acc = match acc.checked_mul(10) {
            Some(t) => t.checked_add(d),
            None => None,
        };
        match next_acc {
            Some(v) if v <= max => {
                acc = v;
            },
            _ => {
                proof {
                    assert(decimal_value(next) == Some((acc * 10 + d) as nat)) by {
                        if i == start {
                            assert(next.len() == 1);
                        }
                    }
                    assert(acc * 10 + d > max);
                    if decimal_value(bytes@.subrange(start as int, end as int)) is Some {
                        lemma_digits_prefix(bytes@.subrange(start as int, end as int), i + 1 - start);
                        assert(bytes@.subrange(start as int, end as int).subrange(0, i + 1 - start) =~= next);
                    }
                }
                return None;
            },
        }
        proof {
            if i == start {
                assert(next.len() == 1);
            }
        }
        i = i + 1;
    }
    Some(acc)
}

/// The value of `bytes[start..end]` read as std reads an unsigned number, where it is at most
/// `max`.
fn parse_number(bytes: &[u8], start: usize, end: usize, max: usize) -> (r: Option<usize>)
    requires
        start <= end <= bytes@.len(),
    ensures
        r matches Some(v) ==> number_value(bytes@.subrange(start as int, end as int)) == Some(v as nat) && v <= max,
        r is None ==> !(number_value(bytes@.subrange(start as int, end as int)) matches Some(v) && v <= max),
{
    let ghost s = bytes@.subrange(start as int, end as int);
    if start < end && bytes[start] == 43 {
        proof {
            assert(s[0] == 43);
            assert(s.drop_first() =~= bytes@.subrange(start + 1, end as int));
        }
        parse_digits(bytes, start + 1, end, max)
    } else {
        parse_digits(bytes, start, end, max)
    }
}

/// The cell a name such as `I-0-3` stands for, as the analyzer names cells; `None` for a
/// name of another shape.
pub fn parse_cell_id(name: &str) -> (r: Option<CellId>)
    ensures
        r == cell_name_model(name.spec_bytes()),
{
    let bytes = name.as_bytes();
    let ghost b = bytes@;
    if bytes.len() < 2 || bytes[1] != 45 {
        return None;
    }
    let kind = if bytes[0] == 65 {
        CellKind::Advice
    } else if bytes[0] == 73 {
        CellKind::Instance
    } else if bytes[0] == 70 {
        CellKind::Fixed
    } else {
        return None;
    };
    let ghost rest = b.subrange(2, b.len() as int);
    let mut dash: usize = 0;
    let mut dashes: usize = 0;
    let mut i: usize = 2;
    while i < bytes.len()
        invariant
            b == bytes@,
            rest == b.subrange(2, b.len() as int),
            2 <= i <= bytes@.len(),
            dashes <= 2,
            dashes == 0 ==> forall|k: int| 0 <= k < i - 2 ==> rest[k] != 45,
            dashes == 1 ==> 2 <= dash < i && rest[dash - 2] == 45 && forall|k: int| 0 <= k < i - 2 && k != dash - 2 ==> rest[k] != 45,
            dashes == 2 ==> exists|a: int, c: int| 0 <= a < c < i - 2 && rest[a] == 45 && rest[c] == 45,
        decreases bytes@.len() - i,
    {
        if bytes[i] == 45 {
            if dashes == 0 {
                dash = i;
                dashes = 1;
            } else if dashes == 1 {
                proof {
                    assert(rest[dash - 2] == 45 && rest[i - 2] == 45);
                }
                dashes = 2;
            }
        }
        i = i + 1;
    }
    if dashes != 1 {
        proof {
            if dashes == 2 {
                let (a, c) = choose|a: int, c: int| 0 <= a < c < rest.len() && rest[a] == 45 && rest[c] == 45;
                assert forall|j: int| 0 <= j < rest.len() && rest[j] == 45 implies exists|i: int|
                    0 <= i < rest.len() && i != j && rest[i] == 45 by {
                    if j == a {
                        assert(rest[c] == 45);
                    } else {
                        assert(rest[a] == 45);
                    }
                }
            }
        }
        return None;
    }
    proof {
        let j = dash - 2;
        assert(0 <= j < rest.len() && rest[j] == 45 && forall|i: int| 0 <= i < rest.len() && i != j ==> rest[i] != 45);
        let jj = choose|jj: int| 0 <= jj < rest.len() && rest[jj] == 45 && forall|i: int| 0 <= i < rest.len() && i != jj ==> rest[i] != 45;
        assert(jj == j);
        assert(rest.subrange(0, j) =~= b.subrange(2, dash as int));
        assert(rest.subrange(j + 1, rest.len() as int) =~= b.subrange(dash + 1, b.len() as int));
    }
    let column = match parse_number(bytes, 2, dash, usize::MAX) {
        Some(c) => c,
        None => {
            return None;
        },
    };
    let row = match parse_number(bytes, dash + 1, bytes.len(), 0x7fff_ffffusize) {
        Some(r) => r,
        None => {
            return None;
        },
    };
    Some(CellId { kind, column, row: row as i32 })
}

/// `Delta` after recording an exact value `v` for a cell: a new cell takes `{v}`, a cell whose
/// domain holds `v` among others narrows to `{v}`, any other is left as it is.
pub open spec fn mark_exact_model(m: Map<CellId, Set<int>>, c: CellId, v: int) -> Map<CellId, Set<int>> {
    if !m.dom().contains(c) {
        m.insert(c, set![v])
    } else if m[c].contains(v) {
        m.insert(c, set![v])
    } else {
        m
    }
}

/// The `Delta` of public instance values given by cell name: each name that parses gets its
/// value, in the order given.
pub open spec fn instance_values_model(entries: Seq<(Seq<char>, i64)>) -> Map<CellId, Set<int>>
    decreases entries.len(),
{
    if entries.len() == 0 {
        Map::empty()
    } else {
        let m = instance_values_model(entries.drop_last());
        match cell_name_model(vstd::utf8::encode_utf8(entries.last().0)) {
            Some(c) => mark_exact_model(m, c, entries.last().1 as int),
            None => m,
        }
    }
}

/// The initial `Delta` from the public instance values that the analyzer's input gives by
/// cell name; names that do not parse are skipped.
pub fn initial_values_from_instance_cells(instance_cells: &[(String, i64)]) -> (r: UcpValueFacts)
    ensures
        r.wf(),
        r@ == instance_values_model(instance_cells@.map_values(|e: (String, i64)| (e.0@, e.1))),
{
    let ghost entries = instance_cells@.map_values(|e: (String, i64)| (e.0@, e.1));
    let mut values = UcpValueFacts::new();
    let mut i: usize = 0;
    while i < instance_cells.len()
        invariant
            entries == instance_cells@.map_values(|e: (String, i64)| (e.0@, e.1)),
            i <= instance_cells@.len(),
            values.wf(),
            values@ == instance_values_model(entries.subrange(0, i as int)),
        decreases instance_cells@.len() - i,
    {
        let (name, value) = &instance_cells[i];
        proof {
            let pre = entries.subrange(0, i + 1);
            assert(pre.drop_last() =~= entries.subrange(0, i as int));
            assert(pre.last() == (name@, *value));
        }
        let text = name.as_str();
        proof {
            assert(text.spec_bytes() == vstd::utf8::encode_utf8(name@));
        }
        if let Some(cell) = parse_cell_id(text) {
            let ghost m0 = values@;
            let v = Integer::from_i64(*value);
            values.mark_known(cell, v);
            proof {
                values.lemma_wf();
                lemma_mark_exact(m0, cell, v);
            }
        }
        i = i + 1;
    }
    assert(entries.subrange(0, instance_cells@.len() as int) =~= entries);
    values
}

/// Marking an exact value in range is `mark_exact_model`.
proof fn lemma_mark_exact(m: Map<CellId, Set<int>>, c: CellId, v: Integer)
    requires
        in_i64_range(v@),
    ensures
        mark_domain_model(m, c, UcpValueDomain::Exact(v)).0 == mark_exact_model(m, c, v@),
{
    let n = set![v@];
    assert(domain_values_model(UcpValueDomain::Exact(v)) == seq![v@]);
    assert(seq![v@].to_set() =~= n) by {
        assert(seq![v@][0] == v@);
    }
    if m.dom().contains(c) {
        let i = m[c].intersect(n);
        if m[c].contains(v@) {
            assert(i =~= n);
        } else {
            assert(i =~= Set::<int>::empty());
        }
    }
}

/// The decimal digits of a number read back give the number.
pub proof fn lemma_decimal_roundtrip(n: nat)
    ensures
        decimal_value(decimal_bytes(n)) == Some(n),
        forall|i: int| 0 <= i < decimal_bytes(n).len() ==> is_digit(#[trigger] decimal_bytes(n)[i]),
        decimal_bytes(n).len() >= 1,
    decreases n,
{
    if n >= 10 {
        lemma_decimal_roundtrip(n / 10);
        let pre = decimal_bytes(n / 10);
        assert(decimal_bytes(n) == pre.push((48 + n % 10) as u8));
        assert(decimal_bytes(n).drop_last() =~= pre);
        assert forall|i: int| 0 <= i < decimal_bytes(n).len() implies is_digit(#[trigger] decimal_bytes(n)[i]) by {
            if i < pre.len() {
                assert(decimal_bytes(n)[i] == pre[i]);
            }
        }
    }
}

/// A cell's name parses back to the cell, wherever its row is not negative (a negative row
/// is written with a `-`, which the name's separators do not allow).
pub proof fn lemma_cell_name_roundtrip(c: CellId)
    requires
        c.row >= 0,
    ensures
        cell_name_model(cell_name_bytes(c)) == Some(c),
{
    let b = cell_name_bytes(c);
    let col = decimal_bytes(c.column as nat);
    let row = decimal_bytes(c.row as nat);
    lemma_decimal_roundtrip(c.column as nat);
    lemma_decimal_roundtrip(c.row as nat);
    assert(signed_decimal_bytes(c.column as int) == col);
    assert(signed_decimal_bytes(c.row as int) == row);
    let rest = b.subrange(2, b.len() as int);
    assert(rest =~= col + seq![45u8] + row);
    let j = col.len() as int;
    assert(rest[j] == 45);
    assert forall|i: int| 0 <= i < rest.len() && i != j implies rest[i] != 45 by {
        if i < j {
            assert(rest[i] == col[i]);
            assert(is_digit(col[i]));
        } else {
            assert(rest[i] == row[i - j - 1]);
            assert(is_digit(row[i - j - 1]));
        }
    }
    let jj = choose|jj: int| 0 <= jj < rest.len() && rest[jj] == 45 && forall|i: int| 0 <= i < rest.len() && i != jj ==> rest[i] != 45;
    assert(jj == j);
    assert(rest.subrange(0, j) =~= col);
    assert(rest.subrange(j + 1, rest.len() as int) =~= row);
    assert(is_digit(col[0]));
    assert(is_digit(row[0]));
    assert(number_value(col) == Some(c.column as nat));
    assert(number_value(row) == Some(c.row as nat));
    match c.kind {
        CellKind::Advice => assert(b[0] == 65),
        CellKind::Instance => assert(b[0] == 73),
        CellKind::Fixed => assert(b[0] == 70),
    }
}

/// A text of ASCII characters is encoded by the bytes it was made of; so `parse_cell_id` reads
/// the bytes of a cell's `name`.
pub proof fn lemma_ascii_text_bytes(s: &str, b: Seq<u8>)
    requires
        s@ == ascii_chars(b),
        forall|i: int| 0 <= i < b.len() ==> b[i] < 128,
    ensures
        s.spec_bytes() == b,
{
    assert(vstd::utf8::is_ascii_chars(s@)) by {
        assert forall|i: int| 0 <= i < s@.len() implies '\0' <= #[trigger] s@[i] <= '\u{7f}' by {
            assert(s@[i] == b[i] as char);
        }
    }
    vstd::string::is_ascii_spec_bytes(s);
    assert(s.spec_bytes() =~= b) by {
        assert forall|i: int| 0 <= i < b.len() implies s.spec_bytes()[i] == b[i] by {
            let x: u8 = b[i];
            assert(s@[i] == x as char);
        }
    }
}

} // verus!
