//! The BigInt-Mul rule. When zero equations together form a linear system `A * x = b` with
//! constant coefficients in the unknown cells `x` and right-hand sides `b` that are unique,
//! and `A` has full column rank modulo `p`, the cells `x` are unique. The system is split
//! into connected components of unknown cells, each checked by Gaussian elimination.
use crate::cell::{cell_lt, CellId};
use crate::cell_map::{entry_keys, lemma_key_index, sorted_cells, CellMap};
use crate::expr::{expr_cells, exprs_cells, exprs_model, scalar_value, ExprModel, ScalarModel, UcpExpr, UcpScalar};
use crate::facts::UcpFacts;
use crate::field::{is_mod_inverse, mod_field, mod_inverse};
use crate::integer::{int_add, int_eq, int_lt, int_mul, int_sub, Integer};
use crate::linear::{
    add_terms, int_entries, lemma_sorted_keys_unique, lin_add, lin_const, lin_scale, lin_term, scale_terms, sorted_terms_of,
    term_list, LinearExpr, LinearModel,
};
use crate::rules::{expression_is_unique, unique_model};
use vstd::prelude::*;

verus! {

/// A cell that the linear system determines.
#[derive(Clone, Copy, Debug, PartialEq, Eq, Structural)]
pub struct BigIntMulInference {
    pub cell: CellId,
}

/// The exact value of an expression without cells, where every constant is known.
pub open spec fn const_value_model(e: ExprModel) -> Option<int>
    decreases e,
{
    match e {
        ExprModel::Var(_) => None,
        ExprModel::Const(s) => scalar_value(s),
        ExprModel::Neg(inner) => match const_value_model(*inner) {
            Some(v) => Some(-v),
            None => None,
        },
        ExprModel::Add(l, r) => match (const_value_model(*l), const_value_model(*r)) {
            (Some(a), Some(b)) => Some(a + b),
            _ => None,
        },
        ExprModel::Mul(l, r) => match (const_value_model(*l), const_value_model(*r)) {
            (Some(a), Some(b)) => Some(a * b),
            _ => None,
        },
        ExprModel::Scale(inner, s) => match s {
            ScalarModel::Zero => Some(0),
            ScalarModel::Known(k) => match const_value_model(*inner) {
                Some(v) => Some(v * k),
                None => None,
            },
            _ => None,
        },
    }
}

/// The unknown part `A * x` of an equation: the coefficients of its cells outside `K`, where
/// they are constants. A unique subexpression or a constant belongs to the right-hand side and
/// has none; a product is linear only with a constant factor; an abstract scalar gives no
/// constant coefficient.
pub open spec fn unknown_part_model(e: ExprModel, k: Set<CellId>) -> Option<LinearModel>
    decreases e,
{
    if unique_model(e, k) || const_value_model(e) is Some {
        Some(lin_const(0))
    } else {
        match e {
            ExprModel::Var(c) => Some(lin_term(c, 1)),
            ExprModel::Const(_) => None,
            ExprModel::Neg(inner) => match unknown_part_model(*inner, k) {
                Some(a) => Some(lin_scale(a, -1)),
                None => None,
            },
            ExprModel::Add(l, r) => match (unknown_part_model(*l, k), unknown_part_model(*r, k)) {
                (Some(a), Some(b)) => Some(lin_add(a, b)),
                _ => None,
            },
            ExprModel::Mul(l, r) => match const_value_model(*l) {
                Some(v) => match unknown_part_model(*r, k) {
                    Some(b) => Some(lin_scale(b, v)),
                    None => None,
                },
                None => match const_value_model(*r) {
                    Some(v) => match unknown_part_model(*l, k) {
                        Some(a) => Some(lin_scale(a, v)),
                        None => None,
                    },
                    None => None,
                },
            },
            ExprModel::Scale(inner, s) => match s {
                ScalarModel::Zero => Some(lin_const(0)),
                ScalarModel::Known(c) => match unknown_part_model(*inner, k) {
                    Some(a) => Some(lin_scale(a, c)),
                    None => None,
                },
                _ => None,
            },
        }
    }
}

/// The coefficients reduced modulo `p`, without the zero ones.
pub open spec fn reduce_terms(t: Map<CellId, int>, p: int) -> Map<CellId, int> {
    Map::new(|c: CellId| t.dom().contains(c) && t[c] % p != 0, |c: CellId| t[c] % p)
}

/// The linear equations of the system, in the order of the equations: the unknown parts
/// reduced modulo `p`, where any coefficient is left.
pub open spec fn equations_model(es: Seq<ExprModel>, k: Set<CellId>, p: int) -> Seq<Map<CellId, int>>
    decreases es.len(),
{
    if es.len() == 0 {
        Seq::empty()
    } else {
        let prev = equations_model(es.drop_last(), k, p);
        match unknown_part_model(es.last(), k) {
            Some(l) => if reduce_terms(l.terms, p).dom().is_empty() {
                prev
            } else {
                prev.push(reduce_terms(l.terms, p))
            },
            None => prev,
        }
    }
}

fn const_value(expr: &UcpExpr) -> (r: Option<Integer>)
    ensures
        r matches Some(v) ==> const_value_model(expr@) == Some(v@),
        r is None ==> const_value_model(expr@) is None,
    decreases expr,
{
    match expr {
        UcpExpr::Var(_) => None,
        UcpExpr::Const(scalar) => scalar.as_known(),
        UcpExpr::Neg(inner) => match const_value(inner) {
            Some(v) => Some(v.neg()),
            None => None,
        },
        UcpExpr::Add(left, right) => match const_value(left) {
            Some(a) => match const_value(right) {
                Some(b) => Some(int_add(&a, &b)),
                None => None,
            },
            None => None,
        },
        UcpExpr::Mul(left, right) => match const_value(left) {
            Some(a) => match const_value(right) {
                Some(b) => Some(int_mul(&a, &b)),
                None => None,
            },
            None => None,
        },
        UcpExpr::Scale(inner, scalar) => match scalar {
            UcpScalar::Zero => Some(Integer::zero()),
            UcpScalar::Known(k) => match const_value(inner) {
                Some(v) => Some(int_mul(&v, k)),
                None => None,
            },
            UcpScalar::NonZero | UcpScalar::Unknown => None,
        },
    }
}

/// The cells of the unknown part are cells of the equation outside `K`.
proof fn lemma_unknown_cells(e: ExprModel, k: Set<CellId>)
    ensures
        unknown_part_model(e, k) matches Some(l) ==> l.terms.dom().subset_of(expr_cells(e)) && (forall|c: CellId|
            #[trigger] l.terms.dom().contains(c) ==> !k.contains(c)),
    decreases e,
{
    if unique_model(e, k) || const_value_model(e) is Some {
        assert(Map::<CellId, int>::empty().dom() =~= Set::<CellId>::empty());
    } else {
        match e {
            ExprModel::Var(c) => {
                assert(map![c => 1int].dom() =~= set![c]);
            },
            ExprModel::Const(_) => {},
            ExprModel::Neg(inner) => lemma_unknown_cells(*inner, k),
            ExprModel::Add(l, r) => {
                lemma_unknown_cells(*l, k);
                lemma_unknown_cells(*r, k);
            },
            ExprModel::Mul(l, r) => {
                lemma_unknown_cells(*l, k);
                lemma_unknown_cells(*r, k);
            },
            ExprModel::Scale(inner, _) => lemma_unknown_cells(*inner, k),
        }
    }
}

fn linearize_unknown_part(expr: &UcpExpr, facts: &UcpFacts) -> (r: Option<LinearExpr>)
    ensures
        r matches Some(l) ==> l.wf() && unknown_part_model(expr@, facts@) == Some(l@),
        r is None ==> unknown_part_model(expr@, facts@) is None,
    decreases expr,
{
    if expression_is_unique(expr, facts) {
        return Some(LinearExpr::constant(Integer::zero()));
    }
    if let Some(_) = const_value(expr) {
        return Some(LinearExpr::constant(Integer::zero()));
    }
    match expr {
        UcpExpr::Var(cell) => Some(LinearExpr::term(*cell, Integer::one())),
        UcpExpr::Const(_) => None,
        UcpExpr::Neg(inner) => match linearize_unknown_part(inner, facts) {
            Some(a) => Some(a.scale(&Integer::from_i64(-1))),
            None => None,
        },
        UcpExpr::Add(left, right) => match linearize_unknown_part(left, facts) {
            Some(a) => match linearize_unknown_part(right, facts) {
                Some(b) => Some(a.add(b)),
                None => None,
            },
            None => None,
        },
        UcpExpr::Mul(left, right) => {
            if let Some(v) = const_value(left) {
                return match linearize_unknown_part(right, facts) {
                    Some(b) => Some(b.scale(&v)),
                    None => None,
                };
            }
            if let Some(v) = const_value(right) {
                return match linearize_unknown_part(left, facts) {
                    Some(a) => Some(a.scale(&v)),
                    None => None,
                };
            }
            None
        },
        UcpExpr::Scale(inner, scalar) => match scalar {
            UcpScalar::Zero => Some(LinearExpr::constant(Integer::zero())),
            UcpScalar::Known(k) => match linearize_unknown_part(inner, facts) {
                Some(a) => Some(a.scale(k)),
                None => None,
            },
            UcpScalar::NonZero | UcpScalar::Unknown => None,
        },
    }
}

/// The cell occurs in one of the equations.
pub open spec fn in_some_equation(eqs: Seq<Map<CellId, int>>, c: CellId) -> bool {
    exists|j: int| 0 <= j < eqs.len() && #[trigger] eqs[j].dom().contains(c)
}

/// The terms of a list of equations.
pub open spec fn eqs_view(v: Seq<CellMap<Integer>>) -> Seq<Map<CellId, int>> {
    v.map_values(|m: CellMap<Integer>| m@)
}

/// Every equation map is well formed.
pub open spec fn eqs_wf(v: Seq<CellMap<Integer>>) -> bool {
    forall|i: int| 0 <= i < v.len() ==> (#[trigger] v[i]).wf()
}

fn reduce_equation(linear: &LinearExpr, modulus: &Integer) -> (r: CellMap<Integer>)
    requires
        linear.wf(),
        modulus@ > 1,
    ensures
        r.wf(),
        r@ == reduce_terms(linear@.terms, modulus@),
{
    let ghost terms = term_list(linear@);
    proof {
        linear.lemma_term_list();
        linear.lemma_wf();
    }
    let entries = linear.entries();
    let mut out: CellMap<Integer> = CellMap::new();
    let mut i: usize = 0;
    while i < entries.len()
        invariant
            terms == int_entries(entries@),
            terms == term_list(linear@),
            sorted_terms_of(terms, linear@.terms),
            modulus@ > 1,
            out.wf(),
            i <= entries@.len(),
            forall|c: CellId| #[trigger] out@.dom().contains(c) ==> reduce_terms(linear@.terms, modulus@).dom().contains(c)
                && out@[c] == reduce_terms(linear@.terms, modulus@)[c],
            forall|j: int| 0 <= j < i ==> #[trigger] reduce_terms(linear@.terms, modulus@).dom().contains(terms[j].0) ==> out@.dom().contains(terms[j].0),
        decreases entries@.len() - i,
    {
        let entry = &entries[i];
        proof {
            assert(terms[i as int] == (entry.0, entry.1@));
            assert(linear@.terms.dom().contains(entry.0));
            assert(linear@.terms[terms[i as int].0] == terms[i as int].1);
            assert(linear@.terms[entry.0] == entry.1@);
        }
        let c = mod_field(&entry.1, modulus);
        if !c.is_zero() {
            out.insert(entry.0, c);
        }
        i = i + 1;
    }
    proof {
        assert(out@ =~= reduce_terms(linear@.terms, modulus@)) by {
            assert forall|c: CellId| #[trigger] reduce_terms(linear@.terms, modulus@).dom().contains(c) implies out@.dom().contains(c) by {
                let j = choose|j: int| 0 <= j < terms.len() && terms[j].0 == c;
            }
        }
    }
    out
}

fn collect_linear_equations(expressions: &[UcpExpr], facts: &UcpFacts, modulus: &Integer) -> (r: Vec<CellMap<Integer>>)
    requires
        modulus@ > 1,
    ensures
        eqs_wf(r@),
        eqs_view(r@) == equations_model(exprs_model(expressions@), facts@, modulus@),
        forall|i: int, c: CellId|
            0 <= i < r@.len() && #[trigger] r@[i]@.dom().contains(c) ==> exprs_cells(exprs_model(expressions@)).contains(c)
                && !facts@.contains(c),
{
    let ghost es = exprs_model(expressions@);
    let mut out: Vec<CellMap<Integer>> = Vec::new();
    let mut i: usize = 0;
    proof {
        assert(eqs_view(out@) =~= equations_model(es.subrange(0, 0), facts@, modulus@));
    }
    while i < expressions.len()
        invariant
            es == exprs_model(expressions@),
            modulus@ > 1,
            i <= expressions@.len(),
            eqs_wf(out@),
            eqs_view(out@) == equations_model(es.subrange(0, i as int), facts@, modulus@),
            forall|a: int, c: CellId|
                0 <= a < out@.len() && #[trigger] out@[a]@.dom().contains(c) ==> exprs_cells(es).contains(c) && !facts@.contains(c),
        decreases expressions@.len() - i,
    {
        let ghost before = out@;
        proof {
            let pre = es.subrange(0, i + 1);
            assert(pre.drop_last() =~= es.subrange(0, i as int));
            assert(pre.last() == expressions@[i as int]@);
            assert(es[i as int] == expressions@[i as int]@);
            lemma_unknown_cells(es[i as int], facts@);
        }
        match linearize_unknown_part(&expressions[i], facts) {
            Some(linear) => {
                let eq = reduce_equation(&linear, modulus);
                if eq.len() > 0 {
                    proof {
                        eq.lemma_wf();
                        assert(eq@.dom().contains(eq.entries_view()[0].0));
                    }
                    let ghost ev = eq@;
                    out.push(eq);
                    proof {
                        assert(eqs_view(out@) =~= eqs_view(before).push(ev));
                        assert forall|a: int, c: CellId| 0 <= a < out@.len() && #[trigger] out@[a]@.dom().contains(c) implies exprs_cells(es).contains(c) && !facts@.contains(c) by {
                            if a < before.len() {
                                assert(out@[a] == before[a]);
                            } else {
                                assert(expr_cells(es[i as int]).contains(c));
                            }
                        }
                        assert forall|a: int| 0 <= a < out@.len() implies (#[trigger] out@[a]).wf() by {
                            if a < before.len() {
                                assert(out@[a] == before[a]);
                            }
                        }
                    }
                } else {
                    proof {
                        eq.lemma_wf();
                        assert(eq@.dom() =~= Set::<CellId>::empty()) by {
                            assert forall|c: CellId| !eq@.dom().contains(c) by {
                                if eq@.dom().contains(c) {
                                    let k = choose|k: int| 0 <= k < eq.entries_view().len() && eq.entries_view()[k].0 == c;
                                }
                            }
                        }
                    }
                }
            },
            None => {},
        }
        i = i + 1;
    }
    proof {
        assert(es.subrange(0, expressions@.len() as int) =~= es);
    }
    out
}

/// The values of a row of integers.
spec fn row_vals(v: Vec<Integer>) -> Seq<int> {
    v@.map_values(|x: Integer| x@)
}

/// The dot product of a row with a vector, over the row's length.
pub open spec fn dot(u: Seq<int>, x: Seq<int>) -> int
    decreases u.len(),
{
    if u.len() == 0 {
        0
    } else {
        dot(u.drop_last(), x) + u.last() * x[u.len() - 1]
    }
}

/// `x` solves the homogeneous system of the matrix modulo `p`.
spec fn in_kernel(m: Seq<Vec<Integer>>, x: Seq<int>, p: int) -> bool {
    forall|i: int| 0 <= i < m.len() ==> #[trigger] dot(row_vals(m[i]), x) % p == 0
}

/// The homogeneous system of the matrix over `n` unknowns has only the zero solution modulo
/// `p`: the unknowns are determined by the right-hand sides.
spec fn kernel_trivial(m: Seq<Vec<Integer>>, n: int, p: int) -> bool {
    forall|x: Seq<int>| x.len() == n && #[trigger] in_kernel(m, x, p) ==> forall|j: int| 0 <= j < n ==> x[j] % p == 0
}

/// The first `r` columns are eliminated: row `i` has 1 in column `i` and every other row has
/// 0 there.
spec fn pivots_done(m: Seq<Vec<Integer>>, r: int) -> bool {
    forall|i: int, q: int|
        0 <= i < r && 0 <= q < m.len() ==> #[trigger] row_vals(m[q])[i] == (if q == i {
            1int
        } else {
            0int
        })
}

/// The entries of a matrix of integers.
spec fn matrix_values(m: Seq<Vec<Integer>>) -> Seq<Seq<int>> {
    m.map_values(|v: Vec<Integer>| row_vals(v))
}

/// `x` solves every row of the matrix modulo `p`: each row's dot product with `x` is 0.
pub open spec fn solves_rows(m: Seq<Seq<int>>, x: Seq<int>, p: int) -> bool {
    forall|i: int| 0 <= i < m.len() ==> #[trigger] dot(m[i], x) % p == 0
}

/// Every solution over `n` unknowns of the homogeneous system is 0 modulo `p`. Two
/// solutions of a system with these coefficients therefore agree modulo `p` in each unknown.
pub open spec fn solutions_determined(m: Seq<Seq<int>>, n: int, p: int) -> bool {
    forall|x: Seq<int>| x.len() == n && #[trigger] solves_rows(m, x, p) ==> forall|j: int| 0 <= j < n ==> #[trigger] x[j] % p == 0
}

/// The coefficient of a cell in an equation; 0 where the cell does not occur.
pub open spec fn coefficient(eq: Map<CellId, int>, c: CellId) -> int {
    if eq.dom().contains(c) {
        eq[c]
    } else {
        0
    }
}

/// The coefficients of the chosen equations in the chosen cells, one row per equation.
pub open spec fn block_matrix(eqs: Seq<Map<CellId, int>>, rows: Seq<int>, cells: Seq<CellId>) -> Seq<Seq<int>> {
    rows.map_values(|r: int| cells.map_values(|c: CellId| coefficient(eqs[r], c)))
}

/// The chosen equations mention only the chosen cells, and their coefficients in those cells
/// leave the homogeneous system no solution but 0 modulo `p`: the equations fix the cells.
pub open spec fn block_determined(eqs: Seq<Map<CellId, int>>, rows: Seq<int>, cells: Seq<CellId>, p: int) -> bool {
    &&& forall|q: int| 0 <= q < rows.len() ==> 0 <= #[trigger] rows[q] < eqs.len()
    &&& forall|q: int, c: CellId| 0 <= q < rows.len() && #[trigger] eqs[rows[q]].dom().contains(c) ==> cells.contains(c)
    &&& solutions_determined(block_matrix(eqs, rows, cells), cells.len() as int, p)
}

/// Some choice of equations fixes the cell together with other cells.
pub open spec fn fixed_by_equations(eqs: Seq<Map<CellId, int>>, c: CellId, p: int) -> bool {
    exists|rows: Seq<int>, cells: Seq<CellId>| cells.contains(c) && #[trigger] block_determined(eqs, rows, cells, p)
}

/// The dot product is linear in the vector: the difference of two products is the product
/// with the difference.
proof fn lemma_dot_sub(u: Seq<int>, x: Seq<int>, y: Seq<int>, d: Seq<int>)
    requires
        u.len() <= x.len(),
        u.len() <= y.len(),
        u.len() <= d.len(),
        forall|j: int| 0 <= j < u.len() ==> #[trigger] d[j] == x[j] - y[j],
    ensures
        dot(u, x) - dot(u, y) == dot(u, d),
    decreases u.len(),
{
    if u.len() > 0 {
        let n = u.len() - 1;
        lemma_dot_sub(u.drop_last(), x, y, d);
        vstd::arithmetic::mul::lemma_mul_is_distributive_sub(u[n], x[n], y[n]);
    }
}

/// Two solutions of the equations of a determined block, with the same right-hand sides
/// modulo `p`, agree modulo `p` in every cell of the block.
pub proof fn lemma_block_fixes_cells(
    eqs: Seq<Map<CellId, int>>,
    rows: Seq<int>,
    cells: Seq<CellId>,
    p: int,
    x: Seq<int>,
    y: Seq<int>,
)
    requires
        p > 0,
        block_determined(eqs, rows, cells, p),
        x.len() == cells.len(),
        y.len() == cells.len(),
        forall|q: int|
            0 <= q < rows.len() ==> dot(#[trigger] block_matrix(eqs, rows, cells)[q], x) % p == dot(
                block_matrix(eqs, rows, cells)[q],
                y,
            ) % p,
    ensures
        forall|j: int| 0 <= j < cells.len() ==> #[trigger] x[j] % p == y[j] % p,
{
    let m = block_matrix(eqs, rows, cells);
    let d = Seq::new(cells.len(), |j: int| x[j] - y[j]);
    assert forall|q: int| 0 <= q < m.len() implies #[trigger] dot(m[q], d) % p == 0 by {
        assert(m[q].len() == cells.len());
        lemma_dot_sub(m[q], x, y, d);
        vstd::arithmetic::div_mod::lemma_mod_equivalence(dot(m[q], x), dot(m[q], y), p);
    }
    assert(solves_rows(m, d, p));
    assert forall|j: int| 0 <= j < cells.len() implies #[trigger] x[j] % p == y[j] % p by {
        assert(d[j] % p == 0);
        vstd::arithmetic::div_mod::lemma_mod_equivalence(x[j], y[j], p);
    }
}

/// The equations keep a set of cells together: an equation with a cell in the set has all its
/// cells in it.
pub open spec fn closed_under(eqs: Seq<Map<CellId, int>>, s: Set<CellId>) -> bool {
    forall|f: int, a: CellId, b: CellId|
        0 <= f < eqs.len() && #[trigger] eqs[f].dom().contains(a) && s.contains(a) && #[trigger] eqs[f].dom().contains(b)
            ==> s.contains(b)
}

/// The cells linked to `c` through shared equations: those in every set that the equations
/// keep together and that holds `c`.
pub open spec fn component(eqs: Seq<Map<CellId, int>>, c: CellId) -> Set<CellId> {
    Set::new(|x: CellId| forall|s: Set<CellId>| #[trigger] closed_under(eqs, s) && s.contains(c) ==> s.contains(x))
}

/// The equation mentions a cell of the set.
pub open spec fn touches_set(eq: Map<CellId, int>, s: Set<CellId>) -> bool {
    exists|a: CellId| eq.dom().contains(a) && s.contains(a)
}

/// `cells` lists the component of `c` in cell order, and `rows` lists, in increasing order,
/// the equations that mention a cell of it.
pub open spec fn component_block(eqs: Seq<Map<CellId, int>>, c: CellId, rows: Seq<int>, cells: Seq<CellId>) -> bool {
    &&& sorted_cells(cells)
    &&& cells.to_set() == component(eqs, c)
    &&& forall|q1: int, q2: int| 0 <= q1 < q2 < rows.len() ==> #[trigger] rows[q1] < #[trigger] rows[q2]
    &&& forall|q: int| 0 <= q < rows.len() ==> 0 <= #[trigger] rows[q] < eqs.len() && touches_set(eqs[rows[q]], component(eqs, c))
    &&& forall|r: int|
        0 <= r < eqs.len() && #[trigger] touches_set(eqs[r], component(eqs, c)) ==> exists|q: int| 0 <= q < rows.len() && rows[q] == r
}

/// The component of `c` has at least as many equations as cells, and they leave its cells no
/// freedom modulo `p`.
pub open spec fn component_fixed(eqs: Seq<Map<CellId, int>>, c: CellId, p: int) -> bool {
    exists|rows: Seq<int>, cells: Seq<CellId>|
        #[trigger] component_block(eqs, c, rows, cells) && rows.len() >= cells.len() && solutions_determined(
            block_matrix(eqs, rows, cells),
            cells.len() as int,
            p,
        )
}

/// Two strictly increasing lists with the same elements are equal.
proof fn lemma_increasing_unique(a: Seq<int>, b: Seq<int>)
    requires
        forall|q1: int, q2: int| 0 <= q1 < q2 < a.len() ==> #[trigger] a[q1] < #[trigger] a[q2],
        forall|q1: int, q2: int| 0 <= q1 < q2 < b.len() ==> #[trigger] b[q1] < #[trigger] b[q2],
        forall|x: int| a.contains(x) <==> b.contains(x),
    ensures
        a == b,
    decreases a.len(),
{
    if a.len() == 0 {
        if b.len() > 0 {
            assert(b.contains(b[0]));
        }
        assert(a =~= b);
    } else {
        assert(a.contains(a[0]));
        assert(b.len() > 0);
        assert(b.contains(b[0]));
        let i = choose|i: int| 0 <= i < b.len() && b[i] == a[0];
        let j = choose|j: int| 0 <= j < a.len() && a[j] == b[0];
        if i > 0 {
            assert(b[0] < b[i]);
        }
        if j > 0 {
            assert(a[0] < a[j]);
        }
        assert(a[0] == b[0]);
        let a2 = a.drop_first();
        let b2 = b.drop_first();
        assert forall|x: int| a2.contains(x) <==> b2.contains(x) by {
            if a2.contains(x) {
                let k = choose|k: int| 0 <= k < a2.len() && a2[k] == x;
                assert(a[k + 1] == x);
                assert(a[0] < a[k + 1]);
                assert(b.contains(x));
                let l = choose|l: int| 0 <= l < b.len() && b[l] == x;
                assert(l != 0);
                assert(b2[l - 1] == x);
            }
            if b2.contains(x) {
                let k = choose|k: int| 0 <= k < b2.len() && b2[k] == x;
                assert(b[k + 1] == x);
                assert(b[0] < b[k + 1]);
                assert(a.contains(x));
                let l = choose|l: int| 0 <= l < a.len() && a[l] == x;
                assert(l != 0);
                assert(a2[l - 1] == x);
            }
        }
        assert forall|q1: int, q2: int| 0 <= q1 < q2 < a2.len() implies #[trigger] a2[q1] < #[trigger] a2[q2] by {
            assert(a[q1 + 1] < a[q2 + 1]);
        }
        assert forall|q1: int, q2: int| 0 <= q1 < q2 < b2.len() implies #[trigger] b2[q1] < #[trigger] b2[q2] by {
            assert(b[q1 + 1] < b[q2 + 1]);
        }
        lemma_increasing_unique(a2, b2);
        assert(a =~= seq![a[0]] + a2);
        assert(b =~= seq![b[0]] + b2);
    }
}

/// A determined system of entries has the trivial kernel.
proof fn lemma_values_kernel(m: Seq<Vec<Integer>>, n: int, p: int)
    requires
        solutions_determined(matrix_values(m), n, p),
    ensures
        kernel_trivial(m, n, p),
{
    assert forall|x: Seq<int>| x.len() == n && #[trigger] in_kernel(m, x, p) implies forall|j: int|
        0 <= j < n ==> x[j] % p == 0 by {
        assert forall|i: int| 0 <= i < matrix_values(m).len() implies #[trigger] dot(matrix_values(m)[i], x) % p == 0 by {
            assert(matrix_values(m)[i] == row_vals(m[i]));
        }
        assert(solves_rows(matrix_values(m), x, p));
        assert forall|j: int| 0 <= j < n implies x[j] % p == 0 by {
            assert(x[j] % p == 0);
        }
    }
}

/// The coefficients of the equations lie in `[0, p)`.
proof fn lemma_equations_reduced(es: Seq<ExprModel>, k: Set<CellId>, p: int)
    requires
        p > 1,
    ensures
        forall|f: int, c: CellId|
            0 <= f < equations_model(es, k, p).len() && #[trigger] equations_model(es, k, p)[f].dom().contains(c) ==> 0
                <= equations_model(es, k, p)[f][c] < p,
    decreases es.len(),
{
    if es.len() > 0 {
        lemma_equations_reduced(es.drop_last(), k, p);
        let prev = equations_model(es.drop_last(), k, p);
        match unknown_part_model(es.last(), k) {
            Some(l) => {
                let t = reduce_terms(l.terms, p);
                assert forall|c: CellId| #[trigger] t.dom().contains(c) implies 0 <= t[c] < p by {
                    vstd::arithmetic::div_mod::lemma_mod_bound(l.terms[c], p);
                }
                if !t.dom().is_empty() {
                    let eqs = prev.push(t);
                    assert forall|f: int, c: CellId| 0 <= f < eqs.len() && #[trigger] eqs[f].dom().contains(c) implies 0 <= eqs[f][c]
                        < p by {
                        if f < prev.len() {
                            assert(eqs[f] == prev[f]);
                        }
                    }
                }
            },
            None => {},
        }
    }
}

/// The trivial kernel, stated over the matrix's entries.
proof fn lemma_kernel_values(m: Seq<Vec<Integer>>, n: int, p: int)
    requires
        kernel_trivial(m, n, p),
    ensures
        solutions_determined(matrix_values(m), n, p),
{
    assert forall|x: Seq<int>| x.len() == n && #[trigger] solves_rows(matrix_values(m), x, p) implies forall|j: int|
        0 <= j < n ==> #[trigger] x[j] % p == 0 by {
        assert forall|i: int| 0 <= i < m.len() implies #[trigger] dot(row_vals(m[i]), x) % p == 0 by {
            assert(matrix_values(m)[i] == row_vals(m[i]));
        }
        assert(in_kernel(m, x, p));
    }
}

/// A row congruent to a combination of two rows has the combination's dot product.
proof fn lemma_dot_combo(w: Seq<int>, u: Seq<int>, v: Seq<int>, a: int, b: int, x: Seq<int>, p: int)
    requires
        p > 0,
        w.len() == u.len(),
        w.len() == v.len(),
        forall|j: int| 0 <= j < w.len() ==> #[trigger] w[j] % p == (a * u[j] + b * v[j]) % p,
    ensures
        dot(w, x) % p == (a * dot(u, x) + b * dot(v, x)) % p,
    decreases w.len(),
{
    if w.len() > 0 {
        let n = w.len() - 1;
        lemma_dot_combo(w.drop_last(), u.drop_last(), v.drop_last(), a, b, x, p);
        let ww = dot(w.drop_last(), x);
        let uu = dot(u.drop_last(), x);
        let vv = dot(v.drop_last(), x);
        let xl = x[n];
        assert(w.drop_last().len() == n);
        assert forall|j: int| 0 <= j < n implies #[trigger] w.drop_last()[j] % p == (a * u.drop_last()[j] + b * v.drop_last()[j]) % p by {
            assert(w.drop_last()[j] == w[j]);
        }
        let c = a * u[n] + b * v[n];
        assert(dot(w, x) == ww + w[n] * xl);
        assert(dot(u, x) == uu + u[n] * xl);
        assert(dot(v, x) == vv + v[n] * xl);
        vstd::arithmetic::div_mod::lemma_add_mod_noop(ww, w[n] * xl, p);
        vstd::arithmetic::div_mod::lemma_mul_mod_noop_left(w[n], xl, p);
        vstd::arithmetic::div_mod::lemma_mul_mod_noop_left(c, xl, p);
        assert((w[n] * xl) % p == (c * xl) % p);
        vstd::arithmetic::div_mod::lemma_add_mod_noop(a * uu + b * vv, c * xl, p);
        assert(dot(w, x) % p == (a * uu + b * vv + c * xl) % p);
        lemma_combo_algebra(a, b, uu, vv, u[n], v[n], xl);
    }
}

/// The algebra behind `lemma_dot_combo`'s step.
proof fn lemma_combo_algebra(a: int, b: int, uu: int, vv: int, un: int, vn: int, xl: int)
    ensures
        a * (uu + un * xl) + b * (vv + vn * xl) == (a * uu + b * vv) + (a * un + b * vn) * xl,
{
    vstd::arithmetic::mul::lemma_mul_is_distributive_add(a, uu, un * xl);
    vstd::arithmetic::mul::lemma_mul_is_distributive_add(b, vv, vn * xl);
    vstd::arithmetic::mul::lemma_mul_is_associative(a, un, xl);
    vstd::arithmetic::mul::lemma_mul_is_associative(b, vn, xl);
    vstd::arithmetic::mul::lemma_mul_is_distributive_add_other_way(xl, a * un, b * vn);
}

/// A row congruent to a combination of two rows that solve `x` solves `x`.
proof fn lemma_combo_in_kernel(w: Seq<int>, u: Seq<int>, v: Seq<int>, a: int, b: int, x: Seq<int>, p: int)
    requires
        p > 0,
        w.len() == u.len(),
        w.len() == v.len(),
        forall|j: int| 0 <= j < w.len() ==> #[trigger] w[j] % p == (a * u[j] + b * v[j]) % p,
        dot(u, x) % p == 0,
        dot(v, x) % p == 0,
    ensures
        dot(w, x) % p == 0,
{
    lemma_dot_combo(w, u, v, a, b, x, p);
    let uu = dot(u, x);
    let vv = dot(v, x);
    vstd::arithmetic::div_mod::lemma_add_mod_noop(a * uu, b * vv, p);
    vstd::arithmetic::div_mod::lemma_mul_mod_noop_right(a, uu, p);
    vstd::arithmetic::div_mod::lemma_mul_mod_noop_right(b, vv, p);
    assert(a * (uu % p) == 0);
    assert(b * (vv % p) == 0);
    vstd::arithmetic::div_mod::lemma_small_mod(0, p as nat);
}

/// The dot product with a unit row picks one entry.
proof fn lemma_dot_unit(u: Seq<int>, j: int, x: Seq<int>)
    requires
        0 <= j < u.len(),
        forall|k: int| 0 <= k < u.len() ==> #[trigger] u[k] == (if k == j {
            1int
        } else {
            0int
        }),
    ensures
        dot(u, x) == x[j],
    decreases u.len(),
{
    let n = u.len() - 1;
    assert forall|k: int| 0 <= k < n implies #[trigger] u.drop_last()[k] == (if k == j {
        1int
    } else {
        0int
    }) by {
        assert(u[k] == (if k == j { 1int } else { 0int }));
    }
    let un = u[n];
    let xn = x[n];
    assert(dot(u, x) == dot(u.drop_last(), x) + un * xn);
    if n == j {
        assert(un == 1);
        assert(un * xn == xn) by (nonlinear_arith)
            requires un == 1;
        lemma_dot_zero(u.drop_last(), x);
    } else {
        assert(un == 0);
        assert(un * xn == 0) by (nonlinear_arith)
            requires un == 0;
        lemma_dot_unit(u.drop_last(), j, x);
    }
}

/// The dot product with a zero row is zero.
proof fn lemma_dot_zero(u: Seq<int>, x: Seq<int>)
    requires
        forall|k: int| 0 <= k < u.len() ==> #[trigger] u[k] == 0,
    ensures
        dot(u, x) == 0,
    decreases u.len(),
{
    if u.len() > 0 {
        lemma_dot_zero(u.drop_last(), x);
    }
}

/// A row with its entries from `from` on multiplied by `k` modulo `p`.
fn scaled_from(row: &Vec<Integer>, from: usize, k: &Integer, modulus: &Integer) -> (r: Vec<Integer>)
    requires
        modulus@ > 0,
    ensures
        r@.len() == row@.len(),
        forall|j: int| 0 <= j < from && j < row@.len() ==> (#[trigger] r@[j])@ == row@[j]@,
        forall|j: int| from <= j < row@.len() ==> (#[trigger] r@[j])@ == (row@[j]@ * k@) % modulus@,
{
    let mut out = row.clone();
    proof {
        assert(out@.len() == row@.len());
        assert forall|j: int| 0 <= j < out@.len() implies (#[trigger] out@[j])@ == row@[j]@ by {
            assert(vstd::pervasive::cloned(row@[j], out@[j]));
        }
    }
    let mut col = from;
    while col < out.len()
        invariant
            modulus@ > 0,
            out@.len() == row@.len(),
            from <= col,
            forall|j: int| 0 <= j < from && j < row@.len() ==> (#[trigger] out@[j])@ == row@[j]@,
            forall|j: int| col <= j < row@.len() ==> (#[trigger] out@[j])@ == row@[j]@,
            forall|j: int| from <= j < col && j < row@.len() ==> (#[trigger] out@[j])@ == (row@[j]@ * k@) % modulus@,
        decreases out@.len() - col,
    {
        let v = mod_field(&int_mul(&row[col], k), modulus);
        out.set(col, v);
        col = col + 1;
    }
    out
}

/// A row minus `factor` times another, from entry `from` on, modulo `p`.
fn eliminated_from(target: &Vec<Integer>, pivot: &Vec<Integer>, factor: &Integer, from: usize, modulus: &Integer) -> (r: Vec<
    Integer,
>)
    requires
        modulus@ > 0,
        pivot@.len() == target@.len(),
    ensures
        r@.len() == target@.len(),
        forall|j: int| 0 <= j < from && j < target@.len() ==> (#[trigger] r@[j])@ == target@[j]@,
        forall|j: int| from <= j < target@.len() ==> (#[trigger] r@[j])@ == (target@[j]@ - factor@ * pivot@[j]@) % modulus@,
{
    let mut out = target.clone();
    proof {
        assert forall|j: int| 0 <= j < out@.len() implies (#[trigger] out@[j])@ == target@[j]@ by {
            assert(vstd::pervasive::cloned(target@[j], out@[j]));
        }
    }
    let mut col = from;
    while col < out.len()
        invariant
            modulus@ > 0,
            out@.len() == target@.len(),
            pivot@.len() == target@.len(),
            from <= col,
            forall|j: int| 0 <= j < from && j < target@.len() ==> (#[trigger] out@[j])@ == target@[j]@,
            forall|j: int| col <= j < target@.len() ==> (#[trigger] out@[j])@ == target@[j]@,
            forall|j: int|
                from <= j < col && j < target@.len() ==> (#[trigger] out@[j])@ == (target@[j]@ - factor@ * pivot@[j]@)
                    % modulus@,
        decreases out@.len() - col,
    {
        let v = mod_field(&int_sub(&target[col], &int_mul(factor, &pivot[col])), modulus);
        out.set(col, v);
        col = col + 1;
    }
    out
}

/// Every value that is not a multiple of `p` has an inverse modulo `p`: `p` is the modulus of
/// a field.
pub open spec fn invertible_mod(p: int) -> bool {
    forall|v: int| v % p != 0 ==> #[trigger] has_mod_inverse(v, p)
}

/// `v` has an inverse modulo `p`.
pub open spec fn has_mod_inverse(v: int, p: int) -> bool {
    exists|t: int| is_mod_inverse(v, p, t)
}

/// Every entry of the matrix lies in `[0, p)`.
spec fn entries_reduced(m: Seq<Vec<Integer>>, p: int) -> bool {
    forall|i: int, j: int| 0 <= i < m.len() && 0 <= j < m[i]@.len() ==> 0 <= #[trigger] row_vals(m[i])[j] < p
}

/// The dot product where at most the entries at `i` and `c` contribute.
proof fn lemma_dot_two(u: Seq<int>, x: Seq<int>, i: int, c: int)
    requires
        0 <= i < c,
        c < u.len(),
        forall|j: int| 0 <= j < u.len() && j != i && j != c ==> #[trigger] u[j] * x[j] == 0,
    ensures
        dot(u, x) == u[i] * x[i] + u[c] * x[c],
    decreases u.len(),
{
    let n = u.len() - 1;
    let d = u.drop_last();
    if n == c {
        lemma_dot_one(d, x, i);
    } else {
        assert forall|j: int| 0 <= j < d.len() && j != i && j != c implies #[trigger] d[j] * x[j] == 0 by {
            assert(d[j] == u[j]);
        }
        assert(u[n] * x[n] == 0);
        lemma_dot_two(d, x, i, c);
    }
}

/// The dot product where at most the entry at `i` contributes.
proof fn lemma_dot_one(u: Seq<int>, x: Seq<int>, i: int)
    requires
        0 <= i < u.len(),
        forall|j: int| 0 <= j < u.len() && j != i ==> #[trigger] u[j] * x[j] == 0,
    ensures
        dot(u, x) == u[i] * x[i],
    decreases u.len(),
{
    let n = u.len() - 1;
    let d = u.drop_last();
    if n == i {
        assert forall|k: int| 0 <= k < d.len() implies #[trigger] d[k] * x[k] == 0 by {
            assert(d[k] == u[k]);
        }
        lemma_dot_products_zero(d, x);
    } else {
        assert forall|j: int| 0 <= j < d.len() && j != i implies #[trigger] d[j] * x[j] == 0 by {
            assert(d[j] == u[j]);
        }
        assert(u[n] * x[n] == 0);
        lemma_dot_one(d, x, i);
    }
}

/// The dot product where no entry contributes is zero.
proof fn lemma_dot_products_zero(u: Seq<int>, x: Seq<int>)
    requires
        forall|j: int| 0 <= j < u.len() ==> #[trigger] u[j] * x[j] == 0,
    ensures
        dot(u, x) == 0,
    decreases u.len(),
{
    if u.len() > 0 {
        let d = u.drop_last();
        assert forall|k: int| 0 <= k < d.len() implies #[trigger] d[k] * x[k] == 0 by {
            assert(d[k] == u[k]);
        }
        assert(u[u.len() - 1] * x[u.len() - 1] == 0);
        lemma_dot_products_zero(d, x);
    }
}

/// A column without a pivot after the first `r` have been eliminated gives a solution that is
/// not zero: 1 in that column and minus the column's entries in the pivot columns.
proof fn lemma_free_column(m: Seq<Vec<Integer>>, r: int, n: int, p: int)
    requires
        p > 1,
        0 <= r < n,
        r <= m.len(),
        forall|i: int| 0 <= i < m.len() ==> (#[trigger] m[i])@.len() == n,
        pivots_done(m, r),
        forall|q: int| r <= q < m.len() ==> #[trigger] row_vals(m[q])[r] == 0,
    ensures
        ({
            let x = Seq::new(n as nat, |j: int| if j < r { -row_vals(m[j])[r] } else if j == r { 1int } else { 0int });
            &&& in_kernel(m, x, p)
            &&& x[r] % p != 0
        }),
{
    let x = Seq::new(n as nat, |j: int| if j < r { -row_vals(m[j])[r] } else if j == r { 1int } else { 0int });
    vstd::arithmetic::div_mod::lemma_small_mod(0, p as nat);
    vstd::arithmetic::div_mod::lemma_small_mod(1, p as nat);
    assert forall|i: int| 0 <= i < m.len() implies #[trigger] dot(row_vals(m[i]), x) % p == 0 by {
        let u = row_vals(m[i]);
        assert(u.len() == n);
        if i < r {
            assert forall|j: int| 0 <= j < u.len() && j != i && j != r implies #[trigger] u[j] * x[j] == 0 by {
                if j < r {
                    assert(u[j] == 0);
                } else {
                    assert(x[j] == 0);
                }
                assert(u[j] * x[j] == 0) by (nonlinear_arith)
                    requires
                        u[j] == 0 || x[j] == 0,
                ;
            }
            lemma_dot_two(u, x, i, r);
            assert(u[i] == 1);
            assert(u[i] * x[i] + u[r] * x[r] == 0) by (nonlinear_arith)
                requires
                    u[i] == 1,
                    x[i] == -u[r],
                    x[r] == 1,
            ;
        } else {
            assert forall|j: int| 0 <= j < u.len() implies #[trigger] u[j] * x[j] == 0 by {
                if j < r {
                    assert(u[j] == 0);
                } else if j == r {
                    assert(u[j] == 0);
                } else {
                    assert(x[j] == 0);
                }
                assert(u[j] * x[j] == 0) by (nonlinear_arith)
                    requires
                        u[j] == 0 || x[j] == 0,
                ;
            }
            lemma_dot_products_zero(u, x);
        }
    }
}

/// Scaling the pivot row by an inverse loses no constraint: every solution of the new matrix
/// solves the old one.
proof fn lemma_scale_pivot_back(a: Seq<Vec<Integer>>, pv: Vec<Integer>, rank: int, n: int, inv: int, p: int, m0: Seq<Vec<Integer>>)
    requires
        p > 1,
        0 <= rank < a.len(),
        rank < n,
        forall|i: int| 0 <= i < a.len() ==> (#[trigger] a[i])@.len() == n,
        pivots_done(a, rank),
        is_mod_inverse(row_vals(a[rank])[rank], p, inv),
        pv@.len() == n,
        forall|j: int| 0 <= j < rank ==> (#[trigger] pv@[j])@ == a[rank]@[j]@,
        forall|j: int| rank <= j < n ==> (#[trigger] pv@[j])@ == (a[rank]@[j]@ * inv) % p,
        forall|x: Seq<int>| x.len() == n && #[trigger] in_kernel(a, x, p) ==> in_kernel(m0, x, p),
    ensures
        forall|x: Seq<int>| x.len() == n && #[trigger] in_kernel(a.update(rank, pv), x, p) ==> in_kernel(m0, x, p),
{
    let b = a.update(rank, pv);
    let u = row_vals(a[rank]);
    let w = row_vals(pv);
    let c = u[rank];
    vstd::arithmetic::div_mod::lemma_small_mod(1, p as nat);
    assert((c * inv) % p == 1);
    assert forall|j: int| 0 <= j < u.len() implies #[trigger] u[j] % p == (c * w[j] + 0 * w[j]) % p by {
        if j < rank {
            assert(u[j] == 0);
            assert(w[j] == u[j]);
            assert(c * w[j] + 0 * w[j] == 0) by (nonlinear_arith)
                requires
                    w[j] == 0,
            ;
        } else {
            let y = u[j] * inv;
            assert(w[j] == y % p);
            vstd::arithmetic::div_mod::lemma_mul_mod_noop_right(c, y, p);
            assert(c * y == u[j] * (c * inv)) by (nonlinear_arith)
                requires
                    y == u[j] * inv,
            ;
            vstd::arithmetic::div_mod::lemma_mul_mod_noop_right(u[j], c * inv, p);
            assert(u[j] * 1 == u[j]);
            assert(c * w[j] + 0 * w[j] == c * w[j]) by (nonlinear_arith);
        }
    }
    assert forall|x: Seq<int>| x.len() == n && #[trigger] in_kernel(b, x, p) implies in_kernel(m0, x, p) by {
        assert forall|i: int| 0 <= i < a.len() implies #[trigger] dot(row_vals(a[i]), x) % p == 0 by {
            if i == rank {
                assert(dot(row_vals(b[rank]), x) % p == 0);
                lemma_combo_in_kernel(u, w, w, c, 0, x, p);
            } else {
                assert(b[i] == a[i]);
                assert(dot(row_vals(b[i]), x) % p == 0);
            }
        }
        assert(in_kernel(a, x, p));
    }
}

/// Eliminating with the pivot row loses no constraint: every solution of the new matrix solves
/// the old one.
proof fn lemma_eliminate_row_back(
    a: Seq<Vec<Integer>>,
    tv: Vec<Integer>,
    rank: int,
    row: int,
    n: int,
    f: int,
    p: int,
    m0: Seq<Vec<Integer>>,
)
    requires
        p > 1,
        0 <= rank < a.len(),
        0 <= row < a.len(),
        row != rank,
        rank < n,
        forall|i: int| 0 <= i < a.len() ==> (#[trigger] a[i])@.len() == n,
        tv@.len() == n,
        forall|j: int| 0 <= j < rank ==> (#[trigger] tv@[j])@ == a[row]@[j]@,
        forall|j: int| rank <= j < n ==> (#[trigger] tv@[j])@ == (a[row]@[j]@ - f * a[rank]@[j]@) % p,
        pivots_done(a, rank),
        forall|x: Seq<int>| x.len() == n && #[trigger] in_kernel(a, x, p) ==> in_kernel(m0, x, p),
    ensures
        forall|x: Seq<int>| x.len() == n && #[trigger] in_kernel(a.update(row, tv), x, p) ==> in_kernel(m0, x, p),
{
    let b = a.update(row, tv);
    let t = row_vals(a[row]);
    let v = row_vals(a[rank]);
    let w = row_vals(tv);
    assert forall|j: int| 0 <= j < t.len() implies #[trigger] t[j] % p == (1 * w[j] + f * v[j]) % p by {
        if j < rank {
            assert(v[j] == 0);
            assert(w[j] == t[j]);
            assert(1 * w[j] + f * v[j] == t[j]) by (nonlinear_arith)
                requires
                    v[j] == 0,
                    w[j] == t[j],
            ;
        } else {
            let z = t[j] - f * v[j];
            assert(w[j] == z % p);
            vstd::arithmetic::div_mod::lemma_add_mod_noop_right(f * v[j], z, p);
            assert(f * v[j] + z == t[j]);
            assert(1 * w[j] + f * v[j] == f * v[j] + w[j]) by (nonlinear_arith);
        }
    }
    assert forall|x: Seq<int>| x.len() == n && #[trigger] in_kernel(b, x, p) implies in_kernel(m0, x, p) by {
        assert forall|i: int| 0 <= i < a.len() implies #[trigger] dot(row_vals(a[i]), x) % p == 0 by {
            if i == row {
                assert(dot(row_vals(b[row]), x) % p == 0);
                assert(b[rank] == a[rank]);
                assert(dot(row_vals(b[rank]), x) % p == 0);
                lemma_combo_in_kernel(t, w, v, 1, f, x, p);
            } else {
                assert(b[i] == a[i]);
                assert(dot(row_vals(b[i]), x) % p == 0);
            }
        }
        assert(in_kernel(a, x, p));
    }
}

/// The rank modulo `p` of a matrix with rows of one length, by Gaussian elimination; a pivot
/// without an inverse modulo `p` is passed over. Where the rank is the number of columns,
/// the homogeneous system has only the zero solution modulo `p`.
fn rank_mod(rows: Vec<Vec<Integer>>, modulus: &Integer) -> (r: usize)
    requires
        modulus@ > 1,
        forall|i: int| 0 <= i < rows@.len() ==> (#[trigger] rows@[i])@.len() == rows@[0]@.len(),
    ensures
        rows@.len() > 0 && r == rows@[0]@.len() ==> kernel_trivial(rows@, r as int, modulus@),
        rows@.len() > 0 && r == rows@[0]@.len() ==> solutions_determined(matrix_values(rows@), r as int, modulus@),
        r <= rows@.len(),
        rows@.len() > 0 ==> r <= rows@[0]@.len(),
        rows@.len() > 0 && invertible_mod(modulus@) && entries_reduced(rows@, modulus@) && kernel_trivial(
            rows@,
            rows@[0]@.len() as int,
            modulus@,
        ) ==> r == rows@[0]@.len(),
{
    let ghost m0 = rows@;
    let ghost p = modulus@;
    let ghost good = invertible_mod(p) && entries_reduced(m0, p);
    let mut matrix = rows;
    if matrix.len() == 0 || matrix[0].len() == 0 {
        proof {
            if matrix@.len() > 0 {
                assert forall|x: Seq<int>| x.len() == 0 && #[trigger] in_kernel(m0, x, p) implies forall|j: int|
                    0 <= j < 0 ==> x[j] % p == 0 by {
                }
                lemma_kernel_values(m0, 0, p);
            }
        }
        return 0;
    }
    let row_count = matrix.len();
    let column_count = matrix[0].len();
    let mut rank: usize = 0;
    let mut column: usize = 0;
    proof {
        assert(pivots_done(matrix@, 0));
    }
    while column < column_count
        invariant
            modulus@ > 1,
            p == modulus@,
            m0 == rows@,
            m0.len() == row_count,
            column_count == m0[0]@.len(),
            forall|i: int| 0 <= i < row_count ==> (#[trigger] m0[i])@.len() == column_count,
            matrix@.len() == row_count,
            row_count > 0,
            forall|i: int| 0 <= i < row_count ==> (#[trigger] matrix@[i])@.len() == column_count,
            rank < row_count,
            rank <= column,
            column <= column_count,
            rank == column ==> pivots_done(matrix@, rank as int),
            rank == column ==> forall|x: Seq<int>|
                x.len() == column_count && #[trigger] in_kernel(m0, x, p) ==> in_kernel(matrix@, x, p),
            rank == column ==> forall|x: Seq<int>|
                x.len() == column_count && #[trigger] in_kernel(matrix@, x, p) ==> in_kernel(m0, x, p),
            good == (invertible_mod(p) && entries_reduced(m0, p)),
            good ==> entries_reduced(matrix@, p),
            rank < column ==> (good ==> !kernel_trivial(m0, column_count as int, p)),
        decreases column_count - column,
    {
        let ghost clean = rank == column;
        let mut pivot_row = rank;
        while pivot_row < row_count && matrix[pivot_row][column].is_zero()
            invariant
                matrix@.len() == row_count,
                forall|i: int| 0 <= i < row_count ==> (#[trigger] matrix@[i])@.len() == column_count,
                column < column_count,
                rank <= pivot_row <= row_count,
                forall|q: int| rank <= q < pivot_row ==> #[trigger] row_vals(matrix@[q])[column as int] == 0,
            decreases row_count - pivot_row,
        {
            pivot_row = pivot_row + 1;
        }
        if pivot_row == row_count {
            proof {
                if clean {
                    lemma_free_column(matrix@, rank as int, column_count as int, p);
                    let x = Seq::new(
                        column_count as nat,
                        |j: int|
                            if j < rank {
                                -row_vals(matrix@[j])[rank as int]
                            } else if j == rank {
                                1int
                            } else {
                                0int
                            },
                    );
                    assert(in_kernel(m0, x, p));
                    assert(x[rank as int] % p != 0);
                }
            }
            column = column + 1;
            continue;
        }
        proof {
            assert(row_vals(matrix@[pivot_row as int])[column as int] != 0);
        }
        let ghost before_swap = matrix@;
        let upper = matrix[rank].clone();
        let lower = matrix[pivot_row].clone();
        proof {
            assert(row_vals(upper) =~= row_vals(before_swap[rank as int])) by {
                assert forall|j: int| 0 <= j < upper@.len() implies (#[trigger] upper@[j])@ == before_swap[rank as int]@[j]@ by {
                    assert(vstd::pervasive::cloned(before_swap[rank as int]@[j], upper@[j]));
                }
            }
            assert(row_vals(lower) =~= row_vals(before_swap[pivot_row as int])) by {
                assert forall|j: int| 0 <= j < lower@.len() implies (#[trigger] lower@[j])@ == before_swap[pivot_row as int]@[j]@ by {
                    assert(vstd::pervasive::cloned(before_swap[pivot_row as int]@[j], lower@[j]));
                }
            }
        }
        matrix.set(rank, lower);
        matrix.set(pivot_row, upper);
        proof {
            lemma_swap_rows(before_swap, matrix@, rank as int, pivot_row as int, rank as int, column_count as int, p, m0);
            lemma_swap_rows(matrix@, before_swap, rank as int, pivot_row as int, rank as int, column_count as int, p, m0);
            if good {
                assert forall|i: int, j: int| 0 <= i < matrix@.len() && 0 <= j < matrix@[i]@.len() implies 0
                    <= #[trigger] row_vals(matrix@[i])[j] < p by {
                    if i == rank {
                        assert(row_vals(matrix@[i]) == row_vals(before_swap[pivot_row as int]));
                    } else if i == pivot_row {
                        assert(row_vals(matrix@[i]) == row_vals(before_swap[rank as int]));
                    } else {
                        assert(matrix@[i] == before_swap[i]);
                    }
                    assert(row_vals(before_swap[i])[j] == before_swap[i]@[j]@);
                }
            }
            assert(row_vals(matrix@[rank as int])[column as int] != 0);
        }
        let inverse = match mod_inverse(&matrix[rank][column], modulus) {
            Some(inverse) => inverse,
            None => {
                proof {
                    if good {
                        let v = row_vals(matrix@[rank as int])[column as int];
                        assert(0 <= v < p);
                        vstd::arithmetic::div_mod::lemma_small_mod(v as nat, p as nat);
                        assert(has_mod_inverse(v, p));
                        let t = choose|t: int| is_mod_inverse(v, p, t);
                        assert(false);
                    }
                }
                column = column + 1;
                continue;
            },
        };
        let ghost before_scale = matrix@;
        let pivot = scaled_from(&matrix[rank], column, &inverse, modulus);
        let ghost pv = pivot;
        matrix.set(rank, pivot);
        proof {
            if clean {
                lemma_scale_pivot(before_scale, pv, rank as int, column_count as int, inverse@, p, m0);
                lemma_scale_pivot_back(before_scale, pv, rank as int, column_count as int, inverse@, p, m0);
                assert(matrix@ == before_scale.update(rank as int, pv));
            }
            if good {
                assert forall|i: int, j: int| 0 <= i < matrix@.len() && 0 <= j < matrix@[i]@.len() implies 0
                    <= #[trigger] row_vals(matrix@[i])[j] < p by {
                    if i == rank {
                        assert(row_vals(before_scale[i])[j] == before_scale[i]@[j]@);
                        if j >= column {
                            vstd::arithmetic::div_mod::lemma_mod_bound(before_scale[i]@[j]@ * inverse@, p);
                        }
                    } else {
                        assert(matrix@[i] == before_scale[i]);
                    }
                }
            }
        }
        let mut row: usize = 0;
        while row < row_count
            invariant
                modulus@ > 1,
                p == modulus@,
                m0.len() == row_count,
                forall|i: int| 0 <= i < row_count ==> (#[trigger] m0[i])@.len() == column_count,
                matrix@.len() == row_count,
                forall|i: int| 0 <= i < row_count ==> (#[trigger] matrix@[i])@.len() == column_count,
                rank < row_count,
                column < column_count,
                row <= row_count,
                clean == (rank == column),
                clean ==> pivots_done(matrix@, rank as int),
                clean ==> row_vals(matrix@[rank as int])[column as int] == 1,
                clean ==> forall|q: int| 0 <= q < row && q != rank ==> #[trigger] row_vals(matrix@[q])[column as int] == 0,
                clean ==> forall|x: Seq<int>|
                    x.len() == column_count && #[trigger] in_kernel(m0, x, p) ==> in_kernel(matrix@, x, p),
                clean ==> forall|x: Seq<int>|
                    x.len() == column_count && #[trigger] in_kernel(matrix@, x, p) ==> in_kernel(m0, x, p),
                good ==> entries_reduced(matrix@, p),
                rank < column ==> (good ==> !kernel_trivial(m0, column_count as int, p)),
            decreases row_count - row,
        {
            if row != rank && !matrix[row][column].is_zero() {
                let factor = matrix[row][column].clone();
                let ghost before = matrix@;
                let target = eliminated_from(&matrix[row], &matrix[rank], &factor, column, modulus);
                let ghost tv = target;
                matrix.set(row, target);
                proof {
                    if clean {
                        lemma_eliminate_row(before, tv, rank as int, row as int, column_count as int, factor@, p, m0);
                        lemma_eliminate_row_back(before, tv, rank as int, row as int, column_count as int, factor@, p, m0);
                        assert(matrix@ == before.update(row as int, tv));
                    }
                    if good {
                        assert forall|i: int, j: int| 0 <= i < matrix@.len() && 0 <= j < matrix@[i]@.len() implies 0
                            <= #[trigger] row_vals(matrix@[i])[j] < p by {
                            if i == row {
                                assert(row_vals(before[i])[j] == before[i]@[j]@);
                                if j >= column {
                                    vstd::arithmetic::div_mod::lemma_mod_bound(
                                        before[i]@[j]@ - factor@ * before[rank as int]@[j]@,
                                        p,
                                    );
                                }
                            } else {
                                assert(matrix@[i] == before[i]);
                            }
                        }
                    }
                }
            }
            row = row + 1;
        }
        rank = rank + 1;
        proof {
            if clean {
                assert(pivots_done(matrix@, rank as int)) by {
                    assert forall|i: int, q: int| 0 <= i < rank && 0 <= q < matrix@.len() implies #[trigger] row_vals(matrix@[q])[i]
                        == (if q == i {
                        1int
                    } else {
                        0int
                    }) by {
                        if i == rank - 1 {
                            if q != i {
                                assert(row_vals(matrix@[q])[column as int] == 0);
                            }
                        }
                    }
                }
            }
        }
        if rank == row_count {
            proof {
                assert(clean || rank < column_count);
                if rank == column_count {
                    lemma_identity_kernel(matrix@, m0, column_count as int, p);
                    lemma_kernel_values(m0, column_count as int, p);
                } else if clean {
                    lemma_free_column(matrix@, rank as int, column_count as int, p);
                    let x = Seq::new(
                        column_count as nat,
                        |j: int|
                            if j < rank {
                                -row_vals(matrix@[j])[rank as int]
                            } else if j == rank {
                                1int
                            } else {
                                0int
                            },
                    );
                    assert(in_kernel(m0, x, p));
                    assert(x[rank as int] % p != 0);
                }
            }
            return rank;
        }
        column = column + 1;
    }
    proof {
        if rank == column_count {
            lemma_identity_kernel(matrix@, m0, column_count as int, p);
            lemma_kernel_values(m0, column_count as int, p);
        }
    }
    rank
}

/// Scaling the new pivot row by the inverse of its pivot keeps the elimination and the
/// solutions, and puts 1 at the pivot.
proof fn lemma_scale_pivot(a: Seq<Vec<Integer>>, pv: Vec<Integer>, rank: int, n: int, inv: int, p: int, m0: Seq<Vec<Integer>>)
    requires
        p > 1,
        0 <= rank < a.len(),
        rank < n,
        forall|i: int| 0 <= i < a.len() ==> (#[trigger] a[i])@.len() == n,
        pivots_done(a, rank),
        is_mod_inverse(row_vals(a[rank])[rank], p, inv),
        pv@.len() == n,
        forall|j: int| 0 <= j < rank ==> (#[trigger] pv@[j])@ == a[rank]@[j]@,
        forall|j: int| rank <= j < n ==> (#[trigger] pv@[j])@ == (a[rank]@[j]@ * inv) % p,
        forall|x: Seq<int>| x.len() == n && #[trigger] in_kernel(m0, x, p) ==> in_kernel(a, x, p),
    ensures
        pivots_done(a.update(rank, pv), rank),
        row_vals(pv)[rank] == 1,
        forall|x: Seq<int>| x.len() == n && #[trigger] in_kernel(m0, x, p) ==> in_kernel(a.update(rank, pv), x, p),
{
    let b = a.update(rank, pv);
    let u = row_vals(a[rank]);
    let w = row_vals(pv);
    assert(w[rank] == (u[rank] * inv) % p);
    vstd::arithmetic::div_mod::lemma_small_mod(1, p as nat);
    assert((u[rank] * inv) % p == 1) by {
        assert(inv * u[rank] == u[rank] * inv) by (nonlinear_arith);
    }
    assert forall|j: int| 0 <= j < w.len() implies #[trigger] w[j] % p == (inv * u[j] + 0 * u[j]) % p by {
        if j < rank {
            assert(u[j] == 0);
            assert(w[j] == 0);
        } else {
            vstd::arithmetic::div_mod::lemma_mod_twice(u[j] * inv, p);
            assert(inv * u[j] + 0 * u[j] == u[j] * inv) by (nonlinear_arith);
        }
    }
    assert forall|x: Seq<int>| x.len() == n && #[trigger] in_kernel(m0, x, p) implies in_kernel(b, x, p) by {
        assert(in_kernel(a, x, p));
        assert forall|i: int| 0 <= i < b.len() implies #[trigger] dot(row_vals(b[i]), x) % p == 0 by {
            if i == rank {
                assert(dot(row_vals(a[rank]), x) % p == 0);
                lemma_combo_in_kernel(w, u, u, inv, 0, x, p);
            } else {
                assert(b[i] == a[i]);
            }
        }
    }
    assert forall|i: int, q: int| 0 <= i < rank && 0 <= q < b.len() implies #[trigger] row_vals(b[q])[i] == (if q == i {
        1int
    } else {
        0int
    }) by {
        if q == rank {
            assert(row_vals(a[rank])[i] == 0);
            assert(w[i] == u[i]);
        } else {
            assert(b[q] == a[q]);
        }
    }
}

/// Subtracting a multiple of the pivot row from another row, where the multiple is that
/// row's entry in the pivot column, keeps the elimination and the solutions and puts 0 in
/// the pivot column.
proof fn lemma_eliminate_row(
    a: Seq<Vec<Integer>>,
    tv: Vec<Integer>,
    rank: int,
    row: int,
    n: int,
    f: int,
    p: int,
    m0: Seq<Vec<Integer>>,
)
    requires
        p > 1,
        0 <= rank < a.len(),
        0 <= row < a.len(),
        row != rank,
        rank < n,
        forall|i: int| 0 <= i < a.len() ==> (#[trigger] a[i])@.len() == n,
        pivots_done(a, rank),
        row_vals(a[rank])[rank] == 1,
        f == row_vals(a[row])[rank],
        tv@.len() == n,
        forall|j: int| 0 <= j < rank ==> (#[trigger] tv@[j])@ == a[row]@[j]@,
        forall|j: int| rank <= j < n ==> (#[trigger] tv@[j])@ == (a[row]@[j]@ - f * a[rank]@[j]@) % p,
        forall|x: Seq<int>| x.len() == n && #[trigger] in_kernel(m0, x, p) ==> in_kernel(a, x, p),
    ensures
        pivots_done(a.update(row, tv), rank),
        row_vals(tv)[rank] == 0,
        forall|x: Seq<int>| x.len() == n && #[trigger] in_kernel(m0, x, p) ==> in_kernel(a.update(row, tv), x, p),
{
    let b = a.update(row, tv);
    let t = row_vals(a[row]);
    let v = row_vals(a[rank]);
    let w = row_vals(tv);
    assert(w[rank] == (t[rank] - f * v[rank]) % p);
    assert(t[rank] - f * v[rank] == 0) by (nonlinear_arith)
        requires f == t[rank], v[rank] == 1;
    vstd::arithmetic::div_mod::lemma_small_mod(0, p as nat);
    assert forall|j: int| 0 <= j < w.len() implies #[trigger] w[j] % p == (1 * t[j] + (-f) * v[j]) % p by {
        if j < rank {
            assert(v[j] == 0);
            assert(w[j] == t[j]);
            assert(1 * t[j] + (-f) * v[j] == t[j]) by (nonlinear_arith)
                requires v[j] == 0;
        } else {
            vstd::arithmetic::div_mod::lemma_mod_twice(t[j] - f * v[j], p);
            assert(1 * t[j] + (-f) * v[j] == t[j] - f * v[j]) by (nonlinear_arith);
        }
    }
    assert forall|x: Seq<int>| x.len() == n && #[trigger] in_kernel(m0, x, p) implies in_kernel(b, x, p) by {
        assert(in_kernel(a, x, p));
        assert forall|i: int| 0 <= i < b.len() implies #[trigger] dot(row_vals(b[i]), x) % p == 0 by {
            if i == row {
                assert(dot(row_vals(a[row]), x) % p == 0);
                assert(dot(row_vals(a[rank]), x) % p == 0);
                lemma_combo_in_kernel(w, t, v, 1, -f, x, p);
            } else {
                assert(b[i] == a[i]);
            }
        }
    }
    assert forall|i: int, q: int| 0 <= i < rank && 0 <= q < b.len() implies #[trigger] row_vals(b[q])[i] == (if q == i {
        1int
    } else {
        0int
    }) by {
        if q == row {
            assert(w[i] == t[i]);
        } else {
            assert(b[q] == a[q]);
        }
    }
}

/// Once every column is eliminated, every solution of the starting system is zero.
proof fn lemma_identity_kernel(m: Seq<Vec<Integer>>, m0: Seq<Vec<Integer>>, n: int, p: int)
    requires
        p > 1,
        n <= m.len(),
        m0.len() > 0,
        m0[0]@.len() == n,
        forall|i: int| 0 <= i < m.len() ==> (#[trigger] m[i])@.len() == n,
        pivots_done(m, n),
        forall|x: Seq<int>| x.len() == n && #[trigger] in_kernel(m0, x, p) ==> in_kernel(m, x, p),
    ensures
        kernel_trivial(m0, n, p),
{
    assert forall|x: Seq<int>| x.len() == n && #[trigger] in_kernel(m0, x, p) implies forall|j: int| 0 <= j < n ==> x[j] % p == 0 by {
        assert(in_kernel(m, x, p));
        assert forall|j: int| 0 <= j < n implies x[j] % p == 0 by {
            assert(dot(row_vals(m[j]), x) % p == 0);
            assert forall|k: int| 0 <= k < row_vals(m[j]).len() implies #[trigger] row_vals(m[j])[k] == (if k == j {
                1int
            } else {
                0int
            }) by {
                assert(row_vals(m[k])[j] == (if k == j { 1int } else { 0int }));
                assert(row_vals(m[j])[k] == (if j == k { 1int } else { 0int }));
            }
            lemma_dot_unit(row_vals(m[j]), j, x);
        }
    }
}

/// Swapping two rows at or below the eliminated ones keeps the elimination and the solutions.
proof fn lemma_swap_rows(
    a: Seq<Vec<Integer>>,
    b: Seq<Vec<Integer>>,
    r: int,
    s: int,
    rank: int,
    n: int,
    p: int,
    m0: Seq<Vec<Integer>>,
)
    requires
        0 <= rank <= r,
        r <= s < a.len(),
        b.len() == a.len(),
        row_vals(b[r]) == row_vals(a[s]),
        row_vals(b[s]) == row_vals(a[r]),
        forall|i: int| 0 <= i < a.len() && i != r && i != s ==> #[trigger] b[i] == a[i],
    ensures
        pivots_done(a, rank) ==> pivots_done(b, rank),
        forall|x: Seq<int>| #[trigger] in_kernel(a, x, p) ==> in_kernel(b, x, p),
{
    assert forall|x: Seq<int>| #[trigger] in_kernel(a, x, p) implies in_kernel(b, x, p) by {
        assert forall|i: int| 0 <= i < b.len() implies #[trigger] dot(row_vals(b[i]), x) % p == 0 by {
            if i == r {
                assert(dot(row_vals(a[s]), x) % p == 0);
            } else if i == s {
                assert(dot(row_vals(a[r]), x) % p == 0);
            } else {
                assert(b[i] == a[i]);
            }
        }
    }
    if pivots_done(a, rank) {
        assert forall|i: int, q: int| 0 <= i < rank && 0 <= q < b.len() implies #[trigger] row_vals(b[q])[i] == (if q == i {
            1int
        } else {
            0int
        }) by {
            if q == r {
                assert(row_vals(a[s])[i] == 0);
            } else if q == s {
                assert(row_vals(a[r])[i] == 0);
            } else {
                assert(b[q] == a[q]);
            }
        }
    }
}

/// Cells that occur together in one of the first `upto` equations carry the same label.
spec fn labels_agree(eqs: Seq<Map<CellId, int>>, upto: int, cells: Seq<(CellId, usize)>, labels: Seq<usize>) -> bool {
    forall|f: int, i: int, j: int|
        0 <= f < upto && 0 <= i < cells.len() && 0 <= j < cells.len() && #[trigger] eqs[f].dom().contains(cells[i].0)
            && #[trigger] eqs[f].dom().contains(cells[j].0) ==> labels[i] == labels[j]
}

/// Equation `r` has a cell that carries the label.
spec fn touches_label(eqs: Seq<Map<CellId, int>>, r: int, cells: Seq<(CellId, usize)>, labels: Seq<usize>, label: usize) -> bool {
    exists|i: int| 0 <= i < cells.len() && labels[i] == label && #[trigger] eqs[r].dom().contains(cells[i].0)
}

/// A set of cells that the first `upto` equations keep together: an equation with a cell in
/// the set has all its cells in it.
spec fn closed_upto(eqs: Seq<Map<CellId, int>>, upto: int, s: Set<CellId>) -> bool {
    forall|f: int, a: CellId, b: CellId|
        0 <= f < upto && #[trigger] eqs[f].dom().contains(a) && s.contains(a) && #[trigger] eqs[f].dom().contains(b)
            ==> s.contains(b)
}

/// Cells with one label lie together in every set that the first `upto` equations keep
/// together.
spec fn labels_separate(eqs: Seq<Map<CellId, int>>, upto: int, cells: Seq<(CellId, usize)>, labels: Seq<usize>) -> bool {
    forall|s: Set<CellId>, i: int, j: int|
        closed_upto(eqs, upto, s) && 0 <= i < cells.len() && 0 <= j < cells.len() && labels[i] == labels[j]
            && #[trigger] s.contains(cells[i].0) ==> #[trigger] s.contains(cells[j].0)
}

/// Every label is the label of the cell it names.
spec fn labels_idem(labels: Seq<usize>) -> bool {
    forall|i: int| 0 <= i < labels.len() ==> labels[#[trigger] labels[i] as int] == labels[i]
}

/// Renaming the label of one cell of an equation to that of another keeps labels apart from
/// what the equations keep together, and keeps every label naming its own cell.
proof fn lemma_relabel_separate(
    eqs: Seq<Map<CellId, int>>,
    e: int,
    cells: Seq<(CellId, usize)>,
    before: Seq<usize>,
    after: Seq<usize>,
    old_label: usize,
    new_label: usize,
    idx: int,
    w: int,
)
    requires
        0 <= e < eqs.len(),
        labels_separate(eqs, e + 1, cells, before),
        labels_idem(before),
        before.len() == cells.len(),
        after.len() == cells.len(),
        forall|q: int| 0 <= q < cells.len() ==> #[trigger] before[q] < cells.len(),
        forall|q: int| 0 <= q < cells.len() ==> #[trigger] after[q] == (if before[q] == old_label {
            new_label
        } else {
            before[q]
        }),
        0 <= idx < cells.len(),
        0 <= w < cells.len(),
        before[idx] == old_label,
        before[w] == new_label,
        old_label != new_label,
        eqs[e].dom().contains(cells[idx].0),
        eqs[e].dom().contains(cells[w].0),
    ensures
        labels_separate(eqs, e + 1, cells, after),
        labels_idem(after),
        after[w] == new_label,
{
    assert(before[new_label as int] == new_label);
    assert forall|i: int| 0 <= i < after.len() implies after[#[trigger] after[i] as int] == after[i] by {
        let a = before[i];
        assert(before[a as int] == a);
    }
    assert forall|s: Set<CellId>, i: int, j: int|
        closed_upto(eqs, e + 1, s) && 0 <= i < cells.len() && 0 <= j < cells.len() && after[i] == after[j]
            && #[trigger] s.contains(cells[i].0) implies #[trigger] s.contains(cells[j].0) by {
        if before[i] == before[j] {
        } else if before[i] == old_label {
            assert(before[j] == new_label);
            assert(s.contains(cells[idx].0));
            assert(s.contains(cells[w].0));
            assert(before[w] == before[j]);
        } else {
            assert(before[i] == new_label);
            assert(before[j] == old_label);
            assert(before[w] == before[i]);
            assert(s.contains(cells[w].0));
            assert(s.contains(cells[idx].0));
            assert(before[idx] == before[j]);
        }
    }
}

/// A cell of the equation carries the label.
spec fn label_in_equation(eq: Map<CellId, int>, cells: Seq<(CellId, usize)>, labels: Seq<usize>, label: usize) -> bool {
    exists|w: int| 0 <= w < cells.len() && labels[w] == label && eq.dom().contains(#[trigger] cells[w].0)
}

/// The cells that carry a label.
spec fn label_class(cells: Seq<(CellId, usize)>, labels: Seq<usize>, label: usize) -> Set<CellId> {
    Set::new(|x: CellId| exists|i: int| 0 <= i < cells.len() && labels[i] == label && #[trigger] cells[i].0 == x)
}

/// Where every equation's cells agree in label and labels never split what the equations keep
/// together, a label's cells are the component of any of them.
proof fn lemma_class_component(
    eqs: Seq<Map<CellId, int>>,
    cells: Seq<(CellId, usize)>,
    labels: Seq<usize>,
    label: usize,
    i0: int,
)
    requires
        labels_agree(eqs, eqs.len() as int, cells, labels),
        labels_separate(eqs, eqs.len() as int, cells, labels),
        labels.len() == cells.len(),
        forall|f: int, a: CellId|
            0 <= f < eqs.len() && #[trigger] eqs[f].dom().contains(a) ==> exists|i: int| 0 <= i < cells.len() && cells[i].0 == a,
        0 <= i0 < cells.len(),
        labels[i0] == label,
    ensures
        component(eqs, cells[i0].0) == label_class(cells, labels, label),
{
    let cls = label_class(cells, labels, label);
    let c = cells[i0].0;
    assert(cls.contains(c));
    assert(closed_under(eqs, cls)) by {
        assert forall|f: int, a: CellId, b: CellId|
            0 <= f < eqs.len() && #[trigger] eqs[f].dom().contains(a) && cls.contains(a) && #[trigger] eqs[f].dom().contains(b)
                implies cls.contains(b) by {
            let i = choose|i: int| 0 <= i < cells.len() && labels[i] == label && #[trigger] cells[i].0 == a;
            let j = choose|j: int| 0 <= j < cells.len() && cells[j].0 == b;
            assert(eqs[f].dom().contains(cells[i].0));
            assert(eqs[f].dom().contains(cells[j].0));
            assert(labels[i] == labels[j]);
        }
    }
    assert forall|x: CellId| component(eqs, c).contains(x) <==> cls.contains(x) by {
        if component(eqs, c).contains(x) {
            assert(closed_under(eqs, cls) && cls.contains(c) ==> cls.contains(x));
        }
        if cls.contains(x) {
            let j = choose|j: int| 0 <= j < cells.len() && labels[j] == label && #[trigger] cells[j].0 == x;
            assert forall|s: Set<CellId>| #[trigger] closed_under(eqs, s) && s.contains(c) implies s.contains(x) by {
                assert(closed_upto(eqs, eqs.len() as int, s));
                assert(s.contains(cells[i0].0));
                assert(labels[i0] == labels[j]);
            }
        }
    }
    assert(component(eqs, c) =~= cls);
}

/// In sorted entries a key stands at one position only.
proof fn lemma_unique_key(s: Seq<(CellId, usize)>, i: int, j: int)
    requires
        sorted_cells(entry_keys(s)),
        0 <= i < s.len(),
        0 <= j < s.len(),
        s[i].0 == s[j].0,
    ensures
        i == j,
{
    lemma_key_index(s, i);
    lemma_key_index(s, j);
}

/// Renaming one label to another keeps cells that agreed in agreement.
proof fn lemma_relabel_agree(
    eqs: Seq<Map<CellId, int>>,
    upto: int,
    cells: Seq<(CellId, usize)>,
    before: Seq<usize>,
    after: Seq<usize>,
    old_label: usize,
    new_label: usize,
)
    requires
        labels_agree(eqs, upto, cells, before),
        before.len() == cells.len(),
        after.len() == cells.len(),
        forall|q: int| 0 <= q < cells.len() ==> #[trigger] after[q] == (if before[q] == old_label {
            new_label
        } else {
            before[q]
        }),
    ensures
        labels_agree(eqs, upto, cells, after),
{
    assert forall|f: int, i: int, j: int|
        0 <= f < upto && 0 <= i < cells.len() && 0 <= j < cells.len() && #[trigger] eqs[f].dom().contains(cells[i].0)
            && #[trigger] eqs[f].dom().contains(cells[j].0) implies after[i] == after[j] by {
        assert(before[i] == before[j]);
        assert(after[i] == (if before[i] == old_label { new_label } else { before[i] }));
        assert(after[j] == (if before[j] == old_label { new_label } else { before[j] }));
    }
}

/// The cells that occur in the equations, each once, in cell order.
fn equation_cells(equations: &Vec<CellMap<Integer>>) -> (r: CellMap<usize>)
    requires
        eqs_wf(equations@),
    ensures
        r.wf(),
        forall|c: CellId| #[trigger] r@.dom().contains(c) <==> exists|i: int| 0 <= i < equations@.len() && equations@[i]@.dom().contains(c),
{
    let mut cells: CellMap<usize> = CellMap::new();
    let mut i: usize = 0;
    while i < equations.len()
        invariant
            eqs_wf(equations@),
            cells.wf(),
            i <= equations@.len(),
            forall|c: CellId| #[trigger] cells@.dom().contains(c) <==> exists|a: int| 0 <= a < i && equations@[a]@.dom().contains(c),
        decreases equations@.len() - i,
    {
        let eq = &equations[i];
        proof {
            assert(eq.wf());
            eq.lemma_wf();
        }
        let entries = eq.entries();
        let mut k: usize = 0;
        while k < entries.len()
            invariant
                eq.wf(),
                entries@ == eq.entries_view(),
                forall|j: int| 0 <= j < entries@.len() ==> #[trigger] eq@.dom().contains(entries@[j].0),
                forall|c: CellId| #[trigger] eq@.dom().contains(c) ==> exists|j: int| 0 <= j < entries@.len() && entries@[j].0 == c,
                cells.wf(),
                k <= entries@.len(),
                *eq == equations@[i as int],
                i < equations@.len(),
                forall|c: CellId| #[trigger] cells@.dom().contains(c) <==> (exists|a: int| 0 <= a < i && equations@[a]@.dom().contains(c))
                    || exists|j: int| 0 <= j < k && entries@[j].0 == c,
            decreases entries@.len() - k,
        {
            cells.insert(entries[k].0, 0);
            k = k + 1;
        }
        proof {
            assert forall|c: CellId| #[trigger] cells@.dom().contains(c) <==> exists|a: int| 0 <= a < i + 1 && equations@[a]@.dom().contains(c) by {
                if cells@.dom().contains(c) {
                    if !(exists|a: int| 0 <= a < i && equations@[a]@.dom().contains(c)) {
                        let j = choose|j: int| 0 <= j < entries@.len() && entries@[j].0 == c;
                        assert(equations@[i as int]@.dom().contains(c));
                    }
                }
                if exists|a: int| 0 <= a < i + 1 && equations@[a]@.dom().contains(c) {
                    let a = choose|a: int| 0 <= a < i + 1 && equations@[a]@.dom().contains(c);
                    if a == i {
                        let j = choose|j: int| 0 <= j < entries@.len() && entries@[j].0 == c;
                    }
                }
            }
        }
        i = i + 1;
    }
    cells
}

/// Runs the rule over all zero equations, modulo the given field modulus: the unknown cells
/// of the connected components of full rank, in cell order.
pub fn infer_bigint_mul_with_modulus(expressions: &[UcpExpr], facts: &UcpFacts, modulus: &Integer) -> (r: Vec<
    BigIntMulInference,
>)
    ensures
        modulus@ <= 1 ==> r@.len() == 0,
        sorted_cells(r@.map_values(|x: BigIntMulInference| x.cell)),
        forall|i: int|
            0 <= i < r@.len() ==> in_some_equation(
                equations_model(exprs_model(expressions@), facts@, modulus@),
                #[trigger] r@[i].cell,
            ),
        forall|i: int| 0 <= i < r@.len() ==> exprs_cells(exprs_model(expressions@)).contains(#[trigger] r@[i].cell),
        forall|i: int| 0 <= i < r@.len() ==> !facts@.contains(#[trigger] r@[i].cell),
        forall|i: int|
            0 <= i < r@.len() ==> fixed_by_equations(
                equations_model(exprs_model(expressions@), facts@, modulus@),
                #[trigger] r@[i].cell,
                modulus@,
            ),
        forall|i: int|
            0 <= i < r@.len() ==> component_fixed(
                equations_model(exprs_model(expressions@), facts@, modulus@),
                #[trigger] r@[i].cell,
                modulus@,
            ),
        modulus@ > 1 && invertible_mod(modulus@) ==> forall|c: CellId|
            in_some_equation(equations_model(exprs_model(expressions@), facts@, modulus@), c) && #[trigger] component_fixed(
                equations_model(exprs_model(expressions@), facts@, modulus@),
                c,
                modulus@,
            ) ==> exists|i: int| 0 <= i < r@.len() && r@[i].cell == c,
{
    if !int_lt(&Integer::one(), modulus) {
        return Vec::new();
    }
    let ghost es = exprs_model(expressions@);
    let equations = collect_linear_equations(expressions, facts, modulus);
    let ghost eqv = eqs_view(equations@);
    let cell_index = equation_cells(&equations);
    proof {
        cell_index.lemma_wf();
    }
    let cells = cell_index.entries();
    let n = cells.len();
    let mut labels: Vec<usize> = Vec::new();
    let mut i: usize = 0;
    while i < n
        invariant
            i <= n,
            labels@.len() == i,
            forall|k: int| 0 <= k < i ==> #[trigger] labels@[k] < n,
            forall|k: int| 0 <= k < i ==> #[trigger] labels@[k] == k,
        decreases n - i,
    {
        labels.push(i);
        i = i + 1;
    }
    proof {
        cell_index.lemma_wf();
        assert forall|s: Set<CellId>, i: int, j: int|
            closed_upto(eqv, 0, s) && 0 <= i < cells@.len() && 0 <= j < cells@.len() && labels@[i] == labels@[j]
                && #[trigger] s.contains(cells@[i].0) implies #[trigger] s.contains(cells@[j].0) by {
        }
    }
    let mut e: usize = 0;
    while e < equations.len()
        invariant
            cell_index.wf(),
            cells@ == cell_index.entries_view(),
            sorted_cells(entry_keys(cells@)),
            n == cells@.len(),
            labels@.len() == n,
            forall|k: int| 0 <= k < n ==> #[trigger] labels@[k] < n,
            eqs_wf(equations@),
            eqv == eqs_view(equations@),
            forall|c: CellId| #[trigger] cell_index@.dom().contains(c) <==> exists|a: int| 0 <= a < equations@.len() && equations@[a]@.dom().contains(c),
            e <= equations@.len(),
            labels_agree(eqv, e as int, cells@, labels@),
            labels_separate(eqv, e as int, cells@, labels@),
            labels_idem(labels@),
        decreases equations@.len() - e,
    {
        let eq = &equations[e];
        proof {
            assert(eq.wf());
            eq.lemma_wf();
            assert(labels_separate(eqv, e + 1, cells@, labels@)) by {
                assert forall|s: Set<CellId>, i: int, j: int|
                    closed_upto(eqv, e + 1, s) && 0 <= i < cells@.len() && 0 <= j < cells@.len() && labels@[i] == labels@[j]
                        && #[trigger] s.contains(cells@[i].0) implies #[trigger] s.contains(cells@[j].0) by {
                    assert(closed_upto(eqv, e as int, s));
                }
            }
            assert(eqv[e as int] == eq@);
        }
        let entries = eq.entries();
        let mut min_label = n;
        let mut k: usize = 0;
        while k < entries.len()
            invariant
                cell_index.wf(),
                cells@ == cell_index.entries_view(),
                n == cells@.len(),
                labels@.len() == n,
                forall|j: int| 0 <= j < n ==> #[trigger] labels@[j] < n,
                min_label <= n,
                k <= entries@.len(),
                k > 0 ==> min_label < n,
                min_label < n ==> label_in_equation(eq@, cells@, labels@, min_label),
                entries@ == eq.entries_view(),
                *eq == equations@[e as int],
                e < equations@.len(),
                forall|j: int| 0 <= j < entries@.len() ==> #[trigger] eq@.dom().contains(entries@[j].0),
                forall|c: CellId| #[trigger] cell_index@.dom().contains(c) <==> exists|a: int| 0 <= a < equations@.len() && equations@[a]@.dom().contains(c),
            decreases entries@.len() - k,
        {
            proof {
                assert(cell_index@.dom().contains(entries@[k as int].0));
            }
            match cell_index.find(&entries[k].0) {
                Some(idx) => {
                    if labels[idx] < min_label {
                        min_label = labels[idx];
                        proof {
                            assert(eq@.dom().contains(cells@[idx as int].0));
                        }
                    }
                },
                None => {},
            }
            k = k + 1;
        }
        let mut k: usize = 0;
        while k < entries.len()
            invariant
                cell_index.wf(),
                cells@ == cell_index.entries_view(),
                sorted_cells(entry_keys(cells@)),
                n == cells@.len(),
                labels@.len() == n,
                forall|j: int| 0 <= j < n ==> #[trigger] labels@[j] < n,
                min_label <= n,
                entries@.len() > 0 ==> min_label < n,
                k <= entries@.len(),
                entries@ == eq.entries_view(),
                *eq == equations@[e as int],
                e < equations@.len(),
                eqv == eqs_view(equations@),
                forall|j: int| 0 <= j < entries@.len() ==> #[trigger] eq@.dom().contains(entries@[j].0),
                forall|c: CellId| #[trigger] cell_index@.dom().contains(c) <==> exists|a: int| 0 <= a < equations@.len() && equations@[a]@.dom().contains(c),
                labels_agree(eqv, e as int, cells@, labels@),
                forall|j: int, i: int|
                    0 <= j < k && 0 <= i < n && #[trigger] cells@[i].0 == #[trigger] entries@[j].0 ==> labels@[i] == min_label,
                labels_separate(eqv, e + 1, cells@, labels@),
                labels_idem(labels@),
                min_label < n ==> label_in_equation(eq@, cells@, labels@, min_label),
                eqv[e as int] == eq@,
            decreases entries@.len() - k,
        {
            proof {
                assert(cell_index@.dom().contains(entries@[k as int].0));
            }
            match cell_index.find(&entries[k].0) {
                Some(idx) => {
                    let old_label = labels[idx];
                    if old_label != min_label && min_label < n {
                        let ghost before = labels@;
                        let mut j: usize = 0;
                        while j < n
                            invariant
                                labels@.len() == n,
                                before.len() == n,
                                forall|q: int| 0 <= q < n ==> #[trigger] before[q] < n,
                                min_label < n,
                                j <= n,
                                forall|q: int|
                                    0 <= q < n ==> #[trigger] labels@[q] == (if q < j && before[q] == old_label {
                                        min_label
                                    } else {
                                        before[q]
                                    }),
                            decreases n - j,
                        {
                            if labels[j] == old_label {
                                labels.set(j, min_label);
                            }
                            j = j + 1;
                        }
                        proof {
                            lemma_relabel_agree(eqv, e as int, cells@, before, labels@, old_label, min_label);
                            let w = choose|w: int|
                                0 <= w < cells@.len() && before[w] == min_label && eq@.dom().contains(#[trigger] cells@[w].0);
                            assert(eq@.dom().contains(cells@[idx as int].0));
                            lemma_relabel_separate(eqv, e as int, cells@, before, labels@, old_label, min_label, idx as int, w);
                            assert(label_in_equation(eq@, cells@, labels@, min_label));
                        }
                    }
                    proof {
                        assert forall|j: int, i: int|
                            0 <= j < k + 1 && 0 <= i < n && #[trigger] cells@[i].0 == #[trigger] entries@[j].0 implies labels@[i]
                            == min_label by {
                            if j == k {
                                lemma_unique_key(cells@, i, idx as int);
                            }
                        }
                    }
                },
                None => {},
            }
            k = k + 1;
        }
        proof {
            assert forall|f: int, i: int, j: int|
                0 <= f < e + 1 && 0 <= i < cells@.len() && 0 <= j < cells@.len() && #[trigger] eqv[f].dom().contains(cells@[i].0)
                    && #[trigger] eqv[f].dom().contains(cells@[j].0) implies labels@[i] == labels@[j] by {
                if f == e {
                    assert(eqv[f] == eq@);
                    let ki = choose|ki: int| 0 <= ki < entries@.len() && entries@[ki].0 == cells@[i].0;
                    let kj = choose|kj: int| 0 <= kj < entries@.len() && entries@[kj].0 == cells@[j].0;
                    assert(labels@[i] == min_label);
                    assert(labels@[j] == min_label);
                }
            }
        }
        e = e + 1;
    }
    let ghost complete = modulus@ > 1 && invertible_mod(modulus@);
    proof {
        cell_index.lemma_wf();
        lemma_equations_reduced(es, facts@, modulus@);
        assert forall|f: int, a: CellId| 0 <= f < eqv.len() && #[trigger] eqv[f].dom().contains(a) implies exists|i: int|
            0 <= i < cells@.len() && cells@[i].0 == a by {
            assert(eqv[f] == equations@[f]@);
            assert(cell_index@.dom().contains(a));
        }
    }
    let mut found: CellMap<usize> = CellMap::new();
    let mut root: usize = 0;
    while root < n
        invariant
            cell_index.wf(),
            cells@ == cell_index.entries_view(),
            n == cells@.len(),
            labels@.len() == n,
            eqs_wf(equations@),
            found.wf(),
            modulus@ > 1,
            root <= n,
            eqv == eqs_view(equations@),
            labels_agree(eqv, eqv.len() as int, cells@, labels@),
            forall|c: CellId| #[trigger] cell_index@.dom().contains(c) <==> exists|a: int| 0 <= a < equations@.len() && equations@[a]@.dom().contains(c),
            forall|c: CellId| #[trigger] found@.dom().contains(c) ==> cell_index@.dom().contains(c),
            forall|c: CellId| #[trigger] found@.dom().contains(c) ==> fixed_by_equations(eqv, c, modulus@),
            forall|c: CellId| #[trigger] found@.dom().contains(c) ==> component_fixed(eqv, c, modulus@),
            labels_separate(eqv, eqv.len() as int, cells@, labels@),
            labels_idem(labels@),
            forall|k: int| 0 <= k < n ==> #[trigger] labels@[k] < n,
            sorted_cells(entry_keys(cells@)),
            eqv.len() == equations@.len(),
            forall|f: int, a: CellId|
                0 <= f < eqv.len() && #[trigger] eqv[f].dom().contains(a) ==> exists|i: int| 0 <= i < cells@.len() && cells@[i].0 == a,
            forall|f: int, c: CellId| 0 <= f < eqv.len() && #[trigger] eqv[f].dom().contains(c) ==> 0 <= eqv[f][c] < modulus@,
            complete == (modulus@ > 1 && invertible_mod(modulus@)),
            complete ==> forall|i: int|
                0 <= i < n && labels@[i] < root && #[trigger] component_fixed(eqv, cells@[i].0, modulus@) ==> found@.dom().contains(
                    cells@[i].0,
                ),
        decreases n - root,
    {
        let ghost found_start = found@;
        if labels[root] == root {
            let mut members: Vec<usize> = Vec::new();
            let mut k: usize = 0;
            while k < n
                invariant
                    labels@.len() == n,
                    k <= n,
                    forall|q: int| 0 <= q < members@.len() ==> #[trigger] members@[q] < n && labels@[members@[q] as int] == root,
                    forall|q: int| 0 <= q < members@.len() ==> #[trigger] members@[q] < k,
                    forall|q1: int, q2: int| 0 <= q1 < q2 < members@.len() ==> #[trigger] members@[q1] < #[trigger] members@[q2],
                    forall|q: int| 0 <= q < k && #[trigger] labels@[q] == root ==> exists|u: int| 0 <= u < members@.len() && members@[u] == q,
                decreases n - k,
            {
                let ghost before = members@;
                if labels[k] == root {
                    members.push(k);
                }
                proof {
                    assert forall|q: int| 0 <= q < k + 1 && #[trigger] labels@[q] == root implies exists|u: int|
                        0 <= u < members@.len() && members@[u] == q by {
                        if q == k {
                            assert(members@[members@.len() - 1] == k);
                        } else {
                            let u = choose|u: int| 0 <= u < before.len() && before[u] == q;
                            assert(members@[u] == q);
                        }
                    }
                }
                k = k + 1;
            }
            let mut rows: Vec<usize> = Vec::new();
            let mut eq_index: usize = 0;
            while eq_index < equations.len()
                invariant
                    cell_index.wf(),
                    cells@ == cell_index.entries_view(),
                    n == cells@.len(),
                    labels@.len() == n,
                    eq_index <= equations@.len(),
                    eqs_wf(equations@),
                    eqv == eqs_view(equations@),
                    forall|q: int| 0 <= q < rows@.len() ==> #[trigger] rows@[q] < equations@.len(),
                    forall|q: int| 0 <= q < rows@.len() ==> touches_label(eqv, #[trigger] rows@[q] as int, cells@, labels@, root),
                    forall|q: int| 0 <= q < rows@.len() ==> #[trigger] rows@[q] < eq_index,
                    forall|q1: int, q2: int| 0 <= q1 < q2 < rows@.len() ==> #[trigger] rows@[q1] < #[trigger] rows@[q2],
                    forall|r: int|
                        0 <= r < eq_index && #[trigger] touches_label(eqv, r, cells@, labels@, root) ==> exists|q: int|
                            0 <= q < rows@.len() && rows@[q] == r,
                    sorted_cells(entry_keys(cells@)),
                decreases equations@.len() - eq_index,
            {
                proof {
                    assert(equations@[eq_index as int].wf());
                    equations@[eq_index as int].lemma_wf();
                }
                let entries = equations[eq_index].entries();
                let mut touches = false;
                let mut k: usize = 0;
                while k < entries.len()
                    invariant
                        cell_index.wf(),
                        cells@ == cell_index.entries_view(),
                        n == cells@.len(),
                        labels@.len() == n,
                        k <= entries@.len(),
                        eq_index < equations@.len(),
                        entries@ == equations@[eq_index as int].entries_view(),
                        eqv == eqs_view(equations@),
                        forall|j: int| 0 <= j < entries@.len() ==> #[trigger] equations@[eq_index as int]@.dom().contains(entries@[j].0),
                        touches ==> touches_label(eqv, eq_index as int, cells@, labels@, root),
                        !touches ==> forall|j: int, i: int|
                            0 <= j < k && 0 <= i < n && #[trigger] cells@[i].0 == #[trigger] entries@[j].0 ==> labels@[i] != root,
                        sorted_cells(entry_keys(cells@)),
                    decreases entries@.len() - k,
                {
                    match cell_index.find(&entries[k].0) {
                        Some(idx) => {
                            if labels[idx] == root {
                                touches = true;
                                proof {
                                    assert(eqv[eq_index as int] == equations@[eq_index as int]@);
                                    assert(eqv[eq_index as int].dom().contains(cells@[idx as int].0));
                                }
                            }
                            proof {
                                assert forall|j: int, i: int|
                                    0 <= j < k + 1 && 0 <= i < n && #[trigger] cells@[i].0 == #[trigger] entries@[j].0 && !touches
                                        implies labels@[i] != root by {
                                    if j == k {
                                        lemma_unique_key(cells@, i, idx as int);
                                    }
                                }
                            }
                        },
                        None => {
                            proof {
                                cell_index.lemma_wf();
                                assert forall|j: int, i: int|
                                    0 <= j < k + 1 && 0 <= i < n && #[trigger] cells@[i].0 == #[trigger] entries@[j].0 && !touches
                                        implies labels@[i] != root by {
                                    if j == k {
                                        assert(cell_index@.dom().contains(cells@[i].0));
                                    }
                                }
                            }
                        },
                    }
                    k = k + 1;
                }
                let ghost before = rows@;
                proof {
                    if touches_label(eqv, eq_index as int, cells@, labels@, root) && !touches {
                        let w = choose|w: int|
                            0 <= w < cells@.len() && labels@[w] == root && #[trigger] eqv[eq_index as int].dom().contains(cells@[w].0);
                        assert(eqv[eq_index as int] == equations@[eq_index as int]@);
                        equations@[eq_index as int].lemma_wf();
                        let j = choose|j: int| 0 <= j < entries@.len() && entries@[j].0 == cells@[w].0;
                        assert(false);
                    }
                }
                if touches {
                    rows.push(eq_index);
                }
                proof {
                    assert forall|q: int| 0 <= q < rows@.len() implies touches_label(eqv, #[trigger] rows@[q] as int, cells@, labels@, root) by {
                        if q < before.len() {
                            assert(rows@[q] == before[q]);
                        }
                    }
                    assert forall|q1: int, q2: int| 0 <= q1 < q2 < rows@.len() implies #[trigger] rows@[q1] < #[trigger] rows@[q2] by {
                        if q2 < before.len() {
                            assert(rows@[q1] == before[q1]);
                            assert(rows@[q2] == before[q2]);
                        } else {
                            assert(rows@[q1] == before[q1]);
                        }
                    }
                    assert forall|r: int|
                        0 <= r < eq_index + 1 && #[trigger] touches_label(eqv, r, cells@, labels@, root) implies exists|q: int|
                        0 <= q < rows@.len() && rows@[q] == r by {
                        if r < eq_index {
                            let q = choose|q: int| 0 <= q < before.len() && before[q] == r;
                            assert(rows@[q] == r);
                        } else {
                            assert(rows@[rows@.len() - 1] == r);
                        }
                    }
                }
                eq_index = eq_index + 1;
            }
            let ghost rows_m = rows@.map_values(|r: usize| r as int);
            let ghost cells_m = members@.map_values(|t: usize| cells@[t as int].0);
            let ghost wanted = exists|i: int|
                0 <= i < n && labels@[i] == root && #[trigger] component_fixed(eqv, cells@[i].0, modulus@);
            proof {
                assert forall|i: int| 0 <= i < n && labels@[i] == root implies #[trigger] component_block(
                    eqv,
                    cells@[i].0,
                    rows_m,
                    cells_m,
                ) by {
                    lemma_class_component(eqv, cells@, labels@, root, i);
                    let comp = component(eqv, cells@[i].0);
                    let cls = label_class(cells@, labels@, root);
                    assert forall|x: CellId| cells_m.to_set().contains(x) <==> cls.contains(x) by {
                        if cells_m.to_set().contains(x) {
                            let u = choose|u: int| 0 <= u < cells_m.len() && cells_m[u] == x;
                            assert(labels@[members@[u] as int] == root);
                            assert(cells@[members@[u] as int].0 == x);
                        }
                        if cls.contains(x) {
                            let j = choose|j: int| 0 <= j < cells@.len() && labels@[j] == root && #[trigger] cells@[j].0 == x;
                            let u = choose|u: int| 0 <= u < members@.len() && members@[u] == j;
                            assert(cells_m[u] == x);
                        }
                    }
                    assert(cells_m.to_set() =~= comp);
                    assert forall|u1: int, u2: int| 0 <= u1 < u2 < cells_m.len() implies cell_lt(
                        #[trigger] cells_m[u1],
                        #[trigger] cells_m[u2],
                    ) by {
                        let a = members@[u1] as int;
                        let b = members@[u2] as int;
                        assert(a < b);
                        assert(entry_keys(cells@)[a] == cells@[a].0);
                        assert(entry_keys(cells@)[b] == cells@[b].0);
                    }
                    assert forall|q1: int, q2: int| 0 <= q1 < q2 < rows_m.len() implies #[trigger] rows_m[q1] < #[trigger] rows_m[q2] by {
                        assert(rows@[q1] < rows@[q2]);
                    }
                    assert forall|q: int| 0 <= q < rows_m.len() implies 0 <= #[trigger] rows_m[q] < eqv.len() && touches_set(
                        eqv[rows_m[q]],
                        comp,
                    ) by {
                        assert(touches_label(eqv, rows@[q] as int, cells@, labels@, root));
                        let w = choose|w: int|
                            0 <= w < cells@.len() && labels@[w] == root && #[trigger] eqv[rows@[q] as int].dom().contains(cells@[w].0);
                        assert(cls.contains(cells@[w].0));
                    }
                    assert forall|r: int| 0 <= r < eqv.len() && #[trigger] touches_set(eqv[r], comp) implies exists|q: int|
                        0 <= q < rows_m.len() && rows_m[q] == r by {
                        let a = choose|a: CellId| eqv[r].dom().contains(a) && comp.contains(a);
                        let j = choose|j: int| 0 <= j < cells@.len() && labels@[j] == root && #[trigger] cells@[j].0 == a;
                        assert(touches_label(eqv, r, cells@, labels@, root));
                        let q = choose|q: int| 0 <= q < rows@.len() && rows@[q] == r;
                        assert(rows_m[q] == r);
                    }
                }
                if complete && wanted {
                    let i = choose|i: int|
                        0 <= i < n && labels@[i] == root && #[trigger] component_fixed(eqv, cells@[i].0, modulus@);
                    let (rs, cs) = choose|rs: Seq<int>, cs: Seq<CellId>|
                        #[trigger] component_block(eqv, cells@[i].0, rs, cs) && rs.len() >= cs.len() && solutions_determined(
                            block_matrix(eqv, rs, cs),
                            cs.len() as int,
                            modulus@,
                        );
                    assert(component_block(eqv, cells@[i].0, rows_m, cells_m));
                    lemma_sorted_keys_unique(cs, cells_m);
                    assert forall|x: int| rs.contains(x) <==> rows_m.contains(x) by {
                        let comp = component(eqv, cells@[i].0);
                        if rs.contains(x) {
                            let q = choose|q: int| 0 <= q < rs.len() && rs[q] == x;
                            assert(0 <= rs[q] < eqv.len() && touches_set(eqv[rs[q]], comp));
                            let q2 = choose|q2: int| 0 <= q2 < rows_m.len() && rows_m[q2] == x;
                        }
                        if rows_m.contains(x) {
                            let q = choose|q: int| 0 <= q < rows_m.len() && rows_m[q] == x;
                            assert(0 <= rows_m[q] < eqv.len() && touches_set(eqv[rows_m[q]], comp));
                            let q2 = choose|q2: int| 0 <= q2 < rs.len() && rs[q2] == x;
                        }
                    }
                    lemma_increasing_unique(rs, rows_m);
                    let u = choose|u: int| 0 <= u < members@.len() && members@[u] == i;
                    assert(members@.len() > 0 && rows@.len() >= members@.len());
                    assert(solutions_determined(block_matrix(eqv, rows_m, cells_m), cells_m.len() as int, modulus@));
                }
            }
            if members.len() > 0 && rows.len() >= members.len() {
                let mut matrix: Vec<Vec<Integer>> = Vec::new();
                let mut q: usize = 0;
                while q < rows.len()
                    invariant
                        cell_index.wf(),
                        cells@ == cell_index.entries_view(),
                        n == cells@.len(),
                        eqs_wf(equations@),
                        forall|t: int| 0 <= t < rows@.len() ==> #[trigger] rows@[t] < equations@.len(),
                        forall|t: int| 0 <= t < members@.len() ==> #[trigger] members@[t] < n,
                        q <= rows@.len(),
                        matrix@.len() == q,
                        eqv == eqs_view(equations@),
                        forall|t: int| 0 <= t < q ==> (#[trigger] matrix@[t])@.len() == members@.len(),
                        forall|t: int, u: int|
                            0 <= t < q && 0 <= u < members@.len() ==> (#[trigger] matrix@[t]@[u])@ == coefficient(
                                eqv[rows@[t] as int],
                                cells@[members@[u] as int].0,
                            ),
                    decreases rows@.len() - q,
                {
                    let eq = &equations[rows[q]];
                    proof {
                        assert(eq.wf());
                    }
                    let mut row: Vec<Integer> = Vec::new();
                    let mut t: usize = 0;
                    while t < members.len()
                        invariant
                            eq.wf(),
                            cells@ == cell_index.entries_view(),
                            n == cells@.len(),
                            forall|u: int| 0 <= u < members@.len() ==> #[trigger] members@[u] < n,
                            t <= members@.len(),
                            row@.len() == t,
                            forall|u: int|
                                0 <= u < t ==> (#[trigger] row@[u])@ == coefficient(eq@, cells@[members@[u] as int].0),
                        decreases members@.len() - t,
                    {
                        let cell = &cells[members[t]].0;
                        let v = match eq.get(cell) {
                            Some(v) => v.clone(),
                            None => Integer::zero(),
                        };
                        row.push(v);
                        t = t + 1;
                    }
                    proof {
                        assert(eqv[rows@[q as int] as int] == eq@);
                    }
                    matrix.push(row);
                    q = q + 1;
                }
                let ghost mv = matrix@;
                proof {
                    if complete && wanted {
                        assert(matrix_values(mv) =~= block_matrix(eqv, rows_m, cells_m)) by {
                            assert forall|t: int| 0 <= t < mv.len() implies #[trigger] matrix_values(mv)[t] =~= block_matrix(
                                eqv,
                                rows_m,
                                cells_m,
                            )[t] by {
                                assert forall|u: int| 0 <= u < members@.len() implies #[trigger] matrix_values(mv)[t][u]
                                    == block_matrix(eqv, rows_m, cells_m)[t][u] by {
                                    assert(mv[t]@[u]@ == coefficient(eqv[rows@[t] as int], cells@[members@[u] as int].0));
                                }
                            }
                        }
                        lemma_values_kernel(mv, members@.len() as int, modulus@);
                        assert forall|i: int, j: int| 0 <= i < mv.len() && 0 <= j < mv[i]@.len() implies 0 <= #[trigger] row_vals(
                            mv[i],
                        )[j] < modulus@ by {
                            assert(row_vals(mv[i])[j] == mv[i]@[j]@);
                            assert(mv[i]@[j]@ == coefficient(eqv[rows@[i] as int], cells@[members@[j] as int].0));
                        }
                        assert(entries_reduced(mv, modulus@));
                        assert(mv[0]@.len() == members@.len());
                    }
                }
                let rank = rank_mod(matrix, modulus);
                if rank == members.len() {
                    proof {
                        assert(matrix_values(mv) =~= block_matrix(eqv, rows_m, cells_m)) by {
                            assert forall|t: int| 0 <= t < mv.len() implies #[trigger] matrix_values(mv)[t] =~= block_matrix(
                                eqv,
                                rows_m,
                                cells_m,
                            )[t] by {
                                assert forall|u: int| 0 <= u < members@.len() implies #[trigger] matrix_values(mv)[t][u]
                                    == block_matrix(eqv, rows_m, cells_m)[t][u] by {
                                    assert(mv[t]@[u]@ == coefficient(eqv[rows@[t] as int], cells@[members@[u] as int].0));
                                }
                            }
                        }
                        assert forall|q: int, c: CellId|
                            0 <= q < rows_m.len() && #[trigger] eqv[rows_m[q]].dom().contains(c) implies cells_m.contains(c) by {
                            let r = rows@[q] as int;
                            assert(rows_m[q] == r);
                            assert(equations@[r]@.dom().contains(c));
                            assert(cell_index@.dom().contains(c));
                            cell_index.lemma_wf();
                            let i = choose|i: int| 0 <= i < cells@.len() && cells@[i].0 == c;
                            assert(touches_label(eqv, rows@[q] as int, cells@, labels@, root));
                            let i0 = choose|i0: int| 0 <= i0 < cells@.len() && labels@[i0] == root && #[trigger] eqv[r].dom().contains(cells@[i0].0);
                            assert(eqv[r].dom().contains(cells@[i].0));
                            assert(labels@[i] == labels@[i0]);
                            assert(labels@[i] == root);
                            let u = choose|u: int| 0 <= u < members@.len() && members@[u] == i;
                            assert(cells_m[u] == c);
                        }
                        assert(block_determined(eqv, rows_m, cells_m, modulus@));
                    }
                    let mut t: usize = 0;
                    while t < members.len()
                        invariant
                            cell_index.wf(),
                            cells@ == cell_index.entries_view(),
                            n == cells@.len(),
                            forall|u: int| 0 <= u < members@.len() ==> #[trigger] members@[u] < n,
                            found.wf(),
                            t <= members@.len(),
                            forall|c: CellId| #[trigger] found@.dom().contains(c) ==> cell_index@.dom().contains(c),
                            cells_m == members@.map_values(|t: usize| cells@[t as int].0),
                            block_determined(eqv, rows_m, cells_m, modulus@),
                            forall|c: CellId| #[trigger] found@.dom().contains(c) ==> fixed_by_equations(eqv, c, modulus@),
                            forall|c: CellId| #[trigger] found@.dom().contains(c) ==> component_fixed(eqv, c, modulus@),
                            forall|c: CellId| #[trigger] found_start.dom().contains(c) ==> found@.dom().contains(c),
                            forall|u: int| 0 <= u < t ==> found@.dom().contains(#[trigger] cells_m[u]),
                            forall|i: int| 0 <= i < n && labels@[i] == root ==> #[trigger] component_block(
                                eqv,
                                cells@[i].0,
                                rows_m,
                                cells_m,
                            ),
                            rows_m.len() >= cells_m.len(),
                            forall|u: int| 0 <= u < members@.len() ==> #[trigger] labels@[members@[u] as int] == root,
                            labels@.len() == n,
                        decreases members@.len() - t,
                    {
                        proof {
                            cell_index.lemma_wf();
                            assert(cell_index@.dom().contains(cells@[members@[t as int] as int].0));
                            assert(cells_m[t as int] == cells@[members@[t as int] as int].0);
                            assert(cells_m.contains(cells@[members@[t as int] as int].0));
                            let m = members@[t as int] as int;
                            assert(labels@[m] == root);
                            assert(component_block(eqv, cells@[m].0, rows_m, cells_m));
                            assert(component_fixed(eqv, cells@[m].0, modulus@));
                        }
                        let ghost prev = found@;
                        found.insert(cells[members[t]].0, 0);
                        proof {
                            assert forall|u: int| 0 <= u < t + 1 implies found@.dom().contains(#[trigger] cells_m[u]) by {
                                if u < t {
                                    assert(prev.dom().contains(cells_m[u]));
                                }
                            }
                        }
                        t = t + 1;
                    }
                }
            }
            proof {
                if complete {
                    assert forall|i: int|
                        0 <= i < n && labels@[i] == root && #[trigger] component_fixed(eqv, cells@[i].0, modulus@) implies found@.dom().contains(
                        cells@[i].0,
                    ) by {
                        assert(wanted);
                        let u = choose|u: int| 0 <= u < members@.len() && members@[u] == i;
                        assert(cells_m[u] == cells@[i].0);
                    }
                }
            }
        }
        proof {
            if complete {
                assert forall|i: int|
                    0 <= i < n && labels@[i] < root + 1 && #[trigger] component_fixed(eqv, cells@[i].0, modulus@) implies found@.dom().contains(
                    cells@[i].0,
                ) by {
                    if labels@[i] < root {
                        assert(found_start.dom().contains(cells@[i].0));
                    } else {
                        assert(labels@[labels@[i] as int] == labels@[i]);
                    }
                }
            }
        }
        root = root + 1;
    }
    proof {
        found.lemma_wf();
    }
    let entries = found.entries();
    let mut out: Vec<BigIntMulInference> = Vec::new();
    let mut i: usize = 0;
    while i < entries.len()
        invariant
            found.wf(),
            entries@ == found.entries_view(),
            sorted_cells(entry_keys(entries@)),
            forall|k: int| 0 <= k < entries@.len() ==> #[trigger] found@.dom().contains(entries@[k].0),
            forall|c: CellId| #[trigger] found@.dom().contains(c) ==> cell_index@.dom().contains(c),
            forall|c: CellId| #[trigger] found@.dom().contains(c) ==> fixed_by_equations(eqv, c, modulus@),
            forall|c: CellId| #[trigger] cell_index@.dom().contains(c) <==> exists|a: int| 0 <= a < equations@.len() && equations@[a]@.dom().contains(c),
            i <= entries@.len(),
            out@.len() == i,
            forall|k: int| 0 <= k < i ==> #[trigger] out@[k].cell == entries@[k].0,
        decreases entries@.len() - i,
    {
        out.push(BigIntMulInference { cell: entries[i].0 });
        i = i + 1;
    }
    proof {
        assert(out@.map_values(|x: BigIntMulInference| x.cell) =~= entry_keys(entries@));
        assert forall|k: int| 0 <= k < out@.len() implies in_some_equation(eqv, #[trigger] out@[k].cell) by {
            assert(found@.dom().contains(entries@[k].0));
            let a = choose|a: int| 0 <= a < equations@.len() && equations@[a]@.dom().contains(out@[k].cell);
            assert(eqv[a] == equations@[a]@);
        }
        assert forall|k: int| 0 <= k < out@.len() implies fixed_by_equations(eqv, #[trigger] out@[k].cell, modulus@) by {
            assert(found@.dom().contains(entries@[k].0));
        }
        assert forall|k: int| 0 <= k < out@.len() implies component_fixed(eqv, #[trigger] out@[k].cell, modulus@) by {
            assert(found@.dom().contains(entries@[k].0));
        }
        if complete {
            assert forall|c: CellId| in_some_equation(eqv, c) && #[trigger] component_fixed(eqv, c, modulus@) implies exists|i: int|
                0 <= i < out@.len() && out@[i].cell == c by {
                let f = choose|f: int| 0 <= f < eqv.len() && #[trigger] eqv[f].dom().contains(c);
                let i = choose|i: int| 0 <= i < cells@.len() && cells@[i].0 == c;
                assert(labels@[i] < n);
                assert(found@.dom().contains(cells@[i].0));
                let k = choose|k: int| 0 <= k < entries@.len() && entries@[k].0 == c;
                assert(out@[k].cell == c);
            }
        }
        assert forall|k: int| 0 <= k < out@.len() implies exprs_cells(es).contains(#[trigger] out@[k].cell) && !facts@.contains(out@[k].cell) by {
            assert(found@.dom().contains(entries@[k].0));
            let a = choose|a: int| 0 <= a < equations@.len() && equations@[a]@.dom().contains(out@[k].cell);
        }
    }
    out
}

} // verus!
