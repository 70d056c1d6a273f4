//! The Base-Conv rule. A zero equation `x = y_0 + c*y_1 + ... + c^n*y_n` with `x` unique,
//! every digit `y_i` in `[0, c-1]`, and no wrap-around modulo `p`
//! (`c^n * (max(y_n) + 1) < p`) has unique digits; where `x` is known, so are the digits.
use crate::all_but_one::{
    clone_found, first_values_from, lemma_found_view, lemma_first_values_concat, linearize_zero_equation, opt_int,
    zero_equation_lin, FoundValue,
};
use crate::cell::CellId;
use crate::cell_map::{entry_keys, sorted_cells, CellMap};
use crate::domain::{int_seq, known_value_model, UcpValueFacts};
use crate::expr::{expr_cells, exprs_cells, exprs_model, ExprModel, UcpExpr};
use crate::facts::UcpFacts;
use crate::integer::{int_add, int_div, int_eq, int_le, int_lt, int_mul, int_rem, trunc_div, trunc_rem, Integer};
use crate::linear::{int_entries, sorted_terms_of, term_list, LinearExpr, LinearModel};
use vstd::prelude::*;

verus! {

/// A digit cell that the rule proves unique, with its value where the number is known.
#[derive(Debug, PartialEq)]
pub struct BaseConvInference {
    pub cell: CellId,
    pub value: Option<Integer>,
}

/// `b` to the power `e`.
pub open spec fn power(b: int, e: nat) -> int
    decreases e,
{
    if e == 0 {
        1
    } else {
        power(b, (e - 1) as nat) * b
    }
}

/// The digits of the terms other than `x`, with coefficients made positive by `x`'s sign:
/// `None` where one is not positive.
pub open spec fn digit_coeffs(ts: Seq<(CellId, int)>, x: CellId, xc: int) -> Option<Seq<(CellId, int)>>
    decreases ts.len(),
{
    if ts.len() == 0 {
        Some(Seq::empty())
    } else {
        match digit_coeffs(ts.drop_last(), x, xc) {
            None => None,
            Some(prev) => if ts.last().0 == x {
                Some(prev)
            } else if -ts.last().1 * xc <= 0 {
                None
            } else {
                Some(prev.push((ts.last().0, -ts.last().1 * xc)))
            },
        }
    }
}

/// How many digits have coefficient `v`.
pub open spec fn coef_count(ds: Seq<(CellId, int)>, v: int) -> nat
    decreases ds.len(),
{
    if ds.len() == 0 {
        0
    } else {
        coef_count(ds.drop_last(), v) + (if ds.last().1 == v {
            1nat
        } else {
            0nat
        })
    }
}

/// The smallest coefficient other than one (or zero where there is none).
pub open spec fn min_other(ds: Seq<(CellId, int)>) -> int
    decreases ds.len(),
{
    if ds.len() == 0 {
        0
    } else {
        let prev = min_other(ds.drop_last());
        let v = ds.last().1;
        if v == 1 {
            prev
        } else if prev == 0 || v < prev {
            v
        } else {
            prev
        }
    }
}

/// A position of the digit with coefficient `v`.
pub open spec fn coef_index(ds: Seq<(CellId, int)>, v: int) -> int {
    choose|i: int| 0 <= i < ds.len() && ds[i].1 == v
}

/// The digit with coefficient `v`.
pub open spec fn cell_with_coef(ds: Seq<(CellId, int)>, v: int) -> CellId {
    ds[coef_index(ds, v)].0
}

/// The coefficients are exactly `1, c, ..., c^n` for a base `c > 1`, which is then their
/// smallest one other than `1`: the base and the digits in order of power.
pub open spec fn base_powers_model(ds: Seq<(CellId, int)>) -> Option<(int, Seq<CellId>)> {
    let c = min_other(ds);
    if ds.len() >= 2 && coef_count(ds, 1) == 1 && c > 1 && forall|i: int|
        0 <= i < ds.len() ==> #[trigger] coef_count(ds, power(c, i as nat)) == 1 {
        Some((c, Seq::new(ds.len(), |i: int| cell_with_coef(ds, power(c, i as nat)))))
    } else {
        None
    }
}

/// The base-`c` digits of `v`, lowest first.
pub open spec fn digits_rec(v: int, c: int, n: nat) -> Seq<int>
    decreases n,
{
    if n == 0 {
        Seq::empty()
    } else {
        seq![v % c] + digits_rec(v / c, c, (n - 1) as nat)
    }
}

/// What is left of `v` after taking `n` base-`c` digits.
pub open spec fn digits_rest(v: int, c: int, n: nat) -> int
    decreases n,
{
    if n == 0 {
        v
    } else {
        digits_rest(v / c, c, (n - 1) as nat)
    }
}

/// The `n` base-`c` digits of a non-negative `v` that they represent entirely.
pub open spec fn exact_digits_model(v: int, c: int, n: nat) -> Option<Seq<int>> {
    if v < 0 || digits_rest(v, c, n) != 0 {
        None
    } else {
        Some(digits_rec(v, c, n))
    }
}

/// The largest value of a set.
pub open spec fn set_max(s: Set<int>) -> int {
    choose|x: int| s.contains(x) && forall|y: int| s.contains(y) ==> y <= x
}

/// A base conversion with `x` as the number: its digits in order of power, and their values
/// where `x` is known.
pub open spec fn base_candidate_model(
    l: LinearModel,
    x: CellId,
    xc: int,
    m: Map<CellId, Set<int>>,
    p: int,
) -> Option<(Seq<CellId>, Option<Seq<int>>)> {
    if l.constant != 0 {
        None
    } else {
        match digit_coeffs(term_list(l), x, xc) {
            None => None,
            Some(ds) => match base_powers_model(ds) {
                None => None,
                Some((c, digits)) => {
                    let n = digits.len();
                    if !(forall|j: int|
                        0 <= j < n ==> #[trigger] m.dom().contains(digits[j]) && (forall|v: int|
                            m[digits[j]].contains(v) ==> 0 <= v <= c - 1)) {
                        None
                    } else if !(power(c, (n - 1) as nat) * (set_max(m[digits[n - 1]]) + 1) < p) {
                        None
                    } else {
                        match known_value_model(m, x) {
                            None => Some((digits, None)),
                            Some(xv) => match exact_digits_model(xv, c, n) {
                                Some(dv) => Some((digits, Some(dv))),
                                None => None,
                            },
                        }
                    }
                },
            },
        }
    }
}

/// The base conversions of a linear zero equation, one for each unique `x` with coefficient
/// `1` or `-1` that fits, over the terms `ts` in order.
pub open spec fn base_candidates_over(
    ts: Seq<(CellId, int)>,
    l: LinearModel,
    k: Set<CellId>,
    m: Map<CellId, Set<int>>,
    p: int,
) -> Seq<(Seq<CellId>, Option<Seq<int>>)>
    decreases ts.len(),
{
    if ts.len() == 0 {
        Seq::empty()
    } else {
        let prev = base_candidates_over(ts.drop_last(), l, k, m, p);
        let x = ts.last().0;
        let xc = ts.last().1;
        if k.contains(x) && (xc == 1 || xc == -1) {
            match base_candidate_model(l, x, xc, m, p) {
                Some(cand) => prev.push(cand),
                None => prev,
            }
        } else {
            prev
        }
    }
}

/// The digits of a candidate with their values.
pub open spec fn candidate_digits(cand: (Seq<CellId>, Option<Seq<int>>)) -> Seq<(CellId, Option<int>)> {
    Seq::new(
        cand.0.len(),
        |i: int|
            (
                cand.0[i],
                match cand.1 {
                    Some(dv) => if i < dv.len() {
                        Some(dv[i])
                    } else {
                        None
                    },
                    None => None,
                },
            ),
    )
}

/// The digits of a list of candidates, in order.
pub open spec fn candidates_digits(cs: Seq<(Seq<CellId>, Option<Seq<int>>)>) -> Seq<(CellId, Option<int>)>
    decreases cs.len(),
{
    if cs.len() == 0 {
        Seq::empty()
    } else {
        candidates_digits(cs.drop_last()) + candidate_digits(cs.last())
    }
}

/// The digits that the rule finds in the equations, in order.
pub open spec fn base_conv_found(es: Seq<ExprModel>, k: Set<CellId>, m: Map<CellId, Set<int>>, p: int) -> Seq<
    (CellId, Option<int>),
>
    decreases es.len(),
{
    if es.len() == 0 {
        Seq::empty()
    } else {
        let prev = base_conv_found(es.drop_last(), k, m, p);
        match zero_equation_lin(es.last(), Map::empty()) {
            Some(l) => prev + candidates_digits(base_candidates_over(term_list(l), l, k, m, p)),
            None => prev,
        }
    }
}

/// Digits with their coefficients as values.
pub open spec fn coeff_view(v: Seq<(CellId, Integer)>) -> Seq<(CellId, int)> {
    v.map_values(|t: (CellId, Integer)| (t.0, t.1@))
}

fn digit_coefficients(linear: &LinearExpr, x: &CellId, xc: &Integer) -> (r: Option<Vec<(CellId, Integer)>>)
    requires
        linear.wf(),
    ensures
        r matches Some(v) ==> digit_coeffs(term_list(linear@), *x, xc@) == Some(coeff_view(v@)),
        r is None ==> digit_coeffs(term_list(linear@), *x, xc@) is None,
        r matches Some(v) ==> forall|j: int| 0 <= j < v@.len() ==> linear@.terms.dom().contains(#[trigger] v@[j].0),
{
    let ghost terms = term_list(linear@);
    proof {
        linear.lemma_term_list();
    }
    let entries = linear.entries();
    let zero = Integer::zero();
    let mut out: Vec<(CellId, Integer)> = Vec::new();
    let mut i: usize = 0;
    proof {
        assert(terms.subrange(0, 0) =~= Seq::<(CellId, int)>::empty());
        assert(coeff_view(out@) =~= Seq::<(CellId, int)>::empty());
    }
    while i < entries.len()
        invariant
            terms == int_entries(entries@),
            terms == term_list(linear@),
            sorted_terms_of(terms, linear@.terms),
            zero@ == 0,
            i <= entries@.len(),
            digit_coeffs(terms.subrange(0, i as int), *x, xc@) == Some(coeff_view(out@)),
            forall|j: int| 0 <= j < out@.len() ==> linear@.terms.dom().contains(#[trigger] out@[j].0),
        decreases entries@.len() - i,
    {
        let entry = &entries[i];
        proof {
            let pre = terms.subrange(0, i + 1);
            assert(pre.drop_last() =~= terms.subrange(0, i as int));
            assert(pre.last() == (entry.0, entry.1@));
            assert(terms[i as int] == (entry.0, entry.1@));
            assert(linear@.terms.dom().contains(terms[i as int].0));
        }
        if !(entry.0 == *x) {
            let dc = int_mul(&entry.1.neg(), xc);
            if int_le(&dc, &zero) {
                proof {
                    assert(digit_coeffs(terms.subrange(0, i + 1), *x, xc@) is None);
                    assert forall|k: int| i + 1 <= k <= terms.len() implies #[trigger] digit_coeffs(terms.subrange(0, k), *x, xc@) is None by {
                        lemma_digit_coeffs_none(terms, *x, xc@, i + 1, k);
                    }
                    assert(terms.subrange(0, terms.len() as int) =~= terms);
                }
                return None;
            }
            let ghost before = out@;
            out.push((entry.0, dc));
            proof {
                assert(coeff_view(out@) =~= coeff_view(before).push((entry.0, -entry.1@ * xc@)));
            }
        }
        i = i + 1;
    }
    proof {
        assert(terms.subrange(0, entries@.len() as int) =~= terms);
    }
    Some(out)
}

proof fn lemma_digit_coeffs_none(ts: Seq<(CellId, int)>, x: CellId, xc: int, a: int, b: int)
    requires
        0 <= a <= b <= ts.len(),
        digit_coeffs(ts.subrange(0, a), x, xc) is None,
    ensures
        digit_coeffs(ts.subrange(0, b), x, xc) is None,
    decreases b - a,
{
    if a < b {
        lemma_digit_coeffs_none(ts, x, xc, a, b - 1);
        assert(ts.subrange(0, b).drop_last() =~= ts.subrange(0, b - 1));
    }
}

proof fn lemma_count_one(ds: Seq<(CellId, int)>, v: int, j: int)
    requires
        0 <= j < ds.len(),
        ds[j].1 == v,
    ensures
        coef_count(ds, v) >= 1,
    decreases ds.len(),
{
    if j < ds.len() - 1 {
        assert(ds.drop_last()[j] == ds[j]);
        lemma_count_one(ds.drop_last(), v, j);
    }
}

proof fn lemma_count_unique(ds: Seq<(CellId, int)>, v: int, j1: int, j2: int)
    requires
        0 <= j1 < ds.len(),
        0 <= j2 < ds.len(),
        ds[j1].1 == v,
        ds[j2].1 == v,
        coef_count(ds, v) == 1,
    ensures
        j1 == j2,
    decreases ds.len(),
{
    if j1 != j2 {
        let (a, b) = if j1 < j2 {
            (j1, j2)
        } else {
            (j2, j1)
        };
        if b == ds.len() - 1 {
            assert(ds.drop_last()[a] == ds[a]);
            lemma_count_one(ds.drop_last(), v, a);
        } else {
            assert(ds.drop_last()[a] == ds[a]);
            assert(ds.drop_last()[b] == ds[b]);
            if ds.last().1 == v {
                lemma_count_one(ds.drop_last(), v, a);
            } else {
                lemma_count_unique(ds.drop_last(), v, a, b);
            }
        }
    }
}

pub(crate) proof fn lemma_cell_with_coef(ds: Seq<(CellId, int)>, v: int, idx: int)
    requires
        0 <= idx < ds.len(),
        ds[idx].1 == v,
        coef_count(ds, v) == 1,
    ensures
        cell_with_coef(ds, v) == ds[idx].0,
{
    assert(exists|i: int| 0 <= i < ds.len() && ds[i].1 == v) by {
        assert(ds[idx].1 == v);
    }
    let j = coef_index(ds, v);
    assert(0 <= j < ds.len() && ds[j].1 == v);
    lemma_count_unique(ds, v, j, idx);
    assert(cell_with_coef(ds, v) == ds[j].0);
}

/// How many digits have coefficient `v`, and the position of the last one.
fn count_coef(ds: &Vec<(CellId, Integer)>, v: &Integer) -> (r: (usize, usize))
    ensures
        r.0 == coef_count(coeff_view(ds@), v@),
        r.0 >= 1 ==> r.1 < ds@.len() && ds@[r.1 as int].1@ == v@,
{
    let ghost dv = coeff_view(ds@);
    let mut count: usize = 0;
    let mut last: usize = 0;
    let mut i: usize = 0;
    proof {
        assert(dv.subrange(0, 0) =~= Seq::<(CellId, int)>::empty());
    }
    while i < ds.len()
        invariant
            dv == coeff_view(ds@),
            i <= ds@.len(),
            count <= i,
            count == coef_count(dv.subrange(0, i as int), v@),
            count >= 1 ==> last < i && ds@[last as int].1@ == v@,
        decreases ds@.len() - i,
    {
        proof {
            let pre = dv.subrange(0, i + 1);
            assert(pre.drop_last() =~= dv.subrange(0, i as int));
            assert(pre.last() == (ds@[i as int].0, ds@[i as int].1@));
        }
        if int_eq(&ds[i].1, v) {
            count = count + 1;
            last = i;
        }
        i = i + 1;
    }
    proof {
        assert(dv.subrange(0, ds@.len() as int) =~= dv);
    }
    (count, last)
}

fn min_other_of(ds: &Vec<(CellId, Integer)>) -> (r: Integer)
    ensures
        r@ == min_other(coeff_view(ds@)),
{
    let ghost dv = coeff_view(ds@);
    let one = Integer::one();
    let mut m = Integer::zero();
    let mut i: usize = 0;
    proof {
        assert(dv.subrange(0, 0) =~= Seq::<(CellId, int)>::empty());
    }
    while i < ds.len()
        invariant
            dv == coeff_view(ds@),
            one@ == 1,
            i <= ds@.len(),
            m@ == min_other(dv.subrange(0, i as int)),
        decreases ds@.len() - i,
    {
        proof {
            let pre = dv.subrange(0, i + 1);
            assert(pre.drop_last() =~= dv.subrange(0, i as int));
            assert(pre.last() == (ds@[i as int].0, ds@[i as int].1@));
        }
        let v = &ds[i].1;
        if !int_eq(v, &one) && (m.is_zero() || int_lt(v, &m)) {
            m = v.clone();
        }
        i = i + 1;
    }
    proof {
        assert(dv.subrange(0, ds@.len() as int) =~= dv);
    }
    m
}

fn parse_base_powers(ds: &Vec<(CellId, Integer)>) -> (r: Option<(Integer, Vec<CellId>)>)
    ensures
        r matches Some(t) ==> base_powers_model(coeff_view(ds@)) == Some((t.0@, t.1@)),
        r is None ==> base_powers_model(coeff_view(ds@)) is None,
        r matches Some(t) ==> forall|j: int| 0 <= j < t.1@.len() ==> exists|k: int| 0 <= k < ds@.len() && ds@[k].0 == #[trigger] t.1@[j],
{
    let ghost dv = coeff_view(ds@);
    if ds.len() < 2 {
        return None;
    }
    let one = Integer::one();
    let (ones, _) = count_coef(ds, &one);
    if ones != 1 {
        return None;
    }
    let c = min_other_of(ds);
    if !int_lt(&one, &c) {
        return None;
    }
    let mut pw = Integer::one();
    let mut digits: Vec<CellId> = Vec::new();
    let mut i: usize = 0;
    proof {
        reveal_with_fuel(power, 1);
    }
    while i < ds.len()
        invariant
            dv == coeff_view(ds@),
            ds@.len() >= 2,
            coef_count(dv, 1) == 1,
            c@ == min_other(dv),
            c@ > 1,
            i <= ds@.len(),
            pw@ == power(c@, i as nat),
            digits@.len() == i,
            forall|k: int| 0 <= k < i ==> #[trigger] coef_count(dv, power(c@, k as nat)) == 1,
            forall|k: int| 0 <= k < i ==> #[trigger] digits@[k] == cell_with_coef(dv, power(c@, k as nat)),
            forall|j: int| 0 <= j < digits@.len() ==> exists|k: int| 0 <= k < ds@.len() && ds@[k].0 == #[trigger] digits@[j],
        decreases ds@.len() - i,
    {
        let (count, index) = count_coef(ds, &pw);
        if count != 1 {
            proof {
                let ii = i as int;
                assert(coef_count(dv, power(c@, ii as nat)) != 1);
                assert(!(forall|k: int| 0 <= k < dv.len() ==> #[trigger] coef_count(dv, power(c@, k as nat)) == 1));
            }
            return None;
        }
        proof {
            assert(dv[index as int] == (ds@[index as int].0, ds@[index as int].1@));
            assert(dv[index as int].1 == pw@);
            assert(0 <= index < dv.len() && dv[index as int].1 == power(c@, i as nat));
            lemma_cell_with_coef(dv, pw@, index as int);
            assert(cell_with_coef(dv, power(c@, i as nat)) == ds@[index as int].0);
        }
        let ghost before = digits@;
        digits.push(ds[index].0);
        proof {
            assert forall|j: int| 0 <= j < digits@.len() implies exists|k: int| 0 <= k < ds@.len() && ds@[k].0 == #[trigger] digits@[j] by {
                if j < before.len() {
                    assert(digits@[j] == before[j]);
                } else {
                    assert(ds@[index as int].0 == digits@[j]);
                }
            }
        }
        pw = int_mul(&pw, &c);
        i = i + 1;
    }
    proof {
        assert(digits@ =~= Seq::new(dv.len(), |k: int| cell_with_coef(dv, power(c@, k as nat))));
    }
    Some((c, digits))
}

fn exact_digits(value: &Integer, base: &Integer, count: usize) -> (r: Option<Vec<Integer>>)
    requires
        base@ > 1,
    ensures
        r matches Some(d) ==> exact_digits_model(value@, base@, count as nat) == Some(int_seq(d@)),
        r is None ==> exact_digits_model(value@, base@, count as nat) is None,
{
    if value.is_negative() {
        return None;
    }
    let mut remaining = value.clone();
    let mut digits: Vec<Integer> = Vec::new();
    let mut i: usize = 0;
    proof {
        assert(int_seq(digits@) + digits_rec(remaining@, base@, count as nat) =~= digits_rec(value@, base@, count as nat));
    }
    while i < count
        invariant
            base@ > 1,
            i <= count,
            remaining@ >= 0,
            int_seq(digits@) + digits_rec(remaining@, base@, (count - i) as nat) == digits_rec(value@, base@, count as nat),
            digits_rest(remaining@, base@, (count - i) as nat) == digits_rest(value@, base@, count as nat),
        decreases count - i,
    {
        proof {
            crate::field::lemma_trunc_to_euclid(remaining@, base@);
            vstd::arithmetic::div_mod::lemma_div_pos_is_pos(remaining@, base@);
        }
        let ghost before = int_seq(digits@);
        let ghost rem = remaining@;
        let d = int_rem(&remaining, base);
        digits.push(d);
        remaining = int_div(&remaining, base);
        proof {
            assert(int_seq(digits@) =~= before.push(rem % base@));
            assert(digits_rec(rem, base@, (count - i) as nat) =~= seq![rem % base@] + digits_rec(rem / base@, base@, (count - i - 1) as nat));
            assert(before.push(rem % base@) + digits_rec(rem / base@, base@, (count - i - 1) as nat) =~= before + (seq![rem % base@] + digits_rec(rem / base@, base@, (count - i - 1) as nat)));
        }
        i = i + 1;
    }
    proof {
        assert(digits_rec(remaining@, base@, 0) =~= Seq::<int>::empty());
        assert(int_seq(digits@) + Seq::<int>::empty() =~= int_seq(digits@));
    }
    if remaining.is_zero() {
        Some(digits)
    } else {
        None
    }
}

proof fn lemma_set_max(s: Set<int>, r: int)
    requires
        s.contains(r),
        forall|x: int| s.contains(x) ==> x <= r,
    ensures
        set_max(s) == r,
{
    let m = set_max(s);
    assert(s.contains(m) && forall|y: int| s.contains(y) ==> y <= m);
    assert(m <= r);
    assert(r <= m);
}

/// The digit values of a candidate.
pub open spec fn cand_view(v: (Vec<CellId>, Option<Vec<Integer>>)) -> (Seq<CellId>, Option<Seq<int>>) {
    (
        v.0@,
        match v.1 {
            Some(d) => Some(int_seq(d@)),
            None => None,
        },
    )
}

/// Whether every digit has a domain inside `[0, base - 1]`.
fn digits_in_range(digits: &Vec<CellId>, base: &Integer, values: &UcpValueFacts) -> (r: bool)
    requires
        values.wf(),
    ensures
        r == (forall|k: int| 0 <= k < digits@.len() ==> #[trigger] values@.dom().contains(digits@[k]) && (forall|v: int|
            values@[digits@[k]].contains(v) ==> 0 <= v <= base@ - 1)),
{
    let zero = Integer::zero();
    let max_digit = crate::integer::int_sub(base, &Integer::one());
    let mut j: usize = 0;
    while j < digits.len()
        invariant
            values.wf(),
            zero@ == 0,
            max_digit@ == base@ - 1,
            j <= digits@.len(),
            forall|k: int| 0 <= k < j ==> #[trigger] values@.dom().contains(digits@[k]) && (forall|v: int|
                values@[digits@[k]].contains(v) ==> 0 <= v <= base@ - 1),
        decreases digits@.len() - j,
    {
        if !values.domain_is_subset_of_range(&digits[j], &zero, &max_digit) {
            proof {
                let jj = j as int;
                assert(!(values@.dom().contains(digits@[jj]) && (forall|v: int|
                    values@[digits@[jj]].contains(v) ==> 0 <= v <= base@ - 1)));
                if forall|k: int| 0 <= k < digits@.len() ==> #[trigger] values@.dom().contains(digits@[k]) && (forall|v: int|
                    values@[digits@[k]].contains(v) ==> 0 <= v <= base@ - 1) {
                    assert(values@.dom().contains(digits@[jj]));
                }
            }
            return false;
        }
        proof {
            let jj = j as int;
            assert(values@.dom().contains(digits@[jj]));
        }
        j = j + 1;
    }
    true
}

fn base_conversion_candidate(
    linear: &LinearExpr,
    x: &CellId,
    xc: &Integer,
    values: &UcpValueFacts,
    modulus: &Integer,
) -> (r: Option<(Vec<CellId>, Option<Vec<Integer>>)>)
    requires
        linear.wf(),
        values.wf(),
    ensures
        r matches Some(t) ==> base_candidate_model(linear@, *x, xc@, values@, modulus@) == Some(cand_view(t)),
        r is None ==> base_candidate_model(linear@, *x, xc@, values@, modulus@) is None,
        r matches Some(t) ==> forall|j: int| 0 <= j < t.0@.len() ==> linear@.terms.dom().contains(#[trigger] t.0@[j]),
{
    if !linear.constant_value().is_zero() {
        return None;
    }
    let ds = match digit_coefficients(linear, x, xc) {
        Some(ds) => ds,
        None => {
            return None;
        },
    };
    let ghost dv = coeff_view(ds@);
    let (base, digits) = match parse_base_powers(&ds) {
        Some(t) => t,
        None => {
            return None;
        },
    };
    let ghost n = digits@.len();
    proof {
        assert forall|j: int| 0 <= j < digits@.len() implies linear@.terms.dom().contains(#[trigger] digits@[j]) by {
            let k = choose|k: int| 0 <= k < ds@.len() && ds@[k].0 == digits@[j];
        }
        assert(n == dv.len());
        assert(n >= 2);
    }
    if !digits_in_range(&digits, &base, values) {
        return None;
    }
    let highest = &digits[digits.len() - 1];
    let domain = match values.domain(highest) {
        Some(d) => d,
        None => {
            proof {
                assert(values@.dom().contains(digits@[n - 1]));
            }
            return None;
        },
    };
    let mut base_power = Integer::one();
    let mut k: usize = 0;
    proof {
        reveal_with_fuel(power, 1);
    }
    while k < digits.len() - 1
        invariant
            k <= digits@.len() - 1,
            base_power@ == power(base@, k as nat),
        decreases digits@.len() - 1 - k,
    {
        base_power = int_mul(&base_power, &base);
        k = k + 1;
    }
    let highest_max = domain.max_value();
    proof {
        crate::domain::lemma_domain_valid(*domain);
        lemma_set_max(values@[digits@[n - 1]], highest_max@);
    }
    let witness = int_mul(&base_power, &int_add(highest_max, &Integer::one()));
    if !int_lt(&witness, modulus) {
        return None;
    }
    let digit_values = match values.known_value(x) {
        Some(xv) => match exact_digits(xv, &base, digits.len()) {
            Some(d) => Some(d),
            None => {
                return None;
            },
        },
        None => None,
    };
    Some((digits, digit_values))
}

/// The candidates of a list, as values.
pub open spec fn cands_view(v: Seq<(Vec<CellId>, Option<Vec<Integer>>)>) -> Seq<(Seq<CellId>, Option<Seq<int>>)> {
    v.map_values(|t: (Vec<CellId>, Option<Vec<Integer>>)| cand_view(t))
}

fn base_conversion_candidates(
    linear: &LinearExpr,
    facts: &UcpFacts,
    values: &UcpValueFacts,
    modulus: &Integer,
) -> (r: Vec<(Vec<CellId>, Option<Vec<Integer>>)>)
    requires
        linear.wf(),
        values.wf(),
    ensures
        cands_view(r@) == base_candidates_over(term_list(linear@), linear@, facts@, values@, modulus@),
        forall|i: int, j: int|
            0 <= i < r@.len() && 0 <= j < r@[i].0@.len() ==> linear@.terms.dom().contains(#[trigger] r@[i].0@[j]),
{
    let ghost terms = term_list(linear@);
    proof {
        linear.lemma_term_list();
    }
    let entries = linear.entries();
    let one = Integer::one();
    let minus_one = Integer::from_i64(-1);
    let mut out: Vec<(Vec<CellId>, Option<Vec<Integer>>)> = Vec::new();
    let mut i: usize = 0;
    proof {
        assert(cands_view(out@) =~= base_candidates_over(terms.subrange(0, 0), linear@, facts@, values@, modulus@));
    }
    while i < entries.len()
        invariant
            linear.wf(),
            values.wf(),
            terms == int_entries(entries@),
            terms == term_list(linear@),
            one@ == 1,
            minus_one@ == -1,
            i <= entries@.len(),
            cands_view(out@) == base_candidates_over(terms.subrange(0, i as int), linear@, facts@, values@, modulus@),
            forall|a: int, j: int|
                0 <= a < out@.len() && 0 <= j < out@[a].0@.len() ==> linear@.terms.dom().contains(#[trigger] out@[a].0@[j]),
        decreases entries@.len() - i,
    {
        let entry = &entries[i];
        let ghost before = out@;
        proof {
            let pre = terms.subrange(0, i + 1);
            assert(pre.drop_last() =~= terms.subrange(0, i as int));
            assert(pre.last() == (entry.0, entry.1@));
        }
        if facts.is_unique(&entry.0) && (int_eq(&entry.1, &one) || int_eq(&entry.1, &minus_one)) {
            match base_conversion_candidate(linear, &entry.0, &entry.1, values, modulus) {
                Some(cand) => {
                    let ghost cv = cand_view(cand);
                    out.push(cand);
                    proof {
                        assert(cands_view(out@) =~= cands_view(before).push(cv));
                        assert forall|a: int, j: int| 0 <= a < out@.len() && 0 <= j < out@[a].0@.len() implies linear@.terms.dom().contains(#[trigger] out@[a].0@[j]) by {
                            if a < before.len() {
                                assert(out@[a] == before[a]);
                            }
                        }
                    }
                },
                None => {},
            }
        }
        i = i + 1;
    }
    proof {
        assert(terms.subrange(0, entries@.len() as int) =~= terms);
    }
    out
}

/// Adds the digits of candidates, keeping first values.
fn add_candidates(map: &mut CellMap<FoundValue>, cands: &Vec<(Vec<CellId>, Option<Vec<Integer>>)>, cells: Ghost<Set<CellId>>)
    requires
        old(map).wf(),
        forall|i: int, j: int| 0 <= i < cands@.len() && 0 <= j < cands@[i].0@.len() ==> cells@.contains(#[trigger] cands@[i].0@[j]),
        forall|c: CellId| #[trigger] old(map)@.dom().contains(c) ==> cells@.contains(c),
    ensures
        final(map).wf(),
        final(map)@ == first_values_from(old(map)@, candidates_digits(cands_view(cands@))),
        forall|c: CellId| #[trigger] final(map)@.dom().contains(c) ==> cells@.contains(c),
{
    let ghost m0 = map@;
    let ghost cv = cands_view(cands@);
    let mut a: usize = 0;
    proof {
        assert(cv.subrange(0, 0) =~= Seq::<(Seq<CellId>, Option<Seq<int>>)>::empty());
    }
    while a < cands.len()
        invariant
            map.wf(),
            cv == cands_view(cands@),
            a <= cands@.len(),
            forall|i: int, j: int| 0 <= i < cands@.len() && 0 <= j < cands@[i].0@.len() ==> cells@.contains(#[trigger] cands@[i].0@[j]),
            forall|c: CellId| #[trigger] map@.dom().contains(c) ==> cells@.contains(c),
            map@ == first_values_from(m0, candidates_digits(cv.subrange(0, a as int))),
        decreases cands@.len() - a,
    {
        let cand = &cands[a];
        let ghost ma = map@;
        let ghost block = candidate_digits(cand_view(*cand));
        proof {
            let pre = cv.subrange(0, a + 1);
            assert(pre.drop_last() =~= cv.subrange(0, a as int));
            assert(pre.last() == cand_view(*cand));
            lemma_first_values_concat(m0, candidates_digits(cv.subrange(0, a as int)), block);
            assert(block.subrange(0, 0) =~= Seq::<(CellId, Option<int>)>::empty());
        }
        let mut i: usize = 0;
        while i < cand.0.len()
            invariant
                map.wf(),
                i <= cand.0@.len(),
                block == candidate_digits(cand_view(*cand)),
                forall|j: int| 0 <= j < cand.0@.len() ==> cells@.contains(#[trigger] cand.0@[j]),
                forall|c: CellId| #[trigger] map@.dom().contains(c) ==> cells@.contains(c),
                map@ == first_values_from(ma, block.subrange(0, i as int)),
            decreases cand.0@.len() - i,
        {
            let value = match &cand.1 {
                Some(dv) => if i < dv.len() {
                    Some(dv[i].clone())
                } else {
                    None
                },
                None => None,
            };
            proof {
                let pre = block.subrange(0, i + 1);
                assert(pre.drop_last() =~= block.subrange(0, i as int));
                if let Some(dv) = &cand.1 {
                    if i < dv@.len() {
                        assert(int_seq(dv@)[i as int] == dv@[i as int]@);
                    }
                }
                assert(pre.last() == (cand.0@[i as int], opt_int(value)));
            }
            match map.get(&cand.0[i]) {
                Some(_) => {},
                None => {
                    let fv = FoundValue { value };
                    proof {
                        lemma_found_view(fv);
                    }
                    map.insert(cand.0[i], fv);
                },
            }
            i = i + 1;
        }
        proof {
            assert(block.subrange(0, cand.0@.len() as int) =~= block);
        }
        a = a + 1;
    }
    proof {
        assert(cv.subrange(0, cands@.len() as int) =~= cv);
    }
}

/// Runs the rule over all zero equations with the field modulus: the digits it proves unique,
/// in cell order, each with the value of the first decomposition that gives one.
pub fn infer_base_conversions_with_modulus(
    expressions: &[UcpExpr],
    facts: &UcpFacts,
    values: &UcpValueFacts,
    modulus: &Integer,
) -> (r: Vec<BaseConvInference>)
    requires
        values.wf(),
    ensures
        sorted_cells(r@.map_values(|x: BaseConvInference| x.cell)),
        forall|i: int|
            0 <= i < r@.len() ==> first_values_from(
                Map::empty(),
                base_conv_found(exprs_model(expressions@), facts@, values@, modulus@),
            ).dom().contains(#[trigger] r@[i].cell) && first_values_from(
                Map::empty(),
                base_conv_found(exprs_model(expressions@), facts@, values@, modulus@),
            )[r@[i].cell] == opt_int(r@[i].value),
        forall|c: CellId|
            #[trigger] first_values_from(Map::empty(), base_conv_found(exprs_model(expressions@), facts@, values@, modulus@)).dom().contains(c)
                ==> exists|i: int| 0 <= i < r@.len() && r@[i].cell == c,
        forall|i: int| 0 <= i < r@.len() ==> exprs_cells(exprs_model(expressions@)).contains(#[trigger] r@[i].cell),
{
    let ghost es = exprs_model(expressions@);
    let ghost cells = exprs_cells(es);
    let empty = UcpValueFacts::new();
    let mut map: CellMap<FoundValue> = CellMap::new();
    let mut e: usize = 0;
    proof {
        assert(es.subrange(0, 0) =~= Seq::<ExprModel>::empty());
    }
    while e < expressions.len()
        invariant
            map.wf(),
            values.wf(),
            empty.wf(),
            empty@ == Map::<CellId, Set<int>>::empty(),
            es == exprs_model(expressions@),
            cells == exprs_cells(es),
            e <= expressions@.len(),
            forall|c: CellId| #[trigger] map@.dom().contains(c) ==> cells.contains(c),
            map@ == first_values_from(Map::empty(), base_conv_found(es.subrange(0, e as int), facts@, values@, modulus@)),
        decreases expressions@.len() - e,
    {
        let expr = &expressions[e];
        proof {
            let pre = es.subrange(0, e + 1);
            assert(pre.drop_last() =~= es.subrange(0, e as int));
            assert(pre.last() == expr@);
            assert(es[e as int] == expr@);
        }
        match linearize_zero_equation(expr, &empty) {
            Some(linear) => {
                let cands = base_conversion_candidates(&linear, facts, values, modulus);
                proof {
                    lemma_first_values_concat(
                        Map::empty(),
                        base_conv_found(es.subrange(0, e as int), facts@, values@, modulus@),
                        candidates_digits(cands_view(cands@)),
                    );
                    assert forall|i: int, j: int| 0 <= i < cands@.len() && 0 <= j < cands@[i].0@.len() implies cells.contains(#[trigger] cands@[i].0@[j]) by {
                        assert(expr_cells(es[e as int]).contains(cands@[i].0@[j]));
                    }
                }
                add_candidates(&mut map, &cands, Ghost(cells));
            },
            None => {},
        }
        e = e + 1;
    }
    proof {
        assert(es.subrange(0, expressions@.len() as int) =~= es);
        map.lemma_wf();
    }
    let entries = map.entries();
    let mut out: Vec<BaseConvInference> = Vec::new();
    let mut i: usize = 0;
    while i < entries.len()
        invariant
            map.wf(),
            entries@ == map.entries_view(),
            sorted_cells(entry_keys(entries@)),
            forall|k: int|
                0 <= k < entries@.len() ==> #[trigger] map@.dom().contains(entries@[k].0) && map@[entries@[k].0] == entries@[k].1@,
            forall|c: CellId| #[trigger] map@.dom().contains(c) ==> cells.contains(c),
            i <= entries@.len(),
            out@.len() == i,
            forall|k: int| 0 <= k < i ==> #[trigger] out@[k].cell == entries@[k].0 && opt_int(out@[k].value) == entries@[k].1@,
        decreases entries@.len() - i,
    {
        let entry = &entries[i];
        let value = clone_found(&entry.1.value);
        out.push(BaseConvInference { cell: entry.0, value });
        proof {
            lemma_found_view(entry.1);
        }
        i = i + 1;
    }
    proof {
        assert(out@.map_values(|x: BaseConvInference| x.cell) =~= entry_keys(entries@));
        assert forall|c: CellId| #[trigger] map@.dom().contains(c) implies exists|k: int| 0 <= k < out@.len() && out@[k].cell == c by {
            let k = choose|k: int| 0 <= k < entries@.len() && entries@[k].0 == c;
            assert(out@[k].cell == c);
        }
        assert forall|k: int| 0 <= k < out@.len() implies cells.contains(#[trigger] out@[k].cell) by {
            assert(map@.dom().contains(entries@[k].0));
        }
    }
    out
}

/// The order of the scalar field of the BN254 curve, the default field of the analyzer.
pub open spec fn bn254_scalar_modulus() -> int {
    0x30644e72e131a029b85045b68181585d2833e84879b9709143e1f593f0000001int
}

/// The default field modulus, built from its four 64-bit limbs.
pub fn default_field_modulus() -> (r: Integer)
    ensures
        r@ == bn254_scalar_modulus(),
{
    let base = int_add(&Integer::from_u64(0xffff_ffff_ffff_ffffu64), &Integer::one());
    let a3 = Integer::from_u64(0x30644e72e131a029u64);
    let a2 = int_add(&int_mul(&a3, &base), &Integer::from_u64(0xb85045b68181585du64));
    assert(a2@ == 0x30644e72e131a029b85045b68181585dint) by (nonlinear_arith)
        requires
            base@ == 0x1_0000_0000_0000_0000int,
            a3@ == 0x30644e72e131a029int,
            a2@ == a3@ * base@ + 0xb85045b68181585dint,
    ;
    let a1 = int_add(&int_mul(&a2, &base), &Integer::from_u64(0x2833e84879b97091u64));
    assert(a1@ == 0x30644e72e131a029b85045b68181585d2833e84879b97091int) by (nonlinear_arith)
        requires
            base@ == 0x1_0000_0000_0000_0000int,
            a2@ == 0x30644e72e131a029b85045b68181585dint,
            a1@ == a2@ * base@ + 0x2833e84879b97091int,
    ;
    let a0 = int_add(&int_mul(&a1, &base), &Integer::from_u64(0x43e1f593f0000001u64));
    assert(a0@ == bn254_scalar_modulus()) by (nonlinear_arith)
        requires
            base@ == 0x1_0000_0000_0000_0000int,
            a1@ == 0x30644e72e131a029b85045b68181585d2833e84879b97091int,
            a0@ == a1@ * base@ + 0x43e1f593f0000001int,
    ;
    a0
}

/// Base-Conv over the default field.
pub fn infer_base_conversions(expressions: &[UcpExpr], facts: &UcpFacts, values: &UcpValueFacts) -> (r: Vec<
    BaseConvInference,
>)
    requires
        values.wf(),
    ensures
        sorted_cells(r@.map_values(|x: BaseConvInference| x.cell)),
        forall|i: int|
            0 <= i < r@.len() ==> first_values_from(
                Map::empty(),
                base_conv_found(exprs_model(expressions@), facts@, values@, bn254_scalar_modulus()),
            ).dom().contains(#[trigger] r@[i].cell) && first_values_from(
                Map::empty(),
                base_conv_found(exprs_model(expressions@), facts@, values@, bn254_scalar_modulus()),
            )[r@[i].cell] == opt_int(r@[i].value),
        forall|c: CellId|
            #[trigger] first_values_from(
                Map::empty(),
                base_conv_found(exprs_model(expressions@), facts@, values@, bn254_scalar_modulus()),
            ).dom().contains(c) ==> exists|i: int| 0 <= i < r@.len() && r@[i].cell == c,
        forall|i: int| 0 <= i < r@.len() ==> exprs_cells(exprs_model(expressions@)).contains(#[trigger] r@[i].cell),
{
    infer_base_conversions_with_modulus(expressions, facts, values, &default_field_modulus())
}

} // verus!
