//! The arithmetic behind the Base-Conv rule: base-`c` digits in range stand for a number below
//! the field modulus, and they are fixed by it.
use crate::base_conv::{
    base_candidate_model, base_powers_model, candidate_digits, cell_with_coef, coef_count, digit_coeffs, digits_rec, digits_rest,
    exact_digits_model, lemma_cell_with_coef, min_other, power,
};
use crate::cell::CellId;
use crate::domain::known_value_model;
use crate::linear::{term_list, LinearModel};
use vstd::prelude::*;

verus! {

/// The number that base-`c` digits stand for, lowest digit first:
/// `y_0 + c*y_1 + ... + c^(n-1)*y_(n-1)`.
pub open spec fn base_value(y: Seq<int>, c: int) -> int
    decreases y.len(),
{
    if y.len() == 0 {
        0
    } else {
        y[0] + c * base_value(y.drop_first(), c)
    }
}

/// Every digit is in `[0, c - 1]` and the highest is at most `top`: what the rule asks of the
/// digits' domains.
pub open spec fn base_digits_ok(y: Seq<int>, c: int, top: int) -> bool {
    &&& y.len() >= 1
    &&& forall|i: int| 0 <= i < y.len() ==> 0 <= #[trigger] y[i] <= c - 1
    &&& y.last() <= top
}

/// Digits in range stand for a number in `[0, c^(n-1) * (top + 1))`.
proof fn lemma_base_value_bound(y: Seq<int>, c: int, top: int)
    requires
        c > 1,
        base_digits_ok(y, c, top),
    ensures
        0 <= base_value(y, c) <= power(c, (y.len() - 1) as nat) * (top + 1) - 1,
    decreases y.len(),
{
    let rest = y.drop_first();
    if y.len() == 1 {
        assert(base_value(rest, c) == 0);
        assert(c * 0 == 0) by (nonlinear_arith);
    } else {
        assert(base_digits_ok(rest, c, top)) by {
            assert forall|i: int| 0 <= i < rest.len() implies 0 <= #[trigger] rest[i] <= c - 1 by {
                assert(rest[i] == y[i + 1]);
            }
        }
        lemma_base_value_bound(rest, c, top);
        let b = base_value(rest, c);
        let pw = power(c, (rest.len() - 1) as nat);
        let y0 = y[0];
        assert(power(c, (y.len() - 1) as nat) == pw * c);
        assert(0 <= y0 + c * b <= (pw * c) * (top + 1) - 1) by (nonlinear_arith)
            requires
                0 <= y0 <= c - 1,
                0 <= b <= pw * (top + 1) - 1,
                c > 1,
        ;
    }
}

/// Base-`c` digits are fixed by the number they stand for.
proof fn lemma_base_value_injective(y: Seq<int>, z: Seq<int>, c: int)
    requires
        c > 1,
        y.len() == z.len(),
        forall|i: int| 0 <= i < y.len() ==> 0 <= #[trigger] y[i] <= c - 1,
        forall|i: int| 0 <= i < z.len() ==> 0 <= #[trigger] z[i] <= c - 1,
        base_value(y, c) == base_value(z, c),
    ensures
        y == z,
    decreases y.len(),
{
    if y.len() > 0 {
        let a = base_value(y.drop_first(), c);
        let b = base_value(z.drop_first(), c);
        vstd::arithmetic::div_mod::lemma_fundamental_div_mod_converse(base_value(y, c), c, a, y[0]);
        vstd::arithmetic::div_mod::lemma_fundamental_div_mod_converse(base_value(z, c), c, b, z[0]);
        assert(a * c == c * a && b * c == c * b) by (nonlinear_arith);
        assert forall|i: int| 0 <= i < y.len() - 1 implies 0 <= #[trigger] y.drop_first()[i] <= c - 1 by {
            assert(y.drop_first()[i] == y[i + 1]);
        }
        assert forall|i: int| 0 <= i < z.len() - 1 implies 0 <= #[trigger] z.drop_first()[i] <= c - 1 by {
            assert(z.drop_first()[i] == z[i + 1]);
        }
        lemma_base_value_injective(y.drop_first(), z.drop_first(), c);
        assert(y =~= seq![y[0]] + y.drop_first());
        assert(z =~= seq![z[0]] + z.drop_first());
    } else {
        assert(y =~= z);
    }
}

/// The Base-Conv rule is sound: two digit assignments in range (every digit in `[0, c - 1]`,
/// the highest at most `top`, with `c^(n-1) * (top + 1) < p`) that stand for the same number
/// modulo `p` are the same digits.
pub proof fn lemma_base_conv_digits_unique(y: Seq<int>, z: Seq<int>, c: int, top: int, p: int)
    requires
        c > 1,
        y.len() == z.len(),
        base_digits_ok(y, c, top),
        base_digits_ok(z, c, top),
        power(c, (y.len() - 1) as nat) * (top + 1) < p,
        base_value(y, c) % p == base_value(z, c) % p,
    ensures
        y == z,
{
    lemma_base_value_bound(y, c, top);
    lemma_base_value_bound(z, c, top);
    vstd::arithmetic::div_mod::lemma_small_mod(base_value(y, c) as nat, p as nat);
    vstd::arithmetic::div_mod::lemma_small_mod(base_value(z, c) as nat, p as nat);
    lemma_base_value_injective(y, z, c);
}

/// Where the number is known, the digits in range that stand for it are the ones the rule
/// reports: its `n` base-`c` digits.
pub proof fn lemma_base_conv_known_digits(y: Seq<int>, c: int)
    requires
        c > 1,
        forall|i: int| 0 <= i < y.len() ==> 0 <= #[trigger] y[i] <= c - 1,
    ensures
        exact_digits_model(base_value(y, c), c, y.len()) == Some(y),
    decreases y.len(),
{
    let v = base_value(y, c);
    if y.len() == 0 {
        assert(digits_rec(v, c, 0) =~= y);
    } else {
        let rest = y.drop_first();
        assert forall|i: int| 0 <= i < rest.len() implies 0 <= #[trigger] rest[i] <= c - 1 by {
            assert(rest[i] == y[i + 1]);
        }
        lemma_base_conv_known_digits(rest, c);
        let a = base_value(rest, c);
        assert(a * c == c * a) by (nonlinear_arith);
        vstd::arithmetic::div_mod::lemma_fundamental_div_mod_converse(v, c, a, y[0]);
        assert(a >= 0);
        assert(v >= 0) by (nonlinear_arith)
            requires
                v == y[0] + c * a,
                y[0] >= 0,
                a >= 0,
                c > 1,
        ;
        assert(digits_rest(v, c, y.len()) == digits_rest(a, c, rest.len()));
        assert(digits_rec(v, c, y.len()) =~= seq![y[0]] + digits_rec(a, c, rest.len()));
        assert(y =~= seq![y[0]] + rest);
    }
}

/// A coefficient that occurs is at some position.
proof fn lemma_count_exists(ds: Seq<(CellId, int)>, v: int)
    requires
        coef_count(ds, v) >= 1,
    ensures
        exists|i: int| 0 <= i < ds.len() && ds[i].1 == v,
    decreases ds.len(),
{
    if ds.last().1 == v {
        assert(ds[ds.len() - 1].1 == v);
    } else {
        lemma_count_exists(ds.drop_last(), v);
        let i = choose|i: int| 0 <= i < ds.drop_last().len() && ds.drop_last()[i].1 == v;
        assert(ds[i] == ds.drop_last()[i]);
    }
}

/// Each digit listed with a coefficient is a term other than `x` whose coefficient, made
/// positive by `x`'s sign, is the listed one.
proof fn lemma_digit_coeffs_terms(ts: Seq<(CellId, int)>, x: CellId, xc: int)
    requires
        digit_coeffs(ts, x, xc) is Some,
    ensures
        forall|j: int|
            0 <= j < digit_coeffs(ts, x, xc)->0.len() ==> exists|i: int|
                0 <= i < ts.len() && ts[i].0 == (#[trigger] digit_coeffs(ts, x, xc)->0[j]).0 && digit_coeffs(ts, x, xc)->0[j].1
                    == -ts[i].1 * xc,
    decreases ts.len(),
{
    if ts.len() > 0 {
        let prev = ts.drop_last();
        lemma_digit_coeffs_terms(prev, x, xc);
        let ds = digit_coeffs(ts, x, xc)->0;
        let dp = digit_coeffs(prev, x, xc)->0;
        assert forall|j: int| 0 <= j < ds.len() implies exists|i: int|
            0 <= i < ts.len() && ts[i].0 == (#[trigger] ds[j]).0 && ds[j].1 == -ts[i].1 * xc by {
            if j < dp.len() {
                assert(ds[j] == dp[j]);
                let i = choose|i: int| 0 <= i < prev.len() && prev[i].0 == dp[j].0 && dp[j].1 == -prev[i].1 * xc;
                assert(ts[i] == prev[i]);
            } else {
                assert(ts[ts.len() - 1] == ts.last());
            }
        }
    }
}

/// The base-`c` digits read back as the number, up to what is left after them.
proof fn lemma_digits_rec_value(v: int, c: int, n: nat)
    requires
        c > 1,
    ensures
        digits_rec(v, c, n).len() == n,
        forall|i: int| 0 <= i < n ==> 0 <= #[trigger] digits_rec(v, c, n)[i] < c,
        v == base_value(digits_rec(v, c, n), c) + power(c, n) * digits_rest(v, c, n),
    decreases n,
{
    if n > 0 {
        let q = v / c;
        let rest = digits_rec(q, c, (n - 1) as nat);
        lemma_digits_rec_value(q, c, (n - 1) as nat);
        let d = digits_rec(v, c, n);
        assert(d == seq![v % c] + rest);
        assert(d.drop_first() =~= rest);
        assert forall|i: int| 0 <= i < n implies 0 <= #[trigger] digits_rec(v, c, n)[i] < c by {
            if i > 0 {
                assert(d[i] == rest[i - 1]);
            }
        }
        vstd::arithmetic::div_mod::lemma_fundamental_div_mod(v, c);
        let pr = base_value(rest, c);
        let r = digits_rest(q, c, (n - 1) as nat);
        let pw = power(c, (n - 1) as nat);
        assert(q == pr + pw * r);
        assert(power(c, n) == pw * c);
        assert(c * q == c * pr + (pw * c) * r) by (nonlinear_arith)
            requires
                q == pr + pw * r,
        ;
    }
}

/// The base of a decomposition of `x` in a linear equation: its smallest digit weight other
/// than one.
pub open spec fn decomposition_base(l: LinearModel, x: CellId, xc: int) -> int {
    min_other(digit_coeffs(term_list(l), x, xc)->0)
}

/// The Base-Conv rule gives the digits of `x`: where `x` has a known value, every digit of a
/// decomposition of the equation gets a value below the base `c`, the `i`-th digit is the term
/// of weight `c^i` in the equation (its coefficient made positive by `x`'s sign), and the values
/// weighted so add up to the value of `x`.
pub proof fn lemma_base_conv_digit_values(l: LinearModel, x: CellId, xc: int, m: Map<CellId, Set<int>>, p: int)
    requires
        crate::value_sound::lin_ok(l),
        base_candidate_model(l, x, xc, m, p) matches Some(cand) && cand.1 is Some,
    ensures
        ({
            let ds = candidate_digits(base_candidate_model(l, x, xc, m, p)->0);
            let c = decomposition_base(l, x, xc);
            &&& c > 1
            &&& forall|i: int| 0 <= i < ds.len() ==> ds[i].1 is Some && 0 <= (#[trigger] ds[i]).1->0 < c
                && -crate::linear::coef(l.terms, ds[i].0) * xc == power(c, i as nat)
            &&& known_value_model(m, x) == Some(base_value(Seq::new(ds.len(), |i: int| ds[i].1->0), c))
        }),
{
    let ts = term_list(l);
    let dsc = digit_coeffs(ts, x, xc)->0;
    let (c, digits) = base_powers_model(dsc)->0;
    let n = digits.len();
    let xv = known_value_model(m, x)->0;
    let dv = digits_rec(xv, c, n as nat);
    let cand = base_candidate_model(l, x, xc, m, p)->0;
    assert(cand == (digits, Some(dv)));
    lemma_digits_rec_value(xv, c, n as nat);
    assert(digits_rest(xv, c, n as nat) == 0);
    let ds = candidate_digits(cand);
    crate::value_sound::lemma_term_list_sorted(l);
    lemma_digit_coeffs_terms(ts, x, xc);
    assert forall|i: int| 0 <= i < ds.len() implies ds[i].1 is Some && 0 <= (#[trigger] ds[i]).1->0 < c
        && -crate::linear::coef(l.terms, ds[i].0) * xc == power(c, i as nat) by {
        assert(ds[i] == (digits[i], Some(dv[i])));
        let w = power(c, i as nat);
        assert(coef_count(dsc, w) == 1);
        lemma_count_exists(dsc, w);
        let j = choose|j: int| 0 <= j < dsc.len() && dsc[j].1 == w;
        lemma_cell_with_coef(dsc, w, j);
        assert(digits[i] == dsc[j].0);
        let t = choose|t: int| 0 <= t < ts.len() && ts[t].0 == dsc[j].0 && dsc[j].1 == -ts[t].1 * xc;
        assert(l.terms[ts[t].0] == ts[t].1);
        assert(l.terms.dom().contains(ts[t].0));
    }
    let vals = Seq::new(ds.len(), |i: int| ds[i].1->0);
    assert(vals =~= dv);
}

} // verus!
