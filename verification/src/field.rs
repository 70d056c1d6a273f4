//! Arithmetic modulo a field modulus: reduction, the small signed representative used by
//! value inference, and modular inverses by the extended Euclidean algorithm.
use crate::integer::{
    abs, in_i64_range, int_add, int_div, int_eq, int_in_i64_range, int_lt, int_mul, int_rem,
    int_sub, trunc_div, trunc_rem, Integer,
};
use vstd::arithmetic::div_mod::{
    lemma_fundamental_div_mod, lemma_fundamental_div_mod_converse_mod, lemma_mod_bound, lemma_mod_pos_bound,
};
use vstd::prelude::*;

verus! {

/// Whether `a` divides `b`.
pub open spec fn divides(a: int, b: int) -> bool {
    exists|k: int| #[trigger] (a * k) == b
}

/// The representative of `v` modulo `p` that lies in `(-p/2, p/2]`.
pub open spec fn field_repr(v: int, p: int) -> int {
    let n = v % p;
    if n > p / 2 {
        n - p
    } else {
        n
    }
}

/// A value as inference keeps it: with a modulus above one, its small signed representative;
/// without one, the value itself; either way only in the range of `i64`.
pub open spec fn normalize_model(v: int, p: Option<int>) -> Option<int> {
    match p {
        None => if in_i64_range(v) {
            Some(v)
        } else {
            None
        },
        Some(q) => if q > 1 && in_i64_range(field_repr(v, q)) {
            Some(field_repr(v, q))
        } else {
            None
        },
    }
}

/// The remainder of truncating division, moved up by the divisor where it is negative, is
/// the Euclidean remainder; for a non-negative dividend truncating division is Euclidean.
pub proof fn lemma_trunc_to_euclid(a: int, b: int)
    requires
        b > 0,
    ensures
        (if trunc_rem(a, b) < 0 {
            trunc_rem(a, b) + b
        } else {
            trunc_rem(a, b)
        }) == a % b,
        a >= 0 ==> trunc_div(a, b) == a / b && trunc_rem(a, b) == a % b,
        -b < trunc_rem(a, b) < b,
{
    let q = abs(a) / b;
    let r = abs(a) % b;
    lemma_fundamental_div_mod(abs(a), b);
    lemma_mod_pos_bound(abs(a), b);
    if a < 0 {
        if r == 0 {
            assert(a == (-q) * b + 0) by (nonlinear_arith)
                requires
                    abs(a) == b * q + r,
                    r == 0,
                    a == -abs(a),
            ;
            lemma_fundamental_div_mod_converse_mod(a, b, -q, 0);
        } else {
            assert(a == (-q - 1) * b + (b - r)) by (nonlinear_arith)
                requires
                    abs(a) == b * q + r,
                    a == -abs(a),
            ;
            lemma_fundamental_div_mod_converse_mod(a, b, -q - 1, b - r);
        }
    }
}

/// `v` reduced modulo `p` into `[0, p)`.
pub fn mod_field(value: &Integer, modulus: &Integer) -> (r: Integer)
    requires
        modulus@ > 0,
    ensures
        r@ == value@ % modulus@,
{
    proof {
        lemma_trunc_to_euclid(value@, modulus@);
    }
    let n = int_rem(value, modulus);
    if n.is_negative() {
        int_add(&n, modulus)
    } else {
        n
    }
}

/// The small signed representative of `v` modulo `p`, where `p > 1` and it lies in the
/// range of `i64`.
pub fn normalize_field_value(value: &Integer, modulus: &Integer) -> (r: Option<Integer>)
    ensures
        r matches Some(v) ==> normalize_model(value@, Some(modulus@)) == Some(v@),
        r is None ==> normalize_model(value@, Some(modulus@)) is None,
{
    if !int_lt(&Integer::one(), modulus) {
        return None;
    }
    let n = mod_field(value, modulus);
    let two = Integer::from_i64(2);
    proof {
        lemma_trunc_to_euclid(modulus@, 2);
    }
    let half = int_div(modulus, &two);
    let repr = if int_lt(&half, &n) {
        int_sub(&n, modulus)
    } else {
        n
    };
    if int_in_i64_range(&repr) {
        Some(repr)
    } else {
        None
    }
}

/// A value as inference keeps it, with or without a modulus.
pub fn normalize_value(value: &Integer, modulus: Option<&Integer>) -> (r: Option<Integer>)
    ensures
        r matches Some(v) ==> normalize_model(value@, opt_view(modulus)) == Some(v@),
        r is None ==> normalize_model(value@, opt_view(modulus)) is None,
{
    match modulus {
        Some(p) => normalize_field_value(value, p),
        None => if int_in_i64_range(value) {
            Some(value.clone())
        } else {
            None
        },
    }
}

/// The value of an optional modulus.
pub open spec fn opt_view(p: Option<&Integer>) -> Option<int> {
    match p {
        Some(q) => Some(q@),
        None => None,
    }
}

/// An inverse of `v` modulo `p`: a `t` in `[0, p)` with `v * t = 1 (mod p)`.
pub open spec fn is_mod_inverse(v: int, p: int, t: int) -> bool {
    0 <= t < p && (v * t) % p == 1int % p
}

/// Every common divisor of `a` and `b` is one of `c` and `d`, and conversely.
pub open spec fn same_common_divisors(a: int, b: int, c: int, d: int) -> bool {
    forall|x: int| (divides(x, a) && divides(x, b)) <==> (divides(x, c) && divides(x, d))
}

proof fn lemma_divides_combination(x: int, a: int, b: int, q: int)
    requires
        divides(x, a),
        divides(x, b),
    ensures
        divides(x, a - q * b),
{
    let ka = choose|k: int| #[trigger] (x * k) == a;
    let kb = choose|k: int| #[trigger] (x * k) == b;
    assert(x * (ka - q * kb) == a - q * b) by (nonlinear_arith)
        requires
            x * ka == a,
            x * kb == b,
    ;
}

proof fn lemma_euclid_step(r: int, nr: int, q: int)
    ensures
        same_common_divisors(r, nr, nr, r - q * nr),
{
    assert forall|x: int| (divides(x, r) && divides(x, nr)) <==> (divides(x, nr) && divides(
        x,
        r - q * nr,
    )) by {
        if divides(x, r) && divides(x, nr) {
            lemma_divides_combination(x, r, nr, q);
        }
        if divides(x, nr) && divides(x, r - q * nr) {
            lemma_divides_combination(x, r - q * nr, nr, -q);
            assert(r - q * nr - (-q) * nr == r) by (nonlinear_arith);
        }
    }
}

/// With a common divisor above one, `v` has no inverse modulo `p`.
proof fn lemma_no_inverse(v: int, p: int, g: int)
    requires
        p > 1,
        g > 1,
        divides(g, p),
        divides(g, v % p),
    ensures
        forall|t: int| !is_mod_inverse(v, p, t),
{
    assert forall|t: int| !is_mod_inverse(v, p, t) by {
        if is_mod_inverse(v, p, t) {
            let kp = choose|k: int| #[trigger] (g * k) == p;
            let kv = choose|k: int| #[trigger] (g * k) == v % p;
            lemma_fundamental_div_mod(v, p);
            lemma_fundamental_div_mod(v * t, p);
            lemma_fundamental_div_mod(1, p);
            lemma_mod_pos_bound(1, p);
            assert(1int % p == 1) by {
                lemma_fundamental_div_mod_converse_mod(1, p, 0, 1);
            }
            // v * t = p * (v * t / p) + 1 and v = p * (v / p) + g * kv, so g divides 1.
            let a = (v * t) / p;
            let b = v / p;
            let bt = b * t;
            let kvt = kv * t;
            assert((p * b + g * kv) * t == p * bt + g * kvt) by (nonlinear_arith)
                requires
                    bt == b * t,
                    kvt == kv * t,
            ;
            assert(v * t == p * bt + g * kvt);
            assert(p * bt - p * a == p * (bt - a)) by (nonlinear_arith);
            assert(p * (bt - a) == g * (kp * (bt - a))) by (nonlinear_arith)
                requires
                    g * kp == p,
            ;
            assert(g * kvt + g * (kp * (bt - a)) == g * (kvt + kp * (bt - a))) by (nonlinear_arith);
            assert(g * (kv * t + kp * (b * t - a)) == 1);
            let k = kv * t + kp * (b * t - a);
            assert(false) by (nonlinear_arith)
                requires
                    g > 1,
                    g * k == 1,
            ;
        }
    }
}

/// The inverse modulo `p` is unique.
pub proof fn lemma_inverse_unique(v: int, p: int, t1: int, t2: int)
    requires
        p > 1,
        is_mod_inverse(v, p, t1),
        is_mod_inverse(v, p, t2),
    ensures
        t1 == t2,
{
    vstd::arithmetic::div_mod::lemma_mul_mod_noop_right(t1, v * t2, p);
    vstd::arithmetic::div_mod::lemma_mul_mod_noop_left(t1 * v, t2, p);
    assert(t1 * (v * t2) == (t1 * v) * t2) by (nonlinear_arith);
    assert(t1 * v == v * t1) by (nonlinear_arith);
    lemma_fundamental_div_mod_converse_mod(1, p, 0, 1);
    lemma_fundamental_div_mod_converse_mod(t1, p, 0, t1);
    lemma_fundamental_div_mod_converse_mod(t2, p, 0, t2);
    assert(t1 * 1 == t1);
    assert(1 * t2 == t2);
}

/// The inverse of `v` modulo `p`, where there is one.
pub fn mod_inverse(value: &Integer, modulus: &Integer) -> (r: Option<Integer>)
    requires
        modulus@ > 1,
    ensures
        r matches Some(t) ==> is_mod_inverse(value@, modulus@, t@),
        r is None ==> forall|t: int| !is_mod_inverse(value@, modulus@, t),
{
    let ghost p = modulus@;
    let ghost v0 = value@ % p;
    let mut t = Integer::zero();
    let mut new_t = Integer::one();
    let mut r = modulus.clone();
    let mut new_r = mod_field(value, modulus);
    proof {
        lemma_mod_bound(value@, p);
        assert(same_common_divisors(p, v0, r@, new_r@));
        assert((0 * value@ - r@) % p == 0) by {
            assert(0 * value@ - r@ == (-1) * p + 0);
            lemma_fundamental_div_mod_converse_mod(0 * value@ - r@, p, -1, 0);
        }
        lemma_fundamental_div_mod(value@, p);
        assert((1 * value@ - new_r@) % p == 0) by {
            assert(1 * value@ - new_r@ == (value@ / p) * p + 0) by (nonlinear_arith)
                requires
                    value@ == p * (value@ / p) + value@ % p,
                    new_r@ == value@ % p,
            ;
            lemma_fundamental_div_mod_converse_mod(1 * value@ - new_r@, p, value@ / p, 0);
        }
    }
    while !new_r.is_zero()
        invariant
            p == modulus@,
            p > 1,
            v0 == value@ % p,
            r@ >= 0,
            new_r@ >= 0,
            r@ > 0 || new_r@ > 0,
            same_common_divisors(p, v0, r@, new_r@),
            (t@ * value@ - r@) % p == 0,
            (new_t@ * value@ - new_r@) % p == 0,
        decreases new_r@,
    {
        proof {
            lemma_trunc_to_euclid(r@, new_r@);
        }
        let quotient = int_div(&r, &new_r);
        let ghost (t0, nt0, r0, nr0) = (t@, new_t@, r@, new_r@);
        let next_t = int_sub(&t, &int_mul(&quotient, &new_t));
        t = new_t;
        new_t = next_t;
        let next_r = int_sub(&r, &int_mul(&quotient, &new_r));
        r = new_r;
        new_r = next_r;
        proof {
            let q = quotient@;
            lemma_fundamental_div_mod(r0, nr0);
            lemma_mod_pos_bound(r0, nr0);
            assert(new_r@ == r0 % nr0) by (nonlinear_arith)
                requires
                    new_r@ == r0 - q * nr0,
                    q == r0 / nr0,
                    r0 == nr0 * (r0 / nr0) + r0 % nr0,
            ;
            lemma_euclid_step(r0, nr0, q);
            // (t0 - q * nt0) * value - (r0 - q * nr0)
            //   = (t0 * value - r0) - q * (nt0 * value - nr0)
            let a = t0 * value@ - r0;
            let b = nt0 * value@ - nr0;
            assert(new_t@ * value@ - new_r@ == a - q * b) by (nonlinear_arith)
                requires
                    new_t@ == t0 - q * nt0,
                    new_r@ == r0 - q * nr0,
                    a == t0 * value@ - r0,
                    b == nt0 * value@ - nr0,
            ;
            lemma_fundamental_div_mod(a, p);
            lemma_fundamental_div_mod(b, p);
            let ka = a / p;
            let kb = b / p;
            assert(a - q * b == (ka - q * kb) * p + 0) by (nonlinear_arith)
                requires
                    a == p * ka + 0,
                    b == p * kb + 0,
            ;
            lemma_fundamental_div_mod_converse_mod(a - q * b, p, ka - q * kb, 0);
        }
    }
    proof {
        // the common divisors of (p, v0) are those of r: r is their greatest common divisor
        assert(divides(r@, r@)) by {
            assert(r@ * 1 == r@);
        }
        assert(divides(r@, 0)) by {
            assert(r@ * 0 == 0);
        }
        assert(divides(r@, p) && divides(r@, v0));
    }
    if !int_eq(&r, &Integer::one()) {
        proof {
            lemma_no_inverse(value@, p, r@);
        }
        return None;
    }
    let inverse = mod_field(&t, modulus);
    proof {
        lemma_mod_bound(t@, p);
        lemma_fundamental_div_mod(t@, p);
        lemma_fundamental_div_mod(t@ * value@ - 1, p);
        let kt = t@ / p;
        let k1 = (t@ * value@ - 1) / p;
        // value * inverse = value * (t - p * kt) = 1 + p * (k1 - value * kt)
        assert(value@ * inverse@ == (k1 - value@ * kt) * p + 1) by (nonlinear_arith)
            requires
                t@ == p * kt + inverse@,
                t@ * value@ - 1 == p * k1 + 0,
        ;
        lemma_fundamental_div_mod_converse_mod(value@ * inverse@, p, k1 - value@ * kt, 1);
        lemma_fundamental_div_mod_converse_mod(1, p, 0, 1);
    }
    Some(inverse)
}

} // verus!
