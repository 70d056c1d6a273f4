//! Arbitrary-precision integers used for constants, coefficients, domain values
//! and field moduli. An `Integer` holds its value as plain data (a sign and
//! little-endian base 2^32 digits); the arithmetic itself is done by
//! `num_bigint::BigInt` behind the small trusted functions at the end of this file.
use num_bigint::{BigInt, Sign};
use num::Num;
use vstd::prelude::*;

verus! {

/// The radix of one digit.
pub open spec fn digit_base() -> nat {
    0x1_0000_0000
}

/// Value of little-endian base 2^32 digits.
pub open spec fn digits_value(d: Seq<u32>) -> nat
    decreases d.len(),
{
    if d.len() == 0 {
        0
    } else {
        d[0] as nat + digit_base() * digits_value(d.subrange(1, d.len() as int))
    }
}

/// Smallest and largest value of an `i64`, the range in which value inference works.
pub open spec fn in_i64_range(v: int) -> bool {
    i64::MIN <= v <= i64::MAX
}

/// Truncating division, as Rust's `/` on signed integers: the quotient is rounded toward zero.
pub open spec fn trunc_div(a: int, b: int) -> int
    recommends
        b != 0,
{
    let q = abs(a) / abs(b);
    if (a >= 0) == (b > 0) || q == 0 {
        q
    } else {
        -q
    }
}

/// Remainder of truncating division: it takes the sign of the dividend.
pub open spec fn trunc_rem(a: int, b: int) -> int
    recommends
        b != 0,
{
    if a >= 0 {
        abs(a) % abs(b)
    } else {
        -(abs(a) % abs(b))
    }
}

pub open spec fn abs(a: int) -> int {
    if a < 0 {
        -a
    } else {
        a
    }
}

/// A signed integer of any size.
#[derive(Debug)]
pub struct Integer {
    negative: bool,
    digits: Vec<u32>,
}

impl View for Integer {
    type V = int;

    closed spec fn view(&self) -> int {
        if self.negative {
            -(digits_value(self.digits@) as int)
        } else {
            digits_value(self.digits@) as int
        }
    }
}

proof fn lemma_digits_value_zero(d: Seq<u32>)
    requires
        forall|i: int| 0 <= i < d.len() ==> d[i] == 0,
    ensures
        digits_value(d) == 0,
    decreases d.len(),
{
    if d.len() > 0 {
        lemma_digits_value_zero(d.subrange(1, d.len() as int));
    }
}

proof fn lemma_digits_value_nonzero(d: Seq<u32>, i: int)
    requires
        0 <= i < d.len(),
        d[i] != 0,
    ensures
        digits_value(d) > 0,
    decreases d.len(),
{
    if i > 0 {
        lemma_digits_value_nonzero(d.subrange(1, d.len() as int), i - 1);
    }
}

impl Clone for Integer {
    fn clone(&self) -> (r: Self)
        ensures
            r@ == self@,
    {
        let digits = self.digits.clone();
        assert(digits@ =~= self.digits@);
        Integer { negative: self.negative, digits }
    }
}

impl PartialEq for Integer {
    fn eq(&self, other: &Self) -> (r: bool) {
        int_eq(self, other)
    }
}

impl vstd::std_specs::cmp::PartialEqSpecImpl for Integer {
    open spec fn obeys_eq_spec() -> bool {
        true
    }

    open spec fn eq_spec(&self, other: &Self) -> bool {
        self@ == other@
    }
}

impl Integer {
    /// The integer with the given value.
    pub fn from_i64(value: i64) -> (r: Integer)
        ensures
            r@ == value,
    {
        let magnitude: u64 = if value < 0 {
            (-(value as i128)) as u64
        } else {
            value as u64
        };
        let low: u32 = (magnitude % 0x1_0000_0000u64) as u32;
        let high: u32 = (magnitude / 0x1_0000_0000u64) as u32;
        let mut digits: Vec<u32> = Vec::new();
        if magnitude != 0 {
            digits.push(low);
            if high != 0 {
                digits.push(high);
            }
        }
        proof {
            reveal_with_fuel(digits_value, 3);
            if magnitude != 0 {
                if high != 0 {
                    assert(digits@.subrange(1, 2) =~= seq![high]);
                    assert(digits@.subrange(1, 2).subrange(1, 1) =~= Seq::<u32>::empty());
                } else {
                    assert(digits@.subrange(1, 1) =~= Seq::<u32>::empty());
                }
            }
            assert(magnitude == low + 0x1_0000_0000u64 * high);
        }
        Integer { negative: value < 0, digits }
    }

    /// The integer with the given unsigned value.
    pub fn from_u64(value: u64) -> (r: Integer)
        ensures
            r@ == value,
    {
        let low: u32 = (value % 0x1_0000_0000u64) as u32;
        let high: u32 = (value / 0x1_0000_0000u64) as u32;
        let mut digits: Vec<u32> = Vec::new();
        if value != 0 {
            digits.push(low);
            if high != 0 {
                digits.push(high);
            }
        }
        proof {
            reveal_with_fuel(digits_value, 3);
            if value != 0 {
                if high != 0 {
                    assert(digits@.subrange(1, 2) =~= seq![high]);
                    assert(digits@.subrange(1, 2).subrange(1, 1) =~= Seq::<u32>::empty());
                } else {
                    assert(digits@.subrange(1, 1) =~= Seq::<u32>::empty());
                }
            }
            assert(value == low + 0x1_0000_0000u64 * high);
        }
        Integer { negative: false, digits }
    }

    /// Zero.
    pub fn zero() -> (r: Integer)
        ensures
            r@ == 0,
    {
        Integer::from_i64(0)
    }

    /// One.
    pub fn one() -> (r: Integer)
        ensures
            r@ == 1,
    {
        Integer::from_i64(1)
    }

    /// The integer with the given sign and little-endian base 2^32 digits.
    pub fn from_parts(negative: bool, digits: Vec<u32>) -> (r: Integer)
        ensures
            r@ == (if negative {
                -(digits_value(digits@) as int)
            } else {
                digits_value(digits@) as int
            }),
    {
        Integer { negative, digits }
    }

    /// Whether the value is negative.
    pub fn is_negative(&self) -> (r: bool)
        ensures
            r == (self@ < 0),
    {
        if !self.negative {
            proof {
                assert(self@ >= 0);
            }
            return false;
        }
        let nonzero = !self.is_zero();
        proof {
            if nonzero {
                assert(self@ != 0);
                assert(self@ <= 0);
            }
        }
        nonzero
    }

    /// The digits of the magnitude, least significant first.
    pub fn magnitude_digits(&self) -> (r: &Vec<u32>)
        ensures
            digits_value(r@) == abs(self@),
    {
        &self.digits
    }

    /// Whether the value is zero.
    pub fn is_zero(&self) -> (r: bool)
        ensures
            r == (self@ == 0),
    {
        let mut i: usize = 0;
        while i < self.digits.len()
            invariant
                i <= self.digits.len(),
                forall|j: int| 0 <= j < i ==> self.digits@[j] == 0,
            decreases self.digits.len() - i,
        {
            if self.digits[i] != 0 {
                proof {
                    lemma_digits_value_nonzero(self.digits@, i as int);
                }
                return false;
            }
            i = i + 1;
        }
        proof {
            lemma_digits_value_zero(self.digits@);
        }
        true
    }

    /// The negated value.
    pub fn neg(&self) -> (r: Integer)
        ensures
            r@ == -self@,
    {
        let digits = self.digits.clone();
        assert(digits@ =~= self.digits@);
        Integer { negative: !self.negative, digits }
    }

    /// Parses digits in the given radix, with an optional leading `-`.
    pub fn from_str_radix(text: &str, radix: u32) -> (r: Option<Integer>)
        requires
            2 <= radix <= 36,
        ensures
            r matches Some(v) ==> parsed_integer(text@, radix) == Some(v@),
            r is None ==> parsed_integer(text@, radix) is None,
    {
        int_parse(text, radix)
    }
}

/// The digit a character stands for: `0`-`9`, then `a`-`z` or `A`-`Z` from ten on; 99 for any
/// other character.
pub open spec fn digit_of(c: char) -> int {
    if '0' <= c <= '9' {
        c as int - '0' as int
    } else if 'a' <= c <= 'z' {
        c as int - 'a' as int + 10
    } else if 'A' <= c <= 'Z' {
        c as int - 'A' as int + 10
    } else {
        99
    }
}

/// The value of digits in a radix, `_` between them skipped; `None` where a character is no
/// digit below the radix.
pub open spec fn radix_digits_value(s: Seq<char>, radix: u32) -> Option<nat>
    decreases s.len(),
{
    if s.len() == 0 {
        Some(0)
    } else {
        match radix_digits_value(s.drop_last(), radix) {
            Some(v) => if s.last() == '_' {
                Some(v)
            } else if 0 <= digit_of(s.last()) < radix {
                Some(v * radix as nat + digit_of(s.last()) as nat)
            } else {
                None
            },
            None => None,
        }
    }
}

/// An unsigned number in a radix: one optional `+` (not followed by another), then digits
/// with `_` between them, the first a digit.
pub open spec fn unsigned_parsed(s: Seq<char>, radix: u32) -> Option<nat> {
    let body = if s.len() > 0 && s[0] == '+' && !(s.len() > 1 && s[1] == '+') {
        s.drop_first()
    } else {
        s
    };
    if body.len() == 0 || body[0] == '_' {
        None
    } else {
        radix_digits_value(body, radix)
    }
}

/// The value that `num_bigint::BigInt::from_str_radix` reads from a text in a radix, or
/// `None` where it refuses the text: a leading `-` (not followed by `+`) negates the unsigned
/// number that follows.
pub open spec fn parsed_integer(text: Seq<char>, radix: u32) -> Option<int> {
    if text.len() > 0 && text[0] == '-' && !(text.len() > 1 && text[1] == '+') {
        match unsigned_parsed(text.drop_first(), radix) {
            Some(v) => Some(-v),
            None => None,
        }
    } else {
        match unsigned_parsed(text, radix) {
            Some(v) => Some(v as int),
            None => None,
        }
    }
}

/// `num_bigint::BigInt::from_str_radix`: reads an optional sign and digits in the radix, as
/// `parsed_integer` states.
#[verifier::external_body]
fn int_parse(text: &str, radix: u32) -> (r: Option<Integer>)
    requires
        2 <= radix <= 36,
    ensures
        r matches Some(v) ==> parsed_integer(text@, radix) == Some(v@),
        r is None ==> parsed_integer(text@, radix) is None,
{
    match BigInt::from_str_radix(text, radix) {
        Ok(value) => {
            let (sign, digits) = value.to_u32_digits();
            Some(Integer { negative: sign == Sign::Minus, digits })
        },
        Err(_) => None,
    }
}

/// `+` on `num_bigint::BigInt`: the exact sum.
#[verifier::external_body]
pub(crate) fn int_add(a: &Integer, b: &Integer) -> (r: Integer)
    ensures
        r@ == a@ + b@,
{
    let x = BigInt::from_slice(if a.negative { Sign::Minus } else { Sign::Plus }, &a.digits);
    let y = BigInt::from_slice(if b.negative { Sign::Minus } else { Sign::Plus }, &b.digits);
    let (sign, digits) = (x + y).to_u32_digits();
    Integer { negative: sign == Sign::Minus, digits }
}

/// `-` on `num_bigint::BigInt`: the exact difference.
#[verifier::external_body]
pub(crate) fn int_sub(a: &Integer, b: &Integer) -> (r: Integer)
    ensures
        r@ == a@ - b@,
{
    let x = BigInt::from_slice(if a.negative { Sign::Minus } else { Sign::Plus }, &a.digits);
    let y = BigInt::from_slice(if b.negative { Sign::Minus } else { Sign::Plus }, &b.digits);
    let (sign, digits) = (x - y).to_u32_digits();
    Integer { negative: sign == Sign::Minus, digits }
}

/// `*` on `num_bigint::BigInt`: the exact product.
#[verifier::external_body]
pub(crate) fn int_mul(a: &Integer, b: &Integer) -> (r: Integer)
    ensures
        r@ == a@ * b@,
{
    let x = BigInt::from_slice(if a.negative { Sign::Minus } else { Sign::Plus }, &a.digits);
    let y = BigInt::from_slice(if b.negative { Sign::Minus } else { Sign::Plus }, &b.digits);
    let (sign, digits) = (x * y).to_u32_digits();
    Integer { negative: sign == Sign::Minus, digits }
}

/// `/` on `num_bigint::BigInt`: division rounded toward zero; it panics on a zero divisor.
#[verifier::external_body]
pub(crate) fn int_div(a: &Integer, b: &Integer) -> (r: Integer)
    requires
        b@ != 0,
    ensures
        r@ == trunc_div(a@, b@),
{
    let x = BigInt::from_slice(if a.negative { Sign::Minus } else { Sign::Plus }, &a.digits);
    let y = BigInt::from_slice(if b.negative { Sign::Minus } else { Sign::Plus }, &b.digits);
    let (sign, digits) = (x / y).to_u32_digits();
    Integer { negative: sign == Sign::Minus, digits }
}

/// `%` on `num_bigint::BigInt`: the remainder takes the sign of the dividend; it panics on a
/// zero divisor.
#[verifier::external_body]
pub(crate) fn int_rem(a: &Integer, b: &Integer) -> (r: Integer)
    requires
        b@ != 0,
    ensures
        r@ == trunc_rem(a@, b@),
{
    let x = BigInt::from_slice(if a.negative { Sign::Minus } else { Sign::Plus }, &a.digits);
    let y = BigInt::from_slice(if b.negative { Sign::Minus } else { Sign::Plus }, &b.digits);
    let (sign, digits) = (x % y).to_u32_digits();
    Integer { negative: sign == Sign::Minus, digits }
}

/// `<` on `num_bigint::BigInt`.
#[verifier::external_body]
pub(crate) fn int_lt(a: &Integer, b: &Integer) -> (r: bool)
    ensures
        r == (a@ < b@),
{
    let x = BigInt::from_slice(if a.negative { Sign::Minus } else { Sign::Plus }, &a.digits);
    let y = BigInt::from_slice(if b.negative { Sign::Minus } else { Sign::Plus }, &b.digits);
    x < y
}

/// `==` on `num_bigint::BigInt`.
#[verifier::external_body]
pub(crate) fn int_eq(a: &Integer, b: &Integer) -> (r: bool)
    ensures
        r == (a@ == b@),
{
    let x = BigInt::from_slice(if a.negative { Sign::Minus } else { Sign::Plus }, &a.digits);
    let y = BigInt::from_slice(if b.negative { Sign::Minus } else { Sign::Plus }, &b.digits);
    x == y
}

/// Whether `a <= b`.
pub(crate) fn int_le(a: &Integer, b: &Integer) -> (r: bool)
    ensures
        r == (a@ <= b@),
{
    !int_lt(b, a)
}

/// Whether the value lies in the range of `i64`.
pub(crate) fn int_in_i64_range(a: &Integer) -> (r: bool)
    ensures
        r == in_i64_range(a@),
{
    let low = Integer::from_i64(i64::MIN);
    let high = Integer::from_i64(i64::MAX);
    int_le(&low, a) && int_le(a, &high)
}

} // verus!
