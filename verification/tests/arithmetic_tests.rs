use korrekt_ucp::base_conv::default_field_modulus;
use korrekt_ucp::cell::CellId;
use korrekt_ucp::domain::UcpValueDomain;
use korrekt_ucp::field::{mod_field, mod_inverse, normalize_field_value, normalize_value};
use korrekt_ucp::integer::Integer;
use korrekt_ucp::linear::LinearExpr;

fn num(v: i64) -> Integer {
    Integer::from_i64(v)
}

#[test]
fn integers_keep_their_values() {
    assert_eq!(Integer::from_u64(u64::MAX), Integer::from_parts(false, vec![u32::MAX, u32::MAX]));
    assert_eq!(num(-5).neg(), num(5));
    assert!(num(-5).is_negative());
    assert!(!num(0).is_negative());
    assert!(Integer::zero().is_zero());
    assert_eq!(Integer::one(), num(1));
    assert_eq!(Integer::from_str_radix("-ff", 16), Some(num(-255)));
    assert_eq!(Integer::from_str_radix("12x", 10), None);
    assert_eq!(num(-7).magnitude_digits(), &vec![7u32]);
}

#[test]
fn field_reduction_and_inverses() {
    assert_eq!(mod_field(&num(-1), &num(7)), num(6));
    assert_eq!(mod_field(&num(15), &num(7)), num(1));
    assert_eq!(mod_inverse(&num(3), &num(7)), Some(num(5)));
    assert_eq!(mod_inverse(&num(-3), &num(7)), Some(num(2)));
    assert_eq!(mod_inverse(&num(4), &num(8)), None);
    assert_eq!(normalize_field_value(&num(6), &num(7)), Some(num(-1)));
    assert_eq!(normalize_field_value(&num(3), &num(7)), Some(num(3)));
    assert_eq!(normalize_value(&num(100), None), Some(num(100)));
}

#[test]
fn default_modulus_is_the_bn254_scalar_field() {
    let expected = Integer::from_str_radix(
        "30644e72e131a029b85045b68181585d2833e84879b9709143e1f593f0000001",
        16,
    )
    .unwrap();
    assert_eq!(default_field_modulus(), expected);
}

#[test]
fn linear_forms_combine_terms() {
    let x = CellId::advice(0, 0);
    let y = CellId::advice(1, 0);
    let sum = LinearExpr::term(x, num(2))
        .add(LinearExpr::term(y, num(3)))
        .add(LinearExpr::term(x, num(-2)))
        .add(LinearExpr::constant(num(4)))
        .scale(&num(5));

    assert_eq!(sum.constant_value(), &num(20));
    assert_eq!(sum.num_terms(), 1);
    assert_eq!(sum.entries(), &vec![(y, num(15))]);
}

#[test]
fn domains_intersect_and_report_their_values() {
    let a = UcpValueDomain::finite_set(vec![num(3), num(1), num(2), num(1)]).unwrap();
    let b = UcpValueDomain::finite_set(vec![num(2), num(3), num(9)]).unwrap();

    assert_eq!(a.values(), vec![num(1), num(2), num(3)]);
    assert_eq!(a.max_value(), &num(3));
    assert!(a.is_subset_of_range(&num(1), &num(3)));
    assert!(!a.is_subset_of_range(&num(2), &num(3)));
    assert_eq!(a.intersect(&b), UcpValueDomain::finite_set(vec![num(2), num(3)]));
    let c = UcpValueDomain::finite_set(vec![num(7)]).unwrap();
    assert_eq!(a.intersect(&c), None);
    assert!(c.is_singleton());
    assert_eq!(c.exact_value(), Some(&num(7)));
    assert_eq!(UcpValueDomain::finite_set(vec![]), None);
}

#[test]
fn radix_parsing_follows_signs_and_separators() {
    assert_eq!(Integer::from_str_radix("1_000", 10), Some(num(1000)));
    assert_eq!(Integer::from_str_radix("+7", 10), Some(num(7)));
    assert_eq!(Integer::from_str_radix("-0", 10), Some(num(0)));
    assert_eq!(Integer::from_str_radix("Ff", 16), Some(num(255)));
    assert_eq!(Integer::from_str_radix("z", 36), Some(num(35)));
    assert_eq!(Integer::from_str_radix("_1", 10), None);
    assert_eq!(Integer::from_str_radix("", 10), None);
    assert_eq!(Integer::from_str_radix("+", 10), None);
    assert_eq!(Integer::from_str_radix("-+1", 10), None);
    assert_eq!(Integer::from_str_radix("+-1", 10), None);
    assert_eq!(Integer::from_str_radix("++1", 10), None);
    assert_eq!(Integer::from_str_radix("--1", 10), None);
    assert_eq!(Integer::from_str_radix("19", 8), None);
    assert_eq!(Integer::from_str_radix("1_", 10), Some(num(1)));
}
