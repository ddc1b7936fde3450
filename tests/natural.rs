use malachite_nz::integer::Integer;
use malachite_nz::natural::{
    limb_neg_mod_natural, limb_rem_natural, limbs_rem_naive, limbs_trailing_zeros, natural_index_of_next_false_bit_alt,
    natural_trailing_zeros_alt, ArithmeticError, Natural,
};

fn natural(s: &str) -> Natural {
    Natural::from_str(s).unwrap()
}

#[test]
fn test_mod_power_of_2_neg() {
    let test = |s: &str, pow: u64, out: &str| {
        let u = natural(s);

        assert!(u.mod_power_of_2_is_reduced(pow));
        let n = u.clone().mod_power_of_2_neg(pow);
        assert!(n.is_valid());
        assert_eq!(n, natural(out));
        assert!(n.mod_power_of_2_is_reduced(pow));

        let n = (&u).mod_power_of_2_neg(pow);
        assert!(n.is_valid());
        assert_eq!(n, natural(out));

        let mut n = u;
        n.mod_power_of_2_neg_assign(pow);
        assert_eq!(n, natural(out));
    };
    test("0", 5, "0");
    test("10", 4, "6");
    test("100", 8, "156");
    test("1", 32, "4294967295");
    test("100", 100, "1267650600228229401496703205276");
    test("1267650600228229401496703205276", 100, "100");
}

#[test]
fn test_divisible_by_power_of_2() {
    let test = |n: &str, pow: u64, out: bool| {
        assert_eq!(natural(n).divisible_by_power_of_2(pow), out);
    };
    test("0", 0, true);
    test("0", 10, true);
    test("0", 100, true);
    test("123", 0, true);
    test("123", 1, false);
    test("1000000000000", 0, true);
    test("1000000000000", 12, true);
    test("1000000000000", 13, false);
    test("4294967295", 0, true);
    test("4294967295", 1, false);
    test("4294967296", 0, true);
    test("4294967296", 32, true);
    test("4294967296", 33, false);
    test("18446744073709551615", 0, true);
    test("18446744073709551615", 1, false);
    test("18446744073709551616", 0, true);
    test("18446744073709551616", 64, true);
    test("18446744073709551616", 65, false);
}

#[test]
fn test_limbs_trailing_zeros() {
    let test = |limbs: &[u32], out: u64| {
        assert_eq!(limbs_trailing_zeros(limbs), out);
    };
    test(&[4], 2);
    test(&[0, 4], 34);
    test(&[1, 2, 3], 0);
}

#[test]
fn test_trailing_zeros() {
    let test = |n: &str, out: Option<u64>| {
        assert_eq!(natural(n).trailing_zeros(), out);
        assert_eq!(natural_trailing_zeros_alt(&natural(n)), out);
    };
    test("0", None);
    test("123", Some(0));
    test("1000000000000", Some(12));
    test("4294967295", Some(0));
    test("4294967296", Some(32));
    test("18446744073709551615", Some(0));
    test("18446744073709551616", Some(64));
}

#[test]
fn natural_canonical_form_after_operations() {
    let big = natural("18446744073709551616");
    let one = Natural::from_limb(1);
    let d = big.sub(&one).unwrap();
    assert!(d.is_valid());
    assert_eq!(d.to_limbs_asc(), vec![u32::MAX, u32::MAX]);
    let small = natural("4294967296").sub(&one).unwrap();
    assert!(matches!(small, Natural::Small(u32::MAX)));
    let zero = big.sub(&big).unwrap();
    assert!(matches!(zero, Natural::Small(0)));
    assert_eq!(zero.limb_count(), 0);
    let trimmed = Natural::from_limbs_asc(&[5, 0, 0]);
    assert!(matches!(trimmed, Natural::Small(5)));
    let large = Natural::from_limbs_asc(&[5, 7, 0]);
    assert!(large.is_valid());
    assert_eq!(large.to_limbs_asc(), vec![5, 7]);
    assert!(!Natural::Large(vec![5, 0]).is_valid());
    assert!(!Natural::Large(vec![5]).is_valid());
}

#[test]
fn natural_add_sub_inverse() {
    let pairs = [
        ("0", "0"),
        ("123", "456"),
        ("4294967295", "1"),
        ("18446744073709551615", "18446744073709551615"),
        ("1234567890987654321234567890987654321", "98765432123456789"),
    ];
    for (x, y) in pairs.iter() {
        let (x, y) = (natural(x), natural(y));
        let s = x.add(&y);
        assert!(s.is_valid());
        assert_eq!(s.sub(&y).unwrap(), x);
        assert_eq!(s.checked_sub(&x).unwrap(), y);
    }
    assert_eq!(
        natural("4294967295").add(&Natural::from_limb(1)),
        natural("4294967296")
    );
}

#[test]
fn natural_sub_underflow() {
    assert_eq!(
        Natural::from_limb(3).sub(&Natural::from_limb(5)),
        Err(ArithmeticError::Underflow)
    );
    assert_eq!(Natural::from_limb(3).checked_sub(&Natural::from_limb(5)), None);
    assert_eq!(
        Natural::from_limb(3).sub_limb(5),
        Err(ArithmeticError::Underflow)
    );
    assert_eq!(natural("1000000000000").sub_limb(123).unwrap(), natural("999999999877"));
}

#[test]
fn natural_add_limb_and_mul() {
    assert_eq!(natural("18446744073709551615").add_limb(1), natural("18446744073709551616"));
    assert_eq!(natural("123").mul_limb(456), natural("56088"));
    assert_eq!(
        natural("123456789000").mul(&natural("987654321000")),
        natural("121932631112635269000000")
    );
    assert_eq!(
        natural("4294967295").mul(&natural("4294967295")),
        natural("18446744065119617025")
    );
    assert_eq!(natural("0").mul(&natural("123")), natural("0"));
    assert_eq!(
        natural("1000000000000")
            .checked_sub_mul(&natural("1000"), &natural("1000000000"))
            .unwrap(),
        natural("0")
    );
    assert_eq!(natural("10").checked_sub_mul(&natural("3"), &natural("4")), None);
}

#[test]
fn natural_division_by_limb() {
    let test = |n: &str, d: u32, q: &str, r: u32| {
        let n = natural(n);
        let (quotient, remainder) = n.div_mod_limb(d).unwrap();
        assert_eq!(quotient, natural(q));
        assert_eq!(remainder, r);
        assert_eq!(n.rem_limb(d), r);
        assert_eq!(quotient.mul_limb(d).add_limb(remainder), n);
    };
    test("0", 1, "0", 0);
    test("23", 10, "2", 3);
    test("1000000000000", 123, "8130081300", 100);
    test(
        "1234567890987654321234567890987654321",
        123,
        "10037137325102880660443641390143531",
        8,
    );
    test(
        "1234567890987654321234567890987654321",
        4294967295,
        "287445236759981968904507779",
        2109566516,
    );
    assert_eq!(
        natural("1234567890987654321234567890987654321").rem_limb(2147483659),
        1580130593
    );
    assert_eq!(natural("1000000000000").div_mod_limb(0), Err(ArithmeticError::DivisionByZero));
    assert_eq!(natural("1000000000000").neg_mod_limb(123), 23);
    assert_eq!(natural("0").neg_mod_limb(123), 0);
}

#[test]
fn natural_set_bits_from_zero() {
    let mut n = Natural::zero();
    n.set_bit(2);
    n.set_bit(5);
    n.set_bit(6);
    assert_eq!(n, Natural::from_limb(100));
    assert!(n.get_bit(5));
    assert!(!n.get_bit(4));
    n.set_bit(40);
    assert_eq!(n, natural("1099511627876"));
    n.clear_bit(40);
    n.clear_bit(2);
    n.clear_bit(3);
    assert_eq!(n, Natural::from_limb(96));
    assert!(n.is_valid());
    assert_eq!(Natural::power_of_2(64), natural("18446744073709551616"));
}

#[test]
fn natural_bit_scan() {
    let n = Natural::from_u64(0xb_0000_0000);
    let falses = [(0, 0), (20, 20), (31, 31), (32, 34), (33, 34), (34, 34), (35, 36), (100, 100)];
    for &(start, out) in falses.iter() {
        assert_eq!(n.index_of_next_false_bit(start), Some(out));
        assert_eq!(natural_index_of_next_false_bit_alt(&n, start), Some(out));
    }
    let trues = [
        (0, Some(32)),
        (20, Some(32)),
        (31, Some(32)),
        (32, Some(32)),
        (33, Some(33)),
        (34, Some(35)),
        (35, Some(35)),
        (36, None),
        (100, None),
    ];
    for &(start, out) in trues.iter() {
        assert_eq!(n.index_of_next_true_bit(start), out);
    }
    let small = Natural::from_limb(0b1011);
    assert_eq!(small.index_of_next_false_bit(0), Some(2));
    assert_eq!(small.index_of_next_true_bit(2), Some(3));
}

#[test]
fn natural_decimal_reading() {
    assert!(Natural::from_str("").is_none());
    assert!(Natural::from_str("12a").is_none());
    assert!(Natural::from_str("-1").is_none());
    assert_eq!(Natural::from_str("4294967296").unwrap().to_limbs_asc(), vec![0, 1]);
    assert_eq!(Natural::from_str("007").unwrap(), Natural::from_limb(7));
}

#[test]
fn natural_limb_access_and_naive_remainder() {
    let n = natural("1000000000000");
    assert_eq!(n.get_limb(0), 3567587328);
    assert_eq!(n.get_limb(1), 232);
    assert_eq!(n.get_limb(2), 0);
    assert_eq!(Natural::zero().get_limb(0), 0);
    assert!(n.divisible_by_limb(1000));
    assert!(!n.divisible_by_limb(7));
    assert!(!n.divisible_by_limb(0));
    assert!(Natural::zero().divisible_by_limb(0));
    let big = natural("1234567890987654321234567890987654321");
    for &d in [1u32, 2, 3, 7, 123, 789, 0x8000_0000, 0x8765_4321, u32::MAX].iter() {
        assert_eq!(big.mod_limb_naive(d), big.rem_limb(d));
    }
    assert_eq!(limbs_rem_naive(&[123, 456], 789), 636);
    assert_eq!(limbs_rem_naive(&[], 5), 0);
}

#[test]
fn natural_increment_in_place() {
    let mut n = Natural::from_limb(u32::MAX - 1);
    n.increment();
    assert_eq!(n, Natural::from_limb(u32::MAX));
    n.increment();
    assert_eq!(n, natural("4294967296"));
    assert!(n.is_valid());
    let mut m = natural("18446744073709551615");
    m.increment();
    assert_eq!(m.to_limbs_asc(), vec![0, 0, 1]);
    let mut k = Natural::from_limbs_asc(&[u32::MAX, 5]);
    k.increment();
    assert_eq!(k.to_limbs_asc(), vec![0, 6]);
    let mut c = natural("4294967000");
    for _ in 0..1000 {
        c.increment();
    }
    assert_eq!(c, natural("4294968000"));
}

#[test]
fn natural_not() {
    assert_eq!(Natural::zero().not(), Integer::from_i64(-1));
    assert_eq!(Natural::from_limb(123).not(), Integer::from_i64(-124));
    assert_eq!(natural("1000000000000").not(), Integer::from_str("-1000000000001").unwrap());
    assert_eq!(natural("2147483647").not(), Integer::from_i64(-2147483648));
}

#[test]
fn limb_by_natural_remainders() {
    assert_eq!(limb_rem_natural(23, &Natural::from_limb(10)), 3);
    assert_eq!(limb_rem_natural(123, &Natural::from_limb(123)), 0);
    assert_eq!(limb_rem_natural(123, &Natural::from_limb(1)), 0);
    assert_eq!(limb_rem_natural(456, &natural("1000000000000")), 456);
    assert_eq!(limb_neg_mod_natural(123, &Natural::from_limb(123)), Natural::zero());
    assert_eq!(limb_neg_mod_natural(23, &Natural::from_limb(10)), Natural::from_limb(7));
    assert_eq!(limb_neg_mod_natural(123, &natural("1000000000000")), natural("999999999877"));
}
