use malachite_nz::integer::{i32_partial_cmp_abs_integer, limbs_eq_mod_power_of_two_neg_pos, Integer};
use malachite_nz::natural::Natural;
use std::cmp::Ordering;

fn integer(s: &str) -> Integer {
    Integer::from_str(s).unwrap()
}

fn natural(s: &str) -> Natural {
    Natural::from_str(s).unwrap()
}

#[test]
fn test_limbs_eq_mod_power_of_two_neg_pos() {
    let test = |xs: &[u32], ys: &[u32], pow: u64, out: bool| {
        assert_eq!(limbs_eq_mod_power_of_two_neg_pos(xs, ys, pow), out);
    };
    test(&[0b111_1011, 0b1_1100_1000], &[0b1_0101], 4, true);
    test(&[0b111_1011, 0b1_1100_1000], &[0b1_0101], 5, false);
    test(&[0b111_1011, 0b1_1100_1000], &[0b1111_1111_1111_1111_1111_1111_1000_0101, 0b1111], 35, true);
    test(&[0b111_1011, 0b1_1100_1000], &[0b1111_1111_1111_1111_1111_1111_1000_0101, 0b1111], 36, false);
    test(&[0b111_1011, 0b1_1100_1000], &[0b1111_1111_1111_1111_1111_1111_1000_0101, 0b1111], 100, false);
    test(&[0b111_1011, 0b1_1100_1000], &[0b1111_1111_1111_1111_1111_1111_1000_0101, 0b1_0111], 37, true);
    test(&[0b111_1011, 0b1_1100_1000], &[0b1111_1111_1111_1111_1111_1111_1000_0101, 0b1_0111], 38, false);
    test(&[0b111_1011, 0b1_1100_1000], &[0b1111_1111_1111_1111_1111_1111_1000_0101, 0b1_0111], 100, false);
    test(&[0xabcd_abcd, 0x1234_1234], &[0x5432_5433, 0xedcb_edcb], 64, true);
    test(&[0xabcd_abcd, 0x1234_1234], &[0x0000_0000, 0xedcb_edcb], 64, false);
    test(&[0xabcd_abcd, 0x1234_1234], &[0x5432_5433, 0xedcb_edcb], 65, false);
    test(&[0xabcd_abcd, 0x1234_1234], &[0x5432_5433, 0xedcb_edcb], 128, false);
    test(&[0, 0, 0x1234_1234], &[0, 0, 0x1234_edcc], 80, true);
    test(&[0x5432_5433, 0xedcb_edcb], &[0xabcd_abcd, 0x1234_1234], 64, true);
    test(&[0x0000_0000, 0xedcb_edcb], &[0xabcd_abcd, 0x1234_1234], 64, false);
    test(&[0x5432_5433, 0xedcb_edcb], &[0xabcd_abcd, 0x1234_1234], 65, false);
    test(&[0x5432_5433, 0xedcb_edcb], &[0xabcd_abcd, 0x1234_1234], 128, false);
    test(&[0, 0, 0x1234_edcc], &[0, 0, 0x1234_1234], 80, true);
}

#[test]
fn test_eq_natural_mod_power_of_two() {
    let test = |x: &str, y: &str, pow: u64, out: bool| {
        assert_eq!(integer(x).eq_mod_power_of_2(&natural(y), pow), out);
        assert_eq!(natural(y).eq_mod_power_of_2_integer(&integer(x), pow), out);
    };
    test("0", "256", 8, true);
    test("0", "256", 9, false);

    test("13", "21", 0, true);
    test("13", "21", 1, true);
    test("13", "21", 2, true);
    test("13", "21", 3, true);
    test("13", "21", 4, false);
    test("13", "21", 100, false);
    test("1000000000001", "1", 12, true);
    test("1000000000001", "1", 13, false);
    test("4294967295", "4294967295", 32, true);
    test("281474976710672", "844424930131984", 49, true);
    test("281474976710672", "844424930131984", 50, false);

    test("-13", "27", 0, true);
    test("-13", "27", 1, true);
    test("-13", "27", 2, true);
    test("-13", "27", 3, true);
    test("-13", "27", 4, false);
    test("-13", "27", 100, false);
    test("-1000000000001", "4095", 13, true);
    test("-1000000000001", "4095", 14, false);
    test("-1", "4294967295", 32, true);

    test("-1311693408901639117", "17135050664807912499", 64, true);
    test("-1311693408901639117", "17135050663395328000", 64, false);
    test("-1311693408901639117", "17135050664807912499", 65, false);
    test("-1311693408901639117", "17135050664807912499", 128, false);
    test(
        "-5633680281231555440641310720",
        "5634717283396403096794955776",
        80,
        true,
    );
}

#[test]
fn test_sub_mul() {
    let test = |u: &str, v: &str, w: &str, out: &str| {
        let a = integer(u).sub_mul(&integer(v), &integer(w));
        assert_eq!(a, integer(out));
        assert!(a.is_valid());
        let a = (&integer(u)).sub_mul(&integer(v), &integer(w));
        assert_eq!(a, integer(out));
        assert!(a.is_valid());
    };
    test("0", "0", "0", "0");
    test("0", "0", "123", "0");
    test("123", "0", "5", "123");
    test("123", "-5", "1", "128");
    test("123", "-5", "100", "623");
    test("10", "-3", "4", "22");
    test("1000000000000", "0", "123", "1000000000000");
    test("1000000000000", "-1", "123", "1000000000123");
    test("1000000000000", "-123", "1", "1000000000123");
    test("1000000000000", "-123", "100", "1000000012300");
    test("1000000000000", "-100", "123", "1000000012300");
    test("1000000000000", "-65536", "65536", "1004294967296");
    test("1000000000000", "-1000000000000", "0", "1000000000000");
    test("1000000000000", "-1000000000000", "1", "2000000000000");
    test("1000000000000", "-1000000000000", "100", "101000000000000");
    test("0", "-1000000000000", "100", "100000000000000");
    test(
        "1000000000000",
        "-65536",
        "1000000000000",
        "65537000000000000",
    );
    test(
        "1000000000000",
        "-1000000000000",
        "1000000000000",
        "1000000000001000000000000",
    );
    test(
        "0",
        "-1000000000000",
        "1000000000000",
        "1000000000000000000000000",
    );

    test("123", "5", "-1", "128");
    test("123", "5", "-100", "623");
    test("10", "3", "-4", "22");
    test("1000000000000", "1", "-123", "1000000000123");
    test("1000000000000", "123", "-1", "1000000000123");
    test("1000000000000", "123", "-100", "1000000012300");
    test("1000000000000", "100", "-123", "1000000012300");
    test("1000000000000", "65536", "-65536", "1004294967296");
    test("1000000000000", "1000000000000", "-1", "2000000000000");
    test("1000000000000", "1000000000000", "-100", "101000000000000");
    test("0", "1000000000000", "-100", "100000000000000");
    test(
        "1000000000000",
        "65536",
        "-1000000000000",
        "65537000000000000",
    );
    test(
        "1000000000000",
        "1000000000000",
        "-1000000000000",
        "1000000000001000000000000",
    );
    test(
        "0",
        "1000000000000",
        "-1000000000000",
        "1000000000000000000000000",
    );

    test("0", "0", "-123", "0");
    test("123", "0", "-5", "123");
    test("123", "5", "1", "118");
    test("123", "-5", "-1", "118");
    test("123", "5", "100", "-377");
    test("123", "-5", "-100", "-377");
    test("10", "3", "4", "-2");
    test("10", "-3", "-4", "-2");
    test("15", "3", "4", "3");
    test("15", "-3", "-4", "3");
    test("1000000000000", "0", "-123", "1000000000000");
    test("1000000000000", "1", "123", "999999999877");
    test("1000000000000", "-1", "-123", "999999999877");
    test("1000000000000", "123", "1", "999999999877");
    test("1000000000000", "-123", "-1", "999999999877");
    test("1000000000000", "123", "100", "999999987700");
    test("1000000000000", "-123", "-100", "999999987700");
    test("1000000000000", "100", "123", "999999987700");
    test("1000000000000", "-100", "-123", "999999987700");
    test("1000000000000", "65536", "65536", "995705032704");
    test("1000000000000", "-65536", "-65536", "995705032704");
    test("1000000000000", "1000000000000", "0", "1000000000000");
    test("1000000000000", "1000000000000", "1", "0");
    test("1000000000000", "-1000000000000", "-1", "0");
    test("1000000000000", "1000000000000", "100", "-99000000000000");
    test("1000000000000", "-1000000000000", "-100", "-99000000000000");
    test("0", "1000000000000", "100", "-100000000000000");
    test("4294967296", "1", "1", "4294967295");
    test("4294967296", "-1", "-1", "4294967295");
    test("3902609153", "88817093856604", "1", "-88813191247451");
    test("3902609153", "-88817093856604", "-1", "-88813191247451");

    test("-123", "0", "5", "-123");
    test("-123", "5", "1", "-128");
    test("-123", "5", "100", "-623");
    test("-10", "3", "4", "-22");
    test("-1000000000000", "0", "123", "-1000000000000");
    test("-1000000000000", "1", "123", "-1000000000123");
    test("-1000000000000", "123", "1", "-1000000000123");
    test("-1000000000000", "123", "100", "-1000000012300");
    test("-1000000000000", "100", "123", "-1000000012300");
    test("-1000000000000", "65536", "65536", "-1004294967296");
    test("-1000000000000", "1000000000000", "0", "-1000000000000");
    test("-1000000000000", "1000000000000", "1", "-2000000000000");
    test("-1000000000000", "1000000000000", "100", "-101000000000000");
    test(
        "-1000000000000",
        "65536",
        "1000000000000",
        "-65537000000000000",
    );
    test(
        "-1000000000000",
        "1000000000000",
        "1000000000000",
        "-1000000000001000000000000",
    );
    test(
        "0",
        "1000000000000",
        "1000000000000",
        "-1000000000000000000000000",
    );

    test("-123", "-5", "-1", "-128");
    test("-123", "-5", "-100", "-623");
    test("-10", "-3", "-4", "-22");
    test("-1000000000000", "-1", "-123", "-1000000000123");
    test("-1000000000000", "-123", "-1", "-1000000000123");
    test("-1000000000000", "-123", "-100", "-1000000012300");
    test("-1000000000000", "-100", "-123", "-1000000012300");
    test("-1000000000000", "-65536", "-65536", "-1004294967296");
    test("-1000000000000", "-1000000000000", "-1", "-2000000000000");
    test(
        "-1000000000000",
        "-1000000000000",
        "-100",
        "-101000000000000",
    );
    test(
        "-1000000000000",
        "-65536",
        "-1000000000000",
        "-65537000000000000",
    );
    test(
        "-1000000000000",
        "-1000000000000",
        "-1000000000000",
        "-1000000000001000000000000",
    );

    test("-123", "0", "-5", "-123");
    test("-123", "-5", "1", "-118");
    test("-123", "5", "-1", "-118");
    test("-123", "-5", "100", "377");
    test("-123", "5", "-100", "377");
    test("-10", "-3", "4", "2");
    test("-10", "3", "-4", "2");
    test("-15", "-3", "4", "-3");
    test("-15", "3", "-4", "-3");
    test("-1000000000000", "0", "-123", "-1000000000000");
    test("-1000000000000", "-1", "123", "-999999999877");
    test("-1000000000000", "1", "-123", "-999999999877");
    test("-1000000000000", "-123", "1", "-999999999877");
    test("-1000000000000", "123", "-1", "-999999999877");
    test("-1000000000000", "-123", "100", "-999999987700");
    test("-1000000000000", "123", "-100", "-999999987700");
    test("-1000000000000", "-100", "123", "-999999987700");
    test("-1000000000000", "100", "-123", "-999999987700");
    test("-1000000000000", "-65536", "65536", "-995705032704");
    test("-1000000000000", "65536", "-65536", "-995705032704");
    test("-1000000000000", "-1000000000000", "0", "-1000000000000");
    test("-1000000000000", "-1000000000000", "1", "0");
    test("-1000000000000", "1000000000000", "-1", "0");
    test("-1000000000000", "-1000000000000", "100", "99000000000000");
    test("-1000000000000", "1000000000000", "-100", "99000000000000");
    test("-4294967296", "-1", "1", "-4294967295");
    test("-4294967296", "1", "-1", "-4294967295");
    test("-3902609153", "-88817093856604", "1", "88813191247451");
    test("-3902609153", "88817093856604", "-1", "88813191247451");
    test(
        "1000000000000000000000000",
        "1000000000000",
        "1000000000000",
        "0",
    );
}

#[test]
fn test_partial_ord_i32_abs() {
    let test = |u: &str, v: i32, out: Option<Ordering>| {
        assert_eq!(integer(u).partial_cmp_abs_i32(v), out);
        assert_eq!(i32_partial_cmp_abs_integer(v, &integer(u)), out.map(|o| o.reverse()));
    };
    test("0", 0, Some(Ordering::Equal));
    test("0", 5, Some(Ordering::Less));
    test("123", 123, Some(Ordering::Equal));
    test("123", 124, Some(Ordering::Less));
    test("123", 122, Some(Ordering::Greater));
    test("-123", 123, Some(Ordering::Equal));
    test("-123", -123, Some(Ordering::Equal));
    test("-123", -122, Some(Ordering::Greater));
    test("-123", -124, Some(Ordering::Less));
    test("1000000000000", 123, Some(Ordering::Greater));
    test("1000000000000", -123, Some(Ordering::Greater));
    test("-1000000000000", 123, Some(Ordering::Greater));
    test("-1000000000000", -123, Some(Ordering::Greater));
}

#[test]
fn test_partial_ord_integer_natural() {
    let test = |u: &str, v: &str, out: Option<Ordering>| {
        assert_eq!(integer(u).partial_cmp_abs(&natural(v)), out);
        assert_eq!(natural(v).partial_cmp_abs_integer(&integer(u)).map(|o| o.reverse()), out);
    };
    test("0", "0", Some(Ordering::Equal));
    test("0", "5", Some(Ordering::Less));
    test("123", "123", Some(Ordering::Equal));
    test("123", "124", Some(Ordering::Less));
    test("123", "122", Some(Ordering::Greater));
    test("1000000000000", "123", Some(Ordering::Greater));
    test("123", "1000000000000", Some(Ordering::Less));
    test("1000000000000", "1000000000000", Some(Ordering::Equal));
    test("-1000000000000", "1000000000000", Some(Ordering::Equal));
    test("-1000000000000", "0", Some(Ordering::Greater));
}

#[test]
fn integer_set_and_clear_bits() {
    let mut x = Integer::zero();
    x.assign_bit(2, true);
    x.assign_bit(5, true);
    x.assign_bit(6, true);
    assert_eq!(x, Integer::from_i64(100));
    x.assign_bit(2, false);
    x.assign_bit(5, false);
    x.assign_bit(6, false);
    assert_eq!(x, Integer::zero());

    let mut x = Integer::from_i64(-0x100);
    x.set_bit(2);
    x.set_bit(5);
    x.set_bit(6);
    assert_eq!(x, Integer::from_i64(-156));
    x.clear_bit(2);
    x.clear_bit(5);
    x.clear_bit(6);
    assert_eq!(x, Integer::from_i64(-256));
    assert!(x.is_valid());

    let mut y = Integer::from_i64(-256);
    y.clear_bit(2);
    assert_eq!(y, Integer::from_i64(-256));
    y.clear_bit(8);
    assert_eq!(y, Integer::from_i64(-512));
    assert!(y.get_bit(100));
    assert!(!y.get_bit(8));
}

#[test]
fn integer_add_sub_inverse() {
    let values = ["0", "1", "-1", "4294967295", "-4294967296", "1000000000000", "-1000000000000"];
    for a in values.iter() {
        for b in values.iter() {
            let (a, b) = (integer(a), integer(b));
            let s = a.add(&b);
            assert!(s.is_valid());
            assert_eq!(s.sub(&b), a);
        }
    }
    assert_eq!(integer("-1000000000000").add(&integer("123")), integer("-999999999877"));
    let mut x = Integer::from_i64(-10);
    x.add_assign_limb(1);
    x.add_assign_limb(2);
    x.add_assign_limb(3);
    x.add_assign_limb(4);
    assert_eq!(x, Integer::zero());
    assert!(x.is_non_negative());
}

#[test]
fn integer_twos_complement_limbs() {
    let test = |s: &str, asc: &[u32]| {
        let x = integer(s);
        assert_eq!(x.to_twos_complement_limbs_asc(), asc.to_vec());
        let mut desc = asc.to_vec();
        desc.reverse();
        assert_eq!(x.to_twos_complement_limbs_desc(), desc);
        assert_eq!(x.clone().into_twos_complement_limbs_asc(), asc.to_vec());
        assert_eq!(x.clone().into_twos_complement_limbs_desc(), desc);
        assert_eq!(Integer::from_twos_complement_limbs_asc(asc), x);
    };
    test("0", &[]);
    test("123", &[123]);
    test("-123", &[4294967173]);
    test("1000000000000", &[3567587328, 232]);
    test("-1000000000000", &[727379968, 4294967063]);
    test("4294967295", &[0xffff_ffff, 0]);
    test("-4294967295", &[1, 0xffff_ffff]);
    test("-4294967296", &[0, 0xffff_ffff]);
    test("2147483648", &[0x8000_0000, 0]);
    test("-2147483648", &[0x8000_0000]);
}

#[test]
fn integer_eq_mod_i32() {
    assert!(Integer::from_i64(13).eq_mod_i32(21, 8));
    assert!(integer("987654321").eq_mod_i32(321, 1000));
    assert!(!integer("987654321").eq_mod_i32(322, 1000));
    assert!(integer("-987654321").eq_mod_i32(679, 1000));
    assert!(!integer("-987654321").eq_mod_i32(680, 1000));
    assert!(integer("987654321").eq_mod_i32(321, -1000));
    assert!(integer("987654321").eq_mod_i32(-679, 1000));
    assert!(integer("-987654321").eq_mod_i32(-321, -1000));
    assert!(!integer("-987654321").eq_mod_i32(-322, -1000));
    assert!(integer("5").eq_mod_i32(5, 0));
    assert!(!integer("5").eq_mod_i32(6, 0));
}

#[test]
fn integer_decimal_reading() {
    assert!(Integer::from_str("-").is_none());
    assert!(Integer::from_str("--1").is_none());
    assert_eq!(integer("-0"), Integer::zero());
    assert_eq!(integer("-123"), Integer::from_i32(-123));
    assert_eq!(Integer::from_i64(i64::MIN).unsigned_abs_ref(), &natural("9223372036854775808"));
}

fn forward(x: &Integer) -> Vec<u32> {
    let mut it = x.twos_complement_limbs();
    let mut v = Vec::new();
    while let Some(l) = it.next() {
        v.push(l);
    }
    v
}

fn backward(x: &Integer) -> Vec<u32> {
    let mut it = x.twos_complement_limbs();
    let mut v = Vec::new();
    while let Some(l) = it.next_back() {
        v.push(l);
    }
    v
}

#[test]
fn integer_lazy_twos_complement_limbs() {
    assert!(forward(&Integer::zero()).is_empty());
    assert_eq!(forward(&Integer::from_i64(123)), vec![123]);
    assert_eq!(forward(&Integer::from_i64(-123)), vec![4294967173]);
    assert_eq!(forward(&integer("1000000000000")), vec![3567587328, 232]);
    assert_eq!(forward(&Integer::from_i64(0xffff_ffff)), vec![0xffff_ffff, 0]);
    assert_eq!(forward(&integer("-1000000000000")), vec![727379968, 4294967063]);
    assert_eq!(forward(&Integer::from_i64(-0xffff_ffff)), vec![1, 0xffff_ffff]);

    assert!(backward(&Integer::zero()).is_empty());
    assert_eq!(backward(&Integer::from_i64(123)), vec![123]);
    assert_eq!(backward(&Integer::from_i64(-123)), vec![4294967173]);
    assert_eq!(backward(&integer("1000000000000")), vec![232, 3567587328]);
    assert_eq!(backward(&Integer::from_i64(0xffff_ffff)), vec![0, 0xffff_ffff]);
    assert_eq!(backward(&integer("-1000000000000")), vec![4294967063, 727379968]);
    assert_eq!(backward(&Integer::from_i64(-0xffff_ffff)), vec![0xffff_ffff, 1]);

    let x = integer("-18446744073709551616");
    assert_eq!(forward(&x), x.to_twos_complement_limbs_asc());
    let mut it = x.twos_complement_limbs();
    assert_eq!(it.next(), Some(0));
    assert_eq!(it.next_back(), Some(0xffff_ffff));
    assert_eq!(it.next_back(), Some(0));
    assert_eq!(it.next(), None);
    assert_eq!(it.next_back(), None);
}

#[test]
fn integer_negative_bits_in_place_on_large_magnitudes() {
    let check = |x: &str, bit: bool, index: u64, out: &str| {
        let mut a = integer(x);
        a.assign_bit(index, bit);
        assert_eq!(a, integer(out));
        assert!(a.is_valid());
    };
    check("-18446744073709551616", true, 3, "-18446744073709551608");
    check("-18446744073709551616", true, 70, "-18446744073709551616");
    check("-18446744073709551616", false, 64, "-36893488147419103232");
    check("-18446744073709551616", false, 70, "-1199038364791120855040");
    check("-1", false, 40, "-1099511627777");
    check("-4294967301", false, 1, "-4294967303");
    check("-4294967301", true, 2, "-4294967297");
    check("-4294967301", false, 32, "-4294967301");
    check("-79228162514264337593543950335", true, 95, "-39614081257132168796771975167");
    check("-79228162514264337593543950335", false, 96, "-158456325028528675187087900671");
    check("-18446744073709551617", true, 0, "-18446744073709551617");
    check("-18446744073709551615", false, 64, "-36893488147419103231");
    check("-9223372036854775808", true, 63, "-9223372036854775808");
}
