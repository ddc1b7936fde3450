use malachite_nz::double_limb::{
    _explicit_xx_sub_yy_is_zz, _implicit_xx_sub_yy_is_zz, checked_xx_div_mod_y_is_qr,
    x_mul_y_is_zz, xx_add_yy_is_zz, xx_div_mod_y_is_qr,
};
use malachite_nz::gcd::{gcd, gcd_binary, gcd_euclidean, gcd_fast_b, get_highest_bit};
use malachite_nz::rounding_mode::RoundingMode;

const SAMPLES: [u32; 9] = [0, 1, 2, 3, 0x7fff_ffff, 0x8000_0000, 0x1234_5678, u32::MAX - 1, u32::MAX];

#[test]
fn test_neg() {
    let test = |rm: RoundingMode, out| {
        assert_eq!(rm.neg(), out);
    };
    test(RoundingMode::Down, RoundingMode::Down);
    test(RoundingMode::Up, RoundingMode::Up);
    test(RoundingMode::Floor, RoundingMode::Ceiling);
    test(RoundingMode::Ceiling, RoundingMode::Floor);
    test(RoundingMode::Nearest, RoundingMode::Nearest);
    test(RoundingMode::Exact, RoundingMode::Exact);
}

#[test]
fn xx_add_yy_is_zz_properties() {
    for &x_1 in SAMPLES.iter() {
        for &x_0 in SAMPLES.iter() {
            for &y_1 in SAMPLES.iter() {
                for &y_0 in SAMPLES.iter() {
                    let (z_1, z_0) = xx_add_yy_is_zz(x_1, x_0, y_1, y_0);
                    assert_eq!(_explicit_xx_sub_yy_is_zz(z_1, z_0, y_1, y_0), (x_1, x_0));
                    assert_eq!(_implicit_xx_sub_yy_is_zz(z_1, z_0, x_1, x_0), (y_1, y_0));
                    assert_eq!(xx_add_yy_is_zz(y_1, y_0, x_1, x_0), (z_1, z_0));
                    assert_eq!(xx_add_yy_is_zz(x_1, y_0, y_1, x_0), (z_1, z_0));

                    let (neg_y_1, neg_y_0) = _explicit_xx_sub_yy_is_zz(0, 0, y_1, y_0);
                    assert_eq!(_explicit_xx_sub_yy_is_zz(x_1, x_0, neg_y_1, neg_y_0), (z_1, z_0));
                }
            }
        }
    }
    for &x_1 in SAMPLES.iter() {
        for &x_0 in SAMPLES.iter() {
            assert_eq!(xx_add_yy_is_zz(x_1, x_0, 0, 0), (x_1, x_0));
            assert_eq!(xx_add_yy_is_zz(0, 0, x_1, x_0), (x_1, x_0));
            let (neg_x_1, neg_x_0) = _implicit_xx_sub_yy_is_zz(0, 0, x_1, x_0);
            assert_eq!(xx_add_yy_is_zz(x_1, x_0, neg_x_1, neg_x_0), (0, 0));
        }
    }
    for &a in SAMPLES.iter() {
        for &b in SAMPLES.iter() {
            for &c in SAMPLES.iter() {
                let (s1_1, s1_0) = xx_add_yy_is_zz(a, b, c, a);
                let (s2_1, s2_0) = xx_add_yy_is_zz(c, a, b, c);
                assert_eq!(
                    xx_add_yy_is_zz(s1_1, s1_0, b, c),
                    xx_add_yy_is_zz(a, b, s2_1, s2_0)
                );
            }
        }
    }
    assert_eq!(xx_add_yy_is_zz(0x12, 0x34, 0x33, 0x33), (0x45, 0x67));
    assert_eq!(xx_add_yy_is_zz(u32::MAX, u32::MAX, 0, 1), (0, 0));
}

#[test]
fn xx_div_mod_y_is_qr_properties() {
    for &x_1 in SAMPLES.iter() {
        for &x_0 in SAMPLES.iter() {
            for &y in SAMPLES.iter() {
                if x_1 < y {
                    let (q, r) = xx_div_mod_y_is_qr(x_1, x_0, y);
                    assert!(r < y);
                    let (product_1, product_0) = x_mul_y_is_zz(q, y);
                    assert_eq!(xx_add_yy_is_zz(product_1, product_0, 0, r), (x_1, x_0));
                }
            }
        }
    }
    for &a in SAMPLES.iter() {
        if a != 0 {
            assert_eq!(xx_div_mod_y_is_qr(0, 0, a), (0, 0));
            assert_eq!(xx_div_mod_y_is_qr(0, a, a), (1, 0));
        }
    }
    assert_eq!(xx_div_mod_y_is_qr(0x12, 0x34, 0x33), (0x5a5a5a5b, 0x13));
    assert_eq!(xx_div_mod_y_is_qr(0x78, 0x9a, 0xbc), (0xa3677d47, 0x76));
}

#[test]
fn xx_div_mod_y_is_qr_fail() {
    assert_eq!(checked_xx_div_mod_y_is_qr(3, 5, 0), None);
    assert_eq!(checked_xx_div_mod_y_is_qr(3, 5, 2), None);
    assert_eq!(checked_xx_div_mod_y_is_qr(2, 7, 2), None);
    assert_eq!(checked_xx_div_mod_y_is_qr(1, 7, 3), Some((0x5555_5557, 2)));
}

#[test]
fn gcd_scenarios() {
    let fs: [fn(u64, u64) -> u64; 4] = [gcd, gcd_binary, gcd_euclidean, gcd_fast_b];
    for f in fs.iter() {
        assert_eq!(f(0, 0), 0);
        assert_eq!(f(0, 5), 5);
        assert_eq!(f(5, 0), 5);
        assert_eq!(f(12, 18), 6);
        assert_eq!(f(18, 12), 6);
        assert_eq!(f(1 << 63, 1 << 62), 1 << 62);
        assert_eq!(f(u64::MAX, u64::MAX - 1), 1);
        assert_eq!(f(u64::MAX, 0xffff_ffff), 0xffff_ffff);
        assert_eq!(f(3 << 62, 1 << 63), 1 << 62);
        assert_eq!(f(1000000007 * 48, 1000000007 * 36), 1000000007 * 12);
    }
    assert!(get_highest_bit(1 << 63));
    assert!(!get_highest_bit((1 << 63) - 1));
}
