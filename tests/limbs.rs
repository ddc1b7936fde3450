use malachite_nz::arith::{limbs_add, limbs_mul_limb, limbs_sub};
use malachite_nz::bit_scan::{limbs_index_of_next_false_bit, limbs_index_of_next_true_bit};
use malachite_nz::div_limb::{
    div_by_preinversion, limb_inverse, limbs_div_mod_limb, limbs_mod_limb, normalize_divisor, limbs_mod_limb_normalized, limbs_mod_limb_normalized_shl,
    mod_by_preinversion,
};
use malachite_nz::limbs::{
    limbs_add_limb, limbs_add_limb_in_place, limbs_add_limb_to_out, limbs_sub_limb,
    limbs_sub_limb_in_place, limbs_sub_limb_to_out,
};
use malachite_nz::slices::{
    slice_leading_zeros, slice_move_left, slice_move_left_naive, slice_set_zero, slice_test_zero,
    slice_trailing_zeros,
};
use malachite_nz::twos_complement::{
    limbs_not_in_place, limbs_slice_to_twos_complement_limbs_negative,
    limbs_to_twos_complement_limbs_non_negative, limbs_vec_to_twos_complement_limbs_negative,
};

#[test]
fn sub_limb_in_three_forms() {
    assert_eq!(limbs_sub_limb(&[123, 456], 78), (vec![45, 456], false));
    assert_eq!(limbs_sub_limb(&[123, 456], 789), (vec![4_294_966_630, 455], false));
    assert_eq!(limbs_sub_limb(&[1], 2), (vec![4_294_967_295], true));
    assert_eq!(limbs_sub_limb(&[], 0), (vec![], false));
    assert_eq!(limbs_sub_limb(&[], 3), (vec![], true));
    assert_eq!(limbs_sub_limb(&[0, 0, 1], 1), (vec![u32::MAX, u32::MAX, 0], false));

    let mut out = vec![0, 0, 0];
    assert!(!limbs_sub_limb_to_out(&mut out, &[123, 456], 78));
    assert_eq!(out, &[45, 456, 0]);
    let mut out = vec![0, 0, 0];
    assert!(!limbs_sub_limb_to_out(&mut out, &[123, 456], 789));
    assert_eq!(out, &[4_294_966_630, 455, 0]);
    let mut out = vec![0, 0, 0];
    assert!(limbs_sub_limb_to_out(&mut out, &[1], 2));
    assert_eq!(out, &[4_294_967_295, 0, 0]);
    let mut out = vec![9, 9, 9];
    assert!(!limbs_sub_limb_to_out(&mut out, &[5, 6], 5));
    assert_eq!(out, &[0, 6, 9]);

    let mut limbs = vec![123, 456];
    assert!(!limbs_sub_limb_in_place(&mut limbs, 78));
    assert_eq!(limbs, &[45, 456]);
    let mut limbs = vec![123, 456];
    assert!(!limbs_sub_limb_in_place(&mut limbs, 789));
    assert_eq!(limbs, &[4_294_966_630, 455]);
    let mut limbs = vec![1];
    assert!(limbs_sub_limb_in_place(&mut limbs, 2));
    assert_eq!(limbs, &[4_294_967_295]);
}

#[test]
fn add_limb_in_three_forms() {
    assert_eq!(limbs_add_limb(&[123, 456], 789), (vec![912, 456], false));
    assert_eq!(limbs_add_limb(&[u32::MAX, 5], 2), (vec![1, 6], false));
    assert_eq!(limbs_add_limb(&[u32::MAX, u32::MAX], 1), (vec![0, 0], true));
    assert_eq!(limbs_add_limb(&[], 0), (vec![], false));
    assert_eq!(limbs_add_limb(&[], 7), (vec![], true));

    let mut out = vec![9, 9, 9];
    assert!(!limbs_add_limb_to_out(&mut out, &[u32::MAX, 5], 2));
    assert_eq!(out, &[1, 6, 9]);
    let mut out = vec![9, 9, 9];
    assert!(limbs_add_limb_to_out(&mut out, &[u32::MAX, u32::MAX], 3));
    assert_eq!(out, &[2, 0, 9]);

    let mut limbs = vec![u32::MAX, u32::MAX, 7];
    assert!(!limbs_add_limb_in_place(&mut limbs, 1));
    assert_eq!(limbs, &[0, 0, 8]);
}

#[test]
fn whole_sequence_arithmetic() {
    assert_eq!(limbs_add(&[u32::MAX, 1], &[1]), vec![0, 2, 0]);
    assert_eq!(limbs_add(&[u32::MAX, u32::MAX], &[1, 0]), vec![0, 0, 1]);
    assert_eq!(limbs_sub(&[0, 2], &[1]), (vec![u32::MAX, 1], false));
    assert_eq!(limbs_sub(&[1, 0], &[2]), (vec![u32::MAX, u32::MAX], true));
    assert_eq!(limbs_mul_limb(&[u32::MAX, u32::MAX], u32::MAX), vec![1, u32::MAX, u32::MAX - 1]);
}

#[test]
fn preinverted_division() {
    // (0x12 * B + 0x34) with B = 2^32 divided by 0x33: check the law, then exact values.
    let d: u32 = 0x33;
    let bits = d.leading_zeros();
    let dn = d << bits;
    let inv = limb_inverse(dn);
    let n: u64 = (0x12u64 << 32) + 0x34;
    let r = mod_by_preinversion(0, 0x12, dn, inv);
    assert_eq!(r, 0x12 % dn);
    assert_eq!(limbs_mod_limb(&[0x34, 0x12], d), (n % 0x33) as u32);
    assert_eq!(limbs_mod_limb(&[0x34, 0x12], d), 0x13);
    assert!(limbs_mod_limb(&[0x34, 0x12], d) < d);

    assert_eq!(limbs_mod_limb(&[123, 456], 789), 636);
    assert_eq!(limbs_mod_limb(&[0xffff_ffff, 0xffff_ffff], 3), 0);
    assert_eq!(limb_inverse(0x8000_0000), 0xffff_ffff);
    assert_eq!(limb_inverse(0xffff_ffff), 1);
    assert_eq!(mod_by_preinversion(5, 7, 0x8000_0001, limb_inverse(0x8000_0001)), ((5u64 << 32) + 7) as u32 % 1 + (((5u64 << 32) + 7) % 0x8000_0001) as u32);
    let xs = [1u32, 2, 3, 4, 5];
    let expected = {
        let mut r: u64 = 0;
        for &x in xs.iter().rev() {
            r = ((r << 32) + x as u64) % 0x8765_4321;
        }
        r as u32
    };
    assert_eq!(limbs_mod_limb_normalized(&xs, 0, 0x8765_4321, limb_inverse(0x8765_4321)), expected);
    assert_eq!(limbs_mod_limb(&xs, 0x8765_4321), expected);
    let expected7 = {
        let mut r: u64 = 0;
        for &x in xs.iter().rev() {
            r = ((r << 32) + x as u64) % 7;
        }
        r as u32
    };
    assert_eq!(limbs_mod_limb(&xs, 7), expected7);
    let shifted = limbs_mod_limb_normalized_shl(&[1, 2], 0, 7 << 29, limb_inverse(7 << 29), 29);
    assert_eq!(shifted >> 29, ((2u64 << 32) + 1) as u32 % 1 + (((2u64 << 32) + 1) % 7) as u32);
}

#[test]
fn bit_scans_over_limbs() {
    let xs = [0, 0b1011];
    let falses = [(0, 0), (20, 20), (31, 31), (32, 34), (33, 34), (34, 34), (35, 36), (100, 100)];
    for &(start, out) in falses.iter() {
        assert_eq!(limbs_index_of_next_false_bit(&xs, start), out);
    }
    let trues = [
        (0, Some(32)),
        (20, Some(32)),
        (31, Some(32)),
        (32, Some(32)),
        (33, Some(33)),
        (34, Some(35)),
        (35, Some(35)),
        (36, None),
        (100, None),
    ];
    for &(start, out) in trues.iter() {
        assert_eq!(limbs_index_of_next_true_bit(&xs, start), out);
    }
    assert_eq!(limbs_index_of_next_false_bit(&[u32::MAX, u32::MAX], 3), 64);
    assert_eq!(limbs_index_of_next_false_bit(&[u32::MAX, u32::MAX, 5], 0), 65);
    assert_eq!(limbs_index_of_next_true_bit(&[0, 0, 8], 1), Some(67));
    assert_eq!(limbs_index_of_next_false_bit(&[], 9), 9);
    assert_eq!(limbs_index_of_next_true_bit(&[], 9), None);
}

#[test]
fn twos_complement_conversions() {
    let mut limbs = vec![1, 2, 3];
    limbs_to_twos_complement_limbs_non_negative(&mut limbs);
    assert_eq!(limbs, &[1, 2, 3]);
    let mut limbs = vec![1, 2, 0xffff_ffff];
    limbs_to_twos_complement_limbs_non_negative(&mut limbs);
    assert_eq!(limbs, &[1, 2, 0xffff_ffff, 0]);

    let limbs = &mut [1, 2, 3];
    assert!(!limbs_slice_to_twos_complement_limbs_negative(limbs));
    assert_eq!(limbs, &[0xffff_ffff, 0xffff_fffd, 0xffff_fffc]);
    let limbs = &mut [0, 0, 0];
    assert!(limbs_slice_to_twos_complement_limbs_negative(limbs));
    assert_eq!(limbs, &[0, 0, 0]);

    let mut limbs = vec![1, 2, 3];
    limbs_vec_to_twos_complement_limbs_negative(&mut limbs);
    assert_eq!(limbs, &[0xffff_ffff, 0xffff_fffd, 0xffff_fffc]);
    let mut limbs = vec![0, 0xffff_ffff];
    limbs_vec_to_twos_complement_limbs_negative(&mut limbs);
    assert_eq!(limbs, &[0, 1, 0xffff_ffff]);

    let limbs = &mut [0, 0xffff_0000];
    limbs_not_in_place(limbs);
    assert_eq!(limbs, &[0xffff_ffff, 0x0000_ffff]);
}

#[test]
fn slice_helpers() {
    assert!(slice_test_zero(&[0, 0, 0]));
    assert!(!slice_test_zero(&[0, 1, 0]));
    assert!(slice_test_zero(&[]));

    let mut xs = [1, 2, 3, 4, 5];
    slice_set_zero(&mut xs[1..4]);
    assert_eq!(xs, [1, 0, 0, 0, 5]);

    assert_eq!(slice_leading_zeros(&[1, 2, 3]), 0);
    assert_eq!(slice_leading_zeros(&[0, 0, 0, 1, 2, 3]), 3);
    assert_eq!(slice_trailing_zeros(&[1, 2, 3]), 0);
    assert_eq!(slice_trailing_zeros(&[1, 2, 3, 0, 0, 0]), 3);
    assert_eq!(slice_trailing_zeros(&[0, 0]), 2);

    let xs = &mut [1, 2, 3, 4, 5, 6];
    slice_move_left(xs, 2);
    assert_eq!(xs, &[3, 4, 5, 6, 5, 6]);
    let xs = &mut [1, 2, 3, 4, 5, 6];
    slice_move_left_naive(xs, 2);
    assert_eq!(xs, &[3, 4, 5, 6, 5, 6]);
    let xs = &mut [1, 2, 3];
    slice_move_left(xs, 3);
    assert_eq!(xs, &[1, 2, 3]);
}

#[test]
fn preinverted_quotients() {
    let d = 0x8765_4321u32;
    let inv = limb_inverse(d);
    let n: u64 = (0x1234_5678u64 << 32) + 0x9abc_def0;
    assert_eq!(div_by_preinversion(0x1234_5678, 0x9abc_def0, d, inv), ((n / d as u64) as u32, (n % d as u64) as u32));
    assert_eq!(div_by_preinversion(d - 1, u32::MAX, d, inv), (u32::MAX, d - 1));
    assert_eq!(div_by_preinversion(0, 0, d, inv), (0, 0));
    assert_eq!(normalize_divisor(1), (0x8000_0000, 31));
    assert_eq!(normalize_divisor(0x33), (0x33 << 26, 26));
    assert_eq!(normalize_divisor(u32::MAX), (u32::MAX, 0));

    assert_eq!(limbs_div_mod_limb(&[0x34, 0x12], 0x33), (vec![0x5a5a5a5b, 0, 0], 0x13));
    assert_eq!(limbs_div_mod_limb(&[123, 456], 789), (vec![2482262467, 0, 0], 636));
    assert_eq!(limbs_div_mod_limb(&[], 7), (vec![0], 0));
    let xs = [1u32, 2, 3, 4, 5];
    for &d in [1u32, 3, 7, 0x33, 0x8000_0000, 0x8765_4321, u32::MAX].iter() {
        let (q, r) = limbs_div_mod_limb(&xs, d);
        assert_eq!(r, limbs_mod_limb(&xs, d));
        // q * d + r reproduces the dividend
        let mut acc: Vec<u64> = q.iter().map(|&x| x as u64 * d as u64).collect();
        acc[0] += r as u64;
        let mut carry = 0u64;
        let mut back = Vec::new();
        for a in acc.iter() {
            let s = a + carry;
            back.push(s as u32);
            carry = s >> 32;
        }
        assert_eq!(carry, 0);
        assert_eq!(&back[..5], &xs[..]);
        assert_eq!(back[5], 0);
    }
}
