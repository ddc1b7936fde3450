//! Finding the next set or clear bit at or after an index.
use crate::bits::{limb_bit, limbs_get_bit};
use vstd::prelude::*;
use vstd::std_specs::bits::{axiom_u32_trailing_zeros, u32_trailing_zeros};

verus! {

/// Bit `j` of the complement of `x` with its bits below `start` set.
proof fn lemma_false_scan_bit(x: u32, start: u32, j: u32, mask: u32)
    by (bit_vector)
    requires
        start < 32,
        j < 32,
        mask + 1 == 1u32 << start,
    ensures
        ((!(x | mask)) >> j) & 1 == 1 <==> (j >= start && (x >> j) & 1 != 1),
{
}

/// Bit `j` of `x` with its bits below `start` cleared.
proof fn lemma_true_scan_bit(x: u32, start: u32, j: u32, mask: u32)
    by (bit_vector)
    requires
        start < 32,
        j < 32,
        mask + 1 == 1u32 << start,
    ensures
        ((x & !mask) >> j) & 1 == 1 <==> (j >= start && (x >> j) & 1 == 1),
{
}

/// Every bit of an all-ones limb is set.
proof fn lemma_full_limb_bit(j: u32)
    by (bit_vector)
    requires
        j < 32,
    ensures
        (0xffff_ffffu32 >> j) & 1 == 1,
{
}

/// No bit of a zero limb is set.
proof fn lemma_zero_limb_bit(j: u32)
    by (bit_vector)
    requires
        j < 32,
    ensures
        (0u32 >> j) & 1 != 1,
{
}

/// The lowest index at or after `start` at which the limb has a clear bit, or 32 if there is
/// none below 32.
pub fn limb_index_of_next_false_bit(x: u32, start: u32) -> (r: u32)
    requires
        start < 32,
    ensures
        start <= r <= 32,
        r < 32 ==> !limb_bit(x, r),
        forall|j: u32| start <= j < r ==> limb_bit(x, j),
{
    assert(1u32 << start >= 1) by (bit_vector)
        requires
            start < 32,
    ;
    let mask: u32 = (1u32 << start) - 1;
    let z = !(x | mask);
    let r = z.trailing_zeros();
    proof {
        axiom_u32_trailing_zeros(z);
        if r < start {
            lemma_false_scan_bit(x, start, r, mask);
        }
        if r < 32 {
            lemma_false_scan_bit(x, start, r, mask);
        }
        assert forall|j: u32| start <= j < r implies limb_bit(x, j) by {
            lemma_false_scan_bit(x, start, j, mask);
        }
    }
    r
}

/// The lowest index at or after `start` at which the limb has a set bit, or 32 if there is none.
pub fn limb_index_of_next_true_bit(x: u32, start: u32) -> (r: u32)
    requires
        start < 32,
    ensures
        start <= r <= 32,
        r < 32 ==> limb_bit(x, r),
        forall|j: u32| start <= j < r ==> !limb_bit(x, j),
{
    assert(1u32 << start >= 1) by (bit_vector)
        requires
            start < 32,
    ;
    let mask: u32 = (1u32 << start) - 1;
    let z = x & !mask;
    let r = z.trailing_zeros();
    proof {
        axiom_u32_trailing_zeros(z);
        if r < start {
            lemma_true_scan_bit(x, start, r, mask);
        }
        if r < 32 {
            lemma_true_scan_bit(x, start, r, mask);
        }
        assert forall|j: u32| start <= j < r implies !limb_bit(x, j) by {
            lemma_true_scan_bit(x, start, j, mask);
        }
    }
    r
}

/// Reading `xs` as the ascending limbs of a number followed by infinitely many zero bits, finds
/// the lowest index at or after `start` at which the bit is clear.
pub fn limbs_index_of_next_false_bit(xs: &[u32], start: u64) -> (r: u64)
    requires
        xs@.len() * 32 <= u64::MAX,
    ensures
        r >= start,
        !limbs_get_bit(xs@, r as nat),
        forall|j: nat| start <= j < r ==> #[trigger] limbs_get_bit(xs@, j),
{
    let len = xs.len();
    let k64 = start / 32;
    if k64 >= len as u64 {
        return start;
    }
    let k = k64 as usize;
    let b = (start % 32) as u32;
    let r = limb_index_of_next_false_bit(xs[k], b);
    if r != 32 {
        let result = k64 * 32 + r as u64;
        proof {
            assert(result / 32 == k && result % 32 == r);
            assert forall|j: nat| start <= j < result implies #[trigger] limbs_get_bit(xs@, j) by {
                assert(j / 32 == k);
                assert(b <= ((j % 32) as u32) && ((j % 32) as u32) < r);
            }
        }
        return result;
    }
    let mut i = k + 1;
    while i < len && xs[i] == u32::MAX
        invariant
            k < i <= len,
            len == xs@.len(),
            len * 32 <= u64::MAX,
            start / 32 == k,
            forall|j: nat| start <= j < i * 32 ==> #[trigger] limbs_get_bit(xs@, j),
        decreases len - i,
    {
        proof {
            assert forall|j: nat| start <= j < (i + 1) * 32 implies #[trigger] limbs_get_bit(
                xs@,
                j,
            ) by {
                if j >= i * 32 {
                    assert(j / 32 == i);
                    lemma_full_limb_bit((j % 32) as u32);
                }
            }
        }
        i += 1;
    }
    if i == len {
        let result = (len as u64) * 32;
        proof {
            assert(result / 32 == len);
        }
        result
    } else {
        let r = limb_index_of_next_false_bit(xs[i], 0);
        proof {
            if r == 32 {
                lemma_all_bits_set(xs@[i as int]);
            }
        }
        let result = (i as u64) * 32 + r as u64;
        proof {
            assert(result / 32 == i && result % 32 == r);
            assert forall|j: nat| start <= j < result implies #[trigger] limbs_get_bit(xs@, j) by {
                if j >= i * 32 {
                    assert(j / 32 == i);
                    assert(((j % 32) as u32) < r);
                }
            }
        }
        result
    }
}

/// Reading `xs` as the ascending limbs of a number followed by infinitely many zero bits, finds
/// the lowest index at or after `start` at which the bit is set, or `None` if there is none.
pub fn limbs_index_of_next_true_bit(xs: &[u32], start: u64) -> (r: Option<u64>)
    requires
        xs@.len() * 32 <= u64::MAX,
    ensures
        r is None ==> forall|j: nat| start <= j ==> !#[trigger] limbs_get_bit(xs@, j),
        r matches Some(t) ==> t >= start && limbs_get_bit(xs@, t as nat) && forall|j: nat|
            start <= j < t ==> !#[trigger] limbs_get_bit(xs@, j),
{
    let len = xs.len();
    let k64 = start / 32;
    if k64 >= len as u64 {
        return None;
    }
    let k = k64 as usize;
    let b = (start % 32) as u32;
    let r = limb_index_of_next_true_bit(xs[k], b);
    if r != 32 {
        let result = k64 * 32 + r as u64;
        proof {
            assert(result / 32 == k && result % 32 == r);
            assert forall|j: nat| start <= j < result implies !#[trigger] limbs_get_bit(xs@, j) by {
                assert(j / 32 == k);
                assert(b <= ((j % 32) as u32) && ((j % 32) as u32) < r);
            }
        }
        return Some(result);
    }
    let mut i = k + 1;
    while i < len && xs[i] == 0
        invariant
            k < i <= len,
            len == xs@.len(),
            len * 32 <= u64::MAX,
            start / 32 == k,
            forall|j: nat| start <= j < i * 32 ==> !#[trigger] limbs_get_bit(xs@, j),
        decreases len - i,
    {
        proof {
            assert forall|j: nat| start <= j < (i + 1) * 32 implies !#[trigger] limbs_get_bit(
                xs@,
                j,
            ) by {
                if j >= i * 32 {
                    assert(j / 32 == i);
                    lemma_zero_limb_bit((j % 32) as u32);
                }
            }
        }
        i += 1;
    }
    if i == len {
        None
    } else {
        let r = limb_index_of_next_true_bit(xs[i], 0);
        proof {
            if r == 32 {
                lemma_no_bits_set(xs@[i as int]);
            }
        }
        let result = (i as u64) * 32 + r as u64;
        proof {
            assert(result / 32 == i && result % 32 == r);
            assert forall|j: nat| start <= j < result implies !#[trigger] limbs_get_bit(xs@, j) by {
                if j >= i * 32 {
                    assert(j / 32 == i);
                    assert(((j % 32) as u32) < r);
                }
            }
        }
        Some(result)
    }
}

/// A limb with all 32 bits set is all ones.
proof fn lemma_all_bits_set(x: u32)
    requires
        forall|j: u32| j < 32 ==> limb_bit(x, j),
    ensures
        x == u32::MAX,
{
    assert(limb_bit(x, 0) && limb_bit(x, 1) && limb_bit(x, 2) && limb_bit(x, 3) && limb_bit(x, 4)
        && limb_bit(x, 5) && limb_bit(x, 6) && limb_bit(x, 7) && limb_bit(x, 8) && limb_bit(x, 9)
        && limb_bit(x, 10) && limb_bit(x, 11) && limb_bit(x, 12) && limb_bit(x, 13) && limb_bit(
        x,
        14,
    ) && limb_bit(x, 15) && limb_bit(x, 16) && limb_bit(x, 17) && limb_bit(x, 18) && limb_bit(x, 19)
        && limb_bit(x, 20) && limb_bit(x, 21) && limb_bit(x, 22) && limb_bit(x, 23) && limb_bit(
        x,
        24,
    ) && limb_bit(x, 25) && limb_bit(x, 26) && limb_bit(x, 27) && limb_bit(x, 28) && limb_bit(x, 29)
        && limb_bit(x, 30) && limb_bit(x, 31));
    lemma_all_bits_set_bv(x);
}

/// A limb with all 32 bits set is all ones, bit by bit.
proof fn lemma_all_bits_set_bv(x: u32)
    by (bit_vector)
    requires
        (x >> 0) & 1 == 1 && (x >> 1) & 1 == 1 && (x >> 2) & 1 == 1 && (x >> 3) & 1 == 1 && (x >> 4)
            & 1 == 1 && (x >> 5) & 1 == 1 && (x >> 6) & 1 == 1 && (x >> 7) & 1 == 1 && (x >> 8) & 1
            == 1 && (x >> 9) & 1 == 1 && (x >> 10) & 1 == 1 && (x >> 11) & 1 == 1 && (x >> 12) & 1
            == 1 && (x >> 13) & 1 == 1 && (x >> 14) & 1 == 1 && (x >> 15) & 1 == 1 && (x >> 16) & 1
            == 1 && (x >> 17) & 1 == 1 && (x >> 18) & 1 == 1 && (x >> 19) & 1 == 1 && (x >> 20) & 1
            == 1 && (x >> 21) & 1 == 1 && (x >> 22) & 1 == 1 && (x >> 23) & 1 == 1 && (x >> 24) & 1
            == 1 && (x >> 25) & 1 == 1 && (x >> 26) & 1 == 1 && (x >> 27) & 1 == 1 && (x >> 28) & 1
            == 1 && (x >> 29) & 1 == 1 && (x >> 30) & 1 == 1 && (x >> 31) & 1 == 1,
    ensures
        x == 0xffff_ffff,
{
}

/// A limb with no bit set is zero.
pub proof fn lemma_no_bits_set(x: u32)
    requires
        forall|j: u32| j < 32 ==> !limb_bit(x, j),
    ensures
        x == 0,
{
    assert(!limb_bit(x, 0) && !limb_bit(x, 1) && !limb_bit(x, 2) && !limb_bit(x, 3) && !limb_bit(
        x,
        4,
    ) && !limb_bit(x, 5) && !limb_bit(x, 6) && !limb_bit(x, 7) && !limb_bit(x, 8) && !limb_bit(x, 9)
        && !limb_bit(x, 10) && !limb_bit(x, 11) && !limb_bit(x, 12) && !limb_bit(x, 13)
        && !limb_bit(x, 14) && !limb_bit(x, 15) && !limb_bit(x, 16) && !limb_bit(x, 17)
        && !limb_bit(x, 18) && !limb_bit(x, 19) && !limb_bit(x, 20) && !limb_bit(x, 21)
        && !limb_bit(x, 22) && !limb_bit(x, 23) && !limb_bit(x, 24) && !limb_bit(x, 25)
        && !limb_bit(x, 26) && !limb_bit(x, 27) && !limb_bit(x, 28) && !limb_bit(x, 29)
        && !limb_bit(x, 30) && !limb_bit(x, 31));
    lemma_no_bits_set_bv(x);
}

/// A limb with no bit set is zero, bit by bit.
proof fn lemma_no_bits_set_bv(x: u32)
    by (bit_vector)
    requires
        (x >> 0) & 1 != 1 && (x >> 1) & 1 != 1 && (x >> 2) & 1 != 1 && (x >> 3) & 1 != 1 && (x >> 4)
            & 1 != 1 && (x >> 5) & 1 != 1 && (x >> 6) & 1 != 1 && (x >> 7) & 1 != 1 && (x >> 8) & 1
            != 1 && (x >> 9) & 1 != 1 && (x >> 10) & 1 != 1 && (x >> 11) & 1 != 1 && (x >> 12) & 1
            != 1 && (x >> 13) & 1 != 1 && (x >> 14) & 1 != 1 && (x >> 15) & 1 != 1 && (x >> 16) & 1
            != 1 && (x >> 17) & 1 != 1 && (x >> 18) & 1 != 1 && (x >> 19) & 1 != 1 && (x >> 20) & 1
            != 1 && (x >> 21) & 1 != 1 && (x >> 22) & 1 != 1 && (x >> 23) & 1 != 1 && (x >> 24) & 1
            != 1 && (x >> 25) & 1 != 1 && (x >> 26) & 1 != 1 && (x >> 27) & 1 != 1 && (x >> 28) & 1
            != 1 && (x >> 29) & 1 != 1 && (x >> 30) & 1 != 1 && (x >> 31) & 1 != 1,
    ensures
        x == 0,
{
}

} // verus!
