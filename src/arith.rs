//! Whole-sequence limb arithmetic: addition, subtraction and multiplication by a limb, each
//! producing a fresh output sequence.
use crate::limbs::{
    lemma_limbs_val_bound, lemma_limbs_val_take_next, lemma_pow_base_pos, limb_base, limbs_val,
    pow_base,
};
use vstd::prelude::*;

verus! {

/// Limb `i` of `s`, or zero past its end.
pub open spec fn limb_or_zero(s: Seq<u32>, i: int) -> nat {
    if 0 <= i < s.len() {
        s[i] as nat
    } else {
        0
    }
}

/// The number held in the low `i` limbs of `s`, where limbs past its end are zero.
pub open spec fn low_val(s: Seq<u32>, i: int) -> nat {
    if i <= s.len() {
        limbs_val(s.take(i))
    } else {
        limbs_val(s)
    }
}

/// Each further limb adds its weight to the low part.
proof fn lemma_low_val_next(s: Seq<u32>, i: int)
    requires
        0 <= i,
    ensures
        low_val(s, i + 1) == low_val(s, i) + limb_or_zero(s, i) * pow_base(i as nat),
{
    if i < s.len() {
        lemma_limbs_val_take_next(s, i);
    } else if i == s.len() {
        assert(s.take(i) =~= s);
    }
}

/// Past the end of the sequence, the low part is the whole number.
proof fn lemma_low_val_all(s: Seq<u32>, i: int)
    requires
        i >= s.len(),
    ensures
        low_val(s, i) == limbs_val(s),
{
    assert(s.take(s.len() as int) =~= s);
}

/// Pushing a limb on top adds it at the next weight.
proof fn lemma_val_push(s: Seq<u32>, x: u32)
    ensures
        limbs_val(s.push(x)) == limbs_val(s) + x * pow_base(s.len()),
{
    assert(s.push(x).drop_last() =~= s);
}

/// Adds the numbers held in `xs` and `ys`; the result has one limb more than `xs`.
pub fn limbs_add(xs: &[u32], ys: &[u32]) -> (r: Vec<u32>)
    requires
        xs@.len() >= ys@.len(),
    ensures
        r@.len() == xs@.len() + 1,
        limbs_val(r@) == limbs_val(xs@) + limbs_val(ys@),
{
    let mut r: Vec<u32> = Vec::new();
    let mut carry: u64 = 0;
    let mut i: usize = 0;
    proof {
        assert(xs@.take(0).len() == 0);
        assert(ys@.take(0).len() == 0);
        assert(pow_base(0) == 1);
    }
    while i < xs.len()
        invariant
            0 <= i <= xs@.len(),
            xs@.len() >= ys@.len(),
            r@.len() == i,
            carry <= 1,
            limbs_val(r@) + carry * pow_base(i as nat) == low_val(xs@, i as int) + low_val(
                ys@,
                i as int,
            ),
        decreases xs@.len() - i,
    {
        let y: u64 = if i < ys.len() {
            ys[i] as u64
        } else {
            0
        };
        let s: u64 = xs[i] as u64 + y + carry;
        let low = (s % 0x1_0000_0000) as u32;
        let high = s / 0x1_0000_0000;
        proof {
            lemma_low_val_next(xs@, i as int);
            lemma_low_val_next(ys@, i as int);
            lemma_val_push(r@, low);
            let p = pow_base(i as nat);
            assert(y == limb_or_zero(ys@, i as int));
            assert(s == low + limb_base() * high);
            assert(carry * p + (xs@[i as int] + limb_or_zero(ys@, i as int)) * p == (low + limb_base()
                * high) * p) by (nonlinear_arith)
                requires
                    s == xs@[i as int] + limb_or_zero(ys@, i as int) + carry,
                    s == low + limb_base() * high,
            ;
            assert(pow_base((i + 1) as nat) == limb_base() * p);
            assert((low + limb_base() * high) * p == low * p + high * (limb_base() * p))
                by (nonlinear_arith);
            assert((xs@[i as int] + limb_or_zero(ys@, i as int)) * p == xs@[i as int] * p
                + limb_or_zero(ys@, i as int) * p) by (nonlinear_arith);
            assert(limbs_val(r@.push(low)) + high * pow_base((i + 1) as nat) == low_val(
                xs@,
                i + 1,
            ) + low_val(ys@, i + 1));
        }
        r.push(low);
        carry = high;
        i += 1;
    }
    proof {
        lemma_low_val_all(xs@, i as int);
        lemma_low_val_all(ys@, i as int);
        lemma_val_push(r@, carry as u32);
    }
    r.push(carry as u32);
    r
}

/// Subtracts the number held in `ys` from the one held in `xs`. The result has as many limbs as
/// `xs`; the flag tells whether a borrow escaped, that is, whether the difference is negative.
pub fn limbs_sub(xs: &[u32], ys: &[u32]) -> (r: (Vec<u32>, bool))
    requires
        xs@.len() >= ys@.len(),
    ensures
        r.0@.len() == xs@.len(),
        r.1 == (limbs_val(ys@) > limbs_val(xs@)),
        !r.1 ==> limbs_val(r.0@) == limbs_val(xs@) - limbs_val(ys@),
{
    let mut r: Vec<u32> = Vec::new();
    let mut borrow: u64 = 0;
    let mut i: usize = 0;
    proof {
        assert(xs@.take(0).len() == 0);
        assert(ys@.take(0).len() == 0);
        assert(pow_base(0) == 1);
    }
    while i < xs.len()
        invariant
            0 <= i <= xs@.len(),
            xs@.len() >= ys@.len(),
            r@.len() == i,
            borrow <= 1,
            limbs_val(r@) + low_val(ys@, i as int) == low_val(xs@, i as int) + borrow * pow_base(
                i as nat,
            ),
        decreases xs@.len() - i,
    {
        let y: u64 = if i < ys.len() {
            ys[i] as u64
        } else {
            0
        };
        let x = xs[i] as u64;
        let sub = y + borrow;
        let low: u32;
        let next: u64;
        if x >= sub {
            low = (x - sub) as u32;
            next = 0;
        } else {
            low = (x + 0x1_0000_0000 - sub) as u32;
            next = 1;
        }
        proof {
            lemma_low_val_next(xs@, i as int);
            lemma_low_val_next(ys@, i as int);
            lemma_val_push(r@, low);
            let p = pow_base(i as nat);
            assert(pow_base((i + 1) as nat) == limb_base() * p);
            assert(low + y + borrow == x + next * limb_base());
            assert(low * p + y * p + borrow * p == x * p + next * (limb_base() * p))
                by (nonlinear_arith)
                requires
                    low + y + borrow == x + next * limb_base(),
            ;
        }
        r.push(low);
        borrow = next;
        i += 1;
    }
    proof {
        lemma_low_val_all(xs@, i as int);
        lemma_low_val_all(ys@, i as int);
        lemma_limbs_val_bound(r@);
        lemma_limbs_val_bound(xs@);
        lemma_pow_base_pos(i as nat);
    }
    (r, borrow == 1)
}

/// Multiplies the number held in `xs` by `y`; the result has one limb more than `xs`.
pub fn limbs_mul_limb(xs: &[u32], y: u32) -> (r: Vec<u32>)
    ensures
        r@.len() == xs@.len() + 1,
        limbs_val(r@) == limbs_val(xs@) * y,
{
    let mut r: Vec<u32> = Vec::new();
    let mut carry: u64 = 0;
    let mut i: usize = 0;
    proof {
        assert(xs@.take(0).len() == 0);
        assert(low_val(xs@, 0) == 0);
        assert(limbs_val(r@) == 0);
        assert(pow_base(0) == 1);
    }
    while i < xs.len()
        invariant
            0 <= i <= xs@.len(),
            r@.len() == i,
            carry < limb_base(),
            limbs_val(r@) + carry * pow_base(i as nat) == low_val(xs@, i as int) * y,
        decreases xs@.len() - i,
    {
        let x = xs[i] as u64;
        assert(x * (y as u64) + carry <= 0xffff_ffff * 0xffff_ffff + 0xffff_ffff) by (nonlinear_arith)
            requires
                x < 0x1_0000_0000,
                y < 0x1_0000_0000,
                carry < 0x1_0000_0000,
        ;
        let s: u64 = x * (y as u64) + carry;
        let low = (s % 0x1_0000_0000) as u32;
        let high = s / 0x1_0000_0000;
        proof {
            lemma_low_val_next(xs@, i as int);
            lemma_val_push(r@, low);
            let p = pow_base(i as nat);
            let lv = low_val(xs@, i as int);
            assert(pow_base((i + 1) as nat) == limb_base() * p);
            assert(s == low + limb_base() * high);
            assert((lv + x * p) * y == lv * y + (x * y) * p) by (nonlinear_arith);
            assert(carry * p + (x * y) * p == low * p + high * (limb_base() * p))
                by (nonlinear_arith)
                requires
                    s == x * y + carry,
                    s == low + limb_base() * high,
            ;
            assert(high < limb_base());
        }
        r.push(low);
        carry = high;
        i += 1;
    }
    proof {
        lemma_low_val_all(xs@, i as int);
        lemma_val_push(r@, carry as u32);
    }
    r.push(carry as u32);
    r
}

} // verus!
