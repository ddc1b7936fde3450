//! Bits of numbers, and of the limb sequences that hold them.
use crate::limbs::{
    lemma_limbs_val_bound, lemma_limbs_val_split, lemma_pow_base_mono, lemma_pow_base_pos, limb_base,
    limbs_val, pow_base,
};
use vstd::arithmetic::div_mod::{
    lemma_div_denominator, lemma_div_multiples_vanish_fancy, lemma_hoist_over_denominator,
    lemma_mod_multiples_vanish,
};
use vstd::arithmetic::power2::{lemma_pow2_adds, lemma_pow2_pos, lemma_pow2_unfold, pow2};
use vstd::bits::lemma_u32_shr_is_div;
use vstd::prelude::*;

verus! {

/// Bit `i` of `v`, counting from the least significant; a negative `v` reads as infinite two's
/// complement.
pub open spec fn bit_of(v: int, i: nat) -> bool {
    (v / (pow2(i) as int)) % 2 == 1
}

/// Bit `j` of a limb.
pub open spec fn limb_bit(x: u32, j: u32) -> bool {
    (x >> j) & 1 == 1
}

/// Bit `i` of an ascending limb sequence followed by infinitely many zero bits.
pub open spec fn limbs_get_bit(s: Seq<u32>, i: nat) -> bool {
    i / 32 < s.len() && limb_bit(s[(i / 32) as int], (i % 32) as u32)
}

/// A power of the limb base is a power of two.
pub proof fn lemma_pow_base_pow2(k: nat)
    ensures
        pow_base(k) == pow2(32 * k),
    decreases k,
{
    if k == 0 {
        vstd::arithmetic::power2::lemma2_to64();
    } else {
        lemma_pow_base_pow2((k - 1) as nat);
        lemma_pow2_adds(32, 32 * (k - 1) as nat);
        vstd::arithmetic::power2::lemma2_to64();
        assert(32 + 32 * (k - 1) as nat == 32 * k);
    }
}

/// Bit `j` of a limb, read by shifting, is bit `j` of its value.
pub proof fn lemma_limb_bit(x: u32, j: u32)
    requires
        j < 32,
    ensures
        limb_bit(x, j) == bit_of(x as int, j as nat),
{
    lemma_u32_shr_is_div(x, j);
    let y = x >> j;
    assert((y & 1 == 1) == (y % 2 == 1)) by (bit_vector);
}

/// Bit `i` of a limb sequence, read limb by limb, is bit `i` of the number it holds.
pub proof fn lemma_limbs_get_bit(s: Seq<u32>, i: nat)
    ensures
        limbs_get_bit(s, i) == bit_of(limbs_val(s) as int, i),
{
    let k = i / 32;
    let b = i % 32;
    let v = limbs_val(s) as int;
    lemma_pow_base_pow2(k);
    lemma_pow2_adds(32 * k, b);
    assert(32 * k + b == i);
    lemma_pow2_pos(b);
    lemma_pow_base_pos(k);
    let p = pow_base(k) as int;
    let q = pow2(b) as int;
    assert(pow2(i) as int == p * q);
    if k >= s.len() {
        lemma_limbs_val_bound(s);
        lemma_pow_base_mono(s.len(), k);
        assert(p * q >= p) by (nonlinear_arith)
            requires
                q >= 1,
                p >= 1,
        ;
        assert(v / (p * q) == 0) by (nonlinear_arith)
            requires
                0 <= v < p * q,
        ;
    } else {
        lemma_limbs_val_split(s, k as int);
        let a = limbs_val(s.take(k as int)) as int;
        let t = s.skip(k as int);
        let sv = limbs_val(t) as int;
        lemma_limbs_val_bound(s.take(k as int));
        lemma_div_denominator(v, p, q);
        lemma_div_multiples_vanish_fancy(sv, a, p);
        assert(v / p == sv);
        lemma_limbs_val_split(t, 1);
        let w = limbs_val(t.skip(1)) as int;
        assert(t.take(1).drop_last() =~= Seq::<u32>::empty());
        assert(limbs_val(t.take(1).drop_last()) == 0);
        assert(pow_base(0) == 1);
        assert(t[0] == s[k as int]);
        assert(limbs_val(t.take(1)) == s[k as int]);
        let x = s[k as int];
        // sv = x + 2^32 * w = x + q * (2^(32 - b) * w)
        lemma_pow2_adds(b, (32 - b) as nat);
        let r = pow2((32 - b) as nat) as int;
        vstd::arithmetic::power2::lemma2_to64();
        assert(pow_base(1) == limb_base());
        assert(sv == x + q * (r * w)) by (nonlinear_arith)
            requires
                sv == x + limb_base() * w,
                limb_base() == q * r,
        ;
        lemma_hoist_over_denominator(x as int, r * w, q as nat);
        assert((r * w) * q == q * (r * w)) by (nonlinear_arith);
        assert(sv / q == x as int / q + r * w);
        // r is even
        lemma_pow2_unfold((32 - b) as nat);
        let r2 = pow2((31 - b) as nat) as int;
        assert(r * w == 2 * (r2 * w)) by (nonlinear_arith)
            requires
                r == 2 * r2,
        ;
        lemma_mod_multiples_vanish(r2 * w, x as int / q, 2);
        lemma_limb_bit(x, b as u32);
    }
}

} // verus!
