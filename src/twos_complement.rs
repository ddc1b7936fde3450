//! Two's-complement limb sequences: the sign is the top bit of the last limb, and the number
//! continues with infinitely many copies of that bit.
use crate::limbs::{
    lemma_limbs_val_bound, lemma_limbs_val_take_next, lemma_pow_base_pos, limb_base,
    limbs_add_limb_in_place, limbs_val, pow_base,
};
use vstd::prelude::*;

verus! {

/// Whether the most significant bit of a limb is set.
pub open spec fn top_bit(x: u32) -> bool {
    x >= 0x8000_0000
}

/// The number that a two's-complement limb sequence stands for.
pub open spec fn twos_val(s: Seq<u32>) -> int {
    if s.len() == 0 {
        0
    } else if top_bit(s.last()) {
        limbs_val(s) - pow_base(s.len())
    } else {
        limbs_val(s) as int
    }
}

/// Replaces each limb by its bitwise complement.
pub fn limbs_not_in_place(xs: &mut [u32])
    ensures
        final(xs)@.len() == old(xs)@.len(),
        limbs_val(final(xs)@) == pow_base(old(xs)@.len()) - 1 - limbs_val(old(xs)@),
        forall|i: int| 0 <= i < old(xs)@.len() ==> #[trigger] final(xs)@[i] == !old(xs)@[i],
{
    let ghost s0 = xs@;
    let mut i: usize = 0;
    proof {
        assert(limbs_val(xs@.take(0)) == 0);
        assert(limbs_val(s0.take(0)) == 0);
        assert(pow_base(0) == 1);
    }
    while i < xs.len()
        invariant
            xs@.len() == s0.len(),
            0 <= i <= s0.len(),
            forall|j: int| i <= j < s0.len() ==> xs@[j] == s0[j],
            forall|j: int| 0 <= j < i ==> #[trigger] xs@[j] == !s0[j],
            limbs_val(xs@.take(i as int)) == pow_base(i as nat) - 1 - limbs_val(s0.take(i as int)),
        decreases xs@.len() - i,
    {
        let x = xs[i];
        let ghost before = xs@;
        xs[i] = !x;
        proof {
            lemma_limbs_val_take_next(s0, i as int);
            lemma_limbs_val_take_next(xs@, i as int);
            assert(xs@.take(i as int) =~= before.take(i as int));
            assert(!x == 0xffff_ffff - x) by (bit_vector);
            let p = pow_base(i as nat);
            assert(pow_base((i + 1) as nat) == limb_base() * p);
            assert((0xffff_ffff - x) * p == limb_base() * p - p - x * p) by (nonlinear_arith);
        }
        i += 1;
    }
    proof {
        assert(xs@.take(i as int) =~= xs@);
        assert(s0.take(i as int) =~= s0);
    }
}

/// Turns the limbs of a magnitude into the limbs of its negation modulo `pow_base(len)`: the
/// complement plus one. Returns whether a carry escaped, which happens exactly when the
/// magnitude is zero.
pub fn limbs_slice_to_twos_complement_limbs_negative(xs: &mut [u32]) -> (carry: bool)
    ensures
        final(xs)@.len() == old(xs)@.len(),
        carry == (limbs_val(old(xs)@) == 0),
        !carry ==> limbs_val(final(xs)@) == pow_base(old(xs)@.len()) - limbs_val(old(xs)@),
        carry ==> limbs_val(final(xs)@) == 0,
{
    let ghost n = xs@.len();
    let ghost v = limbs_val(xs@);
    limbs_not_in_place(xs);
    let carry = limbs_add_limb_in_place(xs, 1);
    proof {
        lemma_limbs_val_bound(xs@);
        lemma_pow_base_pos(n);
        if n == 0 {
            assert(limbs_val(xs@) == 0);
        }
    }
    carry
}

/// Given the limbs of a non-negative number, appends a zero limb when the top bit is set, so
/// that the limbs read as a non-negative two's-complement number.
pub fn limbs_to_twos_complement_limbs_non_negative(xs: &mut Vec<u32>)
    ensures
        final(xs)@ == old(xs)@ + if old(xs)@.len() > 0 && top_bit(old(xs)@.last()) {
            seq![0u32]
        } else {
            Seq::<u32>::empty()
        },
        twos_val(final(xs)@) == limbs_val(old(xs)@),
{
    let ghost s = xs@;
    if xs.len() > 0 && xs[xs.len() - 1] >= 0x8000_0000 {
        xs.push(0);
        proof {
            assert(xs@ =~= s + seq![0u32]);
            assert(xs@.drop_last() =~= s);
            assert(!top_bit(xs@.last()));
            assert(pow_base(s.len()) * 0 == 0);
        }
    } else {
        proof {
            assert(xs@ =~= s + Seq::<u32>::empty());
        }
    }
}

/// Given the limbs of a positive magnitude, turns them into the two's-complement limbs of its
/// negation, appending an all-ones limb when the top bit would otherwise read as non-negative.
pub fn limbs_vec_to_twos_complement_limbs_negative(xs: &mut Vec<u32>)
    requires
        limbs_val(old(xs)@) != 0,
    ensures
        ({
            let n = old(xs)@.len();
            &&& n > 0
            &&& final(xs)@.len() == n || final(xs)@.len() == n + 1
            &&& limbs_val(final(xs)@.take(n as int)) + limbs_val(old(xs)@) == pow_base(n)
            &&& final(xs)@.len() == n + 1 <==> !top_bit(final(xs)@[n - 1])
            &&& final(xs)@.len() == n + 1 ==> final(xs)@[n as int] == u32::MAX
        }),
        twos_val(final(xs)@) == -limbs_val(old(xs)@),
{
    let ghost s = xs@;
    let ghost n = s.len();
    proof {
        if n == 0 {
            assert(limbs_val(s) == 0);
        }
    }
    let carry = limbs_slice_to_twos_complement_limbs_negative(xs.as_mut_slice());
    let ghost t = xs@;
    proof {
        assert(t.take(n as int) =~= t);
    }
    if xs[xs.len() - 1] < 0x8000_0000 {
        xs.push(u32::MAX);
        proof {
            assert(xs@.take(n as int) =~= t);
            assert(xs@.drop_last() =~= t);
            let p = pow_base(n);
            assert(pow_base(n + 1) == limb_base() * p);
            assert(limbs_val(xs@) == limbs_val(t) + 0xffff_ffff * p);
        }
    }
}

} // verus!
