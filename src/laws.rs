//! Laws that relate the operations of the kernel to one another.
use crate::bits::bit_of;
use crate::gcd::{divides, lemma_gcd_comm, lemma_gcd_divides, spec_gcd};
use crate::integer::{is_twos_complement_limbs_of, Integer};
use crate::limbs::{limb_base, limbs_val};
use crate::natural::{lemma_natural_limbs, Natural};
use crate::twos_complement::twos_val;
use vstd::prelude::*;

verus! {

/// Every valid `Natural` is in canonical form: a large value has at least two limbs and a
/// nonzero most significant limb, and every value below the limb base is small. Every
/// operation of the kernel returns valid values, so every value it produces is canonical.
pub proof fn law_canonical_form(n: &Natural)
    requires
        n.wf(),
    ensures
        n matches Natural::Large(v) ==> v@.len() >= 2 && v@.last() != 0,
        n@ < limb_base() ==> n is Small,
        n@ == limbs_val(n.limbs()),
{
    lemma_natural_limbs(n);
}

/// Adding `y` to a `Natural` `x` and then subtracting `y` gives back `x`, and the subtraction
/// does not underflow: `s` and `d` are what `x.add(&y)` and `s.sub(&y)` return.
pub proof fn law_natural_add_sub(x: &Natural, y: &Natural, s: &Natural, d: &Natural)
    requires
        x.wf(),
        y.wf(),
        s@ == x@ + y@,
        d@ == s@ - y@,
    ensures
        !(y@ > s@),
        d@ == x@,
{
}

/// Adding `b` to an `Integer` `a` and then subtracting `b` gives back `a`: `s` and `d` are what
/// `a.add(&b)` and `s.sub(&b)` return.
pub proof fn law_integer_add_sub(a: &Integer, b: &Integer, s: &Integer, d: &Integer)
    requires
        a.wf(),
        b.wf(),
        s@ == a@ + b@,
        d@ == s@ - b@,
    ensures
        d@ == a@,
{
}

/// Dividing a `Natural` `n` by a nonzero limb `d` gives a quotient `q` and remainder `r` with
/// `n == q * d + r` and `0 <= r < d`: `q` and `r` are what `n.div_mod_limb(d)` returns, and `r`
/// is also what `n.rem_limb(d)` returns.
pub proof fn law_division(n: &Natural, d: u32, q: &Natural, r: u32)
    requires
        n.wf(),
        d != 0,
        q@ == n@ / (d as nat),
        r == n@ % (d as nat),
    ensures
        n@ == q@ * d + r,
        0 <= r < d,
{
    vstd::arithmetic::div_mod::lemma_fundamental_div_mod(n@ as int, d as int);
    assert(q@ * d == d * q@) by (nonlinear_arith);
}

/// The greatest common divisor of two words is symmetric, `gcd(x, 0) == x`, `gcd(0, 0) == 0`,
/// and it divides both arguments; every gcd function of the kernel returns `spec_gcd`.
pub proof fn law_gcd(x: u64, y: u64)
    ensures
        spec_gcd(x as nat, y as nat) == spec_gcd(y as nat, x as nat),
        spec_gcd(x as nat, 0) == x,
        spec_gcd(0, 0) == 0,
        divides(spec_gcd(x as nat, y as nat) as int, x as int),
        divides(spec_gcd(x as nat, y as nat) as int, y as int),
{
    lemma_gcd_comm(x as nat, y as nat);
    lemma_gcd_divides(x as nat, y as nat);
}

/// When bit `i` of `n` is clear, the next clear bit at or after `i` is `i` itself: `t` is the
/// index that `n.index_of_next_false_bit(i)` returns.
pub proof fn law_next_false_bit_at_clear_bit(n: &Natural, i: u64, t: u64)
    requires
        n.wf(),
        !bit_of(n@ as int, i as nat),
        t >= i,
        !bit_of(n@ as int, t as nat),
        forall|j: nat| i <= j < t ==> #[trigger] bit_of(n@ as int, j),
    ensures
        t == i,
{
    if t > i {
        assert(bit_of(n@ as int, i as nat));
    }
}

/// Reading back the two's-complement limbs of an `Integer`, with the sign taken from the top
/// bit, gives the `Integer` itself: `s` is what `v.to_twos_complement_limbs_asc()` returns and
/// `w` is what `Integer::from_twos_complement_limbs_asc(&s)` returns.
pub proof fn law_twos_complement_round_trip(v: &Integer, s: Seq<u32>, w: &Integer)
    requires
        v.wf(),
        is_twos_complement_limbs_of(s, v),
        w.wf(),
        w@ == twos_val(s),
    ensures
        w@ == v@,
        w.sign == v.sign,
        w.abs@ == v.abs@,
{
}

} // verus!
