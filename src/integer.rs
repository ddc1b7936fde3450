//! The signed big integer: a sign and a `Natural` magnitude, with no negative zero.
use crate::bits::bit_of;
use crate::limbs::{limbs_val, pow_base};
use crate::natural::{
    lemma_bit_of_complement, lemma_natural_limbs, limbs_neg_assign_bit, ordering_of,
    ArithmeticError, Natural,
};
use crate::twos_complement::{
    limbs_slice_to_twos_complement_limbs_negative, limbs_to_twos_complement_limbs_non_negative,
    limbs_vec_to_twos_complement_limbs_negative, top_bit, twos_val,
};
use vstd::arithmetic::power2::{lemma_pow2_pos, pow2};
use vstd::prelude::*;

verus! {

/// A signed integer of unbounded size.
#[derive(Clone, Debug)]
pub struct Integer {
    /// Whether the value is non-negative.
    pub sign: bool,
    /// The absolute value.
    pub abs: Natural,
}

impl Integer {
    /// The magnitude is canonical and zero is non-negative.
    pub open spec fn wf(&self) -> bool {
        self.abs.wf() && (self.abs@ == 0 ==> self.sign)
    }
}

impl View for Integer {
    type V = int;

    open spec fn view(&self) -> int {
        if self.sign {
            self.abs@ as int
        } else {
            -(self.abs@ as int)
        }
    }
}

impl Integer {
    /// Whether the representation is valid.
    pub fn is_valid(&self) -> (r: bool)
        ensures
            r == self.wf(),
    {
        self.abs.is_valid() && (self.sign || !self.abs.is_zero_unchecked())
    }

    /// Zero.
    pub fn zero() -> (r: Integer)
        ensures
            r.wf(),
            r@ == 0,
    {
        Integer { sign: true, abs: Natural::zero() }
    }

    /// The integer with the given sign and magnitude; a zero magnitude is always non-negative.
    pub fn from_sign_and_abs(sign: bool, abs: Natural) -> (r: Integer)
        requires
            abs.wf(),
        ensures
            r.wf(),
            r@ == if sign {
                abs@ as int
            } else {
                -(abs@ as int)
            },
            r.abs@ == abs@,
    {
        let zero = abs.is_zero();
        Integer { sign: sign || zero, abs }
    }

    /// The value of a `Natural`.
    pub fn from_natural(n: Natural) -> (r: Integer)
        requires
            n.wf(),
        ensures
            r.wf(),
            r@ == n@,
    {
        Integer { sign: true, abs: n }
    }

    /// The value of a 64-bit signed word.
    pub fn from_i64(x: i64) -> (r: Integer)
        ensures
            r.wf(),
            r@ == x,
    {
        let magnitude: u64 = if x >= 0 {
            x as u64
        } else {
            (-(x as i128)) as u64
        };
        Integer::from_sign_and_abs(x >= 0, Natural::from_u64(magnitude))
    }

    /// The value of a 32-bit signed word.
    pub fn from_i32(x: i32) -> (r: Integer)
        ensures
            r.wf(),
            r@ == x,
    {
        Integer::from_i64(x as i64)
    }

    /// The magnitude, borrowed.
    pub fn unsigned_abs_ref(&self) -> (r: &Natural)
        ensures
            r == &self.abs,
    {
        &self.abs
    }

    /// Whether the value is non-negative.
    pub fn is_non_negative(&self) -> (r: bool)
        ensures
            r == self.sign,
    {
        self.sign
    }

    /// The negation.
    pub fn neg(&self) -> (r: Integer)
        requires
            self.wf(),
        ensures
            r.wf(),
            r@ == -self@,
    {
        Integer::from_sign_and_abs(!self.sign, self.abs.copy())
    }

    /// The sum. Same signs add magnitudes; opposite signs subtract the smaller magnitude from
    /// the larger and take the larger's sign.
    pub fn add(&self, other: &Integer) -> (r: Integer)
        requires
            self.wf(),
            other.wf(),
        ensures
            r.wf(),
            r@ == self@ + other@,
    {
        if self.sign == other.sign {
            Integer::from_sign_and_abs(self.sign, self.abs.add(&other.abs))
        } else {
            match self.abs.compare(&other.abs) {
                core::cmp::Ordering::Greater => match self.abs.sub(&other.abs) {
                    Ok(d) => Integer::from_sign_and_abs(self.sign, d),
                    Err(_) => Integer::zero(),
                },
                core::cmp::Ordering::Less => match other.abs.sub(&self.abs) {
                    Ok(d) => Integer::from_sign_and_abs(other.sign, d),
                    Err(_) => Integer::zero(),
                },
                core::cmp::Ordering::Equal => Integer::zero(),
            }
        }
    }

    /// The difference.
    pub fn sub(&self, other: &Integer) -> (r: Integer)
        requires
            self.wf(),
            other.wf(),
        ensures
            r.wf(),
            r@ == self@ - other@,
    {
        self.add(&other.neg())
    }

    /// The product.
    pub fn mul(&self, other: &Integer) -> (r: Integer)
        requires
            self.wf(),
            other.wf(),
        ensures
            r.wf(),
            r@ == self@ * other@,
    {
        let abs = self.abs.mul(&other.abs);
        proof {
            let a = self.abs@ as int;
            let b = other.abs@ as int;
            assert((-a) * b == -(a * b) && a * (-b) == -(a * b) && (-a) * (-b) == a * b)
                by (nonlinear_arith);
        }
        Integer::from_sign_and_abs(self.sign == other.sign, abs)
    }

    /// `self - b * c`.
    pub fn sub_mul(&self, b: &Integer, c: &Integer) -> (r: Integer)
        requires
            self.wf(),
            b.wf(),
            c.wf(),
        ensures
            r.wf(),
            r@ == self@ - b@ * c@,
    {
        self.sub(&b.mul(c))
    }

    /// Adds a limb in place.
    pub fn add_assign_limb(&mut self, other: u32)
        requires
            old(self).wf(),
        ensures
            final(self).wf(),
            final(self)@ == old(self)@ + other,
    {
        let o = Integer::from_natural(Natural::from_limb(other));
        *self = self.add(&o);
    }

    /// Bit `index` of the value, reading a negative value as infinite two's complement.
    pub fn get_bit(&self, index: u64) -> (r: bool)
        requires
            self.wf(),
        ensures
            r == bit_of(self@, index as nat),
    {
        if self.sign {
            self.abs.get_bit(index)
        } else {
            match self.abs.sub_limb(1) {
                Ok(t) => {
                    proof {
                        lemma_bit_of_complement(t@ as int, index as nat);
                    }
                    !t.get_bit(index)
                },
                Err(_) => false,
            }
        }
    }

    /// Sets bit `index`, reading a negative value as infinite two's complement.
    pub fn set_bit(&mut self, index: u64)
        requires
            old(self).wf(),
            index / 32 < usize::MAX,
        ensures
            final(self).wf(),
            final(self)@ == if bit_of(old(self)@, index as nat) {
                old(self)@
            } else {
                old(self)@ + pow2(index as nat)
            },
    {
        if self.sign {
            self.abs.set_bit(index);
        } else {
            self.abs.set_bit_neg(index);
        }
    }

    /// Clears bit `index`, reading a negative value as infinite two's complement.
    pub fn clear_bit(&mut self, index: u64)
        requires
            old(self).wf(),
            index / 32 < usize::MAX,
        ensures
            final(self).wf(),
            final(self)@ == if bit_of(old(self)@, index as nat) {
                old(self)@ - pow2(index as nat)
            } else {
                old(self)@
            },
    {
        if self.sign {
            self.abs.clear_bit(index);
        } else {
            self.abs.clear_bit_neg(index);
        }
    }

    /// Sets bit `index` to `bit`.
    pub fn assign_bit(&mut self, index: u64, bit: bool)
        requires
            old(self).wf(),
            index / 32 < usize::MAX,
        ensures
            final(self).wf(),
            final(self)@ == if bit == bit_of(old(self)@, index as nat) {
                old(self)@
            } else if bit {
                old(self)@ + pow2(index as nat)
            } else {
                old(self)@ - pow2(index as nat)
            },
    {
        if bit {
            self.set_bit(index);
        } else {
            self.clear_bit(index);
        }
    }
}

impl Natural {
    /// Whether the value is zero, for a value not known to be canonical.
    pub fn is_zero_unchecked(&self) -> (r: bool)
        ensures
            self.wf() ==> r == (self@ == 0),
    {
        proof {
            if self.wf() {
                lemma_natural_limbs(self);
            }
        }
        match self {
            Natural::Small(x) => *x == 0,
            Natural::Large(_) => false,
        }
    }

    /// On the magnitude `m` of a negative integer, sets bit `index` of `-m`.
    fn set_bit_neg(&mut self, index: u64)
        requires
            old(self).wf(),
            old(self)@ > 0,
            index / 32 < usize::MAX,
        ensures
            final(self).wf(),
            final(self)@ > 0,
            -(final(self)@ as int) == if bit_of(-(old(self)@ as int), index as nat) {
                -(old(self)@ as int)
            } else {
                -(old(self)@ as int) + pow2(index as nat)
            },
    {
        self.neg_assign_bit(index, true);
    }

    /// On the magnitude `m` of a negative integer, clears bit `index` of `-m`.
    fn clear_bit_neg(&mut self, index: u64)
        requires
            old(self).wf(),
            old(self)@ > 0,
            index / 32 < usize::MAX,
        ensures
            final(self).wf(),
            final(self)@ > 0,
            -(final(self)@ as int) == if bit_of(-(old(self)@ as int), index as nat) {
                -(old(self)@ as int) - pow2(index as nat)
            } else {
                -(old(self)@ as int)
            },
    {
        self.neg_assign_bit(index, false);
    }

    /// On the magnitude `m` of a negative integer, sets bit `index` of `-m` to `bit`, in place on
    /// the limbs, then restores canonical form.
    fn neg_assign_bit(&mut self, index: u64, bit: bool)
        requires
            old(self).wf(),
            old(self)@ > 0,
            index / 32 < usize::MAX,
        ensures
            final(self).wf(),
            final(self)@ > 0,
            -(final(self)@ as int) == if bit == bit_of(-(old(self)@ as int), index as nat) {
                -(old(self)@ as int)
            } else if bit {
                -(old(self)@ as int) + pow2(index as nat)
            } else {
                -(old(self)@ as int) - pow2(index as nat)
            },
    {
        match self {
            Natural::Small(x) => {
                let mut v: Vec<u32> = Vec::new();
                v.push(*x);
                proof {
                    crate::natural::lemma_single_limb_val(*x);
                    assert(v@ =~= seq![*x]);
                }
                limbs_neg_assign_bit(&mut v, index, bit);
                *self = Natural::from_owned_limbs_asc(v);
            },
            Natural::Large(v) => {
                limbs_neg_assign_bit(v, index, bit);
                self.trim();
            },
        }
    }
}

/// `s` is the ascending two's-complement limb sequence of `x`: zero has none; a non-negative
/// value has its magnitude's limbs plus a zero limb when their top bit is set; a negative value
/// has the limbs of `B^n - |x|` (`n` the magnitude's limb count) plus an all-ones limb when their
/// top bit is clear. So the top bit of the last limb is the sign, and `s` reads back as `x`.
pub open spec fn is_twos_complement_limbs_of(s: Seq<u32>, x: &Integer) -> bool {
    &&& twos_val(s) == x@
    &&& s.len() == 0 <==> x@ == 0
    &&& s.len() > 0 ==> top_bit(s.last()) == (x@ < 0)
    &&& x@ >= 0 ==> s == x.abs.limbs() + if x.abs.limbs().len() > 0 && top_bit(
        x.abs.limbs().last(),
    ) {
        seq![0u32]
    } else {
        Seq::<u32>::empty()
    }
    &&& x@ < 0 ==> ({
        let n = x.abs.limbs().len();
        &&& s.len() == n || s.len() == n + 1
        &&& limbs_val(s.take(n as int)) + x.abs@ == pow_base(n)
        &&& s.len() == n + 1 <==> !top_bit(s[n - 1])
        &&& s.len() == n + 1 ==> s[n as int] == u32::MAX
    })
}

/// The sequence in reverse order.
fn reversed(v: &Vec<u32>) -> (r: Vec<u32>)
    ensures
        r@ == v@.reverse(),
{
    let mut r: Vec<u32> = Vec::new();
    let mut i = v.len();
    while i > 0
        invariant
            i <= v@.len(),
            r@.len() == v@.len() - i,
            forall|j: int| 0 <= j < r@.len() ==> r@[j] == v@[v@.len() - 1 - j],
        decreases i,
    {
        i -= 1;
        r.push(v[i]);
    }
    assert(r@ =~= v@.reverse());
    r
}

impl Integer {
    /// The two's-complement limbs, ascending.
    pub fn to_twos_complement_limbs_asc(&self) -> (r: Vec<u32>)
        requires
            self.wf(),
        ensures
            is_twos_complement_limbs_of(r@, self),
    {
        let mut limbs = self.abs.to_limbs_asc();
        proof {
            lemma_natural_limbs(&self.abs);
        }
        if self.sign {
            limbs_to_twos_complement_limbs_non_negative(&mut limbs);
        } else {
            limbs_vec_to_twos_complement_limbs_negative(&mut limbs);
        }
        proof {
            if limbs@.len() > 0 {
                let v = limbs@;
                if top_bit(v.last()) {
                    crate::limbs::lemma_limbs_val_bound(v);
                }
            }
        }
        limbs
    }

    /// The two's-complement limbs, descending.
    pub fn to_twos_complement_limbs_desc(&self) -> (r: Vec<u32>)
        requires
            self.wf(),
        ensures
            is_twos_complement_limbs_of(r@.reverse(), self),
    {
        let asc = self.to_twos_complement_limbs_asc();
        let r = reversed(&asc);
        proof {
            assert(r@.reverse() =~= asc@);
        }
        r
    }
}

impl Integer {
    /// The two's-complement limbs, ascending, consuming the value.
    pub fn into_twos_complement_limbs_asc(self) -> (r: Vec<u32>)
        requires
            self.wf(),
        ensures
            is_twos_complement_limbs_of(r@, &self),
    {
        self.to_twos_complement_limbs_asc()
    }

    /// The two's-complement limbs, descending, consuming the value.
    pub fn into_twos_complement_limbs_desc(self) -> (r: Vec<u32>)
        requires
            self.wf(),
        ensures
            is_twos_complement_limbs_of(r@.reverse(), &self),
    {
        self.to_twos_complement_limbs_desc()
    }

    /// The integer that an ascending two's-complement limb sequence stands for.
    pub fn from_twos_complement_limbs_asc(xs: &[u32]) -> (r: Integer)
        ensures
            r.wf(),
            r@ == twos_val(xs@),
    {
        let n = xs.len();
        if n == 0 {
            return Integer::zero();
        }
        if xs[n - 1] < 0x8000_0000 {
            Integer::from_natural(Natural::from_limbs_asc(xs))
        } else {
            let mut v = vstd::slice::slice_to_vec(xs);
            let ghost s = v@;
            let carry = limbs_slice_to_twos_complement_limbs_negative(v.as_mut_slice());
            proof {
                assert(s.last() >= 0x8000_0000);
                crate::limbs::lemma_limbs_val_split(s, n - 1);
                assert(s.skip(n - 1) =~= seq![s.last()]);
                crate::natural::lemma_single_limb_val(s.last());
                assert(pow_base((n - 1) as nat) * s.last() >= 0) by (nonlinear_arith);
                crate::limbs::lemma_pow_base_pos((n - 1) as nat);
                assert(pow_base((n - 1) as nat) * s.last() >= pow_base((n - 1) as nat)) by (
                nonlinear_arith)
                    requires
                        s.last() >= 1,
                ;
            }
            Integer::from_sign_and_abs(false, Natural::from_owned_limbs_asc(v))
        }
    }

    /// Compares the absolute values of `self` and `other`.
    pub fn partial_cmp_abs(&self, other: &Natural) -> (r: Option<core::cmp::Ordering>)
        requires
            self.wf(),
            other.wf(),
        ensures
            r == Some(ordering_of(self.abs@ as int, other@ as int)),
    {
        Some(self.abs.compare(other))
    }

    /// Compares the absolute values of `self` and `other`.
    pub fn partial_cmp_abs_i32(&self, other: i32) -> (r: Option<core::cmp::Ordering>)
        requires
            self.wf(),
        ensures
            r == Some(ordering_of(self.abs@ as int, if other >= 0 {
                other as int
            } else {
                -other
            })),
    {
        let o = Integer::from_i32(other);
        Some(self.abs.compare(&o.abs))
    }

    /// Whether `self` and `other` are equal modulo `2^pow`.
    pub fn eq_mod_power_of_2(&self, other: &Natural, pow: u64) -> (r: bool)
        requires
            self.wf(),
            other.wf(),
            self.abs.limbs().len() < 0x100_0000_0000_0000,
            other.limbs().len() < 0x100_0000_0000_0000,
        ensures
            r == ((self@ - other@) % (pow2(pow as nat) as int) == 0),
    {
        let o = Integer::from_natural(other.copy());
        let d = self.sub(&o);
        proof {
            let la = self.abs.limbs().len();
            let lb = other.limbs().len();
            lemma_natural_limbs(&self.abs);
            lemma_natural_limbs(other);
            crate::limbs::lemma_limbs_val_bound(self.abs.limbs());
            crate::limbs::lemma_limbs_val_bound(other.limbs());
            lemma_sum_limb_bound(self.abs@, other@, la, lb);
            lemma_limb_count_bound(&d.abs, la + lb + 1);
        }
        let r = d.abs.divisible_by_power_of_2(pow);
        proof {
            lemma_pow2_pos(pow as nat);
            lemma_neg_divisible(d.abs@ as int, pow2(pow as nat) as int);
        }
        r
    }
}

impl Natural {
    /// Compares the absolute values of `self` and `other`.
    pub fn partial_cmp_abs_integer(&self, other: &Integer) -> (r: Option<core::cmp::Ordering>)
        requires
            self.wf(),
            other.wf(),
        ensures
            r == Some(ordering_of(self@ as int, other.abs@ as int)),
    {
        Some(self.compare(&other.abs))
    }

    /// Whether `self` and `other` are equal modulo `2^pow`.
    pub fn eq_mod_power_of_2_integer(&self, other: &Integer, pow: u64) -> (r: bool)
        requires
            self.wf(),
            other.wf(),
            self.limbs().len() < 0x100_0000_0000_0000,
            other.abs.limbs().len() < 0x100_0000_0000_0000,
        ensures
            r == ((other@ - self@) % (pow2(pow as nat) as int) == 0),
    {
        other.eq_mod_power_of_2(self, pow)
    }
}

/// Compares the absolute values of a word and an `Integer`.
pub fn i32_partial_cmp_abs_integer(x: i32, other: &Integer) -> (r: Option<core::cmp::Ordering>)
    requires
        other.wf(),
    ensures
        r == Some(ordering_of(if x >= 0 {
            x as int
        } else {
            -x
        }, other.abs@ as int)),
{
    let o = Integer::from_i32(x);
    Some(o.abs.compare(&other.abs))
}

/// Whether `-xs` and `ys`, read as ascending limbs, are equal modulo `2^pow`.
pub fn limbs_eq_mod_power_of_two_neg_pos(xs: &[u32], ys: &[u32], pow: u64) -> (r: bool)
    requires
        xs@.len() < 0x100_0000_0000_0000,
        ys@.len() < 0x100_0000_0000_0000,
    ensures
        r == ((limbs_val(xs@) + limbs_val(ys@)) % pow2(pow as nat) == 0),
{
    let sum = Natural::from_limbs_asc(xs).add(&Natural::from_limbs_asc(ys));
    proof {
        crate::limbs::lemma_limbs_val_bound(xs@);
        crate::limbs::lemma_limbs_val_bound(ys@);
        lemma_sum_limb_bound(limbs_val(xs@), limbs_val(ys@), xs@.len(), ys@.len());
        lemma_limb_count_bound(&sum, xs@.len() + ys@.len() + 1);
    }
    sum.divisible_by_power_of_2(pow)
}

impl Integer {
    /// Whether `self` and `other` are equal modulo `modulus`: whether `self - other` is a
    /// multiple of it. Modulo zero, that means equal.
    pub fn eq_mod_i32(&self, other: i32, modulus: i32) -> (r: bool)
        requires
            self.wf(),
        ensures
            r == if modulus == 0 {
                self@ == other
            } else {
                (self@ - other) % (if modulus >= 0 {
                    modulus as int
                } else {
                    -modulus
                }) == 0
            },
    {
        let d = self.sub(&Integer::from_i32(other));
        let m: u32 = if modulus >= 0 {
            modulus as u32
        } else {
            (-(modulus as i64)) as u32
        };
        if m == 0 {
            d.abs.is_zero()
        } else {
            let r = d.abs.rem_limb(m);
            proof {
                lemma_neg_divisible(d.abs@ as int, m as int);
            }
            r == 0
        }
    }
}

impl PartialEq for Integer {
    fn eq(&self, other: &Integer) -> (r: bool) {
        let a = self.abs.to_limbs_asc();
        let b = other.abs.to_limbs_asc();
        self.sign == other.sign && crate::natural::limbs_equal(a.as_slice(), b.as_slice())
    }
}

impl vstd::std_specs::cmp::PartialEqSpecImpl for Integer {
    open spec fn obeys_eq_spec() -> bool {
        true
    }

    open spec fn eq_spec(&self, other: &Integer) -> bool {
        self.sign == other.sign && self.abs.limbs() == other.abs.limbs()
    }
}

impl Natural {
    /// The bitwise complement, `-self - 1`, which is negative.
    pub fn not(&self) -> (r: Integer)
        requires
            self.wf(),
        ensures
            r.wf(),
            r@ == -(self@ as int) - 1,
    {
        Integer::from_sign_and_abs(false, self.add_limb(1))
    }
}

/// Two numbers of at most `la` and `lb` limbs sum to less than `pow_base(la + lb + 1)`.
proof fn lemma_sum_limb_bound(a: nat, b: nat, la: nat, lb: nat)
    requires
        a < pow_base(la),
        b < pow_base(lb),
    ensures
        a + b < pow_base(la + lb + 1),
{
    crate::limbs::lemma_pow_base_mono(la, la + lb);
    crate::limbs::lemma_pow_base_mono(lb, la + lb);
    assert(pow_base(la + lb + 1) == crate::limbs::limb_base() * pow_base(la + lb));
}

/// A value below `pow_base(k)` has at most `k` limbs.
proof fn lemma_limb_count_bound(n: &Natural, k: nat)
    requires
        n.wf(),
        n@ < pow_base(k),
    ensures
        n.limbs().len() <= k,
{
    lemma_natural_limbs(n);
    if n.limbs().len() > k {
        let s = n.limbs();
        let m = (s.len() - 1) as nat;
        crate::limbs::lemma_pow_base_mono(k, m);
        assert(s.last() as nat * pow_base(m) >= pow_base(m)) by (nonlinear_arith)
            requires
                s.last() >= 1,
        ;
    }
}

/// Divisibility does not depend on the sign.
proof fn lemma_neg_divisible(a: int, p: int)
    requires
        p > 0,
    ensures
        (a % p == 0) == ((-a) % p == 0),
{
    vstd::arithmetic::div_mod::lemma_fundamental_div_mod(a, p);
    vstd::arithmetic::div_mod::lemma_fundamental_div_mod(-a, p);
    if a % p == 0 {
        assert(-a == p * (-(a / p))) by (nonlinear_arith)
            requires
                a == p * (a / p) + a % p,
                a % p == 0,
        ;
        vstd::arithmetic::div_mod::lemma_mod_multiples_basic(-(a / p), p);
        assert(p * (-(a / p)) == (-(a / p)) * p) by (nonlinear_arith);
    }
    if (-a) % p == 0 {
        assert(a == p * ((-a) / p) * -1) by (nonlinear_arith)
            requires
                -a == p * ((-a) / p) + (-a) % p,
                (-a) % p == 0,
        ;
        assert(a == (-((-a) / p)) * p) by (nonlinear_arith)
            requires
                a == p * ((-a) / p) * -1,
        ;
        vstd::arithmetic::div_mod::lemma_mod_multiples_basic(-((-a) / p), p);
    }
}

/// A number with bit `i` set is at least `2^i`.
pub(crate) proof fn lemma_bit_set_at_least(v: nat, i: nat)
    ensures
        bit_of(v as int, i) ==> v >= pow2(i),
{
    lemma_pow2_pos(i);
    if bit_of(v as int, i) && v < pow2(i) {
        vstd::arithmetic::div_mod::lemma_basic_div(v as int, pow2(i) as int);
    }
}

} // verus!
