//! The unsigned big integer: a single inline limb, or a trimmed heap sequence of two or more.
use crate::arith::{limbs_add, limbs_mul_limb, limbs_sub};
use crate::div_limb::{limbs_div_mod_limb, limbs_mod_limb};
use crate::limbs::{
    lemma_limbs_val_bound, lemma_limbs_val_split, lemma_limbs_val_take_next,
    lemma_limbs_val_zero_top, lemma_pow_base_mono, lemma_pow_base_pos, limb_base, limbs_add_limb,
    limbs_sub_limb, limbs_val, pow_base,
};
use crate::bit_scan::{limbs_index_of_next_false_bit, limbs_index_of_next_true_bit};
use crate::bits::{bit_of, lemma_limbs_get_bit, lemma_pow_base_pow2, limb_bit, limbs_get_bit};
use vstd::arithmetic::power2::{lemma_pow2_adds, lemma_pow2_pos, pow2};
use vstd::prelude::*;

verus! {

/// Why an arithmetic operation has no result.
#[derive(Clone, Copy, Debug, PartialEq, Eq, Structural)]
pub enum ArithmeticError {
    /// A divisor was zero.
    DivisionByZero,
    /// An unsigned subtraction would have gone below zero.
    Underflow,
}

/// An unsigned integer of unbounded size.
#[derive(Clone, Debug)]
pub enum Natural {
    /// A value that fits in one limb.
    Small(u32),
    /// Two or more ascending limbs, the most significant one nonzero.
    Large(Vec<u32>),
}

/// A limb sequence with no most-significant zero limb.
pub open spec fn is_trimmed(s: Seq<u32>) -> bool {
    s.len() == 0 || s.last() != 0
}

impl Natural {
    /// The canonical ascending limbs: none for zero, one for a small nonzero value.
    pub open spec fn limbs(&self) -> Seq<u32> {
        match self {
            Natural::Small(x) => if *x == 0 {
                Seq::<u32>::empty()
            } else {
                seq![*x]
            },
            Natural::Large(v) => v@,
        }
    }

    /// The representation is canonical: a large value has two or more limbs and no
    /// most-significant zero limb, so every value below the limb base is small.
    pub open spec fn wf(&self) -> bool {
        match self {
            Natural::Small(_) => true,
            Natural::Large(v) => v@.len() >= 2 && v@.last() != 0,
        }
    }

    /// Whether the representation is canonical.
    pub fn is_valid(&self) -> (r: bool)
        ensures
            r == self.wf(),
    {
        match self {
            Natural::Small(_) => true,
            Natural::Large(v) => v.len() >= 2 && v[v.len() - 1] != 0,
        }
    }
}

impl View for Natural {
    type V = nat;

    open spec fn view(&self) -> nat {
        limbs_val(self.limbs())
    }
}

/// One limb holds its own value; no limbs hold zero.
pub proof fn lemma_single_limb_val(x: u32)
    ensures
        limbs_val(seq![x]) == x,
        limbs_val(Seq::<u32>::empty()) == 0,
{
    let s = seq![x];
    assert(s.drop_last() =~= Seq::<u32>::empty());
    assert(limbs_val(Seq::<u32>::empty()) == 0);
    assert(pow_base(0) == 1);
    assert(s.last() == x);
    assert(limbs_val(s) == limbs_val(s.drop_last()) + s.last() as nat * pow_base(0));
    assert(x as nat * pow_base(0) == x) by (nonlinear_arith)
        requires
            pow_base(0) == 1,
    ;
}

/// A trimmed sequence of two or more limbs holds a value of at least the limb base.
proof fn lemma_trimmed_large(s: Seq<u32>)
    requires
        s.len() >= 2,
        s.last() != 0,
    ensures
        limbs_val(s) >= limb_base(),
{
    let n = (s.len() - 1) as nat;
    lemma_pow_base_mono(1, n);
    assert(pow_base(1) == limb_base() * pow_base(0));
    assert(s.last() as nat * pow_base(n) >= pow_base(n)) by (nonlinear_arith)
        requires
            s.last() >= 1,
    ;
}

/// The canonical limbs of a valid value are trimmed and hold the value.
pub proof fn lemma_natural_limbs(n: &Natural)
    requires
        n.wf(),
    ensures
        is_trimmed(n.limbs()),
        n@ == limbs_val(n.limbs()),
        n@ < limb_base() <==> n is Small,
        n.limbs().len() == 0 <==> n@ == 0,
{
    match n {
        Natural::Small(x) => {
            lemma_single_limb_val(*x);
        },
        Natural::Large(v) => {
            lemma_trimmed_large(v@);
        },
    }
}

/// The trimmed length of a limb sequence: the length without its most-significant zero limbs.
proof fn lemma_trim_len(s: Seq<u32>, k: int)
    requires
        0 <= k <= s.len(),
        forall|j: int| k <= j < s.len() ==> s[j] == 0,
        k == 0 || s[k - 1] != 0,
    ensures
        limbs_val(s.take(k)) == limbs_val(s),
        is_trimmed(s.take(k)),
{
    lemma_limbs_val_zero_top(s, k);
}

impl Natural {
    /// Zero.
    pub fn zero() -> (r: Natural)
        ensures
            r.wf(),
            r@ == 0,
    {
        proof {
            lemma_single_limb_val(0);
        }
        Natural::Small(0)
    }

    /// The value of a single limb.
    pub fn from_limb(x: u32) -> (r: Natural)
        ensures
            r.wf(),
            r@ == x,
    {
        proof {
            lemma_single_limb_val(x);
        }
        Natural::Small(x)
    }

    /// The value of a 64-bit word.
    pub fn from_u64(x: u64) -> (r: Natural)
        ensures
            r.wf(),
            r@ == x,
    {
        let mut v: Vec<u32> = Vec::new();
        v.push((x % 0x1_0000_0000) as u32);
        v.push((x / 0x1_0000_0000) as u32);
        proof {
            let s = v@;
            assert(s.drop_last() =~= seq![s[0]]);
            lemma_single_limb_val(s[0]);
            assert(pow_base(1) == limb_base() * pow_base(0));
            assert(pow_base(0) == 1);
            assert(limbs_val(s) == s[0] + s[1] * pow_base(1));
            assert(x == s[0] + s[1] * limb_base());
        }
        Natural::from_owned_limbs_asc(v)
    }

    /// Builds a value from ascending limbs, trimming most-significant zero limbs and keeping a
    /// value that fits in one limb inline.
    pub fn from_owned_limbs_asc(v: Vec<u32>) -> (r: Natural)
        ensures
            r.wf(),
            r@ == limbs_val(v@),
    {
        let mut v = v;
        let ghost s = v@;
        let mut len = v.len();
        while len > 0 && v[len - 1] == 0
            invariant
                v@ == s,
                len <= s.len(),
                forall|j: int| len <= j < s.len() ==> s[j] == 0,
            decreases len,
        {
            len -= 1;
        }
        proof {
            lemma_trim_len(s, len as int);
        }
        if len == 0 {
            proof {
                lemma_single_limb_val(0);
                assert(s.take(0) =~= Seq::<u32>::empty());
            }
            Natural::Small(0)
        } else if len == 1 {
            proof {
                lemma_single_limb_val(s[0]);
                assert(s.take(1) =~= seq![s[0]]);
            }
            Natural::Small(v[0])
        } else {
            v.truncate(len);
            proof {
                assert(v@ =~= s.take(len as int));
            }
            Natural::Large(v)
        }
    }

    /// Builds a value from ascending limbs.
    pub fn from_limbs_asc(xs: &[u32]) -> (r: Natural)
        ensures
            r.wf(),
            r@ == limbs_val(xs@),
    {
        Natural::from_owned_limbs_asc(vstd::slice::slice_to_vec(xs))
    }

    /// The canonical ascending limbs: none for zero, and no most-significant zero limb.
    pub fn to_limbs_asc(&self) -> (r: Vec<u32>)
        ensures
            r@ == self.limbs(),
    {
        match self {
            Natural::Small(x) => {
                let mut v: Vec<u32> = Vec::new();
                if *x != 0 {
                    v.push(*x);
                }
                proof {
                    if *x != 0 {
                        assert(v@ =~= seq![*x]);
                    } else {
                        assert(v@ =~= Seq::<u32>::empty());
                    }
                }
                v
            },
            Natural::Large(v) => vstd::slice::slice_to_vec(v.as_slice()),
        }
    }

    /// The number of canonical limbs.
    pub fn limb_count(&self) -> (r: usize)
        ensures
            r == self.limbs().len(),
    {
        match self {
            Natural::Small(x) => if *x == 0 {
                0
            } else {
                1
            },
            Natural::Large(v) => v.len(),
        }
    }

    /// Whether the value is zero.
    pub fn is_zero(&self) -> (r: bool)
        requires
            self.wf(),
        ensures
            r == (self@ == 0),
    {
        proof {
            lemma_natural_limbs(self);
        }
        match self {
            Natural::Small(x) => *x == 0,
            Natural::Large(_) => false,
        }
    }

    /// Adds two values.
    pub fn add(&self, other: &Natural) -> (r: Natural)
        requires
            self.wf(),
            other.wf(),
        ensures
            r.wf(),
            r@ == self@ + other@,
    {
        let a = self.to_limbs_asc();
        let b = other.to_limbs_asc();
        let sum = if a.len() >= b.len() {
            limbs_add(a.as_slice(), b.as_slice())
        } else {
            limbs_add(b.as_slice(), a.as_slice())
        };
        Natural::from_owned_limbs_asc(sum)
    }

    /// Subtracts `other`; fails with `Underflow` exactly when `other` is larger.
    pub fn sub(&self, other: &Natural) -> (r: Result<Natural, ArithmeticError>)
        requires
            self.wf(),
            other.wf(),
        ensures
            r is Err <==> other@ > self@,
            r matches Err(e) ==> e == ArithmeticError::Underflow,
            r matches Ok(d) ==> d.wf() && d@ == self@ - other@,
    {
        let a = self.to_limbs_asc();
        let b = other.to_limbs_asc();
        if a.len() < b.len() {
            proof {
                lemma_natural_limbs(self);
                lemma_natural_limbs(other);
                lemma_limbs_val_bound(a@);
                lemma_trimmed_large_pow(b@);
                lemma_pow_base_mono(a@.len(), (b@.len() - 1) as nat);
            }
            return Err(ArithmeticError::Underflow);
        }
        let (diff, borrow) = limbs_sub(a.as_slice(), b.as_slice());
        if borrow {
            Err(ArithmeticError::Underflow)
        } else {
            Ok(Natural::from_owned_limbs_asc(diff))
        }
    }

    /// Subtracts `other`, or gives `None` when `other` is larger.
    pub fn checked_sub(&self, other: &Natural) -> (r: Option<Natural>)
        requires
            self.wf(),
            other.wf(),
        ensures
            r is None <==> other@ > self@,
            r matches Some(d) ==> d.wf() && d@ == self@ - other@,
    {
        match self.sub(other) {
            Ok(d) => Some(d),
            Err(_) => None,
        }
    }

    /// Adds a limb.
    pub fn add_limb(&self, y: u32) -> (r: Natural)
        requires
            self.wf(),
        ensures
            r.wf(),
            r@ == self@ + y,
    {
        let mut a = self.to_limbs_asc();
        a.push(0);
        proof {
            assert(a@.drop_last() =~= self.limbs());
            assert(a@.last() == 0);
        }
        let (sum, carry) = limbs_add_limb(a.as_slice(), y);
        proof {
            if carry {
                lemma_limbs_val_bound(self.limbs());
                lemma_pow_base_pos(self.limbs().len());
                assert(pow_base(a@.len()) == limb_base() * pow_base(self.limbs().len()));
                assert(limb_base() * pow_base(self.limbs().len()) >= pow_base(self.limbs().len())
                    + 0xffff_ffff) by (nonlinear_arith)
                    requires
                        pow_base(self.limbs().len()) >= 1,
                ;
            }
        }
        Natural::from_owned_limbs_asc(sum)
    }

    /// Subtracts a limb; fails with `Underflow` exactly when the limb is larger.
    pub fn sub_limb(&self, y: u32) -> (r: Result<Natural, ArithmeticError>)
        requires
            self.wf(),
        ensures
            r is Err <==> y > self@,
            r matches Err(e) ==> e == ArithmeticError::Underflow,
            r matches Ok(d) ==> d.wf() && d@ == self@ - y,
    {
        let a = self.to_limbs_asc();
        let (diff, borrow) = limbs_sub_limb(a.as_slice(), y);
        if borrow {
            Err(ArithmeticError::Underflow)
        } else {
            Ok(Natural::from_owned_limbs_asc(diff))
        }
    }

    /// Multiplies by a limb.
    pub fn mul_limb(&self, y: u32) -> (r: Natural)
        requires
            self.wf(),
        ensures
            r.wf(),
            r@ == self@ * y,
    {
        let a = self.to_limbs_asc();
        Natural::from_owned_limbs_asc(limbs_mul_limb(a.as_slice(), y))
    }

    /// Multiplies two values, schoolbook style: Horner's rule over the limbs of `other`, from the
    /// most significant one down.
    pub fn mul(&self, other: &Natural) -> (r: Natural)
        requires
            self.wf(),
            other.wf(),
        ensures
            r.wf(),
            r@ == self@ * other@,
    {
        let a = self.to_limbs_asc();
        let b = other.to_limbs_asc();
        let mut acc: Vec<u32> = Vec::new();
        let mut i = b.len();
        proof {
            assert(b@.skip(i as int).len() == 0);
            assert(limbs_val(acc@) == 0);
            assert(limbs_val(b@.skip(i as int)) == 0);
            assert(limbs_val(a@) * 0 == 0);
        }
        while i > 0
            invariant
                i <= b@.len(),
                a@ == self.limbs(),
                limbs_val(acc@) == limbs_val(a@) * limbs_val(b@.skip(i as int)),
            decreases i,
        {
            i -= 1;
            // acc * B + a * b[i]
            let mut shifted: Vec<u32> = Vec::new();
            shifted.push(0);
            let mut k: usize = 0;
            let ghost acc0 = acc@;
            while k < acc.len()
                invariant
                    k <= acc@.len(),
                    acc@ == acc0,
                    shifted@ == seq![0u32] + acc0.take(k as int),
                decreases acc@.len() - k,
            {
                shifted.push(acc[k]);
                proof {
                    assert(acc0.take(k + 1) =~= acc0.take(k as int).push(acc0[k as int]));
                    assert(seq![0u32] + acc0.take(k + 1) =~= (seq![0u32] + acc0.take(k as int)).push(
                        acc0[k as int],
                    ));
                }
                k += 1;
            }
            let row = limbs_mul_limb(a.as_slice(), b[i]);
            proof {
                assert(acc0.take(k as int) =~= acc0);
                lemma_shift_one_limb(acc0);
                lemma_limbs_val_split(b@.skip(i as int), 1);
                assert(b@.skip(i as int).skip(1) =~= b@.skip(i + 1));
                lemma_single_limb_val(b[i as int]);
                assert(b@.skip(i as int).take(1) =~= seq![b[i as int]]);
                assert(pow_base(1) == limb_base() * pow_base(0));
                let x = limbs_val(a@);
                let t = limbs_val(b@.skip(i + 1));
                assert(x * (b[i as int] + limb_base() * t) == limb_base() * (x * t) + x * b[i as int])
                    by (nonlinear_arith);
            }
            acc = if shifted.len() >= row.len() {
                limbs_add(shifted.as_slice(), row.as_slice())
            } else {
                limbs_add(row.as_slice(), shifted.as_slice())
            };
        }
        proof {
            assert(b@.skip(0) =~= b@);
        }
        Natural::from_owned_limbs_asc(acc)
    }

    /// The remainder by a nonzero limb, through the preinverted divider.
    pub fn rem_limb(&self, d: u32) -> (r: u32)
        requires
            self.wf(),
            d != 0,
        ensures
            r == self@ % (d as nat),
    {
        match self {
            Natural::Small(x) => {
                proof {
                    lemma_single_limb_val(*x);
                }
                *x % d
            },
            Natural::Large(v) => limbs_mod_limb(v.as_slice(), d),
        }
    }

    /// The quotient and remainder by a limb, through the preinverted divider; fails with
    /// `DivisionByZero` exactly when the limb is zero.
    pub fn div_mod_limb(&self, d: u32) -> (r: Result<(Natural, u32), ArithmeticError>)
        requires
            self.wf(),
            self.limbs().len() < usize::MAX,
        ensures
            r is Err <==> d == 0,
            r matches Err(e) ==> e == ArithmeticError::DivisionByZero,
            r matches Ok(qr) ==> qr.0.wf() && qr.0@ == self@ / (d as nat) && qr.1 == self@ % (
            d as nat),
    {
        if d == 0 {
            return Err(ArithmeticError::DivisionByZero);
        }
        match self {
            Natural::Small(x) => {
                proof {
                    lemma_single_limb_val(*x);
                    lemma_single_limb_val(*x / d);
                }
                Ok((Natural::from_limb(*x / d), *x % d))
            },
            Natural::Large(v) => {
                let (q, r) = limbs_div_mod_limb(v.as_slice(), d);
                Ok((Natural::from_owned_limbs_asc(q), r))
            },
        }
    }

    /// `(-self) mod d`: the least `r` with `self + r` divisible by `d`.
    pub fn neg_mod_limb(&self, d: u32) -> (r: u32)
        requires
            self.wf(),
            d != 0,
        ensures
            r < d,
            (self@ + r) as nat % (d as nat) == 0,
    {
        let rem = self.rem_limb(d);
        if rem == 0 {
            proof {
                vstd::arithmetic::div_mod::lemma_mod_twice(self@ as int, d as int);
            }
            0
        } else {
            proof {
                vstd::arithmetic::div_mod::lemma_fundamental_div_mod(self@ as int, d as int);
                let q = self@ as int / d as int;
                assert(self@ + (d - rem) == (q + 1) * d) by (nonlinear_arith)
                    requires
                        self@ as int == d * q + rem,
                ;
                vstd::arithmetic::div_mod::lemma_mod_multiples_basic(q + 1, d as int);
            }
            d - rem
        }
    }
}

/// Sets (`bit`) or clears bit `index` of the number held in `v`, in place, growing `v` with zero
/// limbs only when a bit past its end is set.
fn limbs_change_bit(v: &mut Vec<u32>, index: u64, bit: bool)
    requires
        index / 32 < usize::MAX,
    ensures
        final(v)@.len() >= old(v)@.len(),
        limbs_val(final(v)@) == if bit {
            if bit_of(limbs_val(old(v)@) as int, index as nat) {
                limbs_val(old(v)@) as int
            } else {
                (limbs_val(old(v)@) + pow2(index as nat)) as int
            }
        } else {
            if bit_of(limbs_val(old(v)@) as int, index as nat) {
                limbs_val(old(v)@) - pow2(index as nat)
            } else {
                limbs_val(old(v)@) as int
            }
        },
{
    let ghost v0 = v@;
    let k = (index / 32) as usize;
    let b = (index % 32) as u32;
    proof {
        lemma_limbs_get_bit(v0, index as nat);
    }
    if k >= v.len() {
        if !bit {
            return;
        }
        v.resize(k + 1, 0);
        proof {
            assert(v@.take(v0.len() as int) =~= v0);
            lemma_limbs_val_zero_top(v@, v0.len() as int);
        }
    }
    let ghost s = v@;
    proof {
        lemma_limbs_get_bit(s, index as nat);
        assert(index == 32 * k + b);
    }
    let x = if bit {
        v[k] | (1u32 << b)
    } else {
        v[k] & !(1u32 << b)
    };
    v.set(k, x);
    proof {
        lemma_limb_bit_update(s, k as int, b, x, bit);
        assert(v@ == s.update(k as int, x));
    }
}

/// On limbs holding the magnitude `m > 0` of the negative integer `-m`, changes bit `index` of
/// `-m` to `bit` in place: subtracts one, changes bit `index` of `m - 1` to the opposite, and
/// adds the one back. Only the limbs that the borrow, the bit and the carry reach are touched.
pub(crate) fn limbs_neg_assign_bit(v: &mut Vec<u32>, index: u64, bit: bool)
    requires
        limbs_val(old(v)@) > 0,
        index / 32 < usize::MAX,
    ensures
        limbs_val(final(v)@) > 0,
        -(limbs_val(final(v)@) as int) == if bit == bit_of(-(limbs_val(old(v)@) as int), index as nat) {
            -(limbs_val(old(v)@) as int)
        } else if bit {
            -(limbs_val(old(v)@) as int) + pow2(index as nat)
        } else {
            -(limbs_val(old(v)@) as int) - pow2(index as nat)
        },
{
    let ghost m = limbs_val(v@);
    proof {
        if v@.len() == 0 {
            assert(limbs_val(v@) == 0);
        }
        lemma_bit_of_complement(m - 1, index as nat);
        lemma_pow2_pos(index as nat);
    }
    let borrow = crate::limbs::limbs_sub_limb_in_place(v.as_mut_slice(), 1);
    let ghost t = limbs_val(v@);
    proof {
        assert(!borrow);
        assert(t == m - 1);
    }
    limbs_change_bit(v, index, !bit);
    let ghost t2 = limbs_val(v@);
    proof {
        if !bit && bit_of(t as int, index as nat) {
            crate::integer::lemma_bit_set_at_least(t, index as nat);
        }
        if bit && bit_of(t as int, index as nat) {
            crate::integer::lemma_bit_set_at_least(t, index as nat);
        }
        assert(v@.len() > 0);
    }
    let carry = crate::limbs::limbs_add_limb_in_place(v.as_mut_slice(), 1);
    if carry {
        let ghost v3 = v@;
        v.push(1);
        proof {
            assert(v@.drop_last() =~= v3);
        }
    }
}

/// A number is divisible by `2^p` exactly when its bits below `p` are all clear.
pub proof fn lemma_low_bits_clear(v: nat, p: nat)
    ensures
        (v % pow2(p) == 0) <==> (forall|j: nat| j < p ==> !#[trigger] bit_of(v as int, j)),
    decreases p,
{
    if p == 0 {
        vstd::arithmetic::power2::lemma2_to64();
        assert(v % 1 == 0);
    } else {
        let q = (p - 1) as nat;
        lemma_low_bits_clear(v, q);
        lemma_pow2_pos(q);
        vstd::arithmetic::power2::lemma_pow2_unfold(p);
        vstd::arithmetic::div_mod::lemma_mod_breakdown(v as int, pow2(q) as int, 2);
        assert(pow2(q) * 2 == pow2(p));
        let lo = v as int % pow2(q) as int;
        let hi = (v as int / pow2(q) as int) % 2;
        assert(v % pow2(p) == pow2(q) * hi + lo);
        assert(pow2(q) * hi >= 0 && (hi != 0 ==> pow2(q) * hi > 0)) by (nonlinear_arith)
            requires
                pow2(q) > 0,
                0 <= hi,
        ;
        if v % pow2(p) == 0 {
            assert forall|j: nat| j < p implies !#[trigger] bit_of(v as int, j) by {
                if j < q {
                } else {
                    assert(j == q);
                }
            }
        }
        if forall|j: nat| j < p ==> !#[trigger] bit_of(v as int, j) {
            assert(!bit_of(v as int, q));
            assert(forall|j: nat| j < q ==> !#[trigger] bit_of(v as int, j));
        }
    }
}

/// In two's complement, `-x - 1` has every bit of `x` flipped.
pub proof fn lemma_bit_of_complement(x: int, i: nat)
    requires
        x >= 0,
    ensures
        bit_of(-x - 1, i) == !bit_of(x, i),
{
    let p = pow2(i) as int;
    lemma_pow2_pos(i);
    vstd::arithmetic::div_mod::lemma_fundamental_div_mod(x, p);
    let q = x / p;
    let r = x % p;
    assert(-x - 1 == (-q - 1) * p + (p - r - 1)) by (nonlinear_arith)
        requires
            x == p * q + r,
    ;
    vstd::arithmetic::div_mod::lemma_fundamental_div_mod_converse(-x - 1, p, -q - 1, p - r - 1);
    assert((-q - 1) % 2 == 1 - q % 2);
}

/// Setting bit `b` of limb `k` adds `2^(32k + b)` when the bit was clear, and clearing it
/// subtracts that when it was set.
proof fn lemma_limb_bit_update(s: Seq<u32>, k: int, b: u32, x: u32, set: bool)
    requires
        0 <= k < s.len(),
        b < 32,
        x == if set {
            s[k] | (1u32 << b)
        } else {
            s[k] & !(1u32 << b)
        },
    ensures
        limbs_val(s.update(k, x)) == if set {
            if limb_bit(s[k], b) {
                limbs_val(s) as int
            } else {
                (limbs_val(s) + pow2((32 * k + b) as nat)) as int
            }
        } else {
            if limb_bit(s[k], b) {
                limbs_val(s) - pow2((32 * k + b) as nat)
            } else {
                limbs_val(s) as int
            }
        },
{
    let y = s[k];
    crate::limbs::lemma_limbs_val_update(s, k, x);
    vstd::bits::lemma_u32_pow2_no_overflow(b as nat);
    vstd::bits::lemma_u32_shl_is_mul(1, b);
    assert(1 * pow2(b as nat) == pow2(b as nat));
    let m = 1u32 << b;
    assert(limb_bit(y, b) ==> y | m == y) by (bit_vector)
        requires
            m == 1u32 << b,
            b < 32,
    ;
    assert(!limb_bit(y, b) ==> y | m == y + m) by (bit_vector)
        requires
            m == 1u32 << b,
            b < 32,
    ;
    assert(limb_bit(y, b) ==> y & !m == y - m) by (bit_vector)
        requires
            m == 1u32 << b,
            b < 32,
    ;
    assert(!limb_bit(y, b) ==> y & !m == y) by (bit_vector)
        requires
            m == 1u32 << b,
            b < 32,
    ;
    lemma_pow_base_pow2(k as nat);
    lemma_pow2_adds(32 * k as nat, b as nat);
    let p = pow_base(k as nat);
    assert((y + m) * p == y * p + m * p) by (nonlinear_arith);
    assert((y - m) * p == y * p - m * p) by (nonlinear_arith);
    assert(m * p == p * m) by (nonlinear_arith);
}

impl Natural {
    /// Bit `index` of the value.
    pub fn get_bit(&self, index: u64) -> (r: bool)
        requires
            self.wf(),
        ensures
            r == bit_of(self@ as int, index as nat),
    {
        proof {
            lemma_limbs_get_bit(self.limbs(), index as nat);
        }
        let k = index / 32;
        let count = self.limb_count();
        if k >= count as u64 {
            return false;
        }
        let limb = match self {
            Natural::Small(x) => *x,
            Natural::Large(v) => v[k as usize],
        };
        (limb >> ((index % 32) as u32)) & 1 == 1
    }

    /// Changes bit `index` to `bit`: sets it when `bit`, clears it otherwise.
    fn change_bit(&mut self, index: u64, bit: bool)
        requires
            old(self).wf(),
            index / 32 < usize::MAX,
        ensures
            final(self).wf(),
            final(self)@ == if bit {
                if bit_of(old(self)@ as int, index as nat) {
                    old(self)@ as int
                } else {
                    (old(self)@ + pow2(index as nat)) as int
                }
            } else {
                if bit_of(old(self)@ as int, index as nat) {
                    old(self)@ - pow2(index as nat)
                } else {
                    old(self)@ as int
                }
            },
    {
        match self {
            Natural::Small(x) => {
                let mut v: Vec<u32> = Vec::new();
                v.push(*x);
                proof {
                    lemma_single_limb_val(*x);
                    assert(v@ =~= seq![*x]);
                }
                limbs_change_bit(&mut v, index, bit);
                *self = Natural::from_owned_limbs_asc(v);
            },
            Natural::Large(v) => {
                limbs_change_bit(v, index, bit);
                self.trim();
            },
        }
    }

    /// Restores canonical form after the limbs of a large value were changed in place: drops
    /// most-significant zero limbs, and makes a value that fits in one limb small.
    pub(crate) fn trim(&mut self)
        ensures
            final(self).wf(),
            final(self)@ == old(self)@,
    {
        let mut small: Option<u32> = None;
        match self {
            Natural::Small(_) => {},
            Natural::Large(v) => {
                let ghost s = v@;
                let mut len = v.len();
                while len > 0 && v[len - 1] == 0
                    invariant
                        v@ == s,
                        len <= s.len(),
                        forall|j: int| len <= j < s.len() ==> s[j] == 0,
                    decreases len,
                {
                    len -= 1;
                }
                proof {
                    lemma_trim_len(s, len as int);
                }
                v.truncate(len);
                proof {
                    assert(v@ =~= s.take(len as int));
                }
                if len == 0 {
                    small = Some(0);
                } else if len == 1 {
                    small = Some(v[0]);
                }
                proof {
                    if len == 0 {
                        lemma_single_limb_val(0);
                        assert(v@ =~= Seq::<u32>::empty());
                    } else if len == 1 {
                        lemma_single_limb_val(v@[0]);
                        assert(v@ =~= seq![v@[0]]);
                    }
                }
            },
        }
        match small {
            Some(x) => {
                proof {
                    lemma_single_limb_val(x);
                }
                *self = Natural::Small(x);
            },
            None => {},
        }
    }

    /// Sets bit `index`.
    pub fn set_bit(&mut self, index: u64)
        requires
            old(self).wf(),
            index / 32 < usize::MAX,
        ensures
            final(self).wf(),
            final(self)@ == if bit_of(old(self)@ as int, index as nat) {
                old(self)@ as int
            } else {
                (old(self)@ + pow2(index as nat)) as int
            },
    {
        self.change_bit(index, true)
    }

    /// Clears bit `index`.
    pub fn clear_bit(&mut self, index: u64)
        requires
            old(self).wf(),
            index / 32 < usize::MAX,
        ensures
            final(self).wf(),
            final(self)@ == if bit_of(old(self)@ as int, index as nat) {
                old(self)@ - pow2(index as nat)
            } else {
                old(self)@ as int
            },
    {
        self.change_bit(index, false)
    }

    /// The lowest index at or after `start` at which the value has a clear bit; there always is
    /// one.
    pub fn index_of_next_false_bit(&self, start: u64) -> (r: Option<u64>)
        requires
            self.wf(),
            self.limbs().len() * 32 <= u64::MAX,
        ensures
            r matches Some(t) && t >= start && !bit_of(self@ as int, t as nat) && forall|j: nat|
                start <= j < t ==> #[trigger] bit_of(self@ as int, j),
    {
        let v = self.to_limbs_asc();
        let t = limbs_index_of_next_false_bit(v.as_slice(), start);
        proof {
            lemma_limbs_get_bit(v@, t as nat);
            assert forall|j: nat| start <= j < t implies #[trigger] bit_of(self@ as int, j) by {
                lemma_limbs_get_bit(v@, j);
            }
        }
        Some(t)
    }

    /// The lowest index at or after `start` at which the value has a set bit, or `None` if no bit
    /// from `start` on is set.
    pub fn index_of_next_true_bit(&self, start: u64) -> (r: Option<u64>)
        requires
            self.wf(),
            self.limbs().len() * 32 <= u64::MAX,
        ensures
            r is None ==> forall|j: nat| start <= j ==> !#[trigger] bit_of(self@ as int, j),
            r matches Some(t) ==> t >= start && bit_of(self@ as int, t as nat) && forall|j: nat|
                start <= j < t ==> !#[trigger] bit_of(self@ as int, j),
    {
        let v = self.to_limbs_asc();
        let r = limbs_index_of_next_true_bit(v.as_slice(), start);
        proof {
            match r {
                Some(t) => {
                    lemma_limbs_get_bit(v@, t as nat);
                },
                None => {},
            }
            assert forall|j: nat| start <= j && (r is None || j < r->0) implies !#[trigger] bit_of(
                self@ as int,
                j,
            ) by {
                lemma_limbs_get_bit(v@, j);
            }
        }
        r
    }

    /// The number of trailing zero bits, or `None` for zero.
    pub fn trailing_zeros(&self) -> (r: Option<u64>)
        requires
            self.wf(),
            self.limbs().len() * 32 <= u64::MAX,
        ensures
            r is None <==> self@ == 0,
            r matches Some(t) ==> bit_of(self@ as int, t as nat) && forall|j: nat| j < t
                ==> !#[trigger] bit_of(self@ as int, j),
    {
        let r = self.index_of_next_true_bit(0);
        proof {
            if r is None {
                lemma_low_bits_clear(self@, self.limbs().len() * 32);
                lemma_limbs_val_bound(self.limbs());
                lemma_pow_base_pow2(self.limbs().len());
                vstd::arithmetic::div_mod::lemma_small_mod(self@, pow2(self.limbs().len() * 32));
            } else {
                if self@ == 0 {
                    let t = r->0;
                    lemma_pow2_pos(t as nat);
                    assert(0int / (pow2(t as nat) as int) == 0);
                }
            }
        }
        r
    }

    /// Whether the value is divisible by `2^pow`.
    pub fn divisible_by_power_of_2(&self, pow: u64) -> (r: bool)
        requires
            self.wf(),
            self.limbs().len() * 32 <= u64::MAX,
        ensures
            r == (self@ % pow2(pow as nat) == 0),
    {
        let tz = self.trailing_zeros();
        proof {
            lemma_low_bits_clear(self@, pow as nat);
            if self@ == 0 {
                lemma_pow2_pos(pow as nat);
                vstd::arithmetic::div_mod::lemma_small_mod(0, pow2(pow as nat));
            }
        }
        match tz {
            None => true,
            Some(t) => t >= pow,
        }
    }
}

/// Reading `n`'s bits one at a time, finds the lowest index at or after `start` at which the bit
/// is clear.
pub fn natural_index_of_next_false_bit_alt(n: &Natural, start: u64) -> (r: Option<u64>)
    requires
        n.wf(),
        n.limbs().len() * 32 <= u64::MAX,
    ensures
        r matches Some(t) && t >= start && !bit_of(n@ as int, t as nat) && forall|j: nat|
            start <= j < t ==> #[trigger] bit_of(n@ as int, j),
{
    let bound = (n.limb_count() as u64) * 32;
    let mut i = start;
    proof {
        lemma_limbs_val_bound(n.limbs());
        lemma_pow_base_pow2(n.limbs().len());
    }
    while n.get_bit(i)
        invariant
            n.wf(),
            i >= start,
            bound == n.limbs().len() * 32,
            limbs_val(n.limbs()) < pow2(bound as nat),
            forall|j: nat| start <= j < i ==> #[trigger] bit_of(n@ as int, j),
        decreases bound - i,
    {
        proof {
            if i >= bound {
                lemma_pow2_pos(i as nat);
                if i > bound {
                    vstd::arithmetic::power2::lemma_pow2_strictly_increases(bound as nat, i as nat);
                }
                assert(n@ as int / pow2(i as nat) as int == 0) by (nonlinear_arith)
                    requires
                        0 <= n@ < pow2(bound as nat) <= pow2(i as nat),
                ;
            }
        }
        i += 1;
    }
    Some(i)
}

/// Reading `n`'s bits one at a time, counts its trailing zero bits; `None` for zero.
pub fn natural_trailing_zeros_alt(n: &Natural) -> (r: Option<u64>)
    requires
        n.wf(),
        n.limbs().len() * 32 <= u64::MAX,
    ensures
        r is None <==> n@ == 0,
        r matches Some(t) ==> bit_of(n@ as int, t as nat) && forall|j: nat| j < t
            ==> !#[trigger] bit_of(n@ as int, j),
{
    if n.is_zero() {
        return None;
    }
    let bound = (n.limb_count() as u64) * 32;
    let mut i: u64 = 0;
    proof {
        lemma_limbs_val_bound(n.limbs());
        lemma_pow_base_pow2(n.limbs().len());
    }
    while !n.get_bit(i)
        invariant
            n.wf(),
            n@ != 0,
            bound == n.limbs().len() * 32,
            n@ < pow2(bound as nat),
            forall|j: nat| j < i ==> !#[trigger] bit_of(n@ as int, j),
        decreases bound - i,
    {
        proof {
            if i >= bound {
                lemma_low_bits_clear(n@, bound as nat);
                vstd::arithmetic::div_mod::lemma_small_mod(n@, pow2(bound as nat));
            }
        }
        i += 1;
    }
    Some(i)
}

/// The number of trailing zero bits of the number held in `xs`, which must not be zero.
pub fn limbs_trailing_zeros(xs: &[u32]) -> (r: u64)
    requires
        exists|k: int| 0 <= k < xs@.len() && xs@[k] != 0,
        xs@.len() * 32 <= u64::MAX,
    ensures
        limbs_get_bit(xs@, r as nat),
        forall|j: nat| j < r ==> !#[trigger] limbs_get_bit(xs@, j),
{
    let r = limbs_index_of_next_true_bit(xs, 0);
    match r {
        Some(t) => t,
        None => {
            proof {
                let k = choose|k: int| 0 <= k < xs@.len() && xs@[k] != 0;
                assert forall|b: u32| b < 32 implies !limb_bit(xs@[k], b) by {
                    assert(!limbs_get_bit(xs@, (32 * k + b) as nat));
                    assert((32 * k + b) / 32 == k);
                }
                crate::bit_scan::lemma_no_bits_set(xs@[k]);
            }
            0
        },
    }
}

/// How `a` compares with `b`.
pub open spec fn ordering_of(a: int, b: int) -> core::cmp::Ordering {
    if a < b {
        core::cmp::Ordering::Less
    } else if a == b {
        core::cmp::Ordering::Equal
    } else {
        core::cmp::Ordering::Greater
    }
}

impl Natural {
    /// Compares two values.
    pub fn compare(&self, other: &Natural) -> (r: core::cmp::Ordering)
        requires
            self.wf(),
            other.wf(),
        ensures
            r == ordering_of(self@ as int, other@ as int),
    {
        match self.sub(other) {
            Err(_) => core::cmp::Ordering::Less,
            Ok(d) => if d.is_zero() {
                core::cmp::Ordering::Equal
            } else {
                core::cmp::Ordering::Greater
            },
        }
    }

    /// Whether two values are equal.
    pub fn equals(&self, other: &Natural) -> (r: bool)
        requires
            self.wf(),
            other.wf(),
        ensures
            r == (self@ == other@),
    {
        match self.compare(other) {
            core::cmp::Ordering::Equal => true,
            _ => false,
        }
    }

    /// A copy of the value.
    pub fn copy(&self) -> (r: Natural)
        requires
            self.wf(),
        ensures
            r.wf(),
            r@ == self@,
    {
        proof {
            lemma_natural_limbs(self);
        }
        Natural::from_owned_limbs_asc(self.to_limbs_asc())
    }
}

impl Natural {
    /// `2^pow`.
    pub fn power_of_2(pow: u64) -> (r: Natural)
        requires
            pow / 32 < usize::MAX,
        ensures
            r.wf(),
            r@ == pow2(pow as nat),
    {
        let mut r = Natural::zero();
        proof {
            lemma_pow2_pos(pow as nat);
            assert(0int / (pow2(pow as nat) as int) == 0);
        }
        r.set_bit(pow);
        r
    }

    /// Whether the value is below `2^pow`, that is, already reduced modulo `2^pow`.
    pub fn mod_power_of_2_is_reduced(&self, pow: u64) -> (r: bool)
        requires
            self.wf(),
            pow / 32 < usize::MAX,
        ensures
            r == (self@ < pow2(pow as nat)),
    {
        match self.compare(&Natural::power_of_2(pow)) {
            core::cmp::Ordering::Less => true,
            _ => false,
        }
    }

    /// `(-self) mod 2^pow`, for a value already reduced modulo `2^pow`.
    pub fn mod_power_of_2_neg(&self, pow: u64) -> (r: Natural)
        requires
            self.wf(),
            self@ < pow2(pow as nat),
            pow / 32 < usize::MAX,
        ensures
            r.wf(),
            r@ == if self@ == 0 {
                0
            } else {
                pow2(pow as nat) - self@
            },
            r@ < pow2(pow as nat),
    {
        if self.is_zero() {
            proof {
                lemma_pow2_pos(pow as nat);
            }
            return Natural::zero();
        }
        match Natural::power_of_2(pow).sub(self) {
            Ok(d) => d,
            Err(_) => Natural::zero(),
        }
    }

    /// Replaces the value, already reduced modulo `2^pow`, by its negation modulo `2^pow`.
    pub fn mod_power_of_2_neg_assign(&mut self, pow: u64)
        requires
            old(self).wf(),
            old(self)@ < pow2(pow as nat),
            pow / 32 < usize::MAX,
        ensures
            final(self).wf(),
            final(self)@ == if old(self)@ == 0 {
                0
            } else {
                pow2(pow as nat) - old(self)@
            },
    {
        *self = self.mod_power_of_2_neg(pow);
    }

    /// `self - b * c`, or `None` when that is negative.
    pub fn checked_sub_mul(&self, b: &Natural, c: &Natural) -> (r: Option<Natural>)
        requires
            self.wf(),
            b.wf(),
            c.wf(),
        ensures
            r is None <==> b@ * c@ > self@,
            r matches Some(d) ==> d.wf() && d@ == self@ - b@ * c@,
    {
        self.checked_sub(&b.mul(c))
    }
}

impl Natural {
    /// Limb `i` of the canonical limbs, or zero past their end.
    pub fn get_limb(&self, i: usize) -> (r: u32)
        ensures
            r == if i < self.limbs().len() {
                self.limbs()[i as int]
            } else {
                0
            },
    {
        match self {
            Natural::Small(x) => if i == 0 {
                *x
            } else {
                0
            },
            Natural::Large(v) => if i < v.len() {
                v[i]
            } else {
                0
            },
        }
    }

    /// Whether the value is divisible by a limb; only zero is divisible by zero.
    pub fn divisible_by_limb(&self, d: u32) -> (r: bool)
        requires
            self.wf(),
        ensures
            r == if d == 0 {
                self@ == 0
            } else {
                self@ % (d as nat) == 0
            },
    {
        if d == 0 {
            self.is_zero()
        } else {
            self.rem_limb(d) == 0
        }
    }

    /// The remainder by a nonzero limb, one hardware division per limb.
    pub fn mod_limb_naive(&self, d: u32) -> (r: u32)
        requires
            self.wf(),
            d != 0,
        ensures
            r == self@ % (d as nat),
    {
        let v = self.to_limbs_asc();
        limbs_rem_naive(v.as_slice(), d)
    }
}

/// The remainder of a limb by a nonzero `Natural`.
pub fn limb_rem_natural(x: u32, n: &Natural) -> (r: u32)
    requires
        n.wf(),
        n@ != 0,
    ensures
        r == (x as nat) % n@,
{
    proof {
        lemma_natural_limbs(n);
    }
    match n {
        Natural::Small(small) => {
            proof {
                lemma_single_limb_val(*small);
            }
            x % *small
        },
        Natural::Large(_) => {
            proof {
                vstd::arithmetic::div_mod::lemma_small_mod(x as nat, n@);
            }
            x
        },
    }
}

/// `(-x) mod n` for a limb `x` and a nonzero `Natural` `n`: the least `r` with `x + r`
/// divisible by `n`.
pub fn limb_neg_mod_natural(x: u32, n: &Natural) -> (r: Natural)
    requires
        n.wf(),
        n@ != 0,
    ensures
        r.wf(),
        r@ < n@,
        (x + r@) as nat % n@ == 0,
{
    let rem = limb_rem_natural(x, n);
    if rem == 0 {
        proof {
            lemma_single_limb_val(0);
            vstd::arithmetic::div_mod::lemma_mod_twice(x as int, n@ as int);
        }
        Natural::zero()
    } else {
        match n.sub_limb(rem) {
            Ok(d) => {
                proof {
                    vstd::arithmetic::div_mod::lemma_fundamental_div_mod(x as int, n@ as int);
                    let q = x as int / n@ as int;
                    assert(x + (n@ - rem) == (q + 1) * n@) by (nonlinear_arith)
                        requires
                            x as int == n@ * q + rem,
                    ;
                    vstd::arithmetic::div_mod::lemma_mod_multiples_basic(q + 1, n@ as int);
                }
                d
            },
            Err(_) => Natural::zero(),
        }
    }
}

/// The remainder of the number held in `xs` by a nonzero limb, folding in one limb at a time
/// from the most significant with one hardware division each.
pub fn limbs_rem_naive(xs: &[u32], d: u32) -> (r: u32)
    requires
        d != 0,
    ensures
        r == limbs_val(xs@) % (d as nat),
{
    let mut rem: u64 = 0;
    let mut i = xs.len();
    let ghost dd = d as int;
    proof {
        assert(xs@.skip(i as int).len() == 0);
        assert(limbs_val(xs@.skip(i as int)) == 0);
        vstd::arithmetic::div_mod::lemma_small_mod(0, d as nat);
    }
    while i > 0
        invariant
            i <= xs@.len(),
            d != 0,
            dd == d,
            rem < d,
            rem == limbs_val(xs@.skip(i as int)) % (d as nat),
        decreases i,
    {
        i -= 1;
        let cur: u64 = rem * 0x1_0000_0000 + xs[i] as u64;
        assert(cur < 0x1_0000_0000 * (d as u64)) by (nonlinear_arith)
            requires
                cur == rem * 0x1_0000_0000 + xs@[i as int],
                rem < d,
                xs@[i as int] < 0x1_0000_0000,
        ;
        let next = cur % d as u64;
        proof {
            let sa = xs@.skip(i as int);
            lemma_limbs_val_split(sa, 1);
            assert(sa.skip(1) =~= xs@.skip(i + 1));
            assert(sa.take(1) =~= seq![xs@[i as int]]);
            lemma_single_limb_val(xs@[i as int]);
            assert(pow_base(1) == limb_base() * pow_base(0));
            let t = limbs_val(xs@.skip(i + 1)) as int;
            // (x + B * t) % d == (x + B * (t % d)) % d
            vstd::arithmetic::div_mod::lemma_mul_mod_noop_right(limb_base() as int, t, dd);
            vstd::arithmetic::div_mod::lemma_add_mod_noop_right(
                xs@[i as int] as int,
                limb_base() * t,
                dd,
            );
            vstd::arithmetic::div_mod::lemma_add_mod_noop_right(
                xs@[i as int] as int,
                limb_base() * (t % dd),
                dd,
            );
            assert(cur == xs@[i as int] + limb_base() * (t % dd));
        }
        rem = next;
    }
    proof {
        assert(xs@.skip(0) =~= xs@);
    }
    rem as u32
}

impl Natural {
    /// Adds one in place. A small value that does not overflow its limb, and a large value
    /// whose carry stops inside its limbs, change in place; otherwise a limb is appended, which
    /// the vector's geometric growth keeps cheap over repeated increments.
    pub fn increment(&mut self)
        requires
            old(self).wf(),
        ensures
            final(self).wf(),
            final(self)@ == old(self)@ + 1,
    {
        proof {
            lemma_natural_limbs(self);
        }
        match self {
            Natural::Small(x) => {
                let y = *x;
                proof {
                    lemma_single_limb_val(y);
                    assert(pow_base(0) == 1);
                    assert(pow_base(1) == limb_base() * pow_base(0));
                }
                if y < u32::MAX {
                    proof {
                        lemma_single_limb_val((y + 1) as u32);
                    }
                    *self = Natural::Small(y + 1);
                } else {
                    let mut v: Vec<u32> = Vec::new();
                    v.push(0);
                    v.push(1);
                    proof {
                        assert(v@.drop_last() =~= seq![0u32]);
                        lemma_single_limb_val(0);
                        assert(limbs_val(v@) == limbs_val(seq![0u32]) + 1 * pow_base(1));
                    }
                    *self = Natural::Large(v);
                }
            },
            Natural::Large(v) => {
                let ghost s = v@;
                let carry = crate::limbs::limbs_add_limb_in_place(v.as_mut_slice(), 1);
                if carry {
                    proof {
                        lemma_limbs_val_bound(s);
                        lemma_pow_base_pos(s.len());
                    }
                    let ghost t = v@;
                    v.push(1);
                    proof {
                        assert(v@.drop_last() =~= t);
                        assert(limbs_val(t) == 0);
                    }
                } else {
                    proof {
                        lemma_trimmed_large(s);
                        assert(v@.len() == s.len());
                        if v@.last() == 0 {
                            lemma_limbs_val_zero_top(v@, s.len() - 1);
                            lemma_limbs_val_bound(v@.take(s.len() - 1));
                            lemma_trimmed_large_pow(s);
                            assert(limbs_val(s) + 1 <= pow_base((s.len() - 1) as nat));
                        }
                    }
                }
            },
        }
    }
}

/// Whether two limb sequences are equal, limb by limb.
pub fn limbs_equal(xs: &[u32], ys: &[u32]) -> (r: bool)
    ensures
        r == (xs@ == ys@),
{
    if xs.len() != ys.len() {
        return false;
    }
    let mut i: usize = 0;
    while i < xs.len()
        invariant
            xs@.len() == ys@.len(),
            i <= xs@.len(),
            forall|j: int| 0 <= j < i ==> xs@[j] == ys@[j],
        decreases xs@.len() - i,
    {
        if xs[i] != ys[i] {
            return false;
        }
        i += 1;
    }
    assert(xs@ =~= ys@);
    true
}

impl PartialEq for Natural {
    fn eq(&self, other: &Natural) -> (r: bool) {
        let a = self.to_limbs_asc();
        let b = other.to_limbs_asc();
        limbs_equal(a.as_slice(), b.as_slice())
    }
}

impl vstd::std_specs::cmp::PartialEqSpecImpl for Natural {
    open spec fn obeys_eq_spec() -> bool {
        true
    }

    open spec fn eq_spec(&self, other: &Natural) -> bool {
        self.limbs() == other.limbs()
    }
}

/// A trimmed nonempty sequence holds at least `pow_base(len - 1)`.
proof fn lemma_trimmed_large_pow(s: Seq<u32>)
    requires
        s.len() >= 1,
        s.last() != 0,
    ensures
        limbs_val(s) >= pow_base((s.len() - 1) as nat),
{
    let n = (s.len() - 1) as nat;
    assert(s.last() as nat * pow_base(n) >= pow_base(n)) by (nonlinear_arith)
        requires
            s.last() >= 1,
    ;
}

/// Putting a zero limb below the others multiplies by the limb base.
proof fn lemma_shift_one_limb(s: Seq<u32>)
    ensures
        limbs_val(seq![0u32] + s) == limb_base() * limbs_val(s),
{
    let t = seq![0u32] + s;
    lemma_limbs_val_split(t, 1);
    assert(t.skip(1) =~= s);
    assert(t.take(1) =~= seq![0u32]);
    lemma_single_limb_val(0);
    assert(pow_base(1) == limb_base() * pow_base(0));
    assert(pow_base(0) == 1);
}

} // verus!
