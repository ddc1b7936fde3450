//! Lazy, double-ended iteration over the two's-complement limbs of an `Integer`, computed from
//! the magnitude's limbs one at a time.
use crate::integer::{is_twos_complement_limbs_of, Integer};
use crate::limbs::{lemma_limbs_val_take_next, limb_base, limbs_val, pow_base};
use crate::natural::{lemma_natural_limbs, Natural};
use crate::twos_complement::top_bit;
use vstd::prelude::*;

verus! {

/// The index of the first nonzero limb of `s` at or after `k`, or `s.len()` if there is none.
pub open spec fn first_nonzero_from(s: Seq<u32>, k: int) -> int
    decreases s.len() - k,
{
    if k >= s.len() {
        s.len() as int
    } else if s[k] != 0 {
        k
    } else {
        first_nonzero_from(s, k + 1)
    }
}

/// Limb `k` of the two's-complement limbs of the magnitude `s`, negated when `negative`: below
/// the first nonzero limb zero, at it the limb negated, above it the limb complemented.
pub open spec fn twos_limb(s: Seq<u32>, negative: bool, k: int) -> u32 {
    if !negative {
        s[k]
    } else {
        let f = first_nonzero_from(s, 0);
        if k < f {
            0
        } else if k == f {
            (limb_base() - s[k]) as u32
        } else {
            !s[k]
        }
    }
}

/// Whether a sign-extension limb follows the converted limbs.
pub open spec fn needs_extension(s: Seq<u32>, negative: bool) -> bool {
    if !negative {
        s.len() > 0 && top_bit(s.last())
    } else {
        s.len() > 0 && !top_bit(twos_limb(s, true, s.len() - 1))
    }
}

/// The sign-extension limb: all zeros for a non-negative value, all ones for a negative one.
pub open spec fn extension_limb(negative: bool) -> u32 {
    if negative {
        u32::MAX
    } else {
        0
    }
}

/// The full two's-complement limb sequence of the magnitude `s`, negated when `negative`.
pub open spec fn twos_limbs(s: Seq<u32>, negative: bool) -> Seq<u32> {
    Seq::new(s.len(), |k: int| twos_limb(s, negative, k)) + if needs_extension(s, negative) {
        seq![extension_limb(negative)]
    } else {
        Seq::<u32>::empty()
    }
}

/// `first_nonzero_from` finds the first nonzero limb at or after `k`.
proof fn lemma_first_nonzero(s: Seq<u32>, k: int)
    requires
        0 <= k <= s.len(),
    ensures
        k <= first_nonzero_from(s, k) <= s.len(),
        first_nonzero_from(s, k) < s.len() ==> s[first_nonzero_from(s, k)] != 0,
        forall|j: int| k <= j < first_nonzero_from(s, k) ==> s[j] == 0,
    decreases s.len() - k,
{
    if k < s.len() && s[k] == 0 {
        lemma_first_nonzero(s, k + 1);
    }
}

/// The negated limbs of a nonzero magnitude hold `B^n` minus the magnitude.
proof fn lemma_negated_limbs_val(s: Seq<u32>)
    requires
        limbs_val(s) != 0,
    ensures
        first_nonzero_from(s, 0) < s.len(),
        limbs_val(Seq::new(s.len(), |k: int| twos_limb(s, true, k))) + limbs_val(s) == pow_base(
            s.len(),
        ),
{
    let n = s.len() as int;
    let f = first_nonzero_from(s, 0);
    let t = Seq::new(s.len(), |k: int| twos_limb(s, true, k));
    lemma_first_nonzero(s, 0);
    if f >= n {
        assert forall|j: int| 0 <= j < n implies s[j] == 0 by {}
        crate::limbs::lemma_limbs_val_zero_top(s, 0);
        assert(s.take(0).len() == 0);
    }
    lemma_negated_prefix(s, n);
    assert(t.take(n) =~= t);
    assert(s.take(n) =~= s);
}

/// The negated limbs and the magnitude's limbs sum, over their low `i` limbs, to zero up to
/// the first nonzero limb and to `pow_base(i)` after it.
proof fn lemma_negated_prefix(s: Seq<u32>, i: int)
    requires
        0 <= i <= s.len(),
        first_nonzero_from(s, 0) < s.len(),
    ensures
        ({
            let t = Seq::new(s.len(), |k: int| twos_limb(s, true, k));
            limbs_val(t.take(i)) + limbs_val(s.take(i)) == if i <= first_nonzero_from(s, 0) {
                0
            } else {
                pow_base(i as nat)
            }
        }),
    decreases i,
{
    let t = Seq::new(s.len(), |k: int| twos_limb(s, true, k));
    let f = first_nonzero_from(s, 0);
    lemma_first_nonzero(s, 0);
    if i == 0 {
        assert(limbs_val(t.take(0)) == 0 && limbs_val(s.take(0)) == 0);
    } else {
        let h = i - 1;
        lemma_negated_prefix(s, h);
        lemma_limbs_val_take_next(t, h);
        lemma_limbs_val_take_next(s, h);
        let p = pow_base(h as nat);
        assert(pow_base(i as nat) == limb_base() * p);
        if h < f {
            assert(s[h] == 0 && t[h] == 0);
        } else if h == f {
            assert(t[h] + s[h] == limb_base());
            assert(t[h] * p + s[h] * p == limb_base() * p) by (nonlinear_arith)
                requires
                    t[h] + s[h] == limb_base(),
            ;
        } else {
            let x = s[h];
            assert(!x == 0xffff_ffff - x) by (bit_vector);
            assert(t[h] + s[h] == limb_base() - 1);
            assert(t[h] * p + s[h] * p == limb_base() * p - p) by (nonlinear_arith)
                requires
                    t[h] + s[h] == limb_base() - 1,
            ;
        }
    }
}

/// The limbs produced one at a time are the two's-complement limbs of the value.
pub proof fn lemma_twos_limbs_of(x: &Integer)
    requires
        x.wf(),
    ensures
        is_twos_complement_limbs_of(twos_limbs(x.abs.limbs(), !x.sign), x),
{
    let s = x.abs.limbs();
    let neg = !x.sign;
    let full = twos_limbs(s, neg);
    let body = Seq::new(s.len(), |k: int| twos_limb(s, neg, k));
    lemma_natural_limbs(&x.abs);
    crate::limbs::lemma_limbs_val_bound(s);
    let n = s.len() as int;
    if !neg {
        assert(body =~= s);
        if needs_extension(s, neg) {
            assert(full.drop_last() =~= s);
            assert(pow_base(s.len()) * 0 == 0);
        } else {
            assert(full =~= s);
        }
        assert(full =~= s + if s.len() > 0 && top_bit(s.last()) {
            seq![0u32]
        } else {
            Seq::<u32>::empty()
        });
    } else {
        lemma_negated_limbs_val(s);
        assert(full.take(n) =~= body);
        crate::limbs::lemma_limbs_val_bound(body);
        if needs_extension(s, neg) {
            assert(full.drop_last() =~= body);
            assert(pow_base((n + 1) as nat) == limb_base() * pow_base(n as nat));
            assert(limbs_val(full) == limbs_val(body) + 0xffff_ffff * pow_base(n as nat));
        } else {
            assert(full =~= body);
        }
    }
}

/// A double-ended iterator over the two's-complement limbs of an `Integer`, ascending from the
/// front. Each limb is computed when it is asked for; the first nonzero limb of a negative
/// value's magnitude is found along the way from the front, or by one scan from the start when
/// the back is asked for first. The sign-extension limb is decided when first needed.
pub struct TwosComplementLimbIterator<'a> {
    n: &'a Natural,
    len: usize,
    negative: bool,
    front: usize,
    back: usize,
    extension_checked: bool,
    first_nonzero_index: Option<usize>,
}

impl<'a> TwosComplementLimbIterator<'a> {
    /// The magnitude's limbs.
    pub closed spec fn magnitude(&self) -> Seq<u32> {
        self.n.limbs()
    }

    /// Whether the value is negative.
    pub closed spec fn is_negative(&self) -> bool {
        self.negative
    }

    /// The limbs not yet produced from either end.
    pub closed spec fn remaining(&self) -> Seq<u32> {
        Seq::new(
            (self.back - self.front) as nat,
            |k: int| twos_limb(self.n.limbs(), self.negative, self.front + k),
        ) + if !self.extension_checked && needs_extension(self.n.limbs(), self.negative) {
            seq![extension_limb(self.negative)]
        } else {
            Seq::<u32>::empty()
        }
    }

    /// The internal state is consistent.
    pub closed spec fn wf(&self) -> bool {
        &&& self.len == self.n.limbs().len()
        &&& self.n.wf()
        &&& self.front <= self.back <= self.n.limbs().len()
        &&& (self.negative ==> limbs_val(self.n.limbs()) != 0)
        &&& match self.first_nonzero_index {
            Some(f) => f == first_nonzero_from(self.n.limbs(), 0),
            None => self.negative ==> forall|j: int| 0 <= j < self.front ==> self.n.limbs()[j] == 0,
        }
    }

    /// Limb `k` of the magnitude.
    fn limb(&self, k: usize) -> (r: u32)
        requires
            self.wf(),
            k < self.n.limbs().len(),
        ensures
            r == self.n.limbs()[k as int],
    {
        match self.n {
            Natural::Small(x) => *x,
            Natural::Large(v) => v[k],
        }
    }

    /// Limb `k` of the converted limbs, finding the first nonzero limb first where needed.
    fn limb_at(&mut self, k: usize) -> (r: u32)
        requires
            old(self).wf(),
            k < old(self).n.limbs().len(),
            old(self).negative && old(self).first_nonzero_index is None ==> k == old(self).front,
        ensures
            final(self).wf(),
            final(self).n == old(self).n && final(self).len == old(self).len,
            final(self).negative == old(self).negative,
            final(self).front == old(self).front,
            final(self).back == old(self).back,
            final(self).extension_checked == old(self).extension_checked,
            r == twos_limb(old(self).n.limbs(), old(self).negative, k as int),
            final(self).first_nonzero_index is None ==> old(self).first_nonzero_index is None && (
            old(self).negative ==> old(self).n.limbs()[k as int] == 0),
    {
        let x = self.limb(k);
        if !self.negative {
            return x;
        }
        proof {
            lemma_first_nonzero(self.n.limbs(), 0);
            if first_nonzero_from(self.n.limbs(), 0) >= self.n.limbs().len() {
                lemma_negated_limbs_val(self.n.limbs());
            }
        }
        match self.first_nonzero_index {
            Some(f) => {
                if k < f {
                    0
                } else if k == f {
                    0u32.wrapping_sub(x)
                } else {
                    !x
                }
            },
            None => {
                // every limb before `k` is zero
                if x != 0 {
                    self.first_nonzero_index = Some(k);
                    proof {
                        assert(first_nonzero_from(self.n.limbs(), 0) == k) by {
                            lemma_first_nonzero_is(self.n.limbs(), k as int);
                        }
                    }
                    0u32.wrapping_sub(x)
                } else {
                    proof {
                        lemma_first_nonzero(self.n.limbs(), 0);
                        assert(first_nonzero_from(self.n.limbs(), 0) > k) by {
                            lemma_first_nonzero_after(self.n.limbs(), k as int);
                        }
                    }
                    0
                }
            },
        }
    }

    /// Finds the first nonzero limb of the magnitude, if not yet known.
    fn find_first_nonzero(&mut self)
        requires
            old(self).wf(),
            old(self).negative,
        ensures
            final(self).wf(),
            final(self).n == old(self).n && final(self).len == old(self).len,
            final(self).negative == old(self).negative,
            final(self).front == old(self).front,
            final(self).back == old(self).back,
            final(self).extension_checked == old(self).extension_checked,
            final(self).first_nonzero_index is Some,
    {
        if self.first_nonzero_index.is_none() {
            let mut i: usize = 0;
            proof {
                lemma_first_nonzero(self.n.limbs(), 0);
                if first_nonzero_from(self.n.limbs(), 0) >= self.n.limbs().len() {
                    lemma_negated_limbs_val(self.n.limbs());
                }
            }
            while self.limb(i) == 0
                invariant
                    self.wf(),
                    i <= first_nonzero_from(self.n.limbs(), 0) < self.n.limbs().len(),
                    forall|j: int| 0 <= j < first_nonzero_from(self.n.limbs(), 0) ==> self.n.limbs()[j]
                        == 0,
                    self.n.limbs()[first_nonzero_from(self.n.limbs(), 0)] != 0,
                decreases first_nonzero_from(self.n.limbs(), 0) - i,
            {
                i += 1;
            }
            self.first_nonzero_index = Some(i);
        }
    }

    /// Whether a sign-extension limb follows the converted limbs.
    fn needs_sign_extension(&mut self) -> (r: bool)
        requires
            old(self).wf(),
        ensures
            final(self).wf(),
            final(self).n == old(self).n && final(self).len == old(self).len,
            final(self).negative == old(self).negative,
            final(self).front == old(self).front,
            final(self).back == old(self).back,
            final(self).extension_checked == old(self).extension_checked,
            r == needs_extension(old(self).n.limbs(), old(self).negative),
    {
        let n = self.len;
        if n == 0 {
            return false;
        }
        if !self.negative {
            return self.limb(n - 1) >= 0x8000_0000;
        }
        self.find_first_nonzero();
        let top = self.limb_at(n - 1);
        top < 0x8000_0000
    }

    /// The next limb from the front, ascending.
    pub fn next(&mut self) -> (r: Option<u32>)
        requires
            old(self).wf(),
        ensures
            final(self).wf(),
            final(self).magnitude() == old(self).magnitude(),
            final(self).is_negative() == old(self).is_negative(),
            old(self).remaining().len() == 0 ==> r is None && final(self).remaining().len() == 0,
            old(self).remaining().len() > 0 ==> r == Some(old(self).remaining()[0])
                && final(self).remaining() == old(self).remaining().skip(1),
    {
        let ghost rem = self.remaining();
        if self.front < self.back {
            let k = self.front;
            let x = self.limb_at(k);
            self.front = self.front + 1;
            proof {
                assert(self.remaining() =~= rem.skip(1));
            }
            Some(x)
        } else if !self.extension_checked {
            let ext = self.needs_sign_extension();
            self.extension_checked = true;
            proof {
                assert(self.remaining() =~= rem.skip(1) || rem.len() == 0);
                if rem.len() > 0 {
                    assert(self.remaining() =~= rem.skip(1));
                } else {
                    assert(self.remaining() =~= Seq::<u32>::empty());
                }
            }
            if ext {
                Some(if self.negative {
                    u32::MAX
                } else {
                    0
                })
            } else {
                None
            }
        } else {
            proof {
                assert(rem.len() == 0);
            }
            None
        }
    }

    /// The next limb from the back, descending.
    pub fn next_back(&mut self) -> (r: Option<u32>)
        requires
            old(self).wf(),
        ensures
            final(self).wf(),
            final(self).magnitude() == old(self).magnitude(),
            final(self).is_negative() == old(self).is_negative(),
            old(self).remaining().len() == 0 ==> r is None && final(self).remaining().len() == 0,
            old(self).remaining().len() > 0 ==> r == Some(old(self).remaining().last())
                && final(self).remaining() == old(self).remaining().drop_last(),
    {
        let ghost rem = self.remaining();
        if !self.extension_checked {
            let ext = self.needs_sign_extension();
            self.extension_checked = true;
            if ext {
                proof {
                    assert(self.remaining() =~= rem.drop_last());
                }
                return Some(
                    if self.negative {
                        u32::MAX
                    } else {
                        0
                    },
                );
            }
        }
        let ghost rem2 = self.remaining();
        proof {
            assert(rem2 =~= rem);
        }
        if self.front < self.back {
            if self.negative {
                self.find_first_nonzero();
            }
            self.back = self.back - 1;
            let k = self.back;
            let x = self.limb_at(k);
            proof {
                assert(self.remaining() =~= rem.drop_last());
            }
            Some(x)
        } else {
            None
        }
    }
}

/// A nonzero limb with only zeros before it is the first nonzero limb.
proof fn lemma_first_nonzero_is(s: Seq<u32>, k: int)
    requires
        0 <= k < s.len(),
        s[k] != 0,
        forall|j: int| 0 <= j < k ==> s[j] == 0,
    ensures
        first_nonzero_from(s, 0) == k,
{
    lemma_first_nonzero_step(s, 0, k);
}

/// A nonzero limb with only zeros between `i` and it is the first nonzero limb from `i`.
proof fn lemma_first_nonzero_step(s: Seq<u32>, i: int, k: int)
    requires
        0 <= i <= k < s.len(),
        s[k] != 0,
        forall|j: int| i <= j < k ==> s[j] == 0,
    ensures
        first_nonzero_from(s, i) == k,
    decreases k - i,
{
    if i < k {
        lemma_first_nonzero_step(s, i + 1, k);
    }
}

/// A zero limb with only zeros before it lies before the first nonzero limb.
proof fn lemma_first_nonzero_after(s: Seq<u32>, k: int)
    requires
        0 <= k < s.len(),
        s[k] == 0,
        forall|j: int| 0 <= j < k ==> s[j] == 0,
    ensures
        first_nonzero_from(s, 0) > k,
{
    lemma_first_nonzero(s, 0);
    if first_nonzero_from(s, 0) <= k {
        let f = first_nonzero_from(s, 0);
        if f < s.len() {
            assert(s[f] != 0);
        }
    }
}

impl Integer {
    /// A double-ended iterator over the two's-complement limbs, ascending from the front.
    pub fn twos_complement_limbs(&self) -> (r: TwosComplementLimbIterator<'_>)
        requires
            self.wf(),
        ensures
            r.wf(),
            r.remaining() == twos_limbs(self.abs.limbs(), !self.sign),
            is_twos_complement_limbs_of(r.remaining(), self),
    {
        let len = self.abs.limb_count();
        proof {
            lemma_twos_limbs_of(self);
            lemma_natural_limbs(&self.abs);
        }
        let r = TwosComplementLimbIterator {
            n: &self.abs,
            len,
            negative: !self.sign,
            front: 0,
            back: len,
            extension_checked: false,
            first_nonzero_index: None,
        };
        proof {
            assert(r.remaining() =~= twos_limbs(self.abs.limbs(), !self.sign));
        }
        r
    }
}

} // verus!
