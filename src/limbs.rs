//! The value of a limb sequence, and carry/borrow propagation of a single limb.
use vstd::prelude::*;

verus! {

/// The number of values a limb can take.
pub open spec fn limb_base() -> nat {
    0x1_0000_0000
}

/// `limb_base()` raised to the `n`th power.
pub open spec fn pow_base(n: nat) -> nat
    decreases n,
{
    if n == 0 {
        1
    } else {
        limb_base() * pow_base((n - 1) as nat)
    }
}

/// The number that an ascending limb sequence stands for.
pub open spec fn limbs_val(s: Seq<u32>) -> nat
    decreases s.len(),
{
    if s.len() == 0 {
        0
    } else {
        limbs_val(s.drop_last()) + s.last() as nat * pow_base((s.len() - 1) as nat)
    }
}


/// `pow_base` is positive.
pub proof fn lemma_pow_base_pos(n: nat)
    ensures
        pow_base(n) > 0,
    decreases n,
{
    if n > 0 {
        lemma_pow_base_pos((n - 1) as nat);
    }
}

/// Powers of the base multiply by adding exponents.
pub proof fn lemma_pow_base_add(a: nat, b: nat)
    ensures
        pow_base(a + b) == pow_base(a) * pow_base(b),
    decreases a,
{
    if a > 0 {
        let c = (a - 1) as nat;
        lemma_pow_base_add(c, b);
        assert(pow_base(a + b) == limb_base() * pow_base(c + b));
        assert(pow_base(a) == limb_base() * pow_base(c));
        assert(limb_base() * (pow_base(c) * pow_base(b)) == (limb_base() * pow_base(c))
            * pow_base(b)) by (nonlinear_arith);
    } else {
        assert(pow_base(0) == 1);
        assert(a + b == b);
    }
}

/// Powers of the base grow with the exponent.
pub proof fn lemma_pow_base_mono(a: nat, b: nat)
    requires
        a <= b,
    ensures
        pow_base(a) <= pow_base(b),
{
    lemma_pow_base_add(a, (b - a) as nat);
    lemma_pow_base_pos(a);
    lemma_pow_base_pos((b - a) as nat);
    assert(pow_base(a) * pow_base((b - a) as nat) >= pow_base(a)) by (nonlinear_arith)
        requires
            pow_base((b - a) as nat) >= 1,
    ;
}

/// A sequence of `n` limbs holds a number below `pow_base(n)`.
pub proof fn lemma_limbs_val_bound(s: Seq<u32>)
    ensures
        limbs_val(s) < pow_base(s.len()),
    decreases s.len(),
{
    if s.len() > 0 {
        let n = (s.len() - 1) as nat;
        lemma_limbs_val_bound(s.drop_last());
        let p = pow_base(n);
        let v = limbs_val(s.drop_last());
        let l = s.last() as nat;
        assert(v + l * p < limb_base() * p) by (nonlinear_arith)
            requires
                v < p,
                l < limb_base(),
        ;
    }
}

/// Taking one more limb adds that limb at its weight.
pub proof fn lemma_limbs_val_take_next(s: Seq<u32>, i: int)
    requires
        0 <= i < s.len(),
    ensures
        limbs_val(s.take(i + 1)) == limbs_val(s.take(i)) + s[i] as nat * pow_base(i as nat),
{
    assert(s.take(i + 1).drop_last() =~= s.take(i));
}

/// A limb sequence splits into its low `i` limbs and the rest, weighted by `pow_base(i)`.
pub proof fn lemma_limbs_val_split(s: Seq<u32>, i: int)
    requires
        0 <= i <= s.len(),
    ensures
        limbs_val(s) == limbs_val(s.take(i)) + pow_base(i as nat) * limbs_val(s.skip(i)),
    decreases s.len(),
{
    if i == s.len() {
        assert(s.take(i) =~= s);
        assert(s.skip(i).len() == 0);
        assert(limbs_val(s.skip(i)) == 0);
        assert(pow_base(i as nat) * 0 == 0);
    } else {
        let d = s.drop_last();
        let n = (s.len() - 1) as nat;
        lemma_limbs_val_split(d, i);
        assert(d.take(i) =~= s.take(i));
        assert(d.skip(i) =~= s.skip(i).drop_last());
        assert(s.skip(i).last() == s.last());
        let m = (n - i) as nat;
        lemma_pow_base_add(i as nat, m);
        assert(i as nat + m == n);
        let a = limbs_val(d.skip(i));
        let l = s.last() as nat;
        let pi = pow_base(i as nat);
        let pr = pow_base(m);
        assert(limbs_val(s.skip(i)) == a + l * pr);
        assert(limbs_val(s) == limbs_val(d) + l * pow_base(n));
        assert(pi * (a + l * pr) == pi * a + l * (pi * pr)) by (nonlinear_arith);
        assert(pow_base(n) == pi * pr);
        assert(limbs_val(d) == limbs_val(s.take(i)) + pi * a);
        assert(limbs_val(s) == limbs_val(s.take(i)) + pi * a + l * (pi * pr));
    }
}

/// Replacing the limb at `i` changes the number by the difference at that limb's weight.
pub proof fn lemma_limbs_val_update(s: Seq<u32>, i: int, v: u32)
    requires
        0 <= i < s.len(),
    ensures
        limbs_val(s.update(i, v)) + s[i] as nat * pow_base(i as nat) == limbs_val(s) + v as nat
            * pow_base(i as nat),
    decreases s.len(),
{
    let t = s.update(i, v);
    if i == s.len() - 1 {
        assert(t.drop_last() =~= s.drop_last());
    } else {
        lemma_limbs_val_update(s.drop_last(), i, v);
        assert(t.drop_last() =~= s.drop_last().update(i, v));
    }
}

/// Limbs past the end that are all zero do not change the number.
pub proof fn lemma_limbs_val_zero_top(s: Seq<u32>, i: int)
    requires
        0 <= i <= s.len(),
        forall|j: int| i <= j < s.len() ==> s[j] == 0,
    ensures
        limbs_val(s) == limbs_val(s.take(i)),
    decreases s.len(),
{
    if i < s.len() {
        lemma_limbs_val_zero_top(s.drop_last(), i);
        assert(s.drop_last().take(i) =~= s.take(i));
    } else {
        assert(s.take(i) =~= s);
    }
}

/// Subtracts `limb` from the number held in the low `len` limbs of `xs`, leaving the other limbs
/// alone.
fn sub_limb_in_prefix(xs: &mut [u32], len: usize, limb: u32) -> (borrow: bool)
    requires
        len <= old(xs)@.len(),
    ensures
        final(xs)@.len() == old(xs)@.len(),
        final(xs)@.skip(len as int) == old(xs)@.skip(len as int),
        borrow == (limb > limbs_val(old(xs)@.take(len as int))),
        !borrow ==> limbs_val(final(xs)@.take(len as int)) == limbs_val(old(xs)@.take(len as int))
            - limb,
        borrow && len > 0 ==> limbs_val(final(xs)@.take(len as int)) == limbs_val(
            old(xs)@.take(len as int),
        ) + pow_base(len as nat) - limb,
{
    let ghost s0 = xs@;
    let ghost t0 = xs@.take(len as int);
    assert(t0.len() == len);
    assert(forall|j: int| 0 <= j < len ==> t0[j] == s0[j]);
    let mut i: usize = 0;
    let mut y: u32 = limb;
    let mut borrow = true;
    proof {
        assert(limbs_val(xs@.take(0)) == 0);
        assert(limbs_val(s0.take(0)) == 0);
        assert(pow_base(0) == 1);
    }
    while i < len
        invariant_except_break
            borrow,
            i > 0 ==> y == 1,
            i == 0 ==> y == limb,
            forall|j: int| i <= j < s0.len() ==> xs@[j] == s0[j],
            limbs_val(xs@.take(i as int)) + limb == limbs_val(s0.take(i as int)) + y * pow_base(
                i as nat,
            ),
        invariant
            xs@.len() == s0.len(),
            0 <= i <= len <= s0.len(),
            forall|j: int| len <= j < s0.len() ==> xs@[j] == s0[j],
            t0.len() == len,
            forall|j: int| 0 <= j < len ==> t0[j] == s0[j],
        ensures
            !borrow ==> limbs_val(xs@.take(len as int)) == limbs_val(t0) - limb,
            borrow ==> i == len && (i > 0 ==> y == 1) && (i == 0 ==> y == limb)
                && limbs_val(xs@.take(i as int)) + limb == limbs_val(s0.take(i as int)) + y
                * pow_base(i as nat),
        decreases len - i,
    {
        let x = xs[i];
        let ghost before = xs@;
        proof {
            lemma_limbs_val_take_next(s0, i as int);
        }
        if x >= y {
            xs[i] = x - y;
            proof {
                let w = xs@.take(len as int);
                lemma_limbs_val_take_next(xs@, i as int);
                assert(xs@.take(i as int) =~= before.take(i as int));
                lemma_limbs_val_split(w, i + 1);
                lemma_limbs_val_split(t0, i + 1);
                assert(w.skip(i + 1) =~= t0.skip(i + 1));
                assert(w.take(i + 1) =~= xs@.take(i + 1));
                assert(t0.take(i + 1) =~= s0.take(i + 1));
                let p = pow_base(i as nat);
                assert(y * p + (x - y) * p == x * p) by (nonlinear_arith);
            }
            borrow = false;
            break;
        }
        xs[i] = x.wrapping_sub(y);
        proof {
            lemma_limbs_val_take_next(xs@, i as int);
            assert(xs@.take(i as int) =~= before.take(i as int));
            let p = pow_base(i as nat);
            assert(xs@[i as int] == x + limb_base() - y);
            assert(y * p + (x + limb_base() - y) * p == x * p + limb_base() * p)
                by (nonlinear_arith);
        }
        i += 1;
        y = 1;
    }
    proof {
        assert(xs@.skip(len as int) =~= s0.skip(len as int));
        lemma_limbs_val_bound(xs@.take(len as int));
        if borrow {
            assert(s0.take(i as int) =~= t0);
            if i == 0 {
                assert(limbs_val(xs@.take(0)) == 0);
            }
        }
    }
    borrow && y != 0
}

/// Adds `limb` to the number held in the low `len` limbs of `xs`, leaving the other limbs alone.
fn add_limb_in_prefix(xs: &mut [u32], len: usize, limb: u32) -> (carry: bool)
    requires
        len <= old(xs)@.len(),
    ensures
        final(xs)@.len() == old(xs)@.len(),
        final(xs)@.skip(len as int) == old(xs)@.skip(len as int),
        len > 0 ==> limbs_val(final(xs)@.take(len as int)) + (if carry {
            pow_base(len as nat)
        } else {
            0
        }) == limbs_val(old(xs)@.take(len as int)) + limb,
        len == 0 ==> carry == (limb != 0),
{
    let ghost s0 = xs@;
    let ghost t0 = xs@.take(len as int);
    assert(t0.len() == len);
    assert(forall|j: int| 0 <= j < len ==> t0[j] == s0[j]);
    let mut i: usize = 0;
    let mut y: u32 = limb;
    let mut carry = true;
    proof {
        assert(limbs_val(xs@.take(0)) == 0);
        assert(limbs_val(s0.take(0)) == 0);
        assert(pow_base(0) == 1);
    }
    while i < len
        invariant_except_break
            carry,
            i > 0 ==> y == 1,
            i == 0 ==> y == limb,
            forall|j: int| i <= j < s0.len() ==> xs@[j] == s0[j],
            limbs_val(xs@.take(i as int)) + y * pow_base(i as nat) == limbs_val(s0.take(i as int))
                + limb,
        invariant
            xs@.len() == s0.len(),
            0 <= i <= len <= s0.len(),
            forall|j: int| len <= j < s0.len() ==> xs@[j] == s0[j],
            t0.len() == len,
            forall|j: int| 0 <= j < len ==> t0[j] == s0[j],
        ensures
            !carry ==> limbs_val(xs@.take(len as int)) == limbs_val(t0) + limb,
            carry ==> i == len && (i > 0 ==> y == 1) && (i == 0 ==> y == limb)
                && limbs_val(xs@.take(i as int)) + y * pow_base(i as nat) == limbs_val(
                s0.take(i as int),
            ) + limb,
        decreases len - i,
    {
        let x = xs[i];
        let ghost before = xs@;
        proof {
            lemma_limbs_val_take_next(s0, i as int);
        }
        if x <= u32::MAX - y {
            xs[i] = x + y;
            proof {
                let w = xs@.take(len as int);
                lemma_limbs_val_take_next(xs@, i as int);
                assert(xs@.take(i as int) =~= before.take(i as int));
                lemma_limbs_val_split(w, i + 1);
                lemma_limbs_val_split(t0, i + 1);
                assert(w.skip(i + 1) =~= t0.skip(i + 1));
                assert(w.take(i + 1) =~= xs@.take(i + 1));
                assert(t0.take(i + 1) =~= s0.take(i + 1));
                let p = pow_base(i as nat);
                assert(y * p + x * p == (x + y) * p) by (nonlinear_arith);
            }
            carry = false;
            break;
        }
        xs[i] = x.wrapping_add(y);
        proof {
            lemma_limbs_val_take_next(xs@, i as int);
            assert(xs@.take(i as int) =~= before.take(i as int));
            let p = pow_base(i as nat);
            assert(xs@[i as int] == x + y - limb_base());
            assert((x + y - limb_base()) * p + limb_base() * p == x * p + y * p)
                by (nonlinear_arith);
        }
        i += 1;
        y = 1;
    }
    proof {
        assert(xs@.skip(len as int) =~= s0.skip(len as int));
        if carry {
            assert(s0.take(i as int) =~= t0);
            if i == 0 {
                assert(limbs_val(xs@.take(0)) == 0);
            }
        }
    }
    carry && y != 0
}

/// Subtracts `limb` from the number held in `xs`, in place. Returns whether a borrow escaped
/// the most significant limb, that is, whether `limb` exceeded the number; the limbs then hold
/// the difference wrapped modulo `pow_base(xs.len())`.
pub fn limbs_sub_limb_in_place(xs: &mut [u32], limb: u32) -> (borrow: bool)
    ensures
        final(xs)@.len() == old(xs)@.len(),
        borrow == (limb > limbs_val(old(xs)@)),
        !borrow ==> limbs_val(final(xs)@) == limbs_val(old(xs)@) - limb,
        borrow && old(xs)@.len() > 0 ==> limbs_val(final(xs)@) == limbs_val(old(xs)@) + pow_base(
            old(xs)@.len(),
        ) - limb,
{
    let len = xs.len();
    let borrow = sub_limb_in_prefix(xs, len, limb);
    proof {
        assert(xs@.take(len as int) =~= xs@);
        assert(old(xs)@.take(len as int) =~= old(xs)@);
    }
    borrow
}

/// Subtracts `limb` from the number held in `xs`, returning the limbs of the result (as many as
/// `xs` has) and whether a borrow escaped, that is, whether `limb` exceeded the number.
pub fn limbs_sub_limb(xs: &[u32], limb: u32) -> (r: (Vec<u32>, bool))
    ensures
        r.0@.len() == xs@.len(),
        r.1 == (limb > limbs_val(xs@)),
        !r.1 ==> limbs_val(r.0@) == limbs_val(xs@) - limb,
        r.1 && xs@.len() > 0 ==> limbs_val(r.0@) == limbs_val(xs@) + pow_base(xs@.len()) - limb,
{
    let mut out = vstd::slice::slice_to_vec(xs);
    let borrow = limbs_sub_limb_in_place(out.as_mut_slice(), limb);
    (out, borrow)
}

/// Subtracts `limb` from the number held in `xs`, writing the `xs.len()` limbs of the result to
/// the front of `out` and leaving the rest of `out` alone. Returns whether a borrow escaped.
pub fn limbs_sub_limb_to_out(out: &mut [u32], xs: &[u32], limb: u32) -> (borrow: bool)
    requires
        old(out)@.len() >= xs@.len(),
    ensures
        final(out)@.len() == old(out)@.len(),
        final(out)@.skip(xs@.len() as int) == old(out)@.skip(xs@.len() as int),
        borrow == (limb > limbs_val(xs@)),
        !borrow ==> limbs_val(final(out)@.take(xs@.len() as int)) == limbs_val(xs@) - limb,
        borrow && xs@.len() > 0 ==> limbs_val(final(out)@.take(xs@.len() as int)) == limbs_val(
            xs@,
        ) + pow_base(xs@.len()) - limb,
{
    let len = xs.len();
    copy_into_prefix(out, xs);
    sub_limb_in_prefix(out, len, limb)
}

/// Adds `limb` to the number held in `xs`, in place. Returns whether a carry escaped the most
/// significant limb.
pub fn limbs_add_limb_in_place(xs: &mut [u32], limb: u32) -> (carry: bool)
    ensures
        final(xs)@.len() == old(xs)@.len(),
        old(xs)@.len() > 0 ==> limbs_val(final(xs)@) + (if carry {
            pow_base(old(xs)@.len())
        } else {
            0
        }) == limbs_val(old(xs)@) + limb,
        old(xs)@.len() == 0 ==> carry == (limb != 0),
{
    let len = xs.len();
    let carry = add_limb_in_prefix(xs, len, limb);
    proof {
        assert(xs@.take(len as int) =~= xs@);
        assert(old(xs)@.take(len as int) =~= old(xs)@);
    }
    carry
}

/// Adds `limb` to the number held in `xs`, returning the limbs of the result (as many as `xs`
/// has) and whether a carry escaped.
pub fn limbs_add_limb(xs: &[u32], limb: u32) -> (r: (Vec<u32>, bool))
    ensures
        r.0@.len() == xs@.len(),
        xs@.len() > 0 ==> limbs_val(r.0@) + (if r.1 { pow_base(xs@.len()) } else { 0 })
            == limbs_val(xs@) + limb,
        xs@.len() == 0 ==> r.1 == (limb != 0),
{
    let mut out = vstd::slice::slice_to_vec(xs);
    let carry = limbs_add_limb_in_place(out.as_mut_slice(), limb);
    (out, carry)
}

/// Adds `limb` to the number held in `xs`, writing the `xs.len()` limbs of the result to the
/// front of `out` and leaving the rest of `out` alone. Returns whether a carry escaped.
pub fn limbs_add_limb_to_out(out: &mut [u32], xs: &[u32], limb: u32) -> (carry: bool)
    requires
        old(out)@.len() >= xs@.len(),
    ensures
        final(out)@.len() == old(out)@.len(),
        final(out)@.skip(xs@.len() as int) == old(out)@.skip(xs@.len() as int),
        xs@.len() > 0 ==> limbs_val(final(out)@.take(xs@.len() as int)) + (if carry {
            pow_base(xs@.len())
        } else {
            0
        }) == limbs_val(xs@) + limb,
        xs@.len() == 0 ==> carry == (limb != 0),
{
    let len = xs.len();
    copy_into_prefix(out, xs);
    add_limb_in_prefix(out, len, limb)
}

/// Copies `xs` over the front of `out`.
fn copy_into_prefix(out: &mut [u32], xs: &[u32])
    requires
        old(out)@.len() >= xs@.len(),
    ensures
        final(out)@.len() == old(out)@.len(),
        final(out)@.take(xs@.len() as int) == xs@,
        final(out)@.skip(xs@.len() as int) == old(out)@.skip(xs@.len() as int),
{
    let ghost s0 = out@;
    let mut i: usize = 0;
    while i < xs.len()
        invariant
            out@.len() == s0.len(),
            0 <= i <= xs@.len() <= s0.len(),
            forall|j: int| 0 <= j < i ==> out@[j] == xs@[j],
            forall|j: int| i <= j < s0.len() ==> out@[j] == s0[j],
        decreases xs@.len() - i,
    {
        out[i] = xs[i];
        i += 1;
    }
    assert(out@.take(xs@.len() as int) =~= xs@);
    assert(out@.skip(xs@.len() as int) =~= s0.skip(xs@.len() as int));
}

} // verus!
