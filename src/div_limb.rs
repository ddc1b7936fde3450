//! Remainder of a limb sequence by a single limb, through a precomputed reciprocal of the
//! normalized divisor.
use crate::limbs::{
    lemma_limbs_val_split, lemma_limbs_val_take_next, lemma_pow_base_pos, limb_base, limbs_val,
    pow_base,
};
use vstd::arithmetic::power2::{lemma_pow2_adds, lemma_pow2_pos, pow2};
use vstd::prelude::*;

verus! {

/// `v` is the reciprocal word of the normalized divisor `d`:
/// `v == floor((B^2 - 1) / d) - B`, where `B` is the limb base.
pub open spec fn is_limb_inverse(d: u32, v: u32) -> bool {
    &&& d >= 0x8000_0000
    &&& (limb_base() + v) * d <= limb_base() * limb_base() - 1
    &&& limb_base() * limb_base() - 1 < (limb_base() + v + 1) * d
}

/// Computes the reciprocal word of a normalized divisor.
pub fn limb_inverse(d: u32) -> (v: u32)
    requires
        d >= 0x8000_0000,
    ensures
        is_limb_inverse(d, v),
{
    let n: u64 = (0xffff_ffff - d) as u64 * 0x1_0000_0000 + 0xffff_ffff;
    let q: u64 = n / d as u64;
    proof {
        let bb = limb_base() as int;
        assert(n == bb * bb - 1 - d * bb);
        vstd::arithmetic::div_mod::lemma_fundamental_div_mod(n as int, d as int);
        let r = n as int % d as int;
        assert(q * d + r == n) by (nonlinear_arith)
            requires
                n as int == d * (n as int / d as int) + r,
                q == n as int / d as int,
        ;
        assert(q < bb) by (nonlinear_arith)
            requires
                q * d + r == n,
                0 <= r,
                n == bb * bb - 1 - d * bb,
                d >= 0x8000_0000,
                bb == 0x1_0000_0000,
        ;
        assert((bb + q) * d <= bb * bb - 1 < (bb + q + 1) * d) by (nonlinear_arith)
            requires
                q * d + r == n,
                0 <= r < d,
                n == bb * bb - 1 - d * bb,
        ;
    }
    q as u32
}

/// The arithmetic behind `mod_by_preinversion`: with the quotient estimate `q1` (plus `w * B`
/// when the estimate overflowed) and `r0` the candidate remainder modulo `B`, the true
/// candidate `n - (q1 + w * B) * d` lies in `[-d, B)`, and one conditional addition of `d` and
/// one conditional subtraction of `d` bring `r0` to the remainder.
proof fn lemma_preinversion(nh: int, nl: int, d: int, v: int, w: int, q1: int, q0: int, j: int)
    requires
        0x8000_0000 <= d < 0x1_0000_0000,
        0 <= v < 0x1_0000_0000,
        (0x1_0000_0000 + v) * d <= 0x1_0000_0000 * 0x1_0000_0000 - 1,
        0x1_0000_0000 * 0x1_0000_0000 - 1 < (0x1_0000_0000 + v + 1) * d,
        0 <= nh < d,
        0 <= nl < 0x1_0000_0000,
        w == 0 || w == 1,
        0 <= q1 < 0x1_0000_0000,
        0 <= q0 < 0x1_0000_0000,
        nh * v + (nh + 1) * 0x1_0000_0000 + nl - w * (0x1_0000_0000 * 0x1_0000_0000) == q1
            * 0x1_0000_0000 + q0,
        0 <= nl - q1 * d + j * 0x1_0000_0000 < 0x1_0000_0000,
    ensures
        ({
            let n = nh * 0x1_0000_0000 + nl;
            let r0 = nl - q1 * d + j * 0x1_0000_0000;
            let rt = n - (q1 + w * 0x1_0000_0000) * d;
            &&& n == (q1 + w * 0x1_0000_0000) * d + rt
            &&& rt < 0 ==> r0 == rt + 0x1_0000_0000 && r0 > q0 && 0 <= rt + d < d
            &&& rt >= 0 ==> r0 == rt && (r0 > q0 ==> rt + d < 0x1_0000_0000 && rt < d) && rt < 2
                * d
        }),
{
    let b: int = 0x1_0000_0000;
    let k = b + v;
    let e = b * b - 1 - k * d;
    let n = nh * b + nl;
    let r0 = nl - q1 * d + j * b;
    let qq1 = q1 + w * b;
    let rt = n - qq1 * d;
    assert(k * d + d == (k + 1) * d) by (nonlinear_arith);
    assert(0 <= e < d);
    let bq = nh * v + (nh + 1) * b + nl;
    assert(b * qq1 == bq - q0);
    assert(b * rt == b * n - (bq - q0) * d) by (nonlinear_arith)
        requires
            b * qq1 == bq - q0,
            rt == n - qq1 * d,
    ;
    assert((bq - q0) * d == nh * v * d + nh * b * d + b * d + nl * d - q0 * d) by (nonlinear_arith)
        requires
            bq == nh * v + (nh + 1) * b + nl,
    ;
    assert(nh * (e + 1) == nh * b * b - nh * b * d - nh * v * d) by (nonlinear_arith)
        requires
            e == b * b - 1 - k * d,
            k == b + v,
    ;
    assert(b * n == nh * b * b + nl * b) by (nonlinear_arith)
        requires
            n == nh * b + nl,
    ;
    assert(nl * (b - d) == nl * b - nl * d) by (nonlinear_arith);
    assert((q0 - b) * d == q0 * d - b * d) by (nonlinear_arith);
    assert(b * rt == nh * (e + 1) + nl * (b - d) + q0 * d - b * d);
    assert(nh * (e + 1) >= 0) by (nonlinear_arith)
        requires
            nh >= 0,
            e >= 0,
    ;
    assert(nl * (b - d) >= 0) by (nonlinear_arith)
        requires
            nl >= 0,
            b > d,
    ;
    // lower bound: rt > q0 - b and rt >= -d
    assert(b * rt >= (q0 - b) * d);
    assert(rt > q0 - b) by (nonlinear_arith)
        requires
            b * rt >= (q0 - b) * d,
            q0 < b,
            0 < d < b,
    ;
    assert(rt >= -d) by (nonlinear_arith)
        requires
            b * rt >= (q0 - b) * d,
            q0 >= 0,
            0 < d < b,
    ;
    // upper bound
    assert(nh * (e + 1) <= (d - 1) * d) by (nonlinear_arith)
        requires
            0 <= nh <= d - 1,
            0 <= e + 1 <= d,
    ;
    assert(nl * (b - d) <= (b - 1) * (b - d)) by (nonlinear_arith)
        requires
            0 <= nl <= b - 1,
            b > d,
    ;
    assert(b * rt < (b - d) * (b - d) + q0 * d) by (nonlinear_arith)
        requires
            b * rt == nh * (e + 1) + nl * (b - d) + q0 * d - b * d,
            nh * (e + 1) <= (d - 1) * d,
            nl * (b - d) <= (b - 1) * (b - d),
            b > 0,
    ;
    assert(rt < b) by (nonlinear_arith)
        requires
            b * rt < (b - d) * (b - d) + q0 * d,
            0 <= q0 < b,
            0 < d < b,
    ;
    // r0 and rt agree modulo b
    assert(r0 - rt == b * (j - nh + w * d)) by (nonlinear_arith)
        requires
            r0 == nl - q1 * d + j * b,
            rt == n - qq1 * d,
            n == nh * b + nl,
            qq1 == q1 + w * b,
    ;
    let m = j - nh + w * d;
    assert(m == 0 || m == 1) by (nonlinear_arith)
        requires
            r0 - rt == b * m,
            0 <= r0 < b,
            -d <= rt < b,
            0 < d < b,
    ;
    if rt < 0 {
        assert(m == 1) by (nonlinear_arith)
            requires
                r0 - rt == b * m,
                0 <= r0,
                rt < 0,
                m == 0 || m == 1,
        ;
    } else {
        assert(m == 0) by (nonlinear_arith)
            requires
                r0 - rt == b * m,
                r0 < b,
                rt >= 0,
                m == 0 || m == 1,
        ;
        if r0 > q0 {
            assert(rt < b - d) by (nonlinear_arith)
                requires
                    b * rt < (b - d) * (b - d) + q0 * d,
                    q0 < rt,
                    0 < d < b,
            ;
        }
    }
}

/// The remainder of the two-limb number `n_high * B + n_low` by a normalized divisor, given
/// the divisor's reciprocal word; `n_high` must be below the divisor.
pub fn mod_by_preinversion(n_high: u32, n_low: u32, divisor: u32, divisor_inverse: u32) -> (r: u32)
    requires
        n_high < divisor,
        is_limb_inverse(divisor, divisor_inverse),
    ensures
        r == (n_high * limb_base() + n_low) % (divisor as int),
{
    div_by_preinversion(n_high, n_low, divisor, divisor_inverse).1
}

/// The quotient and remainder of the two-limb number `n_high * B + n_low` by a normalized
/// divisor, given the divisor's reciprocal word; `n_high` must be below the divisor, so the
/// quotient fits in a limb. One double-width multiplication estimates the quotient, and at most
/// two corrections by the divisor fix it.
pub fn div_by_preinversion(n_high: u32, n_low: u32, divisor: u32, divisor_inverse: u32) -> (r: (
    u32,
    u32,
))
    requires
        n_high < divisor,
        is_limb_inverse(divisor, divisor_inverse),
    ensures
        r.0 == (n_high * limb_base() + n_low) / (divisor as int),
        r.1 == (n_high * limb_base() + n_low) % (divisor as int),
{
    assert(n_high as u64 * divisor_inverse as u64 <= 0xffff_ffff * 0xffff_ffff) by (nonlinear_arith)
        requires
            n_high < 0x1_0000_0000,
            divisor_inverse < 0x1_0000_0000,
    ;
    let product: u64 = n_high as u64 * divisor_inverse as u64;
    let joined: u64 = (n_high + 1) as u64 * 0x1_0000_0000 + n_low as u64;
    let q: u64 = product.wrapping_add(joined);
    let quotient_high = (q / 0x1_0000_0000) as u32;
    let quotient_low = (q % 0x1_0000_0000) as u32;
    let qd = quotient_high.wrapping_mul(divisor);
    let mut remainder = n_low.wrapping_sub(qd);
    let ghost r0 = remainder;
    let ghost b: int = 0x1_0000_0000;
    let ghost w: int = if product + joined > u64::MAX {
        1
    } else {
        0
    };
    let ghost n = n_high * b + n_low;
    let ghost qq = quotient_high + w * b;
    let ghost rt = n - qq * divisor;
    proof {
        assert(product <= 0xffff_ffff * 0xffff_ffff) by (nonlinear_arith)
            requires
                product == n_high * divisor_inverse,
                n_high < 0x1_0000_0000,
                divisor_inverse < 0x1_0000_0000,
        ;
        assert(q == product + joined - w * (b * b));
        assert(q == quotient_high * b + quotient_low);
        let qdm = (quotient_high as int * divisor as int) / b;
        vstd::arithmetic::div_mod::lemma_fundamental_div_mod(
            quotient_high as int * divisor as int,
            b,
        );
        assert(qd == quotient_high as int * divisor as int - qdm * b);
        let c: int = if n_low < qd {
            1
        } else {
            0
        };
        assert(remainder == n_low - quotient_high * divisor + (qdm + c) * b);
        lemma_preinversion(
            n_high as int,
            n_low as int,
            divisor as int,
            divisor_inverse as int,
            w,
            quotient_high as int,
            quotient_low as int,
            qdm + c,
        );
        assert((qq - 1) * divisor == qq * divisor - divisor) by (nonlinear_arith);
        assert((qq + 1) * divisor == qq * divisor + divisor) by (nonlinear_arith);
        if rt < 0 {
            vstd::arithmetic::div_mod::lemma_fundamental_div_mod_converse(
                n,
                divisor as int,
                qq - 1,
                rt + divisor,
            );
        } else if rt < divisor {
            vstd::arithmetic::div_mod::lemma_fundamental_div_mod_converse(
                n,
                divisor as int,
                qq,
                rt,
            );
        } else {
            vstd::arithmetic::div_mod::lemma_fundamental_div_mod_converse(
                n,
                divisor as int,
                qq + 1,
                rt - divisor,
            );
        }
    }
    let mut quotient = quotient_high;
    let ghost mut delta: int = 0;
    if remainder > quotient_low {
        remainder = remainder.wrapping_add(divisor);
        quotient = quotient.wrapping_sub(1);
        proof {
            delta = -1;
        }
    }
    if remainder >= divisor {
        remainder -= divisor;
        quotient = quotient.wrapping_add(1);
        proof {
            delta = delta + 1;
        }
    }
    proof {
        assert(n < divisor * b) by (nonlinear_arith)
            requires
                n == n_high * b + n_low,
                n_high < divisor,
                n_low < b,
        ;
        let qt = n / divisor as int;
        assert(qt == qq + delta);
        assert(0 <= qt < b) by (nonlinear_arith)
            requires
                qt == n / divisor as int,
                0 <= n < divisor * b,
                divisor > 0,
        ;
        assert(quotient == qt);
    }
    (quotient, remainder)
}

/// The limbs of `xs` shifted left by `bits` (below 32), as a sequence one limb longer than `xs`.
pub open spec fn shl_limbs(xs: Seq<u32>, bits: nat) -> Seq<u32> {
    Seq::new(
        xs.len() + 1,
        |i: int|
            ((if i < xs.len() {
                (xs[i] as nat * pow2(bits)) % limb_base()
            } else {
                0
            }) + (if i > 0 {
                xs[i - 1] as nat / pow2((32 - bits) as nat)
            } else {
                0
            })) as u32,
    )
}

/// A limb times `2^bits` splits into its low limb and the bits shifted out.
proof fn lemma_shl_split(x: u32, bits: nat)
    requires
        bits < 32,
    ensures
        (x as nat * pow2(bits)) % limb_base() + limb_base() * (x as nat / pow2(
            (32 - bits) as nat,
        )) == x as nat * pow2(bits),
        (x as nat * pow2(bits)) % limb_base() + pow2(bits) <= limb_base(),
        (x as nat * pow2(bits)) % limb_base() % pow2(bits) == 0,
{
    let p = pow2(bits) as int;
    let c = pow2((32 - bits) as nat) as int;
    lemma_pow2_adds(bits, (32 - bits) as nat);
    vstd::arithmetic::power2::lemma2_to64();
    assert(p * c == limb_base());
    lemma_pow2_pos(bits);
    lemma_pow2_pos((32 - bits) as nat);
    let q = x as int / c;
    let r = x as int % c;
    vstd::arithmetic::div_mod::lemma_fundamental_div_mod(x as int, c);
    assert(x as int * p == q * (p * c) + r * p) by (nonlinear_arith)
        requires
            x as int == c * q + r,
    ;
    assert(0 <= r * p < p * c) by (nonlinear_arith)
        requires
            0 <= r < c,
            p > 0,
    ;
    vstd::arithmetic::div_mod::lemma_fundamental_div_mod_converse(
        x as int * p,
        p * c,
        q,
        r * p,
    );
    assert(r * p + p <= p * c) by (nonlinear_arith)
        requires
            0 <= r < c,
            p > 0,
    ;
    vstd::arithmetic::div_mod::lemma_mod_multiples_basic(r, p);
    assert((r * p) % p == 0) by {
        assert(r * p == p * r) by (nonlinear_arith);
        vstd::arithmetic::div_mod::lemma_mod_multiples_basic(r, p);
    }
}

/// Shifting the limbs left multiplies the number by `2^bits`.
pub proof fn lemma_shl_limbs_val(xs: Seq<u32>, bits: nat)
    requires
        bits < 32,
    ensures
        limbs_val(shl_limbs(xs, bits)) == limbs_val(xs) * pow2(bits),
    decreases xs.len(),
{
    let s = shl_limbs(xs, bits);
    let n = xs.len();
    if n == 0 {
        assert(s.drop_last().len() == 0);
        assert(s[0] == 0);
        assert(s.len() == 1);
        assert(s.last() == 0);
        assert(limbs_val(s.drop_last()) == 0);
        assert(limbs_val(s) == limbs_val(s.drop_last()) + s.last() as nat * pow_base(0));
        assert(s.last() as nat * pow_base(0) == 0) by (nonlinear_arith)
            requires
                s.last() == 0,
        ;
        assert(limbs_val(s) == 0);
        assert(limbs_val(xs) == 0);
        assert(0 * pow2(bits) == 0);
    } else {
        let d = xs.drop_last();
        let t = shl_limbs(d, bits);
        lemma_shl_limbs_val(d, bits);
        let x = xs[n - 1];
        lemma_shl_split(x, bits);
        let lo = (x as nat * pow2(bits)) % limb_base();
        let hi = x as nat / pow2((32 - bits) as nat);
        // s without its top two limbs is t without its top limb
        assert(s.drop_last().drop_last() =~= t.drop_last());
        lemma_shr_bound(x, bits);
        if n > 1 {
            lemma_shr_bound(xs[n - 2], bits);
        }
        assert(s.len() == n + 1);
        assert(xs[n - 1] == x);
        assert(s[n as int] == ((0 + xs[n - 1] as nat / pow2((32 - bits) as nat)) as u32));
        assert(hi <= x);
        assert(hi < 0x1_0000_0000);
        assert(s[n as int] == hi);
        assert(t[n - 1] == ((0 + (if n - 1 > 0 {
            xs[n - 2] as nat / pow2((32 - bits) as nat)
        } else {
            0
        })) as u32));
        assert(s[n - 1] == ((lo + (if n - 1 > 0 {
            xs[n - 2] as nat / pow2((32 - bits) as nat)
        } else {
            0
        })) as u32));
        assert(s[n - 1] == lo + t[n - 1]);
        lemma_pow_base_pos((n - 1) as nat);
        let p = pow_base((n - 1) as nat);
        assert(pow_base(n) == limb_base() * p);
        assert(limbs_val(s) == limbs_val(s.drop_last()) + hi * pow_base(n));
        assert(limbs_val(s.drop_last()) == limbs_val(t.drop_last()) + (lo + t[n - 1]) * p);
        assert(limbs_val(t) == limbs_val(t.drop_last()) + t[n - 1] * p);
        assert(limbs_val(xs) == limbs_val(d) + x * p);
        assert((lo + t[n - 1]) * p + hi * (limb_base() * p) == t[n - 1] * p + (x * pow2(bits))
            * p) by (nonlinear_arith)
            requires
                lo + limb_base() * hi == x * pow2(bits),
        ;
        assert((limbs_val(d) + x * p) * pow2(bits) == limbs_val(d) * pow2(bits) + (x * pow2(
            bits,
        )) * p) by (nonlinear_arith);
        assert(limbs_val(s) == limbs_val(t.drop_last()) + t[n - 1] * p + (x * pow2(bits)) * p);
        assert(limbs_val(s) == limbs_val(t) + (x * pow2(bits)) * p);
    }
}

/// The bits that a left shift by `bits` moves out of a limb form a number below `2^bits`.
proof fn lemma_shr_bound(y: u32, bits: nat)
    requires
        bits < 32,
    ensures
        y as nat / pow2((32 - bits) as nat) < pow2(bits),
        y as nat / pow2((32 - bits) as nat) <= y,
        0 <= y as nat / pow2((32 - bits) as nat),
{
    let c = pow2((32 - bits) as nat) as int;
    let p = pow2(bits) as int;
    lemma_pow2_adds(bits, (32 - bits) as nat);
    vstd::arithmetic::power2::lemma2_to64();
    lemma_pow2_pos(bits);
    lemma_pow2_pos((32 - bits) as nat);
    vstd::arithmetic::div_mod::lemma_fundamental_div_mod(y as int, c);
    let q = y as int / c;
    assert(q < p) by (nonlinear_arith)
        requires
            y as int == c * q + y as int % c,
            y as int % c >= 0,
            y < p * c,
            c > 0,
    ;
    assert(q <= y) by (nonlinear_arith)
        requires
            y as int == c * q + y as int % c,
            y as int % c >= 0,
            c >= 1,
            q >= 0,
    ;
}

/// Limb `j` of `shl_limbs(xs, bits)`, computed with shifts.
fn shl_limb(xs: &[u32], j: usize, bits: u32) -> (r: u32)
    requires
        j < xs@.len(),
        bits < 32,
    ensures
        r == shl_limbs(xs@, bits as nat)[j as int],
{
    proof {
        lemma_shl_bits(xs@[j as int], if j > 0 {
            xs@[j - 1]
        } else {
            0
        }, bits);
    }
    if bits == 0 {
        xs[j]
    } else if j == 0 {
        xs[j] << bits
    } else {
        (xs[j] << bits) | (xs[j - 1] >> (32 - bits))
    }
}

/// Computing a shifted limb with shifts and an or gives the value that `shl_limbs` states.
proof fn lemma_shl_bits(x: u32, y: u32, bits: u32)
    requires
        bits < 32,
    ensures
        bits == 0 ==> x == (x as nat * pow2(0)) % limb_base() + y as nat / pow2(32),
        bits == 0 ==> x == (x as nat * pow2(0)) % limb_base(),
        0 < bits ==> (x << bits) == (x as nat * pow2(bits as nat)) % limb_base(),
        0 < bits ==> (x << bits) | (y >> ((32 - bits) as u32)) == (x as nat * pow2(bits as nat))
            % limb_base() + y as nat / pow2((32 - bits) as nat),
{
    vstd::arithmetic::power2::lemma2_to64();
    if bits == 0 {
        assert(y as nat / pow2(32) == 0);
        assert(x as nat * 1 == x);
    } else {
        let c = (32 - bits) as u32;
        vstd::bits::lemma_u32_shr_is_div(y, c);
        lemma_shl_split(x, bits as nat);
        // x << bits is the low limb of x * 2^bits
        assert((x << bits) as u64 == ((x as u64) << (bits as u64)) % 0x1_0000_0000) by (bit_vector)
            requires
                bits < 32,
        ;
        vstd::bits::lemma_u64_shl_is_mul(x as u64, bits as u64);
        assert(x as nat * pow2(bits as nat) <= u64::MAX) by (nonlinear_arith)
            requires
                pow2(bits as nat) <= 0x8000_0000,
                x < 0x1_0000_0000,
        {
        }
        let lo = x << bits;
        let hi = y >> c;
        assert(hi < (1u32 << bits)) by (bit_vector)
            requires
                c == 32 - bits,
                0 < bits < 32,
                hi == y >> c,
        ;
        assert(1u32 << bits >= 1) by (bit_vector)
            requires
                bits < 32,
        ;
        let m: u32 = ((1u32 << bits) - 1) as u32;
        assert(lo & m == 0) by (bit_vector)
            requires
                lo == x << bits,
                bits < 32,
                m + 1 == 1u32 << bits,
        ;
        assert(lo | hi == lo + hi) by (bit_vector)
            requires
                hi < (1u32 << bits),
                lo & m == 0,
                m + 1 == 1u32 << bits,
        ;
    }
}

/// `B^2 mod d` for a normalized divisor `d` with reciprocal word `v`.
pub open spec fn base_squared_mod(d: u32, v: u32) -> int {
    limb_base() * limb_base() - (limb_base() + v) * d
}

/// One step of the remainder fold: the running value `carry * B^2 + sh * B + sl`, shifted up by a
/// limb with `x` brought in, differs by a multiple `m` of `d` from the new running value, which
/// stays below `B^2 + d * B`.
proof fn lemma_fold_step(d: int, v: int, sh: int, sl: int, x: int, carry: bool, sl1: int, m: int)
    requires
        0x8000_0000 <= d < 0x1_0000_0000,
        0 <= v < 0x1_0000_0000,
        0 <= sh < 0x1_0000_0000,
        0 <= sl < 0x1_0000_0000,
        0 <= x < 0x1_0000_0000,
        carry ==> sh < d,
        ({
            let b2 = 0x1_0000_0000 * 0x1_0000_0000 - (0x1_0000_0000 + v) * d;
            &&& 0 < b2 <= d
            &&& !carry ==> sl1 == sl && m == -sh * (0x1_0000_0000 + v)
            &&& carry && sl + b2 < 0x1_0000_0000 ==> sl1 == sl + b2 && m == -(0x1_0000_0000 + v)
                * (0x1_0000_0000 + sh)
            &&& carry && sl + b2 >= 0x1_0000_0000 ==> sl1 == sl + b2 - d && m == -(0x1_0000_0000
                + v) * (0x1_0000_0000 + sh) - 0x1_0000_0000
        }),
    ensures
        0 <= sl1 < 0x1_0000_0000,
        ({
            let b: int = 0x1_0000_0000;
            let b2 = b * b - (b + v) * d;
            let t = (if carry {
                b * b
            } else {
                0
            }) + sh * b + sl;
            let sum = sl1 * b + x + sh * b2;
            &&& sum - (t * b + x) == m * d
            &&& 0 <= sum < b * b + d * b
        }),
{
    let b: int = 0x1_0000_0000;
    let b2 = b * b - (b + v) * d;
    assert(b * b == b2 + (b + v) * d);
    assert(sh * b2 <= (b - 1) * d) by (nonlinear_arith)
        requires
            0 <= sh <= b - 1,
            0 < b2 <= d,
    ;
    assert(sh * b2 >= 0) by (nonlinear_arith)
        requires
            0 <= sh,
            0 < b2,
    ;
    assert(sl1 * b <= (b - 1) * b) by (nonlinear_arith)
        requires
            sl1 <= b - 1,
            b > 0,
    ;
    assert(sl1 * b >= 0) by (nonlinear_arith)
        requires
            sl1 >= 0,
            b > 0,
    ;
    let t = (if carry {
        b * b
    } else {
        0
    }) + sh * b + sl;
    if !carry {
        assert(sl1 * b + x + sh * b2 - (t * b + x) == -sh * (b + v) * d) by (nonlinear_arith)
            requires
                sl1 == sl,
                t == sh * b + sl,
                b * b == b2 + (b + v) * d,
        ;
    } else if sl + b2 < b {
        assert(sl1 * b + x + sh * b2 - (t * b + x) == -(b + v) * (b + sh) * d) by (nonlinear_arith)
            requires
                sl1 == sl + b2,
                t == b * b + sh * b + sl,
                b * b == b2 + (b + v) * d,
        ;
    } else {
        assert(sl1 * b + x + sh * b2 - (t * b + x) == (-(b + v) * (b + sh) - b) * d)
            by (nonlinear_arith)
            requires
                sl1 == sl + b2 - d,
                t == b * b + sh * b + sl,
                b * b == b2 + (b + v) * d,
        ;
    }
}

/// The number held from limb `j - 1` on is that limb plus the limb base times the number held
/// from limb `j` on.
proof fn lemma_val_skip_prev(f: Seq<u32>, j: int)
    requires
        0 < j <= f.len(),
    ensures
        limbs_val(f.skip(j - 1)) == f[j - 1] + limb_base() * limbs_val(f.skip(j)),
{
    let g = f.skip(j - 1);
    lemma_limbs_val_split(g, 1);
    assert(g.skip(1) =~= f.skip(j));
    assert(g.take(1).drop_last().len() == 0);
    assert(limbs_val(g.take(1).drop_last()) == 0);
    assert(pow_base(1) == limb_base() * pow_base(0));
    assert(limbs_val(g.take(1)) == g[0] as nat * pow_base(0));
    assert(g[0] as nat * pow_base(0) == g[0]) by (nonlinear_arith)
        requires
            pow_base(0) == 1,
    ;
}

/// The remainder, by a normalized divisor `d` with reciprocal word `v`, of the number whose low
/// limbs are the low `xs.len()` limbs of `xs` shifted left by `bits` and whose next limb is
/// `high`. Folds the limbs in from the most significant one, keeping a running value of at most
/// two limbs and a carry, congruent to what was read so far, with `B^2 mod d` standing for the
/// limb base squared.
fn limbs_mod_fold(xs: &[u32], high: u32, d: u32, v: u32, bits: u32) -> (r: u32)
    requires
        xs@.len() >= 1,
        high < d,
        is_limb_inverse(d, v),
        bits < 32,
    ensures
        r == (limbs_val(shl_limbs(xs@, bits as nat).take(xs@.len() as int)) + high * pow_base(
            xs@.len(),
        )) % (d as int),
{
    let len = xs.len();
    let ghost s = shl_limbs(xs@, bits as nat).take(len as int);
    let ghost f = s.push(high);
    let ghost b: int = 0x1_0000_0000;
    proof {
        lemma_limbs_val_split(f, len as int);
        assert(f.take(len as int) =~= s);
        assert(f.skip(len as int) =~= seq![high]);
        assert(limbs_val(seq![high]) == high) by {
            assert(seq![high].drop_last().len() == 0);
            assert(pow_base(0) == 1);
            assert(limbs_val(seq![high].drop_last()) == 0);
            assert(high as nat * 1 == high);
        }
        assert(pow_base(len as nat) * high == high * pow_base(len as nat)) by (nonlinear_arith);
    }
    if len == 1 {
        let x0 = shl_limb(xs, 0, bits);
        proof {
            lemma_val_skip_prev(f, 1);
            assert(f.skip(0) =~= f);
            assert(f.skip(1) =~= seq![high]);
            assert(pow_base(1) == limb_base() * pow_base(0));
        }
        let r = mod_by_preinversion(high, x0, d, v);
        proof {
            assert(high * limb_base() + x0 == limbs_val(f)) by (nonlinear_arith)
                requires
                    limbs_val(f) == x0 + limb_base() * high,
            ;
        }
        return r;
    }
    let power_of_two = (0u32).wrapping_sub(d).wrapping_mul(v);
    proof {
        let b2 = base_squared_mod(d, v);
        assert(b == limb_base());
        assert((b + v + 1) * d == (b + v) * d + d) by (nonlinear_arith);
        assert(b * b - 1 - (b + v) * d < d);
        assert(0 < b2 <= d);
        assert((b - d) * v == (v - b + d) * b + b2) by (nonlinear_arith)
            requires
                b2 == b * b - (b + v) * d,
        ;
        vstd::arithmetic::div_mod::lemma_fundamental_div_mod_converse(
            (b - d) * v,
            b,
            v - b + d,
            b2,
        );
        assert(power_of_two == b2);
    }
    let top = shl_limb(xs, len - 1, bits);
    let second = shl_limb(xs, len - 2, bits);
    let joined: u64 = top as u64 * 0x1_0000_0000 + second as u64;
    assert(power_of_two as u64 * high as u64 <= 0xffff_ffff * 0xffff_ffff) by (nonlinear_arith)
        requires
            power_of_two < 0x1_0000_0000,
            high < 0x1_0000_0000,
    ;
    let prod: u64 = power_of_two as u64 * high as u64;
    let mut big_carry = joined > u64::MAX - prod;
    let sum = joined.wrapping_add(prod);
    let mut sum_high = (sum / 0x1_0000_0000) as u32;
    let mut sum_low = (sum % 0x1_0000_0000) as u32;
    let ghost mut c: int = -(high * (b + v));
    proof {
        let b2 = base_squared_mod(d, v);
        lemma_val_skip_prev(f, len as int);
        lemma_val_skip_prev(f, len - 1);
        assert(f[len - 1] == top && f[len - 2] == second);
        assert(sum == joined + prod - (if big_carry {
            b * b
        } else {
            0
        }));
        assert(prod <= (b - 1) * d) by (nonlinear_arith)
            requires
                prod == power_of_two * high,
                power_of_two <= d,
                high < d,
                d < b,
        ;
        assert(high * b2 - high * (b * b) == -(high * (b + v)) * d) by (nonlinear_arith)
            requires
                b2 == b * b - (b + v) * d,
        ;
        assert(limbs_val(f.skip(len - 2)) == second + b * (top + b * high));
        assert(b * (top + b * high) == b * top + high * (b * b)) by (nonlinear_arith);
    }
    let mut j = len - 2;
    while j > 0
        invariant
            len == xs@.len(),
            s == shl_limbs(xs@, bits as nat).take(len as int),
            f == s.push(high),
            b == 0x1_0000_0000,
            is_limb_inverse(d, v),
            power_of_two == base_squared_mod(d, v),
            0 < base_squared_mod(d, v) <= d,
            bits < 32,
            0 <= j <= len - 2,
            big_carry ==> sum_high < d,
            (if big_carry {
                b * b
            } else {
                0
            }) + sum_high * b + sum_low - limbs_val(f.skip(j as int)) == c * d,
        decreases j,
    {
        j -= 1;
        let ghost (sh, sl, cy) = (sum_high as int, sum_low as int, big_carry);
        if big_carry {
            let (t, overflow) = (sum_low.wrapping_add(power_of_two), sum_low > u32::MAX - power_of_two);
            sum_low = t;
            if overflow {
                sum_low = sum_low.wrapping_sub(d);
            }
        }
        let limb = shl_limb(xs, j, bits);
        let ghost sl1 = sum_low as int;
        let joined: u64 = sum_low as u64 * 0x1_0000_0000 + limb as u64;
        assert(sum_high as u64 * power_of_two as u64 <= 0xffff_ffff * 0xffff_ffff)
            by (nonlinear_arith)
            requires
                power_of_two < 0x1_0000_0000,
                sum_high < 0x1_0000_0000,
        ;
        let prod: u64 = sum_high as u64 * power_of_two as u64;
        let carry = joined > u64::MAX - prod;
        let sum = joined.wrapping_add(prod);
        let ghost m: int = if !cy {
            -sh * (b + v)
        } else if sl + power_of_two < b {
            -(b + v) * (b + sh)
        } else {
            -(b + v) * (b + sh) - b
        };
        proof {
            let b2 = base_squared_mod(d, v);
            assert(0 < b2 <= d);
            lemma_fold_step(d as int, v as int, sh, sl, limb as int, cy, sum_low as int, m);
            lemma_val_skip_prev(f, j + 1);
            assert(f[j as int] == limb);
            assert(sum == joined + prod - (if carry {
                b * b
            } else {
                0
            }));
            let t = (if cy {
                b * b
            } else {
                0
            }) + sh * b + sl;
            let h = limbs_val(f.skip(j + 1));
            assert(t - h == c * d);
            assert(t * b + limb - (limb + b * h) == (b * c) * d) by (nonlinear_arith)
                requires
                    t - h == c * d,
            ;
            assert(prod == sh * b2);
        }
        sum_high = (sum / 0x1_0000_0000) as u32;
        sum_low = (sum % 0x1_0000_0000) as u32;
        big_carry = carry;
        proof {
            let b2 = base_squared_mod(d, v);
            let t = (if cy {
                b * b
            } else {
                0
            }) + sh * b + sl;
            let h = limbs_val(f.skip(j + 1));
            assert(limbs_val(f.skip(j as int)) == limb + b * h);
            assert(sum_high * b + sum_low == sum);
            let tn = (if big_carry {
                b * b
            } else {
                0
            }) + sum_high * b + sum_low;
            assert(tn == joined + prod);
            assert(tn == sl1 * b + limb + sh * b2);
            assert(tn - (t * b + limb) == m * d);
            assert((m + b * c) * d == m * d + (b * c) * d) by (nonlinear_arith);
            c = m + b * c;
        }
    }
    let ghost t0 = (if big_carry {
        b * b
    } else {
        0
    }) + sum_high * b + sum_low;
    proof {
        assert(f.skip(0) =~= f);
        assert(t0 - limbs_val(f) == c * d);
    }
    if big_carry {
        let ghost old_high = sum_high;
        sum_high = sum_high.wrapping_sub(d);
        proof {
            assert(sum_high == old_high + b - d);
            assert(sum_high * b + sum_low == t0 - d * b);
            assert(sum_high * b + sum_low - limbs_val(f) == (c - b) * d) by (nonlinear_arith)
                requires
                    sum_high * b + sum_low == t0 - d * b,
                    t0 - limbs_val(f) == c * d,
            ;
            c = c - b;
        }
    } else {
        proof {
            assert(sum_high * b + sum_low - limbs_val(f) == c * d);
        }
    }
    if sum_high >= d {
        let ghost old_high = sum_high;
        let ghost c0 = c;
        sum_high = sum_high.wrapping_sub(d);
        proof {
            assert(sum_high == old_high - d);
            assert(sum_high * b + sum_low - limbs_val(f) == (c0 - b) * d) by (nonlinear_arith)
                requires
                    sum_high == old_high - d,
                    old_high * b + sum_low - limbs_val(f) == c0 * d,
            ;
            c = c0 - b;
        }
    }
    proof {
        assert(sum_high * b + sum_low - limbs_val(f) == c * d);
        assert(sum_high < d);
        vstd::arithmetic::div_mod::lemma_mod_multiples_vanish(c, limbs_val(f) as int, d as int);
        assert(d * c + limbs_val(f) == sum_high * b + sum_low) by (nonlinear_arith)
            requires
                sum_high * b + sum_low - limbs_val(f) == c * d,
        ;
    }
    let r = mod_by_preinversion(sum_high, sum_low, d, v);
    proof {
        assert(sum_high * limb_base() + sum_low == sum_high * b + sum_low);
    }
    r
}

/// Shifting by zero bits leaves the limbs as they are, with a zero limb on top.
proof fn lemma_shl_limbs_zero(xs: Seq<u32>)
    ensures
        shl_limbs(xs, 0).take(xs.len() as int) =~= xs,
{
    vstd::arithmetic::power2::lemma2_to64();
    assert forall|i: int| 0 <= i < xs.len() implies shl_limbs(xs, 0)[i] == xs[i] by {
        assert(xs[i] as nat * 1 == xs[i]);
        assert((xs[i] as nat) % limb_base() == xs[i]);
        if i > 0 {
            assert(xs[i - 1] as nat / pow2(32) == 0);
        }
    }
}

/// The remainder, by a divisor with its top bit set and its reciprocal word `v`, of the number
/// whose low limbs are `xs` and whose next limb is `high`.
pub fn limbs_mod_limb_normalized(xs: &[u32], high: u32, d: u32, v: u32) -> (r: u32)
    requires
        xs@.len() >= 1,
        high < d,
        is_limb_inverse(d, v),
    ensures
        r == (limbs_val(xs@) + high * pow_base(xs@.len())) % (d as int),
{
    proof {
        lemma_shl_limbs_zero(xs@);
    }
    limbs_mod_fold(xs, high, d, v, 0)
}

/// Like `limbs_mod_limb_normalized`, but the low limbs are those of `xs` shifted left by `bits`,
/// computed on the fly rather than materialized.
pub fn limbs_mod_limb_normalized_shl(xs: &[u32], high: u32, d: u32, v: u32, bits: u32) -> (r: u32)
    requires
        xs@.len() >= 1,
        high < d,
        is_limb_inverse(d, v),
        bits < 32,
    ensures
        r == (limbs_val(shl_limbs(xs@, bits as nat).take(xs@.len() as int)) + high * pow_base(
            xs@.len(),
        )) % (d as int),
{
    limbs_mod_fold(xs, high, d, v, bits)
}

/// The low `k` shifted limbs depend only on the low `k` limbs.
proof fn lemma_shl_prefix(xs: Seq<u32>, k: int, bits: nat)
    requires
        0 <= k <= xs.len(),
    ensures
        shl_limbs(xs.take(k), bits).take(k) =~= shl_limbs(xs, bits).take(k),
{
}

/// The remainder of the number held in `xs` (at least two limbs) by a nonzero limb.
pub fn limbs_mod_limb(xs: &[u32], divisor: u32) -> (r: u32)
    requires
        xs@.len() > 1,
        divisor != 0,
    ensures
        r == limbs_val(xs@) % (divisor as nat),
{
    let len = xs.len();
    let mut highest_limb = xs[len - 1];
    let bits = divisor.leading_zeros();
    let low = vstd::slice::slice_subrange(xs, 0, len - 1);
    proof {
        lemma_limbs_val_split(xs@, len - 1);
        assert(xs@.take(len - 1) =~= low@);
        assert(xs@.skip(len - 1) =~= seq![highest_limb]);
        assert(limbs_val(seq![highest_limb]) == highest_limb) by {
            assert(seq![highest_limb].drop_last().len() == 0);
            assert(pow_base(0) == 1);
            assert(limbs_val(seq![highest_limb].drop_last()) == 0);
            assert(highest_limb as nat * 1 == highest_limb);
        }
        vstd::std_specs::bits::axiom_u32_leading_zeros(divisor);
    }
    if bits == 0 {
        proof {
            assert(divisor >= 0x8000_0000) by (bit_vector)
                requires
                    (divisor >> 31u32) & 1u32 != 0u32,
            ;
        }
        let ghost h0 = highest_limb;
        if highest_limb >= divisor {
            highest_limb -= divisor;
        }
        let inverse = limb_inverse(divisor);
        let r = limbs_mod_limb_normalized(low, highest_limb, divisor, inverse);
        proof {
            let p = pow_base((len - 1) as nat) as int;
            let a = limbs_val(low@) as int;
            assert(limbs_val(xs@) == a + p * h0);
            if h0 >= divisor {
                assert(a + highest_limb * p + p * divisor == a + p * h0) by (nonlinear_arith)
                    requires
                        highest_limb == h0 - divisor,
                ;
                vstd::arithmetic::div_mod::lemma_mod_multiples_vanish(
                    p,
                    a + highest_limb * p,
                    divisor as int,
                );
                assert(divisor * p == p * divisor) by (nonlinear_arith);
            } else {
                assert(p * h0 == h0 * p) by (nonlinear_arith);
            }
        }
        r
    } else {
        let ghost n: int = limbs_val(xs@) as int;
        let cobits = 32 - bits;
        proof {
            assert(0 < bits < 32);
            assert((divisor << bits) >= 0x8000_0000 && (divisor << bits) >> bits == divisor)
                by (bit_vector)
                requires
                    0 < bits < 32,
                    (divisor >> ((31 - bits) as u32)) & 1u32 != 0u32,
                    divisor >> ((32 - bits) as u32) == 0,
            ;
        }
        let d = divisor << bits;
        let inverse = limb_inverse(d);
        let top = highest_limb >> cobits;
        let second = (highest_limb << bits) | (xs[len - 2] >> cobits);
        let ghost sh = shl_limbs(xs@, bits as nat);
        proof {
            vstd::bits::lemma_u32_shr_is_div(highest_limb, cobits);
            vstd::bits::lemma_u32_shr_is_div(d, bits);
            vstd::arithmetic::power2::lemma_pow2_pos(bits as nat);
            lemma_shr_bound(highest_limb, bits as nat);
            lemma_shl_bits(highest_limb, xs@[len - 2], bits);
            assert(sh[len as int] == top);
            assert(sh[len - 1] == second);
            // d == divisor * 2^bits
            let pw = pow2(bits as nat) as int;
            vstd::bits::lemma_u32_shr_is_div(divisor, (32 - bits) as u32);
            let c2 = pow2((32 - bits) as nat) as int;
            vstd::arithmetic::power2::lemma_pow2_pos((32 - bits) as nat);
            vstd::arithmetic::div_mod::lemma_fundamental_div_mod(divisor as int, c2);
            assert(divisor < c2) by (nonlinear_arith)
                requires
                    divisor as int == c2 * (divisor as int / c2) + divisor as int % c2,
                    divisor as int / c2 == 0,
                    divisor as int % c2 < c2,
            ;
            lemma_pow2_adds(bits as nat, (32 - bits) as nat);
            vstd::arithmetic::power2::lemma2_to64();
            assert(divisor * pw <= u32::MAX) by (nonlinear_arith)
                requires
                    divisor < c2,
                    pw * c2 == 0x1_0000_0000,
                    pw > 0,
            ;
            vstd::bits::lemma_u32_shl_is_mul(divisor, bits);
            assert(top < pw);
            assert(pw <= d) by (nonlinear_arith)
                requires
                    d as int == divisor * pw,
                    divisor >= 1,
                    pw > 0,
            ;
        }
        let remainder = mod_by_preinversion(top, second, d, inverse);
        let r = limbs_mod_limb_normalized_shl(low, remainder, d, inverse, bits);
        proof {
            let pw = pow2(bits as nat) as int;
            let b = limb_base() as int;
            let pp = pow_base((len - 1) as nat) as int;
            lemma_shl_limbs_val(xs@, bits as nat);
            lemma_shl_prefix(xs@, len - 1, bits as nat);
            assert(xs@.take(len - 1) =~= low@);
            lemma_limbs_val_split(sh, len - 1);
            lemma_val_skip_prev(sh, len as int);
            lemma_val_skip_prev(sh, len + 1);
            assert(sh.skip(len + 1).len() == 0);
            assert(limbs_val(sh.skip(len + 1)) == 0);
            let a = limbs_val(sh.take(len - 1)) as int;
            let y = top * b + second;
            assert(limbs_val(sh.skip(len - 1)) == y);
            assert(limbs_val(sh) == a + pp * y);
            let dd = d as int;
            // r == (a + (y % d) * pp) % d == (a + y * pp) % d
            vstd::arithmetic::div_mod::lemma_add_mod_noop_right(a, (y % dd) * pp, dd);
            vstd::arithmetic::div_mod::lemma_mul_mod_noop_left(y, pp, dd);
            vstd::arithmetic::div_mod::lemma_add_mod_noop_right(a, y * pp, dd);
            assert(remainder == y % dd);
            assert(r == (a + (y % dd) * pp) % dd) by (nonlinear_arith)
                requires
                    r == (a + remainder * pp) % dd,
                    remainder == y % dd,
            ;
            assert(y * pp == pp * y) by (nonlinear_arith);
            assert(r == limbs_val(sh) as int % dd);
            // (n * 2^bits) % (divisor * 2^bits) == (n % divisor) * 2^bits
            vstd::arithmetic::div_mod::lemma_truncate_middle(n, pw, divisor as int);
            assert(pw * n == n * pw) by (nonlinear_arith);
            assert(dd == pw * divisor) by (nonlinear_arith)
                requires
                    dd == divisor * pw,
            ;
            assert(r == pw * (n % divisor as int));
            vstd::bits::lemma_u32_shr_is_div(r, bits);
            vstd::arithmetic::div_mod::lemma_div_multiples_vanish(n % divisor as int, pw);
        }
        r >> bits
    }
}

/// Shifts a nonzero divisor left until its top bit is set; returns the shifted divisor and the
/// shift.
pub fn normalize_divisor(divisor: u32) -> (r: (u32, u32))
    requires
        divisor != 0,
    ensures
        r.1 < 32,
        r.0 >= 0x8000_0000,
        r.0 == divisor * pow2(r.1 as nat),
{
    let bits = divisor.leading_zeros();
    proof {
        vstd::std_specs::bits::axiom_u32_leading_zeros(divisor);
        vstd::arithmetic::power2::lemma2_to64();
    }
    if bits == 0 {
        proof {
            assert(divisor >= 0x8000_0000) by (bit_vector)
                requires
                    (divisor >> 31u32) & 1u32 != 0u32,
            ;
        }
        return (divisor, 0);
    }
    proof {
        assert((divisor << bits) >= 0x8000_0000) by (bit_vector)
            requires
                0 < bits < 32,
                (divisor >> ((31 - bits) as u32)) & 1u32 != 0u32,
                divisor >> ((32 - bits) as u32) == 0,
        ;
        let pw = pow2(bits as nat) as int;
        vstd::bits::lemma_u32_shr_is_div(divisor, (32 - bits) as u32);
        let c2 = pow2((32 - bits) as nat) as int;
        vstd::arithmetic::power2::lemma_pow2_pos((32 - bits) as nat);
        vstd::arithmetic::power2::lemma_pow2_pos(bits as nat);
        vstd::arithmetic::div_mod::lemma_fundamental_div_mod(divisor as int, c2);
        assert(divisor < c2) by (nonlinear_arith)
            requires
                divisor as int == c2 * (divisor as int / c2) + divisor as int % c2,
                divisor as int / c2 == 0,
                divisor as int % c2 < c2,
        ;
        lemma_pow2_adds(bits as nat, (32 - bits) as nat);
        assert(divisor * pw <= u32::MAX) by (nonlinear_arith)
            requires
                divisor < c2,
                pw * c2 == 0x1_0000_0000,
                pw > 0,
        ;
        vstd::bits::lemma_u32_shl_is_mul(divisor, bits);
    }
    (divisor << bits, bits)
}

/// Limb `j` of `shl_limbs(xs, bits)` for any `j` up to `xs.len()`, the top limb included.
fn shl_limb_or_top(xs: &[u32], j: usize, bits: u32) -> (r: u32)
    requires
        j <= xs@.len(),
        bits < 32,
    ensures
        r == shl_limbs(xs@, bits as nat)[j as int],
{
    let n = xs.len();
    if j < n {
        return shl_limb(xs, j, bits);
    }
    proof {
        vstd::arithmetic::power2::lemma2_to64();
    }
    if n == 0 {
        0
    } else if bits == 0 {
        proof {
            assert(xs@[n - 1] as nat / pow2(32) == 0);
        }
        0
    } else {
        proof {
            vstd::bits::lemma_u32_shr_is_div(xs@[n - 1], (32 - bits) as u32);
            lemma_shr_bound(xs@[n - 1], bits as nat);
        }
        xs[n - 1] >> (32 - bits)
    }
}

/// The quotient limbs (one more than `xs` has) and the remainder of the number held in `xs` by a
/// nonzero limb. The divisor is normalized and its reciprocal word computed once; the dividend's
/// limbs, shifted by the same amount on the fly, are folded in from the most significant one,
/// one quotient limb per step through `div_by_preinversion`; the final remainder is shifted
/// back.
pub fn limbs_div_mod_limb(xs: &[u32], divisor: u32) -> (r: (Vec<u32>, u32))
    requires
        divisor != 0,
        xs@.len() < usize::MAX,
    ensures
        r.0@.len() == xs@.len() + 1,
        limbs_val(r.0@) == limbs_val(xs@) / (divisor as nat),
        r.1 == limbs_val(xs@) % (divisor as nat),
{
    let (d, bits) = normalize_divisor(divisor);
    let inverse = limb_inverse(d);
    let n = xs.len();
    let ghost s = shl_limbs(xs@, bits as nat);
    let mut q: Vec<u32> = Vec::new();
    let mut k: usize = 0;
    while k <= n
        invariant
            k <= n + 1,
            n < usize::MAX,
            q@.len() == k,
        decreases n + 1 - k,
    {
        q.push(0);
        k += 1;
    }
    let mut rem: u32 = 0;
    let mut i: usize = n + 1;
    let ghost dd = d as int;
    proof {
        assert(s.skip(i as int).len() == 0);
        assert(limbs_val(s.skip(i as int)) == 0);
        assert(q@.skip(i as int).len() == 0);
        assert(limbs_val(q@.skip(i as int)) == 0);
    }
    while i > 0
        invariant
            i <= n + 1,
            n == xs@.len(),
            s == shl_limbs(xs@, bits as nat),
            s.len() == n + 1,
            q@.len() == n + 1,
            bits < 32,
            is_limb_inverse(d, inverse),
            dd == d,
            rem < d,
            limbs_val(s.skip(i as int)) == limbs_val(q@.skip(i as int)) * dd + rem,
        decreases i,
    {
        i -= 1;
        let ghost q_before = q@;
        let x = shl_limb_or_top(xs, i, bits);
        let (digit, next) = div_by_preinversion(rem, x, d, inverse);
        q.set(i, digit);
        proof {
            let b = limb_base() as int;
            let cur = rem * b + x;
            vstd::arithmetic::div_mod::lemma_fundamental_div_mod(cur, dd);
            assert(cur == digit * dd + next) by (nonlinear_arith)
                requires
                    cur == dd * (cur / dd) + cur % dd,
                    digit == cur / dd,
                    next == cur % dd,
            ;
            lemma_val_skip_prev(s, i + 1);
            lemma_val_skip_prev(q@, i + 1);
            assert(q@.skip(i + 1) =~= q_before.skip(i + 1));
            let qa = limbs_val(q_before.skip(i + 1)) as int;
            assert(x + b * (qa * dd + rem) == (digit + b * qa) * dd + next) by (nonlinear_arith)
                requires
                    cur == rem * b + x,
                    cur == digit * dd + next,
            ;
        }
        rem = next;
    }
    let remainder = rem >> bits;
    proof {
        assert(s.skip(0) =~= s);
        assert(q@.skip(0) =~= q@);
        lemma_shl_limbs_val(xs@, bits as nat);
        let pw = pow2(bits as nat) as int;
        vstd::arithmetic::power2::lemma_pow2_pos(bits as nat);
        let nv = limbs_val(xs@) as int;
        let qv = limbs_val(q@) as int;
        let t = nv - qv * divisor;
        assert(rem == t * pw) by (nonlinear_arith)
            requires
                nv * pw == qv * dd + rem,
                dd == divisor * pw,
                t == nv - qv * divisor,
        ;
        assert(0 <= t < divisor) by (nonlinear_arith)
            requires
                rem == t * pw,
                0 <= rem < dd,
                dd == divisor * pw,
                pw > 0,
        ;
        vstd::bits::lemma_u32_shr_is_div(rem, bits);
        vstd::arithmetic::div_mod::lemma_div_multiples_vanish(t, pw);
        assert(t * pw == pw * t) by (nonlinear_arith);
        vstd::arithmetic::div_mod::lemma_fundamental_div_mod_converse(nv, divisor as int, qv, t);
    }
    (q, remainder)
}

} // verus!
