//! The greatest common divisor of two machine words.
use vstd::arithmetic::power2::{lemma_pow2_unfold, pow2};
use vstd::bits::{lemma_u64_shl_is_mul, lemma_u64_shr_is_div};
use vstd::prelude::*;
use vstd::std_specs::bits::{axiom_u64_trailing_zeros, u64_trailing_zeros};

verus! {

/// `n` is `d` times `k`.
pub open spec fn is_multiple(n: int, d: int, k: int) -> bool {
    n == d * k
}

/// `d` divides `n`.
pub open spec fn divides(d: int, n: int) -> bool {
    exists|k: int| #[trigger] is_multiple(n, d, k)
}

/// The greatest common divisor, by Euclid's recursion; `spec_gcd(0, 0) == 0`.
pub open spec fn spec_gcd(x: nat, y: nat) -> nat
    decreases y,
{
    if y == 0 {
        x
    } else {
        spec_gcd(y, x % y)
    }
}

/// The greatest common divisor divides both arguments.
pub proof fn lemma_gcd_divides(x: nat, y: nat)
    ensures
        divides(spec_gcd(x, y) as int, x as int),
        divides(spec_gcd(x, y) as int, y as int),
    decreases y,
{
    let g = spec_gcd(x, y) as int;
    if y == 0 {
        assert(is_multiple(x as int, g, 1));
        assert(is_multiple(0, g, 0));
    } else {
        lemma_gcd_divides(y, x % y);
        let k1 = choose|k: int| #[trigger] is_multiple(y as int, g, k);
        let k2 = choose|k: int| #[trigger] is_multiple((x % y) as int, g, k);
        let q = (x / y) as int;
        assert(x as int == y * q + (x % y)) by (nonlinear_arith)
            requires
                y > 0,
                q == x / y,
        ;
        assert(x as int == g * (k1 * q + k2)) by (nonlinear_arith)
            requires
                x as int == y * q + (x % y),
                y as int == g * k1,
                (x % y) as int == g * k2,
        ;
        assert(is_multiple(x as int, g, k1 * q + k2));
    }
}

/// Every common divisor of the arguments divides their greatest common divisor.
pub proof fn lemma_gcd_greatest(x: nat, y: nat, d: int)
    requires
        divides(d, x as int),
        divides(d, y as int),
    ensures
        divides(d, spec_gcd(x, y) as int),
    decreases y,
{
    if y > 0 {
        let k1 = choose|k: int| #[trigger] is_multiple(x as int, d, k);
        let k2 = choose|k: int| #[trigger] is_multiple(y as int, d, k);
        let q = (x / y) as int;
        assert((x % y) as int == d * (k1 - k2 * q)) by (nonlinear_arith)
            requires
                y > 0,
                q == x / y,
                x as int == d * k1,
                y as int == d * k2,
        ;
        assert(is_multiple((x % y) as int, d, k1 - k2 * q));
        lemma_gcd_greatest(y, x % y, d);
    }
}

/// Two naturals that divide each other are equal.
proof fn lemma_divides_antisymmetric(a: nat, b: nat)
    requires
        divides(a as int, b as int),
        divides(b as int, a as int),
    ensures
        a == b,
{
    let k1 = choose|k: int| #[trigger] is_multiple(b as int, a as int, k);
    let k2 = choose|k: int| #[trigger] is_multiple(a as int, b as int, k);
    if a == 0 {
        assert(b == 0) by (nonlinear_arith)
            requires
                b as int == a * k1,
                a == 0,
        ;
    } else {
        assert(k1 * k2 == 1) by (nonlinear_arith)
            requires
                a > 0,
                b as int == a * k1,
                a as int == b * k2,
        ;
        assert(k1 == 1) by (nonlinear_arith)
            requires
                k1 * k2 == 1,
                b as int == a * k1,
                a > 0,
                b >= 0,
        ;
    }
}

/// The greatest common divisor is symmetric.
pub proof fn lemma_gcd_comm(x: nat, y: nat)
    ensures
        spec_gcd(x, y) == spec_gcd(y, x),
{
    if x == 0 && y == 0 {
    } else if x == 0 {
        assert(spec_gcd(0, y) == spec_gcd(y, 0));
    } else if y == 0 {
        assert(spec_gcd(0, x) == spec_gcd(x, 0));
    } else if x < y {
        assert(x % y == x) by (nonlinear_arith)
            requires
                x < y,
        ;
    } else if x > y {
        assert(y % x == y) by (nonlinear_arith)
            requires
                y < x,
        ;
    }
}

/// Subtracting the smaller argument from the larger keeps the greatest common divisor.
pub proof fn lemma_gcd_sub(x: nat, y: nat)
    requires
        x >= y,
    ensures
        spec_gcd(x, y) == spec_gcd((x - y) as nat, y),
{
    if y > 0 {
        assert(((x - y) as nat) % y == x % y) by (nonlinear_arith)
            requires
                x >= y > 0,
        ;
    }
}

/// A factor of two that only one argument has does not count.
pub proof fn lemma_gcd_half(x: nat, y: nat)
    requires
        y % 2 == 1,
    ensures
        spec_gcd(2 * x, y) == spec_gcd(x, y),
{
    let g1 = spec_gcd(2 * x, y);
    let g2 = spec_gcd(x, y);
    lemma_gcd_divides(2 * x, y);
    lemma_gcd_divides(x, y);
    let a = choose|k: int| #[trigger] is_multiple(x as int, g2 as int, k);
    assert(2 * x == g2 * (2 * a)) by (nonlinear_arith)
        requires
            x as int == g2 * a,
    ;
    assert(is_multiple((2 * x) as int, g2 as int, 2 * a));
    lemma_gcd_greatest(2 * x, y, g2 as int);
    let b = choose|k: int| #[trigger] is_multiple((2 * x) as int, g1 as int, k);
    let c = choose|k: int| #[trigger] is_multiple(y as int, g1 as int, k);
    vstd::arithmetic::div_mod::lemma_mul_mod_noop(g1 as int, c, 2);
    vstd::arithmetic::div_mod::lemma_mul_mod_noop(g1 as int, b, 2);
    assert(g1 % 2 == 1) by {
        if g1 % 2 == 0 {
            assert((0 * (c % 2)) % 2 == 0);
        }
    }
    assert(b % 2 == 0) by {
        if b % 2 == 1 {
            assert((1 * 1) % 2 == 1);
        }
    }
    assert(x as int == g1 * (b / 2)) by (nonlinear_arith)
        requires
            (2 * x) as int == g1 * b,
            b % 2 == 0,
    ;
    assert(is_multiple(x as int, g1 as int, b / 2));
    lemma_gcd_greatest(x, y, g1 as int);
    lemma_divides_antisymmetric(g1, g2);
}

/// A factor of two that both arguments have comes out of the greatest common divisor.
pub proof fn lemma_gcd_double(x: nat, y: nat)
    ensures
        spec_gcd(2 * x, 2 * y) == 2 * spec_gcd(x, y),
    decreases y,
{
    if y > 0 {
        assert((2 * x) % (2 * y) == 2 * (x % y)) by (nonlinear_arith)
            requires
                y > 0,
        {
            let q = x / y;
            let r = x % y;
            assert(x == y * q + r);
            assert(2 * x == (2 * y) * q + 2 * r);
            vstd::arithmetic::div_mod::lemma_fundamental_div_mod_converse(
                (2 * x) as int,
                (2 * y) as int,
                q as int,
                (2 * r) as int,
            );
        }
        lemma_gcd_double(y, x % y);
    }
}

/// The greatest common divisor of a positive number and anything is at most that number.
pub proof fn lemma_gcd_le(x: nat, y: nat)
    requires
        x > 0,
    ensures
        spec_gcd(x, y) <= x,
{
    lemma_gcd_divides(x, y);
    let g = spec_gcd(x, y);
    let k = choose|k: int| #[trigger] is_multiple(x as int, g as int, k);
    assert(g <= x) by (nonlinear_arith)
        requires
            x as int == g * k,
            x > 0,
            g >= 0,
    ;
}

/// Powers of two that only one argument has do not count.
pub proof fn lemma_gcd_strip(x: nat, t: nat, y: nat)
    requires
        y % 2 == 1,
    ensures
        spec_gcd(x * pow2(t), y) == spec_gcd(x, y),
    decreases t,
{
    if t == 0 {
        vstd::arithmetic::power2::lemma2_to64();
        assert(x * 1 == x);
    } else {
        lemma_pow2_unfold(t);
        let h = x * pow2((t - 1) as nat);
        assert(x * pow2(t) == 2 * h) by (nonlinear_arith)
            requires
                pow2(t) == 2 * pow2((t - 1) as nat),
                h == x * pow2((t - 1) as nat),
        ;
        lemma_gcd_half(h, y);
        lemma_gcd_strip(x, (t - 1) as nat, y);
    }
}

/// Powers of two that both arguments have come out of the greatest common divisor.
pub proof fn lemma_gcd_pow2(x: nat, y: nat, t: nat)
    ensures
        spec_gcd(x * pow2(t), y * pow2(t)) == pow2(t) * spec_gcd(x, y),
    decreases t,
{
    if t == 0 {
        vstd::arithmetic::power2::lemma2_to64();
        assert(x * 1 == x);
        assert(y * 1 == y);
    } else {
        lemma_pow2_unfold(t);
        let p = pow2((t - 1) as nat);
        assert(x * pow2(t) == 2 * (x * p)) by (nonlinear_arith)
            requires
                pow2(t) == 2 * p,
        ;
        assert(y * pow2(t) == 2 * (y * p)) by (nonlinear_arith)
            requires
                pow2(t) == 2 * p,
        ;
        lemma_gcd_double(x * p, y * p);
        lemma_gcd_pow2(x, y, (t - 1) as nat);
        assert(2 * (p * spec_gcd(x, y)) == pow2(t) * spec_gcd(x, y)) by (nonlinear_arith)
            requires
                pow2(t) == 2 * p,
        ;
    }
}

/// A nonzero word is an odd number times two to the power of its trailing zero count.
proof fn lemma_trailing_zeros_split(x: u64)
    requires
        x != 0,
    ensures
        u64_trailing_zeros(x) < 64,
        (x >> u64_trailing_zeros(x) as u64) % 2 == 1,
        x == (x >> u64_trailing_zeros(x) as u64) * pow2(u64_trailing_zeros(x) as nat),
{
    axiom_u64_trailing_zeros(x);
    let t = u64_trailing_zeros(x) as u64;
    let h = x >> t;
    assert(h & 1 == 1 ==> h % 2 == 1) by (bit_vector);
    let s = (64 - t) as u64;
    assert(x << s == 0);
    assert((x << s) == 0 && t < 64 && s == 64 - t ==> (x >> t) << t == x) by (bit_vector);
    lemma_u64_shr_is_div(x, t);
    vstd::arithmetic::power2::lemma_pow2_pos(t as nat);
    let p = pow2(t as nat) as int;
    vstd::arithmetic::div_mod::lemma_fundamental_div_mod(x as int, p);
    assert((x as int / p) * p <= x) by (nonlinear_arith)
        requires
            p > 0,
            x as int == p * (x as int / p) + x as int % p,
            x as int % p >= 0,
    ;
    lemma_u64_shl_is_mul(h, t);
}

/// The greatest common divisor by Euclid's recursion.
pub fn gcd_euclidean(x: u64, y: u64) -> (r: u64)
    ensures
        r == spec_gcd(x as nat, y as nat),
    decreases y,
{
    if y == 0 {
        x
    } else {
        gcd_euclidean(y, x % y)
    }
}

/// The greatest common divisor by the binary recursion, which halves even arguments and subtracts
/// odd ones.
pub fn gcd_binary(x: u64, y: u64) -> (r: u64)
    ensures
        r == spec_gcd(x as nat, y as nat),
    decreases x + y,
{
    if x == y {
        proof {
            assert(spec_gcd(x as nat, x as nat) == spec_gcd(x as nat, 0)) by {
                if x > 0 {
                    assert((x as nat) % (x as nat) == 0) by (nonlinear_arith)
                        requires
                            x > 0,
                    ;
                }
            }
        }
        x
    } else if x == 0 {
        proof {
            lemma_gcd_comm(0, y as nat);
        }
        y
    } else if y == 0 {
        x
    } else if x % 2 == 0 {
        if y % 2 == 1 {
            proof {
                lemma_gcd_half((x / 2) as nat, y as nat);
            }
            gcd_binary(x / 2, y)
        } else {
            let g = gcd_binary(x / 2, y / 2);
            proof {
                lemma_gcd_double((x / 2) as nat, (y / 2) as nat);
                lemma_gcd_le((x / 2) as nat, (y / 2) as nat);
            }
            g * 2
        }
    } else if y % 2 == 0 {
        proof {
            lemma_gcd_comm(x as nat, y as nat);
            lemma_gcd_half((y / 2) as nat, x as nat);
            lemma_gcd_comm(x as nat, (y / 2) as nat);
        }
        gcd_binary(x, y / 2)
    } else if x > y {
        proof {
            lemma_gcd_sub(x as nat, y as nat);
            lemma_gcd_half(((x - y) / 2) as nat, y as nat);
        }
        gcd_binary((x - y) / 2, y)
    } else {
        proof {
            lemma_gcd_comm(x as nat, y as nat);
            lemma_gcd_sub(y as nat, x as nat);
            lemma_gcd_half(((y - x) / 2) as nat, x as nat);
        }
        gcd_binary((y - x) / 2, x)
    }
}

/// The greatest common divisor of two words: the common power of two is taken out, then the odd
/// parts are reduced by subtracting the smaller from the larger and shifting out the zeros.
pub fn gcd(x: u64, y: u64) -> (r: u64)
    ensures
        r == spec_gcd(x as nat, y as nat),
{
    if x == 0 {
        proof {
            lemma_gcd_comm(0, y as nat);
        }
        return y;
    }
    if y == 0 {
        return x;
    }
    let x_zeros = x.trailing_zeros();
    let y_zeros = y.trailing_zeros();
    proof {
        lemma_trailing_zeros_split(x);
        lemma_trailing_zeros_split(y);
    }
    let f = if x_zeros < y_zeros { x_zeros } else { y_zeros };
    let mut a = x >> x_zeros;
    let mut b = y >> y_zeros;
    proof {
        let (a0, b0) = (a as nat, b as nat);
        // gcd(x, y) == 2^f * gcd(a0, b0)
        let xf = a0 * pow2((x_zeros - f) as nat);
        let yf = b0 * pow2((y_zeros - f) as nat);
        vstd::arithmetic::power2::lemma_pow2_adds((x_zeros - f) as nat, f as nat);
        vstd::arithmetic::power2::lemma_pow2_adds((y_zeros - f) as nat, f as nat);
        assert(x == xf * pow2(f as nat)) by (nonlinear_arith)
            requires
                x == a0 * pow2(x_zeros as nat),
                pow2(x_zeros as nat) == pow2((x_zeros - f) as nat) * pow2(f as nat),
                xf == a0 * pow2((x_zeros - f) as nat),
        ;
        assert(y == yf * pow2(f as nat)) by (nonlinear_arith)
            requires
                y == b0 * pow2(y_zeros as nat),
                pow2(y_zeros as nat) == pow2((y_zeros - f) as nat) * pow2(f as nat),
                yf == b0 * pow2((y_zeros - f) as nat),
        ;
        lemma_gcd_pow2(xf, yf, f as nat);
        if x_zeros >= y_zeros {
            assert(yf == b0) by {
                vstd::arithmetic::power2::lemma2_to64();
            }
            lemma_gcd_strip(a0, (x_zeros - f) as nat, b0);
        } else {
            assert(xf == a0) by {
                vstd::arithmetic::power2::lemma2_to64();
            }
            lemma_gcd_comm(a0, yf);
            lemma_gcd_strip(b0, (y_zeros - f) as nat, a0);
            lemma_gcd_comm(a0, b0);
        }
    }
    while a != b
        invariant
            a % 2 == 1,
            b % 2 == 1,
            spec_gcd(x as nat, y as nat) == pow2(f as nat) * spec_gcd(a as nat, b as nat),
            f < 64,
        decreases a + b,
    {
        if a < b {
            let d = b - a;
            proof {
                lemma_gcd_comm(a as nat, b as nat);
                lemma_gcd_sub(b as nat, a as nat);
                lemma_trailing_zeros_split(d);
                lemma_gcd_strip((d >> u64_trailing_zeros(d) as u64) as nat, u64_trailing_zeros(d) as nat, a as nat);
                lemma_gcd_comm(a as nat, (d >> u64_trailing_zeros(d) as u64) as nat);
                vstd::arithmetic::power2::lemma_pow2_pos(u64_trailing_zeros(d) as nat);
                let h = (d >> u64_trailing_zeros(d) as u64) as nat;
                assert(h <= d) by (nonlinear_arith)
                    requires
                        d == h * pow2(u64_trailing_zeros(d) as nat),
                        pow2(u64_trailing_zeros(d) as nat) > 0,
                ;
            }
            b = d >> d.trailing_zeros();
        } else {
            let d = a - b;
            proof {
                lemma_gcd_sub(a as nat, b as nat);
                lemma_trailing_zeros_split(d);
                lemma_gcd_strip((d >> u64_trailing_zeros(d) as u64) as nat, u64_trailing_zeros(d) as nat, b as nat);
                vstd::arithmetic::power2::lemma_pow2_pos(u64_trailing_zeros(d) as nat);
                let h = (d >> u64_trailing_zeros(d) as u64) as nat;
                assert(h <= d) by (nonlinear_arith)
                    requires
                        d == h * pow2(u64_trailing_zeros(d) as nat),
                        pow2(u64_trailing_zeros(d) as nat) > 0,
                ;
            }
            a = d >> d.trailing_zeros();
        }
    }
    proof {
        assert(spec_gcd(a as nat, a as nat) == a) by {
            assert((a as nat) % (a as nat) == 0) by (nonlinear_arith)
                requires
                    a > 0,
            ;
            assert(spec_gcd(a as nat, a as nat) == spec_gcd(a as nat, 0));
        }
        lemma_gcd_le(x as nat, y as nat);
        assert(a * pow2(f as nat) <= u64::MAX) by (nonlinear_arith)
            requires
                pow2(f as nat) * a <= x,
        ;
        vstd::arithmetic::power2::lemma_pow2_pos(f as nat);
        vstd::bits::lemma_u64_pow2_no_overflow(f as nat);
        lemma_u64_shl_is_mul(a, f as u64);
    }
    a << f
}

/// Whether the most significant bit of a word is set.
pub fn get_highest_bit(x: u64) -> (r: bool)
    ensures
        r == (x >= 0x8000_0000_0000_0000),
{
    assert(x & 0x8000_0000_0000_0000 != 0 <==> x >= 0x8000_0000_0000_0000) by (bit_vector);
    x & 0x8000_0000_0000_0000 != 0
}

/// One step of the subtractive reduction: `(x, v)` becomes `(v, x - v - k * v)` for the `k` in
/// `0..3` that makes the second component smaller than `v`.
fn reduce_step(x: u64, v: u64) -> (r: (u64, u64))
    requires
        0 < v <= x,
        x < 3 * v + v,
        v < 0x8000_0000_0000_0000,
    ensures
        r.0 == v,
        r.1 < v,
        spec_gcd(r.0 as nat, r.1 as nat) == spec_gcd(x as nat, v as nat),
{
    let d = x - v;
    proof {
        lemma_gcd_sub(x as nat, v as nat);
        lemma_gcd_comm(d as nat, v as nat);
    }
    if d < v {
        (v, d)
    } else if d < v * 2 {
        proof {
            lemma_gcd_sub(d as nat, v as nat);
            lemma_gcd_comm((d - v) as nat, v as nat);
        }
        (v, d - v)
    } else {
        proof {
            lemma_gcd_sub(d as nat, v as nat);
            lemma_gcd_sub((d - v) as nat, v as nat);
            lemma_gcd_comm((d - v - v) as nat, v as nat);
        }
        (v, d - v * 2)
    }
}

/// The greatest common divisor by subtractive reduction with quotients below four handled by
/// subtraction, and a remainder computed only for larger quotients.
pub fn gcd_fast_b(x: u64, y: u64) -> (r: u64)
    ensures
        r == spec_gcd(x as nat, y as nat),
{
    let mut a: u64;
    let mut v: u64;
    if x >= y {
        a = x;
        v = y;
    } else {
        a = y;
        v = x;
        proof {
            lemma_gcd_comm(x as nat, y as nat);
        }
    }
    // `a` and `v` both have their top bit set.
    if get_highest_bit(a & v) {
        assert((a & v) >= 0x8000_0000_0000_0000 ==> a >= 0x8000_0000_0000_0000
            && v >= 0x8000_0000_0000_0000) by (bit_vector);
        let d = a - v;
        proof {
            lemma_gcd_sub(a as nat, v as nat);
            lemma_gcd_comm(d as nat, v as nat);
        }
        a = v;
        v = d;
    } else {
        assert((a & v) < 0x8000_0000_0000_0000 && a >= v ==> v < 0x8000_0000_0000_0000)
            by (bit_vector);
    }
    // `v` has its second-highest bit set.
    while v >= 0x4000_0000_0000_0000
        invariant
            v <= a,
            v < 0x8000_0000_0000_0000,
            spec_gcd(a as nat, v as nat) == spec_gcd(x as nat, y as nat),
        decreases v,
    {
        let (a1, v1) = reduce_step(a, v);
        a = a1;
        v = v1;
    }
    while v != 0
        invariant
            v <= a,
            v < 0x4000_0000_0000_0000,
            spec_gcd(a as nat, v as nat) == spec_gcd(x as nat, y as nat),
        decreases v,
    {
        // The quotient is below four: subtract instead of dividing.
        if a < v * 4 {
            let (a1, v1) = reduce_step(a, v);
            a = a1;
            v = v1;
        } else {
            let rem = a % v;
            a = v;
            v = rem;
        }
    }
    a
}

} // verus!
