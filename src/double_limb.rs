//! Arithmetic on numbers of two limbs, given as (high, low) pairs.
use crate::limbs::limb_base;
use vstd::prelude::*;

verus! {

/// The number that the pair `(high, low)` stands for.
pub open spec fn double_val(high: u32, low: u32) -> nat {
    (high * limb_base() + low) as nat
}

/// The sum of two double limbs, modulo `B^2`.
pub fn xx_add_yy_is_zz(x_1: u32, x_0: u32, y_1: u32, y_0: u32) -> (r: (u32, u32))
    ensures
        double_val(r.0, r.1) == (double_val(x_1, x_0) + double_val(y_1, y_0)) % (limb_base()
            * limb_base()),
{
    let (z_0, carry) = if x_0 <= u32::MAX - y_0 {
        (x_0 + y_0, false)
    } else {
        ((x_0 as u64 + y_0 as u64 - 0x1_0000_0000) as u32, true)
    };
    let mut z_1 = x_1.wrapping_add(y_1);
    if carry {
        z_1 = z_1.wrapping_add(1);
    }
    proof {
        let s = double_val(x_1, x_0) + double_val(y_1, y_0);
        let bb = limb_base() * limb_base();
        let c: int = if carry {
            1
        } else {
            0
        };
        let w: int = if x_1 + y_1 + c >= 0x1_0000_0000 {
            1
        } else {
            0
        };
        assert(z_1 == x_1 + y_1 + c - w * 0x1_0000_0000);
        assert(z_0 == x_0 + y_0 - c * 0x1_0000_0000);
        assert(double_val(z_1, z_0) == s - w * bb);
        vstd::arithmetic::div_mod::lemma_fundamental_div_mod_converse(
            s as int,
            bb as int,
            w,
            double_val(z_1, z_0) as int,
        );
    }
    (z_1, z_0)
}

/// The difference of two double limbs, modulo `B^2`, computed limb by limb with a borrow.
pub fn _explicit_xx_sub_yy_is_zz(x_1: u32, x_0: u32, y_1: u32, y_0: u32) -> (r: (u32, u32))
    ensures
        double_val(r.0, r.1) == (double_val(x_1, x_0) - double_val(y_1, y_0)) % ((limb_base()
            * limb_base()) as int),
{
    let (z_0, borrow) = if x_0 >= y_0 {
        (x_0 - y_0, false)
    } else {
        ((x_0 as u64 + 0x1_0000_0000 - y_0 as u64) as u32, true)
    };
    let mut z_1 = x_1.wrapping_sub(y_1);
    if borrow {
        z_1 = z_1.wrapping_sub(1);
    }
    proof {
        let s = double_val(x_1, x_0) - double_val(y_1, y_0);
        let bb = (limb_base() * limb_base()) as int;
        let c: int = if borrow {
            1
        } else {
            0
        };
        let w: int = if x_1 - y_1 - c < 0 {
            1
        } else {
            0
        };
        assert(z_1 == x_1 - y_1 - c + w * 0x1_0000_0000);
        assert(z_0 == x_0 - y_0 + c * 0x1_0000_0000);
        assert(double_val(z_1, z_0) == s + w * bb);
        vstd::arithmetic::div_mod::lemma_fundamental_div_mod_converse(
            s,
            bb,
            -w,
            double_val(z_1, z_0) as int,
        );
    }
    (z_1, z_0)
}

/// The difference of two double limbs, modulo `B^2`, computed in a double-width word.
pub fn _implicit_xx_sub_yy_is_zz(x_1: u32, x_0: u32, y_1: u32, y_0: u32) -> (r: (u32, u32))
    ensures
        double_val(r.0, r.1) == (double_val(x_1, x_0) - double_val(y_1, y_0)) % ((limb_base()
            * limb_base()) as int),
{
    let x: u64 = x_1 as u64 * 0x1_0000_0000 + x_0 as u64;
    let y: u64 = y_1 as u64 * 0x1_0000_0000 + y_0 as u64;
    let z = x.wrapping_sub(y);
    proof {
        let bb = (limb_base() * limb_base()) as int;
        let w: int = if x < y {
            1
        } else {
            0
        };
        assert(z == x - y + w * bb);
        vstd::arithmetic::div_mod::lemma_fundamental_div_mod_converse(x - y, bb, -w, z as int);
    }
    ((z / 0x1_0000_0000) as u32, (z % 0x1_0000_0000) as u32)
}

/// The double-limb product of two limbs.
pub fn x_mul_y_is_zz(x: u32, y: u32) -> (r: (u32, u32))
    ensures
        double_val(r.0, r.1) == x * y,
{
    assert(x as u64 * y as u64 <= 0xffff_ffff * 0xffff_ffff) by (nonlinear_arith)
        requires
            x < 0x1_0000_0000,
            y < 0x1_0000_0000,
    ;
    let z: u64 = x as u64 * y as u64;
    ((z / 0x1_0000_0000) as u32, (z % 0x1_0000_0000) as u32)
}

/// The quotient and remainder of a double limb by a limb, when the quotient fits in a limb,
/// that is, when the high limb is below the divisor.
pub fn xx_div_mod_y_is_qr(x_1: u32, x_0: u32, y: u32) -> (r: (u32, u32))
    requires
        x_1 < y,
    ensures
        r.0 * y + r.1 == double_val(x_1, x_0),
        r.1 < y,
{
    let x: u64 = x_1 as u64 * 0x1_0000_0000 + x_0 as u64;
    let q = x / y as u64;
    let rem = x % y as u64;
    proof {
        assert(x < y * 0x1_0000_0000) by (nonlinear_arith)
            requires
                x == x_1 * 0x1_0000_0000 + x_0,
                x_1 < y,
                x_0 < 0x1_0000_0000,
        ;
        vstd::arithmetic::div_mod::lemma_fundamental_div_mod(x as int, y as int);
        assert(q < 0x1_0000_0000) by (nonlinear_arith)
            requires
                x == y * q + rem,
                x < y * 0x1_0000_0000,
                rem >= 0,
                y > 0,
        ;
        assert(q * y == y * q) by (nonlinear_arith);
    }
    (q as u32, rem as u32)
}

/// The quotient and remainder of a double limb by a limb, or `None` when the quotient does
/// not fit in a limb, that is, when the high limb is not below the divisor (a zero divisor
/// included).
pub fn checked_xx_div_mod_y_is_qr(x_1: u32, x_0: u32, y: u32) -> (r: Option<(u32, u32)>)
    ensures
        r is None <==> x_1 >= y,
        r matches Some(qr) ==> qr.0 * y + qr.1 == double_val(x_1, x_0) && qr.1 < y,
{
    if x_1 >= y {
        None
    } else {
        Some(xx_div_mod_y_is_qr(x_1, x_0, y))
    }
}

} // verus!
