//! An arbitrary-precision integer kernel over 32-bit limbs, with its contracts proved.

pub mod arith;
pub mod bit_scan;
pub mod bits;
pub mod decimal;
pub mod div_limb;
pub mod double_limb;
pub mod gcd;
pub mod integer;
pub mod laws;
pub mod limbs;
pub mod natural;
pub mod rounding_mode;
pub mod slices;
pub mod strings;
pub mod twos_complement;
pub mod twos_iter;
pub mod wrapping;
