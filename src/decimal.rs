//! Reading values written in decimal.
use crate::integer::Integer;
use crate::natural::Natural;
use vstd::prelude::*;
use vstd::string::StrSliceExecFns;

verus! {

/// Whether `c` is a decimal digit.
pub open spec fn is_digit(c: char) -> bool {
    '0' <= c && c <= '9'
}

/// The value of a decimal digit.
pub open spec fn digit_value(c: char) -> nat {
    (c as u32 - '0' as u32) as nat
}

/// The number that a string of decimal digits stands for, the most significant first.
pub open spec fn decimal_value(s: Seq<char>) -> nat
    decreases s.len(),
{
    if s.len() == 0 {
        0
    } else {
        decimal_value(s.drop_last()) * 10 + digit_value(s.last())
    }
}

/// A nonempty string of decimal digits.
pub open spec fn is_decimal(s: Seq<char>) -> bool {
    s.len() > 0 && forall|i: int| 0 <= i < s.len() ==> is_digit(#[trigger] s[i])
}

/// An optional minus sign followed by a nonempty string of decimal digits.
pub open spec fn is_signed_decimal(s: Seq<char>) -> bool {
    is_decimal(s) || (s.len() > 0 && s[0] == '-' && is_decimal(s.skip(1)))
}

/// The value of a string accepted by `is_signed_decimal`.
pub open spec fn signed_decimal_value(s: Seq<char>) -> int {
    if s.len() > 0 && s[0] == '-' {
        -(decimal_value(s.skip(1)) as int)
    } else {
        decimal_value(s) as int
    }
}

/// Reads the characters of `s` from `start` on as decimal digits.
fn parse_digits(s: &str, start: usize) -> (r: Option<Natural>)
    requires
        start <= s@.len(),
    ensures
        r is Some <==> is_decimal(s@.skip(start as int)),
        r matches Some(n) ==> n.wf() && n@ == decimal_value(s@.skip(start as int)),
{
    let len = s.unicode_len();
    if start >= len {
        return None;
    }
    let ghost t = s@.skip(start as int);
    let mut n = Natural::zero();
    let mut i = start;
    proof {
        assert(t.take(0).len() == 0);
    }
    while i < len
        invariant
            len == s@.len(),
            start <= i <= len,
            t == s@.skip(start as int),
            n.wf(),
            n@ == decimal_value(t.take(i - start)),
            forall|j: int| 0 <= j < i - start ==> is_digit(#[trigger] t[j]),
        decreases len - i,
    {
        let c = s.get_char(i);
        if c < '0' || c > '9' {
            proof {
                assert(t[i - start] == c);
            }
            return None;
        }
        let d = (c as u32) - ('0' as u32);
        proof {
            assert(t[i - start] == c);
            assert(t.take(i - start + 1).drop_last() =~= t.take(i - start));
        }
        n = n.mul_limb(10).add_limb(d);
        i += 1;
    }
    proof {
        assert(t.take(i - start) =~= t);
    }
    Some(n)
}

impl Natural {
    /// Reads a nonempty string of decimal digits; any other string gives `None`.
    pub fn from_str(s: &str) -> (r: Option<Natural>)
        ensures
            r is Some <==> is_decimal(s@),
            r matches Some(n) ==> n.wf() && n@ == decimal_value(s@),
    {
        proof {
            assert(s@.skip(0) =~= s@);
        }
        parse_digits(s, 0)
    }
}

impl Integer {
    /// Reads an optional minus sign followed by a nonempty string of decimal digits; any other
    /// string gives `None`.
    pub fn from_str(s: &str) -> (r: Option<Integer>)
        ensures
            r is Some <==> is_signed_decimal(s@),
            r matches Some(x) ==> x.wf() && x@ == signed_decimal_value(s@),
    {
        let len = s.unicode_len();
        if len > 0 && s.get_char(0) == '-' {
            proof {
                assert(!is_digit(s@[0]));
            }
            match parse_digits(s, 1) {
                Some(n) => Some(Integer::from_sign_and_abs(false, n)),
                None => None,
            }
        } else {
            proof {
                assert(s@.skip(0) =~= s@);
            }
            match parse_digits(s, 0) {
                Some(n) => Some(Integer::from_natural(n)),
                None => None,
            }
        }
    }
}

} // verus!
