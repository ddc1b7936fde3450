//! Small helpers over limb slices.
use vstd::prelude::*;

verus! {

/// Whether every element is zero.
pub fn slice_test_zero(xs: &[u32]) -> (r: bool)
    ensures
        r == (forall|i: int| 0 <= i < xs@.len() ==> xs@[i] == 0),
{
    let mut i: usize = 0;
    while i < xs.len()
        invariant
            i <= xs@.len(),
            forall|j: int| 0 <= j < i ==> xs@[j] == 0,
        decreases xs@.len() - i,
    {
        if xs[i] != 0 {
            return false;
        }
        i += 1;
    }
    true
}

/// Sets every element to zero.
pub fn slice_set_zero(xs: &mut [u32])
    ensures
        final(xs)@.len() == old(xs)@.len(),
        forall|i: int| 0 <= i < final(xs)@.len() ==> final(xs)@[i] == 0,
{
    let mut i: usize = 0;
    while i < xs.len()
        invariant
            i <= xs@.len(),
            xs@.len() == old(xs)@.len(),
            forall|j: int| 0 <= j < i ==> xs@[j] == 0,
        decreases xs@.len() - i,
    {
        xs[i] = 0;
        i += 1;
    }
}

/// The number of zeros the slice starts with.
pub fn slice_leading_zeros(xs: &[u32]) -> (r: usize)
    ensures
        r <= xs@.len(),
        forall|i: int| 0 <= i < r ==> xs@[i] == 0,
        r < xs@.len() ==> xs@[r as int] != 0,
{
    let mut i: usize = 0;
    while i < xs.len() && xs[i] == 0
        invariant
            i <= xs@.len(),
            forall|j: int| 0 <= j < i ==> xs@[j] == 0,
        decreases xs@.len() - i,
    {
        i += 1;
    }
    i
}

/// The number of zeros the slice ends with.
pub fn slice_trailing_zeros(xs: &[u32]) -> (r: usize)
    ensures
        r <= xs@.len(),
        forall|i: int| xs@.len() - r <= i < xs@.len() ==> xs@[i] == 0,
        r < xs@.len() ==> xs@[xs@.len() - 1 - r] != 0,
{
    let mut i: usize = 0;
    while i < xs.len() && xs[xs.len() - 1 - i] == 0
        invariant
            i <= xs@.len(),
            forall|j: int| xs@.len() - i <= j < xs@.len() ==> xs@[j] == 0,
        decreases xs@.len() - i,
    {
        i += 1;
    }
    i
}

/// Copies `xs[amount..]` to the front of `xs`; the last `amount` elements stay as they were.
pub fn slice_move_left(xs: &mut [u32], amount: usize)
    requires
        amount <= old(xs)@.len(),
    ensures
        final(xs)@.len() == old(xs)@.len(),
        forall|i: int| 0 <= i < old(xs)@.len() - amount ==> final(xs)@[i] == old(xs)@[i + amount],
        forall|i: int|
            old(xs)@.len() - amount <= i < old(xs)@.len() ==> final(xs)@[i] == old(xs)@[i],
{
    let ghost s = xs@;
    let len = xs.len();
    let mut i: usize = 0;
    while i < len - amount
        invariant
            len == s.len(),
            amount <= len,
            xs@.len() == len,
            i <= len - amount,
            forall|j: int| 0 <= j < i ==> xs@[j] == s[j + amount],
            forall|j: int| i <= j < len ==> xs@[j] == s[j],
        decreases len - amount - i,
    {
        xs[i] = xs[i + amount];
        i += 1;
    }
}

/// Copies `xs[amount..]` to the front of `xs` through a temporary copy.
pub fn slice_move_left_naive(xs: &mut [u32], amount: usize)
    requires
        amount <= old(xs)@.len(),
    ensures
        final(xs)@.len() == old(xs)@.len(),
        forall|i: int| 0 <= i < old(xs)@.len() - amount ==> final(xs)@[i] == old(xs)@[i + amount],
        forall|i: int|
            old(xs)@.len() - amount <= i < old(xs)@.len() ==> final(xs)@[i] == old(xs)@[i],
{
    let ghost s = xs@;
    let len = xs.len();
    let tail = vstd::slice::slice_to_vec(vstd::slice::slice_subrange(xs, amount, len));
    let limit = len - amount;
    let mut i: usize = 0;
    while i < limit
        invariant
            len == s.len(),
            limit == len - amount,
            tail@ == s.subrange(amount as int, len as int),
            xs@.len() == len,
            i <= limit,
            forall|j: int| 0 <= j < i ==> xs@[j] == s[j + amount],
            forall|j: int| i <= j < len ==> xs@[j] == s[j],
        decreases limit - i,
    {
        xs[i] = tail[i];
        i += 1;
    }
}

} // verus!
