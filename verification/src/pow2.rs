//! Powers of two: both hand-built tables force their cell count to the next
//! power of two at construction, so that `hash & (count - 1)` is a valid
//! home index.

use vstd::prelude::*;

verus! {

/// True when `c` is a power of two.
pub open spec fn is_pow2(c: nat) -> bool
    decreases c,
{
    if c == 0 {
        false
    } else if c == 1 {
        true
    } else {
        c % 2 == 0 && is_pow2(c / 2)
    }
}

/// The smallest power of two that is at least `s`.
pub open spec fn next_pow2(s: nat) -> nat
    decreases s,
{
    if s <= 1 {
        1
    } else {
        2 * next_pow2((s + 1) / 2)
    }
}

/// Any power of two at least `s` is at least `next_pow2(s)`.
pub proof fn lemma_pow2_ge(s: nat, p: nat)
    requires
        is_pow2(p),
        p >= s,
    ensures
        p >= next_pow2(s),
    decreases s,
{
    if s <= 1 {
    } else {
        let s2 = (s + 1) / 2;
        assert(p >= 2);
        lemma_pow2_ge(s2, p / 2);
    }
}

/// `next_pow2` returns a power of two that is at least its argument; with
/// `lemma_pow2_ge` it is the smallest such. This is the effective capacity
/// that construction with a size hint yields.
pub proof fn lemma_next_pow2(s: nat)
    ensures
        is_pow2(next_pow2(s)),
        next_pow2(s) >= s,
        next_pow2(s) >= 1,
    decreases s,
{
    if s <= 1 {
    } else {
        lemma_next_pow2((s + 1) / 2);
    }
}

/// Computes the smallest power of two that is at least `size`.
pub fn next_power_of_two(size: usize) -> (c: usize)
    requires
        size <= usize::MAX / 2 + 1,
    ensures
        c as nat == next_pow2(size as nat),
        c >= size,
        c >= 1,
        is_pow2(c as nat),
{
    proof {
        lemma_next_pow2(size as nat);
    }
    let mut c: usize = 1;
    while c < size
        invariant
            1 <= c,
            size <= usize::MAX / 2 + 1,
            is_pow2(c as nat),
            c as nat <= next_pow2(size as nat),
        decreases next_pow2(size as nat) - c,
    {
        proof {
            lemma_next_pow2(size as nat);
            lemma_pow2_double(c as nat, next_pow2(size as nat));
        }
        c = c * 2;
    }
    proof {
        lemma_pow2_ge(size as nat, c as nat);
    }
    c
}

/// Of two powers of two, the larger is at least double the smaller.
pub proof fn lemma_pow2_double(a: nat, b: nat)
    requires
        is_pow2(a),
        is_pow2(b),
        a < b,
    ensures
        2 * a <= b,
    decreases b,
{
    if a == b / 2 {
    } else if a < b / 2 {
        lemma_pow2_double(a, b / 2);
    } else {
        lemma_pow2_double(b / 2, a);
    }
}

} // verus!
