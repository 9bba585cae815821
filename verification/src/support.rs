//! Alignment arithmetic shared by the allocators.

use vstd::prelude::*;

verus! {

/// `n` is a power of two: 1, 2, 4, ...
#[verifier::opaque]
pub open spec fn is_power_of_two(n: int) -> bool
    decreases n,
{
    if n <= 0 {
        false
    } else if n == 1 {
        true
    } else {
        n % 2 == 0 && is_power_of_two(n / 2)
    }
}

/// A power of two is positive.
pub proof fn lemma_pow2_positive(n: int)
    requires
        is_power_of_two(n),
    ensures
        n > 0,
{
    reveal(is_power_of_two);
}

/// The largest multiple of `align` that is not above `n`.
#[verifier::opaque]
pub open spec fn align_down_spec(n: int, align: int) -> int {
    n - n % align
}

/// The smallest multiple of `align` that is not below `n`.
#[verifier::opaque]
pub open spec fn align_up_spec(n: int, align: int) -> int {
    if n % align == 0 {
        n
    } else {
        n - n % align + align
    }
}

/// `align_up_spec` yields a multiple of `align` within `align - 1` of `n`.
pub proof fn lemma_align_up(n: int, align: int)
    requires
        n >= 0,
        align > 0,
    ensures
        align_up_spec(n, align) % align == 0,
        n <= align_up_spec(n, align) < n + align,
        n % align == 0 ==> align_up_spec(n, align) == n,
{
    reveal(align_up_spec);
    let r = n % align;
    if r != 0 {
        vstd::arithmetic::div_mod::lemma_fundamental_div_mod(n, align);
        let q = n / align;
        assert(n - r + align == align * (q + 1)) by (nonlinear_arith)
            requires
                n == align * q + r,
        ;
        vstd::arithmetic::div_mod::lemma_mod_multiples_basic(q + 1, align);
        assert((align * (q + 1)) % align == 0) by {
            assert(align * (q + 1) == (q + 1) * align) by (nonlinear_arith);
        }
    }
}

/// `align_down_spec` yields a multiple of `align` within `align - 1` of `n`.
pub proof fn lemma_align_down(n: int, align: int)
    requires
        n >= 0,
        align > 0,
    ensures
        align_down_spec(n, align) % align == 0,
        n - align < align_down_spec(n, align) <= n,
{
    reveal(align_down_spec);
    let r = n % align;
    vstd::arithmetic::div_mod::lemma_fundamental_div_mod(n, align);
    let q = n / align;
    assert(n - r == q * align) by (nonlinear_arith)
        requires
            n == align * q + r,
    ;
    vstd::arithmetic::div_mod::lemma_mod_multiples_basic(q, align);
}

/// Tells whether `n` is a power of two.
pub fn is_pow2(n: usize) -> (r: bool)
    ensures
        r == is_power_of_two(n as int),
{
    proof {
        reveal(is_power_of_two);
    }
    if n == 0 {
        return false;
    }
    let mut m: usize = n;
    while m % 2 == 0
        invariant
            m > 0,
            is_power_of_two(n as int) == is_power_of_two(m as int),
        decreases m,
    {
        proof {
            reveal(is_power_of_two);
        }
        m = m / 2;
    }
    proof {
        reveal(is_power_of_two);
    }
    m == 1
}

/// Rounds `n` down to a multiple of `align`.
pub fn align_down_size(n: usize, align: usize) -> (r: usize)
    requires
        align > 0,
    ensures
        r == align_down_spec(n as int, align as int),
{
    proof {
        reveal(align_down_spec);
        vstd::arithmetic::div_mod::lemma_mod_decreases(n as nat, align as nat);
    }
    n - n % align
}

/// Rounds `n` up to a multiple of `align`; `None` when the result does not
/// fit in a `usize`.
pub fn checked_align_up(n: usize, align: usize) -> (r: Option<usize>)
    requires
        align > 0,
    ensures
        r == if align_up_spec(n as int, align as int) <= usize::MAX {
            Some(align_up_spec(n as int, align as int) as usize)
        } else {
            None
        },
{
    let rem: usize = n % align;
    proof {
        reveal(align_up_spec);
        vstd::arithmetic::div_mod::lemma_mod_decreases(n as nat, align as nat);
    }
    if rem == 0 {
        Some(n)
    } else {
        (n - rem).checked_add(align)
    }
}

} // verus!
