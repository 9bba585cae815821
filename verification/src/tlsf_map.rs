//! The size classes of the two-level segregated fit allocator.
//!
//! A block size falls into a class by its highest bit, which gives the
//! first level, and by the six bits below it, which give the second level:
//! every power of two is cut into 64 classes of equal width. Classes are
//! numbered by one key, in the order of the sizes that they hold.

use vstd::prelude::*;
use vstd::arithmetic::power2::{lemma2_to64, lemma_pow2_pos, lemma_pow2_strictly_increases, lemma_pow2_unfold, pow2};

verus! {

/// Number of classes of the second level behind one class of the first.
pub const SLLEN: usize = 64;

/// Number of classes of the first level.
pub const FLLEN: usize = 64;

/// Number of classes.
pub const CLASSES: usize = 4096;

/// The smallest size that has a class: a granule.
pub const MIN_SIZE: usize = 32;

/// `size` has its highest bit at `e` and the six bits below it make `sl`:
/// it lies in `[2^e, 2^(e+1))`, in the piece numbered `sl` of the 64 pieces
/// of that range.
pub open spec fn in_class(size: int, e: nat, sl: int) -> bool {
    &&& pow2(e) <= size < 2 * pow2(e)
    &&& sl == ((size - pow2(e)) * 64) / (pow2(e) as int)
}

/// The key of the class with first level `e` and second level `sl`.
pub open spec fn key_of(e: nat, sl: int) -> int {
    (e - 5) * 64 + sl
}

/// `key` is the key of the class of `size`.
pub open spec fn has_key(size: int, key: int) -> bool {
    exists|e: nat, sl: int| in_class(size, e, sl) && key == key_of(e, sl)
}

/// The key of the class of `size`.
pub open spec fn key_spec(size: int) -> int {
    choose|k: int| has_key(size, k)
}

/// A smaller size shares the class of `size`.
pub open spec fn shares_class(size: int) -> bool {
    exists|s: int| 32 <= s < size && #[trigger] has_key(s, key_spec(size))
}

/// The lowest of the keys whose classes hold only sizes that are `size`
/// at least.
pub open spec fn ceil_key(size: int) -> int {
    if shares_class(size) {
        key_spec(size) + 1
    } else {
        key_spec(size)
    }
}

/// A size has one key.
pub proof fn lemma_key_unique(size: int, k1: int, k2: int)
    requires
        has_key(size, k1),
        has_key(size, k2),
    ensures
        k1 == k2,
{
    let (e1, l1) = choose|e: nat, sl: int| in_class(size, e, sl) && k1 == key_of(e, sl);
    let (e2, l2) = choose|e: nat, sl: int| in_class(size, e, sl) && k2 == key_of(e, sl);
    lemma_level_unique(size, e1, e2);
}

/// The second level of a size lies below 64.
pub proof fn lemma_sl_range(size: int, e: nat, sl: int)
    requires
        in_class(size, e, sl),
    ensures
        0 <= sl < 64,
{
    let p = pow2(e) as int;
    lemma_pow2_pos(e);
    let x = size - p;
    assert(0 <= x * 64 < 64 * p) by (nonlinear_arith)
        requires
            0 <= x < p,
    ;
    vstd::arithmetic::div_mod::lemma_div_pos_is_pos(x * 64, p);
    vstd::arithmetic::div_mod::lemma_div_is_ordered(x * 64, 64 * p - 1, p);
    assert((64 * p - 1) / p < 64) by {
        vstd::arithmetic::div_mod::lemma_fundamental_div_mod(64 * p - 1, p);
        let q = (64 * p - 1) / p;
        let r = (64 * p - 1) % p;
        assert(q < 64) by (nonlinear_arith)
            requires
                64 * p - 1 == p * q + r,
                0 <= r < p,
                p > 0,
        ;
    }
}

/// A size has one highest bit.
pub proof fn lemma_level_unique(size: int, e1: nat, e2: nat)
    requires
        pow2(e1) <= size < 2 * pow2(e1),
        pow2(e2) <= size < 2 * pow2(e2),
    ensures
        e1 == e2,
{
    if e1 < e2 {
        lemma_pow2_unfold((e1 + 1) as nat);
        if e1 + 1 < e2 {
            lemma_pow2_strictly_increases((e1 + 1) as nat, e2);
        }
    } else if e2 < e1 {
        lemma_pow2_unfold((e2 + 1) as nat);
        if e2 + 1 < e1 {
            lemma_pow2_strictly_increases((e2 + 1) as nat, e1);
        }
    }
}

/// Larger sizes have larger keys, or the same.
pub proof fn lemma_key_monotone(s1: int, e1: nat, l1: int, s2: int, e2: nat, l2: int)
    requires
        in_class(s1, e1, l1),
        in_class(s2, e2, l2),
        s1 <= s2,
        e1 >= 5,
    ensures
        key_of(e1, l1) <= key_of(e2, l2),
        e1 <= e2,
{
    lemma_sl_range(s1, e1, l1);
    lemma_sl_range(s2, e2, l2);
    if e2 < e1 {
        lemma_pow2_unfold((e2 + 1) as nat);
        if e2 + 1 < e1 {
            lemma_pow2_strictly_increases((e2 + 1) as nat, e1);
        }
        assert(false);
    }
    if e1 == e2 {
        let p = pow2(e1) as int;
        lemma_pow2_pos(e1);
        assert((s1 - p) * 64 <= (s2 - p) * 64);
        vstd::arithmetic::div_mod::lemma_div_is_ordered((s1 - p) * 64, (s2 - p) * 64, p);
    }
}

/// The smallest size of the class with first level `e` and second level
/// `sl`, for the classes from 64 bytes on.
pub open spec fn lower_bound(e: nat, sl: int) -> int {
    pow2(e) + sl * (pow2(e) / 64)
}

/// From 64 bytes on a power of two is 64 times a power of two.
pub proof fn lemma_pow2_64(e: nat)
    requires
        e >= 6,
    ensures
        pow2(e) == 64 * pow2((e - 6) as nat),
        pow2(e) / 64 == pow2((e - 6) as nat),
        pow2((e - 6) as nat) > 0,
{
    vstd::arithmetic::power2::lemma_pow2_adds(6, (e - 6) as nat);
    lemma2_to64();
    lemma_pow2_pos((e - 6) as nat);
    let q = pow2((e - 6) as nat) as int;
    assert(pow2(e) == 64 * q);
    vstd::arithmetic::div_mod::lemma_div_multiples_vanish(q, 64);
    assert((q * 64) / 64 == q);
    assert(64 * q == q * 64);
}

/// The second level of a size from 64 bytes on is its distance from the
/// power of two below it, counted in 64th parts of that power of two.
pub proof fn lemma_sl_by_step(size: int, e: nat)
    requires
        e >= 6,
        pow2(e) <= size,
    ensures
        ((size - pow2(e)) * 64) / (pow2(e) as int) == (size - pow2(e)) / (pow2(e) / 64) as int,
{
    lemma_pow2_64(e);
    let q = pow2((e - 6) as nat) as int;
    let x = size - pow2(e);
    vstd::arithmetic::div_mod::lemma_div_denominator(x * 64, 64, q);
    vstd::arithmetic::div_mod::lemma_div_multiples_vanish(x, 64);
    assert(64 * q == pow2(e));
}

/// No size of a class lies below the lower bound of the class.
pub proof fn lemma_lower_bound(size: int, e: nat, sl: int)
    requires
        in_class(size, e, sl),
        e >= 6,
    ensures
        size >= lower_bound(e, sl),
        in_class(lower_bound(e, sl), e, sl),
{
    lemma_pow2_64(e);
    lemma_sl_by_step(size, e);
    lemma_sl_range(size, e, sl);
    let q = pow2((e - 6) as nat) as int;
    let p = pow2(e) as int;
    let x = size - p;
    vstd::arithmetic::div_mod::lemma_fundamental_div_mod(x, q);
    assert(x >= sl * q) by (nonlinear_arith)
        requires
            x == q * (x / q) + x % q,
            0 <= x % q,
            sl == x / q,
    ;
    let lb = lower_bound(e, sl);
    assert(lb - p == sl * q);
    assert(p <= lb < 2 * p) by (nonlinear_arith)
        requires
            lb == p + sl * q,
            0 <= sl < 64,
            p == 64 * q,
            q > 0,
    ;
    lemma_sl_by_step(lb, e);
    vstd::arithmetic::div_mod::lemma_div_multiples_vanish(sl, q);
    assert(((lb - p) * 64) / p == (lb - p) / q);
    assert((sl * q) / q == sl);
}

/// The second level of a size below 64 bytes is twice its distance from 32.
pub proof fn lemma_sl_small(s: int)
    ensures
        ((s - 32) * 64) / 32 == (s - 32) * 2,
{
    vstd::arithmetic::div_mod::lemma_div_multiples_vanish((s - 32) * 2, 32);
    assert((s - 32) * 64 == ((s - 32) * 2) * 32);
}

/// Every size from 1 on has a highest bit.
pub proof fn lemma_level_exists(n: int) -> (e: nat)
    requires
        n >= 1,
    ensures
        pow2(e) <= n < 2 * pow2(e),
    decreases n,
{
    if n == 1 {
        lemma2_to64();
        0
    } else {
        let e = lemma_level_exists(n / 2);
        lemma_pow2_unfold(e + 1);
        e + 1
    }
}

/// Every size has a class.
pub proof fn lemma_has_key(size: int)
    requires
        size >= 1,
    ensures
        has_key(size, key_spec(size)),
{
    let e = lemma_level_exists(size);
    let sl = ((size - pow2(e)) * 64) / (pow2(e) as int);
    assert(in_class(size, e, sl));
    assert(has_key(size, key_of(e, sl)));
}

/// A class from the ceiling key of a request on holds no size below the
/// request.
pub proof fn lemma_ceil_key(request: int, size: int, key: int)
    requires
        request >= 32,
        size >= 32,
        has_key(size, key),
        key >= ceil_key(request),
    ensures
        size >= request,
{
    if size < request {
        lemma_has_key(request);
        let kr = key_spec(request);
        let (e1, l1) = choose|e: nat, sl: int| in_class(size, e, sl) && key == key_of(e, sl);
        let (e2, l2) = choose|e: nat, sl: int| in_class(request, e, sl) && kr == key_of(e, sl);
        lemma2_to64();
        if e1 < 5 {
            if e1 < 4 {
                lemma_pow2_strictly_increases(e1, 4);
            }
            lemma_pow2_unfold(5);
        }
        lemma_key_monotone(size, e1, l1, request, e2, l2);
        if !shares_class(request) {
            assert(key == kr);
            assert(has_key(size, key_spec(request)));
        }
    }
}

/// The highest bit of `size` and the power of two that it stands for.
pub fn highest_bit(size: usize) -> (r: (usize, usize))
    requires
        size >= 1,
    ensures
        r.1 == pow2(r.0 as nat),
        r.1 <= size < 2 * r.1,
        r.0 < 64,
{
    let mut e: usize = 0;
    let mut p: usize = 1;
    proof {
        lemma2_to64();
    }
    while p <= size / 2
        invariant
            p == pow2(e as nat),
            1 <= p <= size,
            e < 64,
        decreases size - p,
    {
        proof {
            lemma_pow2_unfold((e + 1) as nat);
            if e + 1 >= 64 {
                vstd::arithmetic::power2::lemma2_to64_rest();
                if e + 1 > 64 {
                    lemma_pow2_strictly_increases(64, (e + 1) as nat);
                }
            }
        }
        p = p * 2;
        e = e + 1;
    }
    (e, p)
}

/// The class of `size`: the key of the class that `size` falls into.
pub fn map_floor(size: usize) -> (key: usize)
    requires
        size >= MIN_SIZE,
    ensures
        has_key(size as int, key as int),
        key == key_spec(size as int),
        key < CLASSES,
{
    let (e, p) = highest_bit(size);
    proof {
        lemma2_to64();
        if e < 5 {
            if e < 4 {
                lemma_pow2_strictly_increases(e as nat, 4);
            }
        }
    }
    let sl: usize = if e >= 6 {
        proof {
            lemma_pow2_64(e as nat);
            lemma_sl_by_step(size as int, e as nat);
        }
        (size - p) / (p / 64)
    } else {
        proof {
            assert(p == 32);
            lemma_sl_small(size as int);
        }
        (size - p) * 2
    };
    proof {
        assert(in_class(size as int, e as nat, sl as int));
        lemma_sl_range(size as int, e as nat, sl as int);
        assert(key_of(e as nat, sl as int) == (e - 5) * 64 + sl);
        assert(has_key(size as int, (e - 5) * 64 + sl));
        lemma_key_unique(size as int, (e - 5) * 64 + sl, key_spec(size as int));
    }
    (e - 5) * 64 + sl
}

/// The lowest of the keys whose classes hold only sizes that are `size`
/// at least: the key of the class of `size` where no smaller size falls
/// into that class, and the key after it where one does.
pub fn map_ceil(size: usize) -> (key: usize)
    requires
        size >= MIN_SIZE,
    ensures
        key <= CLASSES,
        key == ceil_key(size as int),
        forall|s: int, k: int| s >= 32 && has_key(s, k) && k >= key ==> s >= size,
{
    let (e, p) = highest_bit(size);
    proof {
        lemma2_to64();
        if e < 5 {
            if e < 4 {
                lemma_pow2_strictly_increases(e as nat, 4);
            }
        }
    }
    let floor = map_floor(size);
    let ghost sl = ((size - p) * 64) / (p as int);
    proof {
        let (e0, l0) = choose|e0: nat, l0: int| in_class(size as int, e0, l0) && floor == key_of(e0, l0);
        lemma_level_unique(size as int, e0, e as nat);
        assert(in_class(size as int, e as nat, sl));
        lemma_sl_range(size as int, e as nat, sl);
    }
    let exact: bool = if e >= 6 {
        proof {
            lemma_pow2_64(e as nat);
            lemma_sl_by_step(size as int, e as nat);
            lemma_lower_bound(size as int, e as nat, sl);
        }
        let step = p / 64;
        (size - p) % step == 0
    } else {
        true
    };
    let key = if exact {
        floor
    } else {
        floor + 1
    };
    proof {
        if !exact {
            // the lower bound of the class is a smaller size of the class
            let lb = lower_bound(e as nat, sl);
            lemma_lower_bound(size as int, e as nat, sl);
            lemma_pow2_64(e as nat);
            let q = pow2((e - 6) as nat) as int;
            let x = size - p;
            vstd::arithmetic::div_mod::lemma_fundamental_div_mod(x, q);
            assert(lb != size) by {
                if lb == size {
                    assert(x == sl * q);
                    vstd::arithmetic::div_mod::lemma_mod_multiples_basic(sl, q);
                }
            }
            lemma_pow2_strictly_increases(5, e as nat);
            assert(key_of(e as nat, sl) == floor);
            assert(has_key(lb, floor as int));
            assert(shares_class(size as int));
        }
    }
    proof {
        assert forall|s: int, k: int| s >= 32 && has_key(s, k) && k >= key implies s >= size by {
            if s < size {
                let (e2, l2) = choose|e2: nat, l2: int| in_class(s, e2, l2) && k == key_of(e2, l2);
                lemma2_to64();
                if e2 < 5 {
                    if e2 < 4 {
                        lemma_pow2_strictly_increases(e2, 4);
                    }
                    lemma_pow2_unfold(5);
                }
                lemma_key_monotone(s, e2, l2, size as int, e as nat, sl);
                lemma_sl_range(s, e2, l2);
                if exact {
                    // the keys are equal: both sizes lie in one class, and
                    // `size` is the smallest size of that class
                    assert(e2 == e && l2 == sl);
                    assert(false) by {
                        if e >= 6 {
                            lemma_lower_bound(s, e2, l2);
                            lemma_pow2_64(e as nat);
                            let q = pow2((e - 6) as nat) as int;
                            let x = size - p;
                            vstd::arithmetic::div_mod::lemma_fundamental_div_mod(x, q);
                            assert(x == sl * q) by (nonlinear_arith)
                                requires
                                    x == q * (x / q) + x % q,
                                    x % q == 0,
                                    sl == x / q,
                            ;
                        } else {
                            assert(p == 32);
                            lemma_sl_small(size as int);
                            lemma_sl_small(s);
                        }
                    }
                    if e >= 6 {
                        lemma_lower_bound(s, e2, l2);
                        lemma_pow2_64(e as nat);
                        let q = pow2((e - 6) as nat) as int;
                        let x = size - p;
                        vstd::arithmetic::div_mod::lemma_fundamental_div_mod(x, q);
                        assert(x == sl * q) by (nonlinear_arith)
                            requires
                                x == q * (x / q) + x % q,
                                x % q == 0,
                                sl == x / q,
                        ;
                    } else {
                        assert(p == 32);
                        lemma_sl_small(size as int);
                        lemma_sl_small(s);
                    }
                }
            }
        }
    }
    key
}

} // verus!
