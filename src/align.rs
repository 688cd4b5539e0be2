//! Alignment of byte offsets to a fixed boundary.
use vstd::prelude::*;

verus! {

/// Partitions are aligned to 1 MiB boundaries.
pub const PARTITION_ALIGNMENT: u64 = 1048576;

/// `x` rounded to the nearest multiple of `a`; a remainder of exactly half
/// of `a` (or more) rounds up.
pub open spec fn round_nearest(x: int, a: int) -> int
    recommends
        a > 0,
{
    ((x + a / 2) / a) * a
}

/// `x` is a multiple of `a`.
pub open spec fn aligned_to(x: int, a: int) -> bool
    recommends
        a > 0,
{
    x % a == 0
}

/// Rounding leaves a value that is already a multiple of `a` unchanged.
pub proof fn lemma_round_nearest_fixes_multiples(x: int, a: int)
    requires
        a > 0,
        x >= 0,
        x % a == 0,
    ensures
        round_nearest(x, a) == x,
{
    let q = x / a;
    assert(x == q * a) by (nonlinear_arith)
        requires
            x % a == 0,
            q == x / a,
            a > 0,
    ;
    assert((x + a / 2) / a == q) by (nonlinear_arith)
        requires
            x == q * a,
            a > 0,
            0 <= a / 2 < a,
    ;
}

/// The rounded value is a multiple of `a` and lies within half of `a` of `x`.
pub proof fn lemma_round_nearest_is_multiple(x: int, a: int)
    requires
        a > 0,
        x >= 0,
    ensures
        round_nearest(x, a) % a == 0,
        round_nearest(x, a) >= 0,
        x - a / 2 <= round_nearest(x, a) <= x + a / 2,
{
    let q = (x + a / 2) / a;
    vstd::arithmetic::div_mod::lemma_mod_multiples_basic(q, a);
    vstd::arithmetic::div_mod::lemma_fundamental_div_mod(x + a / 2, a);
    assert(q >= 0) by (nonlinear_arith)
        requires
            q == (x + a / 2) / a,
            x >= 0,
            a > 0,
    ;
    assert(q * a >= 0) by (nonlinear_arith)
        requires
            q >= 0,
            a > 0,
    ;
    assert(q * a == a * q) by (nonlinear_arith);
}

/// Rounds `x` to the nearest multiple of `a`.
///
/// Despite the name the rounding goes to the nearest multiple: a remainder of
/// less than half of `a` rounds down. An aligned value is returned unchanged.
pub fn align_up(x: u64, a: u64) -> (r: u64)
    requires
        a > 0,
        round_nearest(x as int, a as int) <= u64::MAX,
    ensures
        r == round_nearest(x as int, a as int),
        aligned_to(x as int, a as int) ==> r == x,
{
    round_to_nearest(x, a)
}

/// Rounds `x` to the nearest multiple of `a`, exactly as [`align_up`] does.
pub fn align_down(x: u64, a: u64) -> (r: u64)
    requires
        a > 0,
        round_nearest(x as int, a as int) <= u64::MAX,
    ensures
        r == round_nearest(x as int, a as int),
        aligned_to(x as int, a as int) ==> r == x,
{
    round_to_nearest(x, a)
}

fn round_to_nearest(x: u64, a: u64) -> (r: u64)
    requires
        a > 0,
        round_nearest(x as int, a as int) <= u64::MAX,
    ensures
        r == round_nearest(x as int, a as int),
        aligned_to(x as int, a as int) ==> r == x,
{
    proof {
        lemma_round_nearest_is_multiple(x as int, a as int);
        if aligned_to(x as int, a as int) {
            lemma_round_nearest_fixes_multiples(x as int, a as int);
        }
    }
    let rem: u64 = x % a;
    proof {
        vstd::arithmetic::div_mod::lemma_fundamental_div_mod(x as int, a as int);
        let q = x as int / a as int;
        assert(a * q >= 0) by (nonlinear_arith)
            requires
                a > 0,
                x >= 0,
                q == x as int / a as int,
        ;
    }
    let base: u64 = x - rem;
    let half: u64 = a / 2;
    proof {
        vstd::arithmetic::div_mod::lemma_fundamental_div_mod(x as int, a as int);
        let q = x as int / a as int;
        assert(base as int == q * a) by {
            assert(x as int == a * q + rem);
            assert(a * q == q * a) by (nonlinear_arith);
        }
        if rem >= a - half {
            assert((x as int + half) / a as int == q + 1) by (nonlinear_arith)
                requires
                    x as int == q * a + rem,
                    a - half <= rem < a,
                    0 <= half <= a / 2,
                    a > 0,
                    half == a / 2,
            ;
            assert((q + 1) * a == q * a + a) by (nonlinear_arith);
        } else {
            assert((x as int + half) / a as int == q) by (nonlinear_arith)
                requires
                    x as int == q * a + rem,
                    0 <= rem < a - half,
                    half == a / 2,
                    a > 0,
            ;
        }
    }
    if rem >= a - half {
        base + a
    } else {
        base
    }
}

/// Whether `x` is a multiple of `a`.
pub fn is_aligned(x: u64, a: u64) -> (r: bool)
    requires
        a > 0,
    ensures
        r == aligned_to(x as int, a as int),
{
    x % a == 0
}

} // verus!
