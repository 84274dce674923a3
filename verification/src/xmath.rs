//! Small integer helpers: integer square root and population count.

use vstd::prelude::*;
use vstd::arithmetic::div_mod::{
    lemma_div_is_ordered, lemma_div_multiples_vanish, lemma_div_pos_is_pos,
    lemma_fundamental_div_mod, lemma_multiply_divide_le, lemma_multiply_divide_lt,
};
use vstd::arithmetic::power2::{lemma2_to64, lemma2_to64_rest, lemma_pow2_unfold, pow2};

verus! {

/// Floor of the integer square root: the unique `r` with
/// `r * r <= n < (r + 1) * (r + 1)`.
pub open spec fn spec_isqrt(n: nat) -> nat
    decreases n,
{
    if n == 0 {
        0
    } else {
        let r = spec_isqrt((n - 1) as nat);
        if (r + 1) * (r + 1) <= n {
            r + 1
        } else {
            r
        }
    }
}

pub proof fn lemma_isqrt_bounds(n: nat)
    ensures
        spec_isqrt(n) * spec_isqrt(n) <= n,
        n < (spec_isqrt(n) + 1) * (spec_isqrt(n) + 1),
    decreases n,
{
    let s = spec_isqrt(n);
    if n == 0 {
        assert(s == 0);
        assert(s * s <= n && n < (s + 1) * (s + 1)) by (nonlinear_arith)
            requires
                s == 0,
                n == 0,
        ;
    } else {
        lemma_isqrt_bounds((n - 1) as nat);
        let r = spec_isqrt((n - 1) as nat);
        if (r + 1) * (r + 1) <= n {
            assert(s == r + 1);
            assert(s * s <= n && n < (s + 1) * (s + 1)) by (nonlinear_arith)
                requires
                    s == r + 1,
                    (r + 1) * (r + 1) <= n,
                    n - 1 < (r + 1) * (r + 1),
            ;
        } else {
            assert(s == r);
            assert(s * s <= n && n < (s + 1) * (s + 1)) by (nonlinear_arith)
                requires
                    s == r,
                    r * r <= n - 1,
                    !((r + 1) * (r + 1) <= n),
            ;
        }
    }
}

/// The square-root floor is determined by the two square bounds.
pub proof fn lemma_isqrt_unique(n: nat, r: nat)
    requires
        r * r <= n,
        n < (r + 1) * (r + 1),
    ensures
        r == spec_isqrt(n),
{
    lemma_isqrt_bounds(n);
    let s = spec_isqrt(n);
    if r < s {
        assert(n < n) by (nonlinear_arith)
            requires
                r + 1 <= s,
                s * s <= n,
                n < (r + 1) * (r + 1),
        ;
    }
    if s < r {
        assert(n < n) by (nonlinear_arith)
            requires
                s + 1 <= r,
                r * r <= n,
                n < (s + 1) * (s + 1),
        ;
    }
}

/// Number of ones in the binary representation of `n`.
pub open spec fn spec_pop_count(n: nat) -> nat
    decreases n,
{
    if n == 0 {
        0
    } else {
        n % 2 + spec_pop_count(n / 2)
    }
}

/// From a value at or above the root, a Newton step stays at or above it;
/// `q` stands for `n / x`.
proof fn lemma_newton_above(n: int, x: int, q: int, rt: int)
    requires
        1 <= x,
        0 <= rt <= x,
        rt * rt <= n,
        q == n / x,
    ensures
        rt <= (x + q) / 2,
{
    lemma_div_pos_is_pos(n, x);
    if x < 2 * rt {
        if q < 2 * rt - x {
            lemma_fundamental_div_mod(n, x);
            assert(false) by (nonlinear_arith)
                requires
                    1 <= x,
                    q + 1 <= 2 * rt - x,
                    rt * rt <= n,
                    n == x * q + n % x,
                    n % x < x,
            ;
        }
    }
    assert(x + q >= 2 * rt);
    lemma_div_is_ordered(2 * rt, x + q, 2);
    lemma_div_multiples_vanish(rt, 2);
}

/// Returns the integer floor of the square root of `n`, by Newton iteration.
pub fn floor_sqrt(n: u64) -> (r: u64)
    ensures
        r == spec_isqrt(n as nat),
{
    proof {
        lemma_isqrt_bounds(n as nat);
    }
    let ghost rt = spec_isqrt(n as nat) as int;
    if n < 2 {
        proof {
            assert((n as nat) * (n as nat) <= n as nat && (n as nat) < (n as nat + 1) * (n
                as nat + 1)) by (nonlinear_arith)
                requires
                    n < 2,
            ;
            lemma_isqrt_unique(n as nat, n as nat);
        }
        return n;
    }
    proof {
        assert(rt >= 1 && rt < 0x1_0000_0000 && 2 * rt <= n as int) by (nonlinear_arith)
            requires
                2 <= n as int <= 0xffff_ffff_ffff_ffff,
                rt * rt <= n as int,
                (n as int) < (rt + 1) * (rt + 1),
                rt >= 0,
        ;
        lemma_div_is_ordered(2 * rt, n as int, 2);
        lemma_div_multiples_vanish(rt, 2);
    }
    let mut x0 = n / 2;
    let mut x1 = newton_step(n, x0, Ghost(rt));
    while x1 < x0
        invariant
            2 <= n,
            1 <= rt,
            rt <= x0,
            rt <= x1,
            x0 <= n / 2,
            rt == spec_isqrt(n as nat),
            rt * rt <= n as int,
            (n as int) < (rt + 1) * (rt + 1),
            rt < 0x1_0000_0000,
            x1 == (x0 + (n as int) / (x0 as int)) / 2,
        decreases x0,
    {
        x0 = x1;
        x1 = newton_step(n, x0, Ghost(rt));
    }
    proof {
        if x0 > rt {
            assert((n as int) < (x0 as int) * (x0 as int)) by (nonlinear_arith)
                requires
                    0 <= rt,
                    rt + 1 <= x0 as int,
                    (n as int) < (rt + 1) * (rt + 1),
            ;
            lemma_multiply_divide_lt(n as int, x0 as int, x0 as int);
            assert((n as int) / (x0 as int) <= x0 - 1);
            lemma_div_is_ordered(x0 + (n as int) / (x0 as int), 2 * x0 - 1, 2);
            lemma_fundamental_div_mod(2 * x0 - 1, 2);
            assert((2 * x0 - 1) / 2 <= x0 - 1);
        }
    }
    x0
}

/// One Newton iteration: the mean of `x` and `n / x`, rounded down.
fn newton_step(n: u64, x: u64, Ghost(rt): Ghost<int>) -> (r: u64)
    requires
        2 <= n,
        1 <= rt,
        rt <= x,
        x <= n / 2,
        rt * rt <= n as int,
        (n as int) < (rt + 1) * (rt + 1),
        rt < 0x1_0000_0000,
    ensures
        rt <= r,
        r == (x + (n as int) / (x as int)) / 2,
{
    let q = n / x;
    proof {
        // q is at most rt + 2, so x + q cannot overflow.
        assert(n as int <= (x as int) * (rt + 2)) by (nonlinear_arith)
            requires
                (n as int) < (rt + 1) * (rt + 1),
                rt <= x as int,
                rt >= 1,
        ;
        lemma_multiply_divide_le(n as int, x as int, rt + 2);
        assert(q <= rt + 2);
        lemma_newton_above(n as int, x as int, q as int, rt);
    }
    (x + q) / 2
}

/// Returns the population count (number of set bits) of `n`.
pub fn bit_count64(n: u64) -> (r: u32)
    ensures
        r == spec_pop_count(n as nat),
{
    let mut v = n;
    let mut r: u32 = 0;
    proof {
        lemma2_to64();
        lemma2_to64_rest();
        lemma_pop_count_bound(n as nat, 64);
    }
    while v > 0
        invariant
            r + spec_pop_count(v as nat) == spec_pop_count(n as nat),
            spec_pop_count(n as nat) <= 64,
        decreases v,
    {
        r = r + (v % 2) as u32;
        v = v / 2;
    }
    r
}

/// The population count never exceeds the number itself.
pub proof fn lemma_pop_count_le(n: nat)
    ensures
        spec_pop_count(n) <= n,
    decreases n,
{
    if n > 0 {
        lemma_pop_count_le(n / 2);
    }
}

proof fn lemma_pop_count_bound(n: nat, k: nat)
    requires
        n < pow2(k),
    ensures
        spec_pop_count(n) <= k,
    decreases n,
{
    if n > 0 {
        if k == 0 {
            lemma2_to64();
        } else {
            lemma_pow2_unfold(k);
            lemma_div_is_ordered(n as int, 2 * pow2((k - 1) as nat) - 1, 2);
            lemma_fundamental_div_mod(2 * pow2((k - 1) as nat) - 1, 2);
            lemma_pop_count_bound(n / 2, (k - 1) as nat);
        }
    }
}

} // verus!
