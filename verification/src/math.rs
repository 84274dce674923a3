//! Schoolbook factorials, combinations, permutations and an integer
//! square root, sized to the argument: machine words for small inputs,
//! big integers beyond.

use vstd::prelude::*;
use num_bigint::BigUint;
use crate::bignum::{big_div, big_from_u128, big_from_u64, big_mul, big_value};
use crate::xmath::{floor_sqrt, spec_isqrt};

verus! {

/// The factorial of `n`.
pub open spec fn spec_fact(n: nat) -> nat
    decreases n,
{
    if n == 0 {
        1
    } else {
        n * spec_fact((n - 1) as nat)
    }
}

/// The product of the integers from `start` up to `end`; 1 when the
/// range is empty.
pub open spec fn spec_prod_range(start: int, end: int) -> nat
    decreases (if start <= end { end - start + 1 } else { 0 }),
{
    if end < start {
        1
    } else {
        spec_prod_range(start, end - 1) * (end as nat)
    }
}

/// Why a query fails: the argument was negative.
#[derive(Debug, Clone, Copy, PartialEq, Eq, Structural)]
pub enum MathError {
    NegativeInput,
}

/// The factorial never falls below 1...
pub proof fn lemma_fact_pos(n: nat)
    ensures
        spec_fact(n) >= 1,
    decreases n,
{
    if n > 0 {
        lemma_fact_pos((n - 1) as nat);
        assert(spec_fact(n) == n * spec_fact((n - 1) as nat));
        assert(n * spec_fact((n - 1) as nat) >= 1) by (nonlinear_arith)
            requires
                n >= 1,
                spec_fact((n - 1) as nat) >= 1,
        ;
    }
}

/// ... and never shrinks as its argument grows.
pub proof fn lemma_fact_mono(a: nat, b: nat)
    requires
        a <= b,
    ensures
        spec_fact(a) <= spec_fact(b),
    decreases b,
{
    if a < b {
        lemma_fact_mono(a, (b - 1) as nat);
        lemma_fact_pos((b - 1) as nat);
        assert(spec_fact(b) == b * spec_fact((b - 1) as nat));
        assert(b * spec_fact((b - 1) as nat) >= spec_fact((b - 1) as nat)) by (nonlinear_arith)
            requires
                b >= 1,
                spec_fact((b - 1) as nat) >= 0,
        ;
    }
}

proof fn lemma_fact_values()
    ensures
        spec_fact(20) == 2432902008176640000,
        spec_fact(34) == 295232799039604140847618609643520000000,
{
    assert(spec_fact(0) == 1);
    assert(spec_fact(1) == 1);
    assert(spec_fact(2) == 2);
    assert(spec_fact(3) == 6);
    assert(spec_fact(4) == 24);
    assert(spec_fact(5) == 120);
    assert(spec_fact(6) == 720);
    assert(spec_fact(7) == 5040);
    assert(spec_fact(8) == 40320);
    assert(spec_fact(9) == 362880);
    assert(spec_fact(10) == 3628800);
    assert(spec_fact(11) == 39916800);
    assert(spec_fact(12) == 479001600);
    assert(spec_fact(13) == 6227020800);
    assert(spec_fact(14) == 87178291200);
    assert(spec_fact(15) == 1307674368000);
    assert(spec_fact(16) == 20922789888000);
    assert(spec_fact(17) == 355687428096000);
    assert(spec_fact(18) == 6402373705728000);
    assert(spec_fact(19) == 121645100408832000);
    assert(spec_fact(20) == 2432902008176640000);
    assert(spec_fact(21) == 51090942171709440000);
    assert(spec_fact(22) == 1124000727777607680000);
    assert(spec_fact(23) == 25852016738884976640000);
    assert(spec_fact(24) == 620448401733239439360000);
    assert(spec_fact(25) == 15511210043330985984000000);
    assert(spec_fact(26) == 403291461126605635584000000);
    assert(spec_fact(27) == 10888869450418352160768000000);
    assert(spec_fact(28) == 304888344611713860501504000000);
    assert(spec_fact(29) == 8841761993739701954543616000000);
    assert(spec_fact(30) == 265252859812191058636308480000000);
    assert(spec_fact(31) == 8222838654177922817725562880000000);
    assert(spec_fact(32) == 263130836933693530167218012160000000);
    assert(spec_fact(33) == 8683317618811886495518194401280000000);
    assert(spec_fact(34) == 295232799039604140847618609643520000000);
}

fn factorial_u64(n: u64) -> (r: u64)
    requires
        n <= 20,
    ensures
        r == spec_fact(n as nat),
{
    if n == 0 {
        return 1;
    }
    proof {
        lemma_fact_values();
        assert(spec_fact(0) == 1);
        assert(n as nat * spec_fact(0) == n as nat) by (nonlinear_arith)
            requires
                spec_fact(0) == 1,
        ;
    }
    let mut product = n;
    let mut i: u64 = 1;
    while i < n
        invariant
            1 <= i <= n <= 20,
            product == n * spec_fact((i - 1) as nat),
            spec_fact(20) == 2432902008176640000,
        decreases n - i,
    {
        proof {
            lemma_fact_mono(i as nat, (n - 1) as nat);
            lemma_fact_mono(n as nat, 20);
            assert(spec_fact(i as nat) == i * spec_fact((i - 1) as nat));
            assert((n * spec_fact((i - 1) as nat)) * i == n * spec_fact(i as nat))
                by (nonlinear_arith)
                requires
                    spec_fact(i as nat) == i * spec_fact((i - 1) as nat),
            ;
            assert(n * spec_fact(i as nat) <= n * spec_fact((n - 1) as nat)) by (nonlinear_arith)
                requires
                    n >= 0,
                    spec_fact(i as nat) <= spec_fact((n - 1) as nat),
            ;
            assert(n * spec_fact((n - 1) as nat) == spec_fact(n as nat));
        }
        product = product * i;
        i = i + 1;
    }
    product
}

fn factorial_u128(n: u128) -> (r: u128)
    requires
        1 <= n <= 34,
    ensures
        r == spec_fact(n as nat),
{
    proof {
        lemma_fact_values();
        assert(spec_fact(0) == 1);
        assert(n as nat * spec_fact(0) == n as nat) by (nonlinear_arith)
            requires
                spec_fact(0) == 1,
        ;
    }
    let mut product = n;
    let mut i: u128 = 1;
    while i < n
        invariant
            1 <= i <= n <= 34,
            product == n * spec_fact((i - 1) as nat),
            spec_fact(34) == 295232799039604140847618609643520000000,
        decreases n - i,
    {
        proof {
            lemma_fact_mono(i as nat, (n - 1) as nat);
            lemma_fact_mono(n as nat, 34);
            assert(spec_fact(i as nat) == i * spec_fact((i - 1) as nat));
            assert((n * spec_fact((i - 1) as nat)) * i == n * spec_fact(i as nat))
                by (nonlinear_arith)
                requires
                    spec_fact(i as nat) == i * spec_fact((i - 1) as nat),
            ;
            assert(n * spec_fact(i as nat) <= n * spec_fact((n - 1) as nat)) by (nonlinear_arith)
                requires
                    n >= 0,
                    spec_fact(i as nat) <= spec_fact((n - 1) as nat),
            ;
            assert(n * spec_fact((n - 1) as nat) == spec_fact(n as nat));
        }
        product = product * i;
        i = i + 1;
    }
    product
}

fn factorial_biguint(n: u64) -> (r: BigUint)
    ensures
        big_value(r) == spec_fact(n as nat),
{
    let mut product = big_from_u64(1);
    let mut i: u64 = 0;
    while i < n
        invariant
            i <= n,
            big_value(product) == spec_fact(i as nat),
        decreases n - i,
    {
        i = i + 1;
        let f = big_from_u64(i);
        let next = big_mul(&f, &product);
        product = next;
    }
    product
}

/// Multiplies all integers from `start` up to `end` into a `BigUint`;
/// an empty range yields 1.
pub fn product_range(end: u64, start: u64) -> (r: BigUint)
    ensures
        big_value(r) == spec_prod_range(start as int, end as int),
{
    let mut acc = big_from_u64(1);
    if start > end {
        return acc;
    }
    let mut i = start;
    loop
        invariant_except_break
            start <= i <= end,
            big_value(acc) == spec_prod_range(start as int, i as int - 1),
        ensures
            big_value(acc) == spec_prod_range(start as int, end as int),
        decreases end - i,
    {
        let f = big_from_u64(i);
        acc = big_mul(&acc, &f);
        proof {
            assert(spec_prod_range(start as int, i as int) == spec_prod_range(
                start as int,
                i as int - 1,
            ) * (i as nat));
        }
        if i == end {
            break ;
        }
        i = i + 1;
    }
    acc
}

/// The factorial of a nonnegative argument, dispatched by size: `u64`
/// below 21, `u128` below 35, big integers beyond.
pub fn factorial_nonneg(n: u64) -> (r: BigUint)
    ensures
        big_value(r) == spec_fact(n as nat),
{
    if n < 21 {
        big_from_u64(factorial_u64(n))
    } else if n < 35 {
        big_from_u128(factorial_u128(n as u128))
    } else {
        factorial_biguint(n)
    }
}

/// The factorial of `n`; negative arguments are rejected.
pub fn factorial(n: i64) -> (r: Result<BigUint, MathError>)
    ensures
        match r {
            Ok(b) => n >= 0 && big_value(b) == spec_fact(n as nat),
            Err(e) => n < 0 && e == MathError::NegativeInput,
        },
{
    if n < 0 {
        Err(MathError::NegativeInput)
    } else {
        Ok(factorial_nonneg(n as u64))
    }
}

/// A binomial-style quotient: the product over a range derived from
/// the arguments, divided by the factorial of the smaller of `k` and
/// `n - k`; 0 when `k` exceeds `n`, an error when `n` is negative.
pub fn comb(n: i64, k: i64) -> (r: Result<BigUint, MathError>)
    requires
        n < 0 || k > n || k >= 0,
    ensures
        match r {
            Ok(b) => n >= 0 && ({
                if k > n {
                    big_value(b) == 0
                } else {
                    let kk: int = if k <= n - k { k as int } else { n - k };
                    big_value(b) == spec_prod_range(n as int, n - kk) / spec_fact(kk as nat)
                }
            }),
            Err(e) => n < 0 && e == MathError::NegativeInput,
        },
{
    if n < 0 {
        Err(MathError::NegativeInput)
    } else if k > n {
        Ok(big_from_u64(0))
    } else {
        let kk = if k <= n - k { k } else { n - k };
        let num = product_range((n - kk) as u64, n as u64);
        let den = factorial_nonneg(kk as u64);
        proof {
            lemma_fact_pos(kk as nat);
        }
        Ok(big_div(&num, &den))
    }
}

/// The integer floor of the square root, by Newton-Raphson iteration;
/// negative arguments are rejected.
pub fn isqrt(n: i64) -> (r: Result<i64, MathError>)
    ensures
        match r {
            Ok(v) => n >= 0 && v == spec_isqrt(n as nat),
            Err(e) => n < 0 && e == MathError::NegativeInput,
        },
{
    if n < 0 {
        return Err(MathError::NegativeInput);
    }
    let root = floor_sqrt(n as u64);
    proof {
        assert((n as u64) as nat == n as nat);
        crate::xmath::lemma_isqrt_bounds(n as nat);
        assert(root == spec_isqrt(n as nat));
        assert(root < 0x1_0000_0000) by (nonlinear_arith)
            requires
                (root as nat) * (root as nat) <= n as nat,
                n as nat <= 0x7fff_ffff_ffff_ffff,
        ;
    }
    Ok(root as i64)
}

/// The number of `k`-permutations of `n`, as a product over a range
/// derived from the arguments; negative arguments wrap to unsigned.
pub fn perm(n: i64, k: Option<i64>) -> (r: BigUint)
    ensures
        match k {
            None => big_value(r) == spec_prod_range(n as u64 as int, 1),
            Some(s) => {
                if s as u64 > n as u64 {
                    big_value(r) == 0
                } else {
                    big_value(r) == spec_prod_range(
                        n as u64 as int,
                        n as u64 as int - s as u64 as int,
                    )
                }
            },
        },
{
    #[verifier::truncate]
    let nu = n as u64;
    match k {
        None => product_range(1, nu),
        Some(start) => {
            #[verifier::truncate]
            let su = start as u64;
            if su > nu {
                big_from_u64(0)
            } else {
                product_range(nu - su, nu)
            }
        },
    }
}

} // verus!
