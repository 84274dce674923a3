//! Arbitrary-precision arithmetic, backed by `num_bigint::BigUint`.
//!
//! A `BigUint` is opaque to the verifier; `big_value` names the natural
//! number it holds, and the trusted wrappers below state how the
//! `num_bigint` operations act on that value.

use vstd::prelude::*;
use num_bigint::BigUint;

verus! {

/// Declares num_bigint's `BigUint`, an arbitrary-precision natural
/// number, so that it can stand in signatures; its value is opaque to
/// the verifier and is spoken of only through `big_value`.
#[verifier::external_type_specification]
#[verifier::external_body]
pub struct ExBigUint(BigUint);

/// The natural number held by a `BigUint`.
pub uninterp spec fn big_value(b: BigUint) -> nat;

/// Relies on num_bigint's `From<u64>` for `BigUint`: the value is kept exactly.
#[verifier::external_body]
pub fn big_from_u64(x: u64) -> (r: BigUint)
    ensures
        big_value(r) == x as nat,
{
    BigUint::from(x)
}

/// Relies on num_bigint's `From<u128>` for `BigUint`: the value is kept exactly.
#[verifier::external_body]
pub fn big_from_u128(x: u128) -> (r: BigUint)
    ensures
        big_value(r) == x as nat,
{
    BigUint::from(x)
}

/// Relies on num_bigint's `Mul` for `&BigUint`: big-integer multiplication.
#[verifier::external_body]
pub fn big_mul(a: &BigUint, b: &BigUint) -> (r: BigUint)
    ensures
        big_value(r) == big_value(*a) * big_value(*b),
{
    a * b
}

/// Relies on num_bigint's `Shl<u64>` for `BigUint`: a left shift by `sh`
/// multiplies the value by two to the `sh`. It panics when the shifted
/// word count cannot be addressed, which the precondition rules out.
#[verifier::external_body]
pub fn big_shl(a: BigUint, sh: u64) -> (r: BigUint)
    requires
        sh as int / 64 <= usize::MAX as int,
    ensures
        big_value(r) == big_value(a) * vstd::arithmetic::power2::pow2(sh as nat),
{
    a << sh
}

/// Relies on num_bigint's `Div` for `&BigUint`: floor division. It panics on
/// a zero divisor, which the precondition rules out.
#[verifier::external_body]
pub fn big_div(a: &BigUint, b: &BigUint) -> (r: BigUint)
    requires
        big_value(*b) >= 1,
    ensures
        big_value(r) == big_value(*a) / big_value(*b),
{
    a / b
}

/// Product of a sequence of factors.
pub open spec fn seq_prod(s: Seq<u64>) -> nat
    decreases s.len(),
{
    if s.len() == 0 {
        1
    } else {
        (s[0] as nat) * seq_prod(s.drop_first())
    }
}

pub proof fn lemma_seq_prod_push(s: Seq<u64>, x: u64)
    ensures
        seq_prod(s.push(x)) == seq_prod(s) * x,
    decreases s.len(),
{
    let t = s.push(x);
    if s.len() == 0 {
        assert(t.drop_first() =~= Seq::<u64>::empty());
        assert(t[0] == x);
        assert(seq_prod(Seq::<u64>::empty()) == 1);
        assert(seq_prod(t) == (x as nat) * 1);
        assert(seq_prod(s) == 1);
        assert((x as nat) * 1 == 1 * (x as nat)) by (nonlinear_arith);
    } else {
        assert(t[0] == s[0]);
        assert(t.drop_first() =~= s.drop_first().push(x));
        lemma_seq_prod_push(s.drop_first(), x);
        let h = s[0] as nat;
        let p = seq_prod(s.drop_first());
        assert(seq_prod(t) == h * (p * (x as nat)));
        assert(seq_prod(s) == h * p);
        assert(h * (p * (x as nat)) == (h * p) * (x as nat)) by (nonlinear_arith);
    }
}

pub proof fn lemma_seq_prod_concat(a: Seq<u64>, b: Seq<u64>)
    ensures
        seq_prod(a + b) == seq_prod(a) * seq_prod(b),
    decreases b.len(),
{
    if b.len() == 0 {
        assert(a + b =~= a);
        assert(seq_prod(b) == 1);
        assert(seq_prod(a) * 1 == seq_prod(a)) by (nonlinear_arith);
    } else {
        let b0 = b.drop_last();
        let y = b.last();
        lemma_seq_prod_concat(a, b0);
        lemma_seq_prod_push(a + b0, y);
        lemma_seq_prod_push(b0, y);
        assert(a + b =~= (a + b0).push(y));
        assert(b0.push(y) =~= b);
        let pa = seq_prod(a);
        let p0 = seq_prod(b0);
        assert((pa * p0) * (y as nat) == pa * (p0 * (y as nat))) by (nonlinear_arith);
    }
}

/// Multiplies all numbers in `factors` together into a `BigUint`.
pub fn product_u64(factors: &[u64]) -> (r: BigUint)
    ensures
        big_value(r) == seq_prod(factors@),
{
    let mut result = big_from_u64(1);
    let n = factors.len();
    let mut j: usize = 0;
    while j < n
        invariant
            j <= n,
            n == factors@.len(),
            big_value(result) == seq_prod(factors@.take(j as int)),
        decreases n - j,
    {
        let f = factors[j];
        let fb = big_from_u64(f);
        result = big_mul(&result, &fb);
        proof {
            lemma_seq_prod_push(factors@.take(j as int), f);
            assert(factors@.take(j as int + 1) =~= factors@.take(j as int).push(f));
        }
        j += 1;
    }
    proof {
        assert(factors@.take(n as int) =~= factors@);
    }
    result
}

} // verus!
