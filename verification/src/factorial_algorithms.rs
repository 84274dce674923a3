//! The swinging-factorial engine: the odd swing of `k` (sequence
//! A056040) from three sweeps over sieve-reported primes, and the
//! factorial built from it by a single binary shift.

use vstd::prelude::*;
use num_bigint::BigUint;
use crate::bignum::{big_from_u64, big_mul, big_shl, big_value, product_u64, seq_prod};
use crate::sieve::{listed, sieve_bits, spec_primes, Sieve};
use crate::sieve;
use crate::xmath::{bit_count64, floor_sqrt, lemma_isqrt_bounds, spec_isqrt, spec_pop_count};
use vstd::arithmetic::power2::pow2;
use vstd::arithmetic::div_mod::lemma_div_is_ordered;

verus! {

/// The 65 smallest odd-swing values, precomputed.
pub open spec fn small_swing_table() -> Seq<u64> {
    seq![
        1u64,
        1u64,
        1u64,
        3u64,
        3u64,
        15u64,
        5u64,
        35u64,
        35u64,
        315u64,
        63u64,
        693u64,
        231u64,
        3003u64,
        429u64,
        6435u64,
        6435u64,
        109395u64,
        12155u64,
        230945u64,
        46189u64,
        969969u64,
        88179u64,
        2028117u64,
        676039u64,
        16900975u64,
        1300075u64,
        35102025u64,
        5014575u64,
        145422675u64,
        9694845u64,
        300540195u64,
        300540195u64,
        9917826435u64,
        583401555u64,
        20419054425u64,
        2268783825u64,
        83945001525u64,
        4418157975u64,
        172308161025u64,
        34461632205u64,
        1412926920405u64,
        67282234305u64,
        2893136075115u64,
        263012370465u64,
        11835556670925u64,
        514589420475u64,
        24185702762325u64,
        8061900920775u64,
        395033145117975u64,
        15801325804719u64,
        805867616040669u64,
        61989816618513u64,
        3285460280781189u64,
        121683714103007u64,
        6692604275665385u64,
        956086325095055u64,
        54496920530418135u64,
        1879204156221315u64,
        110873045217057585u64,
        7391536347803839u64,
        450883717216034179u64,
        14544636039226909u64,
        916312070471295267u64,
        916312070471295267u64,
    ]
}

/// Builds the lookup table of the 65 smallest odd-swing values.
#[verifier::rlimit(100)]
fn small_table_vec() -> (t: Vec<u64>)
    ensures
        t@ == small_swing_table(),
{
    let mut t: Vec<u64> = Vec::new();
    t.push(1u64);
    t.push(1u64);
    t.push(1u64);
    t.push(3u64);
    t.push(3u64);
    t.push(15u64);
    t.push(5u64);
    t.push(35u64);
    t.push(35u64);
    t.push(315u64);
    t.push(63u64);
    t.push(693u64);
    t.push(231u64);
    t.push(3003u64);
    t.push(429u64);
    t.push(6435u64);
    t.push(6435u64);
    t.push(109395u64);
    t.push(12155u64);
    t.push(230945u64);
    t.push(46189u64);
    t.push(969969u64);
    t.push(88179u64);
    t.push(2028117u64);
    t.push(676039u64);
    t.push(16900975u64);
    t.push(1300075u64);
    t.push(35102025u64);
    t.push(5014575u64);
    t.push(145422675u64);
    t.push(9694845u64);
    t.push(300540195u64);
    t.push(300540195u64);
    t.push(9917826435u64);
    t.push(583401555u64);
    t.push(20419054425u64);
    t.push(2268783825u64);
    t.push(83945001525u64);
    t.push(4418157975u64);
    t.push(172308161025u64);
    t.push(34461632205u64);
    t.push(1412926920405u64);
    t.push(67282234305u64);
    t.push(2893136075115u64);
    t.push(263012370465u64);
    t.push(11835556670925u64);
    t.push(514589420475u64);
    t.push(24185702762325u64);
    t.push(8061900920775u64);
    t.push(395033145117975u64);
    t.push(15801325804719u64);
    t.push(805867616040669u64);
    t.push(61989816618513u64);
    t.push(3285460280781189u64);
    t.push(121683714103007u64);
    t.push(6692604275665385u64);
    t.push(956086325095055u64);
    t.push(54496920530418135u64);
    t.push(1879204156221315u64);
    t.push(110873045217057585u64);
    t.push(7391536347803839u64);
    t.push(450883717216034179u64);
    t.push(14544636039226909u64);
    t.push(916312070471295267u64);
    t.push(916312070471295267u64);
    proof {
        assert(t@ =~= small_swing_table());
    }
    t
}

/// The factors one prime `p` contributes in the first sweep: one copy
/// of `p` for every odd value among `q, q/p, q/p^2, ...`.
pub open spec fn quot_factors(p: u64, q: int) -> Seq<u64>
    decreases q when p >= 2 via quot_factors_dec
{
    if q <= 0 {
        Seq::empty()
    } else {
        (if q % 2 == 1 {
            seq![p]
        } else {
            Seq::empty()
        }) + quot_factors(p, q / (p as int))
    }
}

#[via_fn]
proof fn quot_factors_dec(p: u64, q: int) {
    if q > 0 && p >= 2 {
        vstd::arithmetic::div_mod::lemma_div_decreases(q, p as int);
        vstd::arithmetic::div_mod::lemma_div_pos_is_pos(q, p as int);
    }
}

/// First sweep over the primes up to the root of `k`.
pub open spec fn sweep_small(k: u64, ps: Seq<u64>) -> Seq<u64>
    decreases ps.len(),
{
    if ps.len() == 0 {
        Seq::empty()
    } else {
        quot_factors(ps[0], (k as int) / (ps[0] as int)) + sweep_small(k, ps.drop_first())
    }
}

/// Second sweep: a prime is kept once when `k / p` is odd.
pub open spec fn sweep_mid(k: u64, ps: Seq<u64>) -> Seq<u64>
    decreases ps.len(),
{
    if ps.len() == 0 {
        Seq::empty()
    } else {
        (if ((k as int) / (ps[0] as int)) % 2 == 1 {
            seq![ps[0]]
        } else {
            Seq::empty()
        }) + sweep_mid(k, ps.drop_first())
    }
}

/// The full factor list the odd-swing computation collects for `k` on a
/// sieve with the given bitmap and bound; the third sweep keeps every
/// prime in `(k/2, k]`.
pub open spec fn swing_factors(bits: Seq<u64>, len: u64, k: u64) -> Seq<u64> {
    let root = spec_isqrt(k as nat) as u64;
    sweep_small(k, spec_primes(bits, len, 3, root)) + sweep_mid(
        k,
        spec_primes(bits, len, (root + 1) as u64, (k / 3) as u64),
    ) + spec_primes(bits, len, (k / 2 + 1) as u64, k)
}

/// The odd swing of `k`, as a mathematical value: a table entry below
/// 65, else the product of the collected factors.
pub open spec fn odd_swing_spec(bits: Seq<u64>, len: u64, k: u64) -> nat {
    if k < 65 {
        small_swing_table()[k as int] as nat
    } else {
        seq_prod(swing_factors(bits, len, k))
    }
}

/// The odd part of the factorial of `n`: the square of the odd
/// factorial of `n / 2`, times the odd swing of `n`.
pub open spec fn odd_fact_spec(bits: Seq<u64>, len: u64, n: u64) -> nat
    decreases n,
{
    if n < 2 {
        1
    } else {
        let h = odd_fact_spec(bits, len, (n / 2) as u64);
        h * h * odd_swing_spec(bits, len, n)
    }
}

/// The swinging factorial of `n`, as a mathematical value: the odd part
/// of `n!` on a bound-`n` sieve, times two to the `n` minus the number
/// of set bits of `n` (the exponent of two in `n!`).
pub open spec fn spec_swinging_factorial(n: u64) -> nat {
    odd_fact_spec(sieve_bits(n), n, n) * pow2((n - spec_pop_count(n as nat)) as nat)
}

/// A prime sieve plus a scratch buffer that collects the prime factors
/// of an odd-swing computation.
pub struct Swing {
    primes: Sieve,
    factors: Vec<u64>,
}

impl Swing {
    /// A swing engine is well formed when its sieve is.
    pub closed spec fn wf(&self) -> bool {
        self.primes.wf()
    }

    /// The bound of the engine's sieve.
    pub closed spec fn bound(&self) -> u64 {
        self.primes.bound()
    }

    /// The bitmap of the engine's sieve.
    pub closed spec fn bits(&self) -> Seq<u64> {
        self.primes.bits()
    }

    /// Constructs a new engine for factorial computations up to `n`.
    pub fn new(n: u64) -> (s: Swing)
        requires
            n as int / 192 + 1 <= usize::MAX as int,
        ensures
            s.wf(),
            s.bound() == n,
            s.bits() == sieve_bits(n),
    {
        let primes = Sieve::new(n);
        Swing { primes, factors: Vec::new() }
    }

    /// Computes the odd swing of `k` (the odd-valued factor of the
    /// swing of `k`, sequence A056040): a table entry for small `k`,
    /// else the product of the primes three sweeps collect.
    pub fn odd_swing(&mut self, k: u64) -> (r: BigUint)
        requires
            old(self).wf(),
            k <= old(self).bound(),
        ensures
            final(self).wf(),
            final(self).bound() == old(self).bound(),
            final(self).bits() == old(self).bits(),
            big_value(r) == odd_swing_spec(final(self).bits(), final(self).bound(), k),
    {
        if k < 65 {
            let t = small_table_vec();
            return big_from_u64(t[k as usize]);
        }
        let ghost bits = self.bits();
        let ghost len = self.bound();
        let root_k = floor_sqrt(k);
        proof {
            lemma_isqrt_bounds(k as nat);
            assert(8 <= root_k && root_k < 0x1_0000_0000 && root_k <= k) by (nonlinear_arith)
                requires
                    root_k == spec_isqrt(k as nat),
                    root_k * root_k <= k as nat,
                    (k as nat) < (root_k + 1) * (root_k + 1),
                    65 <= k,
                    k <= 0xffff_ffff_ffff_ffffu64,
            ;
        }
        self.factors = Vec::new();
        // First sweep: for primes up to the root, one factor for each
        // odd quotient among k/p, k/p/2, k/p/4, ...
        let ps1 = self.primes.iterate_primes(3, root_k);
        let ghost s1 = ps1@;
        proof {
            sieve::lemma_listed_exact(bits, 3, root_k as int);
            assert(s1 == listed(bits, 3, root_k as int));
            assert(forall|t: int| 0 <= t < s1.len() ==> 3 <= #[trigger] s1[t]);
            assert(s1.skip(0) =~= s1);
        }
        let mut a: usize = 0;
        while a < ps1.len()
            invariant
                self.primes == old(self).primes,
                old(self).wf(),
                bits == old(self).bits(),
                len == old(self).bound(),
                65 <= k <= len,
                ps1@ == s1,
                a <= s1.len(),
                forall|t: int| 0 <= t < s1.len() ==> 3 <= #[trigger] s1[t],
                self.factors@ + sweep_small(k, s1.skip(a as int)) == sweep_small(k, s1),
            decreases s1.len() - a,
        {
            let p = ps1[a];
            let ghost base = self.factors@;
            proof {
                assert(s1.skip(a as int)[0] == s1[a as int]);
                assert(s1.skip(a as int).drop_first() =~= s1.skip(a as int + 1));
                assert(sweep_small(k, s1.skip(a as int)) == quot_factors(
                    p,
                    (k as int) / (p as int),
                ) + sweep_small(k, s1.skip(a as int + 1)));
            }
            let mut q = k / p;
            while q > 0
                invariant
                    self.primes == old(self).primes,
                    3 <= p,
                    self.factors@ + quot_factors(p, q as int) == base + quot_factors(
                        p,
                        (k as int) / (p as int),
                    ),
                decreases q,
            {
                if q % 2 == 1 {
                    let ghost before = self.factors@;
                    self.factors.push(p);
                    proof {
                        assert(quot_factors(p, q as int) == seq![p] + quot_factors(
                            p,
                            q as int / p as int,
                        ));
                        assert(self.factors@ + quot_factors(p, q as int / p as int) =~= before + (
                        seq![p] + quot_factors(p, q as int / p as int)));
                    }
                } else {
                    proof {
                        assert(quot_factors(p, q as int) == Seq::<u64>::empty() + quot_factors(
                            p,
                            q as int / p as int,
                        ));
                        assert(Seq::<u64>::empty() + quot_factors(p, q as int / p as int)
                            =~= quot_factors(p, q as int / p as int));
                    }
                }
                proof {
                    vstd::arithmetic::div_mod::lemma_div_decreases(q as int, p as int);
                }
                q = q / p;
            }
            proof {
                assert(quot_factors(p, 0) =~= Seq::<u64>::empty());
                assert(self.factors@ + Seq::<u64>::empty() =~= self.factors@);
                assert(self.factors@ == base + quot_factors(p, (k as int) / (p as int)));
                assert(self.factors@ + sweep_small(k, s1.skip(a as int + 1)) =~= base
                    + (quot_factors(p, (k as int) / (p as int)) + sweep_small(
                    k,
                    s1.skip(a as int + 1),
                )));
            }
            a += 1;
        }
        proof {
            assert(s1.skip(s1.len() as int) =~= Seq::<u64>::empty());
            assert(self.factors@ + Seq::<u64>::empty() =~= self.factors@);
            assert(self.factors@ == sweep_small(k, s1));
        }
        let ghost f1 = self.factors@;
        // Second sweep: primes between the root and k/3, kept when k/p
        // is odd.
        let third = k / 3;
        let ps2 = self.primes.iterate_primes(root_k + 1, third);
        let ghost s2 = ps2@;
        proof {
            sieve::lemma_listed_exact(bits, root_k as int + 1, third as int);
            if !(third > len || third < 2) {
                assert(s2 == listed(bits, root_k as int + 1, third as int));
            }
            assert(forall|t: int| 0 <= t < s2.len() ==> 1 <= #[trigger] s2[t]);
            assert(s2.skip(0) =~= s2);
        }
        let mut b: usize = 0;
        while b < ps2.len()
            invariant
                self.primes == old(self).primes,
                old(self).wf(),
                bits == old(self).bits(),
                len == old(self).bound(),
                65 <= k <= len,
                ps2@ == s2,
                b <= s2.len(),
                forall|t: int| 0 <= t < s2.len() ==> 1 <= #[trigger] s2[t],
                self.factors@ + sweep_mid(k, s2.skip(b as int)) == f1 + sweep_mid(k, s2),
            decreases s2.len() - b,
        {
            let p = ps2[b];
            let ghost before = self.factors@;
            proof {
                assert(s2.skip(b as int)[0] == s2[b as int]);
                assert(s2.skip(b as int).drop_first() =~= s2.skip(b as int + 1));
            }
            if (k / p) % 2 == 1 {
                self.factors.push(p);
                proof {
                    assert(sweep_mid(k, s2.skip(b as int)) == seq![p] + sweep_mid(
                        k,
                        s2.skip(b as int + 1),
                    ));
                    assert(self.factors@ + sweep_mid(k, s2.skip(b as int + 1)) =~= before + (seq![p]
                        + sweep_mid(k, s2.skip(b as int + 1))));
                }
            } else {
                proof {
                    assert(sweep_mid(k, s2.skip(b as int)) == Seq::<u64>::empty() + sweep_mid(
                        k,
                        s2.skip(b as int + 1),
                    ));
                    assert(Seq::<u64>::empty() + sweep_mid(k, s2.skip(b as int + 1)) =~= sweep_mid(
                        k,
                        s2.skip(b as int + 1),
                    ));
                }
            }
            b += 1;
        }
        proof {
            assert(s2.skip(s2.len() as int) =~= Seq::<u64>::empty());
            assert(self.factors@ + Seq::<u64>::empty() =~= self.factors@);
            assert(self.factors@ == f1 + sweep_mid(k, s2));
        }
        let ghost f2 = self.factors@;
        // Third sweep: every prime in (k/2, k] appears exactly once.
        proof {
            lemma_div_is_ordered(k as int, 0xffff_ffff_ffff_ffff, 2);
            assert((2 * 0x7fff_ffff_ffff_ffff + 1) / 2 == 0x7fff_ffff_ffff_ffff) by {
                vstd::arithmetic::div_mod::lemma_div_multiples_vanish_fancy(
                    0x7fff_ffff_ffff_ffff,
                    1,
                    2,
                );
            }
        }
        let ps3 = self.primes.iterate_primes(k / 2 + 1, k);
        let ghost s3 = ps3@;
        proof {
            assert(s3.take(0) =~= Seq::<u64>::empty());
            assert(f2 + s3.take(0) =~= f2);
        }
        let mut c: usize = 0;
        while c < ps3.len()
            invariant
                self.primes == old(self).primes,
                old(self).wf(),
                bits == old(self).bits(),
                len == old(self).bound(),
                65 <= k <= len,
                ps3@ == s3,
                c <= s3.len(),
                self.factors@ == f2 + s3.take(c as int),
            decreases s3.len() - c,
        {
            let p = ps3[c];
            self.factors.push(p);
            proof {
                assert(s3.take(c as int + 1) =~= s3.take(c as int).push(p));
                assert(f2 + s3.take(c as int + 1) =~= (f2 + s3.take(c as int)).push(p));
            }
            c += 1;
        }
        proof {
            assert(s3.take(s3.len() as int) =~= s3);
        }
        let r = product_u64(self.factors.as_slice());
        proof {
            assert(self.factors@ == (sweep_small(k, s1) + sweep_mid(k, s2)) + s3) by {
                assert(f2 + s3 =~= (f1 + sweep_mid(k, s2)) + s3);
            }
            assert((root_k + 1) as u64 == ((spec_isqrt(k as nat) as u64 + 1) as u64));
            assert(self.factors@ == swing_factors(bits, len, k));
        }
        r
    }
}

/// The odd part of `k!`, by the recursive odd-factor decomposition:
/// the square of the odd factorial of `k / 2`, times the odd swing of
/// `k`. The engine's sieve serves every level, since the arguments
/// strictly decrease.
fn odd_factorial(s: &mut Swing, k: u64) -> (r: BigUint)
    requires
        old(s).wf(),
        k <= old(s).bound(),
    ensures
        final(s).wf(),
        final(s).bound() == old(s).bound(),
        final(s).bits() == old(s).bits(),
        big_value(r) == odd_fact_spec(old(s).bits(), old(s).bound(), k),
    decreases k,
{
    if k < 2 {
        return big_from_u64(1);
    }
    let h = odd_factorial(s, k / 2);
    let sw = s.odd_swing(k);
    let hh = big_mul(&h, &h);
    big_mul(&hh, &sw)
}

/// Computes `n!` by the swinging-factorial identity: the odd part of
/// `n!`, shifted left by the exponent of two in `n!`, which is `n`
/// minus the number of set bits of `n`.
pub fn swinging_factorial(n: u64) -> (r: BigUint)
    requires
        n as int / 192 + 1 <= usize::MAX as int,
        n as int / 64 <= usize::MAX as int,
    ensures
        big_value(r) == spec_swinging_factorial(n),
{
    let mut s = Swing::new(n);
    let r = odd_factorial(&mut s, n);
    let ones = bit_count64(n);
    proof {
        crate::xmath::lemma_pop_count_le(n as nat);
        vstd::arithmetic::div_mod::lemma_div_is_ordered(
            n as int - ones as int,
            n as int,
            64,
        );
    }
    let shift = n - ones as u64;
    big_shl(r, shift)
}

} // verus!
