//! A bit-packed compositeness sieve over the integers coprime to six.
//!
//! Bit position `i` of the bitmap stands for the integer `cand(i)`,
//! walking 5, 7, 11, 13, 17, 19, ... by alternating steps of +2 and +4.
//! A set bit marks its integer composite. The construction loop and the
//! bitmap it produces are mirrored by spec functions, so a sieve built
//! for a bound is pinned bit for bit.

use vstd::prelude::*;
use vstd::arithmetic::div_mod::{
    lemma_div_is_ordered, lemma_div_multiples_vanish_fancy, lemma_fundamental_div_mod,
    lemma_multiply_divide_lt,
};
use num_bigint::BigUint;
use crate::bignum::{big_from_u64, big_mul, big_value, lemma_seq_prod_concat, product_u64, seq_prod};

verus! {

/// The integer represented by bit position `i`: 5, 7, 11, 13, 17, 19, ...
pub open spec fn cand(i: int) -> int {
    5 + 3 * i - (i % 2)
}

/// Whether bit `i` of the packed bitmap is set.
pub open spec fn bit_of(bits: Seq<u64>, i: int) -> bool {
    bits[i / 64] & (1u64 << ((i % 64) as u64)) != 0
}

/// The bitmap with bit `i` set; positions outside the bitmap leave it
/// unchanged.
pub open spec fn set_bit(bits: Seq<u64>, i: int) -> Seq<u64> {
    if 0 <= i / 64 < bits.len() {
        bits.update(i / 64, bits[i / 64] | (1u64 << ((i % 64) as u64)))
    } else {
        bits
    }
}

/// Sets every bit position `c, c + inc, c + 2 * inc, ...` below `mx`.
pub open spec fn mark_multiples(bits: Seq<u64>, c: int, mx: int, inc: int) -> Seq<u64>
    decreases (if c < mx { mx - c } else { 0 }) when inc >= 1
{
    if c >= mx {
        bits
    } else {
        mark_multiples(set_bit(bits, c), c + inc, mx, inc)
    }
}

/// The state carried between iterations of the construction loop.
pub ghost struct SvSt {
    pub bits: Seq<u64>,
    pub d1: int,
    pub d2: int,
    pub p1: int,
    pub p2: int,
    pub s1: int,
    pub s2: int,
    pub l: int,
    pub toggle: bool,
}

/// One iteration of the construction loop: if bit `l` is still clear,
/// its integer is prime, and two arithmetic progressions of its
/// multiples are marked off; then the track state advances.
pub open spec fn sv_step(st: SvSt, mx: int) -> SvSt {
    let marked = if !bit_of(st.bits, st.l) {
        let inc = st.p1 + st.p2;
        mark_multiples(mark_multiples(st.bits, st.s1, mx, inc), st.s1 + st.s2, mx, inc)
    } else {
        st.bits
    };
    if !st.toggle {
        SvSt {
            bits: marked,
            d1: st.d1 + 16,
            d2: st.d2,
            p1: st.p1 + 2,
            p2: st.p2 + 2,
            s1: st.s1 + st.d2,
            s2: st.p2 + 2,
            l: st.l + 1,
            toggle: true,
        }
    } else {
        SvSt {
            bits: marked,
            d1: st.d1,
            d2: st.d2 + 8,
            p1: st.p1 + 2,
            p2: st.p2 + 6,
            s1: st.s1 + st.d1,
            s2: st.p1 + 2,
            l: st.l + 1,
            toggle: false,
        }
    }
}

/// Runs the construction loop to completion and yields the bitmap.
pub open spec fn sv_run(st: SvSt, mx: int) -> Seq<u64>
    decreases (if st.s1 < mx { mx - st.s1 } else { 0 }) when st.d1 >= 1 && st.d2 >= 1
{
    if st.s1 >= mx {
        st.bits
    } else {
        sv_run(sv_step(st, mx), mx)
    }
}

/// Number of 64-bit words the bitmap holds for a bound `n`.
pub open spec fn num_words(n: u64) -> int {
    if n < 965 {
        5
    } else {
        n as int / 192 + 1
    }
}

/// The precomputed bitmap used for bounds below 965.
pub open spec fn small_sieve_words() -> Seq<u64> {
    seq![
        3644759964122252416u64,
        10782565419096678876u64,
        5393006238418678630u64,
        7319957818701628715u64,
        16892333181782511326u64,
    ]
}

/// The initial state of the construction loop for a bound `n`.
pub open spec fn sv_init(n: u64) -> SvSt {
    SvSt {
        bits: Seq::new(num_words(n) as nat, |i: int| 0u64),
        d1: 8,
        d2: 8,
        p1: 3,
        p2: 7,
        s1: 7,
        s2: 3,
        l: 0,
        toggle: false,
    }
}

/// The bitmap a sieve of bound `n` holds.
pub open spec fn sieve_bits(n: u64) -> Seq<u64> {
    if n < 965 {
        small_sieve_words()
    } else {
        sv_run(sv_init(n), n as int / 3)
    }
}

/// Algebraic shape of the loop state after `l` iterations.
pub open spec fn sv_inv(st: SvSt) -> bool {
    &&& st.l >= 0
    &&& st.toggle == (st.l % 2 == 1)
    &&& st.p1 == 2 * st.l + 3
    &&& st.p2 == if st.l % 2 == 0 {
        4 * st.l + 7
    } else {
        4 * st.l + 5
    }
    &&& st.d1 == 8 + 8 * (st.l + st.l % 2)
    &&& st.d2 == 8 + 4 * (st.l - st.l % 2)
    &&& st.s2 == if st.l % 2 == 0 {
        2 * st.l + 3
    } else {
        4 * st.l + 5
    }
    &&& 3 * st.s1 == cand(st.l) * cand(st.l) - 4
}

proof fn lemma_mark_len(bits: Seq<u64>, c: int, mx: int, inc: int)
    requires
        inc >= 1,
    ensures
        mark_multiples(bits, c, mx, inc).len() == bits.len(),
    decreases (if c < mx { mx - c } else { 0 }),
{
    if c < mx {
        lemma_mark_len(set_bit(bits, c), c + inc, mx, inc);
    }
}

proof fn lemma_sv_inv_step(st: SvSt, mx: int)
    requires
        sv_inv(st),
    ensures
        sv_inv(sv_step(st, mx)),
        sv_step(st, mx).s1 >= st.s1 + 8,
        sv_step(st, mx).bits.len() == st.bits.len(),
{
    let st2 = sv_step(st, mx);
    let l = st.l;
    let c = cand(l);
    if !bit_of(st.bits, st.l) {
        lemma_mark_len(st.bits, st.s1, mx, st.p1 + st.p2);
        lemma_mark_len(
            mark_multiples(st.bits, st.s1, mx, st.p1 + st.p2),
            st.s1 + st.s2,
            mx,
            st.p1 + st.p2,
        );
    }
    if !st.toggle {
        // l is even; the next candidate is two above this one.
        assert(c == 3 * l + 5);
        assert(cand(l + 1) == 3 * l + 7);
        assert(3 * st2.s1 == cand(l + 1) * cand(l + 1) - 4) by (nonlinear_arith)
            requires
                3 * st.s1 == c * c - 4,
                c == 3 * l + 5,
                cand(l + 1) == 3 * l + 7,
                st2.s1 == st.s1 + 8 + 4 * l,
        ;
    } else {
        // l is odd; the next candidate is four above this one.
        assert(c == 3 * l + 4);
        assert(cand(l + 1) == 3 * l + 8);
        assert(3 * st2.s1 == cand(l + 1) * cand(l + 1) - 4) by (nonlinear_arith)
            requires
                3 * st.s1 == c * c - 4,
                c == 3 * l + 4,
                cand(l + 1) == 3 * l + 8,
                st2.s1 == st.s1 + 8 + 8 * (l + 1),
        ;
    }
}

/// Bounds on the loop state while the loop is still running.
proof fn lemma_iter_bounds(st: SvSt, mx: int)
    requires
        sv_inv(st),
        st.s1 < mx,
        mx <= 0x5555_5555_5555_5555,
    ensures
        cand(st.l) <= 0x1_0000_0000,
        st.l <= 0x5555_5555,
        st.l <= st.s1,
        st.p1 + st.p2 == 2 * cand(st.l),
        st.p1 + st.p2 <= 0x2_0000_0000,
        st.d1 <= 0x8_0000_0010,
        st.d2 <= 0x4_0000_0008,
        st.s2 <= 0x4_0000_0005,
        st.s1 >= 7,
{
    let l = st.l;
    let c = cand(l);
    assert(c >= 3 * l + 4);
    assert(c <= 0x1_0000_0000) by (nonlinear_arith)
        requires
            3 * st.s1 == c * c - 4,
            st.s1 < mx <= 0x5555_5555_5555_5555,
            c >= 4,
    ;
    assert(l <= st.s1) by (nonlinear_arith)
        requires
            3 * st.s1 == c * c - 4,
            c >= 3 * l + 4,
            l >= 0,
    ;
    assert(c >= 5);
    assert(st.s1 >= 7) by (nonlinear_arith)
        requires
            3 * st.s1 == c * c - 4,
            c >= 5,
    ;
    assert(st.l <= 0x5555_5555);
}

/// Word-count bounds: the marking indices all lie inside the bitmap.
proof fn lemma_mx_words(n: u64)
    requires
        965 <= n,
    ensures
        n as int / 3 < 64 * num_words(n),
        n as int / 3 >= 321,
        num_words(n) >= 6,
{
    let ni = n as int;
    let a = ni / 192;
    lemma_fundamental_div_mod(ni, 192);
    assert(ni <= 192 * a + 191);
    lemma_div_is_ordered(ni, 192 * a + 191, 3);
    assert(3 * (64 * a + 63) + 2 == 192 * a + 191);
    lemma_div_multiples_vanish_fancy(64 * a + 63, 2, 3);
    assert((192 * a + 191) / 3 == 64 * a + 63);
    lemma_div_is_ordered(965, ni, 3);
    assert(3 * 321 + 2 == 965);
    lemma_div_multiples_vanish_fancy(321, 2, 3);
    lemma_div_is_ordered(965, ni, 192);
    assert(192 * 5 + 5 == 965);
    lemma_div_multiples_vanish_fancy(5, 5, 192);
}



/// Whether `v` is one of the integers the bitmap represents.
pub open spec fn is_cand(v: int) -> bool {
    v >= 5 && (v % 6 == 1 || v % 6 == 5)
}

/// The bit position that represents the integer `v`; inverse of `cand`.
pub open spec fn cand_idx(v: int) -> int {
    if v % 6 == 5 {
        (v - 5) / 3
    } else {
        (v - 4) / 3
    }
}

/// Whether the sieve reports `v` prime: 2 and 3 are prime, and a
/// represented integer is prime exactly when its bit is clear.
pub open spec fn reports(bits: Seq<u64>, v: int) -> bool {
    v == 2 || v == 3 || (is_cand(v) && !bit_of(bits, cand_idx(v)))
}

/// The integers in `[lo, hi]` that the bitmap reports prime, ascending.
pub open spec fn listed(bits: Seq<u64>, lo: int, hi: int) -> Seq<u64>
    decreases (if lo <= hi { hi - lo + 1 } else { 0 })
{
    if hi < lo {
        Seq::empty()
    } else {
        listed(bits, lo, hi - 1) + (if reports(bits, hi) {
            seq![hi as u64]
        } else {
            Seq::empty()
        })
    }
}

/// What prime iteration over `[min, max]` yields on a sieve with the
/// given bitmap and bound: nothing when the range reaches past the
/// bound or below the first prime, else exactly the reported integers.
pub open spec fn spec_primes(bits: Seq<u64>, len: u64, min: u64, max: u64) -> Seq<u64> {
    if max > len || max < 2 {
        Seq::empty()
    } else {
        listed(bits, min as int, max as int)
    }
}

proof fn lemma_mod_const(m: int, r: int, d: int)
    requires
        0 <= r < d,
        0 < d,
    ensures
        (d * m + r) % d == r,
{
    vstd::arithmetic::div_mod::lemma_mod_multiples_vanish(m, r, d);
    assert(r % d == r) by (nonlinear_arith)
        requires
            0 <= r < d,
    ;
}

/// Values reported prime do not change over a range that holds none.
proof fn lemma_listed_stretch(bits: Seq<u64>, lo: int, a: int, b: int)
    requires
        a <= b,
        forall|w: int| a < w <= b ==> !reports(bits, w),
    ensures
        listed(bits, lo, b) == listed(bits, lo, a),
    decreases b - a,
{
    if a < b {
        lemma_listed_stretch(bits, lo, a, b - 1);
        assert(listed(bits, lo, b) =~= listed(bits, lo, b - 1));
    }
}

/// On ranges that end below 5, only 2 and 3 can be reported.
proof fn lemma_listed_small(bits: Seq<u64>, lo: int, hi: int)
    requires
        hi <= 4,
    ensures
        listed(bits, lo, hi) =~= (if lo <= 2 <= hi {
            seq![2u64]
        } else {
            Seq::<u64>::empty()
        }) + (if lo <= 3 <= hi {
            seq![3u64]
        } else {
            Seq::<u64>::empty()
        }),
    decreases (if lo <= hi { hi - lo + 1 } else { 0 }),
{
    if hi >= lo {
        lemma_listed_small(bits, lo, hi - 1);
        assert(hi != 2 && hi != 3 ==> !reports(bits, hi));
    }
}

/// Each candidate is represented at its own index, and no integer
/// strictly between two consecutive candidates is a candidate.
proof fn lemma_cand_props(i: int)
    requires
        i >= 0,
    ensures
        is_cand(cand(i)),
        cand_idx(cand(i)) == i,
        cand(i + 1) == cand(i) + (if i % 2 == 0 { 2int } else { 4int }),
        forall|w: int| cand(i) < w < cand(i + 1) ==> !is_cand(w),
        (i + 1) % 2 == 1 - i % 2,
{
    let j = i / 2;
    lemma_fundamental_div_mod(i, 2);
    let c = cand(i);
    if i % 2 == 0 {
        assert(c == 6 * j + 5);
        lemma_mod_const(j, 5, 6);
        assert(c % 6 == 5);
        assert(c - 5 == 3 * i);
        vstd::arithmetic::div_mod::lemma_div_multiples_vanish(i, 3);
        lemma_mod_const(j, 1, 2);
        assert((i + 1) % 2 == 1);
        assert(cand(i + 1) == 6 * j + 7);
        assert forall|w: int| cand(i) < w < cand(i + 1) implies !is_cand(w) by {
            assert(w == 6 * (j + 1));
            lemma_mod_const(j + 1, 0, 6);
        }
    } else {
        assert(c == 6 * j + 7);
        assert(c == 6 * (j + 1) + 1);
        lemma_mod_const(j + 1, 1, 6);
        assert(c % 6 == 1);
        assert(c - 4 == 3 * i);
        vstd::arithmetic::div_mod::lemma_div_multiples_vanish(i, 3);
        lemma_mod_const(j + 1, 0, 2);
        assert((i + 1) % 2 == 0);
        assert(cand(i + 1) == 6 * j + 11);
        assert forall|w: int| cand(i) < w < cand(i + 1) implies !is_cand(w) by {
            if w == 6 * j + 8 {
                lemma_mod_const(j + 1, 2, 6);
            } else if w == 6 * j + 9 {
                lemma_mod_const(j + 1, 3, 6);
            } else {
                assert(w == 6 * j + 10);
                lemma_mod_const(j + 1, 4, 6);
            }
        }
    }
}

/// The starting bit position the decode loop derives from `min`:
/// its candidate is the least candidate at or above `min`.
proof fn lemma_start_index(min: int, adj: int)
    requires
        5 <= min,
        adj == (if min % 2 == 0 { 1int } else { 0int }),
    ensures
        ({
            let st = (min + adj) / 3 - 1;
            &&& st >= 0
            &&& cand(st) >= min
            &&& cand(st) <= min + 3
            &&& forall|w: int| min <= w < cand(st) ==> !is_cand(w)
        }),
{
    let m = min / 6;
    let r = min % 6;
    lemma_fundamental_div_mod(min, 6);
    assert(min == 6 * m + r);
    assert(0 <= r < 6);
    lemma_fundamental_div_mod(min, 2);
    let st = (min + adj) / 3 - 1;
    if r == 0 {
        assert(min % 2 == 0) by { lemma_mod_const(3 * m, 0, 2); assert(min == 2 * (3 * m)); };
        assert(3 * (2 * m) + 1 == min + adj);
        lemma_div_multiples_vanish_fancy(2 * m, 1, 3);
        assert(st == 2 * m - 1);
        lemma_mod_const(m - 1, 1, 2);
        assert(st % 2 == 1);
        assert(cand(st) == 6 * m + 1);
        assert forall|w: int| min <= w < cand(st) implies !is_cand(w) by {
            assert(w == 6 * m);
            lemma_mod_const(m, 0, 6);
        }
    } else if r == 1 {
        assert(min % 2 == 1) by { lemma_mod_const(3 * m, 1, 2); assert(min == 2 * (3 * m) + 1); };
        assert(3 * (2 * m) + 1 == min + adj);
        lemma_div_multiples_vanish_fancy(2 * m, 1, 3);
        assert(st == 2 * m - 1);
        lemma_mod_const(m - 1, 1, 2);
        assert(st % 2 == 1);
        assert(cand(st) == 6 * m + 1);
        assert(cand(st) == min);
    } else if r == 2 {
        assert(min % 2 == 0) by { lemma_mod_const(3 * m + 1, 0, 2); assert(min == 2 * (3 * m + 1)); };
        assert(3 * (2 * m + 1) + 0 == min + adj);
        vstd::arithmetic::div_mod::lemma_div_multiples_vanish(2 * m + 1, 3);
        assert(st == 2 * m);
        lemma_mod_const(m, 0, 2);
        assert(st % 2 == 0);
        assert(cand(st) == 6 * m + 5);
        assert forall|w: int| min <= w < cand(st) implies !is_cand(w) by {
            if w == 6 * m + 2 {
                lemma_mod_const(m, 2, 6);
            } else if w == 6 * m + 3 {
                lemma_mod_const(m, 3, 6);
            } else {
                assert(w == 6 * m + 4);
                lemma_mod_const(m, 4, 6);
            }
        }
    } else if r == 3 {
        assert(min % 2 == 1) by { lemma_mod_const(3 * m + 1, 1, 2); assert(min == 2 * (3 * m + 1) + 1); };
        assert(3 * (2 * m + 1) + 0 == min + adj);
        vstd::arithmetic::div_mod::lemma_div_multiples_vanish(2 * m + 1, 3);
        assert(st == 2 * m);
        lemma_mod_const(m, 0, 2);
        assert(st % 2 == 0);
        assert(cand(st) == 6 * m + 5);
        assert forall|w: int| min <= w < cand(st) implies !is_cand(w) by {
            if w == 6 * m + 3 {
                lemma_mod_const(m, 3, 6);
            } else {
                assert(w == 6 * m + 4);
                lemma_mod_const(m, 4, 6);
            }
        }
    } else if r == 4 {
        assert(min % 2 == 0) by { lemma_mod_const(3 * m + 2, 0, 2); assert(min == 2 * (3 * m + 2)); };
        assert(3 * (2 * m + 1) + 2 == min + adj);
        lemma_div_multiples_vanish_fancy(2 * m + 1, 2, 3);
        assert(st == 2 * m);
        lemma_mod_const(m, 0, 2);
        assert(st % 2 == 0);
        assert(cand(st) == 6 * m + 5);
        assert forall|w: int| min <= w < cand(st) implies !is_cand(w) by {
            assert(w == 6 * m + 4);
            lemma_mod_const(m, 4, 6);
        }
    } else {
        assert(r == 5);
        assert(min % 2 == 1) by { lemma_mod_const(3 * m + 2, 1, 2); assert(min == 2 * (3 * m + 2) + 1); };
        assert(3 * (2 * m + 1) + 2 == min + adj);
        lemma_div_multiples_vanish_fancy(2 * m + 1, 2, 3);
        assert(st == 2 * m);
        lemma_mod_const(m, 0, 2);
        assert(st % 2 == 0);
        assert(cand(st) == 6 * m + 5);
        assert(cand(st) == min);
    }
}

/// The bit position of any represented integer within the bound lies
/// inside the bitmap.
proof fn lemma_idx_in_words(len: u64, i: int, v: int)
    requires
        i >= 0,
        v == cand(i),
        v <= len,
    ensures
        0 <= i / 64 < num_words(len),
        i < 64 * num_words(len),
{
    assert(3 * i + 4 <= v);
    if len < 965 {
        assert(i <= 320);
        if i == 320 {
            assert(v >= 964);
            assert(i % 2 == 0) by { lemma_mod_const(160, 0, 2); };
            assert(v == 965);
            assert(false);
        }
        assert(i < 320);
        lemma_multiply_divide_lt(i, 64, 5);
    } else {
        lemma_mx_words(len);
        lemma_div_is_ordered(3 * i, len as int, 3);
        vstd::arithmetic::div_mod::lemma_div_multiples_vanish(i, 3);
        assert(i <= len as int / 3);
        lemma_multiply_divide_lt(i, 64, num_words(len));
    }
}

proof fn lemma_sv_init_inv(n: u64)
    ensures
        sv_inv(sv_init(n)),
{
    let st = sv_init(n);
    assert(st.l % 2 == 0);
    assert(cand(st.l) == 5);
    assert(3 * st.s1 == cand(st.l) * cand(st.l) - 4) by (nonlinear_arith)
        requires
            st.s1 == 7,
            cand(st.l) == 5,
    ;
}

proof fn lemma_sv_run_len(st: SvSt, mx: int)
    requires
        sv_inv(st),
    ensures
        sv_run(st, mx).len() == st.bits.len(),
    decreases (if st.s1 < mx { mx - st.s1 } else { 0 }),
{
    if st.s1 < mx {
        lemma_sv_inv_step(st, mx);
        lemma_sv_run_len(sv_step(st, mx), mx);
    }
}

/// The bitmap of a bound-`n` sieve has exactly `num_words(n)` words.
pub proof fn lemma_bits_len(n: u64)
    ensures
        sieve_bits(n).len() == num_words(n),
{
    if n >= 965 {
        lemma_sv_init_inv(n);
        lemma_sv_run_len(sv_init(n), n as int / 3);
    }
}


/// A range that ends below the first prime lists nothing.
pub proof fn lemma_no_primes_below_two(bits: Seq<u64>, len: u64, min: u64, max: u64)
    requires
        max < 2,
    ensures
        spec_primes(bits, len, min, max) == Seq::<u64>::empty(),
{
}

/// A listed range splits at any point into the two listed halves.
pub proof fn lemma_listed_split(bits: Seq<u64>, lo: int, m: int, hi: int)
    requires
        lo - 1 <= m <= hi,
    ensures
        listed(bits, lo, hi) == listed(bits, lo, m) + listed(bits, m + 1, hi),
    decreases hi - m,
{
    if hi == m {
        assert(listed(bits, m + 1, hi) =~= Seq::<u64>::empty());
        assert(listed(bits, lo, hi) =~= listed(bits, lo, m) + listed(bits, m + 1, hi));
    } else {
        lemma_listed_split(bits, lo, m, hi - 1);
        assert(listed(bits, lo, hi) =~= listed(bits, lo, m) + listed(bits, m + 1, hi));
    }
}

/// What a range lists is strictly increasing, stays inside the range,
/// and holds exactly the values the bitmap reports prime there.
pub proof fn lemma_listed_exact(bits: Seq<u64>, lo: int, hi: int)
    requires
        0 <= lo,
        hi <= 0xffff_ffff_ffff_ffff,
    ensures
        forall|a: int|
            0 <= a < listed(bits, lo, hi).len() ==> lo <= #[trigger] listed(bits, lo, hi)[a] as int
                <= hi,
        forall|a: int, b: int|
            0 <= a < b < listed(bits, lo, hi).len() ==> listed(bits, lo, hi)[a] < listed(
                bits,
                lo,
                hi,
            )[b],
        forall|v: u64| #[trigger]
            listed(bits, lo, hi).contains(v) <==> (lo <= v as int <= hi && reports(
                bits,
                v as int,
            )),
    decreases (if lo <= hi { hi - lo + 1 } else { 0 }),
{
    let s = listed(bits, lo, hi);
    if hi < lo {
        assert(s.len() == 0);
        assert forall|v: u64| #[trigger] s.contains(v) implies false by {
            let a = choose|a: int| 0 <= a < s.len() && s[a] == v;
        }
    } else {
        lemma_listed_exact(bits, lo, hi - 1);
        let s0 = listed(bits, lo, hi - 1);
        if reports(bits, hi) {
            assert(s == s0 + seq![hi as u64]);
            assert(s.len() == s0.len() + 1);
            assert(s[s0.len() as int] == hi as u64);
            assert(forall|a: int| 0 <= a < s0.len() ==> s[a] == s0[a]);
            assert forall|v: u64| #[trigger] s.contains(v) implies (lo <= v as int <= hi
                && reports(bits, v as int)) by {
                let a = choose|a: int| 0 <= a < s.len() && s[a] == v;
                if a < s0.len() {
                    assert(s0[a] == v);
                    assert(s0.contains(v));
                } else {
                    assert(v == hi as u64);
                }
            }
            assert forall|v: u64| (lo <= v as int <= hi && reports(bits, v as int)) implies #[trigger]
                s.contains(v) by {
                if v as int <= hi - 1 {
                    assert(s0.contains(v));
                    let a = choose|a: int| 0 <= a < s0.len() && s0[a] == v;
                    assert(s[a] == v);
                } else {
                    assert(v as int == hi);
                    assert(s[s0.len() as int] == v);
                }
            }
        } else {
            assert(s =~= s0);
            assert forall|v: u64| (lo <= v as int <= hi && reports(bits, v as int)) implies #[trigger]
                s.contains(v) by {
                assert(v as int != hi);
                assert(s0.contains(v));
            }
            assert forall|v: u64| #[trigger] s.contains(v) implies (lo <= v as int <= hi
                && reports(bits, v as int)) by {
                assert(s0.contains(v));
            }
        }
    }
}



/// Primality, as mathematics: at least 2, with no smaller divisor.
pub open spec fn is_prime_math(v: int) -> bool {
    v >= 2 && forall|d: int| 2 <= d < v ==> #[trigger] (v % d) != 0
}

/// A bitmap is sound below `mx` when no set bit marks a prime.
pub open spec fn sound_bits(bits: Seq<u64>, mx: int) -> bool {
    forall|j: int| 0 <= j < mx && #[trigger] bit_of(bits, j) ==> !is_prime_math(cand(j))
}

/// Setting one bit leaves every other bit as it was.
proof fn lemma_set_bit_effect(bits: Seq<u64>, i: int, j: int)
    requires
        0 <= i < 64 * bits.len(),
        0 <= j < 64 * bits.len(),
    ensures
        bit_of(set_bit(bits, i), j) == (bit_of(bits, j) || j == i),
{
    lemma_multiply_divide_lt(i, 64, bits.len() as int);
    lemma_multiply_divide_lt(j, 64, bits.len() as int);
    let w = bits[i / 64];
    let bi = (i % 64) as u64;
    let bj = (j % 64) as u64;
    if j / 64 == i / 64 {
        assert(((w | (1u64 << bi)) & (1u64 << bj) != 0) == ((w & (1u64 << bj) != 0) || bi == bj))
            by (bit_vector)
            requires
                bi < 64,
                bj < 64,
        ;
        if bi == bj {
            lemma_fundamental_div_mod(i, 64);
            lemma_fundamental_div_mod(j, 64);
            assert(i == j);
        }
    }
}

/// Marking an arithmetic progression of positions whose integers are
/// all proper multiples of `d` keeps the bitmap sound.
proof fn lemma_mark_sound(bits: Seq<u64>, c: int, mx: int, inc: int, d: int)
    requires
        1 <= inc,
        2 <= d,
        0 <= c,
        mx <= 64 * bits.len(),
        sound_bits(bits, mx),
        forall|j: int|
            c <= j < mx && #[trigger] ((j - c) % inc) == 0 ==> (cand(j) % d == 0 && cand(j) > d),
    ensures
        sound_bits(mark_multiples(bits, c, mx, inc), mx),
    decreases (if c < mx { mx - c } else { 0 }),
{
    if c < mx {
        let b2 = set_bit(bits, c);
        assert(b2.len() == bits.len());
        assert(((c - c) % inc) == 0) by {
            vstd::arithmetic::div_mod::lemma_mod_multiples_basic(0, inc);
        }
        assert(cand(c) % d == 0 && cand(c) > d);
        assert(!is_prime_math(cand(c)));
        assert forall|j: int| 0 <= j < mx && #[trigger] bit_of(b2, j) implies !is_prime_math(
            cand(j),
        ) by {
            lemma_set_bit_effect(bits, c, j);
        }
        assert forall|j: int|
            c + inc <= j < mx && #[trigger] ((j - (c + inc)) % inc) == 0 implies (cand(j) % d == 0
            && cand(j) > d) by {
            vstd::arithmetic::div_mod::lemma_mod_sub_multiples_vanish(j - c, inc);
            assert(((j - c) % inc) == 0);
        }
        lemma_mark_sound(b2, c + inc, mx, inc, d);
    }
}

/// Every bit position stands for an odd integer.
proof fn lemma_cand_odd(l: int)
    requires
        l >= 0,
    ensures
        cand(l) % 2 == 1,
{
    let a = l / 2;
    lemma_fundamental_div_mod(l, 2);
    if l % 2 == 0 {
        assert(cand(l) == 2 * (3 * a + 2) + 1);
        lemma_mod_const(3 * a + 2, 1, 2);
    } else {
        assert(cand(l) == 2 * (3 * a + 3) + 1);
        lemma_mod_const(3 * a + 3, 1, 2);
    }
}

/// One construction step keeps the bitmap sound: both progressions it
/// marks consist of proper multiples of the step's candidate.
proof fn lemma_sv_step_sound(st: SvSt, mx: int)
    requires
        sv_inv(st),
        sound_bits(st.bits, mx),
        mx <= 64 * st.bits.len(),
    ensures
        sound_bits(sv_step(st, mx).bits, mx),
{
    if !bit_of(st.bits, st.l) {
        let l = st.l;
        let c0 = cand(l);
        let inc = st.p1 + st.p2;
        assert(inc == 2 * c0);
        assert(c0 >= 5) by {
            lemma_fundamental_div_mod(l, 2);
        }
        lemma_cand_odd(l);
        // s1 is odd, so its integer is the square of the candidate
        assert(3 * st.s1 % 2 == 1) by {
            vstd::arithmetic::div_mod::lemma_mul_mod_noop_general(c0, c0, 2);
            vstd::arithmetic::div_mod::lemma_sub_mod_noop(c0 * c0, 4, 2);
        }
        assert(st.s1 % 2 == 1) by {
            let a = st.s1 / 2;
            lemma_fundamental_div_mod(st.s1, 2);
            if st.s1 % 2 == 0 {
                assert(3 * st.s1 == 2 * (3 * a));
                lemma_mod_const(3 * a, 0, 2);
            }
        }
        assert(st.s1 >= 0) by (nonlinear_arith)
            requires
                3 * st.s1 == c0 * c0 - 4,
                c0 >= 5,
        ;
        assert(cand(st.s1) == 3 * st.s1 + 4);
        assert(cand(st.s1) == c0 * c0) by (nonlinear_arith)
            requires
                cand(st.s1) == 3 * st.s1 + 4,
                3 * st.s1 == c0 * c0 - 4,
        ;
        assert forall|j: int|
            st.s1 <= j < mx && #[trigger] ((j - st.s1) % inc) == 0 implies (cand(j) % c0 == 0
            && cand(j) > c0) by {
            let t = (j - st.s1) / inc;
            lemma_fundamental_div_mod(j - st.s1, inc);
            vstd::arithmetic::div_mod::lemma_div_pos_is_pos(j - st.s1, inc);
            assert(j == st.s1 + inc * t);
            assert(j % 2 == 1) by {
                assert(j == 2 * (c0 * t) + st.s1) by (nonlinear_arith)
                    requires
                        j == st.s1 + inc * t,
                        inc == 2 * c0,
                ;
                vstd::arithmetic::div_mod::lemma_mod_multiples_vanish(c0 * t, st.s1, 2);
            }
            assert(cand(j) == 3 * j + 4);
            assert(cand(j) == c0 * (c0 + 6 * t) && cand(j) > c0) by (nonlinear_arith)
                requires
                    cand(j) == 3 * j + 4,
                    j == st.s1 + inc * t,
                    inc == 2 * c0,
                    3 * st.s1 == c0 * c0 - 4,
                    t >= 0,
                    c0 >= 5,
            ;
            assert(cand(j) % c0 == 0) by {
                vstd::arithmetic::div_mod::lemma_mod_multiples_basic(c0 + 6 * t, c0);
                assert(c0 * (c0 + 6 * t) == (c0 + 6 * t) * c0) by (nonlinear_arith);
            }
        }
        lemma_mark_sound(st.bits, st.s1, mx, inc, c0);
        let bits_a = mark_multiples(st.bits, st.s1, mx, inc);
        lemma_mark_len(st.bits, st.s1, mx, inc);
        // the second progression starts at an even position whose
        // integer is the candidate times the next candidate
        let j0 = st.s1 + st.s2;
        assert(st.s2 % 2 == 1) by {
            if l % 2 == 0 {
                assert(st.s2 == 2 * (l + 1) + 1);
                lemma_mod_const(l + 1, 1, 2);
            } else {
                assert(st.s2 == 2 * (2 * l + 2) + 1);
                lemma_mod_const(2 * l + 2, 1, 2);
            }
        }
        assert(j0 % 2 == 0) by {
            let x = st.s1 / 2;
            let y = st.s2 / 2;
            lemma_fundamental_div_mod(st.s1, 2);
            lemma_fundamental_div_mod(st.s2, 2);
            assert(j0 == 2 * (x + y + 1));
            lemma_mod_const(x + y + 1, 0, 2);
        }
        assert(cand(j0) == 3 * j0 + 5);
        let gap: int = if l % 2 == 0 { 2int } else { 4int };
        if l % 2 == 0 {
            assert(cand(j0) == c0 * (c0 + 2) && cand(j0) > c0) by (nonlinear_arith)
                requires
                    cand(j0) == 3 * j0 + 5,
                    j0 == st.s1 + st.s2,
                    3 * st.s1 == c0 * c0 - 4,
                    st.s2 == 2 * l + 3,
                    c0 == 3 * l + 5,
                    c0 >= 5,
            ;
        } else {
            assert(cand(j0) == c0 * (c0 + 4) && cand(j0) > c0) by (nonlinear_arith)
                requires
                    cand(j0) == 3 * j0 + 5,
                    j0 == st.s1 + st.s2,
                    3 * st.s1 == c0 * c0 - 4,
                    st.s2 == 4 * l + 5,
                    c0 == 3 * l + 4,
                    c0 >= 5,
            ;
        }
        assert(cand(j0) == c0 * (c0 + gap) && cand(j0) > c0);
        assert forall|j: int|
            j0 <= j < mx && #[trigger] ((j - j0) % inc) == 0 implies (cand(j) % c0 == 0 && cand(j)
            > c0) by {
            let t = (j - j0) / inc;
            lemma_fundamental_div_mod(j - j0, inc);
            vstd::arithmetic::div_mod::lemma_div_pos_is_pos(j - j0, inc);
            assert(j == j0 + inc * t);
            assert(j % 2 == 0) by {
                assert(j == 2 * (c0 * t) + j0) by (nonlinear_arith)
                    requires
                        j == j0 + inc * t,
                        inc == 2 * c0,
                ;
                vstd::arithmetic::div_mod::lemma_mod_multiples_vanish(c0 * t, j0, 2);
            }
            assert(cand(j) == 3 * j + 5);
            assert(cand(j) == c0 * (c0 + gap + 6 * t) && cand(j) > c0) by (nonlinear_arith)
                requires
                    cand(j) == 3 * j + 5,
                    j == j0 + inc * t,
                    inc == 2 * c0,
                    cand(j0) == 3 * j0 + 5,
                    cand(j0) == c0 * (c0 + gap),
                    t >= 0,
                    gap >= 2,
                    c0 >= 5,
            ;
            assert(cand(j) % c0 == 0) by {
                vstd::arithmetic::div_mod::lemma_mod_multiples_basic(c0 + gap + 6 * t, c0);
                assert(c0 * (c0 + gap + 6 * t) == (c0 + gap + 6 * t) * c0) by (nonlinear_arith);
            }
        }
        lemma_mark_sound(bits_a, j0, mx, inc, c0);
        lemma_mark_len(bits_a, j0, mx, inc);
    }
}

proof fn lemma_sv_run_sound(st: SvSt, mx: int)
    requires
        sv_inv(st),
        sound_bits(st.bits, mx),
        mx <= 64 * st.bits.len(),
    ensures
        sound_bits(sv_run(st, mx), mx),
    decreases (if st.s1 < mx { mx - st.s1 } else { 0 }),
{
    if st.s1 < mx {
        lemma_sv_inv_step(st, mx);
        lemma_sv_step_sound(st, mx);
        lemma_sv_run_sound(sv_step(st, mx), mx);
    }
}

/// For bounds the construction loop handles, every set bit of the
/// bitmap marks a genuinely composite integer.
pub proof fn lemma_sieve_bits_sound(n: u64)
    requires
        965 <= n,
    ensures
        sound_bits(sieve_bits(n), n as int / 3),
{
    lemma_sv_init_inv(n);
    lemma_mx_words(n);
    let st = sv_init(n);
    assert forall|j: int| 0 <= j < n as int / 3 && #[trigger] bit_of(st.bits, j) implies
        !is_prime_math(cand(j)) by {
        lemma_multiply_divide_lt(j, 64, num_words(n));
        assert(st.bits[j / 64] == 0u64);
        let sh = (j % 64) as u64;
        assert(0u64 & (1u64 << sh) == 0) by (bit_vector);
    }
    lemma_sv_run_sound(st, n as int / 3);
}

/// A prime of at least 5 is coprime to six, sits at its own bit
/// position, and that position lies below the marking horizon.
proof fn lemma_prime_position(len: u64, v: int)
    requires
        is_prime_math(v),
        5 <= v <= len,
    ensures
        is_cand(v),
        cand(cand_idx(v)) == v,
        0 <= cand_idx(v) < len as int / 3,
{
    assert(v % 2 != 0);
    assert(v % 3 != 0);
    let r = v % 6;
    let m = v / 6;
    lemma_fundamental_div_mod(v, 6);
    assert(2 * 3 == 6);
    vstd::arithmetic::div_mod::lemma_mod_mod(v, 2, 3);
    vstd::arithmetic::div_mod::lemma_mod_mod(v, 3, 2);
    assert(r % 2 == v % 2 && r % 3 == v % 3);
    assert(r == 1 || r == 5);
    let idx = cand_idx(v);
    if r == 5 {
        assert(v - 5 == 3 * (2 * m));
        vstd::arithmetic::div_mod::lemma_div_multiples_vanish(2 * m, 3);
        assert(idx == 2 * m);
        lemma_mod_const(m, 0, 2);
        assert(cand(idx) == v);
    } else {
        assert(v - 4 == 3 * (2 * m - 1));
        vstd::arithmetic::div_mod::lemma_div_multiples_vanish(2 * m - 1, 3);
        assert(idx == 2 * m - 1);
        assert(m >= 1);
        lemma_mod_const(m - 1, 1, 2);
        assert(cand(idx) == v);
    }
    assert(3 * idx + 4 <= v);
    lemma_div_is_ordered(3 * (idx + 1), len as int, 3);
    vstd::arithmetic::div_mod::lemma_div_multiples_vanish(idx + 1, 3);
}

/// A true prime within the bound is reported prime by the sieve, for
/// bounds the construction loop handles.
pub proof fn lemma_prime_reported(len: u64, v: u64)
    requires
        965 <= len,
        v <= len,
        is_prime_math(v as int),
    ensures
        reports(sieve_bits(len), v as int),
{
    let bits = sieve_bits(len);
    if v <= 4 {
        assert(4int % 2 == 0);
        assert(v == 2 || v == 3);
    } else {
        lemma_prime_position(len, v as int);
        lemma_sieve_bits_sound(len);
        assert(!bit_of(bits, cand_idx(v as int)));
    }
}

/// Every integer that is truly prime and lies in the queried range is
/// among the listed primes, for bounds the construction loop handles.
pub proof fn lemma_all_primes_listed(len: u64, min: u64, max: u64, v: u64)
    requires
        965 <= len,
        2 <= max <= len,
        min <= v <= max,
        is_prime_math(v as int),
    ensures
        spec_primes(sieve_bits(len), len, min, max).contains(v),
{
    lemma_prime_reported(len, v);
    lemma_listed_exact(sieve_bits(len), min as int, max as int);
}

/// Why a sieve query fails: the queried value lies beyond the bound
/// the sieve was built for.
#[derive(Debug, Clone, Copy, PartialEq, Eq, Structural)]
pub enum SieveError {
    OutOfRange(u64),
}

/// Holds the completed sieve. The vector stores compositeness flags in
/// blocks of 64 bits each: if bit `i` (word `i / 64`, offset `i % 64`)
/// is set, the integer `cand(i)` is composite.
pub struct Sieve {
    /// The largest number this sieve can answer queries about.
    pub sieve_len: u64,
    is_composite: Vec<u64>,
}

impl Sieve {
    /// A sieve is well formed when its bitmap is exactly the one the
    /// construction loop yields for its bound.
    pub closed spec fn wf(&self) -> bool {
        self.is_composite@ == sieve_bits(self.sieve_len)
    }

    /// The bound this sieve was built for, as seen by contracts.
    pub closed spec fn bound(&self) -> u64 {
        self.sieve_len
    }

    /// The packed bitmap, as a sequence of words.
    pub closed spec fn bits(&self) -> Seq<u64> {
        self.is_composite@
    }

    /// A well-formed sieve's bitmap is the one its bound determines.
    pub proof fn lemma_wf_bits(&self)
        requires
            self.wf(),
        ensures
            self.bits() == sieve_bits(self.bound()),
    {
    }

    /// Constructs and returns a new sieve for numbers up to `n`.
    /// Skips even numbers and multiples of three via the two residue
    /// tracks 1 and 5 modulo 6.
    pub fn new(n: u64) -> (s: Sieve)
        requires
            n as int / 192 + 1 <= usize::MAX as int,
        ensures
            s.bound() == n,
            s.wf(),
            s.bits() == sieve_bits(n),
    {
        if n < 965 {
            // Precomputed bitmap: bootstraps tiny bounds without the
            // general algorithm.
            let mut v: Vec<u64> = Vec::new();
            v.push(3644759964122252416u64);
            v.push(10782565419096678876u64);
            v.push(5393006238418678630u64);
            v.push(7319957818701628715u64);
            v.push(16892333181782511326u64);
            proof {
                assert(v@ =~= small_sieve_words());
            }
            return Sieve { sieve_len: n, is_composite: v };
        }
        let words = n / 192 + 1;
        let mut v: Vec<u64> = Vec::new();
        while (v.len() as u64) < words
            invariant
                v@.len() <= words as int,
                forall|i: int| 0 <= i < v@.len() ==> v@[i] == 0u64,
            decreases words as int - v@.len(),
        {
            v.push(0u64);
        }
        proof {
            assert(v@ =~= Seq::new(num_words(n) as nat, |i: int| 0u64));
            lemma_mx_words(n);
        }
        proof {
            lemma_div_is_ordered(n as int, 0xffff_ffff_ffff_ffff, 3);
            assert(3 * 0x5555_5555_5555_5555 + 0 == 0xffff_ffff_ffff_ffff);
            lemma_div_multiples_vanish_fancy(0x5555_5555_5555_5555, 0, 3);
        }
        let max = n / 3;
        let mut d1: u64 = 8;
        let mut d2: u64 = 8;
        let mut p1: u64 = 3;
        let mut p2: u64 = 7;
        let mut s1: u64 = 7;
        let mut s2: u64 = 3;
        let mut l: u64 = 0;
        let mut toggle = false;
        let ghost mx = n as int / 3;
        let ghost mut st = sv_init(n);
        proof {
            lemma_sv_init_inv(n);
        }
        while s1 < max
            invariant
                965 <= n,
                mx == n as int / 3,
                max == n / 3,
                mx <= 0x5555_5555_5555_5555,
                mx < 64 * num_words(n),
                num_words(n) <= usize::MAX as int,
                st.bits == v@,
                v@.len() == num_words(n),
                st.d1 == d1 as int,
                st.d2 == d2 as int,
                st.p1 == p1 as int,
                st.p2 == p2 as int,
                st.s1 == s1 as int,
                st.s2 == s2 as int,
                st.l == l as int,
                st.toggle == toggle,
                sv_inv(st),
                sv_run(st, mx) == sieve_bits(n),
            decreases (if s1 < max { max as int - s1 } else { 0 }),
        {
            proof {
                lemma_iter_bounds(st, mx);
            }
            let idx = (l / 64) as usize;
            let bit = 1u64 << (l % 64);
            proof {
                assert((l as int) / 64 < num_words(n)) by {
                    lemma_multiply_divide_lt(l as int, 64, num_words(n));
                };
            }
            if v[idx] & bit == 0 {
                let inc = p1 + p2;
                let ghost bits0 = v@;
                let ghost target1 = mark_multiples(v@, s1 as int, mx, inc as int);
                let mut c = s1;
                while c < max
                    invariant
                        1 <= inc,
                        inc <= 0x2_0000_0000u64,
                        mx == n as int / 3,
                        max == n / 3,
                        mx <= 0x5555_5555_5555_5555,
                        mx < 64 * num_words(n),
                        v@.len() == num_words(n),
                        num_words(n) <= usize::MAX as int,
                        mark_multiples(v@, c as int, mx, inc as int) == target1,
                    decreases (if c < max { max as int - c } else { 0 }),
                {
                    let j = (c / 64) as usize;
                    proof {
                        lemma_multiply_divide_lt(c as int, 64, num_words(n));
                    }
                    let b = 1u64 << (c % 64);
                    let w = v[j];
                    let ghost prev = v@;
                    v.set(j, w | b);
                    proof {
                        assert(v@ == set_bit(prev, c as int));
                    }
                    c += inc;
                }
                proof {
                    assert(v@ == target1);
                }
                let start2 = s1 + s2;
                let ghost target2 = mark_multiples(v@, start2 as int, mx, inc as int);
                let mut c2 = start2;
                while c2 < max
                    invariant
                        1 <= inc,
                        inc <= 0x2_0000_0000u64,
                        mx == n as int / 3,
                        max == n / 3,
                        mx <= 0x5555_5555_5555_5555,
                        mx < 64 * num_words(n),
                        v@.len() == num_words(n),
                        num_words(n) <= usize::MAX as int,
                        mark_multiples(v@, c2 as int, mx, inc as int) == target2,
                    decreases (if c2 < max { max as int - c2 } else { 0 }),
                {
                    let j = (c2 / 64) as usize;
                    proof {
                        lemma_multiply_divide_lt(c2 as int, 64, num_words(n));
                    }
                    let b = 1u64 << (c2 % 64);
                    let w = v[j];
                    let ghost prev = v@;
                    v.set(j, w | b);
                    proof {
                        assert(v@ == set_bit(prev, c2 as int));
                    }
                    c2 += inc;
                }
                proof {
                    assert(v@ == target2);
                    assert(v@ == mark_multiples(
                        mark_multiples(bits0, st.s1, mx, st.p1 + st.p2),
                        st.s1 + st.s2,
                        mx,
                        st.p1 + st.p2,
                    ));
                }
            }
            l += 1;
            toggle = !toggle;
            if toggle {
                s1 += d2;
                d1 += 16;
                p1 += 2;
                p2 += 2;
                s2 = p2;
            } else {
                s1 += d1;
                d2 += 8;
                p1 += 2;
                p2 += 6;
                s2 = p1;
            }
            proof {
                lemma_sv_inv_step(st, mx);
                let st2 = sv_step(st, mx);
                assert(sv_run(st, mx) == sv_run(st2, mx));
                st = st2;
            }
        }
        proof {
            assert(v@ == sieve_bits(n));
        }
        Sieve { sieve_len: n, is_composite: v }
    }

    /// Returns the primes the sieve reports in `[min, max]`, ascending.
    /// Yields nothing if `max < 2` or `max` reaches past the sieve's
    /// bound (out of range is a hard boundary, not truncated work).
    pub fn iterate_primes(&self, min: u64, max: u64) -> (r: Vec<u64>)
        requires
            self.wf(),
        ensures
            r@ == spec_primes(self.bits(), self.bound(), min, max),
    {
        let mut out: Vec<u64> = Vec::new();
        if max > self.sieve_len || max < 2 {
            return out;
        }
        let ghost bits = self.bits();
        proof {
            lemma_bits_len(self.sieve_len);
        }
        if min > max {
            proof {
                assert(listed(bits, min as int, max as int) =~= Seq::<u64>::empty());
            }
            return out;
        }
        // 2 and 3 are prime but not represented in the bitmap.
        if min <= 2 {
            out.push(2);
        }
        if min <= 3 && 3 <= max {
            out.push(3);
        }
        // Convert `min` to the bit position of the first candidate at or
        // above it.
        let i0: u64 = if min < 5 {
            0
        } else {
            let adj: u64 = if min % 2 == 0 {
                1
            } else {
                0
            };
            proof {
                lemma_start_index(min as int, adj as int);
            }
            (min + adj) / 3 - 1
        };
        proof {
            if min < 5 {
                assert(cand(0) == 5);
            }
        }
        let ghost v0 = cand(i0 as int);
        proof {
            assert(v0 >= min);
            assert(forall|w: int| min <= w < v0 ==> !is_cand(w));
            // everything pushed so far is exactly what is listed up to
            // the first candidate, clipped at max
            let x = if v0 - 1 <= max as int {
                v0 - 1
            } else {
                max as int
            };
            if min < 5 {
                lemma_listed_small(bits, min as int, x);
                assert(out@ =~= listed(bits, min as int, x));
            } else {
                assert(listed(bits, min as int, min as int - 1) =~= Seq::<u64>::empty());
                lemma_listed_stretch(bits, min as int, min as int - 1, x);
                assert(out@ =~= listed(bits, min as int, x));
            }
        }
        // Walk the bitmap candidate by candidate.
        let mut i = i0;
        let three_i = match 3u64.checked_mul(i) {
            Some(t) => t,
            None => {
                proof {
                    assert(v0 > max);
                    assert(out@ =~= listed(bits, min as int, max as int));
                }
                return out;
            },
        };
        let parity = i % 2;
        let v_first = match three_i.checked_add(5 - parity) {
            Some(v) => v,
            None => {
                proof {
                    assert(v0 > max);
                    assert(out@ =~= listed(bits, min as int, max as int));
                }
                return out;
            },
        };
        if v_first > max {
            proof {
                assert(out@ =~= listed(bits, min as int, max as int));
            }
            return out;
        }
        let mut v = v_first;
        let mut inc: u64 = if i % 2 == 0 {
            2
        } else {
            4
        };
        loop
            invariant_except_break
                self.wf(),
                bits == self.bits(),
                bits.len() == num_words(self.sieve_len),
                2 <= max <= self.sieve_len,
                min <= max,
                min <= v,
                v <= max,
                i as int >= 0,
                v as int == cand(i as int),
                inc == (if i % 2 == 0 { 2u64 } else { 4u64 }),
                out@ == listed(bits, min as int, v as int - 1),
            ensures
                out@ == listed(bits, min as int, max as int),
            decreases max - v,
        {
            proof {
                lemma_cand_props(i as int);
                lemma_idx_in_words(self.sieve_len, i as int, v as int);
            }
            let wlen = self.is_composite.len();
            let idx = (i / 64) as usize;
            let b = 1u64 << (i % 64);
            proof {
                assert(bits.len() == wlen as int);
                assert(i as int / 64 < wlen as int);
                assert(idx as int == i as int / 64);
                assert((i % 64) as int == (i as int) % 64);
                assert(b == 1u64 << (((i as int) % 64) as u64));
                assert(self.is_composite@ == bits);
                assert((self.is_composite@[idx as int] & b == 0) == !bit_of(bits, i as int));
                assert(reports(bits, v as int) == !bit_of(bits, i as int));
            }
            if self.is_composite[idx] & b == 0 {
                out.push(v);
                proof {
                    assert(reports(bits, v as int));
                    assert(listed(bits, min as int, v as int) == listed(
                        bits,
                        min as int,
                        v as int - 1,
                    ) + seq![(v as int) as u64]);
                    assert(out@ =~= listed(bits, min as int, v as int - 1) + seq![
                        (v as int) as u64,
                    ]);
                }
            } else {
                proof {
                    assert(!reports(bits, v as int));
                    assert(listed(bits, min as int, v as int) == listed(
                        bits,
                        min as int,
                        v as int - 1,
                    ) + Seq::<u64>::empty());
                    assert(listed(bits, min as int, v as int) =~= listed(
                        bits,
                        min as int,
                        v as int - 1,
                    ));
                }
            }
            if max - v < inc {
                proof {
                    assert(forall|w: int| (v as int) < w <= max as int ==> !reports(bits, w));
                    lemma_listed_stretch(bits, min as int, v as int, max as int);
                }
                break;
            }
            let ghost old_v = v as int;
            v = v + inc;
            i = i + 1;
            inc = 6 - inc;
            proof {
                lemma_listed_stretch(bits, min as int, old_v, v as int - 1);
            }
        }
        proof {
            assert(out@ == spec_primes(self.bits(), self.bound(), min, max));
        }
        out
    }

    /// Returns the total count of primes from 1 up to `n`, building a
    /// fresh sieve of bound `n` and counting within it.
    pub fn number_of_primes_not_exceeding(n: u64) -> (r: usize)
        requires
            n as int / 192 + 1 <= usize::MAX as int,
        ensures
            r == spec_primes(sieve_bits(n), n, 1, n).len(),
    {
        let sieve = Sieve::new(n);
        let v = sieve.iterate_primes(1, n);
        v.len()
    }

    /// Returns the count of primes the sieve reports in `[low, high]`,
    /// or an out-of-range error if `high` is beyond the bound.
    pub fn number_of_primes(&self, low: u64, high: u64) -> (r: Result<usize, SieveError>)
        requires
            self.wf(),
        ensures
            match r {
                Ok(c) => high <= self.bound() && c == spec_primes(
                    self.bits(),
                    self.bound(),
                    low,
                    high,
                ).len(),
                Err(e) => high > self.bound() && e == SieveError::OutOfRange(high),
            },
    {
        if high > self.sieve_len {
            return Err(SieveError::OutOfRange(high));
        }
        let v = self.iterate_primes(low, high);
        Ok(v.len())
    }

    /// Returns whether the sieve reports `n` prime, or an out-of-range
    /// error if `n` is beyond the bound.
    pub fn is_prime(&self, n: u64) -> (r: Result<bool, SieveError>)
        requires
            self.wf(),
        ensures
            match r {
                Ok(b) => n <= self.bound() && b == (2 <= n && reports(self.bits(), n as int)),
                Err(e) => n > self.bound() && e == SieveError::OutOfRange(n),
            },
    {
        if n > self.sieve_len {
            return Err(SieveError::OutOfRange(n));
        }
        let found = self.iterate_primes(n, n);
        proof {
            if n >= 2 {
                assert(listed(self.bits(), n as int, n as int - 1) =~= Seq::<u64>::empty());
                if reports(self.bits(), n as int) {
                    assert(found@ =~= seq![(n as int) as u64]);
                } else {
                    assert(found@ =~= Seq::<u64>::empty());
                }
            }
        }
        Ok(found.len() == 1)
    }

    /// Computes the product of all primes the sieve reports in
    /// `[lo, hi]` (the primorial of the range), by balanced
    /// divide-and-conquer; the product of an empty range is 1.
    pub fn primorial(&self, lo: u64, hi: u64) -> (r: BigUint)
        requires
            self.wf(),
            lo > hi || hi <= self.bound(),
        ensures
            big_value(r) == seq_prod(spec_primes(self.bits(), self.bound(), lo, hi)),
        decreases hi - lo,
    {
        let ghost bits = self.bits();
        if lo > hi {
            let r = big_from_u64(1);
            proof {
                assert(seq_prod(Seq::<u64>::empty()) == 1);
                if !(hi > self.bound() || hi < 2) {
                    assert(listed(bits, lo as int, hi as int) =~= Seq::<u64>::empty());
                }
            }
            return r;
        }
        // small range: multiply the primes directly
        if hi - lo < 200 {
            let ps = self.iterate_primes(lo, hi);
            return product_u64(ps.as_slice());
        }
        // large range: split at the midpoint and merge
        let mid = lo + (hi - lo) / 2;
        proof {
            lemma_div_is_ordered(200, hi as int - lo as int, 2);
            assert((2 * 100 + 0) / 2 == 100) by {
                lemma_div_multiples_vanish_fancy(100, 0, 2);
            }
            lemma_fundamental_div_mod(hi as int - lo as int, 2);
        }
        let left = self.primorial(lo, mid);
        let right = self.primorial(mid + 1, hi);
        let r = big_mul(&left, &right);
        proof {
            lemma_listed_split(bits, lo as int, mid as int, hi as int);
            lemma_seq_prod_concat(
                listed(bits, lo as int, mid as int),
                listed(bits, mid as int + 1, hi as int),
            );
        }
        r
    }
}

/// Two sieves built for the same bound hold bitwise-identical bitmaps.
pub proof fn lemma_sieve_deterministic(a: &Sieve, b: &Sieve)
    requires
        a.wf(),
        b.wf(),
        a.bound() == b.bound(),
    ensures
        a.bits() =~= b.bits(),
{
}

} // verus!
