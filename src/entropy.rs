//! Shannon entropy of a possibility set, in fixed point.
//!
//! With pattern weights `c_i` summing to `n`, the entropy in bits of a set `S`
//! is `sum over i in S of (c_i / n) * (log2 n - log2 c_i)`. It is kept here
//! scaled by `n * 2^16`, as `sum over i in S of c_i * (lg(n) - lg(c_i))`,
//! where `lg` is a base-two logarithm with sixteen fractional bits.

use vstd::prelude::*;
use bit_set::BitSet;
use crate::bits::{bits_of, set_contains};
use crate::catalog::{Pattern, total_occurrences};

verus! {

/// One in the fixed-point scale of `lg`.
pub const FIXED_ONE: u64 = 65536;

/// The number of fractional bits of `lg`.
pub const FRACTION_BITS: u64 = 16;

/// Two to the power `n`.
pub open spec fn pow2(n: nat) -> nat
    decreases n,
{
    if n == 0 {
        1
    } else {
        2 * pow2((n - 1) as nat)
    }
}

/// The integer part of the base-two logarithm of `x`.
pub open spec fn log2_floor(x: nat) -> nat
    decreases x,
{
    if x < 2 {
        0
    } else {
        1 + log2_floor(x / 2)
    }
}

/// `k` further bits of the logarithm of a mantissa `m / 2^16` in `[1, 2)`,
/// found by squaring: a square of two or more contributes a one bit and is
/// halved. Each square is rounded down to sixteen fractional bits.
pub open spec fn fraction_bits(m: nat, k: nat) -> nat
    decreases k,
{
    if k == 0 {
        0
    } else {
        let s = m * m / (FIXED_ONE as nat);
        if s >= 2 * FIXED_ONE {
            pow2((k - 1) as nat) + fraction_bits(s / 2, (k - 1) as nat)
        } else {
            fraction_bits(s, (k - 1) as nat)
        }
    }
}

/// `x / 2^log2_floor(x)` with sixteen fractional bits, rounded down.
pub open spec fn mantissa(x: nat) -> nat {
    x * FIXED_ONE as nat / pow2(log2_floor(x))
}

/// The base-two logarithm of `x` with sixteen fractional bits.
pub open spec fn lg(x: nat) -> nat {
    log2_floor(x) * FIXED_ONE as nat + fraction_bits(mantissa(x), FRACTION_BITS as nat)
}

proof fn lemma_pow2_positive(n: nat)
    ensures
        pow2(n) >= 1,
    decreases n,
{
    if n > 0 {
        lemma_pow2_positive((n - 1) as nat);
    }
}

proof fn lemma_pow2_16()
    ensures
        pow2(16) == 65536,
{
    reveal_with_fuel(pow2, 17);
}

proof fn lemma_pow2_64()
    ensures
        pow2(64) == 0x1_0000_0000_0000_0000,
{
    reveal_with_fuel(pow2, 65);
}

proof fn lemma_log2_floor_unique(x: nat, l: nat)
    requires
        pow2(l) <= x < 2 * pow2(l),
    ensures
        log2_floor(x) == l,
    decreases l,
{
    lemma_pow2_positive(l);
    if l == 0 {
    } else {
        let h = (l - 1) as nat;
        assert(pow2(l) == 2 * pow2(h));
        assert(pow2(h) <= x / 2 < 2 * pow2(h));
        lemma_log2_floor_unique(x / 2, h);
    }
}

proof fn lemma_fraction_bits_bound(m: nat, k: nat)
    requires
        FIXED_ONE <= m < 2 * FIXED_ONE,
    ensures
        fraction_bits(m, k) < pow2(k),
    decreases k,
{
    if k > 0 {
        let s = m * m / (FIXED_ONE as nat);
        lemma_square_step(m);
        if s >= 2 * FIXED_ONE {
            lemma_fraction_bits_bound(s / 2, (k - 1) as nat);
        } else {
            lemma_fraction_bits_bound(s, (k - 1) as nat);
        }
    }
}

proof fn lemma_square_step(m: nat)
    requires
        FIXED_ONE <= m < 2 * FIXED_ONE,
    ensures
        FIXED_ONE <= m * m / (FIXED_ONE as nat) < 4 * FIXED_ONE,
        m * m / (FIXED_ONE as nat) >= 2 * FIXED_ONE ==> FIXED_ONE <= (m * m / (FIXED_ONE as nat)) / 2 < 2
            * FIXED_ONE,
{
    let one = FIXED_ONE as nat;
    assert(one * one <= m * m < 4 * one * one) by (nonlinear_arith)
        requires one <= m < 2 * one;
    vstd::arithmetic::div_mod::lemma_fundamental_div_mod((m * m) as int, one as int);
    let s = m * m / one;
    assert(s * one <= m * m < s * one + one) by (nonlinear_arith)
        requires m * m == one * s + (m * m) % one, 0 <= (m * m) % one < one;
    assert(one <= s) by (nonlinear_arith)
        requires one * one <= m * m, m * m < s * one + one, one > 0;
    assert(s < 4 * one) by (nonlinear_arith)
        requires s * one <= m * m, m * m < 4 * one * one, one > 0;
}

/// The base-two logarithm of `x` with sixteen fractional bits: `lg(x)`.
pub fn log2_fixed(x: u64) -> (r: u64)
    requires
        x >= 1,
    ensures
        r == lg(x as nat),
        r < 64 * FIXED_ONE,
{
    let mut p: u64 = 1;
    let mut l: u64 = 0;
    while p <= x / 2
        invariant
            1 <= p <= x,
            p == pow2(l as nat),
            l < 64,
            pow2(l as nat) <= x,
        decreases x - p,
    {
        proof {
            if l == 63 {
                lemma_pow2_64();
                assert(pow2(64) == 2 * pow2(63));
            }
        }
        p = p * 2;
        l = l + 1;
        assert(pow2(l as nat) == 2 * pow2((l - 1) as nat));
    }
    proof {
        lemma_log2_floor_unique(x as nat, l as nat);
    }
    assert((x as u128) * (FIXED_ONE as u128) <= 0xffff_ffff_ffff_ffff * 65536) by (nonlinear_arith)
        requires x <= 0xffff_ffff_ffff_ffff;
    let m0_wide: u128 = (x as u128) * (FIXED_ONE as u128) / (p as u128);
    proof {
        let one = FIXED_ONE as nat;
        let xn = x as nat;
        let pn = p as nat;
        vstd::arithmetic::div_mod::lemma_fundamental_div_mod((xn * one) as int, pn as int);
        let q = xn * one / pn;
        assert(q * pn <= xn * one < q * pn + pn) by (nonlinear_arith)
            requires xn * one == pn * q + (xn * one) % pn, 0 <= (xn * one) % pn < pn;
        assert(one <= q) by (nonlinear_arith)
            requires pn <= xn, xn * one < q * pn + pn, pn > 0, one > 0;
        assert(q < 2 * one) by (nonlinear_arith)
            requires q * pn <= xn * one, xn < 2 * pn, pn > 0, one > 0;
        assert(m0_wide == q);
    }
    let mut m: u64 = m0_wide as u64;
    let ghost m0 = m as nat;
    let mut acc: u64 = 0;
    let mut k: u64 = FRACTION_BITS;
    let mut bit: u64 = 32768;
    proof {
        lemma_pow2_16();
        reveal_with_fuel(pow2, 2);
        assert(pow2(16) == 2 * pow2(15));
    }
    while k > 0
        invariant
            FIXED_ONE <= m < 2 * FIXED_ONE,
            k <= 16,
            k > 0 ==> bit == pow2((k - 1) as nat),
            acc + pow2(k as nat) <= pow2(16),
            pow2(16) == 65536,
            acc + fraction_bits(m as nat, k as nat) == fraction_bits(m0, 16),
        decreases k,
    {
        proof {
            lemma_square_step(m as nat);
            assert(pow2(k as nat) == 2 * pow2((k - 1) as nat));
        }
        let s = m * m / FIXED_ONE;
        if s >= 2 * FIXED_ONE {
            acc = acc + bit;
            m = s / 2;
        } else {
            m = s;
        }
        k = k - 1;
        bit = bit / 2;
        proof {
            if k > 0 {
                assert(pow2(k as nat) == 2 * pow2((k - 1) as nat));
            }
        }
    }
    proof {
        lemma_pow2_16();
        lemma_fraction_bits_bound(m0, 16);
        assert(l * FIXED_ONE + acc < 64 * FIXED_ONE) by (nonlinear_arith)
            requires l < 64, acc < 65536;
    }
    l * FIXED_ONE + acc
}


/// The contribution of pattern `i` to the scaled entropy of a set that holds
/// it, when the weights sum to `n`.
pub open spec fn entropy_term(ps: Seq<Pattern>, n: nat, i: int) -> int {
    ps[i].occurrences * (lg(n) - lg(ps[i].occurrences as nat))
}

/// The scaled entropy of the members of `s` below `k`.
pub open spec fn partial_entropy(ps: Seq<Pattern>, n: nat, s: Set<usize>, k: nat) -> int
    decreases k,
{
    if k == 0 {
        0
    } else {
        partial_entropy(ps, n, s, (k - 1) as nat) + if s.contains((k - 1) as usize) {
            entropy_term(ps, n, k - 1)
        } else {
            0
        }
    }
}

/// The Shannon entropy of the possibility set `s`, scaled by `n * 2^16`.
pub open spec fn set_entropy(ps: Seq<Pattern>, n: nat, s: Set<usize>) -> int {
    partial_entropy(ps, n, s, ps.len())
}

/// Every pattern occurs, and the occurrences sum to `n`.
pub open spec fn weights_ok(ps: Seq<Pattern>, n: nat) -> bool {
    &&& forall|i: int| 0 <= i < ps.len() ==> #[trigger] ps[i].occurrences >= 1
    &&& total_occurrences(ps) == n
}

proof fn lemma_prefix_total(ps: Seq<Pattern>, k: nat)
    requires
        k <= ps.len(),
    ensures
        total_occurrences(ps.take(k as int)) <= total_occurrences(ps),
        k < ps.len() ==> total_occurrences(ps.take((k + 1) as int)) == total_occurrences(ps.take(k as int))
            + ps[k as int].occurrences,
    decreases ps.len() - k,
{
    if k < ps.len() {
        assert(ps.take((k + 1) as int).drop_last() =~= ps.take(k as int));
        lemma_prefix_total(ps, k + 1);
    } else {
        assert(ps.take(k as int) =~= ps);
    }
}

/// The Shannon entropy of a possibility set, scaled: `set_entropy`.
pub fn shannon_entropy(patterns: &Vec<Pattern>, total: usize, set: &BitSet) -> (r: i128)
    requires
        weights_ok(patterns@, total as nat),
    ensures
        r == set_entropy(patterns@, total as nat, bits_of(*set)),
{
    let ghost ps = patterns@;
    let n = patterns.len();
    let mut acc: i128 = 0;
    let mut i: usize = 0;
    if total == 0 {
        proof {
            if n > 0 {
                lemma_prefix_total(ps, 0);
                lemma_prefix_total(ps, 1);
                assert(ps[0].occurrences >= 1);
                lemma_prefix_total(ps, 1);
                assert(total_occurrences(ps.take(1)) <= total_occurrences(ps));
                assert(ps.take(0) =~= Seq::<Pattern>::empty());
            }
        }
        assert(n == 0);
        return 0;
    }
    let lg_total = log2_fixed(total as u64);
    while i < n
        invariant
            n == ps.len(),
            ps == patterns@,
            weights_ok(ps, total as nat),
            total >= 1,
            lg_total == lg(total as nat),
            lg_total < 64 * FIXED_ONE,
            i <= n,
            acc == partial_entropy(ps, total as nat, bits_of(*set), i as nat),
            -(total_occurrences(ps.take(i as int)) * 64 * FIXED_ONE) <= acc <= total_occurrences(
                ps.take(i as int),
            ) * 64 * FIXED_ONE,
        decreases n - i,
    {
        proof {
            lemma_prefix_total(ps, i as nat);
            lemma_prefix_total(ps, (i + 1) as nat);
        }
        if set_contains(set, i) {
            let c = patterns[i].occurrences;
            let lg_c = log2_fixed(c as u64);
            let diff: i128 = lg_total as i128 - lg_c as i128;
            let prev = acc;
            proof {
                let t = total_occurrences(ps.take(i as int));
                assert(t + c <= total);
                assert(-(c * 64 * 65536) <= c * diff <= c * 64 * 65536) by (nonlinear_arith)
                    requires -(64 * 65536) <= diff <= 64 * 65536, c >= 0;
                assert(t * 64 * 65536 + c * 64 * 65536 == (t + c) * 64 * 65536) by (nonlinear_arith);
                assert((t + c) * 64 * 65536 <= 0xffff_ffff_ffff_ffff * 64 * 65536) by (nonlinear_arith)
                    requires t + c <= 0xffff_ffff_ffff_ffff;
            }
            acc = acc + (c as i128) * diff;
            proof {
                assert(acc == prev + entropy_term(ps, total as nat, i as int));
            }
        }
        i += 1;
    }
    proof {
        assert(ps.take(n as int) =~= ps);
    }
    acc
}


/// Each term of the scaled entropy is at most `2^22` times its weight, so
/// the entropy of any set lies within `2^22` times the total weight of zero.
pub proof fn lemma_set_entropy_bound(ps: Seq<Pattern>, n: nat, s: Set<usize>)
    requires
        weights_ok(ps, n),
        1 <= n <= 0xffff_ffff_ffff_ffff,
    ensures
        -(n * 64 * FIXED_ONE) <= set_entropy(ps, n, s) <= n * 64 * FIXED_ONE,
{
    lemma_partial_entropy_bound(ps, n, s, ps.len());
    assert(ps.take(ps.len() as int) =~= ps);
}

proof fn lemma_partial_entropy_bound(ps: Seq<Pattern>, n: nat, s: Set<usize>, k: nat)
    requires
        weights_ok(ps, n),
        1 <= n <= 0xffff_ffff_ffff_ffff,
        k <= ps.len(),
    ensures
        -(total_occurrences(ps.take(k as int)) * 64 * FIXED_ONE) <= partial_entropy(ps, n, s, k)
            <= total_occurrences(ps.take(k as int)) * 64 * FIXED_ONE,
    decreases k,
{
    if k > 0 {
        let j = (k - 1) as nat;
        lemma_partial_entropy_bound(ps, n, s, j);
        lemma_prefix_total(ps, j);
        let c = ps[j as int].occurrences as int;
        let t = total_occurrences(ps.take(j as int)) as int;
        assert(ps[j as int].occurrences >= 1);
        lg_bound(n);
        lg_bound(c as nat);
        let diff = lg(n) - lg(c as nat);
        assert(-(c * 64 * 65536) <= c * diff <= c * 64 * 65536) by (nonlinear_arith)
            requires -(64 * 65536) <= diff <= 64 * 65536, c >= 0;
        assert(t * 64 * 65536 + c * 64 * 65536 == (t + c) * 64 * 65536) by (nonlinear_arith);
    }
}

proof fn lemma_log2_floor_bounds(x: nat)
    requires
        x >= 1,
    ensures
        pow2(log2_floor(x)) <= x < 2 * pow2(log2_floor(x)),
    decreases x,
{
    if x >= 2 {
        lemma_log2_floor_bounds(x / 2);
    }
}

proof fn lemma_pow2_monotone(a: nat, b: nat)
    requires
        a <= b,
    ensures
        pow2(a) <= pow2(b),
    decreases b,
{
    if a < b {
        lemma_pow2_monotone(a, (b - 1) as nat);
    }
}

proof fn lemma_mantissa_bounds(x: nat)
    requires
        x >= 1,
    ensures
        FIXED_ONE <= mantissa(x) < 2 * FIXED_ONE,
{
    lemma_log2_floor_bounds(x);
    let one = FIXED_ONE as nat;
    let pn = pow2(log2_floor(x));
    lemma_pow2_positive(log2_floor(x));
    vstd::arithmetic::div_mod::lemma_fundamental_div_mod((x * one) as int, pn as int);
    let q = x * one / pn;
    assert(q * pn <= x * one < q * pn + pn) by (nonlinear_arith)
        requires x * one == pn * q + (x * one) % pn, 0 <= (x * one) % pn < pn;
    assert(one <= q) by (nonlinear_arith)
        requires pn <= x, x * one < q * pn + pn, pn > 0, one > 0;
    assert(q < 2 * one) by (nonlinear_arith)
        requires q * pn <= x * one, x < 2 * pn, pn > 0, one > 0;
}

/// For weights that fit in 64 bits, `lg` is below 64 in fixed point.
proof fn lg_bound(x: nat)
    requires
        1 <= x <= 0xffff_ffff_ffff_ffff,
    ensures
        lg(x) < 64 * FIXED_ONE,
{
    lemma_log2_floor_bounds(x);
    lemma_pow2_64();
    if log2_floor(x) >= 64 {
        lemma_pow2_monotone(64, log2_floor(x));
    }
    lemma_mantissa_bounds(x);
    lemma_fraction_bits_bound(mantissa(x), 16);
    lemma_pow2_16();
    assert(log2_floor(x) * 65536 + fraction_bits(mantissa(x), 16) < 64 * 65536) by (nonlinear_arith)
        requires log2_floor(x) < 64, fraction_bits(mantissa(x), 16) < 65536;
}

} // verus!
