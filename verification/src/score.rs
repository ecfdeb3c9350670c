//! Fixed-point base-2 logarithms for path scores.
//!
//! The route dynamic program compares sums of word log-probabilities.
//! Because every candidate path is scored as `sum(log f_i) - k * log total`,
//! comparisons are invariant under a positive rescaling of the logarithm,
//! so base 2 with 24 fractional bits stands in for the natural logarithm.

use vstd::arithmetic::power2::pow2;
use vstd::prelude::*;

verus! {

/// Number of fractional bits in a fixed-point logarithm.
pub const LOG_SCALE: u64 = 16777216;

/// Score used for a frequency of zero, standing in for negative infinity:
/// in any block of fewer than about a million characters it loses to every
/// path of positively-scored steps over the same span.
pub const ZERO_FREQ_SCORE: i64 = -1125899906842624;

/// Position of the most significant set bit: the integer part of log2.
pub open spec fn spec_msb(x: nat) -> nat
    decreases x,
{
    if x < 2 {
        0
    } else {
        1 + spec_msb(x / 2)
    }
}

pub proof fn lemma_msb_range(x: nat)
    requires
        x >= 1,
    ensures
        pow2(spec_msb(x)) <= x < pow2(spec_msb(x) + 1),
    decreases x,
{
    vstd::arithmetic::power2::lemma_pow2_unfold(spec_msb(x) + 1);
    if x < 2 {
        vstd::arithmetic::power2::lemma2_to64();
    } else {
        lemma_msb_range(x / 2);
        vstd::arithmetic::power2::lemma_pow2_unfold(spec_msb(x));
    }
}

pub proof fn lemma_msb_bound(x: nat, n: nat)
    requires
        1 <= x < pow2(n),
        n >= 1,
    ensures
        spec_msb(x) < n,
{
    lemma_msb_range(x);
    if spec_msb(x) > n {
        vstd::arithmetic::power2::lemma_pow2_strictly_increases(n, spec_msb(x));
    }
}

/// The `n` fractional bits of log2 of `y / 2^63`, for `y` in `[2^63, 2^64)`,
/// computed most significant bit first by repeated squaring.
pub open spec fn spec_log_frac(y: int, n: nat) -> int
    decreases n,
{
    if n == 0 {
        0
    } else {
        let z = (y * y) / 0x8000000000000000;
        if z >= 0x10000000000000000 {
            pow2((n - 1) as nat) + spec_log_frac(z / 2, (n - 1) as nat)
        } else {
            spec_log_frac(z, (n - 1) as nat)
        }
    }
}

pub proof fn lemma_log_frac_bound(y: int, n: nat)
    ensures
        0 <= spec_log_frac(y, n) < pow2(n),
    decreases n,
{
    if n == 0 {
        vstd::arithmetic::power2::lemma2_to64();
    } else {
        vstd::arithmetic::power2::lemma_pow2_unfold(n);
        let z = (y * y) / 0x8000000000000000;
        lemma_log_frac_bound(z / 2, (n - 1) as nat);
        lemma_log_frac_bound(z, (n - 1) as nat);
        vstd::arithmetic::power2::lemma_pow2_pos((n - 1) as nat);
    }
}

/// Fixed-point log2 of `x`: integer part times `LOG_SCALE` plus 24
/// fractional bits.
pub open spec fn spec_ilog2(x: u64) -> int {
    spec_msb(x as nat) * LOG_SCALE + spec_log_frac((x as nat * pow2((63 - spec_msb(x as nat)) as nat)) as int, 24)
}

pub proof fn lemma_ilog2_bound(x: u64)
    ensures
        0 <= spec_ilog2(x) < 0x40000000,
{
    let m = spec_msb(x as nat);
    assert(m <= 63) by {
        if x as nat >= 1 {
            vstd::arithmetic::power2::lemma2_to64_rest();
            assert(pow2(64) == 0x10000000000000000);
            lemma_msb_bound(x as nat, 64);
        }
    }
    lemma_log_frac_bound((x as nat * pow2((63 - m) as nat)) as int, 24);
    assert(pow2(24) == 16777216) by {
        vstd::arithmetic::power2::lemma2_to64();
    }
}

fn pow2_exec(n: u64) -> (r: u128)
    requires
        n <= 100,
    ensures
        r == pow2(n as nat),
{
    let mut r: u128 = 1;
    let mut i: u64 = 0;
    proof {
        vstd::arithmetic::power2::lemma2_to64();
    }
    while i < n
        invariant
            i <= n <= 100,
            r == pow2(i as nat),
        decreases n - i,
    {
        proof {
            vstd::arithmetic::power2::lemma_pow2_unfold(i as nat + 1);
            vstd::arithmetic::power2::lemma_pow2_strictly_increases(i as nat, 101);
            vstd::arithmetic::power2::lemma_pow2_pos(i as nat);
            assert(pow2(101) == 0x20000000000000000000000000) by {
                vstd::arithmetic::power2::lemma2_to64_rest();
                vstd::arithmetic::power2::lemma_pow2_adds(64, 37);
                vstd::arithmetic::power2::lemma2_to64();
                assert(pow2(101) == pow2(64) * pow2(37));
            }
        }
        r = r * 2;
        i = i + 1;
    }
    r
}

/// Fixed-point log2 of a positive frequency or total.
pub fn ilog2_fixed(x: u64) -> (r: u64)
    requires
        x >= 1,
    ensures
        r == spec_ilog2(x),
        r < 0x40000000,
{
    let ghost m = spec_msb(x as nat);
    proof {
        assert(m <= 63) by {
            vstd::arithmetic::power2::lemma2_to64_rest();
            assert(pow2(64) == 0x10000000000000000);
            lemma_msb_bound(x as nat, 64);
        }
    }
    // integer part: position of the most significant bit
    let mut t: u64 = x;
    let mut k: u64 = 0;
    while t >= 2
        invariant
            1 <= t,
            m == k + spec_msb(t as nat),
            m <= 63,
        decreases t,
    {
        t = t / 2;
        k = k + 1;
    }
    proof {
        assert(m == k);
    }
    // normalize to [2^63, 2^64)
    let p = pow2_exec(63 - k);
    let ghost pg = pow2((63 - m) as nat);
    proof {
        lemma_msb_range(x as nat);
        vstd::arithmetic::power2::lemma_pow2_pos((63 - m) as nat);
        assert(x as nat * pg < pow2(64)) by {
            assert((x as nat) < pow2((m + 1) as nat));
            assert(pow2((m + 1) as nat) * pg == pow2(64)) by {
                vstd::arithmetic::power2::lemma_pow2_adds((m + 1) as nat, (63 - m) as nat);
            }
            assert(x as nat * pg < pow2((m + 1) as nat) * pg) by (nonlinear_arith)
                requires
                    (x as nat) < pow2((m + 1) as nat),
                    pg > 0,
            ;
        }
        assert(pow2(64) == 0x10000000000000000) by {
            vstd::arithmetic::power2::lemma2_to64_rest();
        }
        assert(x as nat * pg >= pow2(63)) by {
            assert(pow2(m) * pg == pow2(63)) by {
                vstd::arithmetic::power2::lemma_pow2_adds(m, (63 - m) as nat);
            }
            assert(x as nat * pg >= pow2(m) * pg) by (nonlinear_arith)
                requires
                    (x as nat) >= pow2(m),
                    pg > 0,
            ;
        }
        assert(pow2(63) == 0x8000000000000000) by {
            vstd::arithmetic::power2::lemma2_to64_rest();
        }
    }
    let mut y: u128 = (x as u128) * p;
    let ghost y0 = y;
    proof {
        vstd::arithmetic::power2::lemma2_to64();
        assert(y0 as int == (x as nat * pg) as int);
    }
    // fractional part, one bit per squaring
    let mut acc: u64 = 0;
    let mut j: u64 = 0;
    while j < 24
        invariant
            j <= 24,
            0x8000000000000000 <= y < 0x10000000000000000,
            spec_log_frac(y0 as int, 24) == acc * pow2((24 - j) as nat) + spec_log_frac(
                y as int,
                (24 - j) as nat,
            ),
            acc < pow2(j as nat),
        decreases 24 - j,
    {
        let ghost y_old = y;
        let ghost rem = (24 - j) as nat;
        proof {
            assert((y * y) < 0x100000000000000000000000000000000) by (nonlinear_arith)
                requires
                    y < 0x10000000000000000,
            ;
            assert((y * y) >= 0x8000000000000000 * 0x8000000000000000) by (nonlinear_arith)
                requires
                    y >= 0x8000000000000000,
            ;
        }
        let sq: u128 = y * y;
        let z: u128 = sq / 0x8000000000000000;
        proof {
            assert(z >= 0x8000000000000000) by (nonlinear_arith)
                requires
                    sq >= 0x8000000000000000 * 0x8000000000000000,
                    z == sq / 0x8000000000000000,
            ;
            vstd::arithmetic::power2::lemma_pow2_unfold(rem);
            vstd::arithmetic::power2::lemma_pow2_pos(rem);
            vstd::arithmetic::power2::lemma_pow2_pos((rem - 1) as nat);
            assert(pow2(rem) == 2 * pow2((rem - 1) as nat));
        }
        let bit: u64;
        if z >= 0x10000000000000000 {
            bit = 1;
            y = z / 2;
            proof {
                assert(z < 0x20000000000000000);
            }
        } else {
            bit = 0;
            y = z;
        }
        proof {
            assert(spec_log_frac(y_old as int, rem) == bit * pow2((rem - 1) as nat)
                + spec_log_frac(y as int, (rem - 1) as nat));
            assert(acc * pow2(rem) + bit * pow2((rem - 1) as nat) == (acc * 2 + bit) * pow2(
                (rem - 1) as nat,
            )) by (nonlinear_arith)
                requires
                    pow2(rem) == 2 * pow2((rem - 1) as nat),
            ;
            assert(acc < pow2(23)) by {
                if (j as nat) < 23 {
                    vstd::arithmetic::power2::lemma_pow2_strictly_increases(j as nat, 23);
                }
            }
            assert(pow2(23) == 8388608) by {
                vstd::arithmetic::power2::lemma2_to64();
            }
            vstd::arithmetic::power2::lemma_pow2_unfold(j as nat + 1);
        }
        acc = acc * 2 + bit;
        j = j + 1;
    }
    proof {
        assert(spec_log_frac(y0 as int, 24) == acc * pow2(0) + spec_log_frac(y as int, 0));
        vstd::arithmetic::power2::lemma2_to64();
        assert(pow2(24) == 16777216);
        lemma_ilog2_bound(x);
    }
    k * LOG_SCALE + acc
}

/// The score of one dictionary step: log2 of its frequency minus log2 of
/// the dictionary total, in fixed point. A zero frequency scores so low
/// that such a step is taken only when it is the sole candidate.
pub open spec fn spec_score(freq: u64, total: u64) -> int {
    (if freq == 0 {
        ZERO_FREQ_SCORE as int
    } else {
        spec_ilog2(freq)
    }) - (if total == 0 {
        0
    } else {
        spec_ilog2(total)
    })
}

pub proof fn lemma_score_bound(freq: u64, total: u64)
    ensures
        -0x8000000000000 <= spec_score(freq, total) <= 0x40000000,
{
    if freq != 0 {
        lemma_ilog2_bound(freq);
    }
    if total != 0 {
        lemma_ilog2_bound(total);
    }
}

/// Computes the score of a step with frequency `freq`.
pub fn step_score(freq: u64, total: u64) -> (r: i64)
    ensures
        r == spec_score(freq, total),
{
    proof {
        if freq != 0 {
            lemma_ilog2_bound(freq);
        }
        if total != 0 {
            lemma_ilog2_bound(total);
        }
    }
    let f: i64 = if freq == 0 {
        ZERO_FREQ_SCORE
    } else {
        ilog2_fixed(freq) as i64
    };
    let t: i64 = if total == 0 {
        0
    } else {
        ilog2_fixed(total) as i64
    };
    f - t
}

} // verus!
