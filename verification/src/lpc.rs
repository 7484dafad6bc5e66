//! Statistics for linear prediction: the autocorrelation of a frame of samples.
use vstd::prelude::*;

use crate::sums::sum;

verus! {

/// Default prediction order, enough for audio at 24 kHz.
pub const DEFAULT_ORDER: usize = 10;

/// Default frame size in samples.
pub const DEFAULT_FRAME_SIZE: usize = 4096;

/// Largest prediction order supported.
pub const MAX_ORDER: usize = 32;

/// The sum of `s[i] * s[i + lag]` for `i` below `m`.
pub open spec fn correlation(s: Seq<i16>, lag: int, m: nat) -> int
    decreases m,
{
    if m == 0 {
        0
    } else {
        correlation(s, lag, (m - 1) as nat) + s[m - 1] * s[m - 1 + lag]
    }
}

/// The autocorrelation of `s` at `lag`: the sum of `s[i] * s[i + lag]` over all `i`.
pub open spec fn autocorrelation_at(s: Seq<i16>, lag: int) -> int {
    correlation(s, lag, (s.len() - lag) as nat)
}

/// Up to which length no sum of products of samples can leave 64 bits.
pub const SAFE_LEN: u64 = 0x1_FFFF_FFFF;

/// No partial sum leaves 64 bits, as is the case up to `SAFE_LEN` samples.
pub open spec fn sums_fit(s: Seq<i16>, max_lag: int) -> bool {
    ||| s.len() <= SAFE_LEN
    ||| forall|lag: int, m: nat|
        0 <= lag <= max_lag && m <= s.len() - lag ==> i64::MIN <= #[trigger] correlation(
            s,
            lag,
            m,
        ) <= i64::MAX
}

/// `r` is the autocorrelation of `s` at every lag from 0 to `max_lag`.
pub open spec fn is_autocorrelation(r: Seq<i64>, s: Seq<i16>, max_lag: int) -> bool {
    &&& r.len() == max_lag + 1
    &&& forall|lag: int| 0 <= lag <= max_lag ==> #[trigger] r[lag] == autocorrelation_at(s, lag)
}

/// The way does not matter: one product at a time or in lanes, the autocorrelation comes out as
/// the same numbers, whatever the samples and however many there are.
pub proof fn law_autocorrelation_is_unique(
    r1: Seq<i64>,
    r2: Seq<i64>,
    s: Seq<i16>,
    max_lag: int,
)
    requires
        is_autocorrelation(r1, s, max_lag),
        is_autocorrelation(r2, s, max_lag),
    ensures
        r1 == r2,
{
    assert forall|lag: int| 0 <= lag < r1.len() implies r1[lag] == r2[lag] by {
        assert(r1[lag] == autocorrelation_at(s, lag));
    }
    assert(r1 =~= r2);
}

proof fn lemma_product_bound(a: i16, b: i16)
    ensures
        -0x4000_0000 <= a * b <= 0x4000_0000,
{
    assert(-0x4000_0000 <= a * b <= 0x4000_0000) by (nonlinear_arith)
        requires
            -0x8000 <= a <= 0x7FFF,
            -0x8000 <= b <= 0x7FFF,
    ;
}

/// `m` products of samples sum up to at most `m * 2^30` in magnitude.
pub proof fn lemma_correlation_bound(s: Seq<i16>, lag: int, m: nat)
    ensures
        -0x4000_0000 * m <= correlation(s, lag, m) <= 0x4000_0000 * m,
    decreases m,
{
    if m > 0 {
        lemma_correlation_bound(s, lag, (m - 1) as nat);
        lemma_product_bound(s[m - 1], s[m - 1 + lag]);
    }
}

proof fn lemma_correlation_is_sum(s: Seq<i16>, lag: int, m: nat)
    ensures
        correlation(s, lag, m) == sum(Seq::new(m, |i: int| s[i] * s[i + lag])),
    decreases m,
{
    let ps = Seq::new(m, |i: int| s[i] * s[i + lag]);
    if m > 0 {
        let n = (m - 1) as nat;
        lemma_correlation_is_sum(s, lag, n);
        assert(ps.drop_last() =~= Seq::new(n, |i: int| s[i] * s[i + lag]));
    }
}

/// The autocorrelation at a lag is the sum of the products of all samples that are that far
/// apart, and a list of autocorrelations has one entry for every lag.
pub proof fn law_autocorrelation_sums_products(
    r: Seq<i64>,
    s: Seq<i16>,
    max_lag: int,
    lag: int,
)
    requires
        is_autocorrelation(r, s, max_lag),
        0 <= lag <= max_lag,
    ensures
        r.len() == max_lag + 1,
        r[lag] == sum(Seq::new((s.len() - lag) as nat, |i: int| s[i] * s[i + lag])),
        r[lag] == autocorrelation_at(s, lag),
{
    lemma_correlation_is_sum(s, lag, (s.len() - lag) as nat);
}

/// Polarization: squaring the sums of samples that are `lag` apart gives the energies of both
/// parts and twice their autocorrelation, whose sign so shows.
pub proof fn law_polarization(s: Seq<i16>, lag: int)
    requires
        0 <= lag <= s.len(),
    ensures
        ({
            let m = (s.len() - lag) as nat;
            sum(Seq::new(m, |i: int| (s[i] + s[i + lag]) * (s[i] + s[i + lag]))) == sum(
                Seq::new(m, |i: int| s[i] * s[i]),
            ) + sum(Seq::new(m, |i: int| s[i + lag] * s[i + lag])) + 2 * autocorrelation_at(s, lag)
        }),
{
    lemma_polarization(s, lag, (s.len() - lag) as nat);
}

proof fn lemma_polarization(s: Seq<i16>, lag: int, m: nat)
    ensures
        sum(Seq::new(m, |i: int| (s[i] + s[i + lag]) * (s[i] + s[i + lag]))) == sum(
            Seq::new(m, |i: int| s[i] * s[i]),
        ) + sum(Seq::new(m, |i: int| s[i + lag] * s[i + lag])) + 2 * correlation(s, lag, m),
    decreases m,
{
    let both = Seq::new(m, |i: int| (s[i] + s[i + lag]) * (s[i] + s[i + lag]));
    let first = Seq::new(m, |i: int| s[i] * s[i]);
    let second = Seq::new(m, |i: int| s[i + lag] * s[i + lag]);
    if m > 0 {
        let n = (m - 1) as nat;
        lemma_polarization(s, lag, n);
        assert(both.drop_last() =~= Seq::new(n, |i: int| (s[i] + s[i + lag]) * (s[i] + s[i + lag])));
        assert(first.drop_last() =~= Seq::new(n, |i: int| s[i] * s[i]));
        assert(second.drop_last() =~= Seq::new(n, |i: int| s[i + lag] * s[i + lag]));
        let (x, y) = (s[m - 1] as int, s[m - 1 + lag] as int);
        assert((x + y) * (x + y) == x * x + y * y + 2 * (x * y)) by (nonlinear_arith);
    }
}

/// Negating every second sample negates the autocorrelation at odd lags, and keeps it at even
/// ones.
pub proof fn law_alternating_signs(s: Seq<i16>, t: Seq<i16>, lag: int)
    requires
        0 <= lag <= s.len(),
        t.len() == s.len(),
        forall|i: int|
            0 <= i < s.len() ==> #[trigger] t[i] == if i % 2 == 0 {
                s[i] as int
            } else {
                -s[i] as int
            },
    ensures
        autocorrelation_at(t, lag) == if lag % 2 == 0 {
            autocorrelation_at(s, lag)
        } else {
            -autocorrelation_at(s, lag)
        },
{
    lemma_alternating_signs(s, t, lag, (s.len() - lag) as nat);
}

proof fn lemma_alternating_signs(s: Seq<i16>, t: Seq<i16>, lag: int, m: nat)
    requires
        0 <= lag,
        m + lag <= s.len(),
        t.len() == s.len(),
        forall|i: int|
            0 <= i < s.len() ==> #[trigger] t[i] == if i % 2 == 0 {
                s[i] as int
            } else {
                -s[i] as int
            },
    ensures
        correlation(t, lag, m) == if lag % 2 == 0 {
            correlation(s, lag, m)
        } else {
            -correlation(s, lag, m)
        },
    decreases m,
{
    if m > 0 {
        lemma_alternating_signs(s, t, lag, (m - 1) as nat);
        let (x, y) = (s[m - 1] as int, s[m - 1 + lag] as int);
        assert(t[m - 1] == x || t[m - 1] == -x);
        assert(t[m - 1 + lag] == y || t[m - 1 + lag] == -y);
        assert((-x) * y == -(x * y) && x * (-y) == -(x * y) && (-x) * (-y) == x * y)
            by (nonlinear_arith);
        assert((m - 1 + lag) % 2 == ((m - 1) % 2 + lag % 2) % 2);
    }
}

/// The correlation at lag 0 is a sum of squares: never negative, and zero only for silence.
pub proof fn law_energy(s: Seq<i16>)
    ensures
        autocorrelation_at(s, 0) >= 0,
        autocorrelation_at(s, 0) == 0 <==> forall|i: int| 0 <= i < s.len() ==> s[i] == 0,
{
    lemma_energy(s, s.len());
}

proof fn lemma_energy(s: Seq<i16>, m: nat)
    requires
        m <= s.len(),
    ensures
        correlation(s, 0, m) >= 0,
        correlation(s, 0, m) == 0 <==> forall|i: int| 0 <= i < m ==> s[i] == 0,
    decreases m,
{
    if m > 0 {
        lemma_energy(s, (m - 1) as nat);
        let x = s[m - 1] as int;
        assert(x * x >= 0 && (x * x == 0 <==> x == 0)) by (nonlinear_arith);
        if correlation(s, 0, m) == 0 {
            assert forall|i: int| 0 <= i < m implies s[i] == 0 by {
                if i < m - 1 {
                    assert(s[i] == 0);
                }
            }
        } else {
            if forall|i: int| 0 <= i < m ==> s[i] == 0 {
                assert(s[m - 1] == 0);
                assert(forall|i: int| 0 <= i < m - 1 ==> s[i] == 0);
            }
        }
    }
}

/// No correlation exceeds the energy.
pub proof fn law_energy_dominates(s: Seq<i16>, lag: int)
    requires
        0 <= lag <= s.len(),
    ensures
        -autocorrelation_at(s, 0) <= autocorrelation_at(s, lag) <= autocorrelation_at(s, 0),
{
    let m = (s.len() - lag) as nat;
    lemma_twice_correlation(s, lag, m);
    lemma_tail_energy(s, lag, m);
    lemma_energy_monotone(s, m, s.len());
}

/// The energy of `s[lag..lag + m]`.
spec fn shifted_energy(s: Seq<i16>, lag: int, m: nat) -> int
    decreases m,
{
    if m == 0 {
        0
    } else {
        shifted_energy(s, lag, (m - 1) as nat) + s[m - 1 + lag] * s[m - 1 + lag]
    }
}

proof fn lemma_twice_correlation(s: Seq<i16>, lag: int, m: nat)
    ensures
        2 * correlation(s, lag, m) <= correlation(s, 0, m) + shifted_energy(s, lag, m),
        -2 * correlation(s, lag, m) <= correlation(s, 0, m) + shifted_energy(s, lag, m),
    decreases m,
{
    if m > 0 {
        lemma_twice_correlation(s, lag, (m - 1) as nat);
        let x = s[m - 1] as int;
        let y = s[m - 1 + lag] as int;
        assert((x - y) * (x - y) >= 0 && (x + y) * (x + y) >= 0) by (nonlinear_arith);
        assert((x - y) * (x - y) == x * x - 2 * (x * y) + y * y) by (nonlinear_arith);
        assert((x + y) * (x + y) == x * x + 2 * (x * y) + y * y) by (nonlinear_arith);
    }
}

proof fn lemma_energy_monotone(s: Seq<i16>, m: nat, n: nat)
    requires
        m <= n,
    ensures
        correlation(s, 0, m) <= correlation(s, 0, n),
    decreases n,
{
    if m < n {
        lemma_energy_monotone(s, m, (n - 1) as nat);
        let x = s[n - 1] as int;
        assert(x * x >= 0) by (nonlinear_arith);
    }
}

proof fn lemma_tail_energy(s: Seq<i16>, lag: int, m: nat)
    requires
        0 <= lag,
    ensures
        shifted_energy(s, lag, m) <= correlation(s, 0, (lag + m) as nat),
    decreases m,
{
    if m > 0 {
        lemma_tail_energy(s, lag, (m - 1) as nat);
    } else {
        lemma_energy_monotone(s, 0, lag as nat);
    }
}

/// Autocorrelation, one product at a time: `R[k]` for `k` from 0 to `max_lag`. The lanes take
/// the same arguments and give the same numbers.
pub fn autocorrelation_scalar(samples: &[i16], max_lag: usize) -> (r: Vec<i64>)
    requires
        max_lag <= samples@.len(),
        max_lag < usize::MAX,
        sums_fit(samples@, max_lag as int),
    ensures
        is_autocorrelation(r@, samples@, max_lag as int),
{
    let n: usize = samples.len();
    let ghost s = samples@;
    let mut result: Vec<i64> = Vec::with_capacity(max_lag + 1);
    let mut lag: usize = 0;
    while lag <= max_lag
        invariant
            s == samples@,
            n == s.len(),
            max_lag <= n,
            lag <= max_lag + 1,
            max_lag < usize::MAX,
            sums_fit(s, max_lag as int),
            result@.len() == lag,
            forall|l: int| 0 <= l < lag ==> #[trigger] result@[l] == autocorrelation_at(s, l),
        decreases max_lag + 1 - lag,
    {
        let mut acc: i64 = 0;
        let mut i: usize = 0;
        while i < n - lag
            invariant
                s == samples@,
                n == s.len(),
                lag <= max_lag <= n,
                i <= n - lag,
                sums_fit(s, max_lag as int),
                acc == correlation(s, lag as int, i as nat),
            decreases n - lag - i,
        {
            proof {
                lemma_product_bound(s[i as int], s[i + lag]);
                lemma_correlation_bound(s, lag as int, (i + 1) as nat);
                assert(correlation(s, lag as int, (i + 1) as nat) == acc + s[i as int] * s[i + lag]);
            }
            acc = acc + samples[i] as i64 * samples[i + lag] as i64;
            i = i + 1;
        }
        result.push(acc);
        lag = lag + 1;
    }
    result
}

/// The sum of all lanes.
spec fn lane_sum(lanes: Seq<i64>) -> int
    decreases lanes.len(),
{
    if lanes.len() == 0 {
        0
    } else {
        lane_sum(lanes.drop_last()) + lanes.last()
    }
}

proof fn lemma_lane_sum_update(lanes: Seq<i64>, j: int, v: i64)
    requires
        0 <= j < lanes.len(),
    ensures
        lane_sum(lanes.update(j, v)) == lane_sum(lanes) - lanes[j] + v,
    decreases lanes.len(),
{
    if j < lanes.len() - 1 {
        lemma_lane_sum_update(lanes.drop_last(), j, v);
        assert(lanes.update(j, v).drop_last() =~= lanes.drop_last().update(j, v));
    } else {
        assert(lanes.update(j, v).drop_last() =~= lanes.drop_last());
    }
}

proof fn lemma_lane_sum_zero(lanes: Seq<i64>)
    requires
        forall|j: int| 0 <= j < lanes.len() ==> lanes[j] == 0,
    ensures
        lane_sum(lanes) == 0,
    decreases lanes.len(),
{
    if lanes.len() > 0 {
        lemma_lane_sum_zero(lanes.drop_last());
    }
}

/// `a` and `b` differ by a multiple of `2^64`.
spec fn congruent(a: int, b: int) -> bool {
    (a - b) % 0x1_0000_0000_0000_0000 == 0
}

/// A sum that wraps around is congruent to the sum.
proof fn lemma_wrapping_add(x: i64, y: i64)
    ensures
        congruent(vstd::wrapping::i64_specs::wrapping_add(x, y) as int, x + y),
{
}

/// Two 64-bit numbers that are congruent are equal.
proof fn lemma_congruent_in_range(a: int, b: int)
    requires
        congruent(a, b),
        i64::MIN <= a <= i64::MAX,
        i64::MIN <= b <= i64::MAX,
    ensures
        a == b,
{
}

/// The autocorrelation at one lag, sixteen samples a step: products are added in pairs into
/// eight lanes, the lanes are summed at the end, and what is left is added one by one. Lanes and
/// sums may wrap around on the way: where the result fits in 64 bits, it comes out right.
fn correlate_in_lanes(samples: &[i16], lag: usize) -> (total: i64)
    requires
        lag <= samples@.len(),
        i64::MIN <= autocorrelation_at(samples@, lag as int) <= i64::MAX,
    ensures
        total == autocorrelation_at(samples@, lag as int),
{
    let n: usize = samples.len();
    let len: usize = n - lag;
    let ghost s = samples@;
    let ghost g = lag as int;
    let mut lanes: Vec<i64> = vec![0i64; 8];
    let mut i: usize = 0;
    proof {
        lemma_lane_sum_zero(lanes@);
    }
    while len - i >= 16
        invariant
            s == samples@,
            n == s.len(),
            g == lag,
            lag <= n,
            len == n - lag,
            i <= len,
            lanes@.len() == 8,
            congruent(lane_sum(lanes@), correlation(s, g, i as nat)),
        decreases len - i,
    {
        let mut j: usize = 0;
        while j < 8
            invariant
                s == samples@,
                n == s.len(),
                g == lag,
                lag <= n,
                len == n - lag,
                i + 16 <= len,
                j <= 8,
                lanes@.len() == 8,
                congruent(lane_sum(lanes@), correlation(s, g, (i + 2 * j) as nat)),
            decreases 8 - j,
        {
            let p: usize = i + 2 * j;
            proof {
                lemma_product_bound(s[p as int], s[p + g]);
                lemma_product_bound(s[p + 1], s[p + 1 + g]);
            }
            let pair: i64 = samples[p] as i64 * samples[p + lag] as i64 + samples[p + 1] as i64
                * samples[p + 1 + lag] as i64;
            let v: i64 = lanes[j].wrapping_add(pair);
            proof {
                lemma_wrapping_add(lanes@[j as int], pair);
                lemma_lane_sum_update(lanes@, j as int, v);
                assert(correlation(s, g, (p + 2) as nat) == correlation(s, g, (p + 1) as nat) + s[p
                    + 1] * s[p + 1 + g]);
                assert(correlation(s, g, (p + 1) as nat) == correlation(s, g, p as nat) + s[p as int]
                    * s[p + g]);
            }
            lanes.set(j, v);
            j = j + 1;
        }
        i = i + 16;
    }
    let mut total: i64 = 0;
    let mut j: usize = 0;
    proof {
        assert(lanes@.take(0) =~= Seq::empty());
    }
    while j < 8
        invariant
            j <= 8,
            lanes@.len() == 8,
            congruent(total as int, lane_sum(lanes@.take(j as int))),
        decreases 8 - j,
    {
        proof {
            assert(lanes@.take(j + 1).drop_last() =~= lanes@.take(j as int));
            lemma_wrapping_add(total, lanes@[j as int]);
        }
        total = total.wrapping_add(lanes[j]);
        j = j + 1;
    }
    assert(lanes@.take(8) =~= lanes@);
    while i < len
        invariant
            s == samples@,
            n == s.len(),
            g == lag,
            lag <= n,
            len == n - lag,
            i <= len,
            congruent(total as int, correlation(s, g, i as nat)),
        decreases len - i,
    {
        proof {
            lemma_product_bound(s[i as int], s[i + g]);
            lemma_wrapping_add(total, (s[i as int] * s[i + g]) as i64);
            assert(correlation(s, g, (i + 1) as nat) == correlation(s, g, i as nat) + s[i as int]
                * s[i + g]);
        }
        total = total.wrapping_add(samples[i] as i64 * samples[i + lag] as i64);
        i = i + 1;
    }
    proof {
        lemma_congruent_in_range(total as int, correlation(s, g, len as nat));
    }
    total
}

/// Autocorrelation in lanes of sixteen samples: `R[k]` for `k` from 0 to `max_lag`.
pub fn autocorrelation_lanes(samples: &[i16], max_lag: usize) -> (r: Vec<i64>)
    requires
        max_lag <= samples@.len(),
        max_lag < usize::MAX,
        sums_fit(samples@, max_lag as int),
    ensures
        is_autocorrelation(r@, samples@, max_lag as int),
{
    let n: usize = samples.len();
    let mut result: Vec<i64> = Vec::with_capacity(max_lag + 1);
    let mut lag: usize = 0;
    while lag <= max_lag
        invariant
            max_lag <= n,
            max_lag < usize::MAX,
            n == samples@.len(),
            sums_fit(samples@, max_lag as int),
            lag <= max_lag + 1,
            result@.len() == lag,
            forall|l: int| 0 <= l < lag ==> #[trigger] result@[l] == autocorrelation_at(samples@, l),
        decreases max_lag + 1 - lag,
    {
        proof {
            lemma_correlation_bound(samples@, lag as int, (n - lag) as nat);
        }
        result.push(correlate_in_lanes(samples, lag));
        lag = lag + 1;
    }
    result
}

/// Autocorrelation: `R[k]`, the sum of `x[n] * x[n + k]`, for `k` from 0 to `max_lag`.
pub fn autocorrelation(samples: &[i16], max_lag: usize) -> (r: Vec<i64>)
    requires
        max_lag < samples@.len(),
        sums_fit(samples@, max_lag as int),
    ensures
        is_autocorrelation(r@, samples@, max_lag as int),
{
    assert(samples.len() == samples@.len());
    autocorrelation_lanes(samples, max_lag)
}

} // verus!
