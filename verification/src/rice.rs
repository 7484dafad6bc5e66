//! Choice of the Rice parameter: the power of two nearest to `mean * ln(2)`.
use vstd::arithmetic::power2::{
    lemma2_to64, lemma_pow2_adds, lemma_pow2_pos, lemma_pow2_unfold, pow2,
};
use vstd::prelude::*;

verus! {

/// `ln(2)` as a double-precision number, times `2^53`.
pub const LN_2_SCALED: u64 = 0x16_2E42_FEFA_39EF;

/// The sum of all values.
pub open spec fn total(zs: Seq<u32>) -> nat
    decreases zs.len(),
{
    if zs.len() == 0 {
        0
    } else {
        total(zs.drop_last()) + zs.last() as nat
    }
}

pub open spec fn square(x: int) -> int {
    x * x
}

/// `log2(mean * ln(2)) < k + 1/2` for `mean = sum / len`: both sides of
/// `mean * ln(2) < 2^k * sqrt(2)`, multiplied by `len * 2^53` and squared.
pub open spec fn log_below_half_step(sum: nat, len: nat, k: nat) -> bool {
    square((sum * LN_2_SCALED) as int) < 2 * square((len * pow2(53 + k)) as int)
}

/// `k` is `log2(mean * ln(2))` rounded to the nearest integer, or 0 where that is negative
/// or there are no values.
pub open spec fn is_rice_parameter(zs: Seq<u32>, k: nat) -> bool {
    if zs.len() == 0 {
        k == 0
    } else {
        &&& log_below_half_step(total(zs), zs.len(), k)
        &&& k > 0 ==> !log_below_half_step(total(zs), zs.len(), (k - 1) as nat)
    }
}

/// The Rice parameter of `zs`.
pub open spec fn rice_parameter(zs: Seq<u32>) -> nat {
    choose|k: nat| is_rice_parameter(zs, k)
}

/// The sum of the values fits in 64 bits, as it does for up to `2^32` of them.
pub open spec fn total_fits(zs: Seq<u32>) -> bool {
    zs.len() <= 0x1_0000_0000 || total(zs) <= u64::MAX
}

pub proof fn lemma_total_bound(zs: Seq<u32>)
    ensures
        total(zs) <= zs.len() * 0xFFFF_FFFF,
    decreases zs.len(),
{
    if zs.len() > 0 {
        lemma_total_bound(zs.drop_last());
    }
}

pub proof fn lemma_total_monotone(zs: Seq<u32>, n: int)
    requires
        0 <= n <= zs.len(),
    ensures
        total(zs.take(n)) <= total(zs),
    decreases zs.len() - n,
{
    if n < zs.len() {
        lemma_total_monotone(zs, n + 1);
        assert(zs.take(n + 1).drop_last() =~= zs.take(n));
    } else {
        assert(zs.take(n) =~= zs);
    }
}

pub proof fn lemma_square_monotone(x: int, y: int)
    requires
        0 <= x <= y,
    ensures
        square(x) <= square(y),
{
    assert(x * x <= y * y) by (nonlinear_arith)
        requires
            0 <= x <= y,
    ;
}

/// Once below a half step, below every later one.
proof fn lemma_half_steps_increase(sum: nat, len: nat, j: nat, k: nat)
    requires
        j <= k,
        log_below_half_step(sum, len, j),
    ensures
        log_below_half_step(sum, len, k),
{
    lemma_pow2_adds(53 + j, (k - j) as nat);
    lemma_pow2_pos((k - j) as nat);
    let p = pow2(53 + j);
    let q = pow2(53 + k);
    let r = pow2((k - j) as nat);
    assert(p <= q) by (nonlinear_arith)
        requires
            q == p * r,
            r >= 1,
            p >= 0,
    ;
    assert(len * p <= len * q) by (nonlinear_arith)
        requires
            p <= q,
    ;
    lemma_square_monotone((len * p) as int, (len * q) as int);
}

/// 32-bit values never call for more than 31: the parameter fits in five bits.
proof fn lemma_last_half_step(sum: nat, len: nat)
    requires
        len > 0,
        sum <= len * 0xFFFF_FFFF,
    ensures
        log_below_half_step(sum, len, 31),
{
    let n = LN_2_SCALED as int;
    lemma2_to64();
    lemma_pow2_adds(53, 31);
    assert(pow2(53) == 0x20_0000_0000_0000) by {
        vstd::arithmetic::power2::lemma2_to64_rest();
    }
    assert(pow2(31) == 0x8000_0000);
    let p = 0x20_0000_0000_0000int * 0x8000_0000int;
    assert(pow2(84) == p);
    let a = sum * n;
    let b = len * p;
    assert(a <= len * (0xFFFF_FFFF * n)) by (nonlinear_arith)
        requires
            a == sum * n,
            sum <= len * 0xFFFF_FFFF,
            n >= 0,
    ;
    let c = 0xFFFF_FFFF * n;
    assert(c * c < 2 * (p * p)) by (nonlinear_arith)
        requires
            c == 0xFFFF_FFFFint * 0x16_2E42_FEFA_39EFint,
            p == 0x20_0000_0000_0000int * 0x8000_0000int,
    ;
    assert((len * c) * (len * c) == (len * len) * (c * c)) by (nonlinear_arith);
    assert((len * p) * (len * p) == (len * len) * (p * p)) by (nonlinear_arith);
    assert((len * len) * (c * c) < 2 * ((len * len) * (p * p))) by (nonlinear_arith)
        requires
            c * c < 2 * (p * p),
            len > 0,
    ;
    lemma_square_monotone(a, len * c);
}

/// At most one number is the Rice parameter of `zs`.
pub proof fn lemma_rice_parameter_unique(zs: Seq<u32>, k: nat)
    requires
        is_rice_parameter(zs, k),
    ensures
        rice_parameter(zs) == k,
{
    let c = rice_parameter(zs);
    assert(is_rice_parameter(zs, c));
    if zs.len() > 0 {
        if c < k {
            lemma_half_steps_increase(total(zs), zs.len(), c, (k - 1) as nat);
        } else if k < c {
            lemma_half_steps_increase(total(zs), zs.len(), k, (c - 1) as nat);
        }
    }
}

/// The total is the sum of the values: nothing makes 0, one value itself, and joined sequences
/// the sum of their totals.
pub proof fn law_total_is_sum(a: Seq<u32>, b: Seq<u32>, z: u32)
    ensures
        total(Seq::empty()) == 0,
        total(seq![z]) == z,
        total(a + b) == total(a) + total(b),
    decreases b.len(),
{
    assert(seq![z].drop_last() =~= Seq::<u32>::empty());
    assert(total(Seq::empty()) == 0);
    if b.len() == 0 {
        assert(a + b =~= a);
    } else {
        law_total_is_sum(a, b.drop_last(), z);
        assert((a + b).drop_last() =~= a + b.drop_last());
    }
}

/// The total of `n` equal values.
proof fn lemma_total_of_copies(z: u32, n: nat)
    ensures
        total(Seq::new(n, |i: int| z)) == n * z,
    decreases n,
{
    let zs = Seq::new(n, |i: int| z);
    if n > 0 {
        let m = (n - 1) as nat;
        lemma_total_of_copies(z, m);
        assert(zs.drop_last() =~= Seq::new(m, |i: int| z));
        assert(n * z == m * z + z) by (nonlinear_arith)
            requires
                n == m + 1,
        ;
    } else {
        assert(0 * z == 0) by (nonlinear_arith);
    }
}

/// The parameter rounds `log2(mean * ln(2))` to the nearest integer: it is at most `k` exactly
/// where the logarithm is below `k + 1/2`, that is, where the square of `sum * ln(2)` is below
/// twice that of `len * 2^k`, with `ln(2)` as a double-precision number of 53 binary places.
/// Without values it is 0.
pub proof fn law_rice_parameter_rounds(zs: Seq<u32>, k: nat)
    ensures
        zs.len() == 0 ==> rice_parameter(zs) == 0,
        zs.len() > 0 ==> (rice_parameter(zs) <= k <==> {
            let x = total(zs) * 0x16_2E42_FEFA_39EF;
            let y = zs.len() * pow2(53 + k);
            x * x < 2 * (y * y)
        }),
{
    lemma_rice_parameter_exists(zs);
    let c = rice_parameter(zs);
    if zs.len() > 0 {
        if c <= k {
            lemma_half_steps_increase(total(zs), zs.len(), c, k);
        } else if log_below_half_step(total(zs), zs.len(), k) {
            lemma_half_steps_increase(total(zs), zs.len(), k, (c - 1) as nat);
        }
        let x = total(zs) * 0x16_2E42_FEFA_39EF;
        let y = zs.len() * pow2(53 + k);
        assert(square(x as int) == x * x && square(y as int) == y * y);
    }
}

/// The parameter depends on the mean alone, and never falls where the mean rises.
pub proof fn law_rice_parameter_follows_mean(zs: Seq<u32>, ws: Seq<u32>)
    requires
        zs.len() > 0,
        ws.len() > 0,
        total(zs) * ws.len() <= total(ws) * zs.len(),
    ensures
        rice_parameter(zs) <= rice_parameter(ws),
        total(zs) * ws.len() == total(ws) * zs.len() ==> rice_parameter(zs) == rice_parameter(ws),
{
    lemma_rice_parameter_exists(zs);
    lemma_rice_parameter_exists(ws);
    let k = rice_parameter(ws);
    lemma_smaller_mean(total(ws), ws.len(), total(zs), zs.len(), k);
    if rice_parameter(zs) > k {
        lemma_half_steps_increase(total(zs), zs.len(), k, (rice_parameter(zs) - 1) as nat);
    }
    if total(zs) * ws.len() == total(ws) * zs.len() {
        let j = rice_parameter(zs);
        lemma_smaller_mean(total(zs), zs.len(), total(ws), ws.len(), j);
        if k > j {
            lemma_half_steps_increase(total(ws), ws.len(), j, (k - 1) as nat);
        }
    }
}

/// However many equal values there are, they have the parameter of one.
pub proof fn law_copies_share_a_parameter(z: u32, n: nat)
    requires
        n > 0,
    ensures
        rice_parameter(Seq::new(n, |i: int| z)) == rice_parameter(seq![z]),
{
    lemma_total_of_copies(z, n);
    law_total_is_sum(Seq::empty(), Seq::empty(), z);
    assert(n * z * 1 == z * n) by (nonlinear_arith);
    law_rice_parameter_follows_mean(Seq::new(n, |i: int| z), seq![z]);
}

/// A mean that is no larger stays below the same half step.
proof fn lemma_smaller_mean(sum: nat, len: nat, sum2: nat, len2: nat, k: nat)
    requires
        len > 0,
        len2 > 0,
        sum2 * len <= sum * len2,
        log_below_half_step(sum, len, k),
    ensures
        log_below_half_step(sum2, len2, k),
{
    let c = LN_2_SCALED as int;
    let p = pow2(53 + k) as int;
    let x = sum * c;
    let y = len * p;
    let x2 = sum2 * c;
    let y2 = len2 * p;
    let d = len2 as int;
    let e = len as int;
    assert(x2 * e <= d * x) by (nonlinear_arith)
        requires
            sum2 * e <= sum * d,
            x == sum * c,
            x2 == sum2 * c,
            c >= 0,
    ;
    assert(0 <= x2 * e) by (nonlinear_arith)
        requires
            x2 == sum2 * c,
            c >= 0,
            e >= 0,
    ;
    lemma_square_monotone(x2 * e, d * x);
    assert((x2 * e) * (x2 * e) == (x2 * x2) * (e * e)) by (nonlinear_arith);
    assert((d * x) * (d * x) == (d * d) * (x * x)) by (nonlinear_arith);
    assert((d * d) * (x * x) < (d * d) * (2 * (y * y))) by (nonlinear_arith)
        requires
            d > 0,
            x * x < 2 * (y * y),
    ;
    assert((d * d) * (2 * (y * y)) == (2 * (y2 * y2)) * (e * e)) by (nonlinear_arith)
        requires
            y == e * p,
            y2 == d * p,
    ;
    assert(x2 * x2 < 2 * (y2 * y2)) by (nonlinear_arith)
        requires
            (x2 * x2) * (e * e) < (2 * (y2 * y2)) * (e * e),
            e > 0,
    ;
}

/// The parameter moves slowly: a mean that is at most doubled raises it by at most one.
pub proof fn law_rice_parameter_moves_slowly(zs: Seq<u32>, ws: Seq<u32>)
    requires
        zs.len() > 0,
        ws.len() > 0,
        total(ws) * zs.len() <= 2 * (total(zs) * ws.len()),
    ensures
        rice_parameter(ws) <= rice_parameter(zs) + 1,
{
    lemma_rice_parameter_exists(zs);
    lemma_rice_parameter_exists(ws);
    let k = rice_parameter(zs);
    lemma_doubled_mean(total(zs), zs.len(), total(ws), ws.len(), k);
    if rice_parameter(ws) > k + 1 {
        lemma_half_steps_increase(total(ws), ws.len(), k + 1, (rice_parameter(ws) - 1) as nat);
    }
}

/// A mean that is at most doubled stays below the next half step.
proof fn lemma_doubled_mean(sum: nat, len: nat, sum2: nat, len2: nat, k: nat)
    requires
        len > 0,
        len2 > 0,
        sum2 * len <= 2 * (sum * len2),
        log_below_half_step(sum, len, k),
    ensures
        log_below_half_step(sum2, len2, k + 1),
{
    let c = LN_2_SCALED as int;
    let p = pow2(53 + k) as int;
    lemma_pow2_unfold(54 + k);
    let x = sum * c;
    let y = len * p;
    let x2 = sum2 * c;
    let y2 = len2 * (2 * p);
    assert(x2 * len <= (2 * len2) * x) by (nonlinear_arith)
        requires
            sum2 * len <= 2 * (sum * len2),
            x == sum * c,
            x2 == sum2 * c,
            c >= 0,
    ;
    assert(0 <= x2 * len) by (nonlinear_arith)
        requires
            x2 == sum2 * c,
            c >= 0,
    ;
    lemma_square_monotone(x2 * len, (2 * len2) * x);
    assert(square(x2 * len) == square(x2) * square(len as int)) by (nonlinear_arith)
        requires
            square(x2 * len) == (x2 * len) * (x2 * len),
            square(x2) == x2 * x2,
            square(len as int) == len * len,
    ;
    let d = 2 * len2 as int;
    assert(square(d * x) == square(d) * square(x)) by (nonlinear_arith)
        requires
            square(d * x) == (d * x) * (d * x),
            square(d) == d * d,
            square(x) == x * x,
    ;
    assert(square(d) > 0) by (nonlinear_arith)
        requires
            square(d) == d * d,
            d > 0,
    ;
    assert(square(d) * square(x) < square(d) * (2 * square(y))) by (nonlinear_arith)
        requires
            square(d) > 0,
            square(x) < 2 * square(y),
    ;
    assert(square(d) * (2 * square(y)) == 2 * square(y2) * square(len as int)) by (nonlinear_arith)
        requires
            square(d) == d * d,
            square(y) == y * y,
            square(y2) == y2 * y2,
            square(len as int) == len * len,
            d == 2 * len2,
            y == len * p,
            y2 == len2 * (2 * p),
    ;
    assert(square(x2) < 2 * square(y2)) by (nonlinear_arith)
        requires
            square(x2) * square(len as int) < 2 * square(y2) * square(len as int),
            square(len as int) >= 0,
    ;
}

/// Every sequence has a Rice parameter, and it is at most 31.
pub proof fn lemma_rice_parameter_exists(zs: Seq<u32>)
    ensures
        is_rice_parameter(zs, rice_parameter(zs)),
        rice_parameter(zs) <= 31,
{
    if zs.len() == 0 {
        lemma_rice_parameter_unique(zs, 0);
    } else {
        lemma_total_bound(zs);
        lemma_last_half_step(total(zs), zs.len());
        let k = lemma_first_half_step(total(zs), zs.len(), 31);
        lemma_rice_parameter_unique(zs, k);
    }
}

/// The first half step below which the logarithm lies, if it lies below the `n`-th.
proof fn lemma_first_half_step(sum: nat, len: nat, n: nat) -> (k: nat)
    requires
        log_below_half_step(sum, len, n),
    ensures
        k <= n,
        log_below_half_step(sum, len, k),
        k > 0 ==> !log_below_half_step(sum, len, (k - 1) as nat),
    decreases n,
{
    if n > 0 && log_below_half_step(sum, len, (n - 1) as nat) {
        lemma_first_half_step(sum, len, (n - 1) as nat)
    } else {
        n
    }
}

/// With its Rice parameter a sequence has a mean below `3 * 2^k`, so that unary parts cost
/// less than three bits a value.
pub proof fn law_rice_parameter_bounds_mean(zs: Seq<u32>, k: nat)
    requires
        is_rice_parameter(zs, k),
        zs.len() > 0,
    ensures
        total(zs) < 3 * zs.len() * pow2(k),
{
    let sum = total(zs) as int;
    let len = zs.len() as int;
    let n = LN_2_SCALED as int;
    let t = pow2(k) as int;
    let p = 0x20_0000_0000_0000int;
    lemma_pow2_adds(53, k);
    vstd::arithmetic::power2::lemma2_to64_rest();
    assert(pow2(53 + k) == p * t);
    lemma_pow2_pos(k);
    if sum >= 3 * len * t {
        let u = len * t;
        assert(3 * len * t == 3 * u) by (nonlinear_arith)
            requires
                u == len * t,
        ;
        assert(len * (p * t) == p * u) by (nonlinear_arith)
            requires
                u == len * t,
        ;
        assert(u > 0) by (nonlinear_arith)
            requires
                len > 0,
                t > 0,
                u == len * t,
        ;
        assert((3 * u) * n <= sum * n) by (nonlinear_arith)
            requires
                3 * u <= sum,
                n >= 0,
        ;
        lemma_square_monotone((3 * u) * n, sum * n);
        assert(((3 * u) * n) * ((3 * u) * n) == (u * u) * (9 * (n * n))) by (nonlinear_arith);
        assert((p * u) * (p * u) == (u * u) * (p * p)) by (nonlinear_arith);
        assert(9 * (n * n) > 2 * (p * p)) by (nonlinear_arith)
            requires
                n == 0x16_2E42_FEFA_39EFint,
                p == 0x20_0000_0000_0000int,
        ;
        assert((u * u) * (9 * (n * n)) > 2 * ((u * u) * (p * p))) by (nonlinear_arith)
            requires
                9 * (n * n) > 2 * (p * p),
                u > 0,
        ;
    }
}

/// Values with a mean below 1 have the parameter 0.
pub proof fn law_small_mean_gives_zero(zs: Seq<u32>)
    requires
        total(zs) < zs.len(),
    ensures
        is_rice_parameter(zs, 0),
        rice_parameter(zs) == 0,
{
    let sum = total(zs) as int;
    let len = zs.len() as int;
    let n = LN_2_SCALED as int;
    let p = 0x20_0000_0000_0000int;
    vstd::arithmetic::power2::lemma2_to64_rest();
    assert(pow2(53) == p);
    assert(0 <= sum * n <= len * p && len * p > 0) by (nonlinear_arith)
        requires
            0 <= sum < len,
            0 <= n < p,
    ;
    lemma_square_monotone(sum * n, len * p);
    assert((len * p) * (len * p) > 0) by (nonlinear_arith)
        requires
            len * p > 0,
    ;
    lemma_rice_parameter_unique(zs, 0);
}

/// The square of `a` in three digits: `2^128 * r.0 + 2^64 * r.1 + r.2`.
fn wide_square(a: u128) -> (r: (u128, u128, u128))
    requires
        a < 0x20_0000_0000_0000_0000_0000_0000_0000,
    ensures
        r.0 * 0x1_0000_0000_0000_0000_0000_0000_0000_0000int + r.1 * 0x1_0000_0000_0000_0000int
            + r.2 == a * a,
        r.1 < 0x1_0000_0000_0000_0000,
        r.2 < 0x1_0000_0000_0000_0000,
        r.0 < 0x800_0000_0000_0000_0000_0000_0000,
{
    let base: u128 = 0x1_0000_0000_0000_0000;
    let hi: u128 = a / base;
    let lo: u128 = a % base;
    proof {
        assert(hi < 0x20_0000_0000_0000);
        assert(lo * lo <= 0xFFFF_FFFF_FFFF_FFFFint * 0xFFFF_FFFF_FFFF_FFFFint) by (nonlinear_arith)
            requires
                0 <= lo <= 0xFFFF_FFFF_FFFF_FFFF,
        ;
        assert(hi * lo <= 0x20_0000_0000_0000int * 0x1_0000_0000_0000_0000int) by (nonlinear_arith)
            requires
                0 <= lo <= 0xFFFF_FFFF_FFFF_FFFF,
                0 <= hi < 0x20_0000_0000_0000,
        ;
        assert(hi * hi <= 0x20_0000_0000_0000int * 0x20_0000_0000_0000int) by (nonlinear_arith)
            requires
                0 <= hi < 0x20_0000_0000_0000,
        ;
    }
    let low: u128 = lo * lo;
    let mid: u128 = 2 * (hi * lo) + low / base;
    let top: u128 = hi * hi + mid / base;
    proof {
        assert(a * a == (hi * hi) * 0x1_0000_0000_0000_0000_0000_0000_0000_0000int + (2 * (hi * lo))
            * 0x1_0000_0000_0000_0000int + lo * lo) by (nonlinear_arith)
            requires
                a == hi * 0x1_0000_0000_0000_0000int + lo,
        ;
    }
    (top, mid % base, low % base)
}

/// Whether `a < b * sqrt(2)`.
fn below_times_sqrt2(a: u128, b: u128) -> (r: bool)
    requires
        a < 0x20_0000_0000_0000_0000_0000_0000_0000,
        b < 0x20_0000_0000_0000_0000_0000_0000_0000,
    ensures
        r == (square(a as int) < 2 * square(b as int)),
{
    let x = wide_square(a);
    let y = wide_square(b);
    let base: u128 = 0x1_0000_0000_0000_0000;
    let d2: u128 = 2 * y.2;
    let d1: u128 = 2 * y.1 + d2 / base;
    let d0: u128 = 2 * y.0 + d1 / base;
    let e1: u128 = d1 % base;
    let e2: u128 = d2 % base;
    x.0 < d0 || (x.0 == d0 && (x.1 < e1 || (x.1 == e1 && x.2 < e2)))
}

/// Finds the Rice parameter `k` that suits the mean of the zigzag values: the logarithm of
/// `mean * ln(2)` to base 2, rounded.
///
/// The comparisons are exact. The same formula in double precision may give a parameter that is
/// one off where `mean * ln(2)` lies within a rounding error of a half step `2^k * sqrt(2)`: the
/// computed logarithm may then fall on the other side of `k + 1/2`.
pub fn optimal_rice_parameter(zigzag_values: &[u32]) -> (k: u8)
    requires
        total_fits(zigzag_values@),
    ensures
        k <= 31,
        is_rice_parameter(zigzag_values@, k as nat),
        rice_parameter(zigzag_values@) == k,
{
    let len: usize = zigzag_values.len();
    if len == 0 {
        proof {
            lemma_rice_parameter_unique(zigzag_values@, 0);
        }
        return 0;
    }
    proof {
        lemma_total_bound(zigzag_values@);
        assert(zigzag_values@.take(len as int) =~= zigzag_values@);
    }
    let mut sum: u64 = 0;
    let mut i: usize = 0;
    while i < len
        invariant
            i <= len,
            len == zigzag_values@.len(),
            sum == total(zigzag_values@.take(i as int)),
            total(zigzag_values@) <= u64::MAX,
        decreases len - i,
    {
        proof {
            lemma_total_monotone(zigzag_values@, i + 1);
            assert(zigzag_values@.take(i + 1).drop_last() =~= zigzag_values@.take(i as int));
        }
        sum = sum + zigzag_values[i] as u64;
        i = i + 1;
    }
    proof {
        assert(sum * LN_2_SCALED <= 0xFFFF_FFFF_FFFF_FFFFint * LN_2_SCALED) by (nonlinear_arith)
            requires
                0 <= sum <= 0xFFFF_FFFF_FFFF_FFFF,
        ;
        vstd::arithmetic::power2::lemma2_to64_rest();
    }
    let scaled: u128 = sum as u128 * LN_2_SCALED as u128;
    let mut scale: u128 = 0x20_0000_0000_0000;
    let mut k: u8 = 0;
    while k < 31
        invariant
            len == zigzag_values@.len(),
            len > 0,
            k <= 31,
            sum == total(zigzag_values@),
            scaled == sum * LN_2_SCALED,
            scaled < 0x20_0000_0000_0000_0000_0000_0000_0000,
            scale == pow2((53 + k) as nat),
            0 < scale <= 0x10_0000_0000_0000_0000_0000,
            k > 0 ==> !log_below_half_step(sum as nat, len as nat, (k - 1) as nat),
        ensures
            k <= 31,
            k < 31 ==> log_below_half_step(sum as nat, len as nat, k as nat),
            k > 0 ==> !log_below_half_step(sum as nat, len as nat, (k - 1) as nat),
        decreases 31 - k,
    {
        let below: bool = if len as u128 > scaled / scale {
            proof {
                lemma_quotient_below(scaled as int, scale as int, len as int);
                lemma_square_monotone(scaled as int, len * scale);
                assert(square(len * scale) > 0) by (nonlinear_arith)
                    requires
                        len > 0,
                        scale > 0,
                ;
            }
            true
        } else {
            proof {
                lemma_quotient_above(scaled as int, scale as int, len as int);
            }
            below_times_sqrt2(scaled, len as u128 * scale)
        };
        if below {
            break;
        }
        proof {
            lemma_pow2_unfold((53 + k + 1) as nat);
            lemma_pow2_adds(53 + k as nat + 1, (30 - k) as nat);
            lemma_pow2_pos((30 - k) as nat);
            lemma_scale_bound();
            assert(pow2((54 + k) as nat) <= pow2(84)) by (nonlinear_arith)
                requires
                    pow2(84) == pow2((54 + k) as nat) * pow2((30 - k) as nat),
                    pow2((30 - k) as nat) >= 1,
            ;
        }
        scale = 2 * scale;
        k = k + 1;
    }
    proof {
        lemma_last_half_step(sum as nat, len as nat);
        lemma_rice_parameter_unique(zigzag_values@, k as nat);
    }
    k
}

proof fn lemma_scale_bound()
    ensures
        pow2(84) == 0x10_0000_0000_0000_0000_0000,
{
    vstd::arithmetic::power2::lemma2_to64_rest();
    lemma2_to64();
    lemma_pow2_adds(53, 31);
}

proof fn lemma_quotient_below(a: int, b: int, n: int)
    by (nonlinear_arith)
    requires
        a >= 0,
        b > 0,
        n > a / b,
    ensures
        n * b > a,
{
}

proof fn lemma_quotient_above(a: int, b: int, n: int)
    by (nonlinear_arith)
    requires
        a >= 0,
        b > 0,
        0 <= n <= a / b,
    ensures
        n * b <= a,
{
}

} // verus!
