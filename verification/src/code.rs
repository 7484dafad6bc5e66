//! The Golomb-Rice code as a mathematical object: what a frame of residuals reads as in bits,
//! and how such bits are read back.
use vstd::arithmetic::div_mod::{lemma_fundamental_div_mod, lemma_mod_bound};
use vstd::arithmetic::power2::{
    lemma2_to64, lemma_pow2_adds, lemma_pow2_pos, lemma_pow2_unfold, pow2,
};
use vstd::prelude::*;

use crate::bits::{bit, bits_of, unary, lemma_bit_shr};
use crate::rice::{total, is_rice_parameter, law_rice_parameter_bounds_mean};

verus! {

/// The zigzag order 0, -1, 1, -2, 2, ... numbers the integers from 0.
pub open spec fn zigzag(v: int) -> int {
    if v >= 0 {
        2 * v
    } else {
        -2 * v - 1
    }
}

/// The integer with the zigzag number `z`.
pub open spec fn unzigzag(z: int) -> int {
    if z % 2 == 0 {
        z / 2
    } else {
        -(z / 2) - 1
    }
}

pub open spec fn zigzags(rs: Seq<i32>) -> Seq<u32> {
    Seq::new(rs.len(), |i: int| zigzag(rs[i] as int) as u32)
}

pub open spec fn unzigzags(zs: Seq<u32>) -> Seq<i32> {
    Seq::new(zs.len(), |i: int| unzigzag(zs[i] as int) as i32)
}

/// One value: its quotient by `2^k` in unary, then its low `k` bits.
pub open spec fn value_bits(z: u32, k: nat) -> Seq<bool> {
    unary((z as nat) / pow2(k)) + bits_of(z as u64, k)
}

/// All values, one after the other.
pub open spec fn rice_bits(zs: Seq<u32>, k: nat) -> Seq<bool>
    decreases zs.len(),
{
    if zs.len() == 0 {
        Seq::empty()
    } else {
        rice_bits(zs.drop_last(), k) + value_bits(zs.last(), k)
    }
}

/// A frame: the parameter on five bits, then the values.
pub open spec fn frame_bits(zs: Seq<u32>, k: nat) -> Seq<bool> {
    bits_of(k as u64, 5) + rice_bits(zs, k)
}

/// The number that `bits` spells, most significant bit first.
pub open spec fn value_of(bits: Seq<bool>) -> nat
    decreases bits.len(),
{
    if bits.len() == 0 {
        0
    } else {
        2 * value_of(bits.drop_last()) + if bits.last() {
            1nat
        } else {
            0nat
        }
    }
}

/// `q` ones and a zero open `bits`.
pub open spec fn opens_with_unary(bits: Seq<bool>, q: nat) -> bool {
    unary(q).is_prefix_of(bits)
}

/// Reads one value: a unary quotient below `2^32`, then `k` bits. Gives the value, cut to
/// 32 bits, and the bits that are left.
pub open spec fn parse_value(bits: Seq<bool>, k: nat) -> Option<(u32, Seq<bool>)> {
    if exists|q: u32| opens_with_unary(bits, q as nat) && bits.len() >= q + 1 + k {
        let q = choose|q: u32| opens_with_unary(bits, q as nat) && bits.len() >= q + 1 + k;
        Some(
            (
                ((q * pow2(k)) % 0x1_0000_0000 + value_of(bits.subrange(q + 1, q + 1 + k))) as u32,
                bits.skip(q + 1 + k),
            ),
        )
    } else {
        None
    }
}

/// Reads `n` values.
pub open spec fn parse_values(bits: Seq<bool>, k: nat, n: nat) -> Option<(Seq<u32>, Seq<bool>)>
    decreases n,
{
    if n == 0 {
        Some((Seq::empty(), bits))
    } else {
        match parse_values(bits, k, (n - 1) as nat) {
            Some((zs, rest)) => match parse_value(rest, k) {
                Some((z, rest)) => Some((zs.push(z), rest)),
                None => None,
            },
            None => None,
        }
    }
}

/// Reads a frame of `n` values: its parameter, the values, and the bits that are left.
pub open spec fn parse_frame(bits: Seq<bool>, n: nat) -> Option<(nat, Seq<u32>, Seq<bool>)> {
    if bits.len() < 5 {
        None
    } else {
        let k = value_of(bits.take(5));
        match parse_values(bits.skip(5), k, n) {
            Some((zs, rest)) => Some((k, zs, rest)),
            None => None,
        }
    }
}

/// Zigzag numbering loses nothing, in either direction.
pub proof fn law_zigzag_round_trip(v: int, z: int)
    requires
        z >= 0,
    ensures
        zigzag(v) >= 0,
        unzigzag(zigzag(v)) == v,
        zigzag(unzigzag(z)) == z,
        i32::MIN <= v <= i32::MAX <==> zigzag(v) <= u32::MAX,
{
}

/// Numbers that are closer to zero have smaller zigzag numbers.
pub proof fn law_zigzag_orders_by_magnitude(v: int, w: int)
    requires
        vstd::math::abs(v) < vstd::math::abs(w),
    ensures
        zigzag(v) < zigzag(w),
{
}

pub proof fn lemma_unzigzags_zigzags(rs: Seq<i32>)
    ensures
        unzigzags(zigzags(rs)) == rs,
{
    assert forall|i: int| 0 <= i < rs.len() implies unzigzags(zigzags(rs))[i] == rs[i] by {
        law_zigzag_round_trip(rs[i] as int, 0);
    }
    assert(unzigzags(zigzags(rs)) =~= rs);
}

pub proof fn lemma_value_of_push(bits: Seq<bool>, b: bool)
    ensures
        value_of(bits.push(b)) == 2 * value_of(bits) + if b {
            1nat
        } else {
            0nat
        },
{
    assert(bits.push(b).drop_last() =~= bits);
}

pub proof fn lemma_value_of_bound(bits: Seq<bool>)
    ensures
        value_of(bits) < pow2(bits.len()),
    decreases bits.len(),
{
    lemma2_to64();
    if bits.len() > 0 {
        lemma_value_of_bound(bits.drop_last());
        lemma_pow2_unfold(bits.len());
    }
}

/// The low `n` bits of `v` spell `v` modulo `2^n`.
pub proof fn lemma_value_of_bits_of(v: u64, n: nat)
    requires
        n <= 64,
    ensures
        value_of(bits_of(v, n)) == (v as nat) % pow2(n),
    decreases n,
{
    lemma2_to64();
    if n == 0 {
        assert(bits_of(v, 0) =~= Seq::empty());
    } else {
        let m = (n - 1) as nat;
        let w = v >> 1;
        lemma_value_of_bits_of(w, m);
        assert forall|i: int| 0 <= i < m implies #[trigger] bits_of(w, m)[i] == bits_of(v, n)[i] by {
            lemma_bit_shr(v, 1, (m - 1 - i) as u64);
        }
        assert(bits_of(v, n).drop_last() =~= bits_of(w, m));
        assert((v >> 0) & 1 == v % 2) by (bit_vector);
        assert(v >> 1 == v / 2) by (bit_vector);
        lemma_pow2_unfold(n);
        lemma_pow2_pos(m);
        let p = pow2(m) as int;
        let h = w as int;
        lemma_fundamental_div_mod(h, p);
        lemma_mod_bound(h, p);
        let r = 2 * (h % p) + v as int % 2;
        assert(v as int == (2 * p) * (h / p) + r) by (nonlinear_arith)
            requires
                v as int == 2 * h + v as int % 2,
                h == p * (h / p) + h % p,
                r == 2 * (h % p) + v as int % 2,
        ;
        vstd::arithmetic::div_mod::lemma_fundamental_div_mod_converse(
            v as int,
            2 * p,
            h / p,
            r,
        );
    }
}

/// A sequence opens with at most one unary code.
pub proof fn lemma_unary_unique(bits: Seq<bool>, p: nat, q: nat)
    requires
        opens_with_unary(bits, p),
        opens_with_unary(bits, q),
    ensures
        p == q,
{
    assert(unary(p)[p as int] == bits[p as int]);
    assert(unary(q)[q as int] == bits[q as int]);
    if p < q {
        assert(unary(q)[p as int] == bits[p as int]);
    } else if q < p {
        assert(unary(p)[q as int] == bits[q as int]);
    }
}

pub proof fn lemma_parse_value_is(bits: Seq<bool>, k: nat, q: u32)
    requires
        opens_with_unary(bits, q as nat),
    ensures
        bits.len() >= q + 1 + k ==> parse_value(bits, k) == Some(
            (
                ((q * pow2(k)) % 0x1_0000_0000 + value_of(bits.subrange(q + 1, q + 1 + k))) as u32,
                bits.skip(q + 1 + k),
            ),
        ),
        bits.len() < q + 1 + k ==> parse_value(bits, k) is None,
{
    assert forall|p: u32| opens_with_unary(bits, p as nat) implies p == q by {
        lemma_unary_unique(bits, p as nat, q as nat);
    }
}

/// Reading one value gives back the value that was coded, whatever follows it.
pub proof fn lemma_parse_value_round_trip(z: u32, k: nat, rest: Seq<bool>)
    requires
        k <= 31,
    ensures
        parse_value(value_bits(z, k) + rest, k) == Some((z, rest)),
{
    let bits = value_bits(z, k) + rest;
    lemma_pow2_pos(k);
    let p = pow2(k) as int;
    let q = (z as int) / p;
    lemma_fundamental_div_mod(z as int, p);
    lemma_mod_bound(z as int, p);
    assert(0 <= q <= z) by (nonlinear_arith)
        requires
            q == (z as int) / p,
            p >= 1,
            z >= 0,
    ;
    assert(q * p <= z) by (nonlinear_arith)
        requires
            z as int == p * q + (z as int) % p,
            0 <= (z as int) % p,
    ;
    assert(q * p >= 0) by (nonlinear_arith)
        requires
            q >= 0,
            p >= 1,
    ;
    assert(opens_with_unary(bits, q as nat));
    lemma_parse_value_is(bits, k, q as u32);
    assert(bits.subrange(q + 1, q + 1 + k) =~= bits_of(z as u64, k));
    lemma_value_of_bits_of(z as u64, k);
    assert(bits.skip(q + 1 + k) =~= rest);
    assert(q * p == p * q) by (nonlinear_arith);
}

/// Reading the values gives back the values that were coded, whatever follows them.
pub proof fn lemma_parse_values_round_trip(zs: Seq<u32>, k: nat, rest: Seq<bool>)
    requires
        k <= 31,
    ensures
        parse_values(rice_bits(zs, k) + rest, k, zs.len()) == Some((zs, rest)),
    decreases zs.len(),
{
    if zs.len() == 0 {
        assert(rice_bits(zs, k) + rest =~= rest);
        assert(zs =~= Seq::empty());
    } else {
        let init = zs.drop_last();
        let tail = value_bits(zs.last(), k) + rest;
        lemma_parse_values_round_trip(init, k, tail);
        assert(rice_bits(init, k) + tail =~= rice_bits(zs, k) + rest);
        lemma_parse_value_round_trip(zs.last(), k, rest);
        assert(init.push(zs.last()) =~= zs);
    }
}

/// Decoding undoes encoding: the bits of a frame, followed by anything, read back as the
/// frame's parameter and residuals, and leave what followed untouched.
pub proof fn law_frame_round_trip(rs: Seq<i32>, k: nat, rest: Seq<bool>)
    requires
        k <= 31,
    ensures
        parse_frame(frame_bits(zigzags(rs), k) + rest, rs.len()) == Some((k, zigzags(rs), rest)),
        unzigzags(zigzags(rs)) == rs,
{
    let zs = zigzags(rs);
    let bits = frame_bits(zs, k) + rest;
    lemma_value_of_bits_of(k as u64, 5);
    lemma2_to64();
    assert(bits.take(5) =~= bits_of(k as u64, 5));
    assert(bits.skip(5) =~= rice_bits(zs, k) + rest);
    lemma_parse_values_round_trip(zs, k, rest);
    lemma_unzigzags_zigzags(rs);
}

/// A read of `n` values gives `n` values.
pub proof fn lemma_parse_values_len(bits: Seq<bool>, k: nat, n: nat)
    ensures
        parse_values(bits, k, n) matches Some((zs, _)) ==> zs.len() == n,
    decreases n,
{
    if n > 0 {
        lemma_parse_values_len(bits, k, (n - 1) as nat);
    }
}

/// The zigzag order step by step: 0 and -1 come first, and one more in magnitude, on either
/// side, is two further on.
pub proof fn law_zigzag_steps(v: int)
    ensures
        zigzag(0) == 0,
        zigzag(-1) == 1,
        v >= 0 ==> zigzag(v + 1) == zigzag(v) + 2,
        v < 0 ==> zigzag(v - 1) == zigzag(v) + 2,
{
}

/// Sequences are numbered element by element, in both directions.
pub proof fn law_zigzags_elementwise(rs: Seq<i32>, zs: Seq<u32>, i: int)
    ensures
        zigzags(rs).len() == rs.len(),
        0 <= i < rs.len() ==> zigzags(rs)[i] == zigzag(rs[i] as int),
        unzigzags(zs).len() == zs.len(),
        0 <= i < zs.len() ==> unzigzags(zs)[i] == unzigzag(zs[i] as int),
{
}

/// The number that bits spell: every further bit doubles the weight of those before it.
pub proof fn law_value_of(a: Seq<bool>, b: Seq<bool>)
    ensures
        value_of(Seq::empty()) == 0,
        value_of(seq![false]) == 0,
        value_of(seq![true]) == 1,
        value_of(a + b) == value_of(a) * pow2(b.len()) + value_of(b),
    decreases b.len(),
{
    assert(value_of(Seq::empty()) == 0);
    assert(seq![false].drop_last() =~= Seq::<bool>::empty());
    assert(seq![true].drop_last() =~= Seq::<bool>::empty());
    if b.len() == 0 {
        assert(a + b =~= a);
        lemma2_to64();
        assert(value_of(a) * 1 == value_of(a));
    } else {
        law_value_of(a, b.drop_last());
        assert((a + b).drop_last() =~= a + b.drop_last());
        lemma_pow2_unfold(b.len());
        let p = pow2((b.len() - 1) as nat);
        assert(2 * (value_of(a) * p) == value_of(a) * (2 * p)) by (nonlinear_arith);
    }
}

/// The code of one value: some ones, a zero, and `k` bits. The ones count `2^k`, the bits the
/// rest.
pub proof fn law_value_code(z: u32, k: nat)
    requires
        k <= 64,
    ensures
        ({
            let bits = value_bits(z, k);
            let q = bits.len() - 1 - k;
            &&& q >= 0
            &&& forall|i: int| 0 <= i < q ==> #[trigger] bits[i]
            &&& !bits[q]
            &&& value_of(bits.skip(q + 1)) < pow2(k)
            &&& q * pow2(k) + value_of(bits.skip(q + 1)) == z
        }),
{
    let bits = value_bits(z, k);
    lemma_pow2_pos(k);
    let p = pow2(k) as int;
    let q = (z as int) / p;
    lemma_fundamental_div_mod(z as int, p);
    lemma_mod_bound(z as int, p);
    vstd::arithmetic::div_mod::lemma_div_pos_is_pos(z as int, p);
    assert(bits.skip(q + 1) =~= bits_of(z as u64, k));
    lemma_value_of_bits_of(z as u64, k);
    assert(q * p == p * q) by (nonlinear_arith);
}

/// The codes of several values stand one after the other.
pub proof fn law_rice_bits(a: Seq<u32>, b: Seq<u32>, z: u32, k: nat)
    ensures
        rice_bits(Seq::empty(), k) == Seq::<bool>::empty(),
        rice_bits(seq![z], k) == value_bits(z, k),
        rice_bits(a + b, k) == rice_bits(a, k) + rice_bits(b, k),
    decreases b.len(),
{
    assert(rice_bits(Seq::empty(), k) =~= Seq::<bool>::empty());
    assert(seq![z].drop_last() =~= Seq::<u32>::empty());
    assert(Seq::<bool>::empty() + value_bits(z, k) =~= value_bits(z, k));
    if b.len() == 0 {
        assert(a + b =~= a);
        assert(rice_bits(a, k) + Seq::<bool>::empty() =~= rice_bits(a, k));
    } else {
        law_rice_bits(a, b.drop_last(), z, k);
        assert((a + b).drop_last() =~= a + b.drop_last());
        assert(rice_bits(a + b, k) =~= rice_bits(a, k) + rice_bits(b, k));
    }
}

/// A frame opens with five bits that spell its parameter; the codes of its values follow.
pub proof fn law_frame_bits(zs: Seq<u32>, k: nat)
    requires
        k <= 31,
    ensures
        frame_bits(zs, k).len() == 5 + rice_bits(zs, k).len(),
        value_of(frame_bits(zs, k).take(5)) == k,
        frame_bits(zs, k).skip(5) == rice_bits(zs, k),
{
    lemma_value_of_bits_of(k as u64, 5);
    lemma2_to64();
    assert(frame_bits(zs, k).take(5) =~= bits_of(k as u64, 5));
    assert(frame_bits(zs, k).skip(5) =~= rice_bits(zs, k));
}

/// What opens with a unary code: its ones, then its zero.
pub proof fn law_opens_with_unary(bits: Seq<bool>, q: nat)
    ensures
        opens_with_unary(bits, q) <==> q < bits.len() && (forall|i: int|
            0 <= i < q ==> #[trigger] bits[i]) && !bits[q as int],
{
    if opens_with_unary(bits, q) {
        assert(unary(q)[q as int] == bits[q as int]);
        assert forall|i: int| 0 <= i < q implies #[trigger] bits[i] by {
            assert(unary(q)[i] == bits[i]);
        }
    } else if q < bits.len() && (forall|i: int| 0 <= i < q ==> #[trigger] bits[i])
        && !bits[q as int] {
        assert(unary(q) =~= bits.subrange(0, q as int + 1));
    }
}

/// Every code is read, also those that no encoder writes: `q` ones, a zero and `k` bits give
/// `q * 2^k`, cut to 32 bits, and the number that the bits spell.
pub proof fn law_parse_value(q: u32, low: Seq<bool>, rest: Seq<bool>, k: nat)
    requires
        k <= 31,
        low.len() == k,
    ensures
        ({
            let v = (q * pow2(k)) % 0x1_0000_0000 + value_of(low);
            &&& v <= u32::MAX
            &&& parse_value(unary(q as nat) + low + rest, k) == Some((v as u32, rest))
        }),
{
    let bits = unary(q as nat) + low + rest;
    assert(opens_with_unary(bits, q as nat));
    lemma_parse_value_is(bits, k, q);
    assert(bits.subrange(q + 1, q + 1 + k) =~= low);
    assert(bits.skip(q + 1 + k) =~= rest);
    lemma_value_of_bound(low);
    lemma2_to64();
    lemma_pow2_adds(k, (32 - k) as nat);
    lemma_pow2_pos(k);
    lemma_pow2_pos((32 - k) as nat);
    let p = pow2(k) as int;
    let r = pow2((32 - k) as nat) as int;
    assert(p * r == 0x1_0000_0000);
    vstd::arithmetic::div_mod::lemma_mod_breakdown(q * p, p, r);
    vstd::arithmetic::div_mod::lemma_div_multiples_vanish(q as int, p);
    vstd::arithmetic::div_mod::lemma_mod_multiples_basic(q as int, p);
    lemma_mod_bound((q * p) / p, r);
    assert(q * p == p * q) by (nonlinear_arith);
    let h = ((q * p) / p) % r;
    assert(p * h <= p * r - p) by (nonlinear_arith)
        requires
            h <= r - 1,
            p > 0,
    ;
}

/// Nothing else is read: a value is read exactly where a unary code and `k` bits stand.
pub proof fn law_parse_value_only_codes(bits: Seq<bool>, k: nat)
    requires
        k <= 31,
    ensures
        parse_value(bits, k) is Some <==> exists|q: u32, low: Seq<bool>, rest: Seq<bool>|
            low.len() == k && bits == #[trigger] (unary(q as nat) + low + rest),
{
    if parse_value(bits, k) is Some {
        let q = choose|q: u32| opens_with_unary(bits, q as nat) && bits.len() >= q + 1 + k;
        let low = bits.subrange(q + 1, q + 1 + k);
        let rest = bits.skip(q + 1 + k);
        assert(bits =~= unary(q as nat) + low + rest);
        assert(low.len() == k);
    }
    if exists|q: u32, low: Seq<bool>, rest: Seq<bool>|
        low.len() == k && bits == #[trigger] (unary(q as nat) + low + rest) {
        let (q, low, rest) = choose|q: u32, low: Seq<bool>, rest: Seq<bool>|
            low.len() == k && bits == #[trigger] (unary(q as nat) + low + rest);
        law_parse_value(q, low, rest, k);
    }
}

/// Values are read one after the other: `m + n` values are `m` values and then `n` more.
pub proof fn law_parse_values(bits: Seq<bool>, k: nat, m: nat, n: nat)
    ensures
        parse_values(bits, k, 0) == Some((Seq::<u32>::empty(), bits)),
        parse_values(bits, k, 1) == match parse_value(bits, k) {
            Some((z, rest)) => Some((seq![z], rest)),
            None => None,
        },
        parse_values(bits, k, m + n) == match parse_values(bits, k, m) {
            Some((a, rest)) => match parse_values(rest, k, n) {
                Some((b, rest)) => Some((a + b, rest)),
                None => None,
            },
            None => None,
        },
    decreases n,
{
    assert(parse_values(bits, k, 0) == Some((Seq::<u32>::empty(), bits)));
    if let Some((z, rest)) = parse_value(bits, k) {
        assert(Seq::<u32>::empty().push(z) =~= seq![z]);
    }
    if n == 0 {
        if let Some((a, rest)) = parse_values(bits, k, m) {
            assert(a + Seq::<u32>::empty() =~= a);
        }
    } else {
        law_parse_values(bits, k, m, (n - 1) as nat);
        if let Some((a, rest)) = parse_values(bits, k, m) {
            if let Some((b, rest)) = parse_values(rest, k, (n - 1) as nat) {
                if let Some((z, rest)) = parse_value(rest, k) {
                    assert((a + b).push(z) =~= a + b.push(z));
                }
            }
        }
    }
}

/// A frame is read as five bits of parameter and then its values; without five bits it is cut
/// off.
pub proof fn law_parse_frame(k: nat, body: Seq<bool>, n: nat, bits: Seq<bool>)
    requires
        k <= 31,
    ensures
        parse_frame(bits_of(k as u64, 5) + body, n) == match parse_values(body, k, n) {
            Some((zs, rest)) => Some((k, zs, rest)),
            None => None,
        },
        bits.len() < 5 ==> parse_frame(bits, n) is None,
{
    let all = bits_of(k as u64, 5) + body;
    lemma_value_of_bits_of(k as u64, 5);
    lemma2_to64();
    assert(all.take(5) =~= bits_of(k as u64, 5));
    assert(all.skip(5) =~= body);
}

/// A read that fails part of the way fails as a whole.
pub proof fn lemma_parse_values_none(bits: Seq<bool>, k: nat, m: nat, n: nat)
    requires
        m <= n,
        parse_values(bits, k, m) is None,
    ensures
        parse_values(bits, k, n) is None,
    decreases n,
{
    if m < n {
        lemma_parse_values_none(bits, k, m, (n - 1) as nat);
    }
}

/// The quotients of all values together make up no more than their sum over `2^k`.
proof fn lemma_rice_bits_len(zs: Seq<u32>, k: nat)
    ensures
        (rice_bits(zs, k).len() - zs.len() * (k + 1)) * pow2(k) <= total(zs),
        rice_bits(zs, k).len() >= zs.len() * (k + 1),
    decreases zs.len(),
{
    if zs.len() > 0 {
        let init = zs.drop_last();
        lemma_rice_bits_len(init, k);
        lemma_pow2_pos(k);
        let p = pow2(k) as int;
        let z = zs.last() as int;
        let q = z / p;
        lemma_fundamental_div_mod(z, p);
        lemma_mod_bound(z, p);
        vstd::arithmetic::div_mod::lemma_div_pos_is_pos(z, p);
        let a = rice_bits(init, k).len() - init.len() * (k + 1);
        assert(zs.len() * (k + 1) == init.len() * (k + 1) + (k + 1)) by (nonlinear_arith)
            requires
                zs.len() == init.len() + 1,
        ;
        assert((a + q) * p == a * p + p * q) by (nonlinear_arith);
    } else {
        assert(0 * (k + 1) == 0 && (0 - 0) * pow2(k) == 0) by (nonlinear_arith);
    }
}

/// With its Rice parameter `k`, a frame of `n` values takes at most `5 + n * (k + 4)` bits.
pub proof fn law_frame_size(zs: Seq<u32>, k: nat)
    requires
        is_rice_parameter(zs, k),
    ensures
        frame_bits(zs, k).len() <= 5 + zs.len() * (k + 4),
{
    if zs.len() == 0 {
        assert(rice_bits(zs, k).len() == 0);
        assert(zs.len() * (k + 4) == 0) by (nonlinear_arith)
            requires
                zs.len() == 0,
        ;
    } else {
        law_rice_parameter_bounds_mean(zs, k);
        lemma_rice_bits_len(zs, k);
        lemma_pow2_pos(k);
        let p = pow2(k) as int;
        let n = zs.len() as int;
        let l = rice_bits(zs, k).len() as int;
        assert(l - n * (k + 1) < 3 * n) by (nonlinear_arith)
            requires
                (l - n * (k + 1)) * p < (3 * n) * p,
                p > 0,
        ;
        assert(n * (k + 4) == n * (k + 1) + 3 * n) by (nonlinear_arith);
    }
}

} // verus!
