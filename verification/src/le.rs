//! Little-endian integers in byte strings.
use vstd::arithmetic::div_mod::lemma_mod_breakdown;
use vstd::arithmetic::power::{lemma_pow0, lemma_pow_increases, lemma_pow_positive, pow};
use vstd::prelude::*;

verus! {

/// The `n` low bytes of `v`, least significant first.
pub open spec fn le_bytes(v: nat, n: nat) -> Seq<u8>
    decreases n,
{
    if n == 0 {
        Seq::empty()
    } else {
        seq![(v % 256) as u8] + le_bytes(v / 256, (n - 1) as nat)
    }
}

/// The number that `s` spells, least significant byte first.
pub open spec fn le_value(s: Seq<u8>) -> nat
    decreases s.len(),
{
    if s.len() == 0 {
        0
    } else {
        s[0] as nat + 256 * le_value(s.drop_first())
    }
}

/// The unsigned 16-bit number with the same two bytes as `s`.
pub open spec fn unsigned(s: i16) -> nat {
    if s < 0 {
        (s + 0x1_0000) as nat
    } else {
        s as nat
    }
}

/// The signed 16-bit number with the same two bytes as `u`.
pub open spec fn signed(u: nat) -> i16 {
    if u < 0x8000 {
        u as i16
    } else {
        (u - 0x1_0000) as i16
    }
}

pub proof fn lemma_le_bytes_len(v: nat, n: nat)
    ensures
        le_bytes(v, n).len() == n,
    decreases n,
{
    if n > 0 {
        lemma_le_bytes_len(v / 256, (n - 1) as nat);
    }
}

/// The bytes of a number that fits in them spell that number.
pub proof fn lemma_le_round_trip(v: nat, n: nat)
    requires
        v < pow(256, n),
    ensures
        le_value(le_bytes(v, n)) == v,
    decreases n,
{
    if n == 0 {
        lemma_pow0(256);
    } else {
        let m = (n - 1) as nat;
        reveal(pow);
        assert(pow(256, n) == 256 * pow(256, m));
        lemma_le_round_trip(v / 256, m);
        assert(le_bytes(v, n).drop_first() =~= le_bytes(v / 256, m));
    }
}

pub proof fn lemma_le_value_bound(s: Seq<u8>)
    ensures
        le_value(s) < pow(256, s.len()),
    decreases s.len(),
{
    if s.len() == 0 {
        lemma_pow0(256);
    } else {
        lemma_le_value_bound(s.drop_first());
        reveal(pow);
        assert(pow(256, s.len()) == 256 * pow(256, (s.len() - 1) as nat));
    }
}

/// The ranges of the integers in use.
pub proof fn lemma_le_ranges()
    ensures
        pow(256, 1) == 0x100,
        pow(256, 2) == 0x1_0000,
        pow(256, 4) == 0x1_0000_0000,
        pow(256, 8) == 0x1_0000_0000_0000_0000,
{
    reveal_with_fuel(pow, 9);
}

/// Each byte weighs 256 times the one before it.
pub proof fn law_le_value(a: Seq<u8>, b: Seq<u8>, x: u8)
    ensures
        le_value(Seq::empty()) == 0,
        le_value(seq![x]) == x,
        le_value(a + b) == le_value(a) + pow(256, a.len()) * le_value(b),
    decreases a.len(),
{
    assert(seq![x].drop_first() =~= Seq::<u8>::empty());
    reveal(pow);
    if a.len() == 0 {
        assert(a + b =~= b);
        assert(pow(256, 0) * le_value(b) == le_value(b)) by (nonlinear_arith)
            requires
                pow(256, 0) == 1,
        ;
    } else {
        let t = a.drop_first();
        law_le_value(t, b, x);
        assert((a + b).drop_first() =~= t + b);
        let p = pow(256, t.len());
        assert(pow(256, a.len()) == 256 * p);
        assert(256 * (p * le_value(b)) == (256 * p) * le_value(b)) by (nonlinear_arith);
    }
}

/// `n` bytes hold a number modulo `256^n`.
pub proof fn law_le_bytes(v: nat, n: nat)
    ensures
        le_bytes(v, n).len() == n,
        le_value(le_bytes(v, n)) == v as int % pow(256, n),
    decreases n,
{
    reveal(pow);
    if n > 0 {
        let m = (n - 1) as nat;
        law_le_bytes(v / 256, m);
        lemma_pow_positive(256, m);
        assert(le_bytes(v, n).drop_first() =~= le_bytes(v / 256, m));
        lemma_mod_breakdown(v as int, 256, pow(256, m));
    }
}

/// Signed and unsigned 16-bit numbers with the same bytes agree modulo `2^16`.
pub proof fn law_signed_words(u: nat, s: i16)
    requires
        u < 0x1_0000,
    ensures
        (signed(u) - u) % 0x1_0000 == 0,
        unsigned(s) < 0x1_0000,
        (unsigned(s) - s) % 0x1_0000 == 0,
{
}

/// Appends the `n` low bytes of `v`, least significant first.
pub fn push_le(out: &mut Vec<u8>, v: u64, n: u8)
    ensures
        final(out)@ == old(out)@ + le_bytes(v as nat, n as nat),
{
    let mut left: u64 = v;
    let mut i: u8 = n;
    while i > 0
        invariant
            i <= n,
            out@ + le_bytes(left as nat, i as nat) == old(out)@ + le_bytes(v as nat, n as nat),
        decreases i,
    {
        let ghost before = out@;
        let b: u8 = (left % 256) as u8;
        out.push(b);
        proof {
            assert(out@ + le_bytes((left / 256) as nat, (i - 1) as nat) =~= before + (seq![b]
                + le_bytes((left / 256) as nat, (i - 1) as nat)));
        }
        left = left / 256;
        i = i - 1;
    }
    assert(out@ + le_bytes(left as nat, 0) =~= out@);
}

/// Reads the `n` bytes at `pos`, least significant first.
pub fn read_le(bytes: &[u8], pos: usize, n: u8) -> (v: u64)
    requires
        n <= 8,
        pos + n <= bytes@.len(),
    ensures
        v == le_value(bytes@.subrange(pos as int, pos + n)),
        v < pow(256, n as nat),
{
    let mut v: u64 = 0;
    let mut i: u8 = n;
    let ghost end = pos + n;
    assert(bytes@.len() == bytes.len());
    assert(bytes@.subrange(pos + n, end) =~= Seq::empty());
    while i > 0
        invariant
            i <= n <= 8,
            end == pos + n,
            end <= bytes@.len(),
            bytes@.len() <= usize::MAX,
            v == le_value(bytes@.subrange(pos + i, end)),
        decreases i,
    {
        i = i - 1;
        let ghost tail = bytes@.subrange(pos + i + 1, end);
        proof {
            assert(bytes@.subrange(pos + i, end).drop_first() =~= tail);
            lemma_le_value_bound(bytes@.subrange(pos + i, end));
            lemma_le_ranges();
            lemma_pow_increases(256, (n - i) as nat, 8);
        }
        v = bytes[pos + i as usize] as u64 + 256 * v;
    }
    proof {
        lemma_le_value_bound(bytes@.subrange(pos as int, pos + n));
    }
    v
}

/// The unsigned number with the bytes of `s`.
pub fn to_unsigned(s: i16) -> (u: u16)
    ensures
        u == unsigned(s),
{
    if s < 0 {
        (s as i32 + 0x1_0000) as u16
    } else {
        s as u16
    }
}

/// The signed number with the bytes of `u`.
pub fn to_signed(u: u16) -> (s: i16)
    ensures
        s == signed(u as nat),
{
    if u < 0x8000 {
        u as i16
    } else {
        (u as i32 - 0x1_0000) as i16
    }
}

} // verus!
