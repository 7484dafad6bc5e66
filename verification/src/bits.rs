//! Bit sequences: how integers and byte strings read as bits, most significant bit first.
use vstd::arithmetic::power2::pow2;
use vstd::bits::lemma_u64_shr_is_div;
use vstd::prelude::*;

verus! {

/// Whether bit `j` of `v` is set, bit 0 being the least significant one.
pub open spec fn bit(v: u64, j: u64) -> bool {
    (v >> j) & 1u64 == 1u64
}

/// The low `n` bits of `v`, most significant first.
pub open spec fn bits_of(v: u64, n: nat) -> Seq<bool> {
    Seq::new(n, |i: int| bit(v, (n - 1 - i) as u64))
}

/// The bits of a byte string: byte after byte, each most significant bit first.
pub open spec fn bytes_bits(s: Seq<u8>) -> Seq<bool> {
    Seq::new(8 * s.len(), |i: int| bit(s[i / 8] as u64, (7 - i % 8) as u64))
}

/// `n` bits, all equal to `b`.
pub open spec fn repeat(b: bool, n: nat) -> Seq<bool> {
    Seq::new(n, |i: int| b)
}

/// The unary code of `q`: `q` one bits, then a zero bit.
pub open spec fn unary(q: nat) -> Seq<bool> {
    repeat(true, q).push(false)
}

pub proof fn lemma_bit_or(a: u64, b: u64, j: u64)
    requires
        j < 64,
    ensures
        bit(a | b, j) == (bit(a, j) || bit(b, j)),
{
    assert((((a | b) >> j) & 1 == 1) == (((a >> j) & 1 == 1) || ((b >> j) & 1 == 1))) by (bit_vector)
        requires
            j < 64,
    ;
}

pub proof fn lemma_bit_shl(v: u64, s: u64, j: u64)
    requires
        s < 64,
        j < 64,
    ensures
        bit(v << s, j) == (j >= s && bit(v, (j - s) as u64)),
{
    if j >= s {
        let d = (j - s) as u64;
        assert((((v << s) >> j) & 1 == 1) == ((v >> d) & 1 == 1)) by (bit_vector)
            requires
                s < 64,
                j < 64,
                j >= s,
                d == j - s,
        ;
    } else {
        assert(((v << s) >> j) & 1 != 1) by (bit_vector)
            requires
                s < 64,
                j < s,
        ;
    }
}

pub proof fn lemma_bit_shr(v: u64, s: u64, j: u64)
    requires
        s < 64,
        j < 64,
    ensures
        bit(v >> s, j) == (j + s < 64 && bit(v, (j + s) as u64)),
{
    if j + s < 64 {
        let d = (j + s) as u64;
        assert((((v >> s) >> j) & 1 == 1) == ((v >> d) & 1 == 1)) by (bit_vector)
            requires
                s < 64,
                j < 64,
                d == j + s,
                d < 64,
        ;
    } else {
        assert(((v >> s) >> j) & 1 != 1) by (bit_vector)
            requires
                s < 64,
                j < 64,
                j + s >= 64,
        ;
    }
}

/// The mask `2^n - 1` keeps exactly the low `n` bits.
pub proof fn lemma_bit_mask(v: u64, n: u64, j: u64)
    requires
        n < 64,
        j < 64,
    ensures
        1u64 << n >= 1,
        bit(v & (((1u64 << n) - 1) as u64), j) == (j < n && bit(v, j)),
{
    assert(1u64 << n >= 1) by (bit_vector)
        requires
            n < 64,
    ;
    assert((((v & (((1u64 << n) - 1) as u64)) >> j) & 1 == 1) == (j < n && (v >> j) & 1 == 1))
        by (bit_vector)
        requires
            n < 64,
            j < 64,
    ;
}

/// Cutting a byte out of a word keeps its bits.
pub proof fn lemma_bit_byte(v: u64, s: u64, j: u64)
    requires
        s <= 56,
        j < 8,
    ensures
        bit((v >> s) as u8 as u64, j) == bit(v, (s + j) as u64),
{
    let d = (s + j) as u64;
    assert(((((v >> s) as u8 as u64) >> j) & 1 == 1) == ((v >> d) & 1 == 1)) by (bit_vector)
        requires
            s <= 56,
            j < 8,
            d == s + j,
    ;
}

pub proof fn lemma_bit_max(j: u64)
    requires
        j < 64,
    ensures
        bit(u64::MAX, j),
        !bit(0, j),
{
    assert((u64::MAX >> j) & 1 == 1 && (0u64 >> j) & 1 == 0) by (bit_vector)
        requires
            j < 64,
    ;
}

/// `2^n - 1`, or any word whose low `n` bits are set, reads as `n` ones.
pub proof fn lemma_bits_of_ones(v: u64, n: nat)
    requires
        n <= 64,
        n == 64 ==> v == u64::MAX,
        n < 64 ==> v == (1u64 << (n as u64)) - 1,
    ensures
        bits_of(v, n) == repeat(true, n),
{
    assert forall|i: int| 0 <= i < n implies bits_of(v, n)[i] by {
        let j = (n - 1 - i) as u64;
        lemma_bit_max(j);
        if n < 64 {
            lemma_bit_mask(u64::MAX, n as u64, j);
            assert(u64::MAX & v == v) by (bit_vector);
        }
    }
    assert(bits_of(v, n) =~= repeat(true, n));
}

pub proof fn lemma_bytes_bits_push(s: Seq<u8>, b: u8)
    ensures
        bytes_bits(s.push(b)) == bytes_bits(s) + bits_of(b as u64, 8),
{
    assert(bytes_bits(s.push(b)) =~= bytes_bits(s) + bits_of(b as u64, 8));
}

/// Bit `j` of a number is its binary digit of weight `2^j`.
pub proof fn law_bit_is_digit(v: u64, j: u64)
    requires
        j < 64,
    ensures
        bit(v, j) <==> (v as nat / pow2(j as nat)) % 2 == 1,
{
    lemma_u64_shr_is_div(v, j);
    let w = v >> j;
    assert(w & 1 == w % 2) by (bit_vector);
}

/// The low `n` bits of a number are its last `n` binary digits, that of the greatest weight
/// first.
pub proof fn law_bits_are_digits(v: u64, n: nat, i: int)
    requires
        n <= 64,
    ensures
        bits_of(v, n).len() == n,
        0 <= i < n ==> (bits_of(v, n)[i] <==> (v as nat / pow2((n - 1 - i) as nat)) % 2 == 1),
{
    if 0 <= i < n {
        law_bit_is_digit(v, (n - 1 - i) as u64);
    }
}

/// The bits of a byte string are the eight bits of each byte, one byte after the other.
pub proof fn law_bits_of_bytes(a: Seq<u8>, b: Seq<u8>, x: u8)
    ensures
        bytes_bits(Seq::empty()) == Seq::<bool>::empty(),
        bytes_bits(seq![x]) == bits_of(x as u64, 8),
        bytes_bits(a + b) == bytes_bits(a) + bytes_bits(b),
{
    assert(bytes_bits(Seq::empty()) =~= Seq::<bool>::empty());
    assert(bytes_bits(seq![x]) =~= bits_of(x as u64, 8));
    assert(bytes_bits(a + b) =~= bytes_bits(a) + bytes_bits(b));
}

/// Equal bits and unary codes, bit by bit.
pub proof fn law_runs(b: bool, n: nat, i: int)
    ensures
        repeat(b, n).len() == n,
        0 <= i < n ==> repeat(b, n)[i] == b,
        unary(n).len() == n + 1,
        0 <= i < n ==> unary(n)[i],
        !unary(n)[n as int],
{
}

/// Writing a number in two parts, high bits first, is writing it at once.
pub proof fn law_bits_split(v: u64, m: nat, n: nat)
    requires
        m + n <= 64,
        n < 64,
    ensures
        bits_of(v, m + n) == bits_of(v >> (n as u64), m) + bits_of(v, n),
{
    let hi = v >> (n as u64);
    assert forall|i: int| 0 <= i < m implies #[trigger] bits_of(hi, m)[i] == bits_of(v, m + n)[i] by {
        lemma_bit_shr(v, n as u64, (m - 1 - i) as u64);
    }
    assert(bits_of(v, m + n) =~= bits_of(hi, m) + bits_of(v, n));
}

/// Byte strings with the same bits are the same.
pub proof fn law_bits_determine_bytes(a: Seq<u8>, b: Seq<u8>)
    requires
        bytes_bits(a) == bytes_bits(b),
    ensures
        a == b,
{
    assert(8 * a.len() == bytes_bits(a).len());
    assert(8 * b.len() == bytes_bits(b).len());
    assert forall|i: int| 0 <= i < a.len() implies a[i] == b[i] by {
        let x = a[i] as u64;
        let y = b[i] as u64;
        assert forall|j: u64| j < 8 implies #[trigger] bit(x, j) == bit(y, j) by {
            let k = 8 * i + 7 - j;
            assert(k / 8 == i && k % 8 == 7 - j);
            assert(bytes_bits(a)[k] == bit(x, j));
            assert(bytes_bits(b)[k] == bit(y, j));
        }
        assert(bit(x, 0) == bit(y, 0) && bit(x, 1) == bit(y, 1) && bit(x, 2) == bit(y, 2) && bit(
            x,
            3,
        ) == bit(y, 3) && bit(x, 4) == bit(y, 4) && bit(x, 5) == bit(y, 5) && bit(x, 6) == bit(y, 6)
            && bit(x, 7) == bit(y, 7));
        assert(x == y) by (bit_vector)
            requires
                x < 256,
                y < 256,
                ((x >> 0) & 1 == 1) == ((y >> 0) & 1 == 1),
                ((x >> 1) & 1 == 1) == ((y >> 1) & 1 == 1),
                ((x >> 2) & 1 == 1) == ((y >> 2) & 1 == 1),
                ((x >> 3) & 1 == 1) == ((y >> 3) & 1 == 1),
                ((x >> 4) & 1 == 1) == ((y >> 4) & 1 == 1),
                ((x >> 5) & 1 == 1) == ((y >> 5) & 1 == 1),
                ((x >> 6) & 1 == 1) == ((y >> 6) & 1 == 1),
                ((x >> 7) & 1 == 1) == ((y >> 7) & 1 == 1),
        ;
    }
    assert(a =~= b);
}

} // verus!
