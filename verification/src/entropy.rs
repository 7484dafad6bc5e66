//! Entropy coding: a bit writer on 64-bit registers and the Golomb-Rice code.
use vstd::bits::lemma_u32_shr_is_div;
use vstd::prelude::*;

use crate::bits::{
    bit, bits_of, bytes_bits, lemma_bit_byte, lemma_bit_mask, lemma_bit_max, lemma_bit_or,
    lemma_bit_shl, lemma_bit_shr, lemma_bits_of_ones, lemma_bytes_bits_push, repeat, unary,
};
use crate::code::{frame_bits, law_frame_size, rice_bits, unzigzag, value_bits, zigzag, zigzags};
use crate::rice::{is_rice_parameter, lemma_rice_parameter_exists, rice_parameter, total_fits};

pub use crate::reader::BitReader;
pub use crate::rice::optimal_rice_parameter;

verus! {

/// Appends bits, most significant first, to a byte buffer.
///
/// Up to 63 bits wait in a 64-bit register, aligned to its top; a full register goes to
/// `buffer` as eight big-endian bytes.
pub struct BitWriter {
    pub buffer: Vec<u8>,
    accumulator: u64,
    bits_in_acc: u8,
}

impl View for BitWriter {
    type V = Seq<bool>;

    /// Every bit written so far, in order.
    closed spec fn view(&self) -> Seq<bool> {
        bytes_bits(self.buffer@) + bits_of(self.accumulator, 64).take(self.bits_in_acc as int)
    }
}

/// How many bits are missing to the next whole byte after `n` bits.
pub open spec fn padding(n: nat) -> nat {
    ((8 - n % 8) % 8) as nat
}

/// Padding is less than a byte, ends on a whole one, and once done there is nothing more to
/// pad: a second flush changes nothing.
pub proof fn law_padding(n: nat)
    ensures
        padding(n) < 8,
        (n + padding(n)) % 8 == 0,
        padding(n + padding(n)) == 0,
        (n + padding(n)) / 8 == (n + 7) / 8,
{
}

/// Appends the `n` most significant bytes of `v` to `buffer`.
fn push_top_bytes(buffer: &mut Vec<u8>, v: u64, n: u8)
    requires
        n <= 8,
    ensures
        final(buffer)@.len() == old(buffer)@.len() + n,
        bytes_bits(final(buffer)@) == bytes_bits(old(buffer)@) + bits_of(v, 64).take(8 * n),
{
    let mut i: u8 = 0;
    assert(bytes_bits(buffer@) + bits_of(v, 64).take(0) =~= bytes_bits(buffer@));
    while i < n
        invariant
            i <= n <= 8,
            buffer@.len() == old(buffer)@.len() + i,
            bytes_bits(buffer@) == bytes_bits(old(buffer)@) + bits_of(v, 64).take(8 * i),
        decreases n - i,
    {
        let s: u64 = 56 - 8 * (i as u64);
        let b: u8 = (v >> s) as u8;
        proof {
            lemma_bytes_bits_push(buffer@, b);
            assert forall|j: int| 0 <= j < 8 implies #[trigger] bits_of(b as u64, 8)[j] == bits_of(
                v,
                64,
            )[8 * i + j] by {
                lemma_bit_byte(v, s, (7 - j) as u64);
            }
            assert(bits_of(v, 64).take(8 * i) + bits_of(b as u64, 8) =~= bits_of(v, 64).take(
                8 * (i + 1),
            ));
            assert(bytes_bits(old(buffer)@) + bits_of(v, 64).take(8 * i) + bits_of(b as u64, 8)
                =~= bytes_bits(old(buffer)@) + (bits_of(v, 64).take(8 * i) + bits_of(b as u64, 8)));
        }
        buffer.push(b);
        i = i + 1;
    }
}

/// `after` is `before` with `bits` appended, and with every full register moved to the buffer.
#[verifier::opaque]
spec fn extends(before: BitWriter, after: BitWriter, bits: Seq<bool>) -> bool {
    &&& before.wf()
    &&& after.wf()
    &&& after@ == before@ + bits
    &&& after.bytes().len() == before.bytes().len() + 8 * ((before.pending() + bits.len()) / 64)
}

proof fn lemma_extends(before: BitWriter, after: BitWriter, bits: Seq<bool>)
    ensures
        extends(before, after, bits) == {
            &&& before.wf()
            &&& after.wf()
            &&& after@ == before@ + bits
            &&& after.bytes().len() == before.bytes().len() + 8 * ((before.pending() + bits.len())
                / 64)
        },
{
    reveal(extends);
}

proof fn lemma_extends_by_nothing(w: BitWriter)
    requires
        w.wf(),
    ensures
        extends(w, w, Seq::empty()),
{
    reveal(extends);
    w.law_buffer_holds_prefix();
    assert(w@ + Seq::empty() =~= w@);
}

proof fn lemma_extends_twice(
    a: BitWriter,
    b: BitWriter,
    c: BitWriter,
    first: Seq<bool>,
    second: Seq<bool>,
)
    requires
        extends(a, b, first),
        extends(b, c, second),
    ensures
        extends(a, c, first + second),
{
    reveal(extends);
    a.law_buffer_holds_prefix();
    b.law_buffer_holds_prefix();
    assert(a@ + first + second =~= a@ + (first + second));
    let p = a.pending();
    let m = first.len() as int;
    let n = second.len() as int;
    assert(b.pending() == p + m - 64 * ((p + m) / 64));
    assert((p + m) / 64 + (p + m - 64 * ((p + m) / 64) + n) / 64 == (p + m + n) / 64);
}

impl BitWriter {
    /// The register is never full, and holds nothing below its pending bits.
    pub closed spec fn wf(&self) -> bool {
        &&& self.bits_in_acc < 64
        &&& forall|j: u64| j < 64 - self.bits_in_acc ==> !#[trigger] bit(self.accumulator, j)
    }

    /// The bytes that have left the register: the contents of `buffer`.
    pub closed spec fn bytes(&self) -> Seq<u8> {
        self.buffer@
    }

    /// How many bits still wait in the register.
    pub open spec fn pending(&self) -> int {
        self@.len() - 8 * self.bytes().len()
    }

    /// What is in `buffer` is what was written first; fewer than 64 bits are still to come.
    pub proof fn law_buffer_holds_prefix(&self)
        requires
            self.wf(),
        ensures
            0 <= self.pending() < 64,
            bytes_bits(self.bytes()) == self@.take(8 * self.bytes().len() as int),
    {
        assert(bytes_bits(self.bytes()) =~= self@.take(8 * self.bytes().len() as int));
    }

    /// An empty writer.
    pub fn new() -> (w: Self)
        ensures
            w.wf(),
            w@ == Seq::<bool>::empty(),
            w.bytes() == Seq::<u8>::empty(),
    {
        let w = BitWriter { buffer: Vec::with_capacity(8192), accumulator: 0, bits_in_acc: 0 };
        proof {
            assert forall|j: u64| j < 64 implies !#[trigger] bit(0, j) by {
                lemma_bit_max(j);
            }
            assert(w@ =~= Seq::<bool>::empty());
        }
        w
    }

    /// The bytes that have left the register.
    pub fn as_bytes(&self) -> (b: &[u8])
        ensures
            b@ == self.bytes(),
    {
        self.buffer.as_slice()
    }

    /// Appends the low `count` bits of `value`.
    pub fn write_bits(&mut self, value: u64, count: u8)
        requires
            old(self).wf(),
            count <= 64,
        ensures
            final(self).wf(),
            final(self)@ == old(self)@ + bits_of(value, count as nat),
            final(self).bytes().len() == old(self).bytes().len() + 8 * ((old(self).pending() + count)
                / 64),
    {
        if count == 0 {
            assert(self@ + bits_of(value, 0) =~= self@);
            return;
        }
        let ghost before = self@;
        let ghost acc0 = self.accumulator;
        let ghost b0 = self.bits_in_acc;
        let ghost n0 = count as nat;
        let ghost old_bytes = self.buffer@;
        let mask: u64 = if count == 64 {
            u64::MAX
        } else {
            proof {
                lemma_bit_mask(value, count as u64, 0);
            }
            (1u64 << count) - 1
        };
        let masked: u64 = value & mask;
        let mut count: u8 = count;
        proof {
            assert forall|j: u64| j < 64 implies #[trigger] bit(masked, j) == (j < n0 && bit(
                value,
                j,
            )) by {
                if n0 == 64 {
                    assert(value & u64::MAX == value) by (bit_vector);
                } else {
                    lemma_bit_mask(value, n0 as u64, j);
                }
            }
        }
        if self.bits_in_acc + count >= 64 {
            let space: u8 = 64 - self.bits_in_acc;
            let shift: u8 = count - space;
            let high_bits: u64 = masked >> shift;
            self.accumulator = self.accumulator | high_bits;
            push_top_bytes(&mut self.buffer, self.accumulator, 8);
            proof {
                let full = self.accumulator;
                assert forall|i: int| 0 <= i < 64 implies #[trigger] bits_of(full, 64)[i] == (if i
                    < b0 {
                    bits_of(acc0, 64)[i]
                } else {
                    bits_of(value, n0)[i - b0]
                }) by {
                    let j = (63 - i) as u64;
                    lemma_bit_or(acc0, high_bits, j);
                    lemma_bit_shr(masked, shift as u64, j);
                }
                assert(bits_of(full, 64).take(64) =~= bits_of(acc0, 64).take(b0 as int) + bits_of(
                    value,
                    n0,
                ).take(space as int));
                assert(bytes_bits(self.buffer@) =~= before + bits_of(value, n0).take(space as int));
            }
            self.accumulator = 0;
            count = shift;
            self.bits_in_acc = 0;
            proof {
                assert forall|j: u64| j < 64 implies !#[trigger] bit(0, j) by {
                    lemma_bit_max(j);
                }
                if count == 0 {
                    assert(self@ =~= before + bits_of(value, n0));
                }
            }
            if count > 0 {
                self.accumulator = self.accumulator | (masked << (64 - count));
                self.bits_in_acc = count;
                proof {
                    let acc = self.accumulator;
                    let s = (64 - count) as u64;
                    assert forall|j: u64| j < 64 implies #[trigger] bit(acc, j) == (j >= s && bit(
                        masked,
                        (j - s) as u64,
                    )) by {
                        lemma_bit_or(0, masked << s, j);
                        lemma_bit_shl(masked, s, j);
                    }
                    assert(self@ =~= before + bits_of(value, n0));
                }
            }
        } else {
            self.accumulator = self.accumulator | (masked << (64 - self.bits_in_acc - count));
            self.bits_in_acc = self.bits_in_acc + count;
            proof {
                let acc = self.accumulator;
                let s = (64 - b0 - n0) as u64;
                assert forall|j: u64| j < 64 implies #[trigger] bit(acc, j) == (bit(acc0, j) || (j
                    >= s && bit(masked, (j - s) as u64))) by {
                    lemma_bit_or(acc0, masked << s, j);
                    lemma_bit_shl(masked, s, j);
                }
                assert(self@ =~= before + bits_of(value, n0));
            }
        }
    }

    /// Appends `q` one bits and a closing zero bit.
    pub fn write_unary(&mut self, q: u32)
        requires
            old(self).wf(),
        ensures
            final(self).wf(),
            final(self)@ == old(self)@ + unary(q as nat),
            final(self).bytes().len() == old(self).bytes().len() + 8 * ((old(self).pending() + q + 1)
                / 64),
    {
        let ghost start = *self;
        let mut left: u32 = q;
        proof {
            lemma_extends_by_nothing(start);
            assert(repeat(true, 0) =~= Seq::empty());
        }
        while left >= 64
            invariant
                left <= q,
                extends(start, *self, repeat(true, (q - left) as nat)),
            decreases left,
        {
            let ghost before = *self;
            proof {
                lemma_extends(start, before, repeat(true, (q - left) as nat));
            }
            self.write_bits(u64::MAX, 64);
            proof {
                lemma_bits_of_ones(u64::MAX, 64);
                lemma_extends(before, *self, repeat(true, 64));
                lemma_extends_twice(
                    start,
                    before,
                    *self,
                    repeat(true, (q - left) as nat),
                    repeat(true, 64),
                );
                assert(repeat(true, (q - left) as nat) + repeat(true, 64) =~= repeat(
                    true,
                    (q - left + 64) as nat,
                ));
            }
            left = left - 64;
        }
        let ghost body = *self;
        proof {
            lemma_extends(start, body, repeat(true, (q - left) as nat));
        }
        if left > 0 {
            proof {
                lemma_bit_mask(u64::MAX, left as u64, 0);
            }
            let ones: u64 = (1u64 << left) - 1;
            self.write_bits(ones, left as u8);
            proof {
                lemma_bits_of_ones(ones, left as nat);
                lemma_extends(body, *self, repeat(true, left as nat));
                lemma_extends_twice(
                    start,
                    body,
                    *self,
                    repeat(true, (q - left) as nat),
                    repeat(true, left as nat),
                );
                assert(repeat(true, (q - left) as nat) + repeat(true, left as nat) =~= repeat(
                    true,
                    q as nat,
                ));
            }
        }
        let ghost ones = *self;
        proof {
            lemma_extends(start, ones, repeat(true, q as nat));
        }
        self.write_bits(0, 1);
        proof {
            lemma_bit_max(0);
            lemma_extends(ones, *self, bits_of(0, 1));
            lemma_extends_twice(start, ones, *self, repeat(true, q as nat), bits_of(0, 1));
            assert(repeat(true, q as nat) + bits_of(0, 1) =~= unary(q as nat));
            lemma_extends(start, *self, unary(q as nat));
        }
    }

    /// Pads with zero bits to a whole number of bytes and empties the register.
    pub fn flush(&mut self)
        requires
            old(self).wf(),
        ensures
            final(self).wf(),
            final(self)@ == old(self)@ + repeat(false, padding(old(self)@.len())),
            final(self).bytes().len() == (old(self)@.len() + 7) / 8,
            bytes_bits(final(self).bytes()) == final(self)@,
    {
        let ghost before = self@;
        if self.bits_in_acc > 0 {
            let bytes: u8 = (self.bits_in_acc + 7) / 8;
            push_top_bytes(&mut self.buffer, self.accumulator, bytes);
            self.accumulator = 0;
            self.bits_in_acc = 0;
        }
        proof {
            assert forall|j: u64| j < 64 implies !#[trigger] bit(0, j) by {
                lemma_bit_max(j);
            }
            assert(self@ =~= bytes_bits(self.buffer@));
            assert(self@ =~= before + repeat(false, padding(before.len())));
        }
    }

    /// The size in bytes of what was written, a started byte counting as a whole one.
    pub fn bytes_written(&self) -> (n: usize)
        requires
            self.wf(),
            (self@.len() + 7) / 8 <= usize::MAX,
        ensures
            n == (self@.len() + 7) / 8,
    {
        self.buffer.len() + ((self.bits_in_acc + 7) / 8) as usize
    }

    /// Appends everything that `other` has written, its pending bits too, with no padding.
    pub fn append_bits(&mut self, other: &BitWriter)
        requires
            old(self).wf(),
            other.wf(),
        ensures
            final(self).wf(),
            final(self)@ == old(self)@ + other@,
            final(self).bytes().len() == old(self).bytes().len() + 8 * ((old(self).pending()
                + other@.len()) / 64),
    {
        let ghost start = *self;
        let mut i: usize = 0;
        let ghost all = bytes_bits(other.buffer@);
        proof {
            lemma_extends_by_nothing(start);
            assert(all.take(0) =~= Seq::empty());
        }
        while i < other.buffer.len()
            invariant
                i <= other.buffer.len(),
                all == bytes_bits(other.buffer@),
                extends(start, *self, all.take(8 * i)),
            decreases other.buffer.len() - i,
        {
            let byte: u8 = other.buffer[i];
            let ghost before = *self;
            proof {
                lemma_extends(start, before, all.take(8 * i));
            }
            self.write_bits(byte as u64, 8);
            proof {
                lemma_extends(before, *self, bits_of(byte as u64, 8));
                lemma_extends_twice(start, before, *self, all.take(8 * i), bits_of(byte as u64, 8));
                assert(all.take(8 * i) + bits_of(byte as u64, 8) =~= all.take(8 * (i + 1)));
            }
            i = i + 1;
        }
        let ghost body = *self;
        proof {
            assert(all.take(8 * i) =~= all);
            lemma_extends(start, body, all);
        }
        if other.bits_in_acc > 0 {
            let shift: u8 = 64 - other.bits_in_acc;
            let val: u64 = other.accumulator >> shift;
            self.write_bits(val, other.bits_in_acc);
            proof {
                let n = other.bits_in_acc as nat;
                assert forall|i: int| 0 <= i < n implies #[trigger] bits_of(val, n)[i] == bits_of(
                    other.accumulator,
                    64,
                )[i] by {
                    lemma_bit_shr(other.accumulator, shift as u64, (n - 1 - i) as u64);
                }
                assert(bits_of(val, n) =~= bits_of(other.accumulator, 64).take(n as int));
                lemma_extends(body, *self, bits_of(val, n));
                lemma_extends_twice(start, body, *self, all, bits_of(val, n));
                lemma_extends(start, *self, other@);
            }
        } else {
            assert(all =~= other@);
        }
    }
}

/// The zigzag number of `val`: 0 -> 0, -1 -> 1, 1 -> 2, -2 -> 3, and so on.
pub fn zigzag_encode(val: i32) -> (z: u32)
    ensures
        z == zigzag(val as int),
{
    proof {
        assert(val >= 0 ==> ((val << 1) ^ (val >> 31)) as u32 == 2 * val) by (bit_vector);
        assert(val < 0 ==> ((val << 1) ^ (val >> 31)) as u32 == -2 * val - 1) by (bit_vector);
    }
    ((val << 1) ^ (val >> 31)) as u32
}

/// The integer with the zigzag number `z`.
pub fn zigzag_decode(z: u32) -> (val: i32)
    ensures
        val == unzigzag(z as int),
{
    let half: i32 = (z / 2) as i32;
    if z % 2 == 0 {
        half
    } else {
        -half - 1
    }
}

/// After `written` bits and a frame of these residuals, the number of bits fits a `usize`.
///
/// The second line is the true length. The first one implies it (`law_short_frame_fits`), and
/// is there for callers to check at a glance.
pub open spec fn code_fits(written: nat, residuals: Seq<i32>) -> bool {
    ||| written + 5 + 35 * residuals.len() <= usize::MAX
    ||| written + frame_bits(zigzags(residuals), rice_parameter(zigzags(residuals))).len()
        <= usize::MAX
}

/// A frame never takes more than 35 bits a value, and five more.
pub proof fn law_short_frame_fits(written: nat, residuals: Seq<i32>)
    requires
        written + 5 + 35 * residuals.len() <= usize::MAX,
    ensures
        written + frame_bits(zigzags(residuals), rice_parameter(zigzags(residuals))).len()
            <= usize::MAX,
{
    let zs = zigzags(residuals);
    lemma_rice_parameter_exists(zs);
    let k = rice_parameter(zs);
    law_frame_size(zs, k);
    assert(zs.len() * (k + 4) <= 35 * zs.len()) by (nonlinear_arith)
        requires
            k <= 31,
    ;
}

/// Compresses the residuals of one frame: writes the Rice parameter that suits them on five
/// bits, then their Golomb-Rice codes. Returns the parameter and the number of bits written.
pub fn encode_frame(residuals: &[i32], writer: &mut BitWriter) -> (r: (u8, usize))
    requires
        old(writer).wf(),
        total_fits(zigzags(residuals@)),
        code_fits(old(writer)@.len(), residuals@),
    ensures
        final(writer).wf(),
        r.0 <= 31,
        r.0 == rice_parameter(zigzags(residuals@)),
        is_rice_parameter(zigzags(residuals@), r.0 as nat),
        r.1 == frame_bits(zigzags(residuals@), r.0 as nat).len(),
        final(writer)@ == old(writer)@ + frame_bits(zigzags(residuals@), r.0 as nat),
        final(writer).bytes().len() == old(writer).bytes().len() + 8 * ((old(writer).pending()
            + r.1) / 64),
{
    let start_bits: usize = writer.buffer.len() * 8 + writer.bits_in_acc as usize;
    let n: usize = residuals.len();
    let ghost zs = zigzags(residuals@);
    let mut zigzag_values: Vec<u32> = Vec::with_capacity(n);
    let mut i: usize = 0;
    while i < n
        invariant
            i <= n,
            n == residuals@.len(),
            zs == zigzags(residuals@),
            zigzag_values@ == zs.take(i as int),
        decreases n - i,
    {
        zigzag_values.push(zigzag_encode(residuals[i]));
        i = i + 1;
        assert(zigzag_values@ =~= zs.take(i as int));
    }
    assert(zigzag_values@ =~= zs);
    let k: u8 = optimal_rice_parameter(zigzag_values.as_slice());
    let ghost start = *writer;
    proof {
        lemma_extends_by_nothing(start);
        if start@.len() + 5 + 35 * residuals@.len() <= usize::MAX {
            law_short_frame_fits(start@.len(), residuals@);
        }
        assert(start@.len() == start_bits);
    }
    writer.write_bits(k as u64, 5);
    let mut j: usize = 0;
    proof {
        lemma_extends(start, *writer, bits_of(k as u64, 5));
        assert(rice_bits(zs.take(0), k as nat) =~= Seq::empty());
        assert(frame_bits(zs.take(0), k as nat) =~= bits_of(k as u64, 5));
    }
    while j < n
        invariant
            j <= n,
            k <= 31,
            n == zs.len(),
            zigzag_values@ == zs,
            extends(start, *writer, frame_bits(zs.take(j as int), k as nat)),
        decreases n - j,
    {
        let z: u32 = zigzag_values[j];
        let ghost before = *writer;
        proof {
            lemma_extends(start, before, frame_bits(zs.take(j as int), k as nat));
        }
        write_rice(writer, z, k);
        proof {
            lemma_extends_twice(
                start,
                before,
                *writer,
                frame_bits(zs.take(j as int), k as nat),
                value_bits(z, k as nat),
            );
            assert(zs.take(j + 1).drop_last() =~= zs.take(j as int));
            assert(frame_bits(zs.take(j as int), k as nat) + value_bits(z, k as nat) =~= frame_bits(
                zs.take(j + 1),
                k as nat,
            ));
        }
        j = j + 1;
    }
    proof {
        assert(zs.take(n as int) =~= zs);
        lemma_extends(start, *writer, frame_bits(zs, k as nat));
        assert(writer@.len() == writer.buffer@.len() * 8 + writer.bits_in_acc);
    }
    let end_bits: usize = writer.buffer.len() * 8 + writer.bits_in_acc as usize;
    (k, end_bits - start_bits)
}

/// Appends the Golomb-Rice code of `z`.
fn write_rice(writer: &mut BitWriter, z: u32, k: u8)
    requires
        old(writer).wf(),
        k <= 31,
    ensures
        extends(*old(writer), *final(writer), value_bits(z, k as nat)),
{
    let ghost start = *writer;
    let q: u32 = z >> k;
    proof {
        lemma_bit_mask(z as u64, k as u64, 0);
    }
    let rem: u64 = (z as u64) & ((1u64 << k) - 1);
    writer.write_unary(q);
    let ghost middle = *writer;
    writer.write_bits(rem, k);
    proof {
        lemma_u32_shr_is_div(z, k as u32);
        assert forall|b: int| 0 <= b < k implies #[trigger] bits_of(rem, k as nat)[b] == bits_of(
            z as u64,
            k as nat,
        )[b] by {
            lemma_bit_mask(z as u64, k as u64, (k - 1 - b) as u64);
        }
        assert(bits_of(rem, k as nat) =~= bits_of(z as u64, k as nat));
        lemma_extends(start, middle, unary(q as nat));
        lemma_extends(middle, *writer, bits_of(z as u64, k as nat));
        lemma_extends_twice(start, middle, *writer, unary(q as nat), bits_of(z as u64, k as nat));
    }
}

} // verus!
