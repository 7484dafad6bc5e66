//! Reading bits back: a bit reader over a byte slice and the Golomb-Rice decoder.
use vstd::arithmetic::power2::{lemma2_to64, lemma_pow2_adds, lemma_pow2_pos, pow2};
use vstd::bits::{lemma_u64_pow2_no_overflow, lemma_u64_shl_is_mul};
use vstd::prelude::*;

use crate::bits::{bit, bytes_bits, unary};
use crate::code::{
    lemma_parse_value_is, lemma_parse_values_none, lemma_value_of_bound, lemma_value_of_push,
    opens_with_unary, parse_frame, parse_value, parse_values, unzigzags, value_of,
};
use crate::entropy::zigzag_decode;

verus! {

/// Reads a byte slice bit by bit, most significant bit first.
pub struct BitReader<'a> {
    data: &'a [u8],
    byte: usize,
    used: u8,
}

impl<'a> View for BitReader<'a> {
    type V = Seq<bool>;

    /// The bits that are still to be read.
    closed spec fn view(&self) -> Seq<bool> {
        bytes_bits(self.data@).skip(8 * self.byte + self.used)
    }
}

impl<'a> BitReader<'a> {
    /// The position is a bit of the slice, or its end.
    pub closed spec fn wf(&self) -> bool {
        &&& self.byte <= self.data@.len()
        &&& self.used < 8
        &&& self.byte == self.data@.len() ==> self.used == 0
    }

    /// A reader at the start of `data`.
    pub fn new(data: &'a [u8]) -> (r: Self)
        ensures
            r.wf(),
            r@ == bytes_bits(data@),
    {
        let r = BitReader { data, byte: 0, used: 0 };
        assert(r@ =~= bytes_bits(data@));
        r
    }

    /// The next bit, if there is one.
    fn next_bit(&mut self) -> (r: Option<bool>)
        requires
            old(self).wf(),
        ensures
            final(self).wf(),
            final(self).data == old(self).data,
            old(self)@.len() == 0 ==> r is None && final(self)@ == old(self)@,
            old(self)@.len() > 0 ==> r == Some(old(self)@[0]) && final(self)@ == old(self)@.skip(1),
    {
        if self.byte == self.data.len() {
            return None;
        }
        let ghost before = self@;
        let b: u8 = self.data[self.byte];
        let s: u8 = 7 - self.used;
        let set: bool = ((b as u64) >> s) & 1 == 1;
        assert(set == bit(b as u64, s as u64));
        assert(before[0] == set);
        if self.used == 7 {
            self.used = 0;
            self.byte = self.byte + 1;
        } else {
            self.used = self.used + 1;
        }
        assert(self@ =~= before.skip(1));
        Some(set)
    }

    /// Whether at least `count` bits are left.
    fn has_bits(&self, count: u8) -> (r: bool)
        requires
            self.wf(),
            count <= 64,
        ensures
            r == (self@.len() >= count),
    {
        let left: usize = self.data.len() - self.byte;
        left > 8 || left * 8 - self.used as usize >= count as usize
    }

    /// Reads `count` bits as a number. Reads nothing if fewer are left.
    pub fn read_bits(&mut self, count: u8) -> (r: Option<u64>)
        requires
            old(self).wf(),
            count <= 64,
        ensures
            final(self).wf(),
            old(self)@.len() < count ==> r is None && final(self)@ == old(self)@,
            old(self)@.len() >= count ==> {
                &&& r is Some
                &&& r->0 == value_of(old(self)@.take(count as int))
                &&& final(self)@ == old(self)@.skip(count as int)
            },
    {
        if !self.has_bits(count) {
            return None;
        }
        let mut v: u64 = 0;
        let mut i: u8 = 0;
        proof {
            assert(self@.take(0) =~= Seq::empty());
            assert(self@.skip(0) =~= self@);
        }
        while i < count
            invariant
                self.wf(),
                i <= count <= 64,
                old(self)@.len() >= count,
                self@ == old(self)@.skip(i as int),
                v == value_of(old(self)@.take(i as int)),
            decreases count - i,
        {
            proof {
                let prefix = old(self)@.take(i as int);
                lemma_value_of_bound(prefix);
                vstd::arithmetic::power2::lemma2_to64_rest();
                lemma_pow2_adds(i as nat, (63 - i) as nat);
                lemma_pow2_pos((63 - i) as nat);
                assert(pow2(i as nat) <= pow2(63)) by (nonlinear_arith)
                    requires
                        pow2(63) == pow2(i as nat) * pow2((63 - i) as nat),
                        pow2((63 - i) as nat) >= 1,
                ;
                lemma_value_of_push(prefix, old(self)@[i as int]);
                assert(prefix.push(old(self)@[i as int]) =~= old(self)@.take(i + 1));
            }
            let b: Option<bool> = self.next_bit();
            proof {
                assert(old(self)@.skip(i as int).skip(1) =~= old(self)@.skip(i + 1));
                assert(b == Some(old(self)@[i as int]));
            }
            v = 2 * v;
            if let Some(true) = b {
                v = v + 1;
            }
            i = i + 1;
        }
        Some(v)
    }

    /// Reads ones up to and including the next zero, and gives the number of ones. Reads
    /// nothing if there is no zero after at most `u32::MAX` ones.
    pub fn read_unary(&mut self) -> (r: Option<u32>)
        requires
            old(self).wf(),
        ensures
            final(self).wf(),
            r is None <==> forall|q: u32| !opens_with_unary(old(self)@, q as nat),
            r matches Some(q) ==> opens_with_unary(old(self)@, q as nat) && final(self)@ == old(
                self,
            )@.skip(q + 1),
            r is None ==> final(self)@ == old(self)@,
    {
        let byte: usize = self.byte;
        let used: u8 = self.used;
        let mut q: u32 = 0;
        assert(self@.skip(0) =~= self@);
        loop
            invariant
                self.wf(),
                self.data == old(self).data,
                old(self).wf(),
                byte == old(self).byte,
                used == old(self).used,
                q <= old(self)@.len(),
                self@ == old(self)@.skip(q as int),
                forall|i: int| 0 <= i < q ==> #[trigger] old(self)@[i],
            decreases u32::MAX - q,
        {
            let b: Option<bool> = self.next_bit();
            proof {
                if b is Some {
                    assert(old(self)@.skip(q as int).skip(1) =~= old(self)@.skip(q + 1));
                }
            }
            match b {
                Some(false) => {
                    assert(opens_with_unary(old(self)@, q as nat));
                    return Some(q);
                },
                Some(true) => {
                    if q == u32::MAX {
                        proof {
                            assert forall|p: u32| !opens_with_unary(old(self)@, p as nat) by {
                                if opens_with_unary(old(self)@, p as nat) {
                                    assert(unary(p as nat)[p as int] == old(self)@[p as int]);
                                }
                            }
                        }
                        self.byte = byte;
                        self.used = used;
                        return None;
                    }
                    q = q + 1;
                },
                None => {
                    proof {
                        assert forall|p: u32| !opens_with_unary(old(self)@, p as nat) by {
                            if opens_with_unary(old(self)@, p as nat) {
                                assert(unary(p as nat)[p as int] == old(self)@[p as int]);
                            }
                        }
                    }
                    self.byte = byte;
                    self.used = used;
                    return None;
                },
            }
        }
    }

    /// Reads one Golomb-Rice value. Reads nothing if the code is cut off.
    pub fn read_rice(&mut self, k: u8) -> (r: Option<u32>)
        requires
            old(self).wf(),
            k <= 31,
        ensures
            final(self).wf(),
            match parse_value(old(self)@, k as nat) {
                Some((z, rest)) => r == Some(z) && final(self)@ == rest,
                None => r is None && final(self)@ == old(self)@,
            },
    {
        let mut ahead = BitReader { data: self.data, byte: self.byte, used: self.used };
        let q: u32 = match ahead.read_unary() {
            Some(q) => q,
            None => {
                return None;
            },
        };
        let ghost after = ahead@;
        proof {
            lemma_parse_value_is(self@, k as nat, q);
            assert(self@.len() == after.len() + q + 1);
        }
        let rem: u64 = match ahead.read_bits(k) {
            Some(rem) => rem,
            None => {
                return None;
            },
        };
        proof {
            assert(self@.subrange(q + 1, q + 1 + k) =~= after.take(k as int));
            assert(self@.skip(q + 1 + k) =~= after.skip(k as int));
            lemma_value_of_bound(after.take(k as int));
            lemma_shift_and_fill(q, k, rem);
        }
        let z: u32 = (q << k) | (rem as u32);
        *self = ahead;
        Some(z)
    }

    /// Reads a frame of `count` residuals: the Rice parameter on five bits, then the values.
    /// Gives the parameter and the residuals; reads nothing if the frame is cut off.
    pub fn decode_frame(&mut self, count: usize) -> (r: Option<(u8, Vec<i32>)>)
        requires
            old(self).wf(),
        ensures
            final(self).wf(),
            match parse_frame(old(self)@, count as nat) {
                Some((k, zs, rest)) => {
                    &&& r is Some
                    &&& (r->0).0 == k
                    &&& (r->0).1@ == unzigzags(zs)
                    &&& final(self)@ == rest
                },
                None => r is None && final(self)@ == old(self)@,
            },
    {
        let mut ahead = BitReader { data: self.data, byte: self.byte, used: self.used };
        let k: u8 = match ahead.read_bits(5) {
            Some(v) => {
                proof {
                    lemma_value_of_bound(self@.take(5));
                    lemma2_to64();
                }
                v as u8
            },
            None => {
                return None;
            },
        };
        let ghost body = ahead@;
        let mut out: Vec<i32> = Vec::new();
        let mut i: usize = 0;
        let ghost mut zs: Seq<u32> = Seq::empty();
        while i < count
            invariant
                self.wf(),
                ahead.wf(),
                i <= count,
                k <= 31,
                self@.len() >= 5,
                k == value_of(self@.take(5)),
                body == self@.skip(5),
                self@ == old(self)@,
                parse_values(body, k as nat, i as nat) == Some((zs, ahead@)),
                out@ == unzigzags(zs),
            decreases count - i,
        {
            let z: u32 = match ahead.read_rice(k) {
                Some(z) => z,
                None => {
                    proof {
                        lemma_parse_values_none(body, k as nat, (i + 1) as nat, count as nat);
                    }
                    return None;
                },
            };
            out.push(zigzag_decode(z));
            proof {
                zs = zs.push(z);
                assert(out@ =~= unzigzags(zs));
            }
            i = i + 1;
        }
        *self = ahead;
        Some((k, out))
    }
}

/// A shift to the left drops what leaves the word, and an `or` fills the zeros it brings in.
proof fn lemma_shift_and_fill(q: u32, k: u8, rem: u64)
    requires
        k <= 31,
        rem < pow2(k as nat),
    ensures
        ((q << k) | (rem as u32)) as int == (q * pow2(k as nat)) % 0x1_0000_0000 + rem,
{
    let wide = (q as u64) << (k as u64);
    lemma_u64_pow2_no_overflow(k as nat);
    lemma_u64_shl_is_mul(1, k as u64);
    let p = 1u64 << (k as u64);
    assert(p == pow2(k as nat));
    lemma2_to64();
    lemma_pow2_adds(k as nat, (31 - k) as nat);
    lemma_pow2_pos((31 - k) as nat);
    assert(pow2(k as nat) <= 0x8000_0000) by (nonlinear_arith)
        requires
            pow2(31) == 0x8000_0000,
            pow2(31) == pow2(k as nat) * pow2((31 - k) as nat),
            pow2((31 - k) as nat) >= 1,
    ;
    assert(q * pow2(k as nat) <= 0xFFFF_FFFF * 0x8000_0000) by (nonlinear_arith)
        requires
            0 <= q <= 0xFFFF_FFFF,
            0 <= pow2(k as nat) <= 0x8000_0000,
    ;
    lemma_u64_shl_is_mul(q as u64, k as u64);
    assert(((q << k) | (rem as u32)) as u64 == wide % 0x1_0000_0000 + rem) by (bit_vector)
        requires
            k <= 31,
            wide == (q as u64) << (k as u64),
            p == 1u64 << (k as u64),
            rem < p,
    ;
}

} // verus!
