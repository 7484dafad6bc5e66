//! The archive format: a compact little-endian header, then the compressed bits.
use vstd::prelude::*;

use crate::le::{
    le_bytes, le_value, lemma_le_bytes_len, lemma_le_ranges, lemma_le_round_trip, push_le,
};

verus! {

/// What an archive says of its contents.
#[derive(Debug)]
pub struct ArchiveHeader {
    pub sample_rate: u32,
    pub frame_size: u32,
    pub lpc_order: u8,
    pub total_frames: u32,
    pub data_size: u64,
}

/// "ACMP"
pub open spec fn archive_tag() -> Seq<u8> {
    seq![0x41u8, 0x43, 0x4D, 0x50]
}

/// The header's 26 bytes:
///
/// | bytes  | field                              |
/// |--------|------------------------------------|
/// | 0..4   | "ACMP"                             |
/// | 4      | version, 1                         |
/// | 5..9   | sample rate                        |
/// | 9..13  | frame size                         |
/// | 13     | prediction order                   |
/// | 14..18 | number of frames                   |
/// | 18..26 | size of the bit stream in bytes    |
pub open spec fn header_bytes(h: ArchiveHeader) -> Seq<u8> {
    archive_tag() + seq![1u8] + le_bytes(h.sample_rate as nat, 4) + le_bytes(h.frame_size as nat, 4)
        + seq![h.lpc_order] + le_bytes(h.total_frames as nat, 4) + le_bytes(h.data_size as nat, 8)
}

/// Where the fields of a header stand.
pub proof fn lemma_header_fields(h: ArchiveHeader)
    ensures
        header_bytes(h).len() == 26,
        header_bytes(h).subrange(0, 4) == archive_tag(),
        header_bytes(h)[4] == 1,
        le_value(header_bytes(h).subrange(5, 9)) == h.sample_rate,
        le_value(header_bytes(h).subrange(9, 13)) == h.frame_size,
        header_bytes(h)[13] == h.lpc_order,
        le_value(header_bytes(h).subrange(14, 18)) == h.total_frames,
        le_value(header_bytes(h).subrange(18, 26)) == h.data_size,
{
    lemma_le_ranges();
    lemma_le_bytes_len(h.sample_rate as nat, 4);
    lemma_le_bytes_len(h.frame_size as nat, 4);
    lemma_le_bytes_len(h.total_frames as nat, 4);
    lemma_le_bytes_len(h.data_size as nat, 8);
    lemma_le_round_trip(h.sample_rate as nat, 4);
    lemma_le_round_trip(h.frame_size as nat, 4);
    lemma_le_round_trip(h.total_frames as nat, 4);
    lemma_le_round_trip(h.data_size as nat, 8);
    let b = header_bytes(h);
    assert(b.subrange(0, 4) =~= archive_tag());
    assert(b.subrange(5, 9) =~= le_bytes(h.sample_rate as nat, 4));
    assert(b.subrange(9, 13) =~= le_bytes(h.frame_size as nat, 4));
    assert(b.subrange(14, 18) =~= le_bytes(h.total_frames as nat, 4));
    assert(b.subrange(18, 26) =~= le_bytes(h.data_size as nat, 8));
}

/// An archive holds all there is to restore: the header's fields stand at their places, and
/// the bit stream follows, as it was given.
pub proof fn law_archive_layout(h: ArchiveHeader, stream: Seq<u8>)
    ensures
        ({
            let b = header_bytes(h) + stream;
            &&& b.subrange(0, 4) == archive_tag()
            &&& b[4] == 1
            &&& le_value(b.subrange(5, 9)) == h.sample_rate
            &&& le_value(b.subrange(9, 13)) == h.frame_size
            &&& b[13] == h.lpc_order
            &&& le_value(b.subrange(14, 18)) == h.total_frames
            &&& le_value(b.subrange(18, 26)) == h.data_size
            &&& b.skip(26) == stream
        }),
{
    lemma_header_fields(h);
    let a = header_bytes(h);
    let b = a + stream;
    assert(b.subrange(0, 4) =~= a.subrange(0, 4));
    assert(b.subrange(5, 9) =~= a.subrange(5, 9));
    assert(b.subrange(9, 13) =~= a.subrange(9, 13));
    assert(b.subrange(14, 18) =~= a.subrange(14, 18));
    assert(b.subrange(18, 26) =~= a.subrange(18, 26));
    assert(b.skip(26) =~= stream);
}

/// Two archives with the same bytes have the same header and the same bit stream.
pub proof fn law_archive_is_unambiguous(g: ArchiveHeader, s: Seq<u8>, h: ArchiveHeader, t: Seq<u8>)
    requires
        header_bytes(g) + s == header_bytes(h) + t,
    ensures
        g == h,
        s == t,
{
    law_archive_layout(g, s);
    law_archive_layout(h, t);
}

/// Lays out a whole archive: the header, then the bit stream.
pub fn write_archive(header: &ArchiveHeader, bitstream: &[u8]) -> (out: Vec<u8>)
    ensures
        out@ == header_bytes(*header) + bitstream@,
{
    let mut out: Vec<u8> = Vec::new();
    out.push(0x41);
    out.push(0x43);
    out.push(0x4D);
    out.push(0x50);
    out.push(1);
    assert(out@ =~= archive_tag() + seq![1u8]);
    push_le(&mut out, header.sample_rate as u64, 4);
    push_le(&mut out, header.frame_size as u64, 4);
    let ghost before = out@;
    out.push(header.lpc_order);
    assert(out@ =~= before + seq![header.lpc_order]);
    push_le(&mut out, header.total_frames as u64, 4);
    push_le(&mut out, header.data_size, 8);
    let ghost head = out@;
    let n: usize = bitstream.len();
    let mut i: usize = 0;
    assert(out@ =~= head + bitstream@.take(0));
    while i < n
        invariant
            i <= n,
            n == bitstream@.len(),
            out@ == head + bitstream@.take(i as int),
        decreases n - i,
    {
        out.push(bitstream[i]);
        i = i + 1;
        assert(out@ =~= head + bitstream@.take(i as int));
    }
    assert(bitstream@.take(n as int) =~= bitstream@);
    out
}

} // verus!
