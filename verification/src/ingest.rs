//! Ingestion of WAV files: the RIFF header, the audio bytes as typed samples, and framing.
use vstd::prelude::*;
use vstd::slice::slice_subrange;

use crate::le::{
    law_signed_words, le_bytes, le_value, lemma_le_bytes_len, lemma_le_ranges,
    lemma_le_round_trip, lemma_le_value_bound, read_le, signed, to_signed,
};

verus! {

/// Why a WAV file was not accepted.
#[derive(Debug)]
pub enum IngestError {
    /// The RIFF or WAVE magic bytes are missing.
    NotWave,
    /// A format tag other than 1 (PCM) and 3 (IEEE float).
    UnsupportedFormat(u16),
    /// A sample width that does not go with the format tag.
    UnsupportedBitsPerSample(u16),
    /// The file ends before what its header announces.
    Truncated { expected: usize, actual: usize },
    /// No format chunk, or no data chunk.
    DataChunkNotFound,
}

/// Integer samples.
pub const WAV_FORMAT_PCM: u16 = 1;

/// IEEE 754 samples.
pub const WAV_FORMAT_IEEE_FLOAT: u16 = 3;

/// What the chunks of a WAV file say of its audio.
#[derive(Debug, Clone, Copy)]
pub struct WavHeader {
    pub format_tag: u16,
    pub channels: u16,
    pub sample_rate: u32,
    pub bits_per_sample: u16,
    /// Byte offset of the audio data (the payload of the data chunk).
    pub data_offset: usize,
    /// Size in bytes of the audio data.
    pub data_size: usize,
}

// ---- The file format ----

/// `x`, or the largest `usize` where `x` is larger.
pub open spec fn clamp(x: int) -> usize {
    if x > usize::MAX {
        usize::MAX
    } else {
        x as usize
    }
}

/// "RIFF"
pub open spec fn riff_tag() -> Seq<u8> {
    seq![0x52u8, 0x49, 0x46, 0x46]
}

/// "WAVE"
pub open spec fn wave_tag() -> Seq<u8> {
    seq![0x57u8, 0x41, 0x56, 0x45]
}

/// "fmt "
pub open spec fn fmt_tag() -> Seq<u8> {
    seq![0x66u8, 0x6D, 0x74, 0x20]
}

/// "data"
pub open spec fn data_tag() -> Seq<u8> {
    seq![0x64u8, 0x61, 0x74, 0x61]
}

/// The little-endian number in the `n` bytes at `p`.
pub open spec fn number_at(b: Seq<u8>, p: int, n: int) -> nat {
    le_value(b.subrange(p, p + n))
}

/// The four-byte name of the chunk at `p`.
pub open spec fn chunk_id(b: Seq<u8>, p: int) -> Seq<u8> {
    b.subrange(p, p + 4)
}

/// The payload size of the chunk at `p`.
pub open spec fn chunk_size(b: Seq<u8>, p: int) -> nat {
    number_at(b, p + 4, 4)
}

/// Where the chunk after the one at `p` starts: payloads are padded to an even size.
pub open spec fn next_chunk(b: Seq<u8>, p: int) -> int {
    p + 8 + chunk_size(b, p) + chunk_size(b, p) % 2
}

/// Where the chunks from `p` on start: all those whose name and size lie in the file.
pub open spec fn chunk_positions(b: Seq<u8>, p: int) -> Seq<int>
    decreases
            (if p <= b.len() {
                b.len() - p + 1
            } else {
                0
            }),
{
    if p + 8 > b.len() {
        Seq::empty()
    } else {
        seq![p] + chunk_positions(b, next_chunk(b, p))
    }
}

/// The last of the chunks `ps` that has this name.
pub open spec fn last_chunk(b: Seq<u8>, ps: Seq<int>, id: Seq<u8>) -> Option<int>
    decreases ps.len(),
{
    if ps.len() == 0 {
        None
    } else if chunk_id(b, ps.last()) == id {
        Some(ps.last())
    } else {
        last_chunk(b, ps.drop_last(), id)
    }
}

/// A format chunk at `p` whose 16 bytes are not all in the file.
pub open spec fn is_cut_format(b: Seq<u8>, p: int) -> bool {
    chunk_id(b, p) == fmt_tag() && p + 24 > b.len()
}

/// The first of the chunks `ps` that is a format chunk cut short.
pub open spec fn first_cut_format(b: Seq<u8>, ps: Seq<int>) -> Option<int>
    decreases ps.len(),
{
    if ps.len() == 0 {
        None
    } else {
        match first_cut_format(b, ps.drop_last()) {
            Some(p) => Some(p),
            None => if is_cut_format(b, ps.last()) {
                Some(ps.last())
            } else {
                None
            },
        }
    }
}

/// The header given by the format chunk at `f` and the data chunk at `d`.
pub open spec fn header_at(b: Seq<u8>, f: int, d: int) -> WavHeader {
    WavHeader {
        format_tag: number_at(b, f + 8, 2) as u16,
        channels: number_at(b, f + 10, 2) as u16,
        sample_rate: number_at(b, f + 12, 4) as u32,
        bits_per_sample: number_at(b, f + 22, 2) as u16,
        data_offset: (d + 8) as usize,
        data_size: chunk_size(b, d) as usize,
    }
}

/// What a WAV file's chunks say. The last format chunk and the last data chunk count.
pub open spec fn wav_header(b: Seq<u8>) -> Result<WavHeader, IngestError> {
    if b.len() < 12 {
        Err(IngestError::Truncated { expected: 12, actual: b.len() as usize })
    } else if b.subrange(0, 4) != riff_tag() || b.subrange(8, 12) != wave_tag() {
        Err(IngestError::NotWave)
    } else {
        let ps = chunk_positions(b, 12);
        match first_cut_format(b, ps) {
            Some(p) => Err(
                IngestError::Truncated { expected: clamp(p + 24), actual: b.len() as usize },
            ),
            None => match (last_chunk(b, ps, fmt_tag()), last_chunk(b, ps, data_tag())) {
                (Some(f), Some(d)) => Ok(header_at(b, f, d)),
                _ => Err(IngestError::DataChunkNotFound),
            },
        }
    }
}

/// The header of a WAV file that can be read: its audio lies in the file, and is 16-bit PCM
/// or 32-bit IEEE float.
pub open spec fn readable_header(b: Seq<u8>) -> Result<WavHeader, IngestError> {
    match wav_header(b) {
        Err(e) => Err(e),
        Ok(h) => if h.data_offset + h.data_size > b.len() {
            Err(
                IngestError::Truncated {
                    expected: clamp(h.data_offset + h.data_size),
                    actual: b.len() as usize,
                },
            )
        } else if h.format_tag == WAV_FORMAT_PCM && h.bits_per_sample != 16 {
            Err(IngestError::UnsupportedBitsPerSample(h.bits_per_sample))
        } else if h.format_tag == WAV_FORMAT_IEEE_FLOAT && h.bits_per_sample != 32 {
            Err(IngestError::UnsupportedBitsPerSample(h.bits_per_sample))
        } else if h.format_tag != WAV_FORMAT_PCM && h.format_tag != WAV_FORMAT_IEEE_FLOAT {
            Err(IngestError::UnsupportedFormat(h.format_tag))
        } else {
            Ok(h)
        },
    }
}

// ---- Facts about the chunk walk ----

/// A chunk found by the walk from an even position is at an even position inside the file.
proof fn lemma_chunk_positions(b: Seq<u8>, p: int)
    requires
        p >= 0,
        p % 2 == 0,
    ensures
        forall|i: int|
            0 <= i < chunk_positions(b, p).len() ==> {
                let q = #[trigger] chunk_positions(b, p)[i];
                p <= q && q + 8 <= b.len() && q % 2 == 0
            },
    decreases
            (if p <= b.len() {
                b.len() - p + 1
            } else {
                0
            }),
{
    if p + 8 <= b.len() {
        let rest = chunk_positions(b, next_chunk(b, p));
        lemma_chunk_positions(b, next_chunk(b, p));
        assert forall|i: int| 0 <= i < chunk_positions(b, p).len() implies {
            let q = #[trigger] chunk_positions(b, p)[i];
            p <= q && q + 8 <= b.len() && q % 2 == 0
        } by {
            if i > 0 {
                assert(chunk_positions(b, p)[i] == rest[i - 1]);
            }
        }
    }
}

proof fn lemma_last_chunk_in(b: Seq<u8>, ps: Seq<int>, id: Seq<u8>)
    ensures
        last_chunk(b, ps, id) matches Some(p) ==> ps.contains(p) && chunk_id(b, p) == id,
    decreases ps.len(),
{
    if ps.len() > 0 {
        lemma_last_chunk_in(b, ps.drop_last(), id);
        assert(ps.contains(ps.last()));
        assert forall|p: int| ps.drop_last().contains(p) implies ps.contains(p) by {
            let i = choose|i: int| 0 <= i < ps.drop_last().len() && ps.drop_last()[i] == p;
            assert(ps[i] == p);
        }
    }
}

proof fn lemma_first_cut_format_in(b: Seq<u8>, ps: Seq<int>)
    ensures
        first_cut_format(b, ps) matches Some(p) ==> ps.contains(p),
    decreases ps.len(),
{
    if ps.len() > 0 {
        lemma_first_cut_format_in(b, ps.drop_last());
        assert(ps.contains(ps.last()));
        assert forall|p: int| ps.drop_last().contains(p) implies ps.contains(p) by {
            let i = choose|i: int| 0 <= i < ps.drop_last().len() && ps.drop_last()[i] == p;
            assert(ps[i] == p);
        }
    }
}

/// The first cut format chunk stays the first one, whatever chunks follow.
proof fn lemma_first_cut_format_stays(b: Seq<u8>, ps: Seq<int>, more: Seq<int>)
    requires
        first_cut_format(b, ps) is Some,
    ensures
        first_cut_format(b, ps + more) == first_cut_format(b, ps),
    decreases more.len(),
{
    if more.len() > 0 {
        lemma_first_cut_format_stays(b, ps, more.drop_last());
        assert((ps + more).drop_last() =~= ps + more.drop_last());
    } else {
        assert(ps + more =~= ps);
    }
}

/// Audio data always starts at an even offset inside the file, so 16-bit samples in a file
/// that is mapped at an even address are aligned.
pub proof fn law_data_offset_is_even(b: Seq<u8>)
    requires
        wav_header(b) is Ok,
        b.len() <= usize::MAX,
    ensures
        wav_header(b)->Ok_0.data_offset % 2 == 0,
        20 <= wav_header(b)->Ok_0.data_offset <= b.len(),
{
    let ps = chunk_positions(b, 12);
    lemma_chunk_positions(b, 12);
    lemma_last_chunk_in(b, ps, data_tag());
    let d = last_chunk(b, ps, data_tag())->0;
    let i = choose|i: int| 0 <= i < ps.len() && ps[i] == d;
    assert(chunk_positions(b, 12)[i] == d);
}

/// The same positions, `by` bytes further on.
spec fn shifted(ps: Seq<int>, by: int) -> Seq<int> {
    Seq::new(ps.len(), |i: int| ps[i] + by)
}

/// Bytes put in front move the chunks and change nothing else of them.
proof fn lemma_chunk_shift(pre: Seq<u8>, t: Seq<u8>, p: int)
    requires
        0 <= p,
        p + 8 <= t.len(),
    ensures
        chunk_id(pre + t, pre.len() + p) == chunk_id(t, p),
        chunk_size(pre + t, pre.len() + p) == chunk_size(t, p),
{
    let b = pre + t;
    let q = pre.len() + p;
    assert(b.subrange(q, q + 4) =~= t.subrange(p, p + 4));
    assert(b.subrange(q + 4, q + 8) =~= t.subrange(p + 4, p + 8));
}

proof fn lemma_positions_shift(pre: Seq<u8>, t: Seq<u8>, p: int)
    requires
        0 <= p,
    ensures
        chunk_positions(pre + t, pre.len() + p) == shifted(chunk_positions(t, p), pre.len() as int),
    decreases
            (if p <= t.len() {
                t.len() - p + 1
            } else {
                0
            }),
{
    let b = pre + t;
    let q = pre.len() + p;
    if p + 8 <= t.len() {
        lemma_chunk_shift(pre, t, p);
        lemma_positions_shift(pre, t, next_chunk(t, p));
        assert(next_chunk(b, q) == pre.len() + next_chunk(t, p));
    }
    assert(chunk_positions(b, q) =~= shifted(chunk_positions(t, p), pre.len() as int));
}

proof fn lemma_search_shift(pre: Seq<u8>, t: Seq<u8>, ps: Seq<int>, id: Seq<u8>)
    requires
        forall|i: int| 0 <= i < ps.len() ==> 0 <= #[trigger] ps[i] && ps[i] + 8 <= t.len(),
    ensures
        last_chunk(pre + t, shifted(ps, pre.len() as int), id) == match last_chunk(t, ps, id) {
            Some(p) => Some(pre.len() + p),
            None => None,
        },
        first_cut_format(pre + t, shifted(ps, pre.len() as int)) == match first_cut_format(t, ps) {
            Some(p) => Some(pre.len() + p),
            None => None,
        },
    decreases ps.len(),
{
    let qs = shifted(ps, pre.len() as int);
    if ps.len() > 0 {
        let init = ps.drop_last();
        assert forall|i: int| 0 <= i < init.len() implies 0 <= #[trigger] init[i] && init[i] + 8
            <= t.len() by {
            assert(init[i] == ps[i]);
        }
        lemma_search_shift(pre, t, init, id);
        assert(qs.drop_last() =~= shifted(init, pre.len() as int));
        assert(0 <= ps[ps.len() - 1]);
        lemma_chunk_shift(pre, t, ps.last());
    }
}

/// A chunk in front is found where no later one is, and cut format chunks are found in order.
proof fn lemma_search_front(b: Seq<u8>, p: int, ps: Seq<int>, id: Seq<u8>)
    ensures
        last_chunk(b, seq![p] + ps, id) == match last_chunk(b, ps, id) {
            Some(q) => Some(q),
            None => if chunk_id(b, p) == id {
                Some(p)
            } else {
                None
            },
        },
        first_cut_format(b, seq![p] + ps) == if is_cut_format(b, p) {
            Some(p)
        } else {
            first_cut_format(b, ps)
        },
    decreases ps.len(),
{
    let qs = seq![p] + ps;
    if ps.len() > 0 {
        lemma_search_front(b, p, ps.drop_last(), id);
        assert(qs.drop_last() =~= seq![p] + ps.drop_last());
        assert(qs.last() == ps.last());
    } else {
        assert(qs.drop_last() =~= Seq::empty());
        assert(ps =~= Seq::empty());
        assert(qs.last() == p);
        assert(last_chunk(b, qs.drop_last(), id) is None);
        assert(first_cut_format(b, qs.drop_last()) is None);
    }
}

/// A chunk in front that is neither format nor data is not found.
proof fn lemma_search_skips(b: Seq<u8>, p: int, ps: Seq<int>, id: Seq<u8>)
    requires
        chunk_id(b, p) != id,
        chunk_id(b, p) != fmt_tag(),
    ensures
        last_chunk(b, seq![p] + ps, id) == last_chunk(b, ps, id),
        first_cut_format(b, seq![p] + ps) == first_cut_format(b, ps),
{
    lemma_search_front(b, p, ps, id);
}

/// What a chunk walk finds in `t`: the header whose offset counts from the start of `t`.
spec fn walk_result(t: Seq<u8>, by: int, total: int) -> Result<WavHeader, IngestError> {
    let ps = chunk_positions(t, 0);
    match first_cut_format(t, ps) {
        Some(p) => Err(
            IngestError::Truncated { expected: clamp(by + p + 24), actual: total as usize },
        ),
        None => match (last_chunk(t, ps, fmt_tag()), last_chunk(t, ps, data_tag())) {
            (Some(f), Some(d)) => {
                let h = header_at(t, f, d);
                Ok(WavHeader { data_offset: (by + d + 8) as usize, ..h })
            },
            _ => Err(IngestError::DataChunkNotFound),
        },
    }
}

proof fn lemma_walk_is_relative(pre: Seq<u8>, t: Seq<u8>)
    requires
        pre.len() >= 12,
    ensures
        ({
            let b = pre + t;
            let ps = chunk_positions(b, pre.len() as int);
            walk_result(t, pre.len() as int, b.len() as int) == match first_cut_format(b, ps) {
                Some(p) => Err(
                    IngestError::Truncated { expected: clamp(p + 24), actual: b.len() as usize },
                ),
                None => match (last_chunk(b, ps, fmt_tag()), last_chunk(b, ps, data_tag())) {
                    (Some(f), Some(d)) => Ok(header_at(b, f, d)),
                    _ => Err(IngestError::DataChunkNotFound),
                },
            }
        }),
{
    let b = pre + t;
    let ps = chunk_positions(t, 0);
    lemma_positions_shift(pre, t, 0);
    lemma_chunk_positions(t, 0);
    lemma_search_shift(pre, t, ps, fmt_tag());
    lemma_search_shift(pre, t, ps, data_tag());
    if first_cut_format(t, ps) is None {
        if let (Some(f), Some(d)) = (
            last_chunk(t, ps, fmt_tag()),
            last_chunk(t, ps, data_tag()),
        ) {
            let n = pre.len() as int;
            lemma_last_chunk_in(t, ps, fmt_tag());
            lemma_last_chunk_in(t, ps, data_tag());
            lemma_no_cut_format(t, ps, f);
            let i = choose|i: int| 0 <= i < ps.len() && ps[i] == f;
            let j = choose|j: int| 0 <= j < ps.len() && ps[j] == d;
            assert(0 <= f && 0 <= d && d + 8 <= t.len());
            assert(b.subrange(n + f + 8, n + f + 10) =~= t.subrange(f + 8, f + 10));
            assert(b.subrange(n + f + 10, n + f + 12) =~= t.subrange(f + 10, f + 12));
            assert(b.subrange(n + f + 12, n + f + 16) =~= t.subrange(f + 12, f + 16));
            assert(b.subrange(n + f + 22, n + f + 24) =~= t.subrange(f + 22, f + 24));
            lemma_chunk_shift(pre, t, d);
        }
    }
}

/// Where no format chunk is cut short, each has its 16 bytes in the file.
proof fn lemma_no_cut_format(b: Seq<u8>, ps: Seq<int>, f: int)
    requires
        first_cut_format(b, ps) is None,
        ps.contains(f),
        chunk_id(b, f) == fmt_tag(),
    ensures
        f + 24 <= b.len(),
    decreases ps.len(),
{
    if f != ps.last() {
        let i = choose|i: int| 0 <= i < ps.len() && ps[i] == f;
        assert(ps.drop_last()[i] == f);
        lemma_no_cut_format(b, ps.drop_last(), f);
    }
}

/// A chunk: its name, its size, its payload, and the byte `pad` where the payload is odd.
pub open spec fn chunk_bytes(id: Seq<u8>, body: Seq<u8>, pad: u8) -> Seq<u8> {
    id + le_bytes(body.len(), 4) + body + if body.len() % 2 == 0 {
        Seq::<u8>::empty()
    } else {
        seq![pad]
    }
}

/// The header of a file is what the walk over the bytes after its first twelve finds.
proof fn lemma_header_by_walk(b: Seq<u8>)
    requires
        b.len() >= 12,
        b.subrange(0, 4) == riff_tag(),
        b.subrange(8, 12) == wave_tag(),
    ensures
        wav_header(b) == walk_result(b.skip(12), 12, b.len() as int),
{
    assert(b =~= b.take(12) + b.skip(12));
    lemma_walk_is_relative(b.take(12), b.skip(12));
}

/// So is that of a file with one more chunk in front that is neither format nor data.
proof fn lemma_header_behind_chunk(
    head: Seq<u8>,
    id: Seq<u8>,
    body: Seq<u8>,
    pad: u8,
    t: Seq<u8>,
)
    requires
        head.len() == 12,
        head.subrange(0, 4) == riff_tag(),
        head.subrange(8, 12) == wave_tag(),
        id.len() == 4,
        id != fmt_tag(),
        id != data_tag(),
        body.len() <= u32::MAX,
    ensures
        ({
            let longer = head + chunk_bytes(id, body, pad) + t;
            wav_header(longer) == walk_result(
                t,
                12int + chunk_bytes(id, body, pad).len(),
                longer.len() as int,
            )
        }),
{
    lemma_le_ranges();
    lemma_le_bytes_len(body.len(), 4);
    lemma_le_round_trip(body.len(), 4);
    let chunk = chunk_bytes(id, body, pad);
    let pre = head + chunk;
    let longer = pre + t;
    assert(longer.subrange(0, 4) =~= head.subrange(0, 4));
    assert(longer.subrange(8, 12) =~= head.subrange(8, 12));
    assert(longer.subrange(12, 16) =~= id);
    assert(longer.subrange(16, 20) =~= le_bytes(body.len(), 4));
    assert(next_chunk(longer, 12) == pre.len());
    let rest = chunk_positions(longer, pre.len() as int);
    assert(chunk_positions(longer, 12) == seq![12int] + rest);
    lemma_search_skips(longer, 12, rest, data_tag());
    lemma_search_skips(longer, 12, rest, fmt_tag());
    lemma_walk_is_relative(pre, t);
}

/// How far from the start of the file the walk begins shows in offsets and sizes alone.
proof fn lemma_walk_moves(t: Seq<u8>, by: int, total: int, c: int)
    requires
        by >= 0,
        c >= 0,
        by + t.len() <= total,
        total + c <= usize::MAX,
    ensures
        match walk_result(t, by, total) {
            Ok(h) => walk_result(t, by + c, total + c) == Ok::<WavHeader, IngestError>(
                WavHeader { data_offset: (h.data_offset + c) as usize, ..h },
            ),
            Err(IngestError::Truncated { expected, actual }) => walk_result(t, by + c, total + c)
                == Err::<WavHeader, IngestError>(
                IngestError::Truncated {
                    expected: clamp(expected + c),
                    actual: (actual + c) as usize,
                },
            ),
            Err(e) => walk_result(t, by + c, total + c) == Err::<WavHeader, IngestError>(e),
        },
{
    let ps = chunk_positions(t, 0);
    lemma_chunk_positions(t, 0);
    lemma_last_chunk_in(t, ps, data_tag());
    lemma_first_cut_format_in(t, ps);
    if let Some(d) = last_chunk(t, ps, data_tag()) {
        let i = choose|i: int| 0 <= i < ps.len() && ps[i] == d;
        assert(0 <= ps[i] && ps[i] + 8 <= t.len());
    }
    if let Some(p) = first_cut_format(t, ps) {
        let i = choose|i: int| 0 <= i < ps.len() && ps[i] == p;
        assert(0 <= ps[i] && ps[i] + 8 <= t.len());
    }
}

/// Chunks other than format and data are skipped: one put in front of the others changes
/// nothing but the offset of the data, and the sizes that an error reports, by its length;
/// the byte that pads it may be any.
pub proof fn law_unknown_chunk_is_skipped(b: Seq<u8>, id: Seq<u8>, body: Seq<u8>, pad: u8)
    requires
        b.len() >= 12,
        id.len() == 4,
        id != fmt_tag(),
        id != data_tag(),
        body.len() <= u32::MAX,
        b.len() + chunk_bytes(id, body, pad).len() <= usize::MAX,
    ensures
        ({
            let c = chunk_bytes(id, body, pad).len();
            let longer = b.take(12) + chunk_bytes(id, body, pad) + b.skip(12);
            match wav_header(b) {
                Ok(h) => wav_header(longer) == Ok::<WavHeader, IngestError>(
                    WavHeader { data_offset: (h.data_offset + c) as usize, ..h },
                ),
                Err(IngestError::Truncated { expected, actual }) => wav_header(longer) == Err::<
                    WavHeader,
                    IngestError,
                >(
                    IngestError::Truncated {
                        expected: clamp(expected + c),
                        actual: (actual + c) as usize,
                    },
                ),
                Err(e) => wav_header(longer) == Err::<WavHeader, IngestError>(e),
            }
        }),
{
    let head = b.take(12);
    let t = b.skip(12);
    let longer = head + chunk_bytes(id, body, pad) + t;
    assert(head.subrange(0, 4) =~= b.subrange(0, 4));
    assert(head.subrange(8, 12) =~= b.subrange(8, 12));
    if head.subrange(0, 4) == riff_tag() && head.subrange(8, 12) == wave_tag() {
        lemma_header_by_walk(b);
        lemma_header_behind_chunk(head, id, body, pad, t);
        lemma_walk_moves(t, 12, b.len() as int, chunk_bytes(id, body, pad).len() as int);
    } else {
        assert(longer.subrange(0, 4) =~= head.subrange(0, 4));
        assert(longer.subrange(8, 12) =~= head.subrange(8, 12));
    }
}

/// What a file says whose first chunk is the format `body`, followed by `t`.
spec fn after_format(body: Seq<u8>, t: Seq<u8>, by: int, total: int) -> Result<
    WavHeader,
    IngestError,
> {
    let ps = chunk_positions(t, 0);
    match (first_cut_format(t, ps), last_chunk(t, ps, fmt_tag()), last_chunk(t, ps, data_tag())) {
        (None, None, Some(d)) => Ok(
            WavHeader {
                format_tag: number_at(body, 0, 2) as u16,
                channels: number_at(body, 2, 2) as u16,
                sample_rate: number_at(body, 4, 4) as u32,
                bits_per_sample: number_at(body, 14, 2) as u16,
                data_offset: (by + d + 8) as usize,
                data_size: chunk_size(t, d) as usize,
            },
        ),
        _ => walk_result(t, by, total),
    }
}

proof fn lemma_header_after_format(head: Seq<u8>, body: Seq<u8>, pad: u8, t: Seq<u8>)
    requires
        head.len() == 12,
        head.subrange(0, 4) == riff_tag(),
        head.subrange(8, 12) == wave_tag(),
        16 <= body.len() <= u32::MAX,
    ensures
        ({
            let b = head + chunk_bytes(fmt_tag(), body, pad) + t;
            wav_header(b) == after_format(
                body,
                t,
                12int + chunk_bytes(fmt_tag(), body, pad).len(),
                b.len() as int,
            )
        }),
{
    lemma_le_ranges();
    lemma_le_bytes_len(body.len(), 4);
    lemma_le_round_trip(body.len(), 4);
    let chunk = chunk_bytes(fmt_tag(), body, pad);
    let pre = head + chunk;
    let b = pre + t;
    let n = pre.len() as int;
    assert(b.subrange(0, 4) =~= head.subrange(0, 4));
    assert(b.subrange(8, 12) =~= head.subrange(8, 12));
    assert(b.subrange(12, 16) =~= fmt_tag());
    assert(b.subrange(16, 20) =~= le_bytes(body.len(), 4));
    assert(next_chunk(b, 12) == n);
    let rest = chunk_positions(b, n);
    assert(chunk_positions(b, 12) == seq![12int] + rest);
    assert(fmt_tag()[0] != data_tag()[0]);
    lemma_search_front(b, 12, rest, data_tag());
    lemma_search_front(b, 12, rest, fmt_tag());
    lemma_walk_is_relative(pre, t);
    lemma_positions_shift(pre, t, 0);
    lemma_chunk_positions(t, 0);
    let ps = chunk_positions(t, 0);
    lemma_search_shift(pre, t, ps, fmt_tag());
    lemma_search_shift(pre, t, ps, data_tag());
    assert(b.subrange(20, 22) =~= body.subrange(0, 2));
    assert(b.subrange(22, 24) =~= body.subrange(2, 4));
    assert(b.subrange(24, 28) =~= body.subrange(4, 8));
    assert(b.subrange(34, 36) =~= body.subrange(14, 16));
    if let Some(d) = last_chunk(t, ps, data_tag()) {
        lemma_last_chunk_in(t, ps, data_tag());
        let j = choose|j: int| 0 <= j < ps.len() && ps[j] == d;
        assert(0 <= ps[j] && ps[j] + 8 <= t.len());
        lemma_chunk_shift(pre, t, d);
    }
}

proof fn lemma_after_format_moves(body: Seq<u8>, t: Seq<u8>, by: int, total: int, c: int)
    requires
        by >= 0,
        c >= 0,
        by + t.len() <= total,
        total + c <= usize::MAX,
    ensures
        match after_format(body, t, by, total) {
            Ok(h) => after_format(body, t, by + c, total + c) == Ok::<WavHeader, IngestError>(
                WavHeader { data_offset: (h.data_offset + c) as usize, ..h },
            ),
            Err(IngestError::Truncated { expected, actual }) => after_format(
                body,
                t,
                by + c,
                total + c,
            ) == Err::<WavHeader, IngestError>(
                IngestError::Truncated {
                    expected: clamp(expected + c),
                    actual: (actual + c) as usize,
                },
            ),
            Err(e) => after_format(body, t, by + c, total + c) == Err::<WavHeader, IngestError>(e),
        },
{
    let ps = chunk_positions(t, 0);
    lemma_walk_moves(t, by, total, c);
    lemma_chunk_positions(t, 0);
    lemma_last_chunk_in(t, ps, data_tag());
    if let Some(d) = last_chunk(t, ps, data_tag()) {
        let i = choose|i: int| 0 <= i < ps.len() && ps[i] == d;
        assert(0 <= ps[i] && ps[i] + 8 <= t.len());
    }
}

/// Only the first 16 bytes of a format chunk count, and the walk goes on behind all it has: bytes
/// added to its end change nothing but the offset of the data, and the sizes that an error
/// reports, by what they lengthen the file.
pub proof fn law_format_extension_is_skipped(
    head: Seq<u8>,
    body: Seq<u8>,
    pad: u8,
    ext: Seq<u8>,
    other_pad: u8,
    t: Seq<u8>,
)
    requires
        head.len() == 12,
        16 <= body.len(),
        body.len() + ext.len() <= u32::MAX,
        12 + chunk_bytes(fmt_tag(), body + ext, other_pad).len() + t.len() <= usize::MAX,
    ensures
        ({
            let b = head + chunk_bytes(fmt_tag(), body, pad) + t;
            let longer = head + chunk_bytes(fmt_tag(), body + ext, other_pad) + t;
            let c = longer.len() - b.len();
            &&& c == ext.len() + (body.len() + ext.len()) % 2 - body.len() % 2
            &&& match wav_header(b) {
                Ok(h) => wav_header(longer) == Ok::<WavHeader, IngestError>(
                    WavHeader { data_offset: (h.data_offset + c) as usize, ..h },
                ),
                Err(IngestError::Truncated { expected, actual }) => wav_header(longer) == Err::<
                    WavHeader,
                    IngestError,
                >(
                    IngestError::Truncated {
                        expected: clamp(expected + c),
                        actual: (actual + c) as usize,
                    },
                ),
                Err(e) => wav_header(longer) == Err::<WavHeader, IngestError>(e),
            }
        }),
{
    let longer_body = body + ext;
    let chunk = chunk_bytes(fmt_tag(), body, pad);
    let b = head + chunk + t;
    let longer = head + chunk_bytes(fmt_tag(), longer_body, other_pad) + t;
    lemma_le_bytes_len(body.len(), 4);
    lemma_le_bytes_len(longer_body.len(), 4);
    let c = longer.len() - b.len();
    assert(b.subrange(0, 4) =~= head.subrange(0, 4));
    assert(b.subrange(8, 12) =~= head.subrange(8, 12));
    assert(longer.subrange(0, 4) =~= head.subrange(0, 4));
    assert(longer.subrange(8, 12) =~= head.subrange(8, 12));
    if head.subrange(0, 4) == riff_tag() && head.subrange(8, 12) == wave_tag() {
        lemma_header_after_format(head, body, pad, t);
        lemma_header_after_format(head, longer_body, other_pad, t);
        lemma_after_format_moves(body, t, 12int + chunk.len(), b.len() as int, c);
        assert(longer_body.subrange(0, 2) =~= body.subrange(0, 2));
        assert(longer_body.subrange(2, 4) =~= body.subrange(2, 4));
        assert(longer_body.subrange(4, 8) =~= body.subrange(4, 8));
        assert(longer_body.subrange(14, 16) =~= body.subrange(14, 16));
    }
}

// ---- What a file says, in full ----

/// The chunks of a file: the first starts at byte 12, each further one behind the announced size
/// of the one before it, rounded up to an even number, and all whose eight bytes of name and
/// size lie in the file are found.
pub proof fn law_chunk_positions(b: Seq<u8>, i: int)
    requires
        b.len() >= 12,
    ensures
        ({
            let ps = chunk_positions(b, 12);
            let size = le_value(b.subrange(ps[i] + 4, ps[i] + 8));
            let next = ps[i] + 8 + size + size % 2;
            &&& ps.len() > 0 <==> b.len() >= 20
            &&& ps.len() > 0 ==> ps[0] == 12
            &&& 0 <= i < ps.len() ==> ps[i] + 8 <= b.len()
            &&& 0 <= i < ps.len() - 1 ==> ps[i + 1] == next
            &&& i == ps.len() - 1 && i >= 0 ==> next + 8 > b.len()
        }),
{
    lemma_walk_steps(b, 12, i);
}

proof fn lemma_walk_steps(b: Seq<u8>, p: int, i: int)
    requires
        p >= 0,
    ensures
        ({
            let ps = chunk_positions(b, p);
            let size = le_value(b.subrange(ps[i] + 4, ps[i] + 8));
            let next = ps[i] + 8 + size + size % 2;
            &&& ps.len() > 0 <==> p + 8 <= b.len()
            &&& ps.len() > 0 ==> ps[0] == p
            &&& 0 <= i < ps.len() ==> ps[i] + 8 <= b.len()
            &&& 0 <= i < ps.len() - 1 ==> ps[i + 1] == next
            &&& i == ps.len() - 1 && i >= 0 ==> next + 8 > b.len()
        }),
    decreases
            (if p <= b.len() {
                b.len() - p + 1
            } else {
                0
            }),
{
    if p + 8 <= b.len() {
        let q = next_chunk(b, p);
        let ps = chunk_positions(b, p);
        let rest = chunk_positions(b, q);
        assert(ps == seq![p] + rest);
        lemma_walk_steps(b, q, i - 1);
        if 0 < i < ps.len() {
            assert(ps[i] == rest[i - 1]);
            if i < ps.len() - 1 {
                assert(ps[i + 1] == rest[i]);
            }
        } else if i == 0 && ps.len() > 1 {
            assert(ps[1] == rest[0]);
        }
    }
}

/// A file is too short, or no WAVE file, or one: its first twelve bytes tell.
pub proof fn law_wave_magic(b: Seq<u8>)
    requires
        b.len() <= usize::MAX,
    ensures
        b.len() < 12 ==> wav_header(b) == Err::<WavHeader, IngestError>(
            IngestError::Truncated { expected: 12, actual: b.len() as usize },
        ),
        b.len() >= 12 ==> (wav_header(b) == Err::<WavHeader, IngestError>(IngestError::NotWave)
            <==> !(b[0] == 0x52 && b[1] == 0x49 && b[2] == 0x46 && b[3] == 0x46 && b[8] == 0x57
            && b[9] == 0x41 && b[10] == 0x56 && b[11] == 0x45)),
{
    if b.len() >= 12 {
        let t = b.subrange(0, 4);
        let u = b.subrange(8, 12);
        assert(t[0] == b[0] && t[1] == b[1] && t[2] == b[2] && t[3] == b[3]);
        assert(u[0] == b[8] && u[1] == b[9] && u[2] == b[10] && u[3] == b[11]);
        if b[0] == 0x52 && b[1] == 0x49 && b[2] == 0x46 && b[3] == 0x46 {
            assert(t =~= riff_tag());
        }
        if b[8] == 0x57 && b[9] == 0x41 && b[10] == 0x56 && b[11] == 0x45 {
            assert(u =~= wave_tag());
        }
    }
}

/// What a WAVE file says, from its chunks: with the last format chunk, at index `f`, and the last
/// data chunk, at index `d`, their fields.
pub proof fn law_last_chunks_count(b: Seq<u8>, f: int, d: int)
    requires
        12 <= b.len() <= usize::MAX,
        b.subrange(0, 4) == riff_tag(),
        b.subrange(8, 12) == wave_tag(),
        ({
            let ps = chunk_positions(b, 12);
            &&& forall|i: int|
                0 <= i < ps.len() && b.subrange(#[trigger] ps[i], ps[i] + 4) == seq![
                    0x66u8,
                    0x6D,
                    0x74,
                    0x20,
                ] ==> i <= f && ps[i] + 24 <= b.len()
            &&& forall|i: int|
                0 <= i < ps.len() && b.subrange(#[trigger] ps[i], ps[i] + 4) == seq![
                    0x64u8,
                    0x61,
                    0x74,
                    0x61,
                ] ==> i <= d
            &&& 0 <= f < ps.len() && b.subrange(ps[f], ps[f] + 4) == seq![0x66u8, 0x6D, 0x74, 0x20]
            &&& 0 <= d < ps.len() && b.subrange(ps[d], ps[d] + 4) == seq![0x64u8, 0x61, 0x74, 0x61]
        }),
    ensures
        ({
            let ps = chunk_positions(b, 12);
            let p = ps[f] + 8;
            let q = ps[d] + 8;
            &&& wav_header(b) is Ok
            &&& wav_header(b)->Ok_0.format_tag == le_value(b.subrange(p, p + 2))
            &&& wav_header(b)->Ok_0.channels == le_value(b.subrange(p + 2, p + 4))
            &&& wav_header(b)->Ok_0.sample_rate == le_value(b.subrange(p + 4, p + 8))
            &&& wav_header(b)->Ok_0.bits_per_sample == le_value(b.subrange(p + 14, p + 16))
            &&& wav_header(b)->Ok_0.data_offset == q
            &&& wav_header(b)->Ok_0.data_size == le_value(b.subrange(q - 4, q))
        }),
{
    let ps = chunk_positions(b, 12);
    lemma_chunk_positions(b, 12);
    lemma_last_chunk_is(b, ps, fmt_tag(), f);
    lemma_last_chunk_is(b, ps, data_tag(), d);
    lemma_no_cut(b, ps);
    lemma_le_ranges();
    let p = ps[f] + 8;
    assert(0 <= ps[f]);
    assert(0 <= ps[d] && ps[d] + 8 <= b.len());
    lemma_le_value_bound(b.subrange(p, p + 2));
    lemma_le_value_bound(b.subrange(p + 2, p + 4));
    lemma_le_value_bound(b.subrange(p + 4, p + 8));
    lemma_le_value_bound(b.subrange(p + 14, p + 16));
    lemma_le_value_bound(b.subrange(ps[d] + 4, ps[d] + 8));
}

/// A WAVE file without a format chunk, or without a data chunk, and with no format chunk cut
/// short, has no header.
pub proof fn law_missing_chunk(b: Seq<u8>, id: Seq<u8>)
    requires
        12 <= b.len(),
        b.subrange(0, 4) == riff_tag(),
        b.subrange(8, 12) == wave_tag(),
        id == seq![0x66u8, 0x6D, 0x74, 0x20] || id == seq![0x64u8, 0x61, 0x74, 0x61],
        ({
            let ps = chunk_positions(b, 12);
            &&& forall|i: int|
                0 <= i < ps.len() ==> b.subrange(#[trigger] ps[i], ps[i] + 4) != id
            &&& forall|i: int|
                0 <= i < ps.len() && b.subrange(#[trigger] ps[i], ps[i] + 4) == seq![
                    0x66u8,
                    0x6D,
                    0x74,
                    0x20,
                ] ==> ps[i] + 24 <= b.len()
        }),
    ensures
        wav_header(b) == Err::<WavHeader, IngestError>(IngestError::DataChunkNotFound),
{
    let ps = chunk_positions(b, 12);
    lemma_no_cut(b, ps);
    lemma_last_chunk_in(b, ps, id);
    if let Some(p) = last_chunk(b, ps, id) {
        let i = choose|i: int| 0 <= i < ps.len() && ps[i] == p;
        assert(b.subrange(ps[i], ps[i] + 4) == id);
    }
}

/// A format chunk whose 16 bytes do not all lie in the file is an error, and the first such chunk
/// is the one reported.
pub proof fn law_cut_format(b: Seq<u8>, c: int)
    requires
        12 <= b.len() <= usize::MAX,
        b.subrange(0, 4) == riff_tag(),
        b.subrange(8, 12) == wave_tag(),
        ({
            let ps = chunk_positions(b, 12);
            &&& 0 <= c < ps.len()
            &&& b.subrange(ps[c], ps[c] + 4) == seq![0x66u8, 0x6D, 0x74, 0x20]
            &&& ps[c] + 24 > b.len()
            &&& forall|i: int|
                0 <= i < c && b.subrange(#[trigger] ps[i], ps[i] + 4) == seq![
                    0x66u8,
                    0x6D,
                    0x74,
                    0x20,
                ] ==> ps[i] + 24 <= b.len()
        }),
    ensures
        wav_header(b) matches Err(IngestError::Truncated { expected, actual }) && actual == b.len()
            && expected == if chunk_positions(b, 12)[c] + 24 <= usize::MAX {
            chunk_positions(b, 12)[c] + 24
        } else {
            usize::MAX as int
        },
{
    let ps = chunk_positions(b, 12);
    lemma_chunk_positions(b, 12);
    assert(0 <= ps[c]);
    let before = ps.take(c);
    assert forall|i: int| 0 <= i < before.len() && chunk_id(b, #[trigger] before[i])
        == fmt_tag() implies before[i] + 24 <= b.len() by {
        assert(before[i] == ps[i]);
        assert(b.subrange(ps[i], ps[i] + 4) == fmt_tag());
    }
    lemma_no_cut(b, before);
    let upto = ps.take(c + 1);
    assert(upto.drop_last() =~= before);
    assert(first_cut_format(b, upto) == Some(ps[c]));
    lemma_first_cut_format_stays(b, upto, ps.skip(c + 1));
    assert(upto + ps.skip(c + 1) =~= ps);
}

proof fn lemma_last_chunk_is(b: Seq<u8>, ps: Seq<int>, id: Seq<u8>, f: int)
    requires
        0 <= f < ps.len(),
        chunk_id(b, ps[f]) == id,
        forall|i: int| 0 <= i < ps.len() && chunk_id(b, #[trigger] ps[i]) == id ==> i <= f,
    ensures
        last_chunk(b, ps, id) == Some(ps[f]),
    decreases ps.len(),
{
    if f < ps.len() - 1 {
        let init = ps.drop_last();
        assert(chunk_id(b, ps[ps.len() - 1]) != id);
        assert forall|i: int| 0 <= i < init.len() && chunk_id(b, #[trigger] init[i])
            == id implies i <= f by {
            assert(init[i] == ps[i]);
        }
        lemma_last_chunk_is(b, init, id, f);
    }
}

proof fn lemma_no_cut(b: Seq<u8>, ps: Seq<int>)
    requires
        forall|i: int|
            0 <= i < ps.len() && chunk_id(b, #[trigger] ps[i]) == fmt_tag() ==> ps[i] + 24
                <= b.len(),
    ensures
        first_cut_format(b, ps) is None,
    decreases ps.len(),
{
    if ps.len() > 0 {
        let init = ps.drop_last();
        assert forall|i: int| 0 <= i < init.len() && chunk_id(b, #[trigger] init[i])
            == fmt_tag() implies init[i] + 24 <= b.len() by {
            assert(init[i] == ps[i]);
        }
        lemma_no_cut(b, init);
        assert(ps[ps.len() - 1] == ps.last());
    }
}

/// A file can be read exactly if its audio lies in it and is 16-bit PCM or 32-bit IEEE float; its
/// header is then what its chunks say, and each error has its own cause.
pub proof fn law_readable_header(b: Seq<u8>)
    requires
        b.len() <= usize::MAX,
    ensures
        match wav_header(b) {
            Ok(h) => {
                let fits = h.data_offset + h.data_size <= b.len();
                let known = h.format_tag == 1 || h.format_tag == 3;
                let width = if h.format_tag == 1 {
                    16int
                } else {
                    32int
                };
                &&& fits && known && h.bits_per_sample == width <==> readable_header(b) == Ok::<
                    WavHeader,
                    IngestError,
                >(h)
                &&& !fits ==> (readable_header(b) matches Err(
                    IngestError::Truncated { expected, actual },
                ) && actual == b.len() && (h.data_offset + h.data_size <= usize::MAX ==> expected
                    == h.data_offset + h.data_size))
                &&& fits && known && h.bits_per_sample != width ==> readable_header(b) == Err::<
                    WavHeader,
                    IngestError,
                >(IngestError::UnsupportedBitsPerSample(h.bits_per_sample))
                &&& fits && !known ==> readable_header(b) == Err::<WavHeader, IngestError>(
                    IngestError::UnsupportedFormat(h.format_tag),
                )
            },
            Err(e) => readable_header(b) == Err::<WavHeader, IngestError>(e),
        },
{
}

// ---- Parsing ----

/// Whether the four bytes at `pos` are `t0 t1 t2 t3`.
fn tag_at(bytes: &[u8], pos: usize, t0: u8, t1: u8, t2: u8, t3: u8) -> (r: bool)
    requires
        pos + 4 <= bytes@.len(),
    ensures
        r == (bytes@.subrange(pos as int, pos + 4) == seq![t0, t1, t2, t3]),
{
    let len: usize = bytes.len();
    let r: bool = bytes[pos] == t0 && bytes[pos + 1] == t1 && bytes[pos + 2] == t2 && bytes[pos + 3]
        == t3;
    proof {
        let s = bytes@.subrange(pos as int, pos + 4);
        let t = seq![t0, t1, t2, t3];
        if r {
            assert(s =~= t);
        } else {
            assert(s[0] == bytes@[pos as int] && s[1] == bytes@[pos + 1] && s[2] == bytes@[pos + 2]
                && s[3] == bytes@[pos + 3]);
            assert(t[0] == t0 && t[1] == t1 && t[2] == t2 && t[3] == t3);
        }
    }
    r
}

/// Reads the header of a WAV file: walks its RIFF chunks for the format and the data.
pub fn parse_wav_header(bytes: &[u8]) -> (r: Result<WavHeader, IngestError>)
    ensures
        r == wav_header(bytes@),
{
    let len: usize = bytes.len();
    let ghost b = bytes@;
    if len < 12 {
        return Err(IngestError::Truncated { expected: 12, actual: len });
    }
    if !tag_at(bytes, 0, 0x52, 0x49, 0x46, 0x46) || !tag_at(bytes, 8, 0x57, 0x41, 0x56, 0x45) {
        return Err(IngestError::NotWave);
    }
    let mut format: Option<(u16, u16, u32, u16)> = None;
    let mut data: Option<(usize, usize)> = None;
    let mut pos: usize = 12;
    let ghost ps = chunk_positions(b, 12);
    let ghost mut seen: Seq<int> = Seq::empty();
    proof {
        assert(seen + chunk_positions(b, 12) =~= ps);
        lemma_le_ranges();
    }
    while len - pos >= 8
        invariant
            b == bytes@,
            len == b.len(),
            12 <= pos <= len,
            b.len() >= 12,
            b.subrange(0, 4) == riff_tag(),
            b.subrange(8, 12) == wave_tag(),
            ps == chunk_positions(b, 12),
            seen + chunk_positions(b, pos as int) == ps,
            first_cut_format(b, seen) is None,
            match last_chunk(b, seen, fmt_tag()) {
                Some(f) => format == Some(
                    (
                        number_at(b, f + 8, 2) as u16,
                        number_at(b, f + 10, 2) as u16,
                        number_at(b, f + 12, 4) as u32,
                        number_at(b, f + 22, 2) as u16,
                    ),
                ),
                None => format is None,
            },
            match last_chunk(b, seen, data_tag()) {
                Some(d) => data == Some(((d + 8) as usize, chunk_size(b, d) as usize)),
                None => data is None,
            },
        decreases len - pos,
    {
        let size: u64 = read_le(bytes, pos + 4, 4);
        let start: usize = pos + 8;
        let ghost now = seen.push(pos as int);
        proof {
            lemma_le_ranges();
            assert(now.drop_last() =~= seen);
            assert(size == chunk_size(b, pos as int));
            assert(now + chunk_positions(b, next_chunk(b, pos as int)) =~= seen + (seq![pos as int]
                + chunk_positions(b, next_chunk(b, pos as int))));
            assert(fmt_tag()[0] != data_tag()[0]);
        }
        if tag_at(bytes, pos, 0x66, 0x6D, 0x74, 0x20) {
            if len - start < 16 {
                proof {
                    lemma_first_cut_format_stays(
                        b,
                        now,
                        chunk_positions(b, next_chunk(b, pos as int)),
                    );
                }
                return Err(
                    IngestError::Truncated { expected: start.saturating_add(16), actual: len },
                );
            }
            let tag: u16 = read_le(bytes, start, 2) as u16;
            let channels: u16 = read_le(bytes, start + 2, 2) as u16;
            let rate: u32 = read_le(bytes, start + 4, 4) as u32;
            let width: u16 = read_le(bytes, start + 14, 2) as u16;
            format = Some((tag, channels, rate, width));
        } else if tag_at(bytes, pos, 0x64, 0x61, 0x74, 0x61) {
            data = Some((start, size as usize));
        }
        let step: u64 = size + size % 2;
        if step > (len - start) as u64 {
            pos = len;
        } else {
            pos = start + step as usize;
        }
        proof {
            seen = now;
        }
    }
    assert(seen =~= ps);
    match (format, data) {
        (Some((format_tag, channels, sample_rate, bits_per_sample)), Some((data_offset, data_size))) => Ok(
            WavHeader {
                format_tag,
                channels,
                sample_rate,
                bits_per_sample,
                data_offset,
                data_size,
            },
        ),
        _ => Err(IngestError::DataChunkNotFound),
    }
}

// ---- Samples and frames ----

/// The 16-bit samples in `data`, little-endian; an odd byte at the end is left out.
pub open spec fn pcm_samples(data: Seq<u8>) -> Seq<i16> {
    Seq::new(data.len() / 2, |i: int| signed(number_at(data, 2 * i, 2)))
}

/// The 32-bit words in `data`, little-endian; a part of a word at the end is left out.
pub open spec fn word_samples(data: Seq<u8>) -> Seq<u32> {
    Seq::new(data.len() / 4, |i: int| number_at(data, 4 * i, 4) as u32)
}

/// Samples byte by byte: two bytes each, or four, the least significant first; what is left at
/// the end makes none.
pub proof fn law_samples_from_bytes(data: Seq<u8>, i: int)
    ensures
        pcm_samples(data).len() == data.len() / 2,
        0 <= i < data.len() / 2 ==> (pcm_samples(data)[i] - (data[2 * i] + 256 * data[2 * i + 1]))
            % 0x1_0000 == 0,
        word_samples(data).len() == data.len() / 4,
        0 <= i < data.len() / 4 ==> word_samples(data)[i] == data[4 * i] + 256 * data[4 * i + 1]
            + 0x1_0000 * data[4 * i + 2] + 0x100_0000 * data[4 * i + 3],
{
    reveal_with_fuel(le_value, 5);
    if 0 <= i < data.len() / 2 {
        let t = data.subrange(2 * i, 2 * i + 2);
        assert(t[0] == data[2 * i] && t.drop_first()[0] == data[2 * i + 1]);
        assert(t.drop_first().drop_first() =~= Seq::empty());
        law_signed_words(le_value(t), 0);
    }
    if 0 <= i < data.len() / 4 {
        let t = data.subrange(4 * i, 4 * i + 4);
        assert(t[0] == data[4 * i] && t.drop_first()[0] == data[4 * i + 1]
            && t.drop_first().drop_first()[0] == data[4 * i + 2]
            && t.drop_first().drop_first().drop_first()[0] == data[4 * i + 3]);
        assert(t.drop_first().drop_first().drop_first().drop_first() =~= Seq::empty());
    }
}

/// How many frames of `size` samples `count` samples make, the last one maybe shorter.
pub open spec fn frames_needed(count: nat, size: nat) -> nat {
    ((count + size - 1) / size as int) as nat
}

/// Frame `i` of `s`: `size` samples, or what is left of them at the end.
pub open spec fn frame_of<T>(s: Seq<T>, size: nat, i: int) -> Seq<T> {
    s.subrange(i * size, if (i + 1) * size <= s.len() {
        (i + 1) * size
    } else {
        s.len() as int
    })
}

/// The first `n` frames of `s`, joined.
pub open spec fn join_frames<T>(s: Seq<T>, size: nat, n: nat) -> Seq<T>
    decreases n,
{
    if n == 0 {
        Seq::empty()
    } else {
        join_frames(s, size, (n - 1) as nat) + frame_of(s, size, n - 1)
    }
}

proof fn lemma_frames_needed(count: nat, size: nat)
    requires
        size > 0,
    ensures
        frames_needed(count, size) * size >= count,
        frames_needed(count, size) > 0 ==> (frames_needed(count, size) - 1) * size < count,
        count == 0 ==> frames_needed(count, size) == 0,
{
    let d = size as int;
    let x = count + size - 1;
    vstd::arithmetic::div_mod::lemma_fundamental_div_mod(x, d);
    vstd::arithmetic::div_mod::lemma_mod_bound(x, d);
    vstd::arithmetic::div_mod::lemma_div_pos_is_pos(x, d);
    let q = x / d;
    assert((q - 1) * d == q * d - d && q * d == d * q) by (nonlinear_arith);
    if count == 0 {
        vstd::arithmetic::div_mod::lemma_basic_div(x, d);
    }
}

/// The number of frames is the least that holds all samples: `n` frames of `size` samples are
/// enough for `count` samples exactly if `n` is at least that number.
pub proof fn law_frames_needed_is_least(count: nat, size: nat, n: nat)
    requires
        size > 0,
    ensures
        n * size >= count <==> n >= frames_needed(count, size),
{
    lemma_frames_needed(count, size);
    let m = frames_needed(count, size);
    if n >= m {
        assert(n * size >= m * size) by (nonlinear_arith)
            requires
                n >= m,
        ;
    } else {
        assert(n * size <= (m - 1) * size) by (nonlinear_arith)
            requires
                n <= m - 1,
        ;
    }
}

proof fn lemma_join_frames<T>(s: Seq<T>, size: nat, n: nat)
    requires
        size > 0,
        n == 0 || (n - 1) * size < s.len(),
    ensures
        join_frames(s, size, n) == s.take(
            if n * size <= s.len() {
                n * size as int
            } else {
                s.len() as int
            },
        ),
    decreases n,
{
    if n == 0 {
        assert(join_frames(s, size, 0) =~= s.take(0));
    } else {
        let m = (n - 1) as nat;
        assert(n * size == m * size + size) by (nonlinear_arith)
            requires
                n == m + 1,
        ;
        assert(m == 0 || (m - 1) * size < s.len()) by (nonlinear_arith)
            requires
                m * size < s.len(),
        ;
        assert(m * size >= 0) by (nonlinear_arith);
        lemma_join_frames(s, size, m);
        assert(join_frames(s, size, n) =~= s.take(
            if n * size <= s.len() {
                n * size as int
            } else {
                s.len() as int
            },
        ));
    }
}

/// Framing cuts the samples up without loss: the frames, joined in order, are the samples.
pub proof fn law_frames_cover_samples<T>(s: Seq<T>, size: nat)
    requires
        size > 0,
    ensures
        join_frames(s, size, frames_needed(s.len(), size)) == s,
{
    let n = frames_needed(s.len(), size);
    lemma_frames_needed(s.len(), size);
    if n == 0 {
        assert(s.len() == 0) by (nonlinear_arith)
            requires
                n * size >= s.len(),
                n == 0,
        ;
    }
    lemma_join_frames(s, size, n);
    assert(s.take(s.len() as int) =~= s);
    if n * size <= s.len() {
        assert(n * size == s.len());
    }
}

/// Every frame but the last has `size` samples; the last one has at least one.
pub proof fn law_frame_sizes<T>(s: Seq<T>, size: nat, i: int)
    requires
        size > 0,
        0 <= i < frames_needed(s.len(), size),
    ensures
        i < frames_needed(s.len(), size) - 1 ==> frame_of(s, size, i).len() == size,
        1 <= frame_of(s, size, i).len() <= size,
{
    let n = frames_needed(s.len(), size);
    lemma_frames_needed(s.len(), size);
    assert(i * size + size == (i + 1) * size && i * size >= 0) by (nonlinear_arith)
        requires
            i >= 0,
            size > 0,
    ;
    assert(i * size <= (n - 1) * size) by (nonlinear_arith)
        requires
            i <= n - 1,
            size > 0,
    ;
    if i < n - 1 {
        assert((i + 1) * size <= (n - 1) * size) by (nonlinear_arith)
            requires
                i + 1 <= n - 1,
                size > 0,
        ;
    }
}

/// Frame `i` sample by sample: it starts at sample `i * size` and goes on for `size` samples, or
/// to the end.
pub proof fn law_frame_contents<T>(s: Seq<T>, size: nat, i: int, j: int)
    requires
        size > 0,
        0 <= i < frames_needed(s.len(), size),
    ensures
        (i + 1) * size <= s.len() ==> frame_of(s, size, i).len() == size,
        (i + 1) * size > s.len() ==> frame_of(s, size, i).len() == s.len() - i * size,
        0 <= j < frame_of(s, size, i).len() ==> frame_of(s, size, i)[j] == s[i * size + j],
{
    law_frame_sizes(s, size, i);
    lemma_frames_needed(s.len(), size);
    let n = frames_needed(s.len(), size);
    assert(0 <= i * size <= (n - 1) * size) by (nonlinear_arith)
        requires
            0 <= i <= n - 1,
            size > 0,
    ;
    assert((i + 1) * size == i * size + size) by (nonlinear_arith);
}

/// Typed samples. 32-bit IEEE floats are held as their bit patterns.
#[derive(Debug)]
pub enum SampleSlice {
    /// 16-bit signed integers.
    I16(Vec<i16>),
    /// Bit patterns of IEEE 754 32-bit floats.
    F32(Vec<u32>),
}

impl SampleSlice {
    /// The number of samples, all channels together.
    pub fn len(&self) -> (n: usize)
        ensures
            n == match *self {
                SampleSlice::I16(s) => s@.len(),
                SampleSlice::F32(s) => s@.len(),
            },
    {
        match self {
            SampleSlice::I16(s) => s.len(),
            SampleSlice::F32(s) => s.len(),
        }
    }
}

/// A run of consecutive samples.
#[derive(Debug)]
pub enum Frame {
    /// 16-bit signed integers.
    I16(Vec<i16>),
    /// Bit patterns of IEEE 754 32-bit floats.
    F32(Vec<u32>),
}

/// An audio file whose bytes are in memory.
#[derive(Debug)]
pub struct MappedAudio<'a> {
    /// What the file's header says.
    pub header: WavHeader,
    /// The audio data.
    pub data: &'a [u8],
}

/// Copies `src[start..end]`.
fn copy_range<T: Copy>(src: &Vec<T>, start: usize, end: usize) -> (out: Vec<T>)
    requires
        start <= end <= src@.len(),
    ensures
        out@ == src@.subrange(start as int, end as int),
{
    let mut out: Vec<T> = Vec::with_capacity(end - start);
    let mut i: usize = start;
    while i < end
        invariant
            start <= i <= end <= src@.len(),
            out@ == src@.subrange(start as int, i as int),
        decreases end - i,
    {
        out.push(src[i]);
        i = i + 1;
        assert(out@ =~= src@.subrange(start as int, i as int));
    }
    out
}

impl<'a> MappedAudio<'a> {
    /// 16-bit PCM or 32-bit IEEE float, with as many bytes as the header announces.
    pub open spec fn wf(&self) -> bool {
        &&& self.data@.len() == self.header.data_size
        &&& self.header.format_tag == WAV_FORMAT_PCM && self.header.bits_per_sample == 16
            || self.header.format_tag == WAV_FORMAT_IEEE_FLOAT && self.header.bits_per_sample == 32
        &&& self.header.data_offset % 2 == 0
    }

    /// In a file that is mapped at a page boundary, the samples are aligned to their size.
    pub open spec fn aligned(&self) -> bool {
        self.header.format_tag == WAV_FORMAT_IEEE_FLOAT ==> self.header.data_offset % 4 == 0
    }

    /// The number of samples, all channels together.
    pub open spec fn count(&self) -> nat {
        if self.header.format_tag == WAV_FORMAT_PCM {
            self.data@.len() / 2
        } else {
            self.data@.len() / 4
        }
    }

    /// The samples are as many as they are counted.
    pub proof fn law_count_matches_samples(&self)
        requires
            self.wf(),
        ensures
            self.header.format_tag == WAV_FORMAT_PCM ==> pcm_samples(self.data@).len()
                == self.count(),
            self.header.format_tag == WAV_FORMAT_IEEE_FLOAT ==> word_samples(self.data@).len()
                == self.count(),
    {
    }

    /// Opens a WAV file, given its bytes.
    pub fn open(image: &'a [u8]) -> (r: Result<Self, IngestError>)
        ensures
            match readable_header(image@) {
                Ok(h) => {
                    &&& r is Ok
                    &&& r->Ok_0.wf()
                    &&& r->Ok_0.header == h
                    &&& r->Ok_0.data@ == image@.subrange(
                        h.data_offset as int,
                        h.data_offset + h.data_size,
                    )
                },
                Err(e) => r is Err && r->Err_0 == e,
            },
    {
        let header: WavHeader = match parse_wav_header(image) {
            Ok(header) => header,
            Err(e) => {
                return Err(e);
            },
        };
        let len: usize = image.len();
        proof {
            law_data_offset_is_even(image@);
        }
        if header.data_size > len - header.data_offset {
            return Err(
                IngestError::Truncated {
                    expected: header.data_offset.saturating_add(header.data_size),
                    actual: len,
                },
            );
        }
        if header.format_tag == WAV_FORMAT_PCM {
            if header.bits_per_sample != 16 {
                return Err(IngestError::UnsupportedBitsPerSample(header.bits_per_sample));
            }
        } else if header.format_tag == WAV_FORMAT_IEEE_FLOAT {
            if header.bits_per_sample != 32 {
                return Err(IngestError::UnsupportedBitsPerSample(header.bits_per_sample));
            }
        } else {
            return Err(IngestError::UnsupportedFormat(header.format_tag));
        }
        let data: &'a [u8] = slice_subrange(
            image,
            header.data_offset,
            header.data_offset + header.data_size,
        );
        Ok(MappedAudio { header, data })
    }

    /// The audio data as typed samples.
    pub fn samples(&self) -> (r: SampleSlice)
        requires
            self.wf(),
            self.aligned(),
        ensures
            self.header.format_tag == WAV_FORMAT_PCM ==> (r matches SampleSlice::I16(s) && s@
                == pcm_samples(self.data@)),
            self.header.format_tag == WAV_FORMAT_IEEE_FLOAT ==> (r matches SampleSlice::F32(s)
                && s@ == word_samples(self.data@)),
    {
        proof {
            lemma_le_ranges();
        }
        if self.header.format_tag == WAV_FORMAT_PCM {
            let n: usize = self.data.len() / 2;
            let mut out: Vec<i16> = Vec::with_capacity(n);
            let mut i: usize = 0;
            while i < n
                invariant
                    i <= n,
                    n == self.data@.len() / 2,
                    out@ == pcm_samples(self.data@).take(i as int),
                    self.data@.len() <= usize::MAX,
                decreases n - i,
            {
                proof {
                    lemma_le_ranges();
                }
                let u: u16 = read_le(self.data, 2 * i, 2) as u16;
                out.push(to_signed(u));
                i = i + 1;
                assert(out@ =~= pcm_samples(self.data@).take(i as int));
            }
            assert(out@ =~= pcm_samples(self.data@));
            SampleSlice::I16(out)
        } else {
            let n: usize = self.data.len() / 4;
            let mut out: Vec<u32> = Vec::with_capacity(n);
            let mut i: usize = 0;
            while i < n
                invariant
                    i <= n,
                    n == self.data@.len() / 4,
                    out@ == word_samples(self.data@).take(i as int),
                    self.data@.len() <= usize::MAX,
                decreases n - i,
            {
                proof {
                    lemma_le_ranges();
                }
                out.push(read_le(self.data, 4 * i, 4) as u32);
                i = i + 1;
                assert(out@ =~= word_samples(self.data@).take(i as int));
            }
            assert(out@ =~= word_samples(self.data@));
            SampleSlice::F32(out)
        }
    }

    /// The number of samples, all channels together.
    pub fn sample_count(&self) -> (n: usize)
        requires
            self.wf(),
            self.aligned(),
        ensures
            n == self.count(),
    {
        if self.header.format_tag == WAV_FORMAT_PCM {
            self.data.len() / 2
        } else {
            self.data.len() / 4
        }
    }

    /// The number of frames of `frame_size` samples, the last one maybe shorter.
    pub fn frame_count(&self, frame_size: usize) -> (n: usize)
        requires
            self.wf(),
            self.aligned(),
            frame_size > 0,
            self.count() + frame_size - 1 <= usize::MAX,
        ensures
            n == frames_needed(self.count(), frame_size as nat),
    {
        let count: usize = self.sample_count();
        (count + (frame_size - 1)) / frame_size
    }

    /// The samples in frames of `frame_size`, the last one maybe shorter.
    pub fn frames(&self, frame_size: usize) -> (r: Vec<Frame>)
        requires
            self.wf(),
            self.aligned(),
            frame_size > 0,
        ensures
            r@.len() == frames_needed(self.count(), frame_size as nat),
            self.header.format_tag == WAV_FORMAT_PCM ==> forall|i: int|
                0 <= i < r@.len() ==> (#[trigger] r@[i] matches Frame::I16(s) && s@ == frame_of(
                    pcm_samples(self.data@),
                    frame_size as nat,
                    i,
                )),
            self.header.format_tag == WAV_FORMAT_IEEE_FLOAT ==> forall|i: int|
                0 <= i < r@.len() ==> (#[trigger] r@[i] matches Frame::F32(s) && s@ == frame_of(
                    word_samples(self.data@),
                    frame_size as nat,
                    i,
                )),
    {
        let all: SampleSlice = self.samples();
        let count: usize = all.len();
        let mut out: Vec<Frame> = Vec::new();
        let mut start: usize = 0;
        proof {
            lemma_frames_needed(self.count(), frame_size as nat);
            assert(0 * frame_size == 0) by (nonlinear_arith);
        }
        while start < count
            invariant
                frame_size > 0,
                count == self.count(),
                self.wf(),
                self.header.format_tag == WAV_FORMAT_PCM ==> (all matches SampleSlice::I16(s) && s@
                    == pcm_samples(self.data@)),
                self.header.format_tag == WAV_FORMAT_IEEE_FLOAT ==> (all matches SampleSlice::F32(s)
                    && s@ == word_samples(self.data@)),
                start <= count,
                start < count ==> start == out@.len() * frame_size,
                start == count ==> out@.len() * frame_size >= count && (out@.len() > 0 ==> (
                out@.len() - 1) * frame_size < count),
                self.header.format_tag == WAV_FORMAT_PCM ==> forall|i: int|
                    0 <= i < out@.len() ==> (#[trigger] out@[i] matches Frame::I16(s) && s@
                        == frame_of(pcm_samples(self.data@), frame_size as nat, i)),
                self.header.format_tag == WAV_FORMAT_IEEE_FLOAT ==> forall|i: int|
                    0 <= i < out@.len() ==> (#[trigger] out@[i] matches Frame::F32(s) && s@
                        == frame_of(word_samples(self.data@), frame_size as nat, i)),
            decreases count - start,
        {
            let end: usize = if count - start < frame_size {
                count
            } else {
                start + frame_size
            };
            proof {
                let n = out@.len() as int;
                assert((n + 1) * frame_size == n * frame_size + frame_size) by (nonlinear_arith);
            }
            let frame: Frame = match &all {
                SampleSlice::I16(s) => Frame::I16(copy_range(s, start, end)),
                SampleSlice::F32(s) => Frame::F32(copy_range(s, start, end)),
            };
            out.push(frame);
            start = end;
        }
        proof {
            lemma_frames_needed_unique(self.count(), frame_size as nat, out@.len());
        }
        out
    }

    /// The duration in seconds, as a fraction: samples per channel over samples per second.
    pub fn duration_secs(&self) -> (d: (usize, u32))
        requires
            self.wf(),
            self.aligned(),
            self.header.channels != 0,
        ensures
            d.0 == self.count() / self.header.channels as nat,
            d.1 == self.header.sample_rate,
    {
        let channels: usize = self.header.channels as usize;
        (self.sample_count() / channels, self.header.sample_rate)
    }
}

proof fn lemma_frames_needed_unique(count: nat, size: nat, n: nat)
    requires
        size > 0,
        n * size >= count,
        n > 0 ==> (n - 1) * size < count,
    ensures
        n == frames_needed(count, size),
{
    lemma_frames_needed(count, size);
    let m = frames_needed(count, size);
    if m < n {
        assert(m * size <= (n - 1) * size) by (nonlinear_arith)
            requires
                m <= n - 1,
                size > 0,
        ;
    } else if n < m {
        assert(n * size <= (m - 1) * size) by (nonlinear_arith)
            requires
                n <= m - 1,
                size > 0,
        ;
    }
}

} // verus!
