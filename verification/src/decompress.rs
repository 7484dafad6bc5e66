//! Decompression: the header that the decompressor reads, frame lengths, the step from a
//! residual back to a sample, and the WAV file that comes out.
use vstd::prelude::*;
use vstd::slice::slice_subrange;

use crate::code::{frame_bits, law_frame_round_trip, parse_frame, unzigzags, zigzags};
use crate::ingest::{
    chunk_id, chunk_positions, chunk_size, data_tag, first_cut_format, fmt_tag, header_at,
    last_chunk, next_chunk, number_at, pcm_samples, readable_header, riff_tag, wav_header,
    wave_tag, IngestError, WAV_FORMAT_PCM, WavHeader,
};
use crate::le::{
    le_bytes, le_value, lemma_le_bytes_len, lemma_le_ranges, lemma_le_round_trip, push_le, read_le,
    signed, to_unsigned, unsigned,
};
use crate::sarcophagus::{
    archive_tag, header_bytes, law_archive_layout, lemma_header_fields, ArchiveHeader,
};

verus! {

/// What the decompressor learns from the 36 bytes at the start of an archive.
#[derive(Debug, Clone, Copy)]
pub struct StreamInfo {
    pub sample_rate: u32,
    pub channels: u16,
    pub frame_size: u32,
    pub lpc_order: u8,
    pub total_frames: u32,
    pub data_size: u64,
    pub total_samples: u64,
}

/// The size of that header in bytes.
pub const STREAM_HEADER_SIZE: usize = 36;

/// The fields of the header, each at its place.
pub open spec fn info_at(b: Seq<u8>) -> StreamInfo {
    StreamInfo {
        sample_rate: number_at(b, 5, 4) as u32,
        channels: number_at(b, 9, 2) as u16,
        frame_size: number_at(b, 11, 4) as u32,
        lpc_order: b[15],
        total_frames: number_at(b, 16, 4) as u32,
        data_size: number_at(b, 20, 8) as u64,
        total_samples: number_at(b, 28, 8) as u64,
    }
}

/// Long enough for a header, with the magic bytes and version 1.
pub open spec fn is_stream(b: Seq<u8>) -> bool {
    b.len() >= STREAM_HEADER_SIZE && b.subrange(0, 4) == archive_tag() && b[4] == 1
}

/// Reads the header of an archive; `None` if it is too short, or of another format or version.
pub fn parse_stream_header(buffer: &[u8]) -> (r: Option<StreamInfo>)
    ensures
        r is Some <==> is_stream(buffer@),
        r matches Some(info) ==> info == info_at(buffer@),
{
    if buffer.len() < STREAM_HEADER_SIZE {
        return None;
    }
    let tagged: bool = buffer[0] == 0x41 && buffer[1] == 0x43 && buffer[2] == 0x4D && buffer[3]
        == 0x50;
    proof {
        let t = buffer@.subrange(0, 4);
        assert(t[0] == buffer@[0] && t[1] == buffer@[1] && t[2] == buffer@[2] && t[3] == buffer@[3]);
        if tagged {
            assert(t =~= archive_tag());
        }
        lemma_le_ranges();
    }
    if !tagged || buffer[4] != 1 {
        return None;
    }
    Some(
        StreamInfo {
            sample_rate: read_le(buffer, 5, 4) as u32,
            channels: read_le(buffer, 9, 2) as u16,
            frame_size: read_le(buffer, 11, 4) as u32,
            lpc_order: buffer[15],
            total_frames: read_le(buffer, 16, 4) as u32,
            data_size: read_le(buffer, 20, 8),
            total_samples: read_le(buffer, 28, 8),
        },
    )
}

/// A 36-byte header reads back: whatever the fields hold and whatever follows, each is read as
/// it was laid out.
pub proof fn law_stream_header_reads_back(info: StreamInfo, rest: Seq<u8>)
    ensures
        ({
            let b = archive_tag() + seq![1u8] + le_bytes(info.sample_rate as nat, 4) + le_bytes(
                info.channels as nat,
                2,
            ) + le_bytes(info.frame_size as nat, 4) + seq![info.lpc_order] + le_bytes(
                info.total_frames as nat,
                4,
            ) + le_bytes(info.data_size as nat, 8) + le_bytes(info.total_samples as nat, 8) + rest;
            &&& is_stream(b)
            &&& info_at(b) == info
            &&& b.skip(STREAM_HEADER_SIZE as int) == rest
        }),
{
    let b = archive_tag() + seq![1u8] + le_bytes(info.sample_rate as nat, 4) + le_bytes(
        info.channels as nat,
        2,
    ) + le_bytes(info.frame_size as nat, 4) + seq![info.lpc_order] + le_bytes(
        info.total_frames as nat,
        4,
    ) + le_bytes(info.data_size as nat, 8) + le_bytes(info.total_samples as nat, 8) + rest;
    lemma_le_ranges();
    lemma_le_bytes_len(info.sample_rate as nat, 4);
    lemma_le_bytes_len(info.channels as nat, 2);
    lemma_le_bytes_len(info.frame_size as nat, 4);
    lemma_le_bytes_len(info.total_frames as nat, 4);
    lemma_le_bytes_len(info.data_size as nat, 8);
    lemma_le_bytes_len(info.total_samples as nat, 8);
    lemma_le_round_trip(info.sample_rate as nat, 4);
    lemma_le_round_trip(info.channels as nat, 2);
    lemma_le_round_trip(info.frame_size as nat, 4);
    lemma_le_round_trip(info.total_frames as nat, 4);
    lemma_le_round_trip(info.data_size as nat, 8);
    lemma_le_round_trip(info.total_samples as nat, 8);
    assert(b.subrange(0, 4) =~= archive_tag());
    assert(b.subrange(5, 9) =~= le_bytes(info.sample_rate as nat, 4));
    assert(b.subrange(9, 11) =~= le_bytes(info.channels as nat, 2));
    assert(b.subrange(11, 15) =~= le_bytes(info.frame_size as nat, 4));
    assert(b.subrange(16, 20) =~= le_bytes(info.total_frames as nat, 4));
    assert(b.subrange(20, 28) =~= le_bytes(info.data_size as nat, 8));
    assert(b.subrange(28, 36) =~= le_bytes(info.total_samples as nat, 8));
    assert(b.skip(36) =~= rest);
}

/// An archive is recognized by its first five bytes, "ACMP" and the version 1, and by having at
/// least a header's length; nothing else matters.
pub proof fn law_stream_is_recognized(b: Seq<u8>)
    ensures
        is_stream(b) <==> b.len() >= 36 && b[0] == 0x41 && b[1] == 0x43 && b[2] == 0x4D && b[3]
            == 0x50 && b[4] == 1,
{
    if b.len() >= 36 {
        let t = b.subrange(0, 4);
        assert(t[0] == b[0] && t[1] == b[1] && t[2] == b[2] && t[3] == b[3]);
        if b[0] == 0x41 && b[1] == 0x43 && b[2] == 0x4D && b[3] == 0x50 {
            assert(t =~= archive_tag());
        }
    }
}

/// The two header layouts share their tag, their version and the place of the sample rate: an
/// archive laid out with the 26-byte header is recognized once it has the 36 bytes that are
/// read, and its sample rate is read back. `header_bytes` and `info_at` give the places of the
/// other fields, which differ.
pub proof fn law_written_archive_is_recognized(h: ArchiveHeader, stream: Seq<u8>)
    requires
        stream.len() >= 10,
    ensures
        is_stream(header_bytes(h) + stream),
        info_at(header_bytes(h) + stream).sample_rate == h.sample_rate,
{
    law_archive_layout(h, stream);
    lemma_header_fields(h);
}

/// How many samples the next frame holds: `frame_size`, or what is left of `total_samples`.
pub fn next_frame_len(total_samples: u64, samples_decoded: u64, frame_size: u32) -> (n: usize)
    requires
        samples_decoded <= total_samples,
    ensures
        n == if total_samples - samples_decoded < frame_size {
            total_samples - samples_decoded
        } else {
            frame_size as int
        },
{
    let remaining: u64 = total_samples - samples_decoded;
    if remaining < frame_size as u64 {
        remaining as usize
    } else {
        frame_size as usize
    }
}

/// How many of `total` samples `n` frames hold.
pub open spec fn samples_in_frames(total: nat, frame_size: nat, n: nat) -> nat
    decreases n,
{
    if n == 0 {
        0
    } else {
        let before = samples_in_frames(total, frame_size, (n - 1) as nat);
        before + if total - before < frame_size {
            (total - before) as nat
        } else {
            frame_size
        }
    }
}

/// Frame after frame, every sample is decoded once: `n` frames hold `n * frame_size` samples,
/// or all of them.
pub proof fn law_frames_add_up(total: nat, frame_size: nat, n: nat)
    ensures
        samples_in_frames(total, frame_size, n) == if n * frame_size <= total {
            n * frame_size
        } else {
            total
        },
    decreases n,
{
    if n > 0 {
        let m = (n - 1) as nat;
        law_frames_add_up(total, frame_size, m);
        assert(n * frame_size == m * frame_size + frame_size) by (nonlinear_arith)
            requires
                n == m + 1,
        ;
    } else {
        assert(0 * frame_size == 0) by (nonlinear_arith);
    }
}

/// The compressed bits of an archive.
pub fn payload<'a>(buffer: &'a [u8], info: &StreamInfo) -> (p: &'a [u8])
    requires
        STREAM_HEADER_SIZE + info.data_size <= buffer@.len(),
    ensures
        p@ == buffer@.subrange(
            STREAM_HEADER_SIZE as int,
            STREAM_HEADER_SIZE + info.data_size,
        ),
{
    let len: usize = buffer.len();
    slice_subrange(buffer, STREAM_HEADER_SIZE, STREAM_HEADER_SIZE + info.data_size as usize)
}

/// The 16-bit number that agrees with `x` modulo `2^16`.
pub open spec fn wrap16(x: int) -> i16 {
    signed((x % 0x1_0000) as nat)
}

/// The sample behind a prediction and a residual: their sum, cut to 16 bits.
pub fn reconstruct_sample(prediction: i16, residual: i32) -> (s: i16)
    ensures
        s == wrap16(prediction + residual),
{
    let sum: i64 = prediction as i64 + residual as i64;
    proof {
        assert(sum as i16 == if (sum + 0x1_0000_0000) % 0x1_0000 < 0x8000 {
            (sum + 0x1_0000_0000) % 0x1_0000
        } else {
            (sum + 0x1_0000_0000) % 0x1_0000 - 0x1_0000
        }) by (bit_vector)
            requires
                -0x1_0000_0000 <= sum <= 0x1_0000_0000,
        ;
    }
    sum as i16
}

/// The residuals of `s` under a predictor that sees the samples before the one it predicts.
pub open spec fn residuals_of(s: Seq<i16>, predict: spec_fn(Seq<i16>) -> i16) -> Seq<int> {
    Seq::new(s.len(), |i: int| s[i] - predict(s.take(i)))
}

/// The samples that residuals give under a predictor that sees the samples restored so far.
pub open spec fn restore(rs: Seq<int>, predict: spec_fn(Seq<i16>) -> i16) -> Seq<i16>
    decreases rs.len(),
{
    if rs.len() == 0 {
        Seq::empty()
    } else {
        let before = restore(rs.drop_last(), predict);
        before.push(wrap16(predict(before) + rs.last()))
    }
}

/// The step from a residual back to a sample undoes the step from a sample to its residual.
pub proof fn law_reconstruction(sample: i16, prediction: i16)
    ensures
        i32::MIN <= sample - prediction <= i32::MAX,
        wrap16(prediction + (sample - prediction)) == sample,
{
}

/// Prediction is lossless: whatever the predictor, restoring from the residuals of a frame
/// gives back its samples.
pub proof fn law_prediction_is_lossless(s: Seq<i16>, predict: spec_fn(Seq<i16>) -> i16)
    ensures
        restore(residuals_of(s, predict), predict) == s,
    decreases s.len(),
{
    let rs = residuals_of(s, predict);
    if s.len() > 0 {
        let init = s.drop_last();
        law_prediction_is_lossless(init, predict);
        assert forall|i: int| 0 <= i < init.len() implies residuals_of(init, predict)[i]
            == rs.drop_last()[i] by {
            assert(init.take(i) =~= s.take(i));
        }
        assert(residuals_of(init, predict) =~= rs.drop_last());
        assert(s.take(s.len() - 1) =~= init);
        law_reconstruction(s.last(), predict(init));
        assert(restore(rs, predict) =~= s);
    } else {
        assert(restore(rs, predict) =~= s);
    }
}

/// `predict` computes the function `f` of the samples it is given.
pub open spec fn computes<P: Fn(&[i16]) -> i16>(predict: P, f: spec_fn(Seq<i16>) -> i16) -> bool {
    forall|before: &[i16], p: i16| #[trigger]
        predict.ensures((before,), p) ==> p == f(before@)
}

/// `s` is the sum, cut to 16 bits, of `residual` and of what `predict` gave for `history`.
pub open spec fn is_restored<P: Fn(&[i16]) -> i16>(
    predict: P,
    history: Seq<i16>,
    residual: i32,
    s: i16,
) -> bool {
    exists|before: &[i16], p: i16| #[trigger]
        predict.ensures((before,), p) && before@ == history && s == wrap16(p + residual)
}

/// 32-bit residuals as integers.
pub open spec fn as_ints(rs: Seq<i32>) -> Seq<int> {
    Seq::new(rs.len(), |i: int| rs[i] as int)
}

/// Restores a frame: each sample is its residual added to what `predict` makes of the samples
/// before it.
pub fn restore_frame<P: Fn(&[i16]) -> i16>(residuals: &[i32], predict: P) -> (out: Vec<i16>)
    requires
        forall|before: &[i16]| #[trigger] predict.requires((before,)),
    ensures
        out@.len() == residuals@.len(),
        forall|i: int|
            0 <= i < out@.len() ==> is_restored(
                predict,
                out@.take(i),
                residuals@[i],
                #[trigger] out@[i],
            ),
        forall|f: spec_fn(Seq<i16>) -> i16| #[trigger]
            computes(predict, f) ==> out@ == restore(as_ints(residuals@), f),
{
    let n: usize = residuals.len();
    let ghost rs = as_ints(residuals@);
    let mut out: Vec<i16> = Vec::with_capacity(n);
    let mut i: usize = 0;
    while i < n
        invariant
            i <= n,
            n == residuals@.len(),
            rs == as_ints(residuals@),
            out@.len() == i,
            forall|before: &[i16]| #[trigger] predict.requires((before,)),
            forall|j: int|
                0 <= j < i ==> is_restored(
                    predict,
                    out@.take(j),
                    residuals@[j],
                    #[trigger] out@[j],
                ),
            forall|f: spec_fn(Seq<i16>) -> i16| #[trigger]
                computes(predict, f) ==> out@ == restore(rs.take(i as int), f),
        decreases n - i,
    {
        let history: &[i16] = out.as_slice();
        let p: i16 = predict(history);
        let r: i32 = residuals[i];
        let sample: i16 = reconstruct_sample(p, r);
        let ghost before = out@;
        assert(predict.ensures((history,), p) && history@ == before);
        assert(is_restored(predict, before, r, sample));
        out.push(sample);
        proof {
            assert forall|j: int| 0 <= j < i + 1 implies is_restored(
                predict,
                out@.take(j),
                residuals@[j],
                #[trigger] out@[j],
            ) by {
                assert(out@.take(j) =~= before.take(j));
                assert(before.take(i as int) =~= before);
                if j < i {
                    assert(out@[j] == before[j]);
                }
            }
            assert(rs.take(i + 1).drop_last() =~= rs.take(i as int));
            assert forall|f: spec_fn(Seq<i16>) -> i16| #[trigger] computes(predict, f) implies out@
                == restore(rs.take(i + 1), f) by {
                assert(p == f(before));
            }
        }
        i = i + 1;
    }
    assert(rs.take(n as int) =~= rs);
    out
}

/// The residuals of 16-bit samples, as they are coded.
pub open spec fn coded_residuals(s: Seq<i16>, predict: spec_fn(Seq<i16>) -> i16) -> Seq<i32> {
    Seq::new(s.len(), |i: int| residuals_of(s, predict)[i] as i32)
}

/// A frame comes back bit for bit: code the residuals of its samples with any parameter, let
/// anything follow, read the frame back and restore it with the same predictor.
pub proof fn law_frame_is_lossless(
    s: Seq<i16>,
    predict: spec_fn(Seq<i16>) -> i16,
    k: nat,
    rest: Seq<bool>,
)
    requires
        k <= 31,
    ensures
        ({
            let zs = zigzags(coded_residuals(s, predict));
            &&& parse_frame(frame_bits(zs, k) + rest, s.len()) == Some((k, zs, rest))
            &&& restore(as_ints(unzigzags(zs)), predict) == s
        }),
{
    let rs = coded_residuals(s, predict);
    law_frame_round_trip(rs, k, rest);
    assert(as_ints(rs) =~= residuals_of(s, predict));
    law_prediction_is_lossless(s, predict);
}

/// Cutting to 16 bits keeps a number modulo `2^16`.
pub proof fn law_wrap16(x: int)
    ensures
        (wrap16(x) - x) % 0x1_0000 == 0,
{
}

/// Residuals, sample by sample: what the predictor misses, given the samples before.
pub proof fn law_residuals(s: Seq<i16>, predict: spec_fn(Seq<i16>) -> i16, i: int)
    ensures
        residuals_of(s, predict).len() == s.len(),
        coded_residuals(s, predict).len() == s.len(),
        0 <= i < s.len() ==> residuals_of(s, predict)[i] == s[i] - predict(s.take(i)),
        0 <= i < s.len() ==> coded_residuals(s, predict)[i] == s[i] - predict(s.take(i)),
{
}

/// Restored samples, one by one: each agrees, modulo `2^16`, with its residual added to what the
/// predictor gives for the restored samples before it.
pub proof fn law_restore(rs: Seq<int>, predict: spec_fn(Seq<i16>) -> i16, i: int)
    ensures
        restore(rs, predict).len() == rs.len(),
        0 <= i < rs.len() ==> {
            let s = restore(rs, predict);
            (s[i] - (predict(s.take(i)) + rs[i])) % 0x1_0000 == 0
        },
    decreases rs.len(),
{
    if rs.len() > 0 {
        let init = rs.drop_last();
        law_restore(init, predict, i);
        let s = restore(rs, predict);
        let before = restore(init, predict);
        assert(s.drop_last() =~= before);
        if 0 <= i < rs.len() - 1 {
            assert(s.take(i) =~= before.take(i));
        } else if i == rs.len() - 1 {
            law_restore(init, predict, 0);
            assert(s.take(i) =~= before);
            law_wrap16(predict(before) + rs.last());
        }
    }
}

/// Integers of a sequence, element by element.
pub proof fn law_as_ints(rs: Seq<i32>, i: int)
    ensures
        as_ints(rs).len() == rs.len(),
        0 <= i < rs.len() ==> as_ints(rs)[i] == rs[i],
{
}

/// A predictor computes a function exactly if that is all it ever gives.
pub proof fn law_computes<P: Fn(&[i16]) -> i16>(predict: P, f: spec_fn(Seq<i16>) -> i16)
    ensures
        computes(predict, f) <==> forall|before: &[i16], p: i16| #[trigger]
            predict.ensures((before,), p) ==> p == f(before@),
{
}

/// Samples that are restored one by one are determined: where the predictor computes a
/// function, they are what that function restores.
pub proof fn law_restored_is_determined<P: Fn(&[i16]) -> i16>(
    predict: P,
    f: spec_fn(Seq<i16>) -> i16,
    rs: Seq<i32>,
    s: Seq<i16>,
)
    requires
        computes(predict, f),
        s.len() == rs.len(),
        forall|i: int|
            0 <= i < s.len() ==> is_restored(predict, s.take(i), rs[i], #[trigger] s[i]),
    ensures
        s == restore(as_ints(rs), f),
    decreases rs.len(),
{
    if rs.len() > 0 {
        let n = rs.len() - 1;
        let r = rs.drop_last();
        let t = s.drop_last();
        assert forall|i: int| 0 <= i < t.len() implies is_restored(
            predict,
            t.take(i),
            r[i],
            #[trigger] t[i],
        ) by {
            assert(t.take(i) =~= s.take(i));
            assert(t[i] == s[i]);
        }
        law_restored_is_determined(predict, f, r, t);
        assert(as_ints(rs).drop_last() =~= as_ints(r));
        assert(s.take(n) =~= t);
        assert(is_restored(predict, s.take(n), rs[n], s[n]));
    }
    assert(s =~= restore(as_ints(rs), f));
}

/// The name of an archive loses its ".acmp" ending, and a name without one is kept.
pub proof fn law_archive_stem(stem: Seq<char>, path: Seq<char>)
    ensures
        archive_stem(stem + seq!['.', 'a', 'c', 'm', 'p']) == stem,
        archive_stem(path) == path || archive_stem(path) + seq!['.', 'a', 'c', 'm', 'p'] == path,
{
    let ending = seq!['.', 'a', 'c', 'm', 'p'];
    let long = stem + ending;
    assert(long.skip(long.len() - 5) =~= ending);
    assert(long.take(long.len() - 5) =~= stem);
    if path.len() >= 5 && path.skip(path.len() - 5) == ending {
        assert(path =~= path.take(path.len() - 5) + ending);
    }
}

/// A path without its ".acmp" ending, if it has one.
pub open spec fn archive_stem(path: Seq<char>) -> Seq<char> {
    if path.len() >= 5 && path.skip(path.len() - 5) == seq!['.', 'a', 'c', 'm', 'p'] {
        path.take(path.len() - 5)
    } else {
        path
    }
}

/// Where the WAV file of an archive goes.
pub fn decoded_path(path: &str) -> (out: String)
    ensures
        out@ == archive_stem(path@) + seq!['_', 'd', 'e', 'c', '.', 'w', 'a', 'v'],
{
    let n: usize = path.unicode_len();
    let is_archive: bool = n >= 5 && path.get_char(n - 5) == '.' && path.get_char(n - 4) == 'a'
        && path.get_char(n - 3) == 'c' && path.get_char(n - 2) == 'm' && path.get_char(n - 1)
        == 'p';
    proof {
        reveal_strlit("_dec.wav");
        assert("_dec.wav"@ =~= seq!['_', 'd', 'e', 'c', '.', 'w', 'a', 'v']);
        if n >= 5 {
            let t = path@.skip(n - 5);
            let ending = seq!['.', 'a', 'c', 'm', 'p'];
            assert(t[0] == path@[n - 5] && t[1] == path@[n - 4] && t[2] == path@[n - 3] && t[3]
                == path@[n - 2] && t[4] == path@[n - 1]);
            assert(ending[0] == '.' && ending[1] == 'a' && ending[2] == 'c' && ending[3] == 'm'
                && ending[4] == 'p');
            if is_archive {
                assert(t =~= ending);
            }
        }
    }
    let end: usize = if is_archive {
        n - 5
    } else {
        n
    };
    let mut out: String = path.substring_char(0, end).to_owned();
    assert(out@ =~= archive_stem(path@));
    out.append("_dec.wav");
    out
}

// ---- The WAV file ----

/// Samples as little-endian bytes.
pub open spec fn pcm_bytes(s: Seq<i16>) -> Seq<u8>
    decreases s.len(),
{
    if s.len() == 0 {
        Seq::empty()
    } else {
        pcm_bytes(s.drop_last()) + le_bytes(unsigned(s.last()), 2)
    }
}

/// The 44 bytes before the samples of a 16-bit PCM file with `size` bytes of samples.
#[verifier::opaque]
pub open spec fn wav_preamble(size: nat, sample_rate: nat, channels: nat) -> Seq<u8> {
    riff_tag() + le_bytes(36 + size, 4) + wave_tag() + fmt_tag() + le_bytes(16, 4) + le_bytes(1, 2)
        + le_bytes(channels, 2) + le_bytes(sample_rate, 4) + le_bytes(sample_rate * channels * 2, 4)
        + le_bytes(channels * 2, 2) + le_bytes(16, 2) + data_tag() + le_bytes(size, 4)
}

/// A 16-bit PCM file. Its size fields have 32 bits.
pub open spec fn wav_bytes(s: Seq<i16>, sample_rate: nat, channels: nat) -> Seq<u8> {
    wav_preamble((2 * s.len()) % 0x1_0000_0000, sample_rate, channels) + pcm_bytes(s)
}

/// Lays out a 16-bit PCM WAV file.
pub fn write_wav(samples: &[i16], sample_rate: u32, channels: u16) -> (out: Vec<u8>)
    requires
        2 * samples@.len() <= usize::MAX,
        36 + (2 * samples@.len()) % 0x1_0000_0000 <= u32::MAX,
        sample_rate * channels * 2 <= u32::MAX,
        channels * 2 <= u16::MAX,
    ensures
        out@ == wav_bytes(samples@, sample_rate as nat, channels as nat),
{
    let n: usize = samples.len();
    let size: u32 = ((n * 2) as u64 % 0x1_0000_0000) as u32;
    let file_size: u32 = 36 + size;
    proof {
        assert(sample_rate * channels <= sample_rate * channels * 2) by (nonlinear_arith);
    }
    let byte_rate: u32 = sample_rate * channels as u32 * 2;
    let block_align: u16 = channels * 2;
    let mut out: Vec<u8> = Vec::new();
    push_tag(&mut out, 0x52, 0x49, 0x46, 0x46);
    assert(out@ =~= riff_tag());
    push_le(&mut out, file_size as u64, 4);
    push_tag(&mut out, 0x57, 0x41, 0x56, 0x45);
    push_tag(&mut out, 0x66, 0x6D, 0x74, 0x20);
    push_le(&mut out, 16, 4);
    push_le(&mut out, WAV_FORMAT_PCM as u64, 2);
    push_le(&mut out, channels as u64, 2);
    push_le(&mut out, sample_rate as u64, 4);
    push_le(&mut out, byte_rate as u64, 4);
    push_le(&mut out, block_align as u64, 2);
    push_le(&mut out, 16, 2);
    push_tag(&mut out, 0x64, 0x61, 0x74, 0x61);
    push_le(&mut out, size as u64, 4);
    let ghost head = out@;
    reveal(wav_preamble);
    assert(head == wav_preamble(size as nat, sample_rate as nat, channels as nat));
    let mut i: usize = 0;
    assert(out@ =~= head + pcm_bytes(samples@.take(0)));
    while i < n
        invariant
            i <= n,
            n == samples@.len(),
            out@ == head + pcm_bytes(samples@.take(i as int)),
        decreases n - i,
    {
        proof {
            assert(samples@.take(i + 1).drop_last() =~= samples@.take(i as int));
        }
        push_le(&mut out, to_unsigned(samples[i]) as u64, 2);
        i = i + 1;
        assert(out@ =~= head + pcm_bytes(samples@.take(i as int)));
    }
    assert(samples@.take(n as int) =~= samples@);
    out
}

/// Appends four bytes.
fn push_tag(out: &mut Vec<u8>, t0: u8, t1: u8, t2: u8, t3: u8)
    ensures
        final(out)@ == old(out)@ + seq![t0, t1, t2, t3],
{
    out.push(t0);
    out.push(t1);
    out.push(t2);
    out.push(t3);
    assert(out@ =~= old(out)@ + seq![t0, t1, t2, t3]);
}

#[verifier::spinoff_prover]
proof fn lemma_pcm_bytes(s: Seq<i16>)
    ensures
        pcm_bytes(s).len() == 2 * s.len(),
        pcm_samples(pcm_bytes(s)) == s,
    decreases s.len(),
{
    if s.len() > 0 {
        let init = s.drop_last();
        lemma_pcm_bytes(init);
        let u = unsigned(s.last());
        lemma_le_bytes_len(u, 2);
        lemma_le_ranges();
        lemma_le_round_trip(u, 2);
        let b = pcm_bytes(s);
        assert forall|i: int| 0 <= i < s.len() implies pcm_samples(b)[i] == s[i] by {
            if i < s.len() - 1 {
                assert(b.subrange(2 * i, 2 * i + 2) =~= pcm_bytes(init).subrange(2 * i, 2 * i + 2));
                assert(pcm_samples(pcm_bytes(init))[i] == init[i]);
            } else {
                assert(b.subrange(2 * i, 2 * i + 2) =~= le_bytes(u, 2));
            }
        }
    }
    assert(pcm_samples(pcm_bytes(s)) =~= s);
}

/// `b` starts like a 16-bit PCM file with `size` bytes of samples.
spec fn starts_like_wav(b: Seq<u8>, size: nat, rate: nat, channels: nat) -> bool {
    &&& b.subrange(0, 4) == riff_tag()
    &&& b.subrange(8, 12) == wave_tag()
    &&& chunk_id(b, 12) == fmt_tag()
    &&& chunk_size(b, 12) == 16
    &&& number_at(b, 20, 2) == 1
    &&& number_at(b, 22, 2) == channels
    &&& number_at(b, 24, 4) == rate
    &&& number_at(b, 34, 2) == 16
    &&& chunk_id(b, 36) == data_tag()
    &&& chunk_size(b, 36) == size
}

proof fn lemma_preamble_fields(size: nat, rate: nat, channels: nat)
    requires
        36 + size <= u32::MAX,
        rate <= u32::MAX,
        rate * channels * 2 <= u32::MAX,
        channels * 2 <= u16::MAX,
    ensures
        wav_preamble(size, rate, channels).len() == 44,
        starts_like_wav(wav_preamble(size, rate, channels), size, rate, channels),
{
    reveal(wav_preamble);
    lemma_le_ranges();
    lemma_le_bytes_len(36 + size, 4);
    lemma_le_bytes_len(16, 4);
    lemma_le_bytes_len(1, 2);
    lemma_le_bytes_len(channels, 2);
    lemma_le_bytes_len(rate, 4);
    lemma_le_bytes_len(rate * channels * 2, 4);
    lemma_le_bytes_len(channels * 2, 2);
    lemma_le_bytes_len(16, 2);
    lemma_le_bytes_len(size, 4);
    lemma_le_round_trip(16, 4);
    lemma_le_round_trip(1, 2);
    lemma_le_round_trip(channels, 2);
    lemma_le_round_trip(rate, 4);
    lemma_le_round_trip(16, 2);
    lemma_le_round_trip(size, 4);
    let b = wav_preamble(size, rate, channels);
    assert(b.subrange(0, 4) =~= riff_tag());
    assert(b.subrange(8, 12) =~= wave_tag());
    assert(b.subrange(12, 16) =~= fmt_tag());
    assert(b.subrange(16, 20) =~= le_bytes(16, 4));
    assert(b.subrange(20, 22) =~= le_bytes(1, 2));
    assert(b.subrange(22, 24) =~= le_bytes(channels, 2));
    assert(b.subrange(24, 28) =~= le_bytes(rate, 4));
    assert(b.subrange(34, 36) =~= le_bytes(16, 2));
    assert(b.subrange(36, 40) =~= data_tag());
    assert(b.subrange(40, 44) =~= le_bytes(size, 4));
}

/// What follows the preamble does not change how the file starts.
proof fn lemma_starts_like_wav_extend(a: Seq<u8>, t: Seq<u8>, size: nat, rate: nat, channels: nat)
    requires
        a.len() == 44,
        starts_like_wav(a, size, rate, channels),
    ensures
        starts_like_wav(a + t, size, rate, channels),
{
    let b = a + t;
    assert(b.subrange(0, 4) =~= a.subrange(0, 4));
    assert(b.subrange(8, 12) =~= a.subrange(8, 12));
    assert(b.subrange(12, 16) =~= a.subrange(12, 16));
    assert(b.subrange(16, 20) =~= a.subrange(16, 20));
    assert(b.subrange(20, 22) =~= a.subrange(20, 22));
    assert(b.subrange(22, 24) =~= a.subrange(22, 24));
    assert(b.subrange(24, 28) =~= a.subrange(24, 28));
    assert(b.subrange(34, 36) =~= a.subrange(34, 36));
    assert(b.subrange(36, 40) =~= a.subrange(36, 40));
    assert(b.subrange(40, 44) =~= a.subrange(40, 44));
}

/// The two chunks of such a file are found, and no others.
proof fn lemma_two_chunks(b: Seq<u8>, size: nat, rate: nat, channels: nat)
    requires
        starts_like_wav(b, size, rate, channels),
        b.len() == 44 + size,
        size % 2 == 0,
    ensures
        chunk_positions(b, 12) == seq![12int, 36int],
        first_cut_format(b, seq![12int, 36int]) is None,
        last_chunk(b, seq![12int, 36int], fmt_tag()) == Some(12int),
        last_chunk(b, seq![12int, 36int], data_tag()) == Some(36int),
{
    assert(next_chunk(b, 12) == 36);
    assert(next_chunk(b, 36) == b.len());
    assert(chunk_positions(b, b.len() as int) =~= Seq::empty());
    assert(chunk_positions(b, 36) =~= seq![36int]);
    assert(chunk_positions(b, 12) =~= seq![12int, 36int]);
    let ps = seq![12int, 36int];
    let first = seq![12int];
    assert(ps.drop_last() =~= first);
    assert(first.drop_last() =~= Seq::empty());
    assert(ps.last() == 36 && first.last() == 12);
    assert(fmt_tag()[0] != data_tag()[0]);
    assert(first_cut_format(b, Seq::empty()) is None);
    assert(first_cut_format(b, first) is None);
    assert(last_chunk(b, first, fmt_tag()) == Some(12int));
}

/// The header of such a file.
proof fn lemma_header_of_wav(b: Seq<u8>, size: nat, rate: u32, channels: u16)
    requires
        starts_like_wav(b, size, rate as nat, channels as nat),
        b.len() == 44 + size,
        size % 2 == 0,
        44 + size <= usize::MAX,
    ensures
        readable_header(b) == Ok::<WavHeader, IngestError>(
            WavHeader {
                format_tag: WAV_FORMAT_PCM,
                channels,
                sample_rate: rate,
                bits_per_sample: 16,
                data_offset: 44,
                data_size: size as usize,
            },
        ),
{
    lemma_two_chunks(b, size, rate as nat, channels as nat);
    let h = header_at(b, 12, 36);
    assert(wav_header(b) == Ok::<WavHeader, IngestError>(h));
}

/// The parts of a file whose sizes fit.
proof fn lemma_wav_bytes_parts(s: Seq<i16>, rate: nat, channels: nat)
    requires
        36 + 2 * s.len() <= u32::MAX,
        rate <= u32::MAX,
        rate * channels * 2 <= u32::MAX,
        channels * 2 <= u16::MAX,
    ensures
        wav_bytes(s, rate, channels).len() == 44 + 2 * s.len(),
        starts_like_wav(wav_bytes(s, rate, channels), 2 * s.len(), rate, channels),
        wav_bytes(s, rate, channels).subrange(44, 44int + 2 * s.len()) == pcm_bytes(s),
{
    let size = 2 * s.len();
    let head = wav_preamble(size, rate, channels);
    let tail = pcm_bytes(s);
    assert(size % 0x1_0000_0000 == size);
    lemma_preamble_fields(size, rate, channels);
    lemma_pcm_bytes(s);
    lemma_starts_like_wav_extend(head, tail, size, rate, channels);
    assert((head + tail).subrange(44, 44 + size as int) =~= tail);
}

/// Samples written as bytes are read back.
pub proof fn law_pcm_round_trip(s: Seq<i16>)
    ensures
        pcm_bytes(s).len() == 2 * s.len(),
        pcm_samples(pcm_bytes(s)) == s,
{
    lemma_pcm_bytes(s);
}

/// A written WAV file field by field, as its readers expect it: the sizes, cut to 32 bits, the
/// format, the rates and the alignment that follow from it, and then the samples.
#[verifier::spinoff_prover]
pub proof fn law_wav_layout(s: Seq<i16>, sample_rate: u32, channels: u16)
    requires
        36 + (2 * s.len()) % 0x1_0000_0000 <= u32::MAX,
        sample_rate * channels * 2 <= u32::MAX,
        channels * 2 <= u16::MAX,
    ensures
        ({
            let b = wav_bytes(s, sample_rate as nat, channels as nat);
            let size = (2 * s.len()) % 0x1_0000_0000;
            &&& b.len() == 44 + 2 * s.len()
            &&& b.subrange(0, 4) == seq![0x52u8, 0x49, 0x46, 0x46]
            &&& le_value(b.subrange(4, 8)) == 36 + size
            &&& b.subrange(8, 12) == seq![0x57u8, 0x41, 0x56, 0x45]
            &&& b.subrange(12, 16) == seq![0x66u8, 0x6D, 0x74, 0x20]
            &&& le_value(b.subrange(16, 20)) == 16
            &&& le_value(b.subrange(20, 22)) == 1
            &&& le_value(b.subrange(22, 24)) == channels
            &&& le_value(b.subrange(24, 28)) == sample_rate
            &&& le_value(b.subrange(28, 32)) == sample_rate * channels * 2
            &&& le_value(b.subrange(32, 34)) == channels * 2
            &&& le_value(b.subrange(34, 36)) == 16
            &&& b.subrange(36, 40) == seq![0x64u8, 0x61, 0x74, 0x61]
            &&& le_value(b.subrange(40, 44)) == size
            &&& pcm_samples(b.skip(44)) == s
        }),
{
    let size = (2 * s.len()) % 0x1_0000_0000;
    let rate = sample_rate as nat;
    let n = channels as nat;
    let head = wav_preamble(size, rate, n);
    let tail = pcm_bytes(s);
    let b = head + tail;
    assert(0 <= sample_rate * channels * 2) by (nonlinear_arith);
    lemma_preamble_fields(size, rate, n);
    lemma_preamble_rates(size, rate, n);
    lemma_pcm_bytes(s);
    lemma_starts_like_wav_extend(head, tail, size, rate, n);
    lemma_fields_of_start(b, size, rate, n);
    assert(b.subrange(4, 8) =~= head.subrange(4, 8));
    assert(b.subrange(28, 32) =~= head.subrange(28, 32));
    assert(b.subrange(32, 34) =~= head.subrange(32, 34));
    assert(b.skip(44) =~= tail);
}

/// The fields that such a start has, by their bytes.
proof fn lemma_fields_of_start(b: Seq<u8>, size: nat, rate: nat, channels: nat)
    requires
        starts_like_wav(b, size, rate, channels),
    ensures
        b.subrange(0, 4) == riff_tag(),
        b.subrange(8, 12) == wave_tag(),
        b.subrange(12, 16) == fmt_tag(),
        le_value(b.subrange(16, 20)) == 16,
        le_value(b.subrange(20, 22)) == 1,
        le_value(b.subrange(22, 24)) == channels,
        le_value(b.subrange(24, 28)) == rate,
        le_value(b.subrange(34, 36)) == 16,
        b.subrange(36, 40) == data_tag(),
        le_value(b.subrange(40, 44)) == size,
{
}

/// The fields of the preamble that follow from the others.
proof fn lemma_preamble_rates(size: nat, rate: nat, channels: nat)
    requires
        36 + size <= u32::MAX,
        rate <= u32::MAX,
        rate * channels * 2 <= u32::MAX,
        channels * 2 <= u16::MAX,
    ensures
        le_value(wav_preamble(size, rate, channels).subrange(4, 8)) == 36 + size,
        le_value(wav_preamble(size, rate, channels).subrange(28, 32)) == rate * channels * 2,
        le_value(wav_preamble(size, rate, channels).subrange(32, 34)) == channels * 2,
{
    reveal(wav_preamble);
    lemma_le_ranges();
    lemma_le_bytes_len(36 + size, 4);
    lemma_le_bytes_len(16, 4);
    lemma_le_bytes_len(1, 2);
    lemma_le_bytes_len(channels, 2);
    lemma_le_bytes_len(rate, 4);
    lemma_le_bytes_len(rate * channels * 2, 4);
    lemma_le_bytes_len(channels * 2, 2);
    lemma_le_bytes_len(16, 2);
    lemma_le_bytes_len(size, 4);
    lemma_le_round_trip(36 + size, 4);
    lemma_le_round_trip(rate * channels * 2, 4);
    lemma_le_round_trip(channels * 2, 2);
    let b = wav_preamble(size, rate, channels);
    assert(b.subrange(4, 8) =~= le_bytes(36 + size, 4));
    assert(b.subrange(28, 32) =~= le_bytes(rate * channels * 2, 4));
    assert(b.subrange(32, 34) =~= le_bytes(channels * 2, 2));
}

/// Reading a WAV file that was written gives back its rate, its channels and its samples.
pub proof fn law_wav_round_trip(s: Seq<i16>, sample_rate: u32, channels: u16)
    requires
        36 + 2 * s.len() <= u32::MAX,
        44 + 2 * s.len() <= usize::MAX,
        sample_rate * channels * 2 <= u32::MAX,
        channels * 2 <= u16::MAX,
    ensures
        ({
            let b = wav_bytes(s, sample_rate as nat, channels as nat);
            &&& readable_header(b) == Ok::<WavHeader, IngestError>(
                WavHeader {
                    format_tag: WAV_FORMAT_PCM,
                    channels,
                    sample_rate,
                    bits_per_sample: 16,
                    data_offset: 44,
                    data_size: (2 * s.len()) as usize,
                },
            )
            &&& pcm_samples(b.subrange(44, 44int + 2 * s.len())) == s
        }),
{
    lemma_wav_bytes_parts(s, sample_rate as nat, channels as nat);
    lemma_header_of_wav(
        wav_bytes(s, sample_rate as nat, channels as nat),
        2 * s.len(),
        sample_rate,
        channels,
    );
    lemma_pcm_bytes(s);
}

} // verus!
