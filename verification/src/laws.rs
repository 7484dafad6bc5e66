//! Laws over calls: what the results of the library's functions have to do with their arguments,
//! and the results of several calls with each other.
use vstd::arithmetic::power::pow;
use vstd::arithmetic::power2::pow2;
use vstd::prelude::*;

use crate::bits::{bits_of, bytes_bits, law_runs, unary};
use crate::code::{
    frame_bits, law_frame_round_trip, law_opens_with_unary, law_parse_value,
    law_parse_value_only_codes, law_zigzag_round_trip, law_zigzags_elementwise, lemma_unary_unique,
    lemma_value_of_bits_of, parse_frame, unzigzags, value_of, zigzags,
};
use crate::decompress::{
    as_ints, decoded_path, law_archive_stem, law_computes, law_restore,
    law_stream_header_reads_back, law_stream_is_recognized, law_wav_layout, law_wav_round_trip,
    law_wrap16, next_frame_len, parse_stream_header, payload, reconstruct_sample, restore_frame,
    write_wav, StreamInfo,
};
use crate::entropy::{encode_frame, zigzag_decode, zigzag_encode, BitWriter};
use crate::ingest::{
    chunk_bytes, data_tag, fmt_tag, law_format_extension_is_skipped, law_frame_contents,
    law_frames_needed_is_least, law_readable_header, law_samples_from_bytes,
    law_unknown_chunk_is_skipped, parse_wav_header, pcm_samples, readable_header, wav_header,
    word_samples, Frame, IngestError, MappedAudio, SampleSlice, WavHeader,
};
use crate::le::{
    law_le_bytes, law_signed_words, le_bytes, le_value, lemma_le_bytes_len, push_le, read_le,
    to_signed, to_unsigned,
};
use crate::lpc::{
    autocorrelation, autocorrelation_lanes, autocorrelation_scalar,
    law_autocorrelation_sums_products,
};
use crate::pipeline::{frame_report, frame_step, FrameReport, FrameStep, Totals};
use crate::reader::BitReader;
use crate::rice::{
    law_copies_share_a_parameter, law_rice_parameter_rounds, law_total_is_sum,
    optimal_rice_parameter, total,
};
use crate::sarcophagus::{
    archive_tag, law_archive_layout, lemma_header_fields, write_archive, ArchiveHeader,
};
use crate::stream::{
    decode_stream, law_computes_frames, law_decoder_goes_by_header, law_payload_gives_back_samples,
    parse_frames, restore_frames, stream_bits,
};
use crate::sums::{law_sum, sum};

verus! {

// ---- Entropy coding ----

proof fn lemma_total_as_sum(zs: Seq<u32>)
    ensures
        total(zs) == sum(Seq::new(zs.len(), |i: int| zs[i] as int)),
    decreases zs.len(),
{
    let xs = Seq::new(zs.len(), |i: int| zs[i] as int);
    if zs.len() > 0 {
        let init = zs.drop_last();
        lemma_total_as_sum(init);
        law_total_is_sum(init, seq![zs.last()], zs.last());
        assert(init + seq![zs.last()] =~= zs);
        let ys = Seq::new(init.len(), |i: int| init[i] as int);
        law_sum(ys, seq![zs.last() as int], zs.last() as int);
        assert(ys + seq![zs.last() as int] =~= xs);
    } else {
        assert(zs =~= Seq::empty());
        assert(xs =~= Seq::empty());
        law_total_is_sum(zs, zs, 0);
        law_sum(xs, xs, 0);
    }
}

/// The parameter is chosen by the mean: it is at most `j` exactly where `mean * ln(2)` is below
/// `2^j * sqrt(2)`, both sides scaled and squared.
pub proof fn law_parameter_of_call(zs: &[u32], k: u8, j: nat)
    requires
        call_ensures(optimal_rice_parameter, (zs,), k),
    ensures
        zs@.len() == 0 ==> k == 0,
        zs@.len() > 0 ==> (k <= j <==> {
            let x = sum(Seq::new(zs@.len(), |i: int| zs@[i] as int)) * 0x16_2E42_FEFA_39EF;
            let y = zs@.len() * pow2(53 + j);
            x * x < 2 * (y * y)
        }),
{
    law_rice_parameter_rounds(zs@, j);
    lemma_total_as_sum(zs@);
}

/// Equal values get the same parameter, however many they are.
pub proof fn law_parameter_of_copies(zs: &[u32], ws: &[u32], z: u32, k: u8, j: u8)
    requires
        call_ensures(optimal_rice_parameter, (zs,), k),
        call_ensures(optimal_rice_parameter, (ws,), j),
        zs@.len() > 0,
        ws@.len() > 0,
        forall|i: int| 0 <= i < zs@.len() ==> #[trigger] zs@[i] == z,
        forall|i: int| 0 <= i < ws@.len() ==> #[trigger] ws@[i] == z,
    ensures
        k == j,
{
    law_copies_share_a_parameter(z, zs@.len());
    law_copies_share_a_parameter(z, ws@.len());
    assert(zs@ =~= Seq::new(zs@.len(), |i: int| z));
    assert(ws@ =~= Seq::new(ws@.len(), |i: int| z));
}

/// Zigzag numbers are decoded to what was encoded; they are even for what is not negative, and
/// twice as large.
pub proof fn law_zigzag_calls(v: i32, z: u32, w: i32)
    requires
        call_ensures(zigzag_encode, (v,), z),
        call_ensures(zigzag_decode, (z,), w),
    ensures
        w == v,
        v >= 0 ==> z == 2 * v,
        v < 0 ==> z + 1 == -2 * v,
{
    law_zigzag_round_trip(v as int, z as int);
}

/// A coded frame is appended to what was written, has the announced length, and reads back as
/// the parameter and the residuals, whatever follows.
pub proof fn law_coded_frame_reads_back(
    residuals: &[i32],
    writer: &mut BitWriter,
    r: (u8, usize),
    rest: Seq<bool>,
)
    requires
        call_ensures(encode_frame, (residuals, writer), r),
    ensures
        ({
            let before = old(writer)@;
            let code = final(writer)@.skip(before.len() as int);
            &&& final(writer)@ == before + code
            &&& code == frame_bits(zigzags(residuals@), r.0 as nat)
            &&& code.len() == r.1
            &&& parse_frame(code + rest, residuals@.len()) matches Some((k, zs, left)) && k == r.0
                && unzigzags(zs) == residuals@ && left == rest
        }),
{
    let code = frame_bits(zigzags(residuals@), r.0 as nat);
    assert(final(writer)@.skip(old(writer)@.len() as int) =~= code);
    law_frame_round_trip(residuals@, r.0 as nat, rest);
}

/// A frame is coded with the parameter that is optimal for its zigzag numbers.
pub proof fn law_frame_has_optimal_parameter(
    residuals: &[i32],
    zs: &[u32],
    writer: &mut BitWriter,
    r: (u8, usize),
    k: u8,
)
    requires
        call_ensures(encode_frame, (residuals, writer), r),
        call_ensures(optimal_rice_parameter, (zs,), k),
        zs@.len() == residuals@.len(),
        forall|i: int|
            0 <= i < zs@.len() ==> call_ensures(
                zigzag_encode,
                (residuals@[i],),
                #[trigger] zs@[i],
            ),
    ensures
        r.0 == k,
{
    assert forall|i: int| 0 <= i < zs@.len() implies zs@[i] == zigzags(residuals@)[i] by {
        assert(call_ensures(zigzag_encode, (residuals@[i],), zs@[i]));
        law_zigzags_elementwise(residuals@, zs@, i);
    }
    law_zigzags_elementwise(residuals@, zs@, 0);
    assert(zs@ =~= zigzags(residuals@));
}

/// A number is appended with the bits that count, most significant first; what was there stays.
pub proof fn law_writing_appends(w: &mut BitWriter, v: u64, n: u8)
    requires
        call_ensures(BitWriter::write_bits, (w, v, n), ()),
        n <= 64,
    ensures
        ({
            let m = old(w)@.len() as int;
            &&& final(w)@.len() == m + n
            &&& final(w)@.take(m) == old(w)@
            &&& value_of(final(w)@.skip(m)) == v as nat % pow2(n as nat)
        }),
{
    let m = old(w)@.len() as int;
    assert(final(w)@.take(m) =~= old(w)@);
    assert(final(w)@.skip(m) =~= bits_of(v, n as nat));
    lemma_value_of_bits_of(v, n as nat);
}

/// A unary code: as many ones as the number says, and a zero.
pub proof fn law_writing_unary(w: &mut BitWriter, q: u32, i: int)
    requires
        call_ensures(BitWriter::write_unary, (w, q), ()),
    ensures
        ({
            let m = old(w)@.len() as int;
            &&& final(w)@.len() == m + q + 1
            &&& final(w)@.take(m) == old(w)@
            &&& m <= i < m + q ==> final(w)@[i]
            &&& !final(w)@[m + q]
        }),
{
    let m = old(w)@.len() as int;
    assert(final(w)@.take(m) =~= old(w)@);
    law_runs(true, q as nat, i - m);
}

/// Another writer's bits are appended as they are.
pub proof fn law_appending_writer(w: &mut BitWriter, other: &BitWriter)
    requires
        call_ensures(BitWriter::append_bits, (w, other), ()),
    ensures
        final(w)@ == old(w)@ + other@,
{
}

/// A flush moves every bit to whole bytes, with fewer than eight zeros added, and the bytes are
/// as many as were counted before it.
pub proof fn law_flush_fills_bytes(before: &BitWriter, n: usize, w: &mut BitWriter, b: &[u8])
    requires
        *before == *old(w),
        call_ensures(BitWriter::bytes_written, (before,), n),
        call_ensures(BitWriter::flush, (w,), ()),
        call_ensures(BitWriter::as_bytes, (final(w),), b),
    ensures
        ({
            let m = old(w)@.len() as int;
            let bits = bytes_bits(b@);
            &&& bits.take(m) == old(w)@
            &&& m <= bits.len() < m + 8
            &&& forall|i: int| m <= i < bits.len() ==> !#[trigger] bits[i]
            &&& b@.len() == n
        }),
{
    let m = old(w)@.len() as int;
    assert(bytes_bits(b@).take(m) =~= old(w)@);
    assert(bytes_bits(b@).len() == 8 * b@.len());
}

// ---- Reading ----

/// A writer starts with nothing, a reader with all bits of its bytes.
pub proof fn law_new_calls(w: BitWriter, data: &[u8], r: BitReader)
    requires
        call_ensures(BitWriter::new, (), w),
        call_ensures(BitReader::new, (data,), r),
    ensures
        w@.len() == 0,
        r@ == bytes_bits(data@),
{
}

/// A number that was written with `n` bits is read back, and no more is taken.
pub proof fn law_reading_bits(r: &mut BitReader, v: u64, n: u8, rest: Seq<bool>, got: Option<u64>)
    requires
        call_ensures(BitReader::read_bits, (r, n), got),
        n <= 64,
    ensures
        old(r)@ == bits_of(v, n as nat) + rest ==> (got matches Some(x) && x == v as nat % pow2(
            n as nat,
        ) && final(r)@ == rest),
        got is None <==> old(r)@.len() < n,
        got is None ==> final(r)@ == old(r)@,
{
    lemma_value_of_bits_of(v, n as nat);
    if old(r)@ == bits_of(v, n as nat) + rest {
        assert(old(r)@.take(n as int) =~= bits_of(v, n as nat));
        assert(old(r)@.skip(n as int) =~= rest);
    }
}

/// A unary code is read back, and no more is taken; what opens with none gives nothing.
pub proof fn law_reading_unary(r: &mut BitReader, q: u32, rest: Seq<bool>, got: Option<u32>)
    requires
        call_ensures(BitReader::read_unary, (r,), got),
    ensures
        old(r)@ == unary(q as nat) + rest ==> got == Some(q) && final(r)@ == rest,
        got matches Some(p) ==> old(r)@ == unary(p as nat) + final(r)@,
        got is None ==> final(r)@ == old(r)@,
{
    if old(r)@ == unary(q as nat) + rest {
        law_runs(true, q as nat, 0);
        law_opens_with_unary(old(r)@, q as nat);
        assert forall|i: int| 0 <= i < q implies #[trigger] old(r)@[i] by {
            law_runs(true, q as nat, i);
        }
        if let Some(p) = got {
            lemma_unary_unique(old(r)@, p as nat, q as nat);
        }
        assert(old(r)@.skip(q + 1) =~= rest);
    }
    if let Some(p) = got {
        law_runs(true, p as nat, 0);
        assert(old(r)@ =~= unary(p as nat) + final(r)@);
    }
}

/// A code of `q` ones, a zero and `k` bits is read as one value, and no more is taken; nothing
/// else is read.
pub proof fn law_reading_rice(
    r: &mut BitReader,
    q: u32,
    low: Seq<bool>,
    rest: Seq<bool>,
    k: u8,
    got: Option<u32>,
)
    requires
        call_ensures(BitReader::read_rice, (r, k), got),
        k <= 31,
        low.len() == k,
    ensures
        old(r)@ == unary(q as nat) + low + rest ==> (got matches Some(z) && z == (q * pow2(
            k as nat,
        )) % 0x1_0000_0000 + value_of(low) && final(r)@ == rest),
        got is Some <==> exists|p: u32, l: Seq<bool>, t: Seq<bool>|
            l.len() == k && old(r)@ == #[trigger] (unary(p as nat) + l + t),
        got is None ==> final(r)@ == old(r)@,
{
    law_parse_value(q, low, rest, k as nat);
    law_parse_value_only_codes(old(r)@, k as nat);
}

/// A frame that was written is read back, and no more is taken. Any other frame is read as its
/// bits parse, and one that is cut off is not read at all.
pub proof fn law_reading_frame(
    r: &mut BitReader,
    rs: Seq<i32>,
    k: nat,
    rest: Seq<bool>,
    n: usize,
    got: Option<(u8, Vec<i32>)>,
)
    requires
        call_ensures(BitReader::decode_frame, (r, n), got),
        k <= 31,
        rs.len() == n,
    ensures
        old(r)@ == frame_bits(zigzags(rs), k) + rest ==> (got matches Some((j, v)) && j == k && v@
            == rs && final(r)@ == rest),
        match parse_frame(old(r)@, n as nat) {
            Some((j, zs, left)) => got matches Some((i, v)) && i == j && v@ == unzigzags(zs)
                && final(r)@ == left,
            None => got is None && final(r)@ == old(r)@,
        },
{
    law_frame_round_trip(rs, k, rest);
}

// ---- Linear prediction ----

/// The autocorrelation, however it is computed: one entry for every lag, each the sum of the
/// products of all samples that far apart.
pub proof fn law_autocorrelation_calls(s: &[i16], max_lag: usize, r: Vec<i64>, lag: int)
    requires
        call_ensures(autocorrelation, (s, max_lag), r) || call_ensures(
            autocorrelation_scalar,
            (s, max_lag),
            r,
        ) || call_ensures(autocorrelation_lanes, (s, max_lag), r),
        0 <= lag <= max_lag,
    ensures
        r@.len() == max_lag + 1,
        r@[lag] == sum(Seq::new((s@.len() - lag) as nat, |i: int| s@[i] * s@[i + lag])),
{
    law_autocorrelation_sums_products(r@, s@, max_lag as int, lag);
}

// ---- Archives ----

/// A laid out header is read back as it was given, with the payload behind it.
pub proof fn law_header_call(
    buffer: &[u8],
    r: Option<StreamInfo>,
    info: StreamInfo,
    rest: Seq<u8>,
)
    requires
        call_ensures(parse_stream_header, (buffer,), r),
        buffer@ == archive_tag() + seq![1u8] + le_bytes(info.sample_rate as nat, 4) + le_bytes(
            info.channels as nat,
            2,
        ) + le_bytes(info.frame_size as nat, 4) + seq![info.lpc_order] + le_bytes(
            info.total_frames as nat,
            4,
        ) + le_bytes(info.data_size as nat, 8) + le_bytes(info.total_samples as nat, 8) + rest,
    ensures
        r == Some(info),
{
    law_stream_header_reads_back(info, rest);
}

/// What has no header is refused, and nothing else is.
pub proof fn law_header_refused(b: &[u8], r: Option<StreamInfo>)
    requires
        call_ensures(parse_stream_header, (b,), r),
    ensures
        r is Some <==> b@.len() >= 36 && b@[0] == 0x41 && b@[1] == 0x43 && b@[2] == 0x4D && b@[3]
            == 0x50 && b@[4] == 1,
{
    law_stream_is_recognized(b@);
}

/// The payload is what follows the header, as long as the header says.
pub proof fn law_payload_call(buffer: &[u8], info: &StreamInfo, p: &[u8], i: int)
    requires
        call_ensures(payload, (buffer, info), p),
        36 + info.data_size <= buffer@.len(),
    ensures
        p@.len() == info.data_size,
        0 <= i < p@.len() ==> p@[i] == buffer@[36 + i],
{
}

/// An archive that is written has its fields at their places and its bits behind them.
pub proof fn law_archive_call(h: &ArchiveHeader, bits: &[u8], out: Vec<u8>)
    requires
        call_ensures(write_archive, (h, bits), out),
    ensures
        out@.subrange(0, 4) == seq![0x41u8, 0x43, 0x4D, 0x50],
        out@[4] == 1,
        out@.subrange(5, 9) == le_bytes(h.sample_rate as nat, 4),
        out@.subrange(9, 13) == le_bytes(h.frame_size as nat, 4),
        out@[13] == h.lpc_order,
        out@.subrange(14, 18) == le_bytes(h.total_frames as nat, 4),
        out@.subrange(18, 26) == le_bytes(h.data_size as nat, 8),
        out@.skip(26) == bits@,
{
    law_archive_layout(*h, bits@);
    lemma_header_fields(*h);
    lemma_le_bytes_len(h.sample_rate as nat, 4);
    lemma_le_bytes_len(h.frame_size as nat, 4);
    lemma_le_bytes_len(h.total_frames as nat, 4);
    lemma_le_bytes_len(h.data_size as nat, 8);
    assert(out@.subrange(5, 9) =~= le_bytes(h.sample_rate as nat, 4));
    assert(out@.subrange(9, 13) =~= le_bytes(h.frame_size as nat, 4));
    assert(out@.subrange(14, 18) =~= le_bytes(h.total_frames as nat, 4));
    assert(out@.subrange(18, 26) =~= le_bytes(h.data_size as nat, 8));
}

/// Frames are filled as far as the samples go.
pub proof fn law_next_frame_call(total: u64, decoded: u64, frame_size: u32, n: usize)
    requires
        call_ensures(next_frame_len, (total, decoded, frame_size), n),
        decoded <= total,
    ensures
        n <= frame_size,
        decoded + n <= total,
        n == frame_size || decoded + n == total,
{
}

/// A restored sample agrees with prediction and residual together, modulo `2^16`.
pub proof fn law_reconstruction_call(p: i16, residual: i32, s: i16)
    requires
        call_ensures(reconstruct_sample, (p, residual), s),
    ensures
        (s - (p + residual)) % 0x1_0000 == 0,
{
    law_wrap16(p + residual);
}

/// A restored frame sample by sample, with a predictor that computes `f`.
pub proof fn law_restore_frame_call<P: Fn(&[i16]) -> i16>(
    residuals: &[i32],
    predict: P,
    f: spec_fn(Seq<i16>) -> i16,
    out: Vec<i16>,
    i: int,
)
    requires
        call_ensures(restore_frame::<P>, (residuals, predict), out),
        forall|before: &[i16], p: i16| #[trigger]
            predict.ensures((before,), p) ==> p == f(before@),
    ensures
        out@.len() == residuals@.len(),
        0 <= i < out@.len() ==> (out@[i] - (f(out@.take(i)) + residuals@[i])) % 0x1_0000 == 0,
{
    law_computes(predict, f);
    law_restore(as_ints(residuals@), f, i);
}

/// Decoding gives back the samples: a payload that holds the samples `s` as the header says, in
/// frames that each open with `lpc_order` words, decodes to `s` with a predictor that computes
/// the function they were coded with.
pub proof fn law_decoding_call<P: Fn(&[u64], &[i16]) -> i16>(
    payload: &[u8],
    info: &StreamInfo,
    predict: P,
    r: Option<Vec<i16>>,
    s: Seq<i16>,
    words: Seq<Seq<u64>>,
    ks: Seq<nat>,
    f: spec_fn(Seq<u64>, Seq<i16>) -> i16,
    rest: Seq<bool>,
)
    requires
        call_ensures(decode_stream::<P>, (payload, info, predict), r),
        forall|words: &[u64], before: &[i16], p: i16| #[trigger]
            predict.ensures((words, before), p) ==> p == f(words@, before@),
        s.len() == info.total_samples,
        info.total_frames * info.frame_size >= s.len(),
        words.len() == info.total_frames,
        ks.len() == info.total_frames,
        forall|i: int| 0 <= i < words.len() ==> (#[trigger] words[i]).len() == info.lpc_order,
        forall|i: int| 0 <= i < ks.len() ==> #[trigger] ks[i] <= 31,
        bytes_bits(payload@) == stream_bits(
            s,
            info.frame_size as nat,
            words,
            ks,
            f,
            info.total_frames as nat,
        ) + rest,
    ensures
        r matches Some(v) && v@ == s,
{
    law_computes_frames(predict, f);
    law_payload_gives_back_samples(payload@, *info, s, words, ks, f, rest);
}

/// Any payload decodes to the samples of its frames, restored in turn, and to nothing exactly
/// where it has not all frames that the header announces.
pub proof fn law_decoding_any_payload<P: Fn(&[u64], &[i16]) -> i16>(
    payload: &[u8],
    info: &StreamInfo,
    predict: P,
    f: spec_fn(Seq<u64>, Seq<i16>) -> i16,
    r: Option<Vec<i16>>,
)
    requires
        call_ensures(decode_stream::<P>, (payload, info, predict), r),
        forall|words: &[u64], before: &[i16], p: i16| #[trigger]
            predict.ensures((words, before), p) ==> p == f(words@, before@),
    ensures
        match parse_frames(
            bytes_bits(payload@),
            info.lpc_order as nat,
            info.frame_size as nat,
            info.total_samples as nat,
            info.total_frames as nat,
        ) {
            Some((frames, _)) => r matches Some(v) && v@ == restore_frames(frames, f),
            None => r is None,
        },
{
    law_computes_frames(predict, f);
    law_decoder_goes_by_header(payload@, *info);
}

/// The WAV file of an archive is named after it.
pub proof fn law_decoded_path_call(path: &str, out: String, stem: Seq<char>)
    requires
        call_ensures(decoded_path, (path,), out),
    ensures
        path@ == stem + seq!['.', 'a', 'c', 'm', 'p'] ==> out@ == stem + seq![
            '_',
            'd',
            'e',
            'c',
            '.',
            'w',
            'a',
            'v',
        ],
        path@.len() < 5 || path@.skip(path@.len() - 5) != seq!['.', 'a', 'c', 'm', 'p'] ==> out@
            == path@ + seq!['_', 'd', 'e', 'c', '.', 'w', 'a', 'v'],
{
    law_archive_stem(stem, path@);
}

// ---- WAV files ----

/// Bytes added to the end of a format chunk change nothing of the header but the offset of the
/// data.
pub proof fn law_format_extension_calls(
    short: &[u8],
    long: &[u8],
    r: Result<WavHeader, IngestError>,
    q: Result<WavHeader, IngestError>,
    head: Seq<u8>,
    body: Seq<u8>,
    pad: u8,
    ext: Seq<u8>,
    other_pad: u8,
    t: Seq<u8>,
)
    requires
        call_ensures(parse_wav_header, (short,), r),
        call_ensures(parse_wav_header, (long,), q),
        head.len() == 12,
        16 <= body.len(),
        body.len() + ext.len() <= u32::MAX,
        short@ == head + chunk_bytes(fmt_tag(), body, pad) + t,
        long@ == head + chunk_bytes(fmt_tag(), body + ext, other_pad) + t,
        long@.len() <= usize::MAX,
    ensures
        match r {
            Ok(h) => q == Ok::<WavHeader, IngestError>(
                WavHeader {
                    data_offset: (h.data_offset + long@.len() - short@.len()) as usize,
                    ..h
                },
            ),
            Err(_) => q is Err,
        },
{
    law_format_extension_is_skipped(head, body, pad, ext, other_pad, t);
}

/// A chunk of another kind in front changes nothing of the header but the offset of the data.
pub proof fn law_unknown_chunk_calls(
    short: &[u8],
    long: &[u8],
    r: Result<WavHeader, IngestError>,
    q: Result<WavHeader, IngestError>,
    id: Seq<u8>,
    body: Seq<u8>,
    pad: u8,
)
    requires
        call_ensures(parse_wav_header, (short,), r),
        call_ensures(parse_wav_header, (long,), q),
        short@.len() >= 12,
        id.len() == 4,
        id != fmt_tag(),
        id != data_tag(),
        body.len() <= u32::MAX,
        long@ == short@.take(12) + chunk_bytes(id, body, pad) + short@.skip(12),
        long@.len() <= usize::MAX,
    ensures
        match r {
            Ok(h) => q == Ok::<WavHeader, IngestError>(
                WavHeader {
                    data_offset: (h.data_offset + long@.len() - short@.len()) as usize,
                    ..h
                },
            ),
            Err(_) => q is Err,
        },
{
    law_unknown_chunk_is_skipped(short@, id, body, pad);
}

/// What is parsed is what the chunks say, and what is opened is the audio they point to.
pub proof fn law_opening_calls<'a>(
    image: &'a [u8],
    p: Result<WavHeader, IngestError>,
    r: Result<MappedAudio<'a>, IngestError>,
)
    requires
        call_ensures(parse_wav_header, (image,), p),
        call_ensures(MappedAudio::<'a>::open, (image,), r),
        image@.len() <= usize::MAX,
    ensures
        p == wav_header(image@),
        r is Ok <==> (p matches Ok(h) && h.data_offset + h.data_size <= image@.len() && (
        h.format_tag == 1 && h.bits_per_sample == 16 || h.format_tag == 3 && h.bits_per_sample
            == 32)),
        r matches Ok(a) ==> p == Ok::<WavHeader, IngestError>(a.header) && a.data@
            == image@.subrange(
            a.header.data_offset as int,
            a.header.data_offset + a.header.data_size,
        ),
        r matches Err(e) ==> readable_header(image@) == Err::<WavHeader, IngestError>(e),
{
    law_readable_header(image@);
}

/// Samples are the bytes of the audio data, two or four each, and as many as are counted.
pub proof fn law_samples_calls(a: &MappedAudio, all: SampleSlice, n: usize, m: usize, i: int)
    requires
        call_ensures(MappedAudio::samples, (a,), all),
        call_ensures(MappedAudio::sample_count, (a,), n),
        call_ensures(SampleSlice::len, (&all,), m),
        a.wf(),
    ensures
        m == n,
        a.header.format_tag == 1 ==> (all matches SampleSlice::I16(s) && s@.len() == a.data@.len()
            / 2 && (0 <= i < s@.len() ==> (s@[i] - (a.data@[2 * i] + 256 * a.data@[2 * i + 1]))
            % 0x1_0000 == 0)),
        a.header.format_tag == 3 ==> (all matches SampleSlice::F32(s) && s@.len() == a.data@.len()
            / 4 && (0 <= i < s@.len() ==> s@[i] == a.data@[4 * i] + 256 * a.data@[4 * i + 1]
            + 0x1_0000 * a.data@[4 * i + 2] + 0x100_0000 * a.data@[4 * i + 3])),
{
    law_samples_from_bytes(a.data@, i);
}

/// Frames: as few as hold all samples, each with its own samples in order.
pub proof fn law_frames_calls(
    a: &MappedAudio,
    all: SampleSlice,
    size: usize,
    n: usize,
    frames: Vec<Frame>,
    other: nat,
    i: int,
    j: int,
)
    requires
        call_ensures(MappedAudio::samples, (a,), all),
        call_ensures(MappedAudio::frame_count, (a, size), n),
        call_ensures(MappedAudio::frames, (a, size), frames),
        a.wf(),
        size > 0,
    ensures
        frames@.len() == n,
        other * size >= a.count() <==> other >= n,
        a.header.format_tag == 1 && 0 <= i < n ==> (all matches SampleSlice::I16(s) && frames@[i]
            matches Frame::I16(t) && t@.len() == (if (i + 1) * size <= s@.len() {
            size as int
        } else {
            s@.len() - i * size
        }) && (0 <= j < t@.len() ==> t@[j] == s@[i * size + j])),
        a.header.format_tag == 3 && 0 <= i < n ==> (all matches SampleSlice::F32(s) && frames@[i]
            matches Frame::F32(t) && t@.len() == (if (i + 1) * size <= s@.len() {
            size as int
        } else {
            s@.len() - i * size
        }) && (0 <= j < t@.len() ==> t@[j] == s@[i * size + j])),
{
    law_frames_needed_is_least(a.count(), size as nat, other);
    a.law_count_matches_samples();
    if 0 <= i < n {
        if a.header.format_tag == 1 {
            law_frame_contents(pcm_samples(a.data@), size as nat, i, j);
        } else {
            law_frame_contents(word_samples(a.data@), size as nat, i, j);
        }
    }
}

/// The duration: whole samples per channel, and samples per second.
pub proof fn law_duration_calls(a: &MappedAudio, n: usize, d: (usize, u32))
    requires
        call_ensures(MappedAudio::sample_count, (a,), n),
        call_ensures(MappedAudio::duration_secs, (a,), d),
        a.header.channels != 0,
    ensures
        d.0 * a.header.channels <= n < (d.0 + 1) * a.header.channels,
        d.1 == a.header.sample_rate,
{
    let c = a.header.channels as int;
    vstd::arithmetic::div_mod::lemma_fundamental_div_mod(n as int, c);
    vstd::arithmetic::div_mod::lemma_mod_bound(n as int, c);
    assert(d.0 * c == c * (n as int / c) && (d.0 + 1) * c == d.0 * c + c) by (nonlinear_arith)
        requires
            d.0 == n as int / c,
    ;
}

/// A WAV file that was written opens as 16-bit PCM with the same rate, channels and samples.
pub proof fn law_wav_calls<'a>(
    s: &[i16],
    sample_rate: u32,
    channels: u16,
    out: Vec<u8>,
    image: &'a [u8],
    r: Result<MappedAudio<'a>, IngestError>,
    all: SampleSlice,
)
    requires
        call_ensures(write_wav, (s, sample_rate, channels), out),
        image@ == out@,
        call_ensures(MappedAudio::<'a>::open, (image,), r),
        r is Ok ==> call_ensures(MappedAudio::samples, (&r->Ok_0,), all),
        36 + 2 * s@.len() <= u32::MAX,
        44 + 2 * s@.len() <= usize::MAX,
        sample_rate * channels * 2 <= u32::MAX,
        channels * 2 <= u16::MAX,
    ensures
        r is Ok,
        r->Ok_0.header.sample_rate == sample_rate,
        r->Ok_0.header.channels == channels,
        all matches SampleSlice::I16(v) && v@ == s@,
{
    law_wav_round_trip(s@, sample_rate, channels);
    law_wav_layout(s@, sample_rate, channels);
}

/// A WAV file that is written has its fields at their places, the sizes cut to 32 bits, and its
/// samples behind them.
pub proof fn law_written_wav_call(s: &[i16], sample_rate: u32, channels: u16, out: Vec<u8>)
    requires
        call_ensures(write_wav, (s, sample_rate, channels), out),
        36 + (2 * s@.len()) % 0x1_0000_0000 <= u32::MAX,
        sample_rate * channels * 2 <= u32::MAX,
        channels * 2 <= u16::MAX,
    ensures
        out@.len() == 44 + 2 * s@.len(),
        le_value(out@.subrange(4, 8)) == 36 + (2 * s@.len()) % 0x1_0000_0000,
        le_value(out@.subrange(20, 22)) == 1,
        le_value(out@.subrange(22, 24)) == channels,
        le_value(out@.subrange(24, 28)) == sample_rate,
        le_value(out@.subrange(28, 32)) == sample_rate * channels * 2,
        le_value(out@.subrange(32, 34)) == channels * 2,
        le_value(out@.subrange(34, 36)) == 16,
        le_value(out@.subrange(40, 44)) == (2 * s@.len()) % 0x1_0000_0000,
        pcm_samples(out@.skip(44)) == s@,
{
    law_wav_layout(s@, sample_rate, channels);
}

/// A number that was appended as `n` bytes is read back from there, modulo `256^n`.
pub proof fn law_little_endian_calls(
    out: &mut Vec<u8>,
    v: u64,
    n: u8,
    bytes: &[u8],
    pos: usize,
    got: u64,
)
    requires
        call_ensures(push_le, (out, v, n), ()),
        bytes@ == final(out)@,
        pos == old(out)@.len(),
        call_ensures(read_le, (bytes, pos, n), got),
    ensures
        final(out)@.len() == old(out)@.len() + n,
        final(out)@.take(pos as int) == old(out)@,
        got == v as int % pow(256, n as nat),
{
    law_le_bytes(v as nat, n as nat);
    assert(final(out)@.take(pos as int) =~= old(out)@);
    assert(bytes@.subrange(pos as int, pos + n) =~= le_bytes(v as nat, n as nat));
}

/// A 16-bit number and its unsigned counterpart agree modulo `2^16`, in both directions.
pub proof fn law_sign_calls(s: i16, u: u16, t: i16)
    requires
        call_ensures(to_unsigned, (s,), u),
        call_ensures(to_signed, (u,), t),
    ensures
        (u - s) % 0x1_0000 == 0,
        t == s,
{
    law_signed_words(u as nat, s);
}

// ---- Decisions ----

/// Float frames are not analyzed, nor are frames of up to ten samples; all others are.
pub proof fn law_frame_step_call(frame: &Frame, r: FrameStep)
    requires
        call_ensures(frame_step, (frame,), r),
    ensures
        r == FrameStep::FloatUnsupported <==> frame is F32,
        r == FrameStep::Analyze <==> (frame matches Frame::I16(s) && s@.len() > 10),
{
}

/// The first three frames and the last get a line, whether coded or not; the fourth, if it is
/// coded and not the last, an ellipsis; no other anything.
pub proof fn law_frame_report_call(index: usize, count: usize, coded: bool, r: FrameReport)
    requires
        call_ensures(frame_report, (index, count, coded), r),
    ensures
        r == FrameReport::Line <==> index < 3 || index + 1 == count,
        r == FrameReport::Ellipsis <==> coded && index == 3 && count != 4,
{
}

/// A recorded frame adds one to the frames, 16 bits a sample to one side, and its code to the
/// other.
pub proof fn law_totals_call(start: Totals, t: &mut Totals, samples: usize, bits: usize)
    requires
        call_ensures(Totals::new, (), start),
        call_ensures(Totals::record, (t, samples, bits), ()),
        old(t).analyzed < usize::MAX,
        old(t).uncompressed_bits + 16 * samples <= usize::MAX,
        old(t).compressed_bits + bits <= usize::MAX,
    ensures
        start.analyzed == 0 && start.uncompressed_bits == 0 && start.compressed_bits == 0,
        final(t).analyzed == old(t).analyzed + 1,
        final(t).uncompressed_bits - old(t).uncompressed_bits == 16 * samples,
        final(t).compressed_bits - old(t).compressed_bits == bits,
{
}

} // verus!
