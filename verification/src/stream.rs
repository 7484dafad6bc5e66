//! A whole stream of coded frames: how its bits are read, how its samples are restored, and
//! the law that they come back.
//!
//! Each frame opens with the words of its predictor, 64 bits each, and goes on with its coded
//! residuals. What the words mean is the predictor's affair.
use vstd::arithmetic::power2::lemma2_to64_rest;
use vstd::prelude::*;

use crate::bits::{bits_of, bytes_bits};
use crate::code::{
    frame_bits, lemma_parse_values_len, lemma_value_of_bits_of, parse_frame, unzigzag, unzigzags,
    value_of, zigzags,
};
use crate::decompress::{
    as_ints, coded_residuals, computes, is_restored, law_frame_is_lossless, law_frames_add_up,
    law_restore, next_frame_len, restore, restore_frame, samples_in_frames, wrap16, StreamInfo,
};
use crate::reader::BitReader;

verus! {

// ---- Reading ----

/// Reads `n` words of 64 bits. Gives the words and the bits that are left.
pub open spec fn parse_words(bits: Seq<bool>, n: nat) -> Option<(Seq<u64>, Seq<bool>)> {
    if bits.len() < 64 * n {
        None
    } else {
        Some(
            (
                Seq::new(n, |i: int| value_of(bits.subrange(64 * i, 64 * i + 64)) as u64),
                bits.skip(64 * n as int),
            ),
        )
    }
}

/// Reads the `order` words of a frame and its `len` zigzag numbers.
pub open spec fn parse_coded_frame(bits: Seq<bool>, order: nat, len: nat) -> Option<
    ((Seq<u64>, Seq<u32>), Seq<bool>),
> {
    match parse_words(bits, order) {
        Some((words, rest)) => match parse_frame(rest, len) {
            Some((_, zs, rest)) => Some(((words, zs), rest)),
            None => None,
        },
        None => None,
    }
}

/// How many of `total` samples the frame with index `n` holds.
pub open spec fn frame_len(total: nat, frame_size: nat, n: nat) -> nat {
    (samples_in_frames(total, frame_size, n + 1) - samples_in_frames(total, frame_size, n)) as nat
}

/// Reads the first `n` frames of a stream: the words and the zigzag numbers of each, and the
/// bits that are left. `None` if a frame is cut off.
pub open spec fn parse_frames(
    bits: Seq<bool>,
    order: nat,
    frame_size: nat,
    total: nat,
    n: nat,
) -> Option<(Seq<(Seq<u64>, Seq<u32>)>, Seq<bool>)>
    decreases n,
{
    if n == 0 {
        Some((Seq::empty(), bits))
    } else {
        let m = (n - 1) as nat;
        match parse_frames(bits, order, frame_size, total, m) {
            Some((frames, rest)) => match parse_coded_frame(
                rest,
                order,
                frame_len(total, frame_size, m),
            ) {
                Some((frame, rest)) => Some((frames.push(frame), rest)),
                None => None,
            },
            None => None,
        }
    }
}

/// The frames of a payload, as its header announces them.
pub open spec fn stream_frames(payload: Seq<u8>, info: StreamInfo) -> Option<
    Seq<(Seq<u64>, Seq<u32>)>,
> {
    match parse_frames(
        bytes_bits(payload),
        info.lpc_order as nat,
        info.frame_size as nat,
        info.total_samples as nat,
        info.total_frames as nat,
    ) {
        Some((frames, _)) => Some(frames),
        None => None,
    }
}

/// The predictor of a frame that opens with `words`.
pub open spec fn with_words(
    f: spec_fn(Seq<u64>, Seq<i16>) -> i16,
    words: Seq<u64>,
) -> spec_fn(Seq<i16>) -> i16 {
    |before: Seq<i16>| f(words, before)
}

/// The samples of a stream of frames: each frame is restored by itself, with its own words.
pub open spec fn restore_frames(
    frames: Seq<(Seq<u64>, Seq<u32>)>,
    f: spec_fn(Seq<u64>, Seq<i16>) -> i16,
) -> Seq<i16>
    decreases frames.len(),
{
    if frames.len() == 0 {
        Seq::empty()
    } else {
        let (words, zs) = frames.last();
        restore_frames(frames.drop_last(), f) + restore(
            as_ints(unzigzags(zs)),
            with_words(f, words),
        )
    }
}

/// `predict` may give `p` for the words of a frame and its samples so far.
pub open spec fn gives<P: Fn(&[u64], &[i16]) -> i16>(
    predict: &P,
    words: &[u64],
    before: &[i16],
    p: i16,
) -> bool {
    (*predict).ensures((words, before), p)
}

/// `predict` computes the function `f` of a frame's words and of its samples so far.
pub open spec fn computes_frames<P: Fn(&[u64], &[i16]) -> i16>(
    predict: P,
    f: spec_fn(Seq<u64>, Seq<i16>) -> i16,
) -> bool {
    forall|words: &[u64], before: &[i16], p: i16| #[trigger]
        gives(&predict, words, before, p) ==> p == f(words@, before@)
}

/// `s` is the sum, cut to 16 bits, of `residual` and of what `predict` gave for `words` and
/// `history`.
pub open spec fn is_restored_with<P: Fn(&[u64], &[i16]) -> i16>(
    predict: P,
    words: Seq<u64>,
    history: Seq<i16>,
    residual: i32,
    s: i16,
) -> bool {
    exists|ws: &[u64], before: &[i16], p: i16| #[trigger]
        gives(&predict, ws, before, p) && ws@ == words && before@ == history && s == wrap16(
            p + residual,
        )
}

/// Every sample of `s` is restored from its residual and from what `predict` gave for the words
/// of its frame and the samples of that frame before it, whatever `predict` is.
pub open spec fn is_decoded<P: Fn(&[u64], &[i16]) -> i16>(
    predict: P,
    frames: Seq<(Seq<u64>, Seq<u32>)>,
    s: Seq<i16>,
) -> bool
    decreases frames.len(),
{
    if frames.len() == 0 {
        s.len() == 0
    } else {
        let (words, zs) = frames.last();
        let start = s.len() - zs.len();
        &&& start >= 0
        &&& is_decoded(predict, frames.drop_last(), s.take(start))
        &&& forall|i: int|
            0 <= i < zs.len() ==> is_restored_with(
                predict,
                words,
                s.skip(start).take(i),
                unzigzags(zs)[i],
                #[trigger] s.skip(start)[i],
            )
    }
}

/// A read that fails part of the way fails as a whole.
proof fn lemma_parse_frames_none(
    bits: Seq<bool>,
    order: nat,
    frame_size: nat,
    total: nat,
    m: nat,
    n: nat,
)
    requires
        m <= n,
        parse_frames(bits, order, frame_size, total, m) is None,
    ensures
        parse_frames(bits, order, frame_size, total, n) is None,
    decreases n,
{
    if m < n {
        lemma_parse_frames_none(bits, order, frame_size, total, m, (n - 1) as nat);
    }
}

/// Reads `count` words.
fn read_words(reader: &mut BitReader, count: u8) -> (r: Option<Vec<u64>>)
    requires
        old(reader).wf(),
    ensures
        final(reader).wf(),
        match parse_words(old(reader)@, count as nat) {
            Some((words, rest)) => r is Some && r->0@ == words && final(reader)@ == rest,
            None => r is None,
        },
{
    let ghost bits = reader@;
    let mut words: Vec<u64> = Vec::new();
    let mut i: u8 = 0;
    assert(bits.skip(0) =~= bits);
    while i < count
        invariant
            i <= count,
            reader.wf(),
            bits == old(reader)@,
            bits.len() >= 64 * i,
            reader@ == bits.skip(64 * i),
            words@.len() == i,
            forall|j: int|
                0 <= j < i ==> #[trigger] words@[j] == value_of(
                    bits.subrange(64 * j, 64 * j + 64),
                ),
        decreases count - i,
    {
        let word: u64 = match reader.read_bits(64) {
            Some(word) => word,
            None => {
                return None;
            },
        };
        proof {
            assert(bits.skip(64 * i).take(64) =~= bits.subrange(64 * i, 64 * i + 64));
            assert(bits.skip(64 * i).skip(64) =~= bits.skip(64 * (i + 1)));
        }
        words.push(word);
        i = i + 1;
    }
    proof {
        let read = (parse_words(bits, count as nat)->0).0;
        assert(words@ =~= read);
    }
    Some(words)
}

/// One more frame of samples.
proof fn lemma_decoded_push<P: Fn(&[u64], &[i16]) -> i16>(
    predict: P,
    frames: Seq<(Seq<u64>, Seq<u32>)>,
    s: Seq<i16>,
    words: Seq<u64>,
    zs: Seq<u32>,
    t: Seq<i16>,
)
    requires
        is_decoded(predict, frames, s),
        t.len() == zs.len(),
        forall|i: int|
            0 <= i < t.len() ==> is_restored_with(
                predict,
                words,
                t.take(i),
                unzigzags(zs)[i],
                #[trigger] t[i],
            ),
    ensures
        is_decoded(predict, frames.push((words, zs)), s + t),
{
    assert(frames.push((words, zs)).drop_last() =~= frames);
    assert((s + t).take(s.len() as int) =~= s);
    assert((s + t).skip(s.len() as int) =~= t);
}

/// Decodes a payload: frame after frame, the words of the predictor, the residuals, and the
/// samples that `predict` and the residuals give. `None` exactly where a read is cut off.
pub fn decode_stream<P: Fn(&[u64], &[i16]) -> i16>(
    payload: &[u8],
    info: &StreamInfo,
    predict: P,
) -> (r: Option<Vec<i16>>)
    requires
        forall|words: &[u64], before: &[i16]| #[trigger] predict.requires((words, before)),
    ensures
        match stream_frames(payload@, *info) {
            Some(frames) => {
                &&& r is Some
                &&& r->0@.len() == samples_in_frames(
                    info.total_samples as nat,
                    info.frame_size as nat,
                    info.total_frames as nat,
                )
                &&& is_decoded(predict, frames, r->0@)
                &&& forall|f: spec_fn(Seq<u64>, Seq<i16>) -> i16| #[trigger]
                    computes_frames(predict, f) ==> r->0@ == restore_frames(frames, f)
            },
            None => r is None,
        },
{
    let ghost bits = bytes_bits(payload@);
    let ghost order = info.lpc_order as nat;
    let ghost size = info.frame_size as nat;
    let ghost total = info.total_samples as nat;
    let ghost count = info.total_frames as nat;
    let ghost mut frames: Seq<(Seq<u64>, Seq<u32>)> = Seq::empty();
    let mut reader = BitReader::new(payload);
    let mut samples: Vec<i16> = Vec::new();
    let mut i: u32 = 0;
    while i < info.total_frames
        invariant
            i <= info.total_frames,
            bits == bytes_bits(payload@),
            order == info.lpc_order,
            size == info.frame_size,
            total == info.total_samples,
            count == info.total_frames,
            reader.wf(),
            parse_frames(bits, order, size, total, i as nat) == Some((frames, reader@)),
            samples@.len() == samples_in_frames(total, size, i as nat),
            is_decoded(predict, frames, samples@),
            forall|f: spec_fn(Seq<u64>, Seq<i16>) -> i16| #[trigger]
                computes_frames(predict, f) ==> samples@ == restore_frames(frames, f),
            forall|words: &[u64], before: &[i16]| #[trigger] predict.requires((words, before)),
        decreases info.total_frames - i,
    {
        proof {
            law_frames_add_up(total, size, i as nat);
            if parse_frames(bits, order, size, total, (i + 1) as nat) is None {
                lemma_parse_frames_none(bits, order, size, total, (i + 1) as nat, count);
            }
        }
        let words: Vec<u64> = match read_words(&mut reader, info.lpc_order) {
            Some(words) => words,
            None => {
                return None;
            },
        };
        let len: usize = next_frame_len(
            info.total_samples,
            samples.len() as u64,
            info.frame_size,
        );
        assert(len == frame_len(total, size, i as nat));
        let ghost body = reader@;
        let residuals: Vec<i32> = match reader.decode_frame(len) {
            Some((_, residuals)) => residuals,
            None => {
                return None;
            },
        };
        let ghost zs = (parse_frame(body, len as nat)->0).1;
        proof {
            lemma_parse_values_len(body.skip(5), value_of(body.take(5)), len as nat);
        }
        let ws: &[u64] = words.as_slice();
        let predict_frame = |history: &[i16]| -> (p: i16)
            ensures
                gives(&predict, ws, history, p),
            { predict(ws, history) };
        let mut frame: Vec<i16> = restore_frame(residuals.as_slice(), predict_frame);
        let ghost t = frame@;
        let ghost s = samples@;
        proof {
            assert forall|j: int| 0 <= j < t.len() implies is_restored_with(
                predict,
                ws@,
                t.take(j),
                unzigzags(zs)[j],
                #[trigger] t[j],
            ) by {
                assert(is_restored(predict_frame, t.take(j), residuals@[j], t[j]));
                let (b, p) = choose|b: &[i16], p: i16| #[trigger]
                    predict_frame.ensures((b,), p) && b@ == t.take(j) && t[j] == wrap16(
                        p + residuals@[j],
                    );
                assert(gives(&predict, ws, b, p));
            }
            lemma_decoded_push(predict, frames, s, ws@, zs, t);
            assert forall|f: spec_fn(Seq<u64>, Seq<i16>) -> i16| #[trigger]
                computes_frames(predict, f) implies s + t == restore_frames(
                frames.push((ws@, zs)),
                f,
            ) by {
                assert(computes(predict_frame, with_words(f, ws@)));
                lemma_restore_frames_push(frames, ws@, zs, f);
            }
            frames = frames.push((ws@, zs));
        }
        samples.append(&mut frame);
        i = i + 1;
    }
    Some(samples)
}

// ---- Writing, and the law ----

/// Words as bits, 64 each.
pub open spec fn words_bits(words: Seq<u64>) -> Seq<bool>
    decreases words.len(),
{
    if words.len() == 0 {
        Seq::empty()
    } else {
        words_bits(words.drop_last()) + bits_of(words.last(), 64)
    }
}

/// A frame of the samples `s`: the words of its predictor, then its residuals, coded with the
/// parameter `k`.
pub open spec fn coded_frame_bits(
    s: Seq<i16>,
    words: Seq<u64>,
    k: nat,
    f: spec_fn(Seq<u64>, Seq<i16>) -> i16,
) -> Seq<bool> {
    words_bits(words) + frame_bits(zigzags(coded_residuals(s, with_words(f, words))), k)
}

/// The samples of the frame with index `n`.
pub open spec fn frame_samples(s: Seq<i16>, frame_size: nat, n: nat) -> Seq<i16> {
    s.subrange(
        samples_in_frames(s.len(), frame_size, n) as int,
        samples_in_frames(s.len(), frame_size, n + 1) as int,
    )
}

/// The first `n` frames of the samples `s`; frame `i` has the words `words[i]` and the
/// parameter `ks[i]`.
pub open spec fn stream_bits(
    s: Seq<i16>,
    frame_size: nat,
    words: Seq<Seq<u64>>,
    ks: Seq<nat>,
    f: spec_fn(Seq<u64>, Seq<i16>) -> i16,
    n: nat,
) -> Seq<bool>
    decreases n,
{
    if n == 0 {
        Seq::empty()
    } else {
        stream_bits(s, frame_size, words, ks, f, (n - 1) as nat) + coded_frame_bits(
            frame_samples(s, frame_size, (n - 1) as nat),
            words[n - 1],
            ks[n - 1],
            f,
        )
    }
}

/// Words that were written are read back, whatever follows them.
proof fn lemma_words_round_trip(words: Seq<u64>, rest: Seq<bool>)
    ensures
        words_bits(words).len() == 64 * words.len(),
        parse_words(words_bits(words) + rest, words.len()) == Some((words, rest)),
    decreases words.len(),
{
    let bits = words_bits(words) + rest;
    if words.len() > 0 {
        let init = words.drop_last();
        let last = bits_of(words.last(), 64);
        lemma_words_round_trip(init, last + rest);
        assert(words_bits(init) + (last + rest) =~= bits);
        let n = init.len();
        assert(bits.subrange(64 * n as int, 64 * n as int + 64) =~= last);
        lemma_value_of_bits_of(words.last(), 64);
        lemma2_to64_rest();
        let read = (parse_words(bits, words.len())->0).0;
        assert forall|i: int| 0 <= i < words.len() implies read[i] == words[i] by {
            if i < n {
                assert((parse_words(bits, n)->0).0[i] == init[i]);
            }
        }
        assert(read =~= words);
    } else {
        assert((parse_words(bits, 0)->0).0 =~= words);
    }
    assert(bits.skip(64 * words.len() as int) =~= rest);
}

/// A frame that was written is read back and restored, whatever follows it.
proof fn lemma_coded_frame_round_trip(
    s: Seq<i16>,
    words: Seq<u64>,
    k: nat,
    f: spec_fn(Seq<u64>, Seq<i16>) -> i16,
    rest: Seq<bool>,
)
    requires
        k <= 31,
    ensures
        ({
            let zs = zigzags(coded_residuals(s, with_words(f, words)));
            &&& parse_coded_frame(coded_frame_bits(s, words, k, f) + rest, words.len(), s.len())
                == Some(((words, zs), rest))
            &&& restore(as_ints(unzigzags(zs)), with_words(f, words)) == s
        }),
{
    let code = frame_bits(zigzags(coded_residuals(s, with_words(f, words))), k);
    lemma_words_round_trip(words, code + rest);
    assert(coded_frame_bits(s, words, k, f) + rest =~= words_bits(words) + (code + rest));
    law_frame_is_lossless(s, with_words(f, words), k, rest);
}

/// One more frame to restore.
proof fn lemma_restore_frames_push(
    frames: Seq<(Seq<u64>, Seq<u32>)>,
    words: Seq<u64>,
    zs: Seq<u32>,
    f: spec_fn(Seq<u64>, Seq<i16>) -> i16,
)
    ensures
        restore_frames(frames.push((words, zs)), f) == restore_frames(frames, f) + restore(
            as_ints(unzigzags(zs)),
            with_words(f, words),
        ),
{
    assert(frames.push((words, zs)).drop_last() =~= frames);
}

/// A stream comes back bit for bit. Cut the samples `s` into frames, predict each frame with
/// any function of its own words and of its samples so far, code the residuals with any
/// parameters, and let anything follow: reading `n` frames leaves what followed, and restoring
/// them with the same function gives the samples of those frames, which are all of `s` once
/// there are enough of them.
pub proof fn law_stream_is_lossless(
    s: Seq<i16>,
    frame_size: nat,
    order: nat,
    words: Seq<Seq<u64>>,
    ks: Seq<nat>,
    f: spec_fn(Seq<u64>, Seq<i16>) -> i16,
    n: nat,
    rest: Seq<bool>,
)
    requires
        n <= words.len(),
        n <= ks.len(),
        forall|i: int| 0 <= i < n ==> (#[trigger] words[i]).len() == order,
        forall|i: int| 0 <= i < n ==> #[trigger] ks[i] <= 31,
    ensures
        match parse_frames(
            stream_bits(s, frame_size, words, ks, f, n) + rest,
            order,
            frame_size,
            s.len(),
            n,
        ) {
            Some((frames, left)) => {
                &&& left == rest
                &&& restore_frames(frames, f) == s.take(
                    samples_in_frames(s.len(), frame_size, n) as int,
                )
                &&& n * frame_size >= s.len() ==> restore_frames(frames, f) == s
            },
            None => false,
        },
    decreases n,
{
    law_frames_add_up(s.len(), frame_size, n);
    if n == 0 {
        assert(stream_bits(s, frame_size, words, ks, f, n) + rest =~= rest);
        assert(s.take(0) =~= Seq::empty());
        assert(0 * frame_size == 0) by (nonlinear_arith);
        if s.len() == 0 {
            assert(s =~= Seq::empty());
        }
    } else {
        let m = (n - 1) as nat;
        let part = frame_samples(s, frame_size, m);
        let code = coded_frame_bits(part, words[m as int], ks[m as int], f);
        law_frames_add_up(s.len(), frame_size, m);
        law_stream_is_lossless(s, frame_size, order, words, ks, f, m, code + rest);
        lemma_coded_frame_round_trip(part, words[m as int], ks[m as int], f, rest);
        let before = stream_bits(s, frame_size, words, ks, f, m);
        let bits = stream_bits(s, frame_size, words, ks, f, n) + rest;
        assert(bits =~= before + (code + rest));
        assert(part.len() == frame_len(s.len(), frame_size, m));
        let frames = (parse_frames(bits, order, frame_size, s.len(), m)->0).0;
        let zs = zigzags(coded_residuals(part, with_words(f, words[m as int])));
        lemma_restore_frames_push(frames, words[m as int], zs, f);
        let start = samples_in_frames(s.len(), frame_size, m) as int;
        let end = samples_in_frames(s.len(), frame_size, n) as int;
        assert(s.take(start) + part =~= s.take(end));
        if n * frame_size >= s.len() {
            assert(s.take(end) =~= s);
        }
    }
}

/// The header drives the decoder: a payload that holds the samples `s` in frames of
/// `info.frame_size`, `info.lpc_order` words and then the coded residuals in each, gives `s`
/// back, whatever the words, the parameters and the predictor, and whatever bits pad it.
pub proof fn law_payload_gives_back_samples(
    payload: Seq<u8>,
    info: StreamInfo,
    s: Seq<i16>,
    words: Seq<Seq<u64>>,
    ks: Seq<nat>,
    f: spec_fn(Seq<u64>, Seq<i16>) -> i16,
    rest: Seq<bool>,
)
    requires
        s.len() == info.total_samples,
        info.total_frames * info.frame_size >= s.len(),
        words.len() == info.total_frames,
        ks.len() == info.total_frames,
        forall|i: int| 0 <= i < words.len() ==> (#[trigger] words[i]).len() == info.lpc_order,
        forall|i: int| 0 <= i < ks.len() ==> #[trigger] ks[i] <= 31,
        bytes_bits(payload) == stream_bits(
            s,
            info.frame_size as nat,
            words,
            ks,
            f,
            info.total_frames as nat,
        ) + rest,
    ensures
        stream_frames(payload, info) matches Some(frames) && frames.len() == info.total_frames && (
        forall|i: int|
            0 <= i < frames.len() ==> (#[trigger] frames[i]).0 == words[i]) && restore_frames(
            frames,
            f,
        ) == s,
{
    law_stream_is_lossless(
        s,
        info.frame_size as nat,
        info.lpc_order as nat,
        words,
        ks,
        f,
        info.total_frames as nat,
        rest,
    );
    lemma_words_come_back(
        s,
        info.frame_size as nat,
        info.lpc_order as nat,
        words,
        ks,
        f,
        info.total_frames as nat,
        rest,
    );
}

/// The words of each frame are read back.
proof fn lemma_words_come_back(
    s: Seq<i16>,
    frame_size: nat,
    order: nat,
    words: Seq<Seq<u64>>,
    ks: Seq<nat>,
    f: spec_fn(Seq<u64>, Seq<i16>) -> i16,
    n: nat,
    rest: Seq<bool>,
)
    requires
        n <= words.len(),
        n <= ks.len(),
        forall|i: int| 0 <= i < n ==> (#[trigger] words[i]).len() == order,
        forall|i: int| 0 <= i < n ==> #[trigger] ks[i] <= 31,
    ensures
        parse_frames(
            stream_bits(s, frame_size, words, ks, f, n) + rest,
            order,
            frame_size,
            s.len(),
            n,
        ) matches Some((frames, left)) && left == rest && frames.len() == n && forall|i: int|
            0 <= i < n ==> (#[trigger] frames[i]).0 == words[i],
    decreases n,
{
    if n == 0 {
        assert(stream_bits(s, frame_size, words, ks, f, n) + rest =~= rest);
    } else {
        let m = (n - 1) as nat;
        let part = frame_samples(s, frame_size, m);
        let code = coded_frame_bits(part, words[m as int], ks[m as int], f);
        law_frames_add_up(s.len(), frame_size, m);
        law_frames_add_up(s.len(), frame_size, n);
        lemma_words_come_back(s, frame_size, order, words, ks, f, m, code + rest);
        lemma_coded_frame_round_trip(part, words[m as int], ks[m as int], f, rest);
        let before = stream_bits(s, frame_size, words, ks, f, m);
        assert(stream_bits(s, frame_size, words, ks, f, n) + rest =~= before + (code + rest));
        assert(part.len() == frame_len(s.len(), frame_size, m));
    }
}

// ---- What the parts mean ----

/// Words are written one after the other, 64 bits each, and every run of that many bits reads
/// as words; fewer bits do not.
pub proof fn law_words(a: Seq<u64>, b: Seq<u64>, w: u64, rest: Seq<bool>, bits: Seq<bool>, n: nat)
    ensures
        words_bits(Seq::empty()) == Seq::<bool>::empty(),
        words_bits(seq![w]) == bits_of(w, 64),
        words_bits(a + b) == words_bits(a) + words_bits(b),
        parse_words(words_bits(a) + rest, a.len()) == Some((a, rest)),
        parse_words(bits, n) is None <==> bits.len() < 64 * n,
    decreases b.len(),
{
    assert(words_bits(Seq::empty()) =~= Seq::<bool>::empty());
    assert(seq![w].drop_last() =~= Seq::<u64>::empty());
    assert(Seq::<bool>::empty() + bits_of(w, 64) =~= bits_of(w, 64));
    lemma_words_round_trip(a, rest);
    if b.len() == 0 {
        assert(a + b =~= a);
        assert(words_bits(a) + Seq::<bool>::empty() =~= words_bits(a));
    } else {
        law_words(a, b.drop_last(), w, rest, bits, n);
        assert((a + b).drop_last() =~= a + b.drop_last());
        assert(words_bits(a + b) =~= words_bits(a) + words_bits(b));
    }
}

/// A frame is read as its words and then as coded values, whatever the values are.
pub proof fn law_coded_frame(
    words: Seq<u64>,
    body: Seq<bool>,
    len: nat,
    bits: Seq<bool>,
    order: nat,
)
    ensures
        parse_coded_frame(words_bits(words) + body, words.len(), len) == match parse_frame(
            body,
            len,
        ) {
            Some((_, zs, rest)) => Some(((words, zs), rest)),
            None => None,
        },
        bits.len() < 64 * order ==> parse_coded_frame(bits, order, len) is None,
{
    lemma_words_round_trip(words, body);
}

/// Frames are full, but for the last one that holds samples, and for empty ones after it.
pub proof fn law_frame_len(total: nat, frame_size: nat, n: nat)
    ensures
        (n + 1) * frame_size <= total ==> frame_len(total, frame_size, n) == frame_size,
        n * frame_size <= total < (n + 1) * frame_size ==> frame_len(total, frame_size, n) == total
            - n * frame_size,
        total < n * frame_size ==> frame_len(total, frame_size, n) == 0,
{
    law_frames_add_up(total, frame_size, n);
    law_frames_add_up(total, frame_size, n + 1);
    assert((n + 1) * frame_size == n * frame_size + frame_size) by (nonlinear_arith);
}

/// Frames are read in turn: after `n` frames the next one is read from the bits that are left,
/// and a frame that is cut off ends the reading for good.
pub proof fn law_frames_in_turn(bits: Seq<bool>, order: nat, frame_size: nat, total: nat, n: nat)
    ensures
        parse_frames(bits, order, frame_size, total, 0) == Some(
            (Seq::<(Seq<u64>, Seq<u32>)>::empty(), bits),
        ),
        parse_frames(bits, order, frame_size, total, n) matches Some((frames, left)) ==> (
        frames.len() == n && parse_frames(bits, order, frame_size, total, n + 1)
            == match parse_coded_frame(left, order, frame_len(total, frame_size, n)) {
            Some((frame, rest)) => Some((frames.push(frame), rest)),
            None => None,
        }),
        parse_frames(bits, order, frame_size, total, n) is None ==> parse_frames(
            bits,
            order,
            frame_size,
            total,
            n + 1,
        ) is None,
    decreases n,
{
    if n > 0 {
        law_frames_in_turn(bits, order, frame_size, total, (n - 1) as nat);
    }
}

/// The decoder goes by the header: as many frames, words and samples as it announces, from the
/// first bit of the payload on.
pub proof fn law_decoder_goes_by_header(payload: Seq<u8>, info: StreamInfo)
    ensures
        stream_frames(payload, info) == match parse_frames(
            bytes_bits(payload),
            info.lpc_order as nat,
            info.frame_size as nat,
            info.total_samples as nat,
            info.total_frames as nat,
        ) {
            Some((frames, _)) => Some(frames),
            None => None,
        },
        stream_frames(payload, info) matches Some(frames) ==> frames.len() == info.total_frames,
{
    let bits = bytes_bits(payload);
    let order = info.lpc_order as nat;
    let size = info.frame_size as nat;
    let total = info.total_samples as nat;
    law_frames_in_turn(bits, order, size, total, info.total_frames as nat);
}

/// Frames are restored by themselves and joined. In each, a sample agrees, modulo `2^16`, with
/// its residual added to the prediction from the frame's words and the samples before it.
pub proof fn law_restore_frames(
    a: Seq<(Seq<u64>, Seq<u32>)>,
    b: Seq<(Seq<u64>, Seq<u32>)>,
    words: Seq<u64>,
    zs: Seq<u32>,
    f: spec_fn(Seq<u64>, Seq<i16>) -> i16,
    i: int,
)
    ensures
        restore_frames(Seq::empty(), f) == Seq::<i16>::empty(),
        restore_frames(a + b, f) == restore_frames(a, f) + restore_frames(b, f),
        ({
            let s = restore_frames(seq![(words, zs)], f);
            &&& s.len() == zs.len()
            &&& 0 <= i < s.len() ==> (s[i] - (f(words, s.take(i)) + unzigzag(zs[i] as int)))
                % 0x1_0000 == 0
        }),
    decreases b.len(),
{
    assert(restore_frames(Seq::empty(), f) =~= Seq::<i16>::empty());
    let one = seq![(words, zs)];
    assert(one.drop_last() =~= Seq::<(Seq<u64>, Seq<u32>)>::empty());
    let rs = as_ints(unzigzags(zs));
    let s = restore(rs, with_words(f, words));
    assert(restore_frames(one, f) =~= s);
    law_restore(rs, with_words(f, words), i);
    if b.len() == 0 {
        assert(a + b =~= a);
        assert(restore_frames(a, f) + Seq::<i16>::empty() =~= restore_frames(a, f));
    } else {
        law_restore_frames(a, b.drop_last(), words, zs, f, i);
        assert((a + b).drop_last() =~= a + b.drop_last());
        assert(restore_frames(a + b, f) =~= restore_frames(a, f) + restore_frames(b, f));
    }
}

/// A predictor computes a function of words and samples exactly if that is all it ever gives.
pub proof fn law_computes_frames<P: Fn(&[u64], &[i16]) -> i16>(
    predict: P,
    f: spec_fn(Seq<u64>, Seq<i16>) -> i16,
)
    ensures
        computes_frames(predict, f) <==> forall|words: &[u64], before: &[i16], p: i16| #[trigger]
            predict.ensures((words, before), p) ==> p == f(words@, before@),
{
    if computes_frames(predict, f) {
        assert forall|words: &[u64], before: &[i16], p: i16| #[trigger]
            predict.ensures((words, before), p) implies p == f(words@, before@) by {
            assert(gives(&predict, words, before, p));
        }
    }
}

/// Decoded samples are determined: where the predictor computes a function, they are what that
/// function restores.
pub proof fn law_decoded_is_determined<P: Fn(&[u64], &[i16]) -> i16>(
    predict: P,
    f: spec_fn(Seq<u64>, Seq<i16>) -> i16,
    frames: Seq<(Seq<u64>, Seq<u32>)>,
    s: Seq<i16>,
)
    requires
        computes_frames(predict, f),
        is_decoded(predict, frames, s),
    ensures
        s == restore_frames(frames, f),
    decreases frames.len(),
{
    if frames.len() > 0 {
        let (words, zs) = frames.last();
        let start = s.len() - zs.len();
        let t = s.skip(start);
        law_decoded_is_determined(predict, f, frames.drop_last(), s.take(start));
        lemma_frame_is_determined(predict, f, words, unzigzags(zs), t);
        assert(s =~= s.take(start) + t);
    } else {
        assert(s =~= restore_frames(frames, f));
    }
}

proof fn lemma_frame_is_determined<P: Fn(&[u64], &[i16]) -> i16>(
    predict: P,
    f: spec_fn(Seq<u64>, Seq<i16>) -> i16,
    words: Seq<u64>,
    rs: Seq<i32>,
    t: Seq<i16>,
)
    requires
        computes_frames(predict, f),
        t.len() == rs.len(),
        forall|i: int|
            0 <= i < rs.len() ==> is_restored_with(
                predict,
                words,
                t.take(i),
                rs[i],
                #[trigger] t[i],
            ),
    ensures
        t == restore(as_ints(rs), with_words(f, words)),
    decreases rs.len(),
{
    if rs.len() > 0 {
        let n = rs.len() - 1;
        let r = rs.drop_last();
        let u = t.drop_last();
        assert forall|i: int| 0 <= i < r.len() implies is_restored_with(
            predict,
            words,
            u.take(i),
            r[i],
            #[trigger] u[i],
        ) by {
            assert(u.take(i) =~= t.take(i));
            assert(u[i] == t[i]);
        }
        lemma_frame_is_determined(predict, f, words, r, u);
        assert(as_ints(rs).drop_last() =~= as_ints(r));
        assert(t.take(n) =~= u);
        assert(is_restored_with(predict, words, t.take(n), rs[n], t[n]));
    }
    assert(t =~= restore(as_ints(rs), with_words(f, words)));
}

/// A stream frame by frame: frame `n` is the words that go with it and the coded residuals of
/// the samples from `n * frame_size` on.
pub proof fn law_stream_bits(
    s: Seq<i16>,
    frame_size: nat,
    words: Seq<Seq<u64>>,
    ks: Seq<nat>,
    f: spec_fn(Seq<u64>, Seq<i16>) -> i16,
    n: nat,
    end: int,
)
    requires
        n * frame_size <= end <= s.len(),
        end == (n + 1) * frame_size || end == s.len() < (n + 1) * frame_size,
    ensures
        stream_bits(s, frame_size, words, ks, f, 0) == Seq::<bool>::empty(),
        stream_bits(s, frame_size, words, ks, f, n + 1) == stream_bits(
            s,
            frame_size,
            words,
            ks,
            f,
            n,
        ) + (words_bits(words[n as int]) + frame_bits(
            zigzags(
                coded_residuals(
                    s.subrange((n * frame_size) as int, end),
                    |before: Seq<i16>| f(words[n as int], before),
                ),
            ),
            ks[n as int],
        )),
{
    law_frames_add_up(s.len(), frame_size, n);
    law_frames_add_up(s.len(), frame_size, n + 1);
    assert(frame_samples(s, frame_size, n) =~= s.subrange((n * frame_size) as int, end));
    let g = |before: Seq<i16>| f(words[n as int], before);
    assert(with_words(f, words[n as int]) =~= g);
}

} // verus!
