use audio_compressor::decompress::{
    decoded_path, next_frame_len, parse_stream_header, payload, reconstruct_sample, restore_frame,
    write_wav, StreamInfo,
};
use audio_compressor::entropy::{encode_frame, BitReader, BitWriter};
use audio_compressor::ingest::Frame;
use audio_compressor::pipeline::{frame_report, frame_step, FrameReport, FrameStep, Totals};
use audio_compressor::sarcophagus::{write_archive, ArchiveHeader};
use audio_compressor::stream::decode_stream;

fn header() -> ArchiveHeader {
    ArchiveHeader {
        sample_rate: 0x0102_0304,
        frame_size: 4096,
        lpc_order: 10,
        total_frames: 7,
        data_size: 0x1122_3344_5566_7788,
    }
}

#[test]
fn archive_layout() {
    let bytes = write_archive(&header(), &[0xAA, 0xBB]);
    let expected = [
        b'A', b'C', b'M', b'P', 1, 4, 3, 2, 1, 0, 16, 0, 0, 10, 7, 0, 0, 0, 0x88, 0x77, 0x66, 0x55,
        0x44, 0x33, 0x22, 0x11, 0xAA, 0xBB,
    ];
    assert_eq!(bytes, expected);
}

#[test]
fn written_archives_are_recognized() {
    let bytes = write_archive(&header(), &[0; 10]);
    assert_eq!(parse_stream_header(&bytes).unwrap().sample_rate, 0x0102_0304);
    assert!(parse_stream_header(&bytes[..35]).is_none());
}

fn stream(payload: &[u8]) -> Vec<u8> {
    let mut b = b"ACMP\x01".to_vec();
    b.extend_from_slice(&44100u32.to_le_bytes());
    b.extend_from_slice(&2u16.to_le_bytes());
    b.extend_from_slice(&4096u32.to_le_bytes());
    b.push(10);
    b.extend_from_slice(&3u32.to_le_bytes());
    b.extend_from_slice(&(payload.len() as u64).to_le_bytes());
    b.extend_from_slice(&9000u64.to_le_bytes());
    b.extend_from_slice(payload);
    b
}

#[test]
fn stream_headers() {
    let b = stream(&[5, 6, 7]);
    let info = parse_stream_header(&b).unwrap();
    assert_eq!(info.sample_rate, 44100);
    assert_eq!(info.channels, 2);
    assert_eq!(info.frame_size, 4096);
    assert_eq!(info.lpc_order, 10);
    assert_eq!(info.total_frames, 3);
    assert_eq!(info.data_size, 3);
    assert_eq!(info.total_samples, 9000);
    assert_eq!(payload(&b, &info), &[5, 6, 7]);

    let mut other_version = b.clone();
    other_version[4] = 2;
    assert!(parse_stream_header(&other_version).is_none());
    let mut other_format = b.clone();
    other_format[0] = b'B';
    assert!(parse_stream_header(&other_format).is_none());
    assert!(parse_stream_header(&[]).is_none());
}

#[test]
fn frame_lengths_add_up() {
    let mut decoded = 0u64;
    let mut lens = Vec::new();
    for _ in 0..4 {
        let n = next_frame_len(9000, decoded, 4096);
        lens.push(n);
        decoded += n as u64;
    }
    assert_eq!(lens, vec![4096, 4096, 808, 0]);
}

#[test]
fn reconstruction_wraps() {
    assert_eq!(reconstruct_sample(100, -30), 70);
    assert_eq!(reconstruct_sample(i16::MAX, 1), i16::MIN);
    assert_eq!(reconstruct_sample(i16::MIN, -1), i16::MAX);
    assert_eq!(reconstruct_sample(0, 65536 + 5), 5);
    // The sum leaves 32 bits.
    assert_eq!(reconstruct_sample(1, i32::MAX), 0);
    assert_eq!(reconstruct_sample(i16::MAX, i32::MAX), 32766);
    assert_eq!(reconstruct_sample(-1, i32::MIN), -1);
    assert_eq!(reconstruct_sample(i16::MIN, i32::MIN), i16::MIN);
    for s in [i16::MIN, -1, 0, 1, i16::MAX] {
        for p in [i16::MIN, -7, 0, 9, i16::MAX] {
            assert_eq!(reconstruct_sample(p, s as i32 - p as i32), s);
        }
    }
}

#[test]
fn a_frame_comes_back_bit_for_bit() {
    let predict = |before: &[i16]| -> i16 {
        match before.len() {
            0 => 0,
            1 => before[0],
            n => (2.0 * before[n - 1] as f64 - before[n - 2] as f64).round() as i16,
        }
    };
    let samples: Vec<i16> = (0..500).map(|i| ((i as f64 * 0.07).sin() * 20000.0) as i16).collect();
    let residuals: Vec<i32> = (0..samples.len())
        .map(|i| samples[i] as i32 - predict(&samples[..i]) as i32)
        .collect();
    let mut writer = BitWriter::new();
    writer.write_bits(0b101, 3);
    encode_frame(&residuals, &mut writer);
    writer.flush();

    let mut reader = BitReader::new(&writer.buffer);
    assert_eq!(reader.read_bits(3), Some(0b101));
    let (_, decoded) = reader.decode_frame(samples.len()).unwrap();
    assert_eq!(restore_frame(&decoded, predict), samples);
}

/// The first word times the sample before, and the second times the one before that.
fn predict_with(words: &[u64], before: &[i16]) -> i16 {
    let mut p = 0.0;
    for (j, &w) in words.iter().enumerate().take(before.len()) {
        p += f64::from_bits(w) * before[before.len() - 1 - j] as f64;
    }
    p.round() as i16
}

fn stream_info(frame_size: u32, total_frames: u32, total_samples: u64) -> StreamInfo {
    StreamInfo {
        sample_rate: 44100,
        channels: 1,
        frame_size,
        lpc_order: 2,
        total_frames,
        data_size: 0,
        total_samples,
    }
}

/// The payload of a stream whose frames have different words.
fn coded_stream(samples: &[i16], frame_size: usize) -> Vec<u8> {
    let mut writer = BitWriter::new();
    for (n, frame) in samples.chunks(frame_size).enumerate() {
        let words = [(2.0 - n as f64 * 0.25).to_bits(), (-1.0f64).to_bits()];
        for w in words {
            writer.write_bits(w, 64);
        }
        let residuals: Vec<i32> = (0..frame.len())
            .map(|i| frame[i] as i32 - predict_with(&words, &frame[..i]) as i32)
            .collect();
        encode_frame(&residuals, &mut writer);
    }
    writer.flush();
    writer.as_bytes().to_vec()
}

#[test]
fn a_stream_of_several_frames_comes_back() {
    let samples: Vec<i16> = (0..250).map(|i| ((i as f64 * 0.11).sin() * 15000.0) as i16).collect();
    let payload = coded_stream(&samples, 64);
    let decoded = decode_stream(&payload, &stream_info(64, 4, 250), predict_with);
    assert_eq!(decoded, Some(samples.clone()));
    // Fewer frames give the samples of those frames.
    let decoded = decode_stream(&payload, &stream_info(64, 3, 250), predict_with).unwrap();
    assert_eq!(decoded, samples[..192]);
    assert_eq!(decode_stream(&payload, &stream_info(64, 0, 250), predict_with), Some(vec![]));
}

#[test]
fn a_stream_that_is_cut_off_is_refused() {
    let samples: Vec<i16> = (0..100).map(|i| (i * i) as i16).collect();
    let payload = coded_stream(&samples, 40);
    let info = stream_info(40, 3, 100);
    assert_eq!(decode_stream(&payload, &info, predict_with), Some(samples));
    for n in 0..payload.len() {
        assert_eq!(decode_stream(&payload[..n], &info, predict_with), None);
    }
    // A frame more has no words left to read, though it holds no samples.
    assert_eq!(decode_stream(&payload, &stream_info(40, 4, 100), predict_with), None);
}

#[test]
fn a_coded_stream_bit_by_bit() {
    // One frame: the word 7, the parameter 1, and 0, -1, 1 as the numbers 0, 1, 2.
    let mut writer = BitWriter::new();
    writer.write_bits(7, 64);
    writer.write_bits(1, 5);
    for (quotient, low) in [(0, 0), (0, 1), (1, 0)] {
        writer.write_unary(quotient);
        writer.write_bits(low, 1);
    }
    writer.flush();
    let mut info = stream_info(3, 1, 3);
    info.lpc_order = 1;
    // Every sample is predicted as the word plus the number of samples so far.
    let predict = |words: &[u64], before: &[i16]| (words[0] as usize + before.len()) as i16;
    assert_eq!(decode_stream(writer.as_bytes(), &info, predict), Some(vec![7, 7, 10]));
}

#[test]
fn wav_layout() {
    let wav = write_wav(&[1, -2], 8000, 1);
    assert_eq!(&wav[0..4], b"RIFF");
    assert_eq!(&wav[4..8], &40u32.to_le_bytes());
    assert_eq!(&wav[28..32], &16000u32.to_le_bytes());
    assert_eq!(&wav[44..], &[1, 0, 0xFE, 0xFF]);
}

#[test]
fn decoded_paths() {
    assert_eq!(decoded_path("song.acmp"), "song_dec.wav");
    assert_eq!(decoded_path("song.wav"), "song.wav_dec.wav");
    assert_eq!(decoded_path("a.acmp.acmp"), "a.acmp_dec.wav");
    assert_eq!(decoded_path("é.acmp"), "é_dec.wav");
    assert_eq!(decoded_path("acmp"), "acmp_dec.wav");
    assert_eq!(decoded_path(""), "_dec.wav");
}

#[test]
fn frame_steps() {
    assert_eq!(frame_step(&Frame::F32(vec![0; 50])), FrameStep::FloatUnsupported);
    assert_eq!(frame_step(&Frame::I16(vec![0; 10])), FrameStep::TooShort);
    assert_eq!(frame_step(&Frame::I16(vec![0; 11])), FrameStep::Analyze);
}

#[test]
fn reports_and_totals() {
    assert_eq!(frame_report(2, 10, true), FrameReport::Line);
    assert_eq!(frame_report(3, 10, true), FrameReport::Ellipsis);
    assert_eq!(frame_report(3, 10, false), FrameReport::Nothing);
    assert_eq!(frame_report(4, 10, true), FrameReport::Nothing);
    assert_eq!(frame_report(9, 10, false), FrameReport::Line);
    assert_eq!(frame_report(3, 4, true), FrameReport::Line);
    assert_eq!(frame_report(5, 0, true), FrameReport::Nothing);

    let mut t = Totals::new();
    t.record(4096, 30000);
    t.record(100, 700);
    assert_eq!(t, Totals { analyzed: 2, uncompressed_bits: 4196 * 16, compressed_bits: 30700 });
}

#[test]
fn different_archives_differ() {
    let mut other = header();
    other.total_frames = 8;
    assert_ne!(write_archive(&header(), &[1]), write_archive(&other, &[1]));
    assert_ne!(write_archive(&header(), &[1]), write_archive(&header(), &[2]));
}
