use audio_compressor::decompress::write_wav;
use audio_compressor::ingest::{parse_wav_header, Frame, IngestError, MappedAudio, SampleSlice};

/// A minimal 16-bit PCM file in memory.
fn make_test_wav(samples: &[i16], sample_rate: u32, channels: u16) -> Vec<u8> {
    let data_size = (samples.len() * 2) as u32;
    let fmt_chunk_size: u32 = 16;
    let file_size: u32 = 4 + (8 + fmt_chunk_size) + (8 + data_size);

    let mut buf = Vec::with_capacity(file_size as usize + 8);
    buf.extend_from_slice(b"RIFF");
    buf.extend_from_slice(&file_size.to_le_bytes());
    buf.extend_from_slice(b"WAVE");

    buf.extend_from_slice(b"fmt ");
    buf.extend_from_slice(&fmt_chunk_size.to_le_bytes());
    buf.extend_from_slice(&1u16.to_le_bytes());
    buf.extend_from_slice(&channels.to_le_bytes());
    buf.extend_from_slice(&sample_rate.to_le_bytes());
    let byte_rate = sample_rate * channels as u32 * 2;
    buf.extend_from_slice(&byte_rate.to_le_bytes());
    let block_align = channels * 2;
    buf.extend_from_slice(&block_align.to_le_bytes());
    buf.extend_from_slice(&16u16.to_le_bytes());

    buf.extend_from_slice(b"data");
    buf.extend_from_slice(&data_size.to_le_bytes());
    for &s in samples {
        buf.extend_from_slice(&s.to_le_bytes());
    }
    buf
}

fn chunk(id: &[u8; 4], body: &[u8]) -> Vec<u8> {
    let mut out = id.to_vec();
    out.extend_from_slice(&(body.len() as u32).to_le_bytes());
    out.extend_from_slice(body);
    if body.len() % 2 == 1 {
        out.push(0);
    }
    out
}

fn format_body(tag: u16, channels: u16, rate: u32, width: u16) -> Vec<u8> {
    let mut out = tag.to_le_bytes().to_vec();
    out.extend_from_slice(&channels.to_le_bytes());
    out.extend_from_slice(&rate.to_le_bytes());
    out.extend_from_slice(&[0; 6]);
    out.extend_from_slice(&width.to_le_bytes());
    out
}

fn riff(chunks: &[Vec<u8>]) -> Vec<u8> {
    let mut out = b"RIFF\0\0\0\0WAVE".to_vec();
    for c in chunks {
        out.extend_from_slice(c);
    }
    out
}

#[test]
fn test_open_and_sample_count() {
    let samples: Vec<i16> = (0..8192).collect();
    let wav = make_test_wav(&samples, 44100, 1);

    let audio = MappedAudio::open(&wav).unwrap();
    assert_eq!(audio.header.sample_rate, 44100);
    assert_eq!(audio.header.channels, 1);
    assert_eq!(audio.header.bits_per_sample, 16);
    assert_eq!(audio.sample_count(), 8192);
}

#[test]
fn test_samples_match() {
    let samples: Vec<i16> = vec![0, 1000, -1000, i16::MAX, i16::MIN];
    let wav = make_test_wav(&samples, 48000, 1);

    let audio = MappedAudio::open(&wav).unwrap();
    match audio.samples() {
        SampleSlice::I16(s) => assert_eq!(s, &samples[..]),
        SampleSlice::F32(_) => panic!("expected i16"),
    }
}

#[test]
fn test_stereo_duration() {
    let samples: Vec<i16> = (0..88200).map(|i| (i % 32000) as i16).collect(); // 1 second at 44100Hz stereo
    let wav = make_test_wav(&samples, 44100, 2);

    let audio = MappedAudio::open(&wav).unwrap();
    assert_eq!(audio.header.channels, 2);
    let (per_channel, rate) = audio.duration_secs();
    assert_eq!((per_channel, rate), (44100, 44100));
    let duration = per_channel as f64 / rate as f64;
    assert!((duration - 1.0).abs() < 0.001, "expected ~1s, got {duration}");
}

#[test]
fn test_not_a_wav() {
    let err = MappedAudio::open(b"this is not a wav file at all").unwrap_err();
    assert!(matches!(err, IngestError::NotWave));
}

#[test]
fn test_frame_count() {
    let samples: Vec<i16> = (0..10000).collect();
    let wav = make_test_wav(&samples, 44100, 1);

    let audio = MappedAudio::open(&wav).unwrap();
    assert_eq!(audio.frame_count(4096), 3);
    assert_eq!(audio.frame_count(10000), 1);
    assert_eq!(audio.frame_count(1), 10000);
}

#[test]
fn the_frame_count_is_the_least_that_is_enough() {
    for count in [0usize, 1, 5, 6, 7, 12, 13] {
        let wav = make_test_wav(&vec![1i16; count], 8000, 1);
        let audio = MappedAudio::open(&wav).unwrap();
        for size in 1..15 {
            let least = (0..).find(|n| n * size >= count).unwrap();
            assert_eq!(audio.frame_count(size), least);
            assert_eq!(audio.frames(size).len(), least);
        }
    }
}

#[test]
fn frames_cover_the_samples() {
    let samples: Vec<i16> = (0..1000).map(|i| (i * 7) as i16).collect();
    let wav = make_test_wav(&samples, 8000, 1);
    let audio = MappedAudio::open(&wav).unwrap();
    for size in [1usize, 3, 256, 999, 1000, 5000] {
        let frames = audio.frames(size);
        assert_eq!(frames.len(), audio.frame_count(size));
        let mut joined = Vec::new();
        for (i, f) in frames.iter().enumerate() {
            match f {
                Frame::I16(s) => {
                    assert!(!s.is_empty());
                    if i + 1 < frames.len() {
                        assert_eq!(s.len(), size);
                    }
                    joined.extend_from_slice(s);
                }
                Frame::F32(_) => panic!("expected i16"),
            }
        }
        assert_eq!(joined, samples);
    }
    let wav = make_test_wav(&[], 8000, 1);
    let empty = MappedAudio::open(&wav).unwrap();
    assert_eq!(empty.frames(10).len(), 0);
    assert_eq!(empty.frame_count(10), 0);
}

#[test]
fn float_samples_keep_their_bits() {
    let values = [1.5f32, -0.25, 3.0e10];
    let mut body = Vec::new();
    for v in values {
        body.extend_from_slice(&v.to_le_bytes());
    }
    let wav = riff(&[chunk(b"fmt ", &format_body(3, 1, 22050, 32)), chunk(b"data", &body)]);
    let audio = MappedAudio::open(&wav).unwrap();
    assert_eq!(audio.sample_count(), 3);
    match audio.samples() {
        SampleSlice::F32(s) => {
            let back: Vec<f32> = s.iter().map(|&b| f32::from_bits(b)).collect();
            assert_eq!(back, values);
        }
        SampleSlice::I16(_) => panic!("expected floats"),
    }
    assert_eq!(audio.samples().len(), 3);
    assert!(matches!(&audio.frames(2)[1], Frame::F32(s) if s.len() == 1));
}

#[test]
fn unknown_chunks_are_skipped() {
    let fmt = chunk(b"fmt ", &format_body(1, 2, 48000, 16));
    let data = chunk(b"data", &[1, 2, 3, 4]);
    let plain = parse_wav_header(&riff(&[fmt.clone(), data.clone()])).unwrap();
    let list = chunk(b"LIST", b"odd");
    let mut padded = list.clone();
    *padded.last_mut().unwrap() = 0x5A;
    let longer = parse_wav_header(&riff(&[list, fmt.clone(), data.clone()])).unwrap();
    // Any byte may pad the chunk.
    let other = parse_wav_header(&riff(&[padded, fmt, data])).unwrap();
    assert_eq!(other.data_offset, longer.data_offset);
    assert_eq!(other.sample_rate, longer.sample_rate);
    assert_eq!(other.data_size, longer.data_size);
    assert_eq!(plain.data_offset, 44);
    assert_eq!(longer.data_offset, 44 + 12);
    assert_eq!(longer.sample_rate, plain.sample_rate);
    assert_eq!(longer.channels, 2);
    assert_eq!(longer.data_size, 4);
}

#[test]
fn the_last_chunk_of_a_kind_counts() {
    let wav = riff(&[
        chunk(b"fmt ", &format_body(1, 1, 8000, 16)),
        chunk(b"data", &[0, 0]),
        chunk(b"fmt ", &format_body(1, 2, 16000, 16)),
        chunk(b"data", &[1, 0, 2, 0]),
    ]);
    let audio = MappedAudio::open(&wav).unwrap();
    assert_eq!(audio.header.sample_rate, 16000);
    assert_eq!(audio.header.channels, 2);
    assert!(matches!(audio.samples(), SampleSlice::I16(s) if s == vec![1, 2]));
}

#[test]
fn an_odd_byte_at_the_end_is_left_out() {
    let wav = riff(&[chunk(b"fmt ", &format_body(1, 1, 8000, 16)), chunk(b"data", &[1, 0, 2])]);
    let audio = MappedAudio::open(&wav).unwrap();
    assert_eq!(audio.header.data_size, 3);
    assert_eq!(audio.sample_count(), 1);
    assert_eq!(audio.samples().len(), audio.sample_count());
}

#[test]
fn errors() {
    assert!(matches!(
        parse_wav_header(b"RIFF"),
        Err(IngestError::Truncated { expected: 12, actual: 4 })
    ));
    assert!(matches!(parse_wav_header(b"RIFF\0\0\0\0WAVY"), Err(IngestError::NotWave)));
    assert!(matches!(parse_wav_header(b"RIFF\0\0\0\0WAVE"), Err(IngestError::DataChunkNotFound)));
    assert!(matches!(
        parse_wav_header(&riff(&[chunk(b"data", &[])])),
        Err(IngestError::DataChunkNotFound)
    ));
    assert!(matches!(
        parse_wav_header(&riff(&[chunk(b"fmt ", &[1, 0, 1, 0])])),
        Err(IngestError::Truncated { expected: 36, actual: 24 })
    ));
    let data = chunk(b"data", &[0, 0]);
    let open = |tag, width| {
        let wav = riff(&[chunk(b"fmt ", &format_body(tag, 1, 8000, width)), data.clone()]);
        MappedAudio::open(&wav).map(|a| a.header.data_size)
    };
    assert!(matches!(open(1, 16), Ok(2)));
    assert!(matches!(open(1, 8), Err(IngestError::UnsupportedBitsPerSample(8))));
    assert!(matches!(open(3, 16), Err(IngestError::UnsupportedBitsPerSample(16))));
    assert!(matches!(open(2, 16), Err(IngestError::UnsupportedFormat(2))));

    let mut wav = make_test_wav(&[1, 2, 3], 8000, 1);
    wav.pop();
    assert!(matches!(
        MappedAudio::open(&wav),
        Err(IngestError::Truncated { expected: 50, actual: 49 })
    ));
}

#[test]
fn written_files_read_back() {
    let samples: Vec<i16> = vec![0, 1, -1, i16::MAX, i16::MIN, 12345, -12345, 7];
    let wav = write_wav(&samples, 44100, 2);
    assert_eq!(wav, make_test_wav(&samples, 44100, 2));
    let audio = MappedAudio::open(&wav).unwrap();
    assert_eq!(audio.header.data_offset, 44);
    assert_eq!(audio.header.sample_rate, 44100);
    assert_eq!(audio.header.channels, 2);
    assert!(matches!(audio.samples(), SampleSlice::I16(s) if s == samples));
}
