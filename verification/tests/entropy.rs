use audio_compressor::entropy::{
    encode_frame, optimal_rice_parameter, zigzag_decode, zigzag_encode, BitReader, BitWriter,
};

fn rounded(residuals: &[f32]) -> Vec<i32> {
    residuals.iter().map(|r| r.round() as i32).collect()
}

#[test]
fn test_bitwriter_basic() {
    let mut bw = BitWriter::new();
    bw.write_bits(0b101, 3);
    bw.write_bits(0b0110, 4);
    bw.flush();
    // 1010 1100 -> 0xAC
    assert_eq!(bw.buffer[0], 0xAC);
}

#[test]
fn test_bitwriter_cross_boundary() {
    let mut bw = BitWriter::new();
    bw.write_bits(u64::MAX, 62);
    // Two bits go to the first word, two to the next.
    bw.write_bits(0b1011, 4);
    bw.flush();

    for i in 0..7 {
        assert_eq!(bw.buffer[i], 0xFF);
    }
    assert_eq!(bw.buffer[7], 0xFE);
    assert_eq!(bw.buffer[8], 0xC0);
}

#[test]
fn test_bitwriter_append() {
    let mut bw1 = BitWriter::new();
    bw1.write_bits(0b101, 3);

    let mut bw2 = BitWriter::new();
    bw2.write_bits(0b0110, 4);

    bw1.append_bits(&bw2);
    bw1.flush();

    assert_eq!(bw1.buffer[0], 0xAC); // 1010 1100
}

#[test]
fn test_bitwriter_unary() {
    let mut bw = BitWriter::new();
    bw.write_unary(3); // 1110
    bw.write_unary(0); // 0
    bw.write_unary(1); // 10
    bw.flush();
    // 1110 0100 -> 0xE4
    assert_eq!(bw.buffer[0], 0xE4);
}

#[test]
fn test_zigzag() {
    assert_eq!(zigzag_encode(0), 0);
    assert_eq!(zigzag_encode(-1), 1);
    assert_eq!(zigzag_encode(1), 2);
    assert_eq!(zigzag_encode(-2), 3);
    assert_eq!(zigzag_encode(2), 4);
}

#[test]
fn test_rice_parameter() {
    // A very weak signal has k = 0.
    let zeros = vec![0; 100];
    assert_eq!(optimal_rice_parameter(&zeros), 0);

    // mean = 10 -> k = 3
    let tens = vec![10; 100];
    assert_eq!(optimal_rice_parameter(&tens), 3);

    // mean = 100 -> k = 6
    let hundreds = vec![100; 100];
    assert_eq!(optimal_rice_parameter(&hundreds), 6);
}

#[test]
fn test_encode_frame() {
    let residuals = vec![0.0, -1.0, 1.0, -2.0, 2.0];
    let mut bw = BitWriter::new();
    let (k, bits) = encode_frame(&rounded(&residuals), &mut bw);

    // The mean of the zigzags is 2; log2(2 * ln 2) is about 0.46, which rounds to 0.
    assert_eq!(k, 0);
    // 5 (parameter) + 1 + 2 + 3 + 4 + 5 = 20 bits.
    assert_eq!(bits, 20);
}

#[test]
fn zigzag_extremes() {
    assert_eq!(zigzag_encode(i32::MAX), u32::MAX - 1);
    assert_eq!(zigzag_encode(i32::MIN), u32::MAX);
    assert_eq!(zigzag_decode(u32::MAX), i32::MIN);
    assert_eq!(zigzag_decode(u32::MAX - 1), i32::MAX);
    for v in [-1000, -3, -1, 0, 1, 2, 77, 65536] {
        assert_eq!(zigzag_decode(zigzag_encode(v)), v);
    }
}

#[test]
fn rice_parameter_agrees_with_floating_point() {
    for mean in [1u32, 2, 3, 4, 5, 8, 9, 16, 17, 33, 65, 131, 1000, 4096, 1 << 20, 1 << 31, u32::MAX] {
        let k = (mean as f64 * std::f64::consts::LN_2).log2().max(0.0).round() as u8;
        assert_eq!(optimal_rice_parameter(&vec![mean; 7]), k.min(31), "mean {mean}");
    }
    // Means that are no integers.
    for sum in 1u32..400 {
        let values = vec![sum / 3, sum - sum / 3 - sum / 4, sum / 4];
        let mean = sum as f64 / 3.0;
        let k = if mean < 1.0 {
            0
        } else {
            (mean * std::f64::consts::LN_2).log2().max(0.0).round() as u8
        };
        assert_eq!(optimal_rice_parameter(&values), k, "sum {sum}");
    }
}

#[test]
fn a_doubled_mean_raises_the_parameter_by_at_most_one() {
    for mean in [1u32, 2, 3, 5, 11, 47, 1000, 65537, 1 << 30] {
        let k = optimal_rice_parameter(&[mean; 3]);
        let doubled = optimal_rice_parameter(&[2 * mean; 7]);
        assert!(doubled == k || doubled == k + 1);
    }
    assert_eq!(optimal_rice_parameter(&[1000]), 9);
    assert_eq!(optimal_rice_parameter(&[2000]), 10);
}

#[test]
fn rice_parameter_edges() {
    assert_eq!(optimal_rice_parameter(&[]), 0);
    assert_eq!(optimal_rice_parameter(&[u32::MAX]), 31);
    // A mean below 1.
    assert_eq!(optimal_rice_parameter(&[0, 1, 0, 1]), 0);
    // sqrt(2) / ln(2) is about 2.0403: the first step.
    assert_eq!(optimal_rice_parameter(&[2; 100]), 0);
    let mut just_above = vec![2u32; 24];
    just_above.push(4);
    assert_eq!(optimal_rice_parameter(&just_above), 1);
    let mut just_below = vec![2u32; 50];
    just_below.push(4);
    assert_eq!(optimal_rice_parameter(&just_below), 0);
}

#[test]
fn write_bits_masks_and_fills_words() {
    let mut bw = BitWriter::new();
    bw.write_bits(0xFFFF, 0);
    assert_eq!(bw.bytes_written(), 0);
    // Only the low four bits count.
    bw.write_bits(0xABCD, 4);
    assert_eq!(bw.bytes_written(), 1);
    bw.write_bits(0x0123_4567_89AB_CDEF, 64);
    assert_eq!(bw.buffer, vec![0xD0, 0x12, 0x34, 0x56, 0x78, 0x9A, 0xBC, 0xDE]);
    assert_eq!(bw.as_bytes(), [0xD0, 0x12, 0x34, 0x56, 0x78, 0x9A, 0xBC, 0xDE]);
    assert_eq!(bw.bytes_written(), 9);
    bw.flush();
    assert_eq!(bw.buffer[8], 0xF0);
    assert_eq!(bw.buffer.len(), 9);
    // A second flush changes nothing.
    bw.flush();
    assert_eq!(bw.buffer.len(), 9);
}

#[test]
fn a_full_word_leaves_at_once() {
    let mut bw = BitWriter::new();
    bw.write_bits(u64::MAX, 64);
    assert_eq!(bw.buffer, vec![0xFF; 8]);
    assert_eq!(bw.bytes_written(), 8);
}

#[test]
fn long_unary_codes() {
    let mut bw = BitWriter::new();
    bw.write_unary(130);
    assert_eq!(bw.bytes_written(), 17);
    bw.flush();
    let mut expected = vec![0xFF; 16];
    expected.push(0b1100_0000);
    assert_eq!(bw.buffer, expected);
}

#[test]
fn append_keeps_bits_across_words() {
    let mut whole = BitWriter::new();
    let mut first = BitWriter::new();
    let mut second = BitWriter::new();
    for i in 0..50u64 {
        whole.write_bits(i * 37, 11);
        first.write_bits(i * 37, 11);
    }
    for i in 0..33u64 {
        whole.write_bits(i * 91, 7);
        second.write_bits(i * 91, 7);
    }
    first.append_bits(&second);
    whole.flush();
    first.flush();
    assert_eq!(first.buffer, whole.buffer);
}

#[test]
fn a_split_write_is_one_write() {
    let mut once = BitWriter::new();
    once.write_bits(0b1_0110_1001_1, 10);
    let mut twice = BitWriter::new();
    twice.write_bits(0b1_0110_1001_1 >> 4, 6);
    twice.write_bits(0b1_0110_1001_1, 4);
    once.flush();
    twice.flush();
    assert_eq!(once.buffer, twice.buffer);
}

#[test]
fn frames_decode_to_their_residuals() {
    let frames: Vec<Vec<i32>> = vec![
        vec![],
        vec![0, -1, 1, -2, 2],
        (0..300).map(|i| (i * i * 31) % 2000 - 1000).collect(),
        vec![i32::MAX, i32::MIN, 0, 5, -5],
        vec![0; 64],
    ];
    let mut bw = BitWriter::new();
    let mut headers = Vec::new();
    for f in &frames {
        headers.push(encode_frame(f, &mut bw));
    }
    bw.flush();

    let mut reader = BitReader::new(&bw.buffer);
    for (f, (k, _)) in frames.iter().zip(headers) {
        let (got_k, got) = reader.decode_frame(f.len()).unwrap();
        assert_eq!(got_k, k);
        assert_eq!(&got, f);
    }
}

#[test]
fn a_frame_costs_at_most_four_bits_more_than_its_parameter_a_value() {
    let residuals: Vec<i32> = (0..1000).map(|i| (i * 7919) % 513 - 256).collect();
    let mut bw = BitWriter::new();
    let (k, bits) = encode_frame(&residuals, &mut bw);
    assert!(bits <= 5 + 1000 * (k as usize + 4));
}

#[test]
fn cut_off_streams_read_nothing() {
    let data = [0b1110_0101u8];
    let mut reader = BitReader::new(&data);
    assert_eq!(reader.read_bits(9), None);
    assert_eq!(reader.read_unary(), Some(3));
    assert_eq!(reader.read_bits(2), Some(1));
    assert_eq!(reader.read_bits(0), Some(0));
    // One bit, a one, is left: no closed unary code.
    assert_eq!(reader.read_bits(1), Some(0));
    assert_eq!(reader.read_unary(), None);
    assert_eq!(reader.read_bits(1), Some(1));
    assert_eq!(reader.read_bits(1), None);
    assert_eq!(reader.decode_frame(0), None);

    let all_ones = [0xFFu8; 3];
    let mut reader = BitReader::new(&all_ones);
    assert_eq!(reader.decode_frame(1), None);
    assert_eq!(reader.read_bits(24), Some(0xFF_FFFF));
}

#[test]
fn wide_reads() {
    let data = [0x01, 0x23, 0x45, 0x67, 0x89, 0xAB, 0xCD, 0xEF, 0x55];
    let mut reader = BitReader::new(&data);
    assert_eq!(reader.read_bits(64), Some(0x0123_4567_89AB_CDEF));
    assert_eq!(reader.read_rice(3), Some(5));
}

#[test]
fn zigzag_orders_by_magnitude() {
    let by_magnitude = [0, -1, 2, -3, 100, -1000, i32::MAX, i32::MIN];
    for pair in by_magnitude.windows(2) {
        assert!(zigzag_encode(pair[0]) < zigzag_encode(pair[1]));
    }
}

#[test]
fn the_logarithm_constant() {
    let scaled = std::f64::consts::LN_2 * (1u64 << 53) as f64;
    assert_eq!(audio_compressor::rice::LN_2_SCALED as f64, scaled);
}

#[test]
fn bits_read_back_as_bytes() {
    let data = [0x00u8, 0x80, 0x7F, 0xFF, 0x5A];
    let mut reader = BitReader::new(&data);
    let mut writer = BitWriter::new();
    for _ in 0..40 {
        writer.write_bits(reader.read_bits(1).unwrap(), 1);
    }
    writer.flush();
    assert_eq!(writer.buffer, data);
}
