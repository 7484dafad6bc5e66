use audio_compressor::lpc::{
    autocorrelation, autocorrelation_lanes, autocorrelation_scalar, DEFAULT_FRAME_SIZE,
    DEFAULT_ORDER, MAX_ORDER,
};

#[test]
fn test_autocorr_scalar_dc() {
    // Constant signal 100: R[k] = (N - k) * 100^2
    let samples: Vec<i16> = vec![100; 64];
    let r = autocorrelation_scalar(&samples, 3);
    assert_eq!(r[0] as f64, 64.0 * 10000.0);
    assert_eq!(r[1] as f64, 63.0 * 10000.0);
    assert_eq!(r[2] as f64, 62.0 * 10000.0);
    assert_eq!(r[3] as f64, 61.0 * 10000.0);
}

#[test]
fn test_autocorr_scalar_energy() {
    let samples: Vec<i16> = (1..=100).map(|x| x as i16).collect();
    let r = autocorrelation_scalar(&samples, 0);
    let expected: i64 = (1..=100i64).map(|x| x * x).sum();
    assert_eq!(r[0] as f64, expected as f64);
}

#[test]
fn test_avx2_matches_scalar() {
    let samples: Vec<i16> = (0..4096)
        .map(|i| ((i * 7 + 13) % 65536 - 32768) as i16)
        .collect();

    let max_lag = 10;
    let scalar = autocorrelation_scalar(&samples, max_lag);
    let dispatched = autocorrelation(&samples, max_lag);

    for lag in 0..=max_lag {
        assert!(
            (scalar[lag] as f64 - dispatched[lag] as f64).abs() < 1e-6,
            "mismatch at lag {lag}: scalar={}, dispatched={}",
            scalar[lag],
            dispatched[lag]
        );
    }
}

#[test]
fn extreme_samples_do_not_overflow() {
    let samples = vec![i16::MIN; 40];
    let r = autocorrelation(&samples, 2);
    assert_eq!(r, vec![40i64 << 30, 39i64 << 30, 38i64 << 30]);
    assert_eq!(autocorrelation_lanes(&samples, 2), autocorrelation_scalar(&samples, 2));
}

#[test]
fn lanes_agree_at_every_length() {
    for n in 1..70usize {
        let samples: Vec<i16> = (0..n).map(|i| ((i * 7919) % 4001) as i16 - 2000).collect();
        let max_lag = if n > 5 { 5 } else { n - 1 };
        assert_eq!(autocorrelation_lanes(&samples, max_lag), autocorrelation_scalar(&samples, max_lag));
    }
}

#[test]
fn no_lag_exceeds_the_energy() {
    let samples: Vec<i16> = (0..200).map(|i| ((i * 31) % 97) as i16 - 48).collect();
    let r = autocorrelation(&samples, 32);
    assert!(r.iter().all(|x| x.abs() <= r[0]));
    assert_eq!(autocorrelation(&[0i16; 20], 1), vec![0, 0]);
}

#[test]
fn both_ways_take_the_full_length_as_lag() {
    assert_eq!(autocorrelation_scalar(&[2, 3], 2), vec![13, 6, 0]);
    assert_eq!(autocorrelation_lanes(&[2, 3], 2), vec![13, 6, 0]);
    assert_eq!(autocorrelation_lanes(&[], 0), vec![0]);
    let samples: Vec<i16> = (0..33).map(|i| i * 900 - 15000).collect();
    assert_eq!(autocorrelation_lanes(&samples, 33), autocorrelation_scalar(&samples, 33));
}

#[test]
fn defaults() {
    assert_eq!((DEFAULT_ORDER, DEFAULT_FRAME_SIZE, MAX_ORDER), (10, 4096, 32));
}
