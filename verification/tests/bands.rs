//! End-to-end tests of the band calculator on concrete fixed-point data.
//! Prices are in thousandths, so 1000 stands for a price of 1.0 and the
//! multiplier 2000 for 2.0 standard deviations.

use trusty_trade::bollingerbands::{
    compute_window, get_band_vec, rolling_bands, semi_rolling_bb, semi_rolling_bb_with_mean,
    simplest_bb, simplest_bb_with_mean, BandError, BollingerBands, PadMode,
};

#[test]
fn single_window_ramp() {
    // Prices 1..=20 (scaled by 1000), window 20, multiplier 2.0:
    // exactly one record with ma = 10.5, sd = floor(sqrt(35.0...)) = 5.916,
    // bolu = 22.332, bold = -1.332, stamped with the last timestamp.
    let prices: Vec<i64> = (1..=20).map(|i| i * 1000).collect();
    let times: Vec<u64> = (0..20).collect();
    let bands = get_band_vec(&prices, &times).unwrap();
    assert_eq!(bands.len(), 1);
    let b = bands[0];
    assert_eq!(b.time, 19);
    assert_eq!(b.ma, 10500);
    assert_eq!(b.sd, 5916);
    assert_eq!(b.bolu, 22332);
    assert_eq!(b.bold, -1332);
    assert_eq!(b.n, 20);
    assert_eq!(b.m, 2000);
}

#[test]
fn mismatched_lengths_rejected() {
    // 25 prices against 24 timestamps must always be rejected.
    let prices: Vec<i64> = (1..=25).map(|i| i * 1000).collect();
    let times: Vec<u64> = (0..24).collect();
    let res = get_band_vec(&prices, &times);
    assert_eq!(
        res,
        Err(BandError::MismatchedLength { prices_len: 25, times_len: 24 })
    );
}

#[test]
fn short_input_rejected() {
    let prices: Vec<i64> = vec![1000, 2000, 3000, 4000, 5000];
    let times: Vec<u64> = vec![0, 1, 2, 3, 4];
    let res = get_band_vec(&prices, &times);
    assert_eq!(
        res,
        Err(BandError::InsufficientData { required: 20, actual: 5 })
    );
}

#[test]
fn degenerate_window_rejected() {
    let one = vec![1000];
    assert_eq!(
        compute_window(&one, 2000),
        Err(BandError::DegenerateWindow { len: 1 })
    );
    let empty: Vec<i64> = vec![];
    assert_eq!(
        compute_window(&empty, 2000),
        Err(BandError::DegenerateWindow { len: 0 })
    );
    // A configured window of one sample is rejected the same way once the
    // length checks pass.
    let prices = vec![1000, 2000, 3000];
    let times = vec![0, 1, 2];
    assert_eq!(
        rolling_bands(&prices, &times, 1, 2000, PadMode::Compact),
        Err(BandError::DegenerateWindow { len: 1 })
    );
    assert_eq!(
        rolling_bands(&prices, &times, 0, 2000, PadMode::Compact),
        Err(BandError::DegenerateWindow { len: 0 })
    );
}

#[test]
fn error_order_mismatch_before_short() {
    // A mismatched pair that is also too short reports the mismatch.
    let prices = vec![1000, 2000];
    let times = vec![0, 1, 2];
    assert_eq!(
        rolling_bands(&prices, &times, 20, 2000, PadMode::Compact),
        Err(BandError::MismatchedLength { prices_len: 2, times_len: 3 })
    );
}

#[test]
fn compact_length_and_alignment() {
    // 25 samples, window 20: 6 records, record i stamped with times[19 + i].
    let prices: Vec<i64> = (1..=25).map(|i| i * 1000).collect();
    let times: Vec<u64> = (100..125).collect();
    let bands = get_band_vec(&prices, &times).unwrap();
    assert_eq!(bands.len(), 6);
    for (i, b) in bands.iter().enumerate() {
        assert_eq!(b.time, times[19 + i]);
        assert_eq!(b.n, 20);
        assert!(b.bold <= b.ma && b.ma <= b.bolu);
    }
}

#[test]
fn padded_shape() {
    // Padded mode keeps the output aligned with the input: 19 leading
    // markers, then one entry per complete window.
    let prices: Vec<i64> = (1..=25).map(|i| i * 1000).collect();
    let times: Vec<u64> = (0..25).collect();
    let out = rolling_bands(&prices, &times, 20, 2000, PadMode::Padded).unwrap();
    assert_eq!(out.len(), 25);
    for i in 0..19 {
        assert!(out[i].is_none());
    }
    for i in 19..25 {
        let b = out[i].unwrap();
        assert_eq!(b.time, i as u64);
        assert_eq!(b.n, 20);
    }
}

#[test]
fn constant_input_collapses_bands() {
    // A constant series has mean c and zero deviation, so both bands
    // collapse onto c.
    let prices: Vec<i64> = vec![42000; 25];
    let times: Vec<u64> = (0..25).collect();
    let bands = get_band_vec(&prices, &times).unwrap();
    assert_eq!(bands.len(), 6);
    for b in bands {
        assert_eq!(b.ma, 42000);
        assert_eq!(b.sd, 0);
        assert_eq!(b.bolu, 42000);
        assert_eq!(b.bold, 42000);
    }
}

#[test]
fn small_window_exact_values() {
    // Window [1.0, 3.0] with multiplier 1.0: mean 2.0, sample variance
    // 2.0, sd = floor(sqrt(2.0)) = 1.414, bands at 3.414 and 0.586.
    let prices = vec![1000, 3000];
    let times = vec![5, 6];
    let out = rolling_bands(&prices, &times, 2, 1000, PadMode::Compact).unwrap();
    assert_eq!(out.len(), 1);
    let b = out[0].unwrap();
    assert_eq!(b.time, 6);
    assert_eq!(b.ma, 2000);
    assert_eq!(b.sd, 1414);
    assert_eq!(b.bolu, 3414);
    assert_eq!(b.bold, 586);
    assert_eq!(b.n, 2);
    assert_eq!(b.m, 1000);
}

#[test]
fn negative_prices_floor_rounding() {
    // Negative prices: the mean of [-1.0, -2.0, -4.0] is -2.3333..., which
    // floors to -2.334; variance floors to 2.333333, sd to 1.527.
    let window = vec![-1000, -2000, -4000];
    let (ma, sd, bolu, bold) = compute_window(&window, 2000).unwrap();
    assert_eq!(ma, -2334);
    assert_eq!(sd, 1527);
    assert_eq!(bolu, -2334 + 2 * 1527);
    assert_eq!(bold, -2334 - 2 * 1527);
}

#[test]
fn simplest_bb_whole_window() {
    let window: Vec<i64> = (1..=20).map(|i| i * 1000).collect();
    let (bolu, bold) = simplest_bb(&window).unwrap();
    assert_eq!(bolu, 22332);
    assert_eq!(bold, -1332);
    assert_eq!(
        simplest_bb(&vec![7000]),
        Err(BandError::DegenerateWindow { len: 1 })
    );
}

#[test]
fn simplest_bb_with_mean_whole_window() {
    let window: Vec<i64> = (1..=20).map(|i| i * 1000).collect();
    let (ma, bolu, bold) = simplest_bb_with_mean(&window).unwrap();
    assert_eq!(ma, 10500);
    assert_eq!(bolu, 22332);
    assert_eq!(bold, -1332);
}

#[test]
fn semi_rolling_pairs() {
    // 21 samples: 19 leading markers, then the bands of windows ending at
    // indices 19 and 20. The second window 2..=21 shifts the mean by 1.0
    // and keeps the same deviation.
    let prices: Vec<i64> = (1..=21).map(|i| i * 1000).collect();
    let out = semi_rolling_bb(&prices).unwrap();
    assert_eq!(out.len(), 21);
    for i in 0..19 {
        assert!(out[i].is_none());
    }
    assert_eq!(out[19], Some((22332, -1332)));
    assert_eq!(out[20], Some((23332, -332)));
}

#[test]
fn semi_rolling_short_input() {
    let prices: Vec<i64> = (1..=7).map(|i| i * 1000).collect();
    assert_eq!(
        semi_rolling_bb(&prices),
        Err(BandError::InsufficientData { required: 20, actual: 7 })
    );
    assert_eq!(
        semi_rolling_bb_with_mean(&prices),
        Err(BandError::InsufficientData { required: 20, actual: 7 })
    );
}

#[test]
fn semi_rolling_triples() {
    let prices: Vec<i64> = (1..=21).map(|i| i * 1000).collect();
    let out = semi_rolling_bb_with_mean(&prices).unwrap();
    assert_eq!(out.len(), 21);
    for i in 0..19 {
        assert!(out[i].is_none());
    }
    assert_eq!(out[19], Some((10500, 22332, -1332)));
    assert_eq!(out[20], Some((11500, 23332, -332)));
}

#[test]
fn from_tp_whole_array() {
    let prices: Vec<i64> = (1..=20).map(|i| i * 1000).collect();
    let times: Vec<u64> = (0..20).collect();
    let b = BollingerBands::from_tp(&prices, &times).unwrap();
    assert_eq!(b.time, 19);
    assert_eq!(b.n, 20);
    assert_eq!(b.m, 2000);
    assert_eq!(b.ma, 10500);
    assert_eq!(b.sd, 5916);
    assert_eq!(b.bolu, 22332);
    assert_eq!(b.bold, -1332);
}

#[test]
fn from_tp_rejections() {
    let prices = vec![1000, 2000];
    let times = vec![0];
    assert_eq!(
        BollingerBands::from_tp(&prices, &times),
        Err(BandError::MismatchedLength { prices_len: 2, times_len: 1 })
    );
    let one = vec![1000];
    let one_time = vec![0];
    assert_eq!(
        BollingerBands::from_tp(&one, &one_time),
        Err(BandError::DegenerateWindow { len: 1 })
    );
}

#[test]
fn from_tp_n_tracks_input_length() {
    // `n` is the literal count of samples handed in, not the default
    // window size.
    let prices: Vec<i64> = (1..=30).map(|i| i * 1000).collect();
    let times: Vec<u64> = (0..30).collect();
    let b = BollingerBands::from_tp(&prices, &times).unwrap();
    assert_eq!(b.n, 30);
    assert_eq!(b.time, 29);
}

#[test]
fn default_record() {
    let b = BollingerBands::default();
    assert_eq!(b.time, 0);
    assert_eq!(b.bolu, 0);
    assert_eq!(b.bold, 0);
    assert_eq!(b.ma, 0);
    assert_eq!(b.n, 20);
    assert_eq!(b.m, 2000);
    assert_eq!(b.sd, 0);
}

#[test]
fn band_ordering_varied_input() {
    // Ordering holds on an uneven series, for several multipliers.
    let prices: Vec<i64> = vec![
        5000, 12000, 7000, 9000, 30000, 2000, 8000, 8000, 15000, 1000, 4000, 22000, 6000,
        11000, 9000, 14000, 3000, 18000, 10000, 5000, 7000, 25000,
    ];
    let times: Vec<u64> = (0..22).collect();
    for m in [0, 500, 1000, 2000, 10000] {
        let out = rolling_bands(&prices, &times, 20, m, PadMode::Compact).unwrap();
        assert_eq!(out.len(), 3);
        for entry in out {
            let b = entry.unwrap();
            assert!(b.bold <= b.ma && b.ma <= b.bolu);
            assert_eq!(b.m, m);
        }
    }
}

#[test]
fn zero_multiplier_bands_on_mean() {
    // With m = 0 both bands sit exactly on the moving average.
    let window = vec![1000, 3000, 8000];
    let (ma, _sd, bolu, bold) = compute_window(&window, 0).unwrap();
    assert_eq!(bolu, ma);
    assert_eq!(bold, ma);
}
