use spectral_prosody::order::Level;
use spectral_prosody::rhythm::{detect_rhythm, dominant_rhythm_bin, inter_onset_intervals};

fn level(x: f64) -> Level {
    Level::from_bits(x.to_bits())
}

fn levels(values: &[f64]) -> Vec<Level> {
    values.iter().map(|&x| level(x)).collect()
}

/// Normalized autocorrelation of an envelope at lags `0..min(max_lag, n / 2)`.
fn autocorrelation(v: &[f64], max_lag: usize) -> Vec<f64> {
    if v.is_empty() {
        return vec![];
    }
    let n = v.len();
    let max_lag = max_lag.min(n / 2);
    let mean = v.iter().sum::<f64>() / n as f64;
    let centered: Vec<f64> = v.iter().map(|&x| x - mean).collect();
    let norm0: f64 = centered.iter().map(|x| x * x).sum();
    (0..max_lag)
        .map(|lag| {
            let corr: f64 = (0..n - lag).map(|i| centered[i] * centered[i + lag]).sum();
            if norm0 > 0.0 { corr / norm0 } else { 0.0 }
        })
        .collect()
}

/// Power of each bin `0..=n/2` of the DFT of the mean-removed envelope.
fn rhythmic_spectrum(v: &[f64]) -> Vec<f64> {
    let n = v.len();
    if n == 0 {
        return vec![];
    }
    let mean = v.iter().sum::<f64>() / n as f64;
    (0..n / 2 + 1)
        .map(|k| {
            let mut re = 0.0;
            let mut im = 0.0;
            for i in 0..n {
                let angle = 2.0 * std::f64::consts::PI * k as f64 * i as f64 / n as f64;
                re += (v[i] - mean) * angle.cos();
                im -= (v[i] - mean) * angle.sin();
            }
            re * re + im * im
        })
        .collect()
}

#[test]
fn test_inter_onset_intervals() {
    let env = levels(&[0.0, 2.0, 0.0, 0.0, 2.0, 0.0, 0.0, 0.0, 2.0]);
    let iois = inter_onset_intervals(&env, level(0.5));
    assert!(!iois.is_empty());
    // Peaks at frames 1 and 4; frame 8 has no right neighbour.
    assert_eq!(iois, vec![3]);
}

#[test]
fn inter_onset_intervals_of_regular_beats() {
    let mut values = vec![0.0; 100];
    for i in (5..100).step_by(10) {
        values[i] = 1.0;
    }
    let iois = inter_onset_intervals(&levels(&values), level(0.5));
    assert_eq!(iois, vec![10; 9]);
}

#[test]
fn inter_onset_intervals_need_two_onsets() {
    assert!(inter_onset_intervals(&levels(&[0.0, 1.0, 0.0]), level(0.5)).is_empty());
    assert!(inter_onset_intervals(&levels(&[]), level(0.5)).is_empty());
}

#[test]
fn test_detect_rhythm() {
    // Period of 20 frames at a 0.01 s shift, searched between 30 and 600 BPM.
    let period = 20;
    let mut values = Vec::new();
    for i in 0..200 {
        if i % period == 0 {
            values.push(1.0);
        } else {
            values.push(0.1);
        }
    }
    let frame_shift = 0.01;
    let min_period = (60.0 / (600.0 * frame_shift)) as usize;
    let max_period = (60.0 / (30.0 * frame_shift)) as usize;
    let acf = autocorrelation(&values, max_period + 1);
    let periods = detect_rhythm(&levels(&acf), min_period, max_period);
    assert!(!periods.is_empty());
    assert_eq!(periods[0], 20);
    for w in periods.windows(2) {
        assert!(acf[w[0]] >= acf[w[1]]);
    }
}

#[test]
fn detect_rhythm_orders_by_strength_then_lag() {
    //            lag: 0    1    2    3    4    5    6    7    8    9
    let acf = [1.0, 0.0, 0.5, 0.0, 0.9, 0.0, 0.5, 0.0, 0.05, 0.0];
    assert_eq!(detect_rhythm(&levels(&acf), 0, 100), vec![4, 2, 6]);
    assert_eq!(detect_rhythm(&levels(&acf), 3, 100), vec![4, 6]);
    assert_eq!(detect_rhythm(&levels(&acf), 0, 4), vec![2]);
    assert!(detect_rhythm(&levels(&acf), 7, 100).is_empty());
}

#[test]
fn detect_rhythm_requires_strength_above_a_tenth() {
    let acf = [1.0, 0.0, 0.1, 0.0, 0.11, 0.0];
    assert_eq!(detect_rhythm(&levels(&acf), 1, 10), vec![4]);
    assert!(detect_rhythm(&levels(&[]), 1, 10).is_empty());
}

#[test]
fn test_dominant_rhythm_frequency() {
    let mut values = vec![0.0; 200];
    for i in (0..200).step_by(20) {
        values[i] = 1.0;
    }
    let spec = rhythmic_spectrum(&values);
    let bin = dominant_rhythm_bin(&levels(&spec));
    assert!(bin.is_some());
    // An impulse train every 20 frames puts its energy in every 10th bin.
    let k = bin.unwrap();
    assert!(k >= 10 && k % 10 == 0);
    assert!(spec[k] > 1e-15);
}

#[test]
fn dominant_rhythm_bin_skips_dc_and_prefers_first_maximum() {
    assert_eq!(dominant_rhythm_bin(&levels(&[100.0, 1.0, 3.0, 3.0, 2.0])), Some(2));
    assert_eq!(dominant_rhythm_bin(&levels(&[100.0, 4.0, 3.0])), Some(1));
    assert_eq!(dominant_rhythm_bin(&levels(&[0.0, f64::NAN, 3.0])), Some(1));
    assert_eq!(dominant_rhythm_bin(&levels(&[0.0, 1.0, f64::NAN, 2.0])), Some(3));
}

#[test]
fn dominant_rhythm_bin_needs_three_bins_and_energy() {
    assert_eq!(dominant_rhythm_bin(&levels(&[1.0, 2.0])), None);
    assert_eq!(dominant_rhythm_bin(&levels(&[])), None);
    assert_eq!(dominant_rhythm_bin(&levels(&[5.0, 0.0, 1e-16])), None);
    assert_eq!(dominant_rhythm_bin(&levels(&[5.0, 0.0, 1e-15])), Some(2));
}

#[test]
fn intervals_span_first_to_last_onset() {
    let values = [0.0, 3.0, 0.0, 1.0, 4.0, 1.0, 0.0, 0.0, 5.0, 0.0, 2.0, 0.0];
    let env = levels(&values);
    let peaks = spectral_prosody::energy::detect_peaks(&env, level(0.5));
    assert_eq!(peaks, vec![1, 4, 8, 10]);
    let iois = inter_onset_intervals(&env, level(0.5));
    assert_eq!(iois, vec![3, 4, 2]);
    assert_eq!(iois.iter().sum::<usize>(), peaks[peaks.len() - 1] - peaks[0]);
    assert!(iois.iter().all(|&g| g >= 2));
}
