use spectral_prosody::order::Level;
use spectral_prosody::pitch::{
    best_pitch_lag, pitch_lag_window_usable, smoothing_window, voiced_frames,
};

fn level(x: f64) -> Level {
    Level::from_bits(x.to_bits())
}

fn levels(values: &[f64]) -> Vec<Level> {
    values.iter().map(|&x| level(x)).collect()
}

#[test]
fn pitch_lag_window_must_fit_the_frame() {
    assert!(pitch_lag_window_usable(3200, 32, 320));
    assert!(!pitch_lag_window_usable(3200, 320, 320));
    assert!(!pitch_lag_window_usable(3200, 400, 320));
    assert!(!pitch_lag_window_usable(320, 32, 320));
    assert!(!pitch_lag_window_usable(0, 0, 0));
}

#[test]
fn best_pitch_lag_takes_first_strongest_lag() {
    let corrs = levels(&[0.1, 0.9, 0.3, 0.9, 0.2]);
    assert_eq!(best_pitch_lag(32, &corrs), Some(33));
}

#[test]
fn weak_correlation_is_unvoiced() {
    assert_eq!(best_pitch_lag(10, &levels(&[0.1, 0.19, -0.5])), None);
    assert_eq!(best_pitch_lag(10, &levels(&[0.1, 0.2, -0.5])), Some(11));
    assert_eq!(best_pitch_lag(10, &levels(&[])), None);
    assert_eq!(best_pitch_lag(10, &levels(&[f64::NAN, f64::NEG_INFINITY])), None);
    assert_eq!(best_pitch_lag(10, &levels(&[f64::NAN, 0.5])), Some(11));
}

#[test]
fn test_autocorrelation_sine() {
    // 200 Hz sine at 16 kHz: period of 80 samples.
    let signal: Vec<f64> = (0..3200)
        .map(|i| (2.0 * std::f64::consts::PI * 200.0 * i as f64 / 16000.0).sin())
        .collect();
    let min_lag = (16000.0 / 500.0) as usize;
    let max_lag = (16000.0_f64 / 50.0).min(signal.len() as f64 / 2.0) as usize;
    assert!(pitch_lag_window_usable(signal.len(), min_lag, max_lag));
    let mean = signal.iter().sum::<f64>() / signal.len() as f64;
    let x: Vec<f64> = signal.iter().map(|&s| s - mean).collect();
    let corrs: Vec<f64> = (min_lag..=max_lag)
        .map(|lag| {
            let mut corr = 0.0;
            let mut energy = 0.0;
            for i in 0..(x.len() - lag) {
                corr += x[i] * x[i + lag];
                energy += x[i] * x[i];
            }
            if energy > 0.0 { corr / energy } else { corr }
        })
        .collect();
    let lag = best_pitch_lag(min_lag, &levels(&corrs)).expect("voiced");
    assert_eq!(lag % 80, 0);
    assert!(16000.0 / lag as f64 > 0.0);
}

#[test]
fn smoothing_window_is_clipped_to_the_contour() {
    assert_eq!(smoothing_window(0, 3, 4), (0, 2));
    assert_eq!(smoothing_window(1, 3, 4), (0, 3));
    assert_eq!(smoothing_window(3, 3, 4), (2, 4));
    assert_eq!(smoothing_window(5, 4, 10), (3, 8));
    assert_eq!(smoothing_window(2, 0, 10), (2, 3));
    assert_eq!(smoothing_window(2, 1, 10), (2, 3));
}

#[test]
fn voiced_frames_hold_positive_pitch() {
    let pitches = levels(&[100.0, 0.0, 200.0, 150.0, -0.0, f64::NAN, -5.0, 1e-300]);
    assert_eq!(voiced_frames(&pitches), vec![0, 2, 3, 7]);
    assert!(voiced_frames(&levels(&[])).is_empty());
    assert!(voiced_frames(&levels(&[0.0, 0.0])).is_empty());
}

#[test]
fn pitch_test_autocorrelation_empty() {
    // An empty frame leaves no lag window to search, so its pitch is 0.
    let signal: Vec<f64> = vec![];
    let min_lag = (16000.0 / 500.0) as usize;
    let max_lag = (16000.0_f64 / 50.0).min(signal.len() as f64 / 2.0) as usize;
    assert!(!pitch_lag_window_usable(signal.len(), min_lag, max_lag));
}
