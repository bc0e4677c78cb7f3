use spectral_prosody::energy::detect_peaks;
use spectral_prosody::order::Level;

fn level(x: f64) -> Level {
    Level::from_bits(x.to_bits())
}

fn levels(values: &[f64]) -> Vec<Level> {
    values.iter().map(|&x| level(x)).collect()
}

#[test]
fn test_detect_peaks() {
    let env = levels(&[1.0, 5.0, 1.0, 3.0, 1.0]);
    let peaks = detect_peaks(&env, level(2.0));
    assert_eq!(peaks, vec![1, 3]);
}

#[test]
fn peaks_need_both_neighbours() {
    assert!(detect_peaks(&levels(&[]), level(0.0)).is_empty());
    assert!(detect_peaks(&levels(&[9.0]), level(0.0)).is_empty());
    assert!(detect_peaks(&levels(&[1.0, 9.0]), level(0.0)).is_empty());
    assert_eq!(detect_peaks(&levels(&[1.0, 9.0, 1.0]), level(0.0)), vec![1]);
    assert!(detect_peaks(&levels(&[9.0, 1.0, 1.0, 9.0]), level(0.0)).is_empty());
}

#[test]
fn peaks_must_exceed_threshold_strictly() {
    let env = levels(&[0.0, 2.0, 0.0, 3.0, 0.0]);
    assert_eq!(detect_peaks(&env, level(2.0)), vec![3]);
    assert_eq!(detect_peaks(&env, level(1.9)), vec![1, 3]);
}

#[test]
fn plateaus_are_not_peaks() {
    let env = levels(&[0.0, 4.0, 4.0, 0.0, 5.0, 1.0]);
    assert_eq!(detect_peaks(&env, level(0.0)), vec![4]);
}

#[test]
fn nan_neither_peaks_nor_lets_a_neighbour_peak() {
    let env = levels(&[0.0, f64::NAN, 0.0, 3.0, f64::NAN, 1.0, 2.0, 1.0]);
    assert_eq!(detect_peaks(&env, level(0.0)), vec![6]);
    assert!(detect_peaks(&env, level(f64::NAN)).is_empty());
}

#[test]
fn negative_levels_and_infinities() {
    let env = levels(&[-3.0, -1.0, -2.0, f64::INFINITY, 0.0]);
    assert_eq!(detect_peaks(&env, level(f64::NEG_INFINITY)), vec![1, 3]);
    assert_eq!(detect_peaks(&env, level(-1.5)), vec![1, 3]);
    assert_eq!(detect_peaks(&env, level(-1.0)), vec![3]);
}
