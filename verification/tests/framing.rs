use spectral_prosody::framing::frame_starts;

#[test]
fn frame_starts_cover_signal() {
    let starts = frame_starts(3200, 800, 400);
    assert_eq!(starts, vec![0, 400, 800, 1200, 1600, 2000, 2400]);
}

#[test]
fn frame_starts_for_pitch_and_mfcc_framing() {
    assert_eq!(frame_starts(6400, 3200, 1600), vec![0, 1600, 3200]);
    let mfcc = frame_starts(4800, 400, 200);
    assert_eq!(mfcc.len(), 23);
    assert_eq!(mfcc[22], 4400);
}

#[test]
fn frame_longer_than_signal_gives_no_frames() {
    assert!(frame_starts(10, 11, 1).is_empty());
    assert!(frame_starts(0, 1, 0).is_empty());
}

#[test]
fn frame_exactly_fitting_gives_one_frame() {
    assert_eq!(frame_starts(10, 10, 3), vec![0]);
    assert_eq!(frame_starts(0, 0, 5), vec![0]);
}

#[test]
fn last_frame_ends_inside_signal() {
    assert_eq!(frame_starts(11, 4, 3), vec![0, 3, 6]);
    assert_eq!(frame_starts(10, 4, 3), vec![0, 3, 6]);
    assert_eq!(frame_starts(9, 4, 3), vec![0, 3]);
}
