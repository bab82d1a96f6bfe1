use sdrtool::fir_taps::{mirror_taps, odd_taps_len, Window};

#[test]
fn taps_len_is_made_odd() {
    assert_eq!(odd_taps_len(80), 81);
    assert_eq!(odd_taps_len(81), 81);
    assert_eq!(odd_taps_len(0), 1);
    assert_eq!(odd_taps_len(usize::MAX), usize::MAX);
}

#[test]
fn only_tapered_windows_are_supported() {
    assert!(!Window::Boxcar.is_supported());
    assert!(Window::Blackman.is_supported());
    assert!(Window::Hamming.is_supported());
}

#[test]
fn taps_are_mirrored_around_the_center() {
    assert_eq!(mirror_taps(0, &[1, 2, 3]), vec![3, 2, 1, 0, 1, 2, 3]);
    assert_eq!(mirror_taps(9, &[]), vec![9]);
    assert_eq!(mirror_taps(0.0f32, &[0.5]), vec![0.5f32, 0.0, 0.5]);
}
