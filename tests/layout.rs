use audio_viz::ring::AUDIO_BUFFER_LEN;
use audio_viz::spectrum::{bar_bins, mirror, mirror_index, points_per_bar, smoothing_taps, Taps, NUM_FREQUENCY_BARS};
use audio_viz::wave::{wave_point_count, wave_window};

#[test]
fn bins_per_bar_for_default_sizes() {
    assert_eq!(points_per_bar(AUDIO_BUFFER_LEN, NUM_FREQUENCY_BARS), 22);
    assert!(22 * NUM_FREQUENCY_BARS <= AUDIO_BUFFER_LEN / 2);
    assert_eq!(points_per_bar(16, 3), 2);
}

#[test]
fn last_bar_stops_before_leftover_bins() {
    assert_eq!(bar_bins(AUDIO_BUFFER_LEN, NUM_FREQUENCY_BARS, 0), (0, 22));
    assert_eq!(bar_bins(AUDIO_BUFFER_LEN, NUM_FREQUENCY_BARS, 1), (22, 44));
    assert_eq!(bar_bins(AUDIO_BUFFER_LEN, NUM_FREQUENCY_BARS, 179), (3938, 3960));
    assert!(3960 < AUDIO_BUFFER_LEN / 2);
}

#[test]
fn mirror_index_folds_right_half() {
    assert_eq!(mirror_index(0, 180), 0);
    assert_eq!(mirror_index(89, 180), 89);
    assert_eq!(mirror_index(90, 180), 89);
    assert_eq!(mirror_index(179, 180), 0);
    assert_eq!(mirror_index(1, 3), 1);
    assert_eq!(mirror_index(2, 3), 0);
}

#[test]
fn mirror_is_symmetric() {
    assert_eq!(mirror(&[1, 2, 3, 4]), vec![1, 2, 2, 1]);
    assert_eq!(mirror(&[1, 2, 3]), vec![1, 2, 1]);
    let bars: Vec<u32> = (0..NUM_FREQUENCY_BARS as u32).collect();
    let shown = mirror(&bars);
    assert_eq!(shown.len(), NUM_FREQUENCY_BARS);
    for i in 0..NUM_FREQUENCY_BARS {
        assert_eq!(shown[i], shown[NUM_FREQUENCY_BARS - 1 - i]);
    }
    let empty: [u8; 0] = [];
    assert!(mirror(&empty).is_empty());
}

#[test]
fn taps_at_edges_and_inside() {
    let first = smoothing_taps(0, 180);
    assert_eq!(first, Taps { left: None, center: 0, right: Some(1) });
    assert_eq!(first.divisor(), 3);
    let inner = smoothing_taps(5, 180);
    assert_eq!(inner, Taps { left: Some(4), center: 5, right: Some(6) });
    assert_eq!(inner.divisor(), 4);
    let last = smoothing_taps(179, 180);
    assert_eq!(last, Taps { left: Some(178), center: 179, right: None });
    assert_eq!(last.divisor(), 3);
}

#[test]
fn smoothing_stays_within_neighbours() {
    let raw = [4.0f32, 8.0, 0.0, 10.0];
    for idx in 0..raw.len() {
        let t = smoothing_taps(idx, raw.len());
        let mut sum = 2.0 * raw[t.center];
        let mut lo = raw[t.center];
        let mut hi = raw[t.center];
        for side in [t.left, t.right].into_iter().flatten() {
            sum += raw[side];
            lo = lo.min(raw[side]);
            hi = hi.max(raw[side]);
        }
        let v = sum / t.divisor() as f32;
        assert!(lo <= v && v <= hi);
    }
    let t = smoothing_taps(1, 4);
    assert_eq!((raw[0] + 2.0 * raw[1] + raw[2]) / t.divisor() as f32, 5.0);
}

#[test]
fn waveform_window_for_default_view() {
    assert_eq!(wave_point_count(AUDIO_BUFFER_LEN, 1440), 360);
    assert_eq!(wave_point_count(8, 1440), 8);
    assert_eq!(wave_point_count(AUDIO_BUFFER_LEN, 0), 0);
    assert_eq!(wave_window(AUDIO_BUFFER_LEN, 360), (11, 4096));
    assert_eq!(wave_window(10, 2), (2, 5));
}
