use wavebars::{
    bar_value, bucket, eased, extract_window, progress_permille, smooth, smooth_frame,
    window_bounds, Config, FreqBin,
};

fn bin(freq: u32, volume: u64) -> FreqBin {
    FreqBin { freq, volume }
}

#[test]
fn smooth_first_step_of_ease() {
    // one tenth of the gap: (100 - 0) / 10 added to 0
    assert_eq!(smooth(&vec![100], &vec![0]), vec![10]);
}

#[test]
fn smooth_converges_with_truncation_stall() {
    // repeated easing toward 100 climbs but integer truncation keeps it
    // short of the target
    let raw = vec![100u64];
    let mut shown = vec![0u64];
    for _ in 0..10 {
        shown = smooth(&raw, &shown);
    }
    assert_eq!(shown, vec![63]);
    assert!(shown[0] < 100);
    // from one unit below a small gap the value can stall for good
    assert_eq!(smooth(&vec![100], &vec![91]), vec![91]);
}

#[test]
fn smooth_fixed_point_on_equal_input() {
    let v = vec![3, 0, 250, 77];
    assert_eq!(smooth(&v, &v), v);
}

#[test]
fn smooth_stays_between_previous_and_raw() {
    let raw = vec![0, 100, 50];
    let prev = vec![50, 50, 50];
    let out = smooth(&raw, &prev);
    assert_eq!(out, vec![45, 55, 50]);
    for i in 0..raw.len() {
        let lo = raw[i].min(prev[i]);
        let hi = raw[i].max(prev[i]);
        assert!(lo <= out[i] && out[i] <= hi);
    }
}

#[test]
fn smooth_decreasing_side() {
    assert_eq!(smooth(&vec![0], &vec![100]), vec![90]);
    assert_eq!(eased(100, 0), 90);
    assert_eq!(eased(0, 100), 10);
}

#[test]
fn smooth_frame_uses_raw_when_no_previous() {
    let raw = vec![1, 2, 3];
    assert_eq!(smooth_frame(&raw, &None), vec![1, 2, 3]);
    assert_eq!(smooth_frame(&raw, &Some(vec![11, 2, 3])), vec![10, 2, 3]);
}

#[test]
fn bucket_empty_window_holds_previous_frame() {
    // an empty transform output returns the displayed vector unchanged
    let prev: Vec<u64> = (0..200).map(|i| i as u64).collect();
    assert_eq!(bucket(&Vec::new(), &prev), prev);
}

#[test]
fn bucket_sums_bins_per_band_with_floor() {
    let bins = vec![bin(50, 10), bin(150, 20), bin(60, 5)];
    let out = bucket(&bins, &vec![0; 200]);
    assert_eq!(out.len(), 200);
    assert_eq!(out[0], 15); // 10 + 5 in [0, 100)
    assert_eq!(out[1], 20); // in [100, 200)
    assert_eq!(out[2], 30); // empty band: the floor
    assert_eq!(out[199], 30);
}

#[test]
fn bucket_boundary_bin_goes_to_upper_band() {
    // bands are half-open: 100 Hz belongs to the second band
    let out = bucket(&vec![bin(100, 7)], &vec![0; 200]);
    assert_eq!(out[0], 30);
    assert_eq!(out[1], 7);
}

#[test]
fn bucket_ignores_bins_past_the_range() {
    let out = bucket(&vec![bin(20000, 9)], &vec![0; 200]);
    assert!(out.iter().all(|&v| v == 30));
}

#[test]
fn window_bounds_clamp_at_start() {
    assert_eq!(window_bounds(5000, 50), (4950, 50));
    assert_eq!(window_bounds(30, 50), (0, 30));
    assert_eq!(window_bounds(0, 50), (0, 0));
}

#[test]
fn extract_window_slices_the_span() {
    let samples: Vec<i16> = (0..20).collect();
    // at 10 samples/s on one channel, [500 ms, 1000 ms) is samples 5..10
    let w = extract_window(&samples, 1000, 500, 10, 1);
    assert_eq!(w, vec![5, 6, 7, 8, 9]);
}

#[test]
fn extract_window_past_the_end_is_empty() {
    let samples: Vec<i16> = (0..20).collect();
    let w = extract_window(&samples, 5000, 500, 10, 1);
    assert_eq!(w, Vec::<i16>::new());
}

#[test]
fn extract_window_clamped_at_track_end() {
    let samples: Vec<i16> = (0..20).collect();
    // window [1500 ms, 2000 ms) asks for samples 15..20 of a 20-sample track
    let w = extract_window(&samples, 2000, 500, 10, 1);
    assert_eq!(w, vec![15, 16, 17, 18, 19]);
}

#[test]
fn progress_clamps_to_full() {
    assert_eq!(progress_permille(500, 1000), 500);
    assert_eq!(progress_permille(1, 3), 333);
    assert_eq!(progress_permille(2000, 1000), 1000);
    assert_eq!(progress_permille(5, 0), 1000);
}

#[test]
fn bar_floor_keeps_bars_visible() {
    assert_eq!(bar_value(0), 5);
    assert_eq!(bar_value(5), 5);
    assert_eq!(bar_value(7), 7);
}

#[test]
fn key_toggles() {
    let mut cfg = Config::default();
    assert!(!cfg.is_horizontal);
    assert!(!cfg.is_stereo);
    assert!(!cfg.apply_key('r'));
    assert!(cfg.is_horizontal);
    assert!(!cfg.apply_key(' '));
    assert!(cfg.is_stereo);
    assert!(!cfg.apply_key('x'));
    assert!(cfg.is_horizontal && cfg.is_stereo);
    assert!(!cfg.apply_key('r'));
    assert!(!cfg.is_horizontal);
    assert!(cfg.apply_key('q'));
}
