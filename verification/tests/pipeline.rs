use littempo::matrix::Matrix;
use littempo::novelty_curve::{
    band_to_bins, calculate_band_odf, default_audio_bands, make_diff_filter, make_norm_filter,
    mean_cols, resample_plan, smooth_filter_subtract, NCSettings,
};
use littempo::preprocessing::{
    apply_window_cols, extract_tempo_curve, find_nearest, include_triplets, normalize_cols_p1,
    rectify, smoothen_tempogram, subtract_mean,
};
use littempo::tempo_extraction::{extract_tempo, rescale_sections, TempoExtractionSettings};
use littempo::tempogram::{
    bpm_to_cyclic, complex_magnitudes, isqrt, normalize_cols_p2, novelty_curve_to_tempogram_dft,
    tempogram_to_cyclic_tempogram,
};

#[test]
fn it_works() {
    assert_eq!(2 + 2, 4);
}

#[test]
fn matrix_get_set_roundtrip() {
    let mut m = Matrix::zeros(2, 3);
    assert_eq!(m.rows(), 2);
    assert_eq!(m.cols(), 3);
    m.set(1, 2, 42);
    m.set(0, 0, -7);
    assert_eq!(m.get(1, 2), 42);
    assert_eq!(m.get(0, 0), -7);
    assert_eq!(m.get(0, 2), 0);
}

#[test]
fn apply_window_is_moving_weighted_sum() {
    let m = Matrix::from_data(1, 3, vec![1, 2, 3]);
    let w = vec![1, 1, 1];
    let out = apply_window_cols(&m, &w);
    assert_eq!(out.get(0, 0), 3); // 0 + 1 + 2
    assert_eq!(out.get(0, 1), 6); // 1 + 2 + 3
    assert_eq!(out.get(0, 2), 5); // 2 + 3 + 0
}

#[test]
fn subtract_mean_centres_each_frame() {
    let m = Matrix::from_data(2, 2, vec![1, 3, 5, 7]);
    let out = subtract_mean(&m);
    assert_eq!(out.get(0, 0), -2);
    assert_eq!(out.get(1, 0), 2);
    assert_eq!(out.get(0, 1), -2);
    assert_eq!(out.get(1, 1), 2);
}

#[test]
fn normalize_cols_reaches_scale() {
    let m = Matrix::from_data(2, 1, vec![-2, 2]);
    let out = normalize_cols_p1(&m, 10);
    assert_eq!(out.get(0, 0), -5);
    assert_eq!(out.get(1, 0), 5);
}

#[test]
fn normalize_cols_leaves_zero_frames() {
    let m = Matrix::from_data(2, 1, vec![0, 0]);
    let out = normalize_cols_p1(&m, 10);
    assert_eq!(out.get(0, 0), 0);
    assert_eq!(out.get(1, 0), 0);
}

#[test]
fn smoothen_tempogram_centres_and_normalises() {
    // A single frame with a one-tap window: the windowed values are
    // 10 * [4, 8], the frame mean 60 is removed, and the L1 mass 40 is
    // rescaled to 10.
    let m = Matrix::from_data(2, 1, vec![4, 8]);
    let out = smoothen_tempogram(&m, &vec![10], 10);
    assert_eq!(out.get(0, 0), -5);
    assert_eq!(out.get(1, 0), 5);
}

#[test]
fn rectify_clamps_negatives() {
    let m = Matrix::from_data(1, 3, vec![-4, 0, 9]);
    let out = rectify(&m);
    assert_eq!(out.get(0, 0), 0);
    assert_eq!(out.get(0, 1), 0);
    assert_eq!(out.get(0, 2), 9);
}

#[test]
fn find_nearest_prefers_first_on_tie() {
    let axis = vec![10, 20, 30];
    assert_eq!(find_nearest(&axis, 24), 1);
    assert_eq!(find_nearest(&axis, 25), 1); // tie between 20 and 30
    assert_eq!(find_nearest(&axis, 26), 2);
    assert_eq!(find_nearest(&axis, 5), 0);
}

#[test]
fn include_triplets_boosts_with_triplet_row() {
    // axis in [scale, 2 * scale): ratios 1.0 and 1.5 at scale 10.
    let s = Matrix::from_data(2, 1, vec![4, 6]);
    let axis = vec![10, 15];
    let out = include_triplets(&s, &axis, 2, 10);
    // Row 0: triplet value ((15 - 10) % 20) + 10 = 15 -> row 1.
    assert_eq!(out.get(0, 0), 4 + 2 * ((6 * 4) / 10));
    // Row 1: triplet value ((22 - 10) % 20) + 10 = 22 -> nearest is 15.
    assert_eq!(out.get(1, 0), 6 + 2 * ((6 * 6) / 10));
}

#[test]
fn extract_tempo_curve_takes_first_argmax() {
    let m = Matrix::from_data(3, 2, vec![1, 5, 7, 5, 7, 2]);
    let axis = vec![100, 200, 300];
    let curve = extract_tempo_curve(&m, &axis);
    // Column 0 is [1, 7, 7]: rows 1 and 2 tie, the earliest wins.
    // Column 1 is [5, 5, 2]: rows 0 and 1 tie, the earliest wins.
    assert_eq!(curve, vec![200, 100]);
}

#[test]
fn cyclic_fold_averages_octaves() {
    let mag = Matrix::from_data(4, 1, vec![8, 6, 4, 2]);
    let bpms = vec![60, 80, 120, 180];
    let log_axis = vec![60, 85, 120, 170];
    let (cyclic, axis) = tempogram_to_cyclic_tempogram(&mag, &bpms, &log_axis, 2, 10);
    // end position: last log bin under 180 is index 3; bins 0 and 2 fold
    // into cyclic bin 0, bin 1 into cyclic bin 1.
    assert_eq!(cyclic.get(0, 0), (8 + 4) / 2);
    assert_eq!(cyclic.get(1, 0), 6);
    assert_eq!(axis, vec![600 / 60, 850 / 60]);
}

#[test]
fn cyclic_fold_concentrates_single_row() {
    // Energy only in the 120 BPM scan row must land in the cyclic bin
    // whose folded log bins select that row, with the other bin silent.
    let mag = Matrix::from_data(4, 1, vec![0, 0, 9, 0]);
    let bpms = vec![60, 80, 120, 180];
    let log_axis = vec![60, 85, 120, 170];
    let (cyclic, _) = tempogram_to_cyclic_tempogram(&mag, &bpms, &log_axis, 2, 10);
    assert_eq!(cyclic.get(0, 0), 9 / 2);
    assert_eq!(cyclic.get(1, 0), 0);
}

#[test]
fn bpm_to_cyclic_folds_into_reference_octave() {
    // Reference tempo 60, fixed point at scale 1000.
    assert_eq!(bpm_to_cyclic(120_000, 60_000, 1000), 1000); // one octave up
    assert_eq!(bpm_to_cyclic(90_000, 60_000, 1000), 1500); // mid-octave
    assert_eq!(bpm_to_cyclic(30_000, 60_000, 1000), 1000); // one octave down
    assert_eq!(bpm_to_cyclic(150_000, 60_000, 1000), 1250);
}

#[test]
fn isqrt_floors_the_root() {
    assert_eq!(isqrt(0), 0);
    assert_eq!(isqrt(15), 3);
    assert_eq!(isqrt(16), 4);
    assert_eq!(isqrt(1_000_000), 1000);
    assert_eq!(isqrt(u64::MAX), 0xFFFF_FFFF);
}

#[test]
fn tempogram_dft_correlates_against_tables() {
    // One curve sample, window of one tap: the coefficient is the tapered
    // sample correlated with the table entry.
    let curve = vec![1000];
    let taper = vec![1000];
    let cos_tab = Matrix::from_data(1, 1, vec![1000]);
    let sin_tab = Matrix::from_data(1, 1, vec![0]);
    let (re, im) = novelty_curve_to_tempogram_dft(&curve, &taper, 1, &cos_tab, &sin_tab, 1000);
    assert_eq!(re.get(0, 0), 1000);
    assert_eq!(im.get(0, 0), 0);
    let mag = complex_magnitudes(&re, &im);
    assert_eq!(mag.get(0, 0), 1000);
}

#[test]
fn tempogram_dft_pads_and_hops() {
    // Two curve samples, two-tap taper: padding adds one zero on each
    // side, giving three frames at hop one.
    let curve = vec![1000, 0];
    let taper = vec![500, 500];
    let cos = Matrix::from_data(1, 4, vec![1000, -1000, 1000, -1000]);
    let sin = Matrix::from_data(1, 4, vec![0, 0, 0, 0]);
    let (re, _im) = novelty_curve_to_tempogram_dft(&curve, &taper, 1, &cos, &sin, 1000);
    assert_eq!(re.cols(), 3);
    assert_eq!(re.get(0, 0), -500);
    assert_eq!(re.get(0, 1), -500);
    assert_eq!(re.get(0, 2), 0);
}

#[test]
fn normalize_cols_p2_rescales_by_l2_norm() {
    // The frame [3, 4] has L2 norm 5; at scale 10 it becomes [6, 8].
    let m = Matrix::from_data(2, 2, vec![3, 0, 4, 0]);
    let out = normalize_cols_p2(&m, 10);
    assert_eq!(out.get(0, 0), 6);
    assert_eq!(out.get(1, 0), 8);
    // A zero frame stays zero.
    assert_eq!(out.get(0, 1), 0);
    assert_eq!(out.get(1, 1), 0);
}

#[test]
fn make_diff_filter_is_antisymmetric() {
    let filt = make_diff_filter(&vec![2, 5, 3]);
    assert_eq!(filt, vec![2, 0, -3]);
}

#[test]
fn make_norm_filter_normalises_and_keeps_tail() {
    let (filt, tail) = make_norm_filter(&vec![2, 6, 2], 10);
    assert_eq!(filt, vec![2, 6, 2]); // already sums to the scale
    // Boundary weight after the first tap: remaining mass 8 of 10.
    assert_eq!(tail, vec![8]);
}

#[test]
fn band_odf_rectifies_and_normalises_flux() {
    // Two bins over three frames with an energy burst in the middle.
    // Band sums are [2, 10, 2]; the antisymmetric filter leaves positive
    // flux only at the last frame, where the boundary weight applies.
    let spectrum = Matrix::from_data(2, 3, vec![1, 5, 1, 1, 5, 1]);
    let bands = vec![(0u64, 500_000u64)];
    let out = calculate_band_odf(
        &spectrum,
        &bands,
        1000,          // sr such that the band spans both bins
        4,             // window length: bin = round(freq * 4 / sr)
        &vec![2, 0, -2],
        &vec![3, 4, 3],
        &vec![7],
        10,
    );
    assert_eq!(out.rows(), 1);
    assert_eq!(out.cols(), 3);
    assert_eq!(out.get(0, 0), 0); // negative flux rectified away
    assert_eq!(out.get(0, 1), 0); // symmetric neighbourhood: zero flux
    assert_eq!(out.get(0, 2), 20 * 7 / 38); // flux * boundary / energy
}

#[test]
fn band_to_bins_rounds_and_clamps() {
    // 500 Hz at 22050 Hz with a 1024-sample window: bin 23.
    let (lo, hi) = band_to_bins(500_000, 11_025_000, 22_050_000, 1024);
    assert_eq!(lo, 23);
    assert_eq!(hi, 512); // clamped to window_length / 2
}

#[test]
fn default_audio_bands_table() {
    let bands = default_audio_bands(22_050_000);
    assert_eq!(bands.len(), 5);
    assert_eq!(bands[0], (0, 500_000));
    assert_eq!(bands[1], (500_000, 1_250_000));
    assert_eq!(bands[2], (1_250_000, 3_125_000));
    assert_eq!(bands[3], (3_125_000, 7_812_500));
    assert_eq!(bands[4], (7_812_500, 11_025_000));
}

#[test]
fn mean_cols_averages_bands() {
    let m = Matrix::from_data(2, 2, vec![2, 5, 4, 7]);
    let curve = mean_cols(&m);
    assert_eq!(curve, vec![3, 6]);
}

#[test]
fn smooth_filter_subtract_removes_drift() {
    let s = vec![0, 20, 0];
    let filter = vec![5, 5, 5]; // sums to 15 at scale 10
    let out = smooth_filter_subtract(&s, &filter, 10);
    assert_eq!(out, vec![0, 10, 0]);
    assert!(out.iter().all(|v| *v >= 0));
}

#[test]
fn smooth_filter_subtract_silent_input() {
    // All-zero input of nonzero length stays a well-defined zero curve.
    let s = vec![0, 0, 0, 0];
    let filter = vec![3, 4, 3];
    let out = smooth_filter_subtract(&s, &filter, 10);
    assert_eq!(out, vec![0, 0, 0, 0]);
}

#[test]
fn resample_plan_same_rate_is_identity() {
    // Resampling the curve to its own rate plans no work at all.
    assert_eq!(resample_plan(1000, 200_000, 200_000), None);
}

#[test]
fn resample_plan_rounds_ratio() {
    let r = resample_plan(1000, 200_000, 150_000);
    assert_eq!(r, Some((1333, 1000)));
}

#[test]
fn nc_settings_defaults() {
    let s = NCSettings::default();
    assert_eq!(s.log_compression, Some(1000));
    assert_eq!(s.resample_sr_mhz, Some(200_000));
    assert_eq!(s.diff_filter_length_ms, 300);
    assert_eq!(s.norm_filter_length_ms, 5000);
    assert_eq!(s.smooth_length_ms, 1500);
    assert_eq!(s.threshold_db, 74);
    assert_eq!(s.resample_precision, 1000);
}

#[test]
fn extraction_settings_defaults_and_getters() {
    let s = TempoExtractionSettings::default();
    assert_eq!(s.ref_tempo, 60);
    assert_eq!(s.octave_divider, 120);
    assert_eq!(s.scan_bpm_count, 571);
    assert_eq!(s.tempo_multiples, vec![1, 2, 4, 6]);
    assert_eq!(s.get_tempo_window(200), 1600);
    assert_eq!(s.get_tempo_hop_size(200), 40);
    assert_eq!(s.get_smooth_length(5), 100);
    assert_eq!(s.get_min_section_length(5), 50);
}

#[test]
fn constant_tempo_yields_single_anchored_section() {
    // A perfectly steady tempogram: all energy in the cyclic bin of
    // ratio 1.0 for every frame. One section must come out, anchored by
    // the tempo multiples to the preferred 120 BPM.
    let scale = 1000i64;
    let cols = 30usize;
    let mut data = Vec::new();
    for r in 0..3 {
        for _c in 0..cols {
            data.push(if r == 0 { 900 } else { 0 });
        }
    }
    let cyclic = Matrix::from_data(3, cols, data);
    let axis = vec![1000, 1400, 1800];
    let window = vec![2, 4, 2];
    let mut sections = extract_tempo(&cyclic, &axis, &window, scale, 3, 100, 60, 4, 4000, 500);
    assert_eq!(sections.len(), 1);
    assert_eq!(sections[0].start(), 0);
    assert_eq!(sections[0].end(), 3000);
    assert_eq!(sections[0].bpm(), 60_000);
    // Anchoring picks the tempo multiple closest to the preferred BPM.
    rescale_sections(&mut sections, &vec![1, 2, 4, 6], 120_000, 500);
    assert_eq!(sections[0].bpm(), 120_000);
}

#[test]
fn silent_input_gives_default_partition() {
    // An all-zero cyclic tempogram of nonzero length must not panic and
    // must still produce a well-formed partition with positive BPM.
    let cols = 20usize;
    let cyclic = Matrix::from_data(2, cols, vec![0; 2 * cols]);
    let axis = vec![1000, 1500];
    let window = vec![1, 2, 1];
    let sections = extract_tempo(&cyclic, &axis, &window, 1000, 3, 10, 60, 4, 300, 500);
    assert!(!sections.is_empty());
    assert_eq!(sections[0].start(), 0);
    assert_eq!(sections.last().unwrap().end(), 200);
    for w in sections.windows(2) {
        assert_eq!(w[0].end(), w[1].start());
    }
    for s in &sections {
        assert!(s.bpm() > 0);
        assert!(s.start() < s.end());
    }
}

#[test]
fn sections_partition_duration() {
    // A tempo change halfway: the sections must tile the whole range
    // with no gap or overlap and positive BPM throughout.
    let scale = 1000i64;
    let cols = 40usize;
    let mut data = Vec::new();
    for r in 0..2 {
        for c in 0..cols {
            let strong = if c < cols / 2 { 0 } else { 1 };
            data.push(if r == strong { 800 } else { 0 });
        }
    }
    let cyclic = Matrix::from_data(2, cols, data);
    let axis = vec![1000, 1500];
    let window = vec![1, 2, 1];
    let sections = extract_tempo(&cyclic, &axis, &window, scale, 3, 50, 60, 3, 700, 100);
    assert!(!sections.is_empty());
    assert_eq!(sections[0].start(), 0);
    assert_eq!(sections.last().unwrap().end(), 2000);
    for w in sections.windows(2) {
        assert_eq!(w[0].end(), w[1].start());
    }
    for s in &sections {
        assert!(s.bpm() > 0);
        assert!(s.duration() < 700);
    }
}
