use littempo::click_track::click_positions;
use littempo::offset_extraction::{
    best_pulse_shift, correct_offset, doubt_bpms, extract_offset, OffsetCandidate,
};
use littempo::tempo_curve::{correct_curve_by_length, join_adjacent_segments, split_curve, Segment};
use littempo::tempo_sections::{
    merge_sections, split_section, tempo_segments_to_sections, TempoSection,
};

#[test]
fn split_curve_finds_maximal_runs() {
    let curve = vec![1, 1, 2, 2, 2, 3];
    let segs = split_curve(&curve);
    assert_eq!(segs.len(), 3);
    assert_eq!((segs[0].start, segs[0].end), (0, 2));
    assert_eq!((segs[1].start, segs[1].end), (2, 5));
    assert_eq!((segs[2].start, segs[2].end), (5, 6));
}

#[test]
fn split_curve_empty() {
    let curve: Vec<i64> = Vec::new();
    assert_eq!(split_curve(&curve).len(), 0);
}

#[test]
fn join_adjacent_segments_concatenates_touching() {
    let segs = vec![
        Segment { start: 0, end: 2 },
        Segment { start: 2, end: 4 },
        Segment { start: 5, end: 6 },
    ];
    let joined = join_adjacent_segments(segs);
    assert_eq!(joined.len(), 2);
    assert_eq!((joined[0].start, joined[0].end), (0, 4));
    assert_eq!((joined[1].start, joined[1].end), (5, 6));
}

#[test]
fn stabilizer_reassigns_short_runs() {
    // The middle run is one frame; the left neighbour is numerically
    // closer, so the run takes its value.
    let curve = vec![5, 5, 6, 9, 9];
    let out = correct_curve_by_length(&curve, 2);
    assert_eq!(out, vec![5, 5, 5, 9, 9]);
}

#[test]
fn stabilizer_keeps_value_on_tie() {
    let curve = vec![5, 5, 7, 9, 9];
    let out = correct_curve_by_length(&curve, 2);
    assert_eq!(out, vec![5, 5, 7, 9, 9]);
}

#[test]
fn stabilizer_edge_runs_use_only_neighbour() {
    let curve = vec![1, 8, 8, 8, 3];
    let out = correct_curve_by_length(&curve, 2);
    assert_eq!(out, vec![8, 8, 8, 8, 8]);
}

#[test]
fn stabilizer_idempotent_once_stable() {
    // One pass removes every short run here, so a second pass with the
    // same minimum length changes nothing.
    let curve = vec![5, 5, 5, 6, 9, 9, 9];
    let once = correct_curve_by_length(&curve, 2);
    let twice = correct_curve_by_length(&once, 2);
    assert_eq!(once, twice);
}

#[test]
fn stabilizer_neighbouring_short_runs_trade_values() {
    // All runs are short: the passes keep trading values, which is why
    // the idempotence law is stated for curves whose first pass settles.
    let curve = vec![1, 2, 4];
    let once = correct_curve_by_length(&curve, 2);
    assert_eq!(once, vec![2, 1, 2]);
}

#[test]
fn segments_to_sections_scales_ticks_and_bpm() {
    let curve = vec![1000, 1000, 1500, 1500];
    let segs = vec![Segment { start: 0, end: 2 }, Segment { start: 2, end: 4 }];
    let sections = tempo_segments_to_sections(&curve, &segs, 10, 60);
    assert_eq!(sections.len(), 2);
    assert_eq!(sections[0].start(), 0);
    assert_eq!(sections[0].end(), 20);
    assert_eq!(sections[0].bpm(), 60_000);
    assert_eq!(sections[0].offset(), 0);
    assert_eq!(sections[1].start(), 20);
    assert_eq!(sections[1].end(), 40);
    assert_eq!(sections[1].bpm(), 90_000);
}

#[test]
fn merge_sections_collapses_close_bpm() {
    let sections = vec![
        TempoSection::new(0, 10, 100, 0),
        TempoSection::new(10, 30, 103, 0),
    ];
    let merged = merge_sections(&sections, 5);
    assert_eq!(merged.len(), 1);
    assert_eq!(merged[0].start(), 0);
    assert_eq!(merged[0].end(), 30);
    // Duration-weighted: (100 * 10 + 103 * 20) / 30.
    assert_eq!(merged[0].bpm(), 102);
}

#[test]
fn merge_sections_respects_threshold() {
    let sections = vec![
        TempoSection::new(0, 10, 100, 0),
        TempoSection::new(10, 30, 103, 0),
    ];
    let merged = merge_sections(&sections, 2);
    assert_eq!(merged.len(), 2);
    assert_eq!(merged[0].bpm(), 100);
    assert_eq!(merged[1].bpm(), 103);
}

#[test]
fn split_section_bisects_until_short() {
    let s = TempoSection::new(0, 100, 120, 7);
    let mut out: Vec<TempoSection> = Vec::new();
    split_section(s, &mut out, 40);
    assert_eq!(out.len(), 4);
    let bounds: Vec<(u64, u64)> = out.iter().map(|p| (p.start(), p.end())).collect();
    assert_eq!(bounds, vec![(0, 25), (25, 50), (50, 75), (75, 100)]);
    for p in &out {
        assert_eq!(p.bpm(), 120);
        assert_eq!(p.offset(), 7);
        assert!(p.duration() < 40);
    }
}

#[test]
fn section_accessors() {
    let mut s = TempoSection::new(5, 25, 120, 3);
    assert_eq!(s.start(), 5);
    assert_eq!(s.end(), 25);
    assert_eq!(s.duration(), 20);
    s.set_bpm(90);
    s.set_offset(-4);
    assert_eq!(s.bpm(), 90);
    assert_eq!(s.offset(), -4);
}

#[test]
fn best_pulse_shift_finds_alignment() {
    // Clicks at 5 and 25 against a period-20 comb: they line up at
    // shift 15.
    let mut roi = vec![0i64; 40];
    roi[5] = 1000;
    roi[25] = 1000;
    let mut pulse = vec![0i64; 60];
    for k in 0..3 {
        pulse[20 * k] = 1000;
    }
    let (mag, shift) = best_pulse_shift(&roi, &vec![pulse], 20);
    assert_eq!(shift, 15);
    assert_eq!(mag, 2_000_000);
}

#[test]
fn extract_offset_writes_back_winner() {
    let mut nc = vec![0i64; 40];
    nc[5] = 1000;
    nc[25] = 1000;
    let mut pulse = vec![0i64; 60];
    for k in 0..3 {
        pulse[20 * k] = 1000;
    }
    let mut s = TempoSection::new(0, 40, 100_000, 0);
    let cand = OffsetCandidate { bpm: 120_000, pulses: vec![pulse], samples_per_bar: 20 };
    let found = extract_offset(&nc, &mut s, &vec![cand]);
    assert!(found);
    assert_eq!(s.bpm(), 120_000);
    assert_eq!(s.offset(), -15);
}

#[test]
fn extract_offset_leaves_section_on_zero_correlation() {
    // Nothing correlates: the section keeps its BPM and offset.
    let nc = vec![0i64; 40];
    let pulse = vec![0i64; 60];
    let mut s = TempoSection::new(0, 40, 100_000, 3);
    let cand = OffsetCandidate { bpm: 120_000, pulses: vec![pulse], samples_per_bar: 20 };
    let found = extract_offset(&nc, &mut s, &vec![cand]);
    assert!(!found);
    assert_eq!(s.bpm(), 100_000);
    assert_eq!(s.offset(), 3);
}

#[test]
fn correct_offset_wraps_negative_and_snaps() {
    // 120 BPM fixed point at scale 1000, 100 ticks per second: one bar
    // is 200 ticks and a quarter-bar subdivision is 50.
    let mut s = TempoSection::new(100, 500, 120_000, 95);
    let snap = correct_offset(&mut s, 4, 100, 1000);
    // Relative offset -5 wraps to 195, then 195 mod 50 = 45.
    assert_eq!(snap, 45);
    assert_eq!(s.offset(), 145);
    assert_eq!(s.bpm(), 120_000);
}

#[test]
fn correct_offset_positive_within_bar() {
    let mut s = TempoSection::new(100, 500, 120_000, 130);
    let snap = correct_offset(&mut s, 4, 100, 1000);
    assert_eq!(snap, 30);
    assert_eq!(s.offset(), 130);
}

#[test]
fn doubt_bpms_scan_the_window() {
    let bpms = doubt_bpms(120_000, 2000, 100);
    assert_eq!(bpms.len(), 20);
    assert_eq!(bpms[0], 119_000);
    assert_eq!(bpms[1], 119_100);
    assert_eq!(bpms[19], 120_900);
}

#[test]
fn click_positions_step_through_section() {
    assert_eq!(click_positions(7, 50, 200), vec![7, 57, 107, 157]);
    // Clicks before the tick origin are skipped.
    assert_eq!(click_positions(-30, 50, 120), vec![20, 70]);
    // An offset past the end produces no clicks.
    assert_eq!(click_positions(250, 50, 200), Vec::<u64>::new());
}

#[test]
fn click_track_phase_recovered_within_one_sample() {
    // A synthetic 120 BPM click track at 100 ticks per second with its
    // first click at tick 7: the offset search plus correction must
    // recover tick 7 exactly.
    let mut nc = vec![0i64; 400];
    let mut t = 7usize;
    while t < nc.len() {
        nc[t] = 1000;
        t += 50;
    }
    let mut pulse = vec![0i64; 700];
    let mut t = 0usize;
    while t < pulse.len() {
        pulse[t] = 1000;
        t += 50;
    }
    let mut s = TempoSection::new(0, 400, 120_000, 0);
    let cand = OffsetCandidate { bpm: 120_000, pulses: vec![pulse], samples_per_bar: 200 };
    let found = extract_offset(&nc, &mut s, &vec![cand]);
    assert!(found);
    assert_eq!(s.bpm(), 120_000);
    correct_offset(&mut s, 4, 100, 1000);
    assert_eq!(s.offset(), 7);
}
