//! Tempo analysis over fixed-point signals.
//!
//! The crate estimates musical tempo structure from an onset-strength
//! ("novelty") curve: it correlates the curve against candidate-tempo
//! sinusoids into a tempogram, folds that into one reference octave,
//! smooths it, extracts a per-frame tempo curve, stabilises the curve,
//! cuts it into constant-tempo sections, and refines each section's BPM
//! and beat offset.
//!
//! All quantities are integers. Time is counted in ticks (the caller picks
//! the tick rate, usually the novelty-curve sample rate), and magnitudes,
//! tempo ratios and BPM values are fixed-point numbers whose scale the
//! caller chooses. Windows, sinusoid tables and other sampled real-valued
//! collaborators are handed in as fixed-point vectors.

pub mod click_track;
pub mod matrix;
pub mod novelty_curve;
pub mod offset_extraction;
pub mod preprocessing;
pub mod sums;
pub mod tempo_curve;
pub mod tempo_extraction;
pub mod tempogram;
pub mod tempo_sections;
