//! Tempo and key through real transforms.
use std::sync::Arc;

use audio_stack_rs::analysis::{estimate_bpm, estimate_key, Analysis, TrackAnalysis, Widening};
use audio_stack_rs::chain::UNITY;
use audio_stack_rs::numeric::{Fixed, Numeric};
use audio_stack_rs::pitch::Vocoding;
use audio_stack_rs::transform::Spectral;
use realfft::num_complex::Complex;
use realfft::{ComplexToReal, RealFftPlanner, RealToComplex};

/// Single precision with realfft's transforms.
struct Float;

struct Transform {
    forward: Arc<dyn RealToComplex<f32>>,
    inverse: Arc<dyn ComplexToReal<f32>>,
}

impl Numeric for Float {
    type Sample = f32;

    fn zero() -> f32 {
        0.0
    }
    fn one() -> f32 {
        1.0
    }
    fn fraction(num: u64, den: u64) -> f32 {
        num as f32 / den as f32
    }
    fn plus(a: f32, b: f32) -> f32 {
        a + b
    }
    fn minus(a: f32, b: f32) -> f32 {
        a - b
    }
    fn times(a: f32, b: f32) -> f32 {
        a * b
    }
    fn over(a: f32, b: f32) -> f32 {
        a / b
    }
    fn root(a: f32) -> f32 {
        a.sqrt()
    }
    fn below(a: f32, b: f32) -> bool {
        a < b
    }
    fn circle(i: u64, n: u64) -> (f32, f32) {
        let angle = std::f32::consts::TAU * i as f32 / n as f32;
        (angle.cos(), angle.sin())
    }
}

impl Spectral for Float {
    type Plan = Transform;
    type Bins = Vec<Complex<f32>>;
    type Spectrum = ();

    fn plan(size: usize) -> Transform {
        let mut planner = RealFftPlanner::<f32>::new();
        Transform {
            forward: planner.plan_fft_forward(size),
            inverse: planner.plan_fft_inverse(size),
        }
    }
    fn silence(plan: &Transform) -> Vec<Complex<f32>> {
        plan.forward.make_output_vec()
    }
    fn forward(plan: &mut Transform, window: &[f32]) -> Vec<Complex<f32>> {
        let mut input = window.to_vec();
        let mut bins = plan.forward.make_output_vec();
        plan.forward.process(&mut input, &mut bins).unwrap();
        bins
    }
    fn accumulate(acc: &mut Vec<Complex<f32>>, a: &Vec<Complex<f32>>, b: &Vec<Complex<f32>>) {
        for ((acc, a), b) in acc.iter_mut().zip(a).zip(b) {
            *acc += a * b;
        }
    }
    fn inverse(plan: &mut Transform, mut bins: Vec<Complex<f32>>) -> Vec<f32> {
        bins.first_mut().unwrap().im = 0.0;
        bins.last_mut().unwrap().im = 0.0;
        let mut window = plan.inverse.make_output_vec();
        plan.inverse.process(&mut bins, &mut window).unwrap();
        let scale = 1.0 / window.len() as f32;
        window.iter().map(|s| s * scale).collect()
    }
}

impl Vocoding for Float {
    fn bins_of(size: usize) -> usize {
        size / 2 + 1
    }
    fn polar(bins: &Vec<Complex<f32>>, k: usize) -> (f32, f32) {
        (bins[k].norm(), bins[k].arg())
    }
    fn assemble(bins: Vec<(f32, f32)>, _size: usize) -> Vec<Complex<f32>> {
        bins.into_iter()
            .map(|(magnitude, phase)| Complex::from_polar(magnitude, phase))
            .collect()
    }
    fn turn(num: u64, den: u64) -> f32 {
        (std::f64::consts::TAU * num as f64 / den as f64) as f32
    }
    fn wrap(angle: f32) -> f32 {
        let tau = std::f32::consts::TAU;
        angle - tau * (angle / tau - 0.5).ceil()
    }
    fn pitch_ratio(cents: i64) -> u64 {
        let octaves = cents as f64 / UNITY as f64 / 1200.0;
        (octaves.exp2() * UNITY as f64).round() as u64
    }
}

/// Double precision, for the long sums.
struct Double;

impl Numeric for Double {
    type Sample = f64;

    fn zero() -> f64 {
        0.0
    }
    fn one() -> f64 {
        1.0
    }
    fn fraction(num: u64, den: u64) -> f64 {
        num as f64 / den as f64
    }
    fn plus(a: f64, b: f64) -> f64 {
        a + b
    }
    fn minus(a: f64, b: f64) -> f64 {
        a - b
    }
    fn times(a: f64, b: f64) -> f64 {
        a * b
    }
    fn over(a: f64, b: f64) -> f64 {
        a / b
    }
    fn root(a: f64) -> f64 {
        a.sqrt()
    }
    fn below(a: f64, b: f64) -> bool {
        a < b
    }
    fn circle(i: u64, n: u64) -> (f64, f64) {
        let angle = std::f64::consts::TAU * i as f64 / n as f64;
        (angle.cos(), angle.sin())
    }
}

impl Widening for Float {
    type Wide = Double;

    fn widen(a: f32) -> f64 {
        f64::from(a)
    }
    fn narrow(a: f64) -> f32 {
        a as f32
    }
}

const RATE: u32 = 44_100;

/// A click track: a short impulse every `60/bpm` seconds, `secs` long.
fn click_track(bpm: f32, secs: f32) -> Vec<f32> {
    let frames = (secs * RATE as f32) as usize;
    let period = (RATE as f32 * 60.0 / bpm) as usize;
    let mut signal = vec![0.0f32; frames];
    let mut n = 0;
    while n < frames {
        // A 5 ms decaying click, enough onset energy to flux on.
        for k in 0..(RATE as usize / 200) {
            if n + k >= frames {
                break;
            }
            let env = (-(k as f32) / (RATE as f32 * 0.002)).exp();
            signal[n + k] += env * 0.8;
        }
        n += period;
    }
    signal
}

fn analyse_mono(signal: &[f32]) -> TrackAnalysis<Float> {
    let mut analysis = Analysis::<Float>::new(RATE, 1).expect("analysis");
    // Feed in playback-sized slices, like an engine does.
    for chunk in signal.chunks(4096) {
        analysis.feed(chunk);
    }
    analysis.finish()
}

#[test]
fn a_click_track_reports_its_tempo() {
    for bpm in [90.0, 120.0, 140.0] {
        let result = analyse_mono(&click_track(bpm, 12.0));
        let measured = result.bpm.expect("a click track has a tempo");
        assert!(
            (measured - bpm).abs() < 2.0,
            "expected ~{bpm} BPM, got {measured:.1}"
        );
    }
}

#[test]
fn a_c_major_chord_reports_c_major() {
    // Sustained C–E–G sine triad: the chroma peaks on C, E, G, which the major
    // profile fits best at the C tonic.
    let secs = 6.0;
    let frames = (secs * RATE as f32) as usize;
    let freqs = [261.63f32, 329.63, 392.00]; // C4, E4, G4
    let signal: Vec<f32> = (0..frames)
        .map(|n| {
            let t = n as f32 / RATE as f32;
            freqs
                .iter()
                .map(|f| (std::f32::consts::TAU * f * t).sin())
                .sum::<f32>()
                * 0.3
        })
        .collect();

    let key = analyse_mono(&signal).key.expect("a chord has a key");
    assert_eq!(key, "C major", "C–E–G should read as C major");
}

#[test]
fn a_short_listen_reports_no_tempo() {
    // Under two beats at the slowest tempo: nothing to autocorrelate.
    let result = analyse_mono(&click_track(120.0, 0.5));
    assert!(result.bpm.is_none(), "half a second is not a tempo");
}

#[test]
fn silence_has_no_key() {
    let result = analyse_mono(&vec![0.0f32; RATE as usize * 3]);
    assert!(result.key.is_none(), "silence has no key");
}

#[test]
fn a_stereo_downmix_matches_mono() {
    // The same tone on both channels must analyse like the mono version.
    let mono = click_track(120.0, 10.0);
    let stereo: Vec<f32> = mono.iter().flat_map(|&s| [s, s]).collect();
    let mut analysis = Analysis::<Float>::new(RATE, 2).expect("analysis");
    for chunk in stereo.chunks(4096) {
        analysis.feed(chunk);
    }
    let bpm = analysis.finish().bpm.expect("tempo");
    assert!((bpm - 120.0).abs() < 2.0, "stereo downmix tempo: {bpm:.1}");
}

#[test]
fn a_shape_without_audio_cannot_be_analysed() {
    assert!(Analysis::<Float>::new(0, 2).is_none());
    assert!(Analysis::<Float>::new(RATE, 0).is_none());
}

#[test]
fn the_size_of_the_slices_does_not_matter() {
    let signal = click_track(100.0, 8.0);
    let mut whole = Analysis::<Float>::new(RATE, 1).unwrap();
    whole.feed(&signal);
    let mut pieces = Analysis::<Float>::new(RATE, 1).unwrap();
    for chunk in signal.chunks(777) {
        pieces.feed(chunk);
    }
    let (a, b) = (whole.finish(), pieces.finish());
    assert_eq!(a.bpm, b.bpm);
    assert_eq!(a.bpm_confidence, b.bpm_confidence);
    assert_eq!(a.key, b.key);
    assert_eq!(a.key_confidence, b.key_confidence);
}

#[test]
fn chroma_of_a_profile_is_its_own_key() {
    // The profile of a minor key, from A on.
    let minor = [6.33, 2.68, 3.52, 5.38, 2.60, 3.53, 2.54, 4.75, 3.98, 2.69, 3.34, 3.17];
    let mut chroma = [0.0f64; 12];
    for (i, weight) in minor.iter().enumerate() {
        chroma[(i + 9) % 12] = *weight;
    }
    let (key, confidence) = estimate_key::<Double>(&chroma).unwrap();
    assert_eq!(key, "A minor");
    assert!((confidence - 1.0).abs() < 1e-9, "{confidence}");
    assert!(estimate_key::<Double>(&[0.0; 12]).is_none());
}

#[test]
fn an_even_onset_envelope_has_no_tempo() {
    assert!(estimate_bpm::<Float>(&[0.5f32; 2_000], RATE).is_none());
    assert!(estimate_bpm::<Float>(&[], RATE).is_none());
    assert!(estimate_bpm::<Fixed>(&[0i64; 2_000], RATE).is_none());
}

#[test]
fn tempi_lie_between_sixty_and_two_hundred() {
    // At one and a half hops a second only a beat of one hop is in range.
    let one = 1i64 << 32;
    let every_other: Vec<i64> = (0..8).map(|i| if i % 2 == 0 { one } else { 0 }).collect();
    assert!(estimate_bpm::<Fixed>(&every_other, 768).is_none());
    assert!(estimate_bpm::<Fixed>(&every_other, 511).is_none(), "no lag is left");

    // A beat of every other hop, at rates where that is in and out of range.
    let long: Vec<f32> = (0..4_000).map(|i| if i % 2 == 0 { 1.0 } else { 0.0 }).collect();
    for rate in [1_024u32, 1_600, 3_413, 8_000, 22_050, 44_100, 48_000, 96_000] {
        if let Some((bpm, confidence)) = estimate_bpm::<Float>(&long, rate) {
            assert!((60.0..=200.0).contains(&bpm), "{rate}: {bpm}");
            assert!((0.0..=1.0).contains(&confidence), "{rate}: {confidence}");
        }
    }
    let (bpm, _) = estimate_bpm::<Float>(&long, 1_024).unwrap();
    assert_eq!(bpm, 60.0);
    assert!(estimate_bpm::<Float>(&long[..3], 1_024).is_none(), "less than two beats");
}

#[test]
fn cuts_and_doubled_channels_change_nothing() {
    let mono = click_track(110.0, 6.0);
    let mut one = Analysis::<Float>::new(RATE, 1).unwrap();
    one.feed(&mono);
    let stereo: Vec<f32> = mono.iter().flat_map(|&s| [s, s]).collect();
    let mut two = Analysis::<Float>::new(RATE, 2).unwrap();
    let (first, rest) = stereo.split_at(2 * 12_345);
    let mut torn = first.to_vec();
    torn.push(0.7); // half a frame, which is dropped
    two.feed(&torn);
    two.feed(rest);
    let (a, b) = (one.finish(), two.finish());
    assert_eq!(a.bpm, b.bpm);
    assert_eq!(a.key, b.key);
    assert_eq!(a.bpm_confidence, b.bpm_confidence);
}
