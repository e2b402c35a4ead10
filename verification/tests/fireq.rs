//! The linear-phase equaliser through real transforms.
use std::cell::{Cell, RefCell};
use std::rc::Rc;
use std::sync::Arc;

use audio_stack_rs::chain::{Effect, UNITY};
use audio_stack_rs::fireq::{
    center_freq, design_kernel, FirEq, GainSource, SetGains, Voicing, BLOCK, EQ_BAND_COUNT,
    KERNEL_LEN, LATENCY_FRAMES,
};
use audio_stack_rs::numeric::{Fixed, Numeric, FIXED_ONE};
use audio_stack_rs::pitch::Vocoding;
use audio_stack_rs::spectral::{hann_periodic, Convolver};
use audio_stack_rs::transform::Spectral;
use realfft::num_complex::Complex;
use realfft::{ComplexToReal, RealFftPlanner, RealToComplex};

/// Single precision with realfft's transforms.
struct Float;

struct Transform {
    forward: Arc<dyn RealToComplex<f32>>,
    inverse: Arc<dyn ComplexToReal<f32>>,
}

impl Numeric for Float {
    type Sample = f32;

    fn zero() -> f32 {
        0.0
    }
    fn one() -> f32 {
        1.0
    }
    fn fraction(num: u64, den: u64) -> f32 {
        num as f32 / den as f32
    }
    fn plus(a: f32, b: f32) -> f32 {
        a + b
    }
    fn minus(a: f32, b: f32) -> f32 {
        a - b
    }
    fn times(a: f32, b: f32) -> f32 {
        a * b
    }
    fn over(a: f32, b: f32) -> f32 {
        a / b
    }
    fn root(a: f32) -> f32 {
        a.sqrt()
    }
    fn below(a: f32, b: f32) -> bool {
        a < b
    }
    fn circle(i: u64, n: u64) -> (f32, f32) {
        let angle = std::f32::consts::TAU * i as f32 / n as f32;
        (angle.cos(), angle.sin())
    }
}

impl Spectral for Float {
    type Plan = Transform;
    type Bins = Vec<Complex<f32>>;
    type Spectrum = ();

    fn plan(size: usize) -> Transform {
        let mut planner = RealFftPlanner::<f32>::new();
        Transform {
            forward: planner.plan_fft_forward(size),
            inverse: planner.plan_fft_inverse(size),
        }
    }
    fn silence(plan: &Transform) -> Vec<Complex<f32>> {
        plan.forward.make_output_vec()
    }
    fn forward(plan: &mut Transform, window: &[f32]) -> Vec<Complex<f32>> {
        let mut input = window.to_vec();
        let mut bins = plan.forward.make_output_vec();
        plan.forward.process(&mut input, &mut bins).unwrap();
        bins
    }
    fn accumulate(acc: &mut Vec<Complex<f32>>, a: &Vec<Complex<f32>>, b: &Vec<Complex<f32>>) {
        for ((acc, a), b) in acc.iter_mut().zip(a).zip(b) {
            *acc += a * b;
        }
    }
    fn inverse(plan: &mut Transform, mut bins: Vec<Complex<f32>>) -> Vec<f32> {
        bins.first_mut().unwrap().im = 0.0;
        bins.last_mut().unwrap().im = 0.0;
        let mut window = plan.inverse.make_output_vec();
        plan.inverse.process(&mut bins, &mut window).unwrap();
        let scale = 1.0 / window.len() as f32;
        window.iter().map(|s| s * scale).collect()
    }
}

impl Vocoding for Float {
    fn bins_of(size: usize) -> usize {
        size / 2 + 1
    }
    fn polar(bins: &Vec<Complex<f32>>, k: usize) -> (f32, f32) {
        (bins[k].norm(), bins[k].arg())
    }
    fn assemble(bins: Vec<(f32, f32)>, _size: usize) -> Vec<Complex<f32>> {
        bins.into_iter()
            .map(|(magnitude, phase)| Complex::from_polar(magnitude, phase))
            .collect()
    }
    fn turn(num: u64, den: u64) -> f32 {
        (std::f64::consts::TAU * num as f64 / den as f64) as f32
    }
    fn wrap(angle: f32) -> f32 {
        let tau = std::f32::consts::TAU;
        angle - tau * (angle / tau - 0.5).ceil()
    }
    fn pitch_ratio(cents: i64) -> u64 {
        let octaves = cents as f64 / UNITY as f64 / 1200.0;
        (octaves.exp2() * UNITY as f64).round() as u64
    }
}

impl Voicing for Float {
    fn log_share(num: u64, den: u64, low: u64, high: u64) -> f32 {
        let hz = num as f32 / den as f32;
        let (low, high) = (low as f32, high as f32);
        (hz.ln() - low.ln()) / (high.ln() - low.ln())
    }
    fn amplitude(db: f32) -> f32 {
        10f32.powf(db / 20.0)
    }
}

/// The largest power of two not exceeding `n`.
fn window_len(n: usize) -> usize {
    assert!(n >= 2, "need at least two samples to measure");
    1usize << (usize::BITS - 1 - n.leading_zeros())
}

/// The windowed magnitude of a mono `signal` at `hz` (nearest bin).
fn magnitude_at(signal: &[f32], rate: u32, hz: f32) -> f32 {
    let window = window_len(signal.len());
    let start = (signal.len() - window) / 2;
    let mut buf = signal[start..start + window].to_vec();
    for (sample, weight) in buf.iter_mut().zip(hann_periodic::<Float>(window)) {
        *sample *= weight;
    }
    let fft = RealFftPlanner::<f32>::new().plan_fft_forward(window);
    let mut spectrum = fft.make_output_vec();
    fft.process(&mut buf, &mut spectrum).unwrap();
    let bin = ((hz * window as f32 / rate as f32).round() as usize).min(spectrum.len() - 1);
    spectrum[bin].norm()
}

/// The response of an effect at `hz`, in dB: a probe tone's level out against
/// its level in.
fn response_db<F>(mut process: F, rate: u32, hz: f32) -> f32
where
    F: FnMut(&[f32]) -> Vec<f32>,
{
    let frames = (rate as usize).max(8_192);
    let input: Vec<f32> = (0..frames)
        .map(|n| (std::f32::consts::TAU * hz * n as f32 / rate as f32).sin() * 0.5)
        .collect();
    let output = process(&input);
    let in_mag = magnitude_at(&input, rate, hz);
    let out_mag = magnitude_at(&output, rate, hz);
    20.0 * (out_mag / in_mag).log10()
}

const RATE: u32 = 48_000;

/// Band gains that can be moved while an effect follows them.
struct Sliders {
    gains: RefCell<[f32; EQ_BAND_COUNT]>,
    epoch: Cell<u64>,
}

struct Params(Rc<Sliders>);

impl Params {
    fn new() -> Params {
        Params(Rc::new(Sliders {
            gains: RefCell::new([0.0; EQ_BAND_COUNT]),
            epoch: Cell::new(0),
        }))
    }

    fn set_eq_gains(&self, gains: &[f32; EQ_BAND_COUNT]) {
        *self.0.gains.borrow_mut() = *gains;
        self.0.epoch.set(self.0.epoch.get() + 1);
    }
}

impl GainSource<Float> for Params {
    fn epoch(&self) -> u64 {
        self.0.epoch.get()
    }
    fn gains(&self) -> Vec<f32> {
        self.0.gains.borrow().to_vec()
    }
    fn share(&self) -> Params {
        Params(Rc::clone(&self.0))
    }
}

fn gains_with(band: usize, db: f32) -> [f32; EQ_BAND_COUNT] {
    let mut gains = [0.0f32; EQ_BAND_COUNT];
    gains[band] = db;
    gains
}

/// Asserts a mono `hz`-tone output has no click across a mid-stream kernel
/// swap. A click is a discontinuity, which spikes the second difference; a
/// smooth sine of peak `A` keeps it at `A·ω²`, so the bar is that natural
/// curvature with headroom. A kernel length is trimmed off each end first: the
/// one-time onset and the final tail ramp through the group delay by design.
fn assert_no_click(out: &[f32], hz: f32) {
    let trim = KERNEL_LEN;
    assert!(out.len() > 2 * trim + 3, "need audio past the transients");
    let body = &out[trim..out.len() - trim];
    let peak = body.iter().fold(0.0f32, |m, s| m.max(s.abs()));
    let omega = std::f32::consts::TAU * hz / RATE as f32;
    let natural = peak * omega * omega;
    let max_curvature = body
        .windows(3)
        .map(|w| (w[0] - 2.0 * w[1] + w[2]).abs())
        .fold(0.0f32, f32::max);
    assert!(
        max_curvature < natural * 2.5 + 1e-4,
        "swap clicked at {hz} Hz: curvature {max_curvature:.4}, natural {natural:.4}"
    );
}

/// Runs a mono probe through a fresh convolver built on `kernel`.
fn through(kernel: &[f32], input: &[f32]) -> Vec<f32> {
    let mut convolver = Convolver::<Float>::new(kernel, BLOCK);
    let mut out = Vec::new();
    convolver.process(input, &mut out);
    convolver.drain(&mut out);
    out
}

fn tone() -> Vec<f32> {
    (0..RATE)
        .map(|n| (std::f32::consts::TAU * 1_000.0 * n as f32 / RATE as f32).sin() * 0.5)
        .collect()
}

#[test]
fn each_band_center_tracks_its_requested_gain() {
    // A distinct gain per band; every band centre should read back close to
    // what was asked. The lowest three bands are limited by the resolution: a
    // 4096-tap filter's bins and main lobe are wider than the octave spacing
    // down there. Every band from 250 Hz up holds the target.
    let gains = [6.0, -4.0, 3.0, -6.0, 2.0, 5.0, -3.0, 4.0, -5.0, 6.0];
    let kernel = design_kernel::<Float>(RATE, &gains);
    for band in 0..EQ_BAND_COUNT {
        let center = center_freq(band) as f32;
        if center < 200.0 {
            continue;
        }
        let measured = response_db(|input| through(&kernel, input), RATE, center);
        assert!(
            (measured - gains[band]).abs() < 0.5,
            "band {band} at {center} Hz: asked {} dB, got {measured:.2} dB",
            gains[band]
        );
    }
}

#[test]
fn flat_gains_are_transparent() {
    // All bands at 0 dB: a pure delay, so the response is flat.
    let kernel = design_kernel::<Float>(RATE, &[0.0; EQ_BAND_COUNT]);
    for hz in [100.0, 500.0, 1_000.0, 4_000.0, 12_000.0] {
        let db = response_db(|input| through(&kernel, input), RATE, hz);
        assert!(
            db.abs() < 0.2,
            "flat EQ must pass {hz} Hz cleanly: {db:.3} dB"
        );
    }
}

#[test]
fn the_kernel_is_symmetric_so_phase_is_linear() {
    // A linear-phase filter is symmetric about its centre: that symmetry is the
    // constant group delay.
    let gains = [6.0, -4.0, 3.0, -6.0, 2.0, 5.0, -3.0, 4.0, -5.0, 6.0];
    let kernel = design_kernel::<Float>(RATE, &gains);
    let mid = KERNEL_LEN / 2;
    let peak = kernel.iter().fold(0.0f32, |m, s| m.max(s.abs()));
    let max_asymmetry = (1..mid)
        .map(|k| (kernel[mid - k] - kernel[mid + k]).abs())
        .fold(0.0f32, f32::max);
    assert!(
        max_asymmetry < peak * 1e-3,
        "kernel must be symmetric about its centre: max asymmetry {max_asymmetry:.2e}, peak {peak:.3}"
    );
}

#[test]
fn a_gain_change_does_not_click() {
    let params = Params::new();
    params.set_eq_gains(&gains_with(5, 6.0)); // +6 dB at 1 kHz
    let mut effect = FirEq::<Float, Params>::new(params.share());
    effect.set(true);
    effect.reconfigure(RATE, 1).unwrap();

    let tone = tone();
    let mut out = Vec::new();
    let half = tone.len() / 2;
    effect.process(&tone[..half], &mut out).unwrap();
    params.set_eq_gains(&gains_with(5, -6.0)); // swing to -6 dB
    effect.process(&tone[half..], &mut out).unwrap();
    effect.drain(&mut out).unwrap();

    assert_no_click(&out, 1_000.0);
}

#[test]
fn disabling_swaps_to_a_transparent_kernel_without_clicking() {
    let params = Params::new();
    params.set_eq_gains(&gains_with(5, 8.0));
    let mut effect = FirEq::<Float, Params>::new(params.share());
    effect.set(true);
    effect.reconfigure(RATE, 1).unwrap();

    let tone = tone();
    let mut out = Vec::new();
    let half = tone.len() / 2;
    effect.process(&tone[..half], &mut out).unwrap();
    effect.set(false); // disable: swap to a flat kernel, stay warm
    assert!(
        !effect.is_bypassed(),
        "disabled but warm still delays the tail"
    );
    effect.process(&tone[half..], &mut out).unwrap();
    effect.drain(&mut out).unwrap();

    assert_no_click(&out, 1_000.0);
}

#[test]
fn reset_while_disabled_retires_the_effect() {
    let mut effect = FirEq::<Float, Params>::new(Params::new());
    effect.set(true);
    effect.reconfigure(RATE, 2).unwrap();
    assert!(effect.is_active() && !effect.is_bypassed());

    effect.set(false);
    effect.reset();
    assert!(
        !effect.is_active(),
        "a disabled effect goes inactive at reset"
    );
    assert!(effect.is_bypassed(), "and drops its backend");
}

#[test]
fn latency_is_the_group_delay() {
    let mut effect = FirEq::<Float, Params>::new(Params::new());
    effect.set(true);
    effect.reconfigure(RATE, 2).unwrap();
    assert_eq!(effect.pending_output_frames(), LATENCY_FRAMES as u64);
    let expected = LATENCY_FRAMES as f32 / RATE as f32;
    let latency = effect.latency_secs(RATE) as f32 / UNITY as f32;
    assert!((latency - expected).abs() < 1e-6);
}

#[test]
fn pending_output_counts_the_staged_remainder_too() {
    // Sub-block input sits in the convolver's stage, accepted but not yet
    // emitted; a gapless boundary must sit past it as well as the group delay,
    // so both are reported.
    let mut effect = FirEq::<Float, Params>::new(Params::new());
    effect.set(true);
    effect.reconfigure(RATE, 1).unwrap();

    let mut out = Vec::new();
    effect.process(&vec![0.1f32; 100], &mut out).unwrap();
    assert_eq!(
        effect.pending_output_frames(),
        LATENCY_FRAMES as u64 + 100,
        "group delay plus the 100 staged frames"
    );
}

#[test]
fn an_equaliser_that_is_off_adds_no_delay() {
    let mut effect = FirEq::<Float, Params>::new(Params::new());
    assert_eq!(effect.latency_secs(RATE), 0);
    assert_eq!(effect.name(), "fir-eq");
    assert!(!effect.enabled());
    effect.set(true);
    assert_eq!(effect.latency_secs(0), 0);
    assert_eq!(effect.latency_secs(RATE), 2048 * UNITY / 48_000);
}

#[test]
fn a_mirror_follows_the_same_gains() {
    let params = Params::new();
    params.set_eq_gains(&gains_with(5, 6.0));
    let mut effect = FirEq::<Float, Params>::new(params.share());
    effect.set(true);
    effect.reconfigure(RATE, 1).unwrap();
    let mut mirror = effect.spawn_mirror();
    params.set_eq_gains(&gains_with(5, -3.0));

    let input = tone();
    let (mut a, mut b) = (Vec::new(), Vec::new());
    effect.process(&input, &mut a).unwrap();
    mirror.process(&input, &mut b).unwrap();
    assert_eq!(a, b);
}

#[test]
fn a_fixed_point_kernel_is_symmetric() {
    let gains: Vec<i64> = (0..EQ_BAND_COUNT as i64).map(|b| (3 * b - 12) * FIXED_ONE).collect();
    let kernel = design_kernel::<Fixed>(RATE, &gains);
    for d in 0..LATENCY_FRAMES {
        assert_eq!(kernel[LATENCY_FRAMES + d], kernel[LATENCY_FRAMES - d], "{d}");
    }
    assert!(kernel[LATENCY_FRAMES + 1] != 0, "it does shape the audio");
}

#[test]
fn fixed_point_design_is_level_for_level_gains() {
    let loud = design_kernel::<Fixed>(RATE, &[6 * FIXED_ONE; EQ_BAND_COUNT]);
    for (i, &tap) in loud.iter().enumerate() {
        let expected = if i == LATENCY_FRAMES { Fixed::amplitude(6 * FIXED_ONE) } else { 0 };
        assert_eq!(tap, expected, "tap {i}");
    }
    let kernel = design_kernel::<Fixed>(RATE, &[0i64; EQ_BAND_COUNT]);
    for (i, &tap) in kernel.iter().enumerate() {
        assert_eq!(tap, if i == LATENCY_FRAMES { FIXED_ONE } else { 0 }, "tap {i}");
    }
    let mut effect: FirEq<Fixed, SetGains<Fixed>> = FirEq::new(SetGains::new(vec![0; 10]));
    effect.set(true);
    effect.reconfigure(RATE, 1).unwrap();
    let mut out = Vec::new();
    let mut pulse = vec![0i64; BLOCK];
    pulse[0] = FIXED_ONE;
    effect.process(&pulse, &mut out).unwrap();
    assert_eq!(out, kernel[..BLOCK], "a pulse gives the kernel back");
}

/// What the effect makes of `input` once two blocks of silence have gone by.
fn settled(effect: &mut FirEq<Float, Params>, input: &[f32]) -> Vec<f32> {
    let mut out = Vec::new();
    effect.process(&vec![0.0; 2 * BLOCK], &mut out).unwrap();
    out.clear();
    effect.process(input, &mut out).unwrap();
    effect.drain(&mut out).unwrap();
    out
}

fn assert_close(a: &[f32], b: &[f32]) {
    assert_eq!(a.len(), b.len());
    let max = a.iter().zip(b).map(|(a, b)| (a - b).abs()).fold(0.0f32, f32::max);
    assert!(max < 1e-4, "{max}");
}

#[test]
fn a_reset_before_the_swap_still_ends_at_the_sliders() {
    let (old, new) = (gains_with(5, 6.0), gains_with(5, -6.0));
    let input = tone();
    let expected = through(&design_kernel::<Float>(RATE, &new), &input);
    for drained in [false, true] {
        let params = Params::new();
        params.set_eq_gains(&old);
        let mut effect = FirEq::<Float, Params>::new(params.share());
        effect.set(true);
        effect.reconfigure(RATE, 1).unwrap();
        params.set_eq_gains(&new);
        let mut out = Vec::new();
        effect.process(&[0.1; BLOCK - 1], &mut out).unwrap();
        assert!(out.is_empty(), "the swap still waits for its block");
        if drained {
            effect.drain(&mut out).unwrap();
        } else {
            effect.reset();
        }
        assert_close(&settled(&mut effect, &input), &expected);
    }
}

#[test]
fn a_drain_before_the_fade_still_turns_it_off() {
    let params = Params::new();
    params.set_eq_gains(&gains_with(5, 6.0));
    let mut effect = FirEq::<Float, Params>::new(params.share());
    effect.set(true);
    effect.reconfigure(RATE, 1).unwrap();
    let mut out = Vec::new();
    effect.process(&[0.1; 3], &mut out).unwrap();
    effect.set(false);
    effect.drain(&mut out).unwrap();
    let input = tone();
    let expected = through(&design_kernel::<Float>(RATE, &[0.0; EQ_BAND_COUNT]), &input);
    assert_close(&settled(&mut effect, &input), &expected);
}

#[test]
fn what_was_read_decides() {
    let params = Params::new();
    let mut effect = FirEq::<Float, Params>::new(params.share());
    effect.set(true);
    effect.reconfigure(RATE, 1).unwrap();
    let loud = gains_with(5, 6.0);
    let input = tone();
    // The epoch that the kernel is already at changes nothing.
    effect.follow(0, &loud);
    let flat = through(&design_kernel::<Float>(RATE, &[0.0; EQ_BAND_COUNT]), &input);
    assert_close(&settled(&mut effect, &input), &flat);
    // Another one brings the gains that came with it, and the source, which
    // is at that epoch by now, asks for no other.
    effect.follow(7, &loud);
    params.0.epoch.set(7);
    let expected = through(&design_kernel::<Float>(RATE, &loud), &input);
    assert_close(&settled(&mut effect, &input), &expected);
}

#[test]
fn the_band_centres_are_octaves() {
    let centres: Vec<u64> = (0..EQ_BAND_COUNT).map(center_freq).collect();
    assert_eq!(centres, [32, 64, 125, 250, 500, 1000, 2000, 4000, 8000, 16000]);
}
