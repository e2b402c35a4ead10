//! Convolution with impulse responses.
use std::sync::Arc;

use audio_stack_rs::chain::{Effect, UNITY};
use audio_stack_rs::convolution::{
    Convolution, IrLoader, Resampling, SourceIr, BLOCK, MAX_IR_SECS,
};
use audio_stack_rs::numeric::{Fixed, Numeric, FIXED_ONE};
use audio_stack_rs::transform::Spectral;
use realfft::num_complex::Complex;
use realfft::{ComplexToReal, RealFftPlanner, RealToComplex};

/// Single precision with realfft's transforms.
struct Float;

struct Transform {
    forward: Arc<dyn RealToComplex<f32>>,
    inverse: Arc<dyn ComplexToReal<f32>>,
}

impl Numeric for Float {
    type Sample = f32;

    fn zero() -> f32 {
        0.0
    }
    fn one() -> f32 {
        1.0
    }
    fn fraction(num: u64, den: u64) -> f32 {
        num as f32 / den as f32
    }
    fn plus(a: f32, b: f32) -> f32 {
        a + b
    }
    fn minus(a: f32, b: f32) -> f32 {
        a - b
    }
    fn times(a: f32, b: f32) -> f32 {
        a * b
    }
    fn over(a: f32, b: f32) -> f32 {
        a / b
    }
    fn root(a: f32) -> f32 {
        a.sqrt()
    }
    fn below(a: f32, b: f32) -> bool {
        a < b
    }
    fn circle(i: u64, n: u64) -> (f32, f32) {
        let angle = std::f32::consts::TAU * i as f32 / n as f32;
        (angle.cos(), angle.sin())
    }
}

impl Spectral for Float {
    type Plan = Transform;
    type Bins = Vec<Complex<f32>>;
    type Spectrum = ();

    fn plan(size: usize) -> Transform {
        let mut planner = RealFftPlanner::<f32>::new();
        Transform {
            forward: planner.plan_fft_forward(size),
            inverse: planner.plan_fft_inverse(size),
        }
    }
    fn silence(plan: &Transform) -> Vec<Complex<f32>> {
        plan.forward.make_output_vec()
    }
    fn forward(plan: &mut Transform, window: &[f32]) -> Vec<Complex<f32>> {
        let mut input = window.to_vec();
        let mut bins = plan.forward.make_output_vec();
        plan.forward.process(&mut input, &mut bins).unwrap();
        bins
    }
    fn accumulate(acc: &mut Vec<Complex<f32>>, a: &Vec<Complex<f32>>, b: &Vec<Complex<f32>>) {
        for ((acc, a), b) in acc.iter_mut().zip(a).zip(b) {
            *acc += a * b;
        }
    }
    fn inverse(plan: &mut Transform, mut bins: Vec<Complex<f32>>) -> Vec<f32> {
        bins.first_mut().unwrap().im = 0.0;
        bins.last_mut().unwrap().im = 0.0;
        let mut window = plan.inverse.make_output_vec();
        plan.inverse.process(&mut bins, &mut window).unwrap();
        let scale = 1.0 / window.len() as f32;
        window.iter().map(|s| s * scale).collect()
    }
}

/// A straight line from frame to frame.
impl Resampling for Float {
    fn resample(samples: &[f32], from: u32, to: u32, channels: usize) -> Result<Vec<f32>, String> {
        let frames = samples.len() / channels;
        let count = frames * to as usize / from as usize;
        let mut out = Vec::with_capacity(count * channels);
        for n in 0..count {
            let at = n as f64 * from as f64 / to as f64;
            let (i, t) = (at as usize, at.fract() as f32);
            for c in 0..channels {
                let a = samples[i * channels + c];
                let b = samples[(i + 1).min(frames - 1) * channels + c];
                out.push(a + (b - a) * t);
            }
        }
        Ok(out)
    }
}

const RATE: u32 = 48_000;

/// An impulse response as a decoder delivers it from a sixteen-bit file.
fn decoded(name: &str, rate: u32, channels: u16, interleaved: &[f32]) -> Result<SourceIr<f32>, String> {
    let samples: Vec<f32> = interleaved
        .iter()
        .map(|s| (s.clamp(-1.0, 1.0) * i16::MAX as f32) as i16)
        .map(|s| s as f32 / 32_768.0)
        .collect();
    let mut loader = IrLoader::begin(rate, channels, name)?;
    for piece in samples.chunks(4096) {
        if !loader.wants_more() {
            break;
        }
        loader.feed(piece);
    }
    loader.finish(name)
}

/// A mix in parts of unity.
fn parts(mix: f64) -> u64 {
    (mix * UNITY as f64).round() as u64
}

fn enabled_with(
    name: &str,
    ir_channels: u16,
    ir: &[f32],
    mix: f64,
    channels: usize,
) -> Convolution<Float> {
    let mut effect = Convolution::new();
    let source = decoded(name, RATE, ir_channels, ir);
    effect
        .set(true, Some(name.to_string()), Some(source), parts(mix))
        .expect("load ir");
    effect.reconfigure(RATE, channels).expect("build backend");
    effect
}

fn run(effect: &mut Convolution<Float>, input: &[f32]) -> Vec<f32> {
    let mut out = Vec::new();
    effect.process(input, &mut out).unwrap();
    effect.drain(&mut out).unwrap();
    out
}

/// Noise for a probe.
fn noise(len: usize, seed: u64) -> Vec<f32> {
    let mut state = seed | 1;
    (0..len)
        .map(|_| {
            state ^= state << 13;
            state ^= state >> 7;
            state ^= state << 17;
            (state as f32 / u64::MAX as f32) * 2.0 - 1.0
        })
        .collect()
}

#[test]
fn a_delta_ir_at_full_wet_is_transparent() {
    // A unit impulse convolves to identity, so full wet is the input minus
    // float noise.
    let mut effect = enabled_with("delta", 1, &[1.0], 1.0, 1);
    let input = noise(BLOCK * 4, 1);
    let out = run(&mut effect, &input);

    let max = input
        .iter()
        .zip(&out)
        .map(|(a, b)| (a - b).abs())
        .fold(0.0f32, f32::max);
    assert!(
        max < 1e-3,
        "delta IR at mix 1.0 must pass audio: max err {max}"
    );
}

#[test]
fn mix_zero_is_bit_transparent() {
    let mut effect = enabled_with("delta0", 1, &[1.0], 0.0, 1);
    let input = noise(BLOCK * 4, 2);
    let out = run(&mut effect, &input);
    for (a, b) in input.iter().zip(&out) {
        assert_eq!(*a, *b, "mix 0.0 must be bit-identical dry");
    }
}

#[test]
fn a_two_tap_ir_produces_the_expected_echo() {
    // An impulse at zero plus a half-scale tap at delay D: the output is the
    // input plus a half-scale copy delayed by D.
    const D: usize = 300;
    let mut ir = vec![0.0f32; D + 1];
    ir[0] = 1.0;
    ir[D] = 0.5;
    let mut effect = enabled_with("echo", 1, &ir, 1.0, 1);

    let mut input = vec![0.0f32; BLOCK * 2];
    input[10] = 1.0; // a single click
    let out = run(&mut effect, &input);

    assert!(
        (out[10] - 1.0).abs() < 1e-3,
        "direct click at 10: {}",
        out[10]
    );
    assert!(
        (out[10 + D] - 0.5).abs() < 1e-3,
        "echo tap at 10+D: {}",
        out[10 + D]
    );
}

#[test]
fn a_bad_ir_path_errors_and_leaves_the_effect_bypassed() {
    let mut effect = Convolution::<Float>::new();
    let missing = "audio-stack-rs-conv-does-not-exist.wav".to_string();
    let result = effect.set(
        true,
        Some(missing),
        Some(Err("no such file".to_string())),
        parts(0.5),
    );
    assert!(result.is_err(), "a missing IR file must surface an error");
    assert!(effect.is_bypassed(), "and leave the effect bypassed");
    // A bypassed effect passes audio straight through.
    let input = noise(BLOCK, 3);
    let mut out = Vec::new();
    effect.process(&input, &mut out).unwrap();
    assert_eq!(out, input, "bypassed convolution is a pass-through");
}

#[test]
fn a_stereo_ir_applies_each_channel_to_its_side() {
    // The left response is a delta (pass), the right a half-scale delta (halve).
    let ir: Vec<f32> = [1.0f32, 0.5].to_vec(); // one interleaved frame
    let mut effect = enabled_with("stereo", 2, &ir, 1.0, 2);

    let mut input = vec![0.0f32; BLOCK * 2 * 2];
    input[20] = 1.0; // left click
    input[21] = 1.0; // right click, same frame
    let out = run(&mut effect, &input);
    assert!((out[20] - 1.0).abs() < 1e-3, "left passes: {}", out[20]);
    assert!((out[21] - 0.5).abs() < 1e-3, "right halves: {}", out[21]);
}

#[test]
fn staged_input_counts_as_pending_output() {
    // Sub-block input is accepted but not yet emitted; a gapless boundary must
    // sit past it, so it has to be reported as pending.
    let mut effect = enabled_with("staged", 1, &[1.0], 1.0, 1);
    assert_eq!(
        effect.pending_output_frames(),
        0,
        "fresh effect holds nothing"
    );

    let mut out = Vec::new();
    effect.process(&noise(BLOCK / 2, 4), &mut out).unwrap();
    assert_eq!(
        effect.pending_output_frames(),
        (BLOCK / 2) as u64,
        "half a block in, nothing out: all of it is pending"
    );

    effect.process(&noise(BLOCK / 2, 5), &mut out).unwrap();
    assert_eq!(
        effect.pending_output_frames(),
        0,
        "a whole block has been emitted, the stage is empty"
    );
}

#[test]
fn a_failed_ir_swap_disables_the_effect() {
    // Replacing a working response with a bad file drops the old one, so
    // claiming "enabled" would echo a response that is not loaded: the effect
    // must come back disabled and bypassed, with the error surfaced.
    let mut effect = enabled_with("swap-good", 1, &[1.0], 0.8, 1);
    assert_eq!(effect.setting(), (true, parts(0.8)));

    let missing = "audio-stack-rs-conv-swap-missing.wav".to_string();
    let result = effect.set(
        true,
        Some(missing.clone()),
        Some(Err("no such file".to_string())),
        parts(0.8),
    );
    assert_eq!(
        result,
        Err("no such file".to_string()),
        "a missing replacement IR must error"
    );
    assert!(
        !effect.setting().0,
        "a failed swap must not leave the effect claiming to be enabled"
    );
    assert!(effect.is_bypassed(), "and it is bypassed");
    assert!(effect.needs_load(&Some(missing)), "another try loads again");
}

#[test]
fn spawn_mirror_shares_the_kernel() {
    let effect = enabled_with("shared", 1, &noise(2_000, 9), 0.7, 2);
    let before = Arc::strong_count(&effect.ir_kernels().unwrap()[0]);
    let _mirror = effect.spawn_mirror();
    let after = Arc::strong_count(&effect.ir_kernels().unwrap()[0]);
    assert!(
        after > before,
        "the mirror must share the transformed kernel, not rebuild it: {before} -> {after}"
    );
}

#[test]
fn a_format_without_audio_is_refused() {
    let message = IrLoader::<f32>::begin(0, 2, "hall.wav").err().unwrap();
    assert_eq!(message, "impulse response has no audio: hall.wav");
    let message = IrLoader::<f32>::begin(RATE, 0, "hall.wav").err().unwrap();
    assert_eq!(message, "impulse response has no audio: hall.wav");
}

#[test]
fn a_response_of_less_than_a_frame_is_refused() {
    let mut loader = IrLoader::begin(RATE, 2, "hall.wav").unwrap();
    loader.feed(&[1.0f32]);
    let message = loader.finish("hall.wav").err().unwrap();
    assert_eq!(message, "impulse response decoded to nothing: hall.wav");
}

#[test]
fn a_long_response_is_cut_at_ten_seconds() {
    let mut loader = IrLoader::begin(100, 1, "hall.wav").unwrap();
    let mut fed = 0usize;
    while loader.wants_more() {
        loader.feed(&[0.5f32; 300]);
        fed += 300;
    }
    assert_eq!(fed, 1_200, "asked for until there is enough");
    let source = loader.finish("hall.wav").unwrap();
    let mut effect = Convolution::<Float>::new();
    effect
        .set(true, Some("hall.wav".to_string()), Some(Ok(source)), UNITY)
        .unwrap();
    effect.reconfigure(100, 1).unwrap();
    let out = run(&mut effect, &[1.0]);
    assert_eq!(out.len() as u64, MAX_IR_SECS * 100, "one sample rings through every tap");
}

#[test]
fn a_response_at_another_rate_is_resampled() {
    let mut effect = Convolution::<Float>::new();
    let source = decoded("slow", 24_000, 1, &[1.0, 1.0, 1.0, 1.0]);
    effect
        .set(true, Some("slow".to_string()), Some(source), UNITY)
        .unwrap();
    effect.reconfigure(48_000, 1).unwrap();
    let out = run(&mut effect, &[1.0]);
    assert_eq!(out.len(), 8, "twice the rate is twice the taps");
}

#[test]
fn an_unchanged_path_keeps_its_response() {
    let mut effect = enabled_with("hall", 1, &[1.0], 0.5, 1);
    let path = Some("hall".to_string());
    assert!(!effect.needs_load(&path));
    effect.set(true, path, None, 3 * UNITY).unwrap();
    assert!(!effect.is_bypassed());
    assert_eq!(effect.setting(), (true, UNITY), "the mix is held at full wet");
}

#[test]
fn a_disabled_convolution_fades_to_dry_and_a_reset_retires_it() {
    let mut effect = enabled_with("hall", 1, &[0.0, 0.0, 0.5], 1.0, 1);
    effect.set(false, Some("hall".to_string()), None, UNITY).unwrap();
    assert!(effect.is_active());
    let input = noise(BLOCK, 7);
    let mut out = Vec::new();
    effect.process(&input, &mut out).unwrap();
    assert_eq!(out, input, "off is dry at once");
    effect.reset();
    assert!(!effect.is_active() && effect.is_bypassed());
}

/// The tail rings out past the end of the input.
#[test]
fn a_drain_rings_out_the_tail() {
    let mut effect = enabled_with("tail", 1, &[0.5, 0.25, 0.125], 1.0, 1);
    let out = run(&mut effect, &[1.0, 0.0]);
    assert_eq!(out.len(), 4);
    for (a, b) in out.iter().zip([0.5f32, 0.25, 0.125, 0.0]) {
        assert!((a - b).abs() < 1e-3, "{out:?}");
    }
    let mut more = Vec::new();
    effect.drain(&mut more).unwrap();
    assert!(more.is_empty(), "and nothing is left");
}

#[test]
fn fixed_point_convolution_mixes_exactly() {
    let mut loader = IrLoader::begin(RATE, 1, "echo").unwrap();
    loader.feed(&[FIXED_ONE, 0, FIXED_ONE / 2]);
    let mut effect = Convolution::<Fixed>::new();
    effect
        .set(true, Some("echo".to_string()), Some(loader.finish("echo")), UNITY)
        .unwrap();
    effect.reconfigure(RATE, 1).unwrap();
    let mut out = Vec::new();
    effect.process(&[FIXED_ONE, 0, 0], &mut out).unwrap();
    effect.drain(&mut out).unwrap();
    assert_eq!(out, [FIXED_ONE, 0, FIXED_ONE / 2, 0, 0]);
}

#[test]
fn the_size_of_the_pieces_does_not_matter() {
    let ir = noise(1_500, 11);
    let input = noise(2 * 5_000, 12);
    let mut whole = enabled_with("room", 1, &ir, 0.4, 2);
    let expected = run(&mut whole, &input);
    let mut pieces = enabled_with("room", 1, &ir, 0.4, 2);
    let mut out = Vec::new();
    for piece in input.chunks(2 * 37) {
        pieces.process(piece, &mut out).unwrap();
    }
    pieces.drain(&mut out).unwrap();
    assert_eq!(out, expected);
    assert_eq!(expected.len(), 2 * (5_000 + 1_500 - 1));
}

#[test]
fn a_dry_drain_adds_only_silence() {
    let mut effect = enabled_with("dry", 1, &noise(700, 31), 0.0, 1);
    let input = noise(BLOCK + 9, 32);
    let out = run(&mut effect, &input);
    assert_eq!(out.len(), input.len() + 700 - 1);
    assert_eq!(out[..input.len()], input);
    assert!(out[input.len()..].iter().all(|&s| s == 0.0));
}

#[test]
fn a_fixed_point_mix_holds_its_power() {
    for mix in 0..=64u64 {
        let (dry, wet) = Fixed::circle(mix * (UNITY / 64), 4 * UNITY);
        let power = (dry as f64).powi(2) + (wet as f64).powi(2);
        assert!((power.sqrt() / FIXED_ONE as f64 - 1.0).abs() < 1e-8, "{mix}");
    }
}
