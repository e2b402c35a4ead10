//! Pitch-shift through real transforms.
use std::sync::Arc;

use audio_stack_rs::chain::{Chain, Effect, UNITY};
use audio_stack_rs::convolution::Resampling;
use audio_stack_rs::fireq::{SetGains, Voicing};
use audio_stack_rs::numeric::{Fixed, Numeric, FIXED_ONE};
use audio_stack_rs::pitch::{PitchShift, Vocoder, Vocoding, CENTS_LIMIT, FFT_SIZE};
use audio_stack_rs::rack::{Kind, Stock, Studio};
use audio_stack_rs::stretch::{clamp_ratio, Stretching, PULL_FRAMES, SOURCE_CAPACITY_FRAMES};
use audio_stack_rs::transform::Spectral;
use realfft::num_complex::Complex;
use realfft::{ComplexToReal, RealFftPlanner, RealToComplex};
use timestretch::engine::{Engine, EngineConfig, EngineHandles, EngineProfile};

/// Single precision with realfft's transforms.
struct Float;

struct Transform {
    forward: Arc<dyn RealToComplex<f32>>,
    inverse: Arc<dyn ComplexToReal<f32>>,
}

impl Numeric for Float {
    type Sample = f32;

    fn zero() -> f32 {
        0.0
    }
    fn one() -> f32 {
        1.0
    }
    fn fraction(num: u64, den: u64) -> f32 {
        num as f32 / den as f32
    }
    fn plus(a: f32, b: f32) -> f32 {
        a + b
    }
    fn minus(a: f32, b: f32) -> f32 {
        a - b
    }
    fn times(a: f32, b: f32) -> f32 {
        a * b
    }
    fn over(a: f32, b: f32) -> f32 {
        a / b
    }
    fn root(a: f32) -> f32 {
        a.sqrt()
    }
    fn below(a: f32, b: f32) -> bool {
        a < b
    }
    fn circle(i: u64, n: u64) -> (f32, f32) {
        let angle = std::f32::consts::TAU * i as f32 / n as f32;
        (angle.cos(), angle.sin())
    }
}

impl Spectral for Float {
    type Plan = Transform;
    type Bins = Vec<Complex<f32>>;
    type Spectrum = ();

    fn plan(size: usize) -> Transform {
        let mut planner = RealFftPlanner::<f32>::new();
        Transform {
            forward: planner.plan_fft_forward(size),
            inverse: planner.plan_fft_inverse(size),
        }
    }
    fn silence(plan: &Transform) -> Vec<Complex<f32>> {
        plan.forward.make_output_vec()
    }
    fn forward(plan: &mut Transform, window: &[f32]) -> Vec<Complex<f32>> {
        let mut input = window.to_vec();
        let mut bins = plan.forward.make_output_vec();
        plan.forward.process(&mut input, &mut bins).unwrap();
        bins
    }
    fn accumulate(acc: &mut Vec<Complex<f32>>, a: &Vec<Complex<f32>>, b: &Vec<Complex<f32>>) {
        for ((acc, a), b) in acc.iter_mut().zip(a).zip(b) {
            *acc += a * b;
        }
    }
    fn inverse(plan: &mut Transform, mut bins: Vec<Complex<f32>>) -> Vec<f32> {
        bins.first_mut().unwrap().im = 0.0;
        bins.last_mut().unwrap().im = 0.0;
        let mut window = plan.inverse.make_output_vec();
        plan.inverse.process(&mut bins, &mut window).unwrap();
        let scale = 1.0 / window.len() as f32;
        window.iter().map(|s| s * scale).collect()
    }
}

impl Vocoding for Float {
    fn bins_of(size: usize) -> usize {
        size / 2 + 1
    }
    fn polar(bins: &Vec<Complex<f32>>, k: usize) -> (f32, f32) {
        (bins[k].norm(), bins[k].arg())
    }
    fn assemble(bins: Vec<(f32, f32)>, _size: usize) -> Vec<Complex<f32>> {
        bins.into_iter()
            .map(|(magnitude, phase)| Complex::from_polar(magnitude, phase))
            .collect()
    }
    fn turn(num: u64, den: u64) -> f32 {
        (std::f64::consts::TAU * num as f64 / den as f64) as f32
    }
    fn wrap(angle: f32) -> f32 {
        let tau = std::f32::consts::TAU;
        angle - tau * (angle / tau - 0.5).ceil()
    }
    fn pitch_ratio(cents: i64) -> u64 {
        let octaves = cents as f64 / UNITY as f64 / 1200.0;
        (octaves.exp2() * UNITY as f64).round() as u64
    }
}

impl Voicing for Float {
    fn log_share(num: u64, den: u64, low: u64, high: u64) -> f32 {
        let hz = num as f32 / den as f32;
        let (low, high) = (low as f32, high as f32);
        (hz.ln() - low.ln()) / (high.ln() - low.ln())
    }
    fn amplitude(db: f32) -> f32 {
        10f32.powf(db / 20.0)
    }
}

impl Stretching for Float {
    type Engine = EngineHandles;
    type Stretch = ();

    fn open(rate: u32, channels: usize, tempo: u64) -> Result<EngineHandles, String> {
        Engine::build(EngineConfig {
            sample_rate: rate,
            channels,
            profile: EngineProfile::WideKeylock,
            initial_tempo_rate: tempo as f64 / UNITY as f64,
            max_block_frames: PULL_FRAMES,
            source_capacity_frames: SOURCE_CAPACITY_FRAMES,
            pre_analysis: None,
        })
        .map_err(|e| e.to_string())
    }
    fn occupied_frames(engine: &EngineHandles) -> usize {
        engine.source.occupied_frames()
    }
    fn latency_frames(engine: &EngineHandles) -> usize {
        engine.processor.pipeline_latency_frames()
    }
    fn demand_hint(engine: &EngineHandles, frames: usize, tempo: u64) -> usize {
        engine.source.demand_hint(frames, tempo as f64 / UNITY as f64)
    }
    fn push_source(engine: &mut EngineHandles, samples: &[f32]) -> usize {
        engine.source.push(samples)
    }
    fn render(engine: &mut EngineHandles, frames: usize) -> Vec<f32> {
        let mut block = vec![0.0; frames * engine.processor.channels()];
        engine.processor.process(&mut block);
        block
    }
    fn finish(engine: &mut EngineHandles) -> bool {
        engine.source.finish()
    }
    fn clear(engine: &mut EngineHandles) {
        engine.processor.reset();
    }
    fn retarget(engine: &mut EngineHandles, tempo: u64) {
        engine.controller.set_tempo_rate(tempo as f64 / UNITY as f64);
    }
}

/// A straight line from frame to frame.
impl Resampling for Float {
    fn resample(samples: &[f32], from: u32, to: u32, channels: usize) -> Result<Vec<f32>, String> {
        let frames = samples.len() / channels;
        let count = frames * to as usize / from as usize;
        let mut out = Vec::with_capacity(count * channels);
        for n in 0..count {
            let at = n as f64 * from as f64 / to as f64;
            let (i, t) = (at as usize, at.fract() as f32);
            for c in 0..channels {
                let a = samples[i * channels + c];
                let b = samples[(i + 1).min(frames - 1) * channels + c];
                out.push(a + (b - a) * t);
            }
        }
        Ok(out)
    }
}

impl Studio for Float {}

/// The strongest frequency but zero in a mono `signal`, in Hz, from the middle.
fn dominant_hz(signal: &[f32], rate: u32) -> f32 {
    assert!(signal.len() >= 2, "need at least two samples to measure");
    let window = 1usize << (usize::BITS - 1 - signal.len().leading_zeros());
    let start = (signal.len() - window) / 2;
    let mut buf = signal[start..start + window].to_vec();
    let fft = RealFftPlanner::<f32>::new().plan_fft_forward(window);
    let mut spectrum = fft.make_output_vec();
    fft.process(&mut buf, &mut spectrum).unwrap();
    let bin = spectrum
        .iter()
        .enumerate()
        .skip(1)
        .max_by(|a, b| a.1.norm().total_cmp(&b.1.norm()))
        .map(|(i, _)| i)
        .unwrap_or(0);
    bin as f32 * rate as f32 / window as f32
}

const RATE: u32 = 48_000;

/// Cents as the effect takes them.
fn cents(value: f64) -> i64 {
    (value * UNITY as f64).round() as i64
}

fn sine(hz: f32, frames: usize) -> Vec<f32> {
    (0..frames)
        .map(|n| (std::f32::consts::TAU * hz * n as f32 / RATE as f32).sin() * 0.5)
        .collect()
}

fn shift(value: f64, input: &[f32]) -> Vec<f32> {
    let mut vocoder = Vocoder::<Float>::new(Float::pitch_ratio(cents(value)));
    let mut out = Vec::new();
    for chunk in input.chunks(1024) {
        vocoder.process(chunk, &mut out);
    }
    vocoder.drain(&mut out);
    out
}

#[test]
fn an_octave_up_doubles_the_frequency() {
    let input = sine(440.0, RATE as usize * 2);
    let out = shift(1200.0, &input);
    let hz = dominant_hz(&out, RATE);
    assert!((hz - 880.0).abs() < 15.0, "expected ~880 Hz, got {hz:.1}");
}

#[test]
fn an_octave_down_halves_the_frequency() {
    let input = sine(440.0, RATE as usize * 2);
    let out = shift(-1200.0, &input);
    let hz = dominant_hz(&out, RATE);
    assert!((hz - 220.0).abs() < 15.0, "expected ~220 Hz, got {hz:.1}");
}

#[test]
fn a_semitone_up_matches_the_ratio() {
    let input = sine(440.0, RATE as usize * 2);
    let out = shift(100.0, &input);
    let hz = dominant_hz(&out, RATE);
    let expected = 440.0 * Float::pitch_ratio(cents(100.0)) as f32 / UNITY as f32;
    assert!(
        (hz - expected).abs() < 12.0,
        "expected ~{expected:.1} Hz, got {hz:.1}"
    );
}

#[test]
fn the_length_is_preserved() {
    let input = sine(330.0, RATE as usize * 2);
    let out = shift(700.0, &input);
    let ratio = out.len() as f64 / input.len() as f64;
    assert!(
        (ratio - 1.0).abs() < 0.05,
        "pitch shift must preserve length: got {ratio:.3}x"
    );
}

/// A stereo interleaved sine, both channels identical.
fn stereo_sine(hz: f32, frames: usize) -> Vec<f32> {
    sine(hz, frames).iter().flat_map(|&s| [s, s]).collect()
}

fn run_effect(effect: &mut PitchShift<Float>, input: &[f32]) -> Vec<f32> {
    let mut out = Vec::new();
    for chunk in input.chunks(2048 * 2) {
        effect.process(chunk, &mut out).unwrap();
    }
    effect.drain(&mut out).unwrap();
    out
}

#[test]
fn the_effect_shifts_pitch_across_channels() {
    let mut effect = PitchShift::new(cents(1200.0));
    effect.reconfigure(RATE, 2).unwrap();
    let out = run_effect(&mut effect, &stereo_sine(440.0, RATE as usize * 2));
    let left: Vec<f32> = out.chunks_exact(2).map(|f| f[0]).collect();
    let hz = dominant_hz(&left, RATE);
    assert!(
        (hz - 880.0).abs() < 15.0,
        "an octave up on both channels: {hz:.1}"
    );
}

#[test]
fn a_live_cents_sweep_does_not_click() {
    let mut effect = PitchShift::<Float>::new(cents(0.0));
    effect.reconfigure(RATE, 1).unwrap();
    let tone = sine(220.0, RATE as usize * 2);
    let mut out = Vec::new();
    let quarter = tone.len() / 4;
    for (i, chunk) in tone.chunks(quarter).enumerate() {
        effect.set(true, cents(i as f64 * 200.0)); // 0 → 600 cents in steps
        effect.process(chunk, &mut out).unwrap();
    }
    effect.drain(&mut out).unwrap();

    // Past the warm-up, no second difference far above a swept sine's own.
    let max_curvature = out
        .windows(3)
        .skip(FFT_SIZE)
        .map(|w| (w[0] - 2.0 * w[1] + w[2]).abs())
        .fold(0.0f32, f32::max);
    assert!(
        max_curvature < 0.1,
        "a live cents sweep must not click: max curvature {max_curvature}"
    );
}

#[test]
fn reset_leaves_no_bleed() {
    let mut effect = PitchShift::<Float>::new(cents(500.0));
    effect.reconfigure(RATE, 1).unwrap();
    let mut sink = Vec::new();
    effect
        .process(&sine(440.0, RATE as usize), &mut sink)
        .unwrap();
    effect.reset();

    let mut out = Vec::new();
    effect
        .process(&vec![0.0f32; RATE as usize], &mut out)
        .unwrap();
    effect.drain(&mut out).unwrap();
    let peak = out.iter().fold(0.0f32, |m, s| m.max(s.abs()));
    assert!(
        peak < 0.01,
        "audio before a reset must not bleed after: peak {peak:.4}"
    );
}

// Time-stretch keeps pitch, pitch-shift keeps duration; chained, each does its
// own job. A 440 Hz tone at half tempo and an octave up must still read about
// 880 Hz: the shift lands regardless of the stretch running before it.
#[test]
fn composes_with_time_stretch() {
    let mut chain: Chain<Stock<Float, SetGains<Float>>> = Chain::new();
    chain.reconfigure(RATE, 1).unwrap();
    chain.set_time_stretch(true, UNITY / 2).unwrap();
    chain.set_pitch_shift(true, cents(1200.0)).unwrap();

    let input = sine(440.0, RATE as usize * 3);
    let mut out = Vec::new();
    for chunk in input.chunks(2048) {
        chain.process(chunk, &mut out, 0).unwrap();
    }
    chain.drain(&mut out).unwrap();

    let hz = dominant_hz(&out, RATE);
    assert!(
        (hz - 880.0).abs() < 20.0,
        "the shift must still land through a 0.5x stretch: {hz:.1} Hz"
    );
}

#[test]
fn a_drained_effect_begins_afresh() {
    let mut effect = PitchShift::<Float>::new(cents(300.0));
    effect.reconfigure(RATE, 1).unwrap();
    let tone = sine(440.0, 20_000);
    let first = run_effect(&mut effect, &tone);
    let second = run_effect(&mut effect, &tone);
    assert_eq!(first, second);
}

#[test]
fn an_idle_vocoder_holds_one_window() {
    let mut effect = PitchShift::<Float>::new(cents(300.0));
    assert_eq!(effect.pending_output_frames(), 0);
    assert_eq!(effect.name(), "pitch-shift");
    effect.reconfigure(RATE, 2).unwrap();
    assert_eq!(effect.pending_output_frames(), FFT_SIZE as u64);
    assert_eq!(effect.time_ratio(), UNITY);
    assert!(effect.matches(RATE, 2) && !effect.matches(RATE, 1));
}

#[test]
fn a_pitch_shift_that_is_off_stays_warm_until_a_reset() {
    let mut effect = PitchShift::<Float>::new(cents(300.0));
    effect.reconfigure(RATE, 1).unwrap();
    effect.set(false, cents(700.0));
    assert!(effect.is_active() && !effect.is_bypassed());
    effect.reset();
    assert!(!effect.is_active() && effect.is_bypassed());
    let mut out = Vec::new();
    effect.process(&[0.25, -0.5], &mut out).unwrap();
    assert_eq!(out, [0.25, -0.5]);
}

#[test]
fn fixed_point_silence_stays_silent() {
    let mut vocoder = Vocoder::<Fixed>::new(UNITY);
    let mut out = Vec::new();
    vocoder.process(&vec![0i64; 512], &mut out);
    vocoder.drain(&mut out);
    assert!(!out.is_empty());
    assert!(out.iter().all(|&s| s == 0));
    assert_eq!(FIXED_ONE, UNITY as i64);
    assert_eq!(CENTS_LIMIT, cents(1200.0));
}

/// The rack: each effect is made when it is first asked for, found again, and
/// let go when it is off and holds nothing.
#[test]
fn settings_of_a_rack_read_back() {
    let mut chain: Chain<Stock<Float, SetGains<Float>>> = Chain::new();
    assert_eq!(chain.time_stretch(), (false, UNITY));
    assert_eq!(chain.pitch_shift(), (false, 0));
    assert_eq!(chain.convolution(), (false, 0));
    assert_eq!(chain.fir_eq(RATE), (false, 0));

    chain.set_pitch_shift(false, cents(100.0)).unwrap();
    assert_eq!(chain.len(), 0, "turning off what is not there makes nothing");

    chain.set_pitch_shift(true, cents(100.0)).unwrap();
    chain.set_time_stretch(true, clamp_ratio(5 * UNITY)).unwrap();
    chain
        .set_fir_eq(true, &SetGains::new(vec![0.0; 10]))
        .unwrap();
    assert_eq!(chain.len(), 3);
    assert_eq!(chain.pitch_shift(), (true, cents(100.0)));
    assert_eq!(chain.time_stretch(), (true, 2 * UNITY), "held in range");
    assert_eq!(chain.fir_eq(RATE), (true, 2048 * UNITY / RATE as u64));
    assert_eq!(chain.effect(0).kind(), Kind::PitchShift);

    chain.set_pitch_shift(false, 0).unwrap();
    assert_eq!(chain.len(), 2, "off and without audio it is let go");
    chain.set_time_stretch(false, UNITY).unwrap();
    chain
        .set_fir_eq(false, &SetGains::new(vec![0.0; 10]))
        .unwrap();
    assert_eq!(chain.len(), 0);
}

#[test]
fn settings_outlive_audio_drains_resets_and_mirrors() {
    let mut chain: Chain<Stock<Float, SetGains<Float>>> = Chain::new();
    chain.set_time_stretch(true, 3 * UNITY / 2).unwrap();
    chain.set_pitch_shift(true, cents(-300.0)).unwrap();
    chain
        .set_fir_eq(true, &SetGains::new(vec![0.0; 10]))
        .unwrap();
    let set = |chain: &Chain<Stock<Float, SetGains<Float>>>| {
        assert_eq!(chain.len(), 3);
        assert_eq!(chain.time_stretch(), (true, 3 * UNITY / 2));
        assert_eq!(chain.pitch_shift(), (true, cents(-300.0)));
        assert!(chain.fir_eq(RATE).0);
        assert_eq!(chain.effect(2).kind(), Kind::FirEq, "at its place");
    };
    chain.reconfigure(RATE, 1).unwrap();
    set(&chain);
    let mut out = Vec::new();
    chain.process(&sine(440.0, 10_000), &mut out, 0).unwrap();
    set(&chain);
    chain.drain(&mut out).unwrap();
    set(&chain);
    set(&chain.spawn_mirror());
    chain.reset();
    set(&chain);
    chain.reconfigure(RATE / 2, 2).unwrap();
    set(&chain);
}

#[test]
fn a_convolution_in_a_rack_is_loaded_once() {
    let mut chain: Chain<Stock<Float, SetGains<Float>>> = Chain::new();
    let path = Some("hall.wav".to_string());
    assert!(!chain.convolution_needs_load(false, &path), "off needs nothing");
    assert!(chain.convolution_needs_load(true, &path));
    let message = chain
        .set_convolution(true, path.clone(), Some(Err("no such hall".to_string())), UNITY)
        .unwrap_err();
    assert_eq!(message, "no such hall");
    assert_eq!(chain.len(), 0);
    assert!(chain.convolution_needs_load(true, &path), "another try loads again");
}

#[test]
fn a_rack_with_everything_off_is_bare_after_a_reset() {
    let mut chain: Chain<Stock<Float, SetGains<Float>>> = Chain::new();
    chain.reconfigure(RATE, 1).unwrap();
    let gains = SetGains::new(vec![0.0; 10]);
    chain.set_time_stretch(true, UNITY).unwrap();
    chain.set_fir_eq(true, &gains).unwrap();
    chain.set_pitch_shift(true, cents(200.0)).unwrap();
    assert_eq!(chain.len(), 3);
    chain.set_time_stretch(true, 3 * UNITY / 2).unwrap();
    assert_eq!(chain.len(), 3, "one of each at most");
    assert_eq!(chain.time_ratio(), 3 * UNITY / 2, "only time stretch changes time");

    chain.set_time_stretch(false, UNITY).unwrap();
    chain.set_fir_eq(false, &gains).unwrap();
    chain.set_pitch_shift(false, 0).unwrap();
    assert_eq!(chain.len(), 3, "they stay warm for now");
    assert!(!chain.time_stretch().0 && !chain.fir_eq(RATE).0 && !chain.pitch_shift().0);
    chain.reset();
    assert_eq!(chain.len(), 0);

    let input = sine(440.0, 1_000);
    let mut out = Vec::new();
    chain.process(&input, &mut out, 0).unwrap();
    assert_eq!(out, input, "off is byte for byte");
}

#[test]
fn an_effect_that_cannot_be_built_is_not_added() {
    let mut chain: Chain<Stock<Float, SetGains<Float>>> = Chain::new();
    chain.reconfigure(1_000, 1).unwrap();
    let message = chain.set_time_stretch(true, UNITY).unwrap_err();
    assert!(message.starts_with("build time-stretch backend: "), "{message}");
    assert_eq!(chain.len(), 0);
}

#[test]
fn pitch_shift_comes_last_and_keeps_time() {
    let mut chain: Chain<Stock<Float, SetGains<Float>>> = Chain::new();
    chain.reconfigure(RATE, 1).unwrap();
    chain.set_time_stretch(true, 3 * UNITY / 2).unwrap();
    chain.set_fir_eq(true, &SetGains::new(vec![0.0; 10])).unwrap();
    assert_eq!(chain.time_ratio(), 3 * UNITY / 2);
    chain.set_pitch_shift(true, cents(5_000.0)).unwrap();
    assert_eq!(chain.effect(2).kind(), Kind::PitchShift, "behind what is there");
    assert_eq!(chain.pitch_shift(), (true, cents(1_200.0)), "held in range");
    assert_eq!(chain.time_ratio(), 3 * UNITY / 2);
    chain.set_pitch_shift(true, cents(-300.0)).unwrap();
    assert_eq!(chain.len(), 3);
    assert_eq!(chain.effect(2).kind(), Kind::PitchShift, "at its old place");
    assert_eq!(chain.time_ratio(), 3 * UNITY / 2);
}

#[test]
fn a_tempo_is_kept_until_the_reset_after_it_is_turned_off() {
    let mut chain: Chain<Stock<Float, SetGains<Float>>> = Chain::new();
    chain.reconfigure(RATE, 1).unwrap();
    for ratio in [UNITY / 2, 3 * UNITY / 2] {
        chain.set_time_stretch(true, ratio).unwrap();
        assert_eq!(chain.len(), 1);
        assert_eq!(chain.time_stretch(), (true, ratio));
    }
    chain.set_time_stretch(false, UNITY).unwrap();
    assert_eq!(chain.time_stretch(), (false, 3 * UNITY / 2), "while its engine runs");
    chain.reset();
    assert_eq!(chain.time_stretch(), (false, UNITY));

    let mut unbuilt: Chain<Stock<Float, SetGains<Float>>> = Chain::new();
    unbuilt.set_time_stretch(true, UNITY / 2).unwrap();
    unbuilt.set_time_stretch(false, UNITY).unwrap();
    assert_eq!(unbuilt.time_stretch(), (false, UNITY), "gone at once");
}
