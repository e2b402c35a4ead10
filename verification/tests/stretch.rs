//! Time-stretch through timestretch's engine.
use audio_stack_rs::chain::{Effect, UNITY};
use audio_stack_rs::numeric::{Fixed, Numeric};
use audio_stack_rs::stretch::{
    clamp_ratio, Stretching, TimeStretch, FADE_FRAMES, FASTEST, PULL_FRAMES, SLOWEST,
    SOURCE_CAPACITY_FRAMES,
};
use realfft::RealFftPlanner;
use timestretch::engine::{Engine, EngineConfig, EngineHandles, EngineProfile};

/// Single precision with timestretch's engine.
struct Float;

impl Numeric for Float {
    type Sample = f32;

    fn zero() -> f32 {
        0.0
    }
    fn one() -> f32 {
        1.0
    }
    fn fraction(num: u64, den: u64) -> f32 {
        num as f32 / den as f32
    }
    fn plus(a: f32, b: f32) -> f32 {
        a + b
    }
    fn minus(a: f32, b: f32) -> f32 {
        a - b
    }
    fn times(a: f32, b: f32) -> f32 {
        a * b
    }
    fn over(a: f32, b: f32) -> f32 {
        a / b
    }
    fn root(a: f32) -> f32 {
        a.sqrt()
    }
    fn below(a: f32, b: f32) -> bool {
        a < b
    }
    fn circle(i: u64, n: u64) -> (f32, f32) {
        let angle = std::f32::consts::TAU * i as f32 / n as f32;
        (angle.cos(), angle.sin())
    }
}

impl Stretching for Float {
    type Engine = EngineHandles;
    type Stretch = ();

    fn open(rate: u32, channels: usize, tempo: u64) -> Result<EngineHandles, String> {
        Engine::build(EngineConfig {
            sample_rate: rate,
            channels,
            profile: EngineProfile::WideKeylock,
            initial_tempo_rate: tempo as f64 / UNITY as f64,
            max_block_frames: PULL_FRAMES,
            source_capacity_frames: SOURCE_CAPACITY_FRAMES,
            pre_analysis: None,
        })
        .map_err(|e| e.to_string())
    }
    fn occupied_frames(engine: &EngineHandles) -> usize {
        engine.source.occupied_frames()
    }
    fn latency_frames(engine: &EngineHandles) -> usize {
        engine.processor.pipeline_latency_frames()
    }
    fn demand_hint(engine: &EngineHandles, frames: usize, tempo: u64) -> usize {
        engine.source.demand_hint(frames, tempo as f64 / UNITY as f64)
    }
    fn push_source(engine: &mut EngineHandles, samples: &[f32]) -> usize {
        engine.source.push(samples)
    }
    fn render(engine: &mut EngineHandles, frames: usize) -> Vec<f32> {
        let mut block = vec![0.0; frames * engine.processor.channels()];
        engine.processor.process(&mut block);
        block
    }
    fn finish(engine: &mut EngineHandles) -> bool {
        engine.source.finish()
    }
    fn clear(engine: &mut EngineHandles) {
        engine.processor.reset();
    }
    fn retarget(engine: &mut EngineHandles, tempo: u64) {
        engine.controller.set_tempo_rate(tempo as f64 / UNITY as f64);
    }
}

const RATE: u32 = 48_000;

/// A ratio in parts of unity.
fn parts(ratio: f64) -> u64 {
    (ratio * UNITY as f64).round() as u64
}

fn effect(ratio: f64) -> TimeStretch<Float> {
    let mut effect = TimeStretch::new(parts(ratio));
    effect
        .reconfigure(RATE, 2)
        .expect("backend must build for a stereo 48 kHz device");
    effect
}

/// A stereo interleaved sine at `freq`, `frames` long.
fn sine(freq: f32, frames: usize) -> Vec<f32> {
    let mut signal = Vec::with_capacity(frames * 2);
    for n in 0..frames {
        let sample = (2.0 * std::f32::consts::PI * freq * n as f32 / RATE as f32).sin() * 0.5;
        signal.push(sample);
        signal.push(sample);
    }
    signal
}

/// Processes `input` in pump-sized slices and drains, returning all output.
fn run_through(effect: &mut TimeStretch<Float>, input: &[f32]) -> Vec<f32> {
    let mut output = Vec::new();
    for slice in input.chunks(2048 * 2) {
        effect.process(slice, &mut output).unwrap();
    }
    effect.drain(&mut output).unwrap();
    output
}

/// Dominant frequency of a mono view of interleaved stereo.
fn dominant_hz(interleaved: &[f32]) -> f32 {
    let mono: Vec<f32> = interleaved.chunks_exact(2).map(|f| f[0]).collect();
    // A power-of-two window from the middle, past any fade-in.
    let window = 16_384.min(mono.len() / 2);
    let start = (mono.len() - window) / 2;
    let mut buf: Vec<f32> = mono[start..start + window].to_vec();
    let fft = RealFftPlanner::<f32>::new().plan_fft_forward(window);
    let mut spectrum = fft.make_output_vec();
    fft.process(&mut buf, &mut spectrum).unwrap();
    let bin = spectrum
        .iter()
        .enumerate()
        .skip(1)
        .max_by(|a, b| a.1.norm().total_cmp(&b.1.norm()))
        .map(|(i, _)| i)
        .unwrap_or(0);
    bin as f32 * RATE as f32 / window as f32
}

#[test]
fn time_stretch_changes_length_not_pitch() {
    let mut effect = effect(2.0);
    let input = sine(440.0, RATE as usize * 4);
    let output = run_through(&mut effect, &input);

    let ratio = (input.len() as f64) / (output.len() as f64);
    assert!(
        (ratio - 2.0).abs() < 0.15,
        "double tempo must roughly halve the frames: got {ratio:.3}x"
    );
    let hz = dominant_hz(&output);
    assert!(
        (hz - 440.0).abs() < 15.0,
        "pitch must not move with tempo: got {hz:.1} Hz"
    );
}

#[test]
fn slowdown_produces_proportionally_more_frames() {
    let mut effect = effect(0.5);
    let input = sine(440.0, RATE as usize * 2);
    let output = run_through(&mut effect, &input);

    let ratio = (output.len() as f64) / (input.len() as f64);
    assert!(
        (ratio - 2.0).abs() < 0.15,
        "half tempo must roughly double the frames: got {ratio:.3}x"
    );
    let hz = dominant_hz(&output);
    assert!(
        (hz - 440.0).abs() < 15.0,
        "pitch must not move with tempo: got {hz:.1} Hz"
    );
}

#[test]
fn unity_ratio_preserves_length() {
    let mut effect = effect(1.0);
    let input = sine(330.0, RATE as usize * 2);
    let output = run_through(&mut effect, &input);

    let ratio = (output.len() as f64) / (input.len() as f64);
    assert!(
        (ratio - 1.0).abs() < 0.05,
        "unity tempo must keep the frame count: got {ratio:.3}x"
    );
}

#[test]
fn live_ratio_change_has_no_discontinuity() {
    let mut effect = effect(1.0);
    let input = sine(220.0, RATE as usize * 2);
    let mut output = Vec::new();
    let half = input.len() / 2 / (2048 * 2) * (2048 * 2);
    effect.process(&input[..half], &mut output).unwrap();
    effect.set(true, parts(1.5));
    effect.process(&input[half..], &mut output).unwrap();
    effect.drain(&mut output).unwrap();

    // Past the enable fade-in, no adjacent samples of a smooth 220 Hz tone may
    // jump more than the tone's own steepest slope allows, with headroom for
    // the retarget window.
    let mono: Vec<f32> = output.chunks_exact(2).map(|f| f[0]).collect();
    let max_step = mono
        .windows(2)
        .skip(FADE_FRAMES)
        .map(|w| (w[1] - w[0]).abs())
        .fold(0.0f32, f32::max);
    assert!(
        max_step < 0.05,
        "a live retarget must not click: max sample step {max_step:.4}"
    );
}

#[test]
fn reset_clears_state() {
    let mut effect = effect(1.0);
    let loud = sine(440.0, RATE as usize);
    let mut sink = Vec::new();
    effect.process(&loud, &mut sink).unwrap();
    effect.reset();

    let mut output = Vec::new();
    effect.process(&vec![0.0f32; 48_000], &mut output).unwrap();
    effect.drain(&mut output).unwrap();
    let peak = output.iter().fold(0.0f32, |m, s| m.max(s.abs()));
    assert!(
        peak < 0.01,
        "audio from before a reset must not bleed after it: peak {peak:.4}"
    );
}

#[test]
fn drain_flushes_the_tail_and_is_idempotent() {
    let mut effect = effect(1.0);
    let input = sine(440.0, 8192);
    let mut output = Vec::new();
    effect.process(&input, &mut output).unwrap();
    let held_back = input.len() - output.len();
    assert!(held_back > 0, "the backend buffers some tail internally");

    effect.drain(&mut output).unwrap();
    let shortfall = input.len() as i64 - output.len() as i64;
    assert!(
        shortfall.unsigned_abs() < 4096,
        "drain must recover the tail within a latency window: short {shortfall} samples"
    );

    let before = output.len();
    effect.drain(&mut output).unwrap();
    assert_eq!(output.len(), before, "a second drain must add nothing");
}

#[test]
fn disabling_ramps_to_unity_and_reset_retires_the_backend() {
    let mut effect = effect(2.0);
    assert!(effect.is_active() && !effect.is_bypassed());

    effect.set(false, parts(2.0));
    assert!(
        effect.is_active(),
        "a pending disable keeps processing until the next reset"
    );
    assert_eq!(effect.time_ratio(), UNITY, "but already targets unity");

    effect.reset();
    assert!(!effect.is_active(), "reset completes the disable");
    assert!(effect.is_bypassed());
}

#[test]
fn matches_tracks_the_built_shape() {
    let effect = effect(1.0);
    assert!(effect.matches(RATE, 2));
    assert!(!effect.matches(44_100, 2), "different rate");
    assert!(!effect.matches(RATE, 6), "different channel count");
}

#[test]
fn a_bypassed_effect_passes_audio_through_untouched() {
    // Enabled but with no device shape yet: settings stored, audio untouched
    // until `reconfigure` builds the backend.
    let mut effect = TimeStretch::<Float>::new(parts(1.5));
    let input = sine(440.0, 512);
    let mut output = Vec::new();
    effect.process(&input, &mut output).unwrap();
    assert_eq!(output, input, "no backend must mean identical bytes");
    assert_eq!(effect.pending_output_frames(), 0);
}

#[test]
fn ratios_are_held_in_range() {
    assert_eq!(clamp_ratio(0), SLOWEST);
    assert_eq!(clamp_ratio(parts(0.25)), parts(0.25));
    assert_eq!(clamp_ratio(parts(1.5)), parts(1.5));
    assert_eq!(clamp_ratio(u64::MAX), FASTEST);
    assert_eq!(FASTEST, 2 * UNITY);
}

#[test]
fn a_shape_the_engine_refuses_is_reported() {
    let mut effect = TimeStretch::<Float>::new(UNITY);
    let message = effect.reconfigure(1_000, 2).unwrap_err();
    assert!(message.starts_with("build time-stretch backend: "), "{message}");
    assert!(effect.is_bypassed());
    assert!(!effect.matches(1_000, 2), "the next call tries again");
}

#[test]
fn a_mirror_starts_cold_with_the_same_setting() {
    let mut effect = effect(1.5);
    let mut sink = Vec::new();
    effect.process(&sine(440.0, 8192), &mut sink).unwrap();
    let mirror = effect.spawn_mirror();
    assert_eq!(mirror.setting(), (true, parts(1.5)));
    assert_eq!(mirror.name(), "time-stretch");
    assert!(!mirror.is_bypassed());
    assert_eq!(mirror.pending_output_frames(), 0);
    assert!(effect.pending_output_frames() > 0);
}

/// In fixed point whole numbers can be followed through the engine at normal
/// speed.
#[test]
fn frames_run_through_a_whole_engine_in_order() {
    let mut effect = TimeStretch::<Fixed>::new(UNITY);
    effect.reconfigure(RATE, 2).unwrap();
    let frames = 8 * PULL_FRAMES;
    let input: Vec<i64> = (0..2 * frames as i64).collect();
    let mut output = Vec::new();
    effect.process(&input, &mut output).unwrap();
    effect.drain(&mut output).unwrap();
    assert!(output.len() >= 2 * frames, "{}", output.len());
    for (n, &sample) in output[..2 * frames].iter().enumerate().skip(2 * FADE_FRAMES) {
        assert_eq!(sample, n as i64);
    }
    let before = output.len();
    effect.drain(&mut output).unwrap();
    assert_eq!(output.len(), before);
}

/// How often a signal rises through zero.
fn rises(signal: &[i64]) -> usize {
    signal.windows(2).filter(|pair| pair[0] < 0 && pair[1] >= 0).count()
}

#[test]
fn a_fixed_point_engine_keeps_the_pitch() {
    // Thirty-two periods to the hop, so that grains at any tempo here join in
    // phase.
    let input: Vec<i64> = (0..16_384u64)
        .map(|n| Fixed::circle(n % 16, 16).1)
        .collect();
    for (tempo, length) in [(UNITY / 2, 32_768), (2 * UNITY, 8_192)] {
        let mut effect = TimeStretch::<Fixed>::new(tempo);
        effect.reconfigure(RATE, 1).unwrap();
        let mut output = Vec::new();
        effect.process(&input, &mut output).unwrap();
        effect.drain(&mut output).unwrap();
        assert!(output.len().abs_diff(length) <= 2 * PULL_FRAMES, "{}", output.len());
        let middle = &output[PULL_FRAMES..5 * PULL_FRAMES];
        assert!(rises(middle).abs_diff(256) <= 1, "{}", rises(middle));
    }
}

#[test]
fn a_setting_survives_a_disable() {
    let mut effect = effect(1.5);
    effect.set(false, parts(0.5));
    assert_eq!(effect.setting(), (false, parts(1.5)), "an off ratio is not kept");
    effect.set(true, parts(0.75));
    assert_eq!(effect.setting(), (true, parts(0.75)));
    assert_eq!(effect.time_ratio(), parts(0.75));
}
