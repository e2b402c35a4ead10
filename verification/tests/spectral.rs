//! Convolution through real transforms.
use std::sync::Arc;

use audio_stack_rs::numeric::{Fixed, Numeric};
use audio_stack_rs::spectral::{hann, hann_periodic, Convolver, Kernel, StereoConvolver};
use audio_stack_rs::transform::Spectral;
use realfft::num_complex::Complex;
use realfft::{ComplexToReal, RealFftPlanner, RealToComplex};

/// Single precision with realfft's transforms.
struct Float;

struct Transform {
    forward: Arc<dyn RealToComplex<f32>>,
    inverse: Arc<dyn ComplexToReal<f32>>,
}

impl Numeric for Float {
    type Sample = f32;

    fn zero() -> f32 {
        0.0
    }
    fn one() -> f32 {
        1.0
    }
    fn fraction(num: u64, den: u64) -> f32 {
        num as f32 / den as f32
    }
    fn plus(a: f32, b: f32) -> f32 {
        a + b
    }
    fn minus(a: f32, b: f32) -> f32 {
        a - b
    }
    fn times(a: f32, b: f32) -> f32 {
        a * b
    }
    fn over(a: f32, b: f32) -> f32 {
        a / b
    }
    fn root(a: f32) -> f32 {
        a.sqrt()
    }
    fn below(a: f32, b: f32) -> bool {
        a < b
    }
    fn circle(i: u64, n: u64) -> (f32, f32) {
        let angle = std::f32::consts::TAU * i as f32 / n as f32;
        (angle.cos(), angle.sin())
    }
}

impl Spectral for Float {
    type Plan = Transform;
    type Bins = Vec<Complex<f32>>;
    type Spectrum = ();

    fn plan(size: usize) -> Transform {
        let mut planner = RealFftPlanner::<f32>::new();
        Transform {
            forward: planner.plan_fft_forward(size),
            inverse: planner.plan_fft_inverse(size),
        }
    }
    fn silence(plan: &Transform) -> Vec<Complex<f32>> {
        plan.forward.make_output_vec()
    }
    fn forward(plan: &mut Transform, window: &[f32]) -> Vec<Complex<f32>> {
        let mut input = window.to_vec();
        let mut bins = plan.forward.make_output_vec();
        plan.forward.process(&mut input, &mut bins).unwrap();
        bins
    }
    fn accumulate(acc: &mut Vec<Complex<f32>>, a: &Vec<Complex<f32>>, b: &Vec<Complex<f32>>) {
        for ((acc, a), b) in acc.iter_mut().zip(a).zip(b) {
            *acc += a * b;
        }
    }
    fn inverse(plan: &mut Transform, mut bins: Vec<Complex<f32>>) -> Vec<f32> {
        bins.first_mut().unwrap().im = 0.0;
        bins.last_mut().unwrap().im = 0.0;
        let mut window = plan.inverse.make_output_vec();
        plan.inverse.process(&mut bins, &mut window).unwrap();
        let scale = 1.0 / window.len() as f32;
        window.iter().map(|s| s * scale).collect()
    }
}

/// The largest power of two not exceeding `n`.
fn window_len(n: usize) -> usize {
    assert!(n >= 2, "need at least two samples to measure");
    1usize << (usize::BITS - 1 - n.leading_zeros())
}

/// The windowed magnitude of a mono `signal` at `hz` (nearest bin).
fn magnitude_at(signal: &[f32], rate: u32, hz: f32) -> f32 {
    let window = window_len(signal.len());
    let start = (signal.len() - window) / 2;
    let mut buf = signal[start..start + window].to_vec();
    for (sample, weight) in buf.iter_mut().zip(hann_periodic::<Float>(window)) {
        *sample *= weight;
    }
    let fft = RealFftPlanner::<f32>::new().plan_fft_forward(window);
    let mut spectrum = fft.make_output_vec();
    fft.process(&mut buf, &mut spectrum).unwrap();
    let bin = ((hz * window as f32 / rate as f32).round() as usize).min(spectrum.len() - 1);
    spectrum[bin].norm()
}

/// The response of an effect at `hz`, in dB: a probe tone's level out against
/// its level in.
fn response_db<F>(mut process: F, rate: u32, hz: f32) -> f32
where
    F: FnMut(&[f32]) -> Vec<f32>,
{
    let frames = (rate as usize).max(8_192);
    let input: Vec<f32> = (0..frames)
        .map(|n| (std::f32::consts::TAU * hz * n as f32 / rate as f32).sin() * 0.5)
        .collect();
    let output = process(&input);
    let in_mag = magnitude_at(&input, rate, hz);
    let out_mag = magnitude_at(&output, rate, hz);
    20.0 * (out_mag / in_mag).log10()
}

const BLOCK: usize = 64;

/// Naive O(n·m) linear convolution, the reference the FFT path must match.
fn naive(signal: &[f32], kernel: &[f32]) -> Vec<f32> {
    let mut out = vec![0.0f32; signal.len() + kernel.len() - 1];
    for (i, &s) in signal.iter().enumerate() {
        for (j, &k) in kernel.iter().enumerate() {
            out[i + j] += s * k;
        }
    }
    out
}

/// Deterministic pseudo-random samples in −1..1, so tests need no rng dep.
fn noise(len: usize, seed: u64) -> Vec<f32> {
    let mut state = seed | 1;
    (0..len)
        .map(|_| {
            state ^= state << 13;
            state ^= state >> 7;
            state ^= state << 17;
            (state as f32 / u64::MAX as f32) * 2.0 - 1.0
        })
        .collect()
}

fn convolve_all(kernel: &[f32], block: usize, input: &[f32]) -> Vec<f32> {
    let mut convolver = Convolver::<Float>::new(kernel, block);
    let mut out = Vec::new();
    convolver.process(input, &mut out);
    convolver.drain(&mut out);
    out
}

#[test]
fn an_identity_kernel_is_transparent() {
    let input = noise(BLOCK * 5, 1);
    let out = convolve_all(&[1.0], BLOCK, &input);
    assert_eq!(out.len(), input.len(), "identity conv keeps the length");
    let max = input
        .iter()
        .zip(&out)
        .map(|(a, b)| (a - b).abs())
        .fold(0.0f32, f32::max);
    assert!(
        max < 1e-4,
        "identity must pass audio through: max err {max}"
    );
}

#[test]
fn a_pure_delay_kernel_shifts_by_exactly_k() {
    const K: usize = 20;
    let mut kernel = vec![0.0f32; K + 1];
    kernel[K] = 1.0;
    let input = noise(BLOCK * 4, 2);
    let out = convolve_all(&kernel, BLOCK, &input);

    for value in &out[..K] {
        assert!(
            value.abs() < 1e-4,
            "the first k samples are pre-signal silence"
        );
    }
    let max = (0..input.len())
        .map(|i| (out[i + K] - input[i]).abs())
        .fold(0.0f32, f32::max);
    assert!(
        max < 1e-4,
        "delayed audio must equal the input: max err {max}"
    );
}

#[test]
fn convolution_matches_the_naive_reference() {
    // A kernel spanning several partitions, an input spanning several
    // blocks: the multi-partition FDL path, not just a single block.
    let kernel = noise(150, 3);
    let input = noise(500, 4);
    let out = convolve_all(&kernel, BLOCK, &input);
    let reference = naive(&input, &kernel);

    assert_eq!(out.len(), reference.len(), "linear-convolution length");
    let max = out
        .iter()
        .zip(&reference)
        .map(|(a, b)| (a - b).abs())
        .fold(0.0f32, f32::max);
    assert!(
        max < 1e-4,
        "FFT convolution must match naive: max err {max}"
    );
}

#[test]
fn sub_block_feeds_are_staged_not_padded() {
    let kernel = noise(100, 5);
    let input = noise(400, 6);
    let whole = convolve_all(&kernel, BLOCK, &input);

    // Feed the same input in ragged little pieces; staging must make the
    // result identical to one big call.
    let mut convolver = Convolver::<Float>::new(&kernel, BLOCK);
    let mut piecemeal = Vec::new();
    let sizes = [1usize, 7, 3, 40, 13, 100];
    let mut cursor = 0;
    let mut i = 0;
    while cursor < input.len() {
        let take = sizes[i % sizes.len()].min(input.len() - cursor);
        convolver.process(&input[cursor..cursor + take], &mut piecemeal);
        cursor += take;
        i += 1;
    }
    convolver.drain(&mut piecemeal);

    assert_eq!(whole.len(), piecemeal.len(), "same total output length");
    let max = whole
        .iter()
        .zip(&piecemeal)
        .map(|(a, b)| (a - b).abs())
        .fold(0.0f32, f32::max);
    assert!(
        max < 1e-6,
        "chunking must not change the result: max err {max}"
    );
}

#[test]
fn drain_emits_input_plus_kernel_minus_one_frames() {
    let kernel = noise(90, 7);
    let input = noise(300, 8);
    let mut convolver = Convolver::<Float>::new(&kernel, BLOCK);
    let mut out = Vec::new();
    convolver.process(&input, &mut out);
    assert_eq!(out.len(), 256, "process emits only whole blocks (4·64)");
    convolver.drain(&mut out);
    assert_eq!(
        out.len(),
        input.len() + kernel.len() - 1,
        "drain flushes the staged remainder and the tail"
    );
}

#[test]
fn reset_leaves_no_bleed_from_before() {
    let kernel = noise(80, 9);
    let mut convolver = Convolver::<Float>::new(&kernel, BLOCK);
    let mut sink = Vec::new();
    convolver.process(&noise(BLOCK * 3, 10), &mut sink);
    convolver.reset();

    // Silence after a reset must convolve to silence — no retained tail.
    let mut out = Vec::new();
    convolver.process(&vec![0.0f32; BLOCK * 3], &mut out);
    convolver.drain(&mut out);
    let peak = out.iter().fold(0.0f32, |m, s| m.max(s.abs()));
    assert!(
        peak < 1e-6,
        "audio before a reset must not bleed after: peak {peak}"
    );
}

#[test]
fn stereo_channels_do_not_leak() {
    // Left silent, right a tone; an identity kernel must keep them apart.
    let mut convolver = StereoConvolver::<Float>::new(&[1.0], BLOCK, 2);
    let mut input = Vec::new();
    for n in 0..BLOCK * 4 {
        input.push(0.0);
        input.push((n as f32 * 0.1).sin() * 0.5);
    }
    let mut out = Vec::new();
    convolver.process(&input, &mut out);
    convolver.drain(&mut out);

    let left_peak = out.iter().step_by(2).fold(0.0f32, |m, s| m.max(s.abs()));
    let right_peak = out
        .iter()
        .skip(1)
        .step_by(2)
        .fold(0.0f32, |m, s| m.max(s.abs()));
    assert!(
        left_peak < 1e-4,
        "the silent channel stayed silent: peak {left_peak}"
    );
    assert!(
        right_peak > 0.3,
        "the tone channel kept its level: peak {right_peak}"
    );
}

#[test]
fn a_kernel_swap_does_not_click() {
    // Two different lowpass-ish kernels; a steady sine through the swap must
    // have no sample step beyond the tone's own slope with fade headroom.
    let rate = 48_000.0f32;
    let hz = 220.0f32;
    let kernel_a: Vec<f32> = hann::<Float>(48).iter().map(|w| w / 24.0).collect();
    let kernel_b: Vec<f32> = hann::<Float>(96).iter().map(|w| w / 48.0).collect();

    let mut convolver = StereoConvolver::<Float>::new(&kernel_a, BLOCK, 1);
    let tone: Vec<f32> = (0..BLOCK * 8)
        .map(|n| (std::f32::consts::TAU * hz * n as f32 / rate).sin() * 0.5)
        .collect();

    let mut out = Vec::new();
    let half = BLOCK * 4;
    convolver.process(&tone[..half], &mut out);
    convolver.set_kernel(&kernel_b);
    convolver.process(&tone[half..], &mut out);
    convolver.drain(&mut out);

    // Skip the very start (kernel warm-up) and check adjacent steps.
    let max_step = out
        .windows(2)
        .skip(BLOCK)
        .map(|w| (w[1] - w[0]).abs())
        .fold(0.0f32, f32::max);
    assert!(
        max_step < 0.05,
        "a kernel swap must not click: max step {max_step}"
    );
}

#[test]
fn a_completed_swap_applies_the_new_kernel() {
    // Identity → a half-gain kernel: once the one-block fade is behind us,
    // the output must follow the new kernel exactly.
    let mut convolver = StereoConvolver::<Float>::new(&[1.0], BLOCK, 1);
    let input = vec![1.0f32; BLOCK * 6];
    let mut out = Vec::new();
    convolver.process(&input[..BLOCK * 2], &mut out);
    convolver.set_kernel(&[0.5]);
    convolver.process(&input[BLOCK * 2..], &mut out);
    convolver.drain(&mut out);

    let tail = &out[out.len() - BLOCK..];
    let avg = tail.iter().sum::<f32>() / tail.len() as f32;
    assert!(
        (avg - 0.5).abs() < 1e-3,
        "past the fade the output follows the new 0.5 kernel: {avg}"
    );
}

#[test]
fn a_lowpass_kernel_passes_lows_and_cuts_highs() {
    let rate = 48_000u32;
    // A crude windowed-sinc lowpass at ~2 kHz, so the response helper has a
    // real shape to measure: lows near 0 dB, a high tone well down.
    let cutoff = 2_000.0f32;
    let taps = 257usize;
    let kernel = lowpass(taps, cutoff, rate);

    let low = response_db(|input| convolve_all(&kernel, 128, input), rate, 500.0);
    let high = response_db(|input| convolve_all(&kernel, 128, input), rate, 12_000.0);
    assert!(low.abs() < 1.0, "a low tone passes near unity: {low:.2} dB");
    assert!(high < -20.0, "a high tone is well attenuated: {high:.2} dB");
}

/// A windowed-sinc lowpass FIR, for the response test above.
fn lowpass(taps: usize, cutoff: f32, rate: u32) -> Vec<f32> {
    let fc = cutoff / rate as f32; // normalized 0..0.5
    let mid = (taps - 1) as f32 / 2.0;
    let window = hann::<Float>(taps);
    let mut kernel: Vec<f32> = (0..taps)
        .map(|i| {
            let x = i as f32 - mid;
            let sinc = if x == 0.0 {
                2.0 * fc
            } else {
                (std::f32::consts::TAU * fc * x).sin() / (std::f32::consts::PI * x)
            };
            sinc * window[i]
        })
        .collect();
    let sum: f32 = kernel.iter().sum();
    kernel.iter_mut().for_each(|k| *k /= sum); // unity DC gain
    kernel
}

#[test]
fn hann_windows_have_the_expected_endpoints() {
    let symmetric = hann::<Float>(8);
    assert!(
        symmetric[0].abs() < 1e-6,
        "symmetric Hann is zero at the start"
    );
    assert!(symmetric[7].abs() < 1e-6, "and zero at the end");

    let periodic = hann_periodic::<Float>(8);
    assert!(periodic[0].abs() < 1e-6, "periodic Hann is zero at index 0");
    assert!(periodic[4] > 0.99, "and peaks at the centre");
}

/// One in fixed point.
const ONE: i64 = 1 << 32;

#[test]
fn fixed_point_convolution_is_exact() {
    let mut convolver = Convolver::<Fixed>::new(&[ONE, 2 * ONE, 3 * ONE], 2);
    let mut out = Vec::new();
    convolver.process(&[ONE, 0, 0, 5 * ONE, ONE], &mut out);
    assert_eq!(out, vec![ONE, 2 * ONE, 3 * ONE, 5 * ONE]);
    assert_eq!(convolver.staged_frames(), 1);
    convolver.drain(&mut out);
    assert_eq!(out[4..], [11 * ONE, 17 * ONE, 3 * ONE]);
}

#[test]
fn a_stream_that_never_began_drains_nothing() {
    let mut convolver = Convolver::<Fixed>::new(&[ONE, ONE], 4);
    let mut out = Vec::new();
    convolver.drain(&mut out);
    assert!(out.is_empty());
    assert_eq!(convolver.latency_frames(), 0);
}

#[test]
fn convolvers_share_a_kernel() {
    let kernel = Arc::new(Kernel::<Fixed>::new(&[2 * ONE], 2));
    let mut a = Convolver::from_kernel(Arc::clone(&kernel));
    let mut b = Convolver::from_kernel(kernel);
    let (mut left, mut right) = (Vec::new(), Vec::new());
    a.process(&[ONE, ONE], &mut left);
    b.process(&[3 * ONE, ONE], &mut right);
    assert_eq!(left, vec![2 * ONE, 2 * ONE]);
    assert_eq!(right, vec![6 * ONE, 2 * ONE]);
}

#[test]
fn a_swap_between_blocks_comes_in_warm() {
    // A one-sample delay replaced by another one: the new kernel hears the
    // input from before the swap.
    let mut convolver = StereoConvolver::<Fixed>::new(&[0, ONE], 2, 1);
    let mut out = Vec::new();
    convolver.process(&[ONE, 2 * ONE, 3 * ONE], &mut out);
    assert_eq!(convolver.staged_frames(), 1);
    convolver.set_kernel(&[0, 0, 0, ONE]);
    convolver.process(&[4 * ONE, 5 * ONE, 6 * ONE], &mut out);
    assert_eq!(out[..2], [0, ONE]);
    assert_eq!(out[2], 2 * ONE, "the exchange begins on the old kernel");
    assert_eq!(out[4..], [2 * ONE, 3 * ONE]);
    convolver.drain(&mut out);
    assert_eq!(out[6..], [4 * ONE, 5 * ONE, 6 * ONE]);
}

#[test]
fn a_drain_drops_a_kernel_that_waits() {
    let mut convolver = StereoConvolver::<Fixed>::new(&[ONE], 4, 1);
    let mut out = Vec::new();
    convolver.process(&[ONE], &mut out);
    convolver.set_kernel(&[7 * ONE]);
    convolver.drain(&mut out);
    assert_eq!(out, vec![ONE]);
    convolver.set_kernel(&[7 * ONE]);
    convolver.reset();
    convolver.process(&[ONE; 4], &mut out);
    assert_eq!(out, vec![ONE; 5]);
    assert_eq!(convolver.latency_frames(), 0);
}

#[test]
fn a_partial_frame_is_dropped() {
    let mut convolver = StereoConvolver::<Fixed>::new(&[ONE], 1, 2);
    let mut out = Vec::new();
    convolver.process(&[ONE, 2 * ONE, 3 * ONE], &mut out);
    assert_eq!(out, vec![ONE, 2 * ONE]);
}

#[test]
fn short_hann_windows_are_ones() {
    assert!(hann::<Fixed>(0).is_empty());
    assert_eq!(hann::<Fixed>(1), vec![ONE]);
    assert!(hann_periodic::<Fixed>(0).is_empty());
    assert_eq!(hann_periodic::<Fixed>(4), vec![0, ONE / 2, ONE, ONE / 2]);
    assert_eq!(hann::<Fixed>(3), vec![0, ONE, 0]);
}

#[test]
fn a_longer_kernel_finds_the_input_it_needs() {
    // One tap, then a delay by three: past the one-block fade every frame is
    // the convolution of the whole stream.
    let mut convolver = StereoConvolver::<Fixed>::new(&[ONE], 1, 1);
    let mut out = Vec::new();
    convolver.process(&[ONE, ONE, ONE, ONE], &mut out);
    convolver.set_kernel(&[0, 0, 0, ONE]);
    convolver.process(&[0, 0, 0, 0], &mut out);
    assert_eq!(out[..4], [ONE; 4]);
    assert_eq!(out[5..], [ONE, ONE, 0], "frames five and six still hear the ones");
}

#[test]
fn a_kernel_of_any_length_finds_the_input_it_needs() {
    let mut delay = vec![0; 300];
    delay[299] = ONE;
    let mut convolver = StereoConvolver::<Fixed>::new(&[ONE], 1, 1);
    let mut out = Vec::new();
    let input: Vec<i64> = (1..=400).map(|i| i * ONE).collect();
    convolver.process(&input[..350], &mut out);
    convolver.set_kernel(&delay);
    convolver.process(&input[350..], &mut out);
    assert_eq!(out[..350], input[..350]);
    assert_eq!(out[351..], input[52..101]);
}

#[test]
fn a_convolver_may_remember_less() {
    let mut convolver = StereoConvolver::<Fixed>::remembering(&[ONE], 1, 1, 4);
    let mut out = Vec::new();
    let input: Vec<i64> = (1..=30).map(|i| i * ONE).collect();
    convolver.process(&input[..20], &mut out);
    convolver.set_kernel(&[0, 0, 0, ONE]);
    convolver.process(&input[20..], &mut out);
    assert_eq!(out[..20], input[..20]);
    assert_eq!(out[21..], input[18..27], "four taps are remembered for");
}

#[test]
fn an_exchange_to_a_longer_kernel_is_exact_past_the_fade() {
    let (short, long) = (noise(10, 21), noise(5 * BLOCK + 7, 22));
    let input = noise(BLOCK * 20, 23);
    let mut convolver = StereoConvolver::<Float>::new(&short, BLOCK, 1);
    let mut out = Vec::new();
    convolver.process(&input[..BLOCK * 12], &mut out);
    convolver.set_kernel(&long);
    convolver.process(&input[BLOCK * 12..], &mut out);
    convolver.drain(&mut out);

    let reference = naive(&input, &long);
    let from = BLOCK * 13;
    let max = out[from..]
        .iter()
        .zip(&reference[from..])
        .map(|(a, b)| (a - b).abs())
        .fold(0.0f32, f32::max);
    assert_eq!(out.len(), reference.len());
    assert!(max < 1e-4, "past the fade the output is the new kernel's: {max}");
}

#[test]
fn fixed_point_windows_sum_flat_and_vanish_at_their_ends() {
    let window = hann_periodic::<Fixed>(48);
    for i in 0..24 {
        assert_eq!(window[i] + window[i + 24], ONE, "{i}");
    }
    let window = hann::<Fixed>(9);
    assert_eq!((window[0], window[4], window[8]), (0, ONE, 0));
}
