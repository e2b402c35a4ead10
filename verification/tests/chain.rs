//! The timeline, and the chain's plumbing with toy effects.
use std::cell::Cell;
use std::rc::Rc;

use audio_stack_rs::chain::{Chain, Effect, Repeater, Resample, UNITY};
use audio_stack_rs::timeline::Timeline;

// ── timeline ────────────────────────────────────────────────────────────────

/// A second of source time in ticks, at 100 frames to the second.
const SECOND: u128 = 100 * UNITY as u128;

fn timeline() -> Timeline {
    Timeline::new(SECOND)
}

/// Seconds as ticks.
fn ticks(secs: f64) -> u128 {
    (secs * SECOND as f64).round() as u128
}

/// Source seconds per device frame as a pace.
fn pace(secs: f64) -> u64 {
    ticks(secs) as u64
}

fn secs_at(timeline: &Timeline, frame: u64) -> Option<f64> {
    timeline.stream_secs(frame).map(|at| at as f64 / SECOND as f64)
}

#[test]
fn empty_timeline_falls_back() {
    let timeline = timeline();
    assert!(timeline.stream_secs(48_000).is_none());
}

#[test]
fn constant_ratio_interpolates_linearly() {
    let mut timeline = timeline();
    // Ratio 2.0 at 100 Hz: each device frame is 0.02 source seconds.
    timeline.record(1_000, ticks(10.0), pace(0.02));
    assert_eq!(secs_at(&timeline, 1_000), Some(10.0));
    let secs = secs_at(&timeline, 1_050).unwrap();
    assert!((secs - 11.0).abs() < 1e-9, "expected 11.0, got {secs}");
}

#[test]
fn ratio_change_mid_stream_keeps_position_exact() {
    let mut timeline = timeline();
    timeline.record(0, ticks(0.0), pace(0.02)); // 2x for 100 frames
    timeline.record(100, ticks(2.0), pace(0.01)); // back to 1x
    let secs = secs_at(&timeline, 150).unwrap();
    assert!((secs - 2.5).abs() < 1e-9, "expected 2.5, got {secs}");
}

#[test]
fn position_is_monotonic_across_a_ratio_change() {
    let mut timeline = timeline();
    timeline.record(0, ticks(0.0), pace(0.02));
    timeline.record(100, ticks(2.0), pace(0.005));
    timeline.record(300, ticks(3.0), pace(0.02));
    let mut last = f64::MIN;
    for frame in 0..500 {
        let secs = secs_at(&timeline, frame).unwrap();
        assert!(
            secs >= last,
            "position went backwards at frame {frame}: {secs} < {last}"
        );
        last = secs;
    }
}

#[test]
fn out_of_order_records_are_dropped_and_regressions_clamped() {
    let mut timeline = timeline();
    timeline.record(100, ticks(5.0), pace(0.01));
    timeline.record(50, ticks(1.0), pace(0.01)); // behind the last marker: dropped
    assert_eq!(secs_at(&timeline, 100), Some(5.0));
    timeline.record(200, ticks(1.0), pace(0.01)); // source time regressed: clamped up
    let secs = secs_at(&timeline, 200).unwrap();
    assert!(
        secs >= 5.0,
        "a clamped marker must not move source time backwards: {secs}"
    );
}

#[test]
fn frames_before_the_first_marker_are_uncovered() {
    let mut timeline = timeline();
    timeline.record(1_000, ticks(10.0), pace(0.02));
    assert!(
        timeline.stream_secs(999).is_none(),
        "audio before the first marker was 1:1 and belongs to the fallback"
    );
}

#[test]
fn pruning_keeps_the_marker_in_force() {
    let mut timeline = timeline();
    timeline.record(0, ticks(0.0), pace(0.02));
    timeline.record(100, ticks(2.0), pace(0.01));
    timeline.record(200, ticks(3.0), pace(0.04));
    timeline.prune(150);
    let secs = secs_at(&timeline, 150).unwrap();
    assert!(
        (secs - 2.5).abs() < 1e-9,
        "the marker covering 150 must survive pruning: {secs}"
    );
    assert!(timeline.stream_secs(50).is_none(), "behind the kept marker");
}

#[test]
fn steady_runs_coalesce_into_one_marker() {
    let mut timeline = timeline();
    // Same slope, projections within tolerance: one pump after another at a
    // steady ratio.
    timeline.record(0, ticks(0.0), pace(0.02));
    timeline.record(100, ticks(2.0001), pace(0.02));
    timeline.record(200, ticks(4.0002), pace(0.02));
    assert_eq!(timeline.len(), 1, "steady state keeps one marker");
}

#[test]
fn the_merging_tolerance_is_two_milliseconds() {
    let mut timeline = timeline();
    timeline.record(0, 0, pace(0.02));
    timeline.record(100, ticks(2.0) + SECOND / 500 - 1, pace(0.02));
    assert_eq!(timeline.len(), 1);
    timeline.record(100, ticks(2.0) + SECOND / 500 + 1, pace(0.02));
    assert_eq!(timeline.len(), 2, "past the tolerance a marker is kept");
    timeline.record(200, ticks(4.0), pace(0.03));
    assert_eq!(timeline.len(), 3, "another pace always is");
}

#[test]
fn clearing_forgets_every_marker() {
    let mut timeline = timeline();
    timeline.record(0, 0, pace(0.02));
    timeline.clear();
    assert_eq!(timeline.len(), 0);
    assert!(timeline.stream_secs(10).is_none());
}

#[test]
fn records_leave_the_past_alone() {
    let mut timeline = timeline();
    timeline.record(0, 0, pace(0.02));
    let before: Vec<Option<u128>> = (0..100).map(|f| timeline.stream_secs(f)).collect();
    timeline.record(100, ticks(7.0), pace(0.01));
    let after: Vec<Option<u128>> = (0..100).map(|f| timeline.stream_secs(f)).collect();
    assert_eq!(before, after);
    assert_eq!(timeline.stream_secs(100), Some(ticks(7.0)));
}

// ── chain ───────────────────────────────────────────────────────────────────

/// Toy stages, so that the plumbing is tested without any signal processing.
enum Toy {
    /// Emits every `factor`-th frame.
    Decimate {
        factor: usize,
        channels: usize,
        active: Rc<Cell<bool>>,
    },
    /// Holds everything back until drained: a stand-in for internal latency.
    HoldBack { held: Vec<f32>, channels: usize },
    /// Takes no audio, and no shape of four channels.
    Broken,
}

impl Effect for Toy {
    type Sample = f32;

    fn name(&self) -> &'static str {
        match self {
            Toy::Decimate { .. } => "decimate",
            Toy::HoldBack { .. } => "hold-back",
            Toy::Broken => "broken",
        }
    }
    fn is_active(&self) -> bool {
        match self {
            Toy::Decimate { active, .. } => active.get(),
            _ => true,
        }
    }
    fn is_bypassed(&self) -> bool {
        false
    }
    fn process(&mut self, input: &[f32], output: &mut Vec<f32>) -> Result<(), String> {
        match self {
            Toy::Decimate {
                factor, channels, ..
            } => {
                for frame in input.chunks_exact(*channels).step_by(*factor) {
                    output.extend_from_slice(frame);
                }
                Ok(())
            }
            Toy::HoldBack { held, .. } => {
                held.extend_from_slice(input);
                Ok(())
            }
            Toy::Broken => Err("out of order".to_string()),
        }
    }
    fn drain(&mut self, output: &mut Vec<f32>) -> Result<(), String> {
        match self {
            Toy::HoldBack { held, .. } => output.append(held),
            Toy::Broken => return Err("still out of order".to_string()),
            _ => {}
        }
        Ok(())
    }
    fn reset(&mut self) {
        if let Toy::HoldBack { held, .. } = self {
            held.clear();
        }
    }
    fn time_ratio(&self) -> u64 {
        match self {
            Toy::Decimate { factor, .. } => *factor as u64 * UNITY,
            _ => UNITY,
        }
    }
    fn pending_output_frames(&self) -> u64 {
        match self {
            Toy::HoldBack { held, channels } => (held.len() / channels) as u64,
            _ => 0,
        }
    }
    fn matches(&self, _rate: u32, channels: usize) -> bool {
        !(matches!(self, Toy::Broken) && channels == 4)
    }
    fn reconfigure(&mut self, _rate: u32, channels: usize) -> Result<(), String> {
        if matches!(self, Toy::Broken) && channels == 4 {
            return Err("too wide".to_string());
        }
        Ok(())
    }
    fn spawn_mirror(&self) -> Toy {
        match self {
            Toy::Decimate {
                factor,
                channels,
                active,
            } => Toy::Decimate {
                factor: *factor,
                channels: *channels,
                active: Rc::new(Cell::new(active.get())),
            },
            Toy::HoldBack { channels, .. } => Toy::HoldBack {
                held: Vec::new(),
                channels: *channels,
            },
            Toy::Broken => Toy::Broken,
        }
    }
}

fn decimate(factor: usize, active: bool) -> Toy {
    Toy::Decimate {
        factor,
        channels: 1,
        active: Rc::new(Cell::new(active)),
    }
}

fn hold_back() -> Toy {
    Toy::HoldBack {
        held: Vec::new(),
        channels: 1,
    }
}

fn configured(rate: u32, channels: usize) -> Chain<Toy> {
    let mut chain = Chain::new();
    chain.reconfigure(rate, channels).unwrap();
    chain
}

/// Where a chain at 100 frames to the second is, in seconds.
fn chain_secs(chain: &Chain<Toy>, frame: u64) -> Option<f64> {
    chain.stream_secs(frame).map(|at| at as f64 / SECOND as f64)
}

/// A straight-line resampler for two channels.
fn resampled(input: &[f32], from: usize, to: usize) -> Vec<f32> {
    let frames = input.len() / 2;
    let count = frames * to / from;
    let mut out = Vec::with_capacity(count * 2);
    for n in 0..count {
        let at = n * from;
        let (i, t) = (at / to, (at % to) as f32 / to as f32);
        for channel in 0..2 {
            let a = input[2 * i + channel];
            let b = input[2 * (i + 1).min(frames - 1) + channel];
            out.push(a + (b - a) * t);
        }
    }
    out
}

/// A resampler between two rates, stereo, that takes each call for itself.
struct StraightLine {
    from: usize,
    to: usize,
}

impl Resample<f32> for StraightLine {
    fn process(&mut self, input: &[f32], output: &mut Vec<f32>) -> Result<(), String> {
        if input.len() % 2 == 1 {
            output.push(0.0);
            return Err("half a frame".to_string());
        }
        output.extend(resampled(input, self.from, self.to));
        Ok(())
    }
}

#[test]
fn an_empty_chain_is_bit_transparent() {
    let mut chain = configured(48_000, 2);
    let input: Vec<f32> = (0..64).map(|n| n as f32 / 64.0).collect();
    let mut out = Vec::new();
    chain.process(&input, &mut out, 0).unwrap();
    assert_eq!(out, input, "no effects must mean identical bytes");
    assert!(chain.stream_secs(32).is_none(), "and no markers");
}

#[test]
fn an_empty_chain_defers_to_the_resampler_untouched() {
    let input: Vec<f32> = (0..4096).map(|n| (n as f32 * 0.01).sin()).collect();
    let mut resampler_a = StraightLine { from: 44_100, to: 48_000 };
    let mut resampler_b = StraightLine { from: 44_100, to: 48_000 };
    let mut expected = Vec::new();
    resampler_a.process(&input, &mut expected).unwrap();

    let mut chain = configured(48_000, 2);
    let mut out = Vec::new();
    chain
        .process_resampled(&mut resampler_b, &input, &mut out, 0)
        .unwrap();

    assert_eq!(out, expected, "the chain must not touch resampled audio");
    assert!(chain.stream_secs(32).is_none(), "and no markers");
}

#[test]
fn an_engaged_effect_shapes_audio_and_records_a_marker() {
    let mut chain = configured(100, 1);
    chain.push(decimate(2, true));

    let input = vec![0.5f32; 100]; // one source second at 100 Hz
    let mut out = Vec::new();
    chain.process(&input, &mut out, 0).unwrap();

    assert_eq!(out.len(), 50, "ratio 2 halves the frame count");
    let secs = chain_secs(&chain, 25).unwrap();
    assert!(
        (secs - 0.5).abs() < 1e-9,
        "25 device frames at 2x cover 0.5 source seconds, got {secs}"
    );
}

#[test]
fn markers_anchor_to_the_ring_position() {
    let mut chain = configured(100, 1);
    chain.push(decimate(2, true));

    // 300 frames already in the ring timeline, 10 more waiting in `out`.
    let mut out = vec![0.0f32; 10];
    chain.process(&[0.5f32; 100], &mut out, 300).unwrap();

    assert!(
        chain.stream_secs(309).is_none(),
        "audio queued before this run stays on the fallback"
    );
    let secs = chain_secs(&chain, 310).unwrap();
    assert!(
        (secs - 3.1).abs() < 1e-9,
        "the run starts at frame 310 = 3.1 source seconds, got {secs}"
    );
}

#[test]
fn one_to_one_audio_after_an_engaged_run_corrects_the_slope() {
    let mut chain = configured(100, 1);
    let active = Rc::new(Cell::new(true));
    chain.push(Toy::Decimate {
        factor: 2,
        channels: 1,
        active: active.clone(),
    });
    let mut out = Vec::new();
    chain.process(&[0.5f32; 100], &mut out, 0).unwrap();

    // The effect goes away without a reset, and 1:1 audio follows: its slope
    // must be recorded, not extrapolated from 2x.
    active.set(false);
    let before = out.len() as u64;
    chain.process(&[0.5f32; 50], &mut out, 0).unwrap();

    let at_join = chain_secs(&chain, before).unwrap();
    let later = chain_secs(&chain, before + 50).unwrap();
    assert!(
        (later - at_join - 0.5).abs() < 1e-9,
        "50 one-to-one frames must advance 0.5 source seconds, got {}",
        later - at_join
    );
}

#[test]
fn drain_cascades_through_downstream_effects() {
    let mut chain = configured(100, 1);
    chain.push(hold_back());
    chain.push(decimate(2, true));

    let mut out = Vec::new();
    chain.process(&[0.5f32; 100], &mut out, 0).unwrap();
    assert!(out.is_empty(), "everything is held upstream");
    assert_eq!(chain.pending_output_frames(), 100);

    chain.drain(&mut out).unwrap();
    assert_eq!(
        out.len(),
        50,
        "the held tail must come out through the decimator"
    );

    let before = out.len();
    chain.drain(&mut out).unwrap();
    assert_eq!(out.len(), before, "a second drain is a no-op");
}

#[test]
fn reset_drops_audio_state_and_inactive_effects() {
    let mut chain = configured(100, 1);
    chain.push(hold_back());
    chain.push(decimate(2, false));

    let mut out = Vec::new();
    chain.process(&[0.5f32; 40], &mut out, 0).unwrap();
    chain.reset();

    assert_eq!(chain.len(), 1, "the inactive effect is retired");
    assert_eq!(chain.pending_output_frames(), 0, "held audio is gone");
    assert!(chain.stream_secs(10).is_none(), "the timeline starts over");
}

#[test]
fn a_mirror_carries_settings_but_records_no_markers() {
    let mut chain = configured(100, 1);
    chain.push(decimate(2, true));

    let mut mirror = chain.spawn_mirror();
    let mut out = Vec::new();
    mirror.process(&[0.5f32; 100], &mut out, 0).unwrap();
    assert_eq!(out.len(), 50, "the mirror shapes audio like what it mirrors");
    assert!(mirror.stream_secs(25).is_none(), "but records nothing");

    mirror.adopt_timeline();
    let mut adopted_out = Vec::new();
    mirror
        .process(&[0.5f32; 100], &mut adopted_out, 1_000)
        .unwrap();
    assert!(
        mirror.stream_secs(1_020).is_some(),
        "adoption starts the timeline"
    );
}

#[test]
fn time_ratio_multiplies_engaged_effects_only() {
    let mut chain = configured(100, 1);
    assert_eq!(chain.time_ratio(), UNITY);
    chain.push(decimate(2, true));
    chain.push(decimate(3, false));
    assert_eq!(
        chain.time_ratio(),
        2 * UNITY,
        "the inactive effect must not count"
    );
}

#[test]
fn ratios_of_engaged_effects_multiply() {
    let mut chain = configured(100, 1);
    chain.push(decimate(2, true));
    chain.push(decimate(3, true));
    assert_eq!(chain.time_ratio(), 6 * UNITY);
    assert!(chain.engaged());

    let mut out = Vec::new();
    let input: Vec<f32> = (0..12).map(|n| n as f32).collect();
    chain.process(&input, &mut out, 0).unwrap();
    assert_eq!(out, [0.0, 6.0]);
}

#[test]
fn a_failing_effect_is_named() {
    let mut chain = configured(100, 1);
    chain.push(Toy::Broken);
    let mut out = vec![0.25f32];
    let message = chain.process(&[0.5], &mut out, 0).unwrap_err();
    assert_eq!(message, "broken: out of order");
    assert_eq!(out, [0.25], "a failed pass puts out nothing");
    let message = chain.drain(&mut out).unwrap_err();
    assert_eq!(message, "broken: still out of order");
}

#[test]
fn a_failing_rebuild_is_named_and_the_others_are_rebuilt() {
    let mut chain = configured(100, 1);
    chain.push(Toy::Broken);
    chain.push(decimate(2, true));
    let message = chain.reconfigure(100, 4).unwrap_err();
    assert_eq!(message, "broken: too wide");
    assert_eq!(chain.len(), 2);
}

#[test]
fn steady_runs_of_a_chain_keep_one_line() {
    let mut chain = configured(100, 1);
    chain.push(decimate(2, true));
    let mut out = Vec::new();
    for _ in 0..5 {
        chain.process(&[0.5f32; 100], &mut out, 0).unwrap();
    }
    for frame in 0..250u64 {
        assert_eq!(chain.stream_secs(frame), Some(frame as u128 * 2 * UNITY as u128));
    }
    chain.prune_timeline(200);
    assert_eq!(chain.stream_secs(200), Some(400 * UNITY as u128));
}

#[test]
fn audio_after_a_drain_can_be_drained_again() {
    let mut chain = configured(100, 1);
    chain.push(hold_back());
    let mut out = Vec::new();
    chain.process(&[1.0, 2.0], &mut out, 0).unwrap();
    chain.drain(&mut out).unwrap();
    chain.process(&[3.0], &mut out, 0).unwrap();
    chain.drain(&mut out).unwrap();
    assert_eq!(out, [1.0, 2.0, 3.0]);
}

#[test]
fn effects_can_be_reached_in_order() {
    let mut chain: Chain<Toy> = Chain::default();
    chain.push(hold_back());
    chain.push(decimate(2, true));
    assert_eq!(chain.effect(0).name(), "hold-back");
    assert_eq!(chain.effect_mut(1).name(), "decimate");
    assert!(!Chain::<Toy>::new().engaged());
}

#[test]
fn a_position_never_goes_back() {
    // A run at a second to the frame, then a record from far behind it.
    let mut timeline = Timeline::new(100);
    timeline.record(100, 500, 1);
    timeline.record(200, 100, 1);
    assert_eq!(timeline.stream_secs(199), Some(599));
    assert_eq!(timeline.stream_secs(200), Some(600));
    timeline.record(200, 0, 0);
    assert_eq!(timeline.stream_secs(200), Some(600));
    timeline.record(300, 1, 5);
    let mut last = 0;
    for frame in 100..400 {
        let at = timeline.stream_secs(frame).unwrap();
        assert!(at >= last, "frame {frame}: {at} after {last}");
        last = at;
    }
    assert_eq!(last, 600 + 99 * 5);
}

#[test]
fn resampled_audio_goes_on_through_the_effects() {
    let mut chain = configured(100, 1);
    chain.push(decimate(2, true));
    let mut doubler = Repeater::new(1, 4);
    let mut out = Vec::new();
    chain
        .process_resampled(&mut doubler, &[1.0, 2.0, 3.0], &mut out, 0)
        .unwrap();
    assert_eq!(out, [1.0, 1.0, 2.0, 2.0, 3.0, 3.0]);
    assert_eq!(chain.stream_secs(3), Some(6 * UNITY as u128), "counted at device rate");
}

#[test]
fn a_failing_resampler_is_heard_as_it_is() {
    let mut resampler = StraightLine { from: 1, to: 1 };
    let mut idle = configured(100, 2);
    let mut out = Vec::new();
    let message = idle
        .process_resampled(&mut resampler, &[0.5], &mut out, 0)
        .unwrap_err();
    assert_eq!(message, "half a frame");
    assert_eq!(out, [0.0], "what the resampler put out before it failed");

    let mut busy = configured(100, 2);
    busy.push(decimate(2, true));
    let message = busy
        .process_resampled(&mut resampler, &[0.5], &mut out, 0)
        .unwrap_err();
    assert_eq!(message, "half a frame");
    assert_eq!(out, [0.0]);
}

#[test]
fn frames_are_repeated_whole() {
    let mut out = vec![9];
    Repeater::new(2, 2).process(&[1, 2, 3, 4, 5], &mut out).unwrap();
    assert_eq!(out, [9, 1, 2, 1, 2, 3, 4, 3, 4]);
}

#[test]
fn an_idle_chain_needs_no_room_for_its_marks() {
    let mut chain = configured(48_000, 1);
    let mut out = vec![0.0f32; 10];
    assert!(chain.has_room(u64::MAX, out.len()), "nothing is marked");
    chain.process(&[0.5f32; 4], &mut out, u64::MAX).unwrap();
    assert_eq!(out.len(), 14);
    assert!(chain_secs(&chain, u64::MAX).is_none());
    chain.push(decimate(2, true));
    assert!(!chain.has_room(u64::MAX, out.len()));
    assert!(chain.has_room(u64::MAX - 14, out.len()));
}
