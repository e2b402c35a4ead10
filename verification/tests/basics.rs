//! Fixed-point arithmetic, interleaving, and how the engine's handle winds
//! down.
use audio_stack_rs::convolution::Resampling;
use audio_stack_rs::curves::angle_of;
use audio_stack_rs::events::{
    next_station_epoch, shutdown_step, station_is_current, Mode, SeekDirection, ShutdownStep,
    SHUTDOWN_WAIT_MS,
};
use audio_stack_rs::fireq::Voicing;
use audio_stack_rs::frames::{deinterleave, drop_front, filled, interleave, take_channel};
use audio_stack_rs::numeric::{Fixed, Numeric, FIXED_ONE, ROUNDNESS};
use audio_stack_rs::pitch::Vocoding;
use audio_stack_rs::transform::Spectral;

#[test]
fn fixed_point_products_are_cut_toward_zero() {
    let half = Fixed::fraction(1, 2);
    assert_eq!(half, FIXED_ONE / 2);
    assert_eq!(Fixed::times(half, half), FIXED_ONE / 4);
    assert_eq!(Fixed::times(-1, half), 0);
    assert_eq!(Fixed::times(3, half), 1);
    assert_eq!(Fixed::times(Fixed::one(), -77), -77);
}

#[test]
fn fixed_point_quotients_by_zero_are_zero() {
    assert_eq!(Fixed::over(3 * FIXED_ONE, 2 * FIXED_ONE), 3 * FIXED_ONE / 2);
    assert_eq!(Fixed::over(3 * FIXED_ONE, -2 * FIXED_ONE), -3 * FIXED_ONE / 2);
    assert_eq!(Fixed::over(FIXED_ONE, 0), 0);
}

#[test]
fn fixed_point_roots_are_exact_for_squares() {
    assert_eq!(Fixed::root(9 * FIXED_ONE), 3 * FIXED_ONE);
    assert_eq!(Fixed::root(FIXED_ONE / 4), FIXED_ONE / 2);
    assert_eq!(Fixed::root(-FIXED_ONE), 0);
    assert_eq!(Fixed::root(0), Fixed::zero());
}

#[test]
fn fixed_point_sums_regroup_and_cancel() {
    let (a, b, c) = (i64::MAX, 5, -9);
    assert_eq!(
        Fixed::plus(Fixed::plus(a, b), c),
        Fixed::plus(a, Fixed::plus(b, c))
    );
    assert_eq!(Fixed::minus(a, a), 0);
    assert!(Fixed::below(-1, 0) && !Fixed::below(0, 0));
}

#[test]
fn the_fixed_point_circle_is_exact_at_the_quarters() {
    assert_eq!(Fixed::circle(0, 8), (FIXED_ONE, 0));
    assert_eq!(Fixed::circle(2, 8), (0, FIXED_ONE));
    assert_eq!(Fixed::circle(4, 8), (-FIXED_ONE, 0));
    assert_eq!(Fixed::circle(6, 8), (0, -FIXED_ONE));
    assert_eq!(Fixed::circle(8, 8), (FIXED_ONE, 0));
    let (cosine, sine) = Fixed::circle(1, 8);
    assert!((cosine - sine).abs() <= 1);
    assert!((cosine as f64 / FIXED_ONE as f64 - 0.5f64.sqrt()).abs() < 1e-9);
}

#[test]
fn the_fixed_point_circle_is_symmetric() {
    for i in 0..=1_000u64 {
        let (c, s) = Fixed::circle(i, 1_000);
        assert_eq!(Fixed::circle(1_000 - i, 1_000), (c, -s), "{i}");
        if i <= 500 {
            assert_eq!(Fixed::circle(i + 500, 1_000), (-c, -s), "{i}");
        }
    }
}

#[test]
fn the_fixed_point_circle_is_round() {
    let one = FIXED_ONE as i128;
    for i in 0..=1_000u64 {
        let (c, s) = Fixed::circle(i, 1_000);
        let (c, s) = (c as i128, s as i128);
        assert!((c * c + s * s - one * one).abs() <= ROUNDNESS, "{i}");
    }
}

#[test]
fn fixed_point_angles_wrap_to_within_half_a_turn() {
    let half = FIXED_ONE / 2;
    assert_eq!(Fixed::wrap(half), half);
    assert_eq!(Fixed::wrap(-half), half);
    assert_eq!(Fixed::wrap(half + 1), 1 - half);
    assert_eq!(Fixed::wrap(5 * FIXED_ONE + 3), 3);
    assert_eq!(Fixed::wrap(-5 * FIXED_ONE - 3), -3);
    assert_eq!(Fixed::wrap(i64::MIN), 0);
}

#[test]
fn a_fixed_point_product_of_spectra_is_a_circular_convolution() {
    let one = FIXED_ONE;
    let mut plan = Fixed::plan(4);
    let a = Fixed::forward(&mut plan, &[one, 2 * one, 0, 0]);
    let b = Fixed::forward(&mut plan, &[0, one, 0, 3 * one]);
    let mut acc = Fixed::silence(&plan);
    Fixed::accumulate(&mut acc, &a, &b);
    assert_eq!(Fixed::inverse(&mut plan, acc), [6 * one, one, 2 * one, 3 * one]);
}

/// A fixed-point number as a float.
fn as_float(a: i64) -> f64 {
    a as f64 / FIXED_ONE as f64
}

#[test]
fn fixed_point_pitch_doubles_with_every_octave() {
    let cent = FIXED_ONE;
    assert_eq!(Fixed::pitch_ratio(0), FIXED_ONE as u64);
    assert_eq!(Fixed::pitch_ratio(1200 * cent), 2 * FIXED_ONE as u64);
    assert_eq!(Fixed::pitch_ratio(-1200 * cent), FIXED_ONE as u64 / 2);
    for cents in -1200..=1200i64 {
        let ratio = as_float(Fixed::pitch_ratio(cents * cent) as i64);
        let exact = (cents as f64 / 1200.0).exp2();
        assert!((ratio - exact).abs() < 3e-8, "{cents}: {ratio} against {exact}");
    }
}

#[test]
fn fixed_point_decibels_are_logarithmic() {
    assert_eq!(Fixed::amplitude(0), FIXED_ONE);
    for db in -60..=60i64 {
        let gain = as_float(Fixed::amplitude(db * FIXED_ONE));
        let exact = 10f64.powf(db as f64 / 20.0);
        assert!((gain / exact - 1.0).abs() < 1e-6, "{db}: {gain} against {exact}");
    }
    assert_eq!(Fixed::amplitude(i64::MIN), 0);
    assert_eq!(Fixed::amplitude(500 * FIXED_ONE), i64::MAX);
}

#[test]
fn fixed_point_octaves_are_shared_out_evenly() {
    assert_eq!(Fixed::log_share(16_000, 1, 8_000, 16_000), FIXED_ONE);
    for hz in 33..=63u64 {
        let share = as_float(Fixed::log_share(hz * 4096, 4096, 32, 64));
        let exact = (hz as f64 / 32.0).log2();
        assert!((share - exact).abs() < 1e-8, "{hz}: {share} against {exact}");
    }
    let share = as_float(Fixed::log_share(90, 1, 64, 125));
    assert!((share - (90.0f64 / 64.0).ln() / (125.0f64 / 64.0).ln()).abs() < 1e-8);
}

#[test]
fn the_fixed_point_circle_has_the_right_angles() {
    for i in 0..=1_000u64 {
        let (c, s) = Fixed::circle(i, 1_000);
        let (sine, cosine) = (i as f64 * std::f64::consts::TAU / 1_000.0).sin_cos();
        assert!((as_float(c) - cosine).abs() < 2e-8 && (as_float(s) - sine).abs() < 2e-8, "{i}");
    }
}

#[test]
fn angles_are_measured_within_half_a_turn() {
    let one = FIXED_ONE;
    assert_eq!(angle_of(0, 0), 0);
    assert_eq!(angle_of(one, 0), 0);
    assert_eq!(angle_of(0, one), one / 4);
    assert_eq!(angle_of(-one, 0), one / 2);
    assert_eq!(angle_of(0, -one), -one / 4);
    for i in -499..=499i64 {
        let turn = i as f64 / 1_000.0;
        let (sine, cosine) = (turn * std::f64::consts::TAU).sin_cos();
        let (re, im) = ((cosine * one as f64) as i64, (sine * one as f64) as i64);
        assert!((as_float(angle_of(re, im)) - turn).abs() < 1e-8, "{i}");
    }
}

#[test]
fn fixed_point_bins_are_the_tones_of_the_window() {
    let one = FIXED_ONE;
    let size = 16;
    let window: Vec<i64> = (0..size as u64)
        .map(|i| Fixed::circle((3 * i) % 16, 16).0 / 2)
        .collect();
    let mut plan = Fixed::plan(size);
    let bins = Fixed::forward(&mut plan, &window);
    assert_eq!(Fixed::bins_of(size), 9);
    for k in 0..9 {
        let (magnitude, phase) = Fixed::polar(&bins, k);
        let expected = if k == 3 { 4.0 } else { 0.0 };
        assert!((as_float(magnitude) - expected).abs() < 1e-6, "{k}: {}", as_float(magnitude));
        assert!(k != 3 || as_float(phase).abs() < 1e-8);
    }
    let odd: Vec<i64> = (0..size as i64).map(|i| (i * i % 7 - 3) * one / 4).collect();
    let bins = Fixed::forward(&mut plan, &odd);
    let polar: Vec<(i64, i64)> = (0..9).map(|k| Fixed::polar(&bins, k)).collect();
    let whole = Fixed::assemble(polar, size);
    let back = Fixed::inverse(&mut plan, whole);
    for (a, b) in odd.iter().zip(&back) {
        assert!((as_float(*a) - as_float(*b)).abs() < 1e-6, "{} against {}", as_float(*a), as_float(*b));
    }
}

#[test]
fn fixed_point_resampling_reads_between_the_frames() {
    let one = FIXED_ONE;
    let up = Fixed::resample(&[0, 8 * one, one, 8 * one, 3 * one, 0], 2, 4, 2).unwrap();
    assert_eq!(
        up,
        [0, 8 * one, one / 2, 8 * one, one, 8 * one, 2 * one, 4 * one, 3 * one, 0, 3 * one, 0]
    );
    let down = Fixed::resample(&[0, one, 2 * one, 3 * one, 4 * one], 4, 2, 1).unwrap();
    assert_eq!(down, [0, 2 * one]);
}

#[test]
fn weaving_undoes_parting() {
    let audio = [1, 2, 3, 4, 5, 6, 7];
    let lanes = deinterleave(&audio, 3);
    assert_eq!(lanes, [[1, 4], [2, 5], [3, 6]]);
    assert_eq!(take_channel(&audio, 3, 1), [2, 5]);
    let mut back = vec![0];
    interleave(&lanes, 2, &mut back);
    assert_eq!(back, [0, 1, 2, 3, 4, 5, 6], "the partial frame is dropped");
}

#[test]
fn vectors_are_filled_and_shortened() {
    let mut v = filled(7u8, 3);
    assert_eq!(v, [7, 7, 7]);
    v.push(9);
    drop_front(&mut v, 3);
    assert_eq!(v, [9]);
}

#[test]
fn a_shutdown_waits_three_seconds_at_most() {
    assert_eq!(shutdown_step(true, 0), ShutdownStep::Join);
    assert_eq!(shutdown_step(true, 10_000), ShutdownStep::Join);
    assert_eq!(shutdown_step(false, 0), ShutdownStep::Wait);
    assert_eq!(shutdown_step(false, 2_999), ShutdownStep::Wait);
    assert_eq!(shutdown_step(false, 3_000), ShutdownStep::Abandon);
    assert_eq!(SHUTDOWN_WAIT_MS, 3_000);
}

#[test]
fn a_new_claim_retires_the_last_one() {
    let first = next_station_epoch(0);
    assert_eq!(first, 1);
    assert!(station_is_current(first, first));
    let second = next_station_epoch(first);
    assert!(!station_is_current(first, second));
    assert_eq!(next_station_epoch(u64::MAX), 0);
}

#[test]
fn modes_and_directions_can_be_told_apart() {
    assert_ne!(Mode::Idle, Mode::Local);
    assert_ne!(Mode::Local, Mode::Radio);
    assert_ne!(SeekDirection::Forward, SeekDirection::Backward);
}
