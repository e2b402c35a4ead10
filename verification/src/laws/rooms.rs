//! Rooms: what a click makes them play, and how a recording of one is taken over.
use vstd::prelude::*;

use crate::convolution::{frame_between, frames_at, lane_at, response_at, IrLoader, Resampling};
use crate::convolution::SourceIr;
use crate::frames::channel_of;
use crate::numeric::{cut_quotient, the_fixed_circle_falls_and_rises, Exact, Fixed, Numeric};
use crate::numeric::FIXED_ONE;
use crate::spectral::{a_drained_stream_is_complete, convolved, crossfaded, sample_at, stream};
use crate::spectral::tail;

verus! {

/// Silence of `n` samples but for one at `at`.
pub open spec fn click(at: int, n: nat) -> Seq<i64> {
    Seq::new(
        n,
        |i: int|
            if i == at {
                FIXED_ONE
            } else {
                0
            },
    )
}

proof fn lemma_click(taps: Seq<i64>, at: int, n: nat, t: int, k: nat)
    requires
        0 <= at < n,
        k <= taps.len(),
    ensures
        convolved::<Fixed>(taps, click(at, n), t, k) == if at <= t < at + k {
            taps[t - at]
        } else {
            0
        },
    decreases k,
{
    if k > 0 {
        lemma_click(taps, at, n, t, (k - 1) as nat);
        let tap = taps[k - 1];
        let there = sample_at::<Fixed>(click(at, n), t - (k - 1));
        assert(tap * FIXED_ONE / (FIXED_ONE as int) == tap);
        assert((-tap) * FIXED_ONE / (FIXED_ONE as int) == -tap);
        assert(cut_quotient(tap * FIXED_ONE, FIXED_ONE as int) == tap);
        assert(tap * 0 == 0);
        assert(there == if t - (k - 1) == at {
            FIXED_ONE
        } else {
            0
        });
    }
}

/// A click makes a room play its whole response, tap by tap, from the very sample
/// of the click on, and nothing else: however the audio is cut into blocks, and
/// with what is drained at the end.
pub proof fn a_click_plays_the_response(taps: Seq<i64>, at: int, n: nat, block: nat, t: int)
    requires
        block > 0,
        taps.len() > 0,
        0 <= at < n,
        0 <= t < n + taps.len() - 1,
    ensures
        ({
            let heard = stream::<Fixed>(taps, click(at, n), 0, block, 0, n / block) + tail::<
                Fixed,
            >(taps, click(at, n), 0, block);
            &&& heard.len() == n + taps.len() - 1
            &&& heard[t] == if at <= t < at + taps.len() {
                taps[t - at]
            } else {
                0
            }
        }),
{
    a_drained_stream_is_complete::<Fixed>(taps, click(at, n), block);
    lemma_click(taps, at, n, t, taps.len());
}

/// While one response gives way to another, sample by sample the old one is heard
/// less and the new one more. The fade begins on the old one alone.
pub proof fn the_old_gives_way_to_the_new(n: nat, i: int, j: int)
    requires
        0 <= i <= j < n,
    ensures
        ({
            let ones = Seq::new(n, |k: int| FIXED_ONE);
            let none = Seq::new(n, |k: int| 0i64);
            let leaving = crossfaded::<Fixed>(ones, none);
            let coming = crossfaded::<Fixed>(none, ones);
            &&& leaving.len() == n && coming.len() == n
            &&& 0 <= leaving[j] <= leaving[i] <= FIXED_ONE
            &&& 0 <= coming[i] <= coming[j] <= FIXED_ONE
            &&& leaving[0] == FIXED_ONE && coming[0] == 0
            &&& 2 * i == n ==> leaving[i] == coming[i]
        }),
{
    lemma_fade_gain(n, i);
    lemma_fade_gain(n, j);
    lemma_fade_gain(n, 0);
    the_fixed_circle_falls_and_rises(i as nat, j as nat, n);
    Fixed::circle_starts_at_one(4 * n);
    if 2 * i == n {
        lemma_half_way(i as nat, n);
    }
}

proof fn lemma_half_way(i: nat, n: nat)
    requires
        n > 0,
        2 * i == n,
    ensures
        Fixed::circle_point(i, 4 * n).0 == Fixed::circle_point(i, 4 * n).1,
{
    crate::numeric::lemma_first_quarter(i, n);
    let one: int = FIXED_ONE as int;
    assert(i * one == n * 0x8000_0000) by (nonlinear_arith)
        requires
            2 * i == n,
            one == 2 * 0x8000_0000,
    ;
    vstd::arithmetic::div_mod::lemma_div_multiples_vanish(0x8000_0000, n as int);
    crate::curves::lemma_octant_point(0x8000_0000, 0x8000_0000);
}

proof fn lemma_fade_gain(n: nat, i: int)
    requires
        0 <= i < n,
    ensures
        ({
            let ones = Seq::new(n, |k: int| FIXED_ONE);
            let none = Seq::new(n, |k: int| 0i64);
            let (out, into) = Fixed::circle_point(i as nat, 4 * n);
            &&& crossfaded::<Fixed>(ones, none)[i] == out
            &&& crossfaded::<Fixed>(none, ones)[i] == into
        }),
{
    let (out, into) = Fixed::circle_point(i as nat, 4 * n);
    the_fixed_circle_falls_and_rises(i as nat, i as nat, n);
    assert(FIXED_ONE * out / (FIXED_ONE as int) == out);
    assert(FIXED_ONE * into / (FIXED_ONE as int) == into);
    assert(0 * out == 0 && 0 * into == 0);
}

/// At another rate a frame is read where it falls in time: at a frame of the
/// recording it is that frame, and past it, it lies on the straight line to the
/// next, as far along as it falls between the two.
pub proof fn a_frame_is_read_where_it_falls(lane: Seq<i64>, from: u32, to: u32, i: int, at: int)
    requires
        0 < from,
        0 < to,
        0 <= i,
        0 <= at,
        at + 1 < lane.len(),
        at * to <= i * from < (at + 1) * to,
        -0x100_0000_0000 <= lane[at] <= 0x100_0000_0000,
        -0x100_0000_0000 <= lane[at + 1] <= 0x100_0000_0000,
    ensures
        ({
            let read = frame_between(lane, from, to, i);
            let past = i * from - at * to;
            let line = lane[at] * to + (lane[at + 1] - lane[at]) * past;
            &&& past == 0 ==> read == lane[at]
            &&& -514 * to <= read * to - line <= 514 * to
        }),
{
    let past = i * from - at * to;
    let t = to as int;
    assert((at + 1) * t == at * t + t && at * t == t * at) by (nonlinear_arith);
    vstd::arithmetic::div_mod::lemma_fundamental_div_mod_converse(i * from, t, at, past);
    let one: int = FIXED_ONE as int;
    let share = past * one / t;
    vstd::arithmetic::div_mod::lemma_fundamental_div_mod(past * one, t);
    vstd::arithmetic::div_mod::lemma_mod_bound(past * one, t);
    assert(0 <= share < one && share * t <= past * one < share * t + t) by (nonlinear_arith)
        requires
            past * one == t * share + (past * one) % t,
            0 <= (past * one) % t < t,
            0 <= past < t,
            one > 0,
    {
        assert(past * one <= (t - 1) * one);
        if share >= one {
            assert(t * share >= t * one);
        }
        if share < 0 {
            assert(t * share <= -t);
        }
    }
    assert(Fixed::fraction_value(past as nat, to as nat) == share);
    let step = lane[at + 1] - lane[at];
    assert(Fixed::difference(lane[at + 1], lane[at]) == step);
    let n = share * step;
    let cut = cut_quotient(n, one);
    assert(-one < n - cut * one < one) by {
        let m = if n >= 0 {
            n
        } else {
            -n
        };
        vstd::arithmetic::div_mod::lemma_fundamental_div_mod(m, one);
    }
    assert(-0x200_0000_0000 <= step <= 0x200_0000_0000);
    assert(-0x200_0000_0000 * one <= n <= 0x200_0000_0000 * one) by (nonlinear_arith)
        requires
            n == share * step,
            0 <= share < one,
            -0x200_0000_0000 <= step <= 0x200_0000_0000,
    ;
    assert(-0x200_0000_0001 <= cut <= 0x200_0000_0001);
    let read = frame_between(lane, from, to, i);
    assert(read == lane[at] + cut);
    assert(past == 0 ==> share == 0 && n == 0) by (nonlinear_arith)
        requires
            n == share * step,
            share * t <= past * one,
            0 <= share,
            t > 0,
    ;
    let off = cut * t - step * past;
    assert(-513 * t <= off <= 513 * t) by (nonlinear_arith)
        requires
            off == cut * t - step * past,
            n == share * step,
            -one < n - cut * one < one,
            share * t <= past * one < share * t + t,
            -0x200_0000_0000 <= step <= 0x200_0000_0000,
            one == 0x1_0000_0000,
            t > 0,
    {
        let rest = past * one - share * t;
        assert(off * one == (cut * one) * t - step * (past * one));
        assert(step * (past * one) == step * (share * t) + step * rest);
        assert((cut * one) * t == n * t - (n - cut * one) * t);
        assert(n * t == step * (share * t));
        assert(off * one == -((n - cut * one) * t) - step * rest);
        assert(-(one * t) <= (n - cut * one) * t <= one * t);
        assert(-(0x200_0000_0000 * t) <= step * rest <= 0x200_0000_0000 * t);
        assert(off * one <= one * t + 0x200_0000_0000 * t);
        assert(off * one >= -(one * t + 0x200_0000_0000 * t));
        assert(one * t + 0x200_0000_0000 * t == (513 * t) * one);
    }
    assert(read * t == lane[at] * t + cut * t) by (nonlinear_arith)
        requires
            read == lane[at] + cut,
    ;
}

/// At another rate a recording lasts as long, to within a frame, and each of its
/// channels is read on its own.
pub proof fn a_recording_lasts_as_long_at_any_rate(
    samples: Seq<i64>,
    from: u32,
    to: u32,
    channels: nat,
    c: int,
)
    requires
        0 < from,
        0 < to,
        0 <= c < channels,
    ensures
        Fixed::resampled(samples, from, to, channels) matches Ok(out) ==> {
            let frames = samples.len() / channels;
            let n = out.len() / channels;
            &&& n * from <= frames * to < (n + 1) * from
            &&& channel_of(out, channels, c) == Seq::new(
                n,
                |i: int| frame_between(channel_of(samples, channels, c), from, to, i),
            )
        },
{
    if let Ok(out) = Fixed::resampled(samples, from, to, channels) {
        let frames = samples.len() / channels;
        let n = frames_at(frames, from, to);
        let lanes = Seq::new(
            channels,
            |k: int| lane_at(channel_of(samples, channels, k), from, to, n),
        );
        vstd::arithmetic::div_mod::lemma_fundamental_div_mod(
            (frames * to as nat) as int,
            from as int,
        );
        vstd::arithmetic::div_mod::lemma_mod_bound((frames * to as nat) as int, from as int);
        assert(n * from == from * n) by (nonlinear_arith);
        assert((n + 1) * from == n * from + from) by (nonlinear_arith);
        crate::frames::parting_undoes_weaving(lanes, n, c);
        assert(out.len() == n * channels);
        vstd::arithmetic::div_mod::lemma_div_multiples_vanish(n as int, channels as int);
        assert(n * channels == channels * n) by (nonlinear_arith);
        assert(channel_of(out, channels, c) =~= lanes[c]);
    }
}

/// A recording that already has the device's rate is used as it is: the response
/// of channel `c` is every sample of that channel, in order.
pub proof fn a_recording_at_the_same_rate_is_left_alone<N: Resampling>(
    source: SourceIr<N::Sample>,
    c: int,
)
    requires
        0 <= c < source.channels(),
    ensures
        response_at::<N>(source, source.rate()) matches Ok(kernels) ==> {
            &&& kernels.len() == source.channels()
            &&& kernels[c] == Seq::new(
                source.samples().len() / source.channels() as nat,
                |i: int| source.samples()[i * source.channels() + c],
            )
        },
{
    if let Ok(kernels) = response_at::<N>(source, source.rate()) {
        assert(kernels[c] =~= Seq::new(
            source.samples().len() / source.channels() as nat,
            |i: int| source.samples()[i * source.channels() + c],
        ));
    }
}

/// No more than ten seconds of a recording are kept.
pub proof fn ten_seconds_are_kept<T: Copy>(loader: IrLoader<T>)
    ensures
        loader.cap() == 10 * loader.rate() * loader.channels(),
{
}

/// A recording at another rate is brought to the device's: the response of channel
/// `c` is that channel read again at the device's rate, over the same time.
pub proof fn a_recording_is_brought_to_the_rate(source: SourceIr<i64>, rate: u32, c: int)
    requires
        0 <= c < source.channels(),
        0 < source.rate(),
        0 < rate,
        rate != source.rate(),
    ensures
        response_at::<Fixed>(source, rate) matches Ok(kernels) ==> {
            let ch = source.channels() as nat;
            let lane = Seq::new(
                source.samples().len() / ch,
                |i: int| source.samples()[i * ch + c],
            );
            let n = kernels[c].len();
            &&& kernels.len() == ch
            &&& n * source.rate() <= lane.len() * rate < (n + 1) * source.rate()
            &&& kernels[c] == Seq::new(n, |i: int| frame_between(lane, source.rate(), rate, i))
        },
{
    if let Ok(kernels) = response_at::<Fixed>(source, rate) {
        let ch = source.channels() as nat;
        let lane = Seq::new(source.samples().len() / ch, |i: int| source.samples()[i * ch + c]);
        assert(lane =~= channel_of(source.samples(), ch, c));
        a_recording_lasts_as_long_at_any_rate(source.samples(), source.rate(), rate, ch, c);
        let out = Fixed::resampled(source.samples(), source.rate(), rate, ch)->Ok_0;
        assert(kernels[c] == channel_of(out, ch, c));
    }
}

} // verus!
