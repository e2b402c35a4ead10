//! The rack: an effect out of stock does what that effect does.
use vstd::prelude::*;

use crate::chain::{added_built, live, settled, Effect};
use crate::convolution::Convolution;
use crate::fireq::{FirEq, GainSource};
use crate::laws::chaining::{active_effects_stay_in_their_order, the_active};
use crate::pitch::PitchShift;
use crate::rack::{convolution_of, fir_eq_of, pitch_shift_of, time_stretch_of, Stock, Studio};
use crate::stretch::TimeStretch;

verus! {

/// Time stretch in a rack plays, drains, resets, builds and is mirrored as time
/// stretch.
pub proof fn a_stocked_stretch_stretches<N: Studio, G: GainSource<N>>(
    a: TimeStretch<N>,
    b: Stock<N, G>,
    input: Seq<N::Sample>,
    output: Seq<N::Sample>,
    rate: u32,
    channels: usize,
    result: Result<(), Seq<char>>,
)
    ensures
        ({
            let s = Stock::<N, G>::TimeStretch(a);
            &&& s.label() == a.label() && s.active() == a.active() && s.bypassed() == a.bypassed()
            &&& s.ratio() == a.ratio() && s.pending() == a.pending()
            &&& s.fits(rate, channels) == a.fits(rate, channels)
            &&& Stock::processed(s, input, b, output, result) <==> (b matches Stock::TimeStretch(t)
                && TimeStretch::processed(a, input, t, output, result))
            &&& Stock::flushed(s, b, output, result) <==> (b matches Stock::TimeStretch(t)
                && TimeStretch::flushed(a, t, output, result))
            &&& Stock::restarted(s, b) <==> (b matches Stock::TimeStretch(t)
                && TimeStretch::restarted(a, t))
            &&& Stock::rebuilt(s, rate, channels, b, result) <==> (b matches Stock::TimeStretch(t)
                && TimeStretch::rebuilt(a, rate, channels, t, result))
            &&& Stock::mirrored(s, b) <==> (b matches Stock::TimeStretch(t)
                && TimeStretch::mirrored(a, t))
        }),
{
}

/// The equaliser in a rack plays, drains, resets, builds and is mirrored as the
/// equaliser.
pub proof fn a_stocked_equaliser_equalises<N: Studio, G: GainSource<N>>(
    a: FirEq<N, G>,
    b: Stock<N, G>,
    input: Seq<N::Sample>,
    output: Seq<N::Sample>,
    rate: u32,
    channels: usize,
    result: Result<(), Seq<char>>,
)
    ensures
        ({
            let s = Stock::<N, G>::FirEq(a);
            &&& s.label() == a.label() && s.active() == a.active() && s.bypassed() == a.bypassed()
            &&& s.ratio() == a.ratio() && s.pending() == a.pending()
            &&& s.fits(rate, channels) == a.fits(rate, channels)
            &&& Stock::processed(s, input, b, output, result) <==> (b matches Stock::FirEq(t)
                && FirEq::processed(a, input, t, output, result))
            &&& Stock::flushed(s, b, output, result) <==> (b matches Stock::FirEq(t)
                && FirEq::flushed(a, t, output, result))
            &&& Stock::restarted(s, b) <==> (b matches Stock::FirEq(t) && FirEq::restarted(a, t))
            &&& Stock::rebuilt(s, rate, channels, b, result) <==> (b matches Stock::FirEq(t)
                && FirEq::rebuilt(a, rate, channels, t, result))
            &&& Stock::mirrored(s, b) <==> (b matches Stock::FirEq(t) && FirEq::mirrored(a, t))
        }),
{
}

/// Convolution in a rack plays, drains, resets, builds and is mirrored as
/// convolution.
pub proof fn a_stocked_room_convolves<N: Studio, G: GainSource<N>>(
    a: Convolution<N>,
    b: Stock<N, G>,
    input: Seq<N::Sample>,
    output: Seq<N::Sample>,
    rate: u32,
    channels: usize,
    result: Result<(), Seq<char>>,
)
    ensures
        ({
            let s = Stock::<N, G>::Convolution(a);
            &&& s.label() == a.label() && s.active() == a.active() && s.bypassed() == a.bypassed()
            &&& s.ratio() == a.ratio() && s.pending() == a.pending()
            &&& s.fits(rate, channels) == a.fits(rate, channels)
            &&& Stock::processed(s, input, b, output, result) <==> (b matches Stock::Convolution(t)
                && Convolution::processed(a, input, t, output, result))
            &&& Stock::flushed(s, b, output, result) <==> (b matches Stock::Convolution(t)
                && Convolution::flushed(a, t, output, result))
            &&& Stock::restarted(s, b) <==> (b matches Stock::Convolution(t)
                && Convolution::restarted(a, t))
            &&& Stock::rebuilt(s, rate, channels, b, result) <==> (b matches Stock::Convolution(t)
                && Convolution::rebuilt(a, rate, channels, t, result))
            &&& Stock::mirrored(s, b) <==> (b matches Stock::Convolution(t)
                && Convolution::mirrored(a, t))
        }),
{
}

/// Pitch shift in a rack plays, drains, resets, builds and is mirrored as pitch
/// shift.
pub proof fn a_stocked_shift_shifts<N: Studio, G: GainSource<N>>(
    a: PitchShift<N>,
    b: Stock<N, G>,
    input: Seq<N::Sample>,
    output: Seq<N::Sample>,
    rate: u32,
    channels: usize,
    result: Result<(), Seq<char>>,
)
    ensures
        ({
            let s = Stock::<N, G>::PitchShift(a);
            &&& s.label() == a.label() && s.active() == a.active() && s.bypassed() == a.bypassed()
            &&& s.ratio() == a.ratio() && s.pending() == a.pending()
            &&& s.fits(rate, channels) == a.fits(rate, channels)
            &&& Stock::processed(s, input, b, output, result) <==> (b matches Stock::PitchShift(t)
                && PitchShift::processed(a, input, t, output, result))
            &&& Stock::flushed(s, b, output, result) <==> (b matches Stock::PitchShift(t)
                && PitchShift::flushed(a, t, output, result))
            &&& Stock::restarted(s, b) <==> (b matches Stock::PitchShift(t)
                && PitchShift::restarted(a, t))
            &&& Stock::rebuilt(s, rate, channels, b, result) <==> (b matches Stock::PitchShift(t)
                && PitchShift::rebuilt(a, rate, channels, t, result))
            &&& Stock::mirrored(s, b) <==> (b matches Stock::PitchShift(t)
                && PitchShift::mirrored(a, t))
        }),
{
}

/// A rack without an effect reads as one where it is off: at normal speed, with no
/// delay, dry and unshifted.
pub proof fn an_empty_rack_is_off<N: Studio, G: GainSource<N>>(rate: u32)
    ensures
        time_stretch_of(Seq::<Stock<N, G>>::empty()) == (false, 0x1_0000_0000u64),
        fir_eq_of(Seq::<Stock<N, G>>::empty(), rate) == (false, 0u64),
        convolution_of(Seq::<Stock<N, G>>::empty()) == (false, 0u64),
        pitch_shift_of(Seq::<Stock<N, G>>::empty()) == (false, 0i64),
{
}

/// Settling an effect that was set leaves all others as they are and where they
/// are, but for those that are no longer active, which go. An effect that is on but
/// does not run yet is built where the device is known; a build that fails is
/// reported, and nothing goes.
pub proof fn settling_leaves_the_others_alone<E: Effect>(
    before: Seq<E>,
    i: int,
    enabled: bool,
    rate: u32,
    channels: usize,
    after: Seq<E>,
    result: Result<(), Seq<char>>,
)
    requires
        settled(before, i, enabled, rate, channels, after, result),
        0 <= i < before.len(),
    ensures
        exists|one: E|
            {
                &&& if enabled && before[i].bypassed() && rate > 0 && channels > 0 {
                    E::rebuilt(before[i], rate, channels, one, result)
                } else {
                    one == before[i] && result is Ok
                }
                &&& result is Ok ==> after == the_active(#[trigger] before.update(i, one))
                &&& result is Err ==> after == before.update(i, one)
            },
{
    if enabled && before[i].bypassed() && rate > 0 && channels > 0 {
        let built = choose|built: E|
            {
                &&& #[trigger] E::rebuilt(before[i], rate, channels, built, result)
                &&& after == if result is Ok {
                    live(before.update(i, built))
                } else {
                    before.update(i, built)
                }
            };
        active_effects_stay_in_their_order(before.update(i, built));
    } else {
        assert(before.update(i, before[i]) =~= before);
        active_effects_stay_in_their_order(before.update(i, before[i]));
    }
}

/// An effect that is added goes behind all others, built where the device is known,
/// and those that are no longer active go. Where it could not be built, nothing
/// changes.
pub proof fn an_added_effect_goes_last<E: Effect>(
    before: Seq<E>,
    effect: E,
    rate: u32,
    channels: usize,
    after: Seq<E>,
    result: Result<(), Seq<char>>,
)
    requires
        added_built(before, effect, rate, channels, after, result),
    ensures
        exists|one: E|
            {
                &&& if rate > 0 && channels > 0 {
                    E::rebuilt(effect, rate, channels, one, result)
                } else {
                    one == effect && result is Ok
                }
                &&& result is Ok ==> after == the_active(#[trigger] before.push(one))
                &&& result is Err ==> after == before
            },
{
    if rate > 0 && channels > 0 {
        let built = choose|built: E|
            {
                &&& #[trigger] E::rebuilt(effect, rate, channels, built, result)
                &&& after == if result is Ok {
                    live(before.push(built))
                } else {
                    before
                }
            };
        active_effects_stay_in_their_order(before.push(built));
    } else {
        active_effects_stay_in_their_order(before.push(effect));
    }
}

} // verus!
