//! The effects that come with the library, in one chain.
use vstd::prelude::*;

use crate::chain::{added_built, all_mirrored, all_rebuilt, all_restarted, any_engages, blamed};
use crate::chain::{cascade_fails, cascades, combined_ratio, drain_stopped, drained_through};
use crate::chain::{engages, failed, fails_at, flushed_at, joined, live, outcome, passed};
use crate::chain::{same_places, settled, step, stopped, threads, Chain, Effect, UNITY};
use crate::convolution::{path_text, Convolution, Resampling, SourceIr};
use crate::fireq::{may_share, FirEq, GainSource, Voicing};
use crate::numeric::Fixed;
use crate::pitch::{held_cents, PitchShift};
use crate::stretch::{Stretching, TimeStretch, FASTEST, SLOWEST};
use crate::timeline::PACE_LIMIT;

verus! {

/// A system with all that the effects call for.
pub trait Studio: Stretching + Voicing + Resampling {

}

impl Studio for Fixed {

}

/// One of the effects that come with the library.
pub enum Stock<N: Studio, G: GainSource<N>> {
    TimeStretch(TimeStretch<N>),
    FirEq(FirEq<N, G>),
    Convolution(Convolution<N>),
    PitchShift(PitchShift<N>),
}

impl<N: Studio, G: GainSource<N>> Effect for Stock<N, G> {
    type Sample = N::Sample;

    open spec fn inv(&self) -> bool {
        match self {
            Stock::TimeStretch(effect) => effect.inv(),
            Stock::FirEq(effect) => effect.inv(),
            Stock::Convolution(effect) => effect.inv(),
            Stock::PitchShift(effect) => effect.inv(),
        }
    }

    open spec fn label(&self) -> Seq<char> {
        match self {
            Stock::TimeStretch(effect) => effect.label(),
            Stock::FirEq(effect) => effect.label(),
            Stock::Convolution(effect) => effect.label(),
            Stock::PitchShift(effect) => effect.label(),
        }
    }

    /// There is one effect of each kind in a chain.
    open spec fn place(&self) -> Option<int> {
        Some(
            match self {
                Stock::TimeStretch(_) => 0,
                Stock::FirEq(_) => 1,
                Stock::Convolution(_) => 2,
                Stock::PitchShift(_) => 3,
            },
        )
    }

    open spec fn active(&self) -> bool {
        match self {
            Stock::TimeStretch(effect) => effect.active(),
            Stock::FirEq(effect) => effect.active(),
            Stock::Convolution(effect) => effect.active(),
            Stock::PitchShift(effect) => effect.active(),
        }
    }

    open spec fn bypassed(&self) -> bool {
        match self {
            Stock::TimeStretch(effect) => effect.bypassed(),
            Stock::FirEq(effect) => effect.bypassed(),
            Stock::Convolution(effect) => effect.bypassed(),
            Stock::PitchShift(effect) => effect.bypassed(),
        }
    }

    open spec fn ratio(&self) -> nat {
        match self {
            Stock::TimeStretch(effect) => effect.ratio(),
            Stock::FirEq(effect) => effect.ratio(),
            Stock::Convolution(effect) => effect.ratio(),
            Stock::PitchShift(effect) => effect.ratio(),
        }
    }

    open spec fn pending(&self) -> nat {
        match self {
            Stock::TimeStretch(effect) => effect.pending(),
            Stock::FirEq(effect) => effect.pending(),
            Stock::Convolution(effect) => effect.pending(),
            Stock::PitchShift(effect) => effect.pending(),
        }
    }

    open spec fn fits(&self, rate: u32, channels: usize) -> bool {
        match self {
            Stock::TimeStretch(effect) => effect.fits(rate, channels),
            Stock::FirEq(effect) => effect.fits(rate, channels),
            Stock::Convolution(effect) => effect.fits(rate, channels),
            Stock::PitchShift(effect) => effect.fits(rate, channels),
        }
    }

    open spec fn processed(
        before: Self,
        input: Seq<N::Sample>,
        after: Self,
        output: Seq<N::Sample>,
        result: Result<(), Seq<char>>,
    ) -> bool {
        match (before, after) {
            (Stock::TimeStretch(a), Stock::TimeStretch(b)) => TimeStretch::<N>::processed(
                a,
                input,
                b,
                output,
                result,
            ),
            (Stock::FirEq(a), Stock::FirEq(b)) => FirEq::<N, G>::processed(
                a,
                input,
                b,
                output,
                result,
            ),
            (Stock::Convolution(a), Stock::Convolution(b)) => Convolution::<N>::processed(
                a,
                input,
                b,
                output,
                result,
            ),
            (Stock::PitchShift(a), Stock::PitchShift(b)) => PitchShift::<N>::processed(
                a,
                input,
                b,
                output,
                result,
            ),
            _ => false,
        }
    }

    open spec fn flushed(
        before: Self,
        after: Self,
        output: Seq<N::Sample>,
        result: Result<(), Seq<char>>,
    ) -> bool {
        match (before, after) {
            (Stock::TimeStretch(a), Stock::TimeStretch(b)) => TimeStretch::<N>::flushed(
                a,
                b,
                output,
                result,
            ),
            (Stock::FirEq(a), Stock::FirEq(b)) => FirEq::<N, G>::flushed(a, b, output, result),
            (Stock::Convolution(a), Stock::Convolution(b)) => Convolution::<N>::flushed(
                a,
                b,
                output,
                result,
            ),
            (Stock::PitchShift(a), Stock::PitchShift(b)) => PitchShift::<N>::flushed(
                a,
                b,
                output,
                result,
            ),
            _ => false,
        }
    }

    open spec fn restarted(
        before: Self,
        after: Self,
    ) -> bool {
        match (before, after) {
            (Stock::TimeStretch(a), Stock::TimeStretch(b)) => TimeStretch::<N>::restarted(a, b),
            (Stock::FirEq(a), Stock::FirEq(b)) => FirEq::<N, G>::restarted(a, b),
            (Stock::Convolution(a), Stock::Convolution(b)) => Convolution::<N>::restarted(a, b),
            (Stock::PitchShift(a), Stock::PitchShift(b)) => PitchShift::<N>::restarted(a, b),
            _ => false,
        }
    }

    open spec fn rebuilt(
        before: Self,
        rate: u32,
        channels: usize,
        after: Self,
        result: Result<(), Seq<char>>,
    ) -> bool {
        match (before, after) {
            (Stock::TimeStretch(a), Stock::TimeStretch(b)) => TimeStretch::<N>::rebuilt(
                a,
                rate,
                channels,
                b,
                result,
            ),
            (Stock::FirEq(a), Stock::FirEq(b)) => FirEq::<N, G>::rebuilt(
                a,
                rate,
                channels,
                b,
                result,
            ),
            (Stock::Convolution(a), Stock::Convolution(b)) => Convolution::<N>::rebuilt(
                a,
                rate,
                channels,
                b,
                result,
            ),
            (Stock::PitchShift(a), Stock::PitchShift(b)) => PitchShift::<N>::rebuilt(
                a,
                rate,
                channels,
                b,
                result,
            ),
            _ => false,
        }
    }

    open spec fn mirrored(
        effect: Self,
        mirror: Self,
    ) -> bool {
        match (effect, mirror) {
            (Stock::TimeStretch(a), Stock::TimeStretch(b)) => TimeStretch::<N>::mirrored(a, b),
            (Stock::FirEq(a), Stock::FirEq(b)) => FirEq::<N, G>::mirrored(a, b),
            (Stock::Convolution(a), Stock::Convolution(b)) => Convolution::<N>::mirrored(a, b),
            (Stock::PitchShift(a), Stock::PitchShift(b)) => PitchShift::<N>::mirrored(a, b),
            _ => false,
        }
    }

    fn name(&self) -> (name: &'static str) {
        match self {
            Stock::TimeStretch(effect) => effect.name(),
            Stock::FirEq(effect) => effect.name(),
            Stock::Convolution(effect) => effect.name(),
            Stock::PitchShift(effect) => effect.name(),
        }
    }

    fn is_active(&self) -> (active: bool) {
        match self {
            Stock::TimeStretch(effect) => effect.is_active(),
            Stock::FirEq(effect) => effect.is_active(),
            Stock::Convolution(effect) => effect.is_active(),
            Stock::PitchShift(effect) => effect.is_active(),
        }
    }

    fn is_bypassed(&self) -> (bypassed: bool) {
        match self {
            Stock::TimeStretch(effect) => effect.is_bypassed(),
            Stock::FirEq(effect) => effect.is_bypassed(),
            Stock::Convolution(effect) => effect.is_bypassed(),
            Stock::PitchShift(effect) => effect.is_bypassed(),
        }
    }

    fn time_ratio(&self) -> (ratio: u64) {
        match self {
            Stock::TimeStretch(effect) => effect.time_ratio(),
            Stock::FirEq(effect) => effect.time_ratio(),
            Stock::Convolution(effect) => effect.time_ratio(),
            Stock::PitchShift(effect) => effect.time_ratio(),
        }
    }

    fn pending_output_frames(&self) -> (frames: u64) {
        match self {
            Stock::TimeStretch(effect) => effect.pending_output_frames(),
            Stock::FirEq(effect) => effect.pending_output_frames(),
            Stock::Convolution(effect) => effect.pending_output_frames(),
            Stock::PitchShift(effect) => effect.pending_output_frames(),
        }
    }

    fn matches(&self, rate: u32, channels: usize) -> (fits: bool) {
        match self {
            Stock::TimeStretch(effect) => effect.matches(rate, channels),
            Stock::FirEq(effect) => effect.matches(rate, channels),
            Stock::Convolution(effect) => effect.matches(rate, channels),
            Stock::PitchShift(effect) => effect.matches(rate, channels),
        }
    }

    fn process(&mut self, input: &[N::Sample], output: &mut Vec<N::Sample>) -> (result: Result<
        (),
        String,
    >) {
        match self {
            Stock::TimeStretch(effect) => effect.process(input, output),
            Stock::FirEq(effect) => effect.process(input, output),
            Stock::Convolution(effect) => effect.process(input, output),
            Stock::PitchShift(effect) => effect.process(input, output),
        }
    }

    fn drain(&mut self, output: &mut Vec<N::Sample>) -> (result: Result<(), String>) {
        match self {
            Stock::TimeStretch(effect) => effect.drain(output),
            Stock::FirEq(effect) => effect.drain(output),
            Stock::Convolution(effect) => effect.drain(output),
            Stock::PitchShift(effect) => effect.drain(output),
        }
    }

    fn reset(&mut self) {
        match self {
            Stock::TimeStretch(effect) => effect.reset(),
            Stock::FirEq(effect) => effect.reset(),
            Stock::Convolution(effect) => effect.reset(),
            Stock::PitchShift(effect) => effect.reset(),
        }
    }

    fn reconfigure(&mut self, rate: u32, channels: usize) -> (result: Result<(), String>) {
        match self {
            Stock::TimeStretch(effect) => effect.reconfigure(rate, channels),
            Stock::FirEq(effect) => effect.reconfigure(rate, channels),
            Stock::Convolution(effect) => effect.reconfigure(rate, channels),
            Stock::PitchShift(effect) => effect.reconfigure(rate, channels),
        }
    }

    fn spawn_mirror(&self) -> (mirror: Self) {
        match self {
            Stock::TimeStretch(effect) => Stock::TimeStretch(effect.spawn_mirror()),
            Stock::FirEq(effect) => Stock::FirEq(effect.spawn_mirror()),
            Stock::Convolution(effect) => Stock::Convolution(effect.spawn_mirror()),
            Stock::PitchShift(effect) => Stock::PitchShift(effect.spawn_mirror()),
        }
    }
}

/// Which of the effects.
#[derive(Clone, Copy, Debug, PartialEq, Eq, Structural)]
pub enum Kind {
    TimeStretch,
    FirEq,
    Convolution,
    PitchShift,
}

impl<N: Studio, G: GainSource<N>> Stock<N, G> {
    /// Which of the effects it is.
    pub open spec fn kind_of(&self) -> Kind {
        match self {
            Stock::TimeStretch(_) => Kind::TimeStretch,
            Stock::FirEq(_) => Kind::FirEq,
            Stock::Convolution(_) => Kind::Convolution,
            Stock::PitchShift(_) => Kind::PitchShift,
        }
    }

    /// Which of the effects this is.
    pub fn kind(&self) -> (kind: Kind)
        ensures
            kind == self.kind_of(),
    {
        match self {
            Stock::TimeStretch(_) => Kind::TimeStretch,
            Stock::FirEq(_) => Kind::FirEq,
            Stock::Convolution(_) => Kind::Convolution,
            Stock::PitchShift(_) => Kind::PitchShift,
        }
    }
}

/// `i` is where the first effect of a kind stands.
pub open spec fn first_at<N: Studio, G: GainSource<N>>(
    effects: Seq<Stock<N, G>>,
    kind: Kind,
    i: int,
) -> bool {
    &&& 0 <= i < effects.len()
    &&& effects[i].kind_of() == kind
    &&& forall|j: int| 0 <= j < i ==> (#[trigger] effects[j]).kind_of() != kind
}

/// There is no effect of a kind.
pub open spec fn lacks<N: Studio, G: GainSource<N>>(
    effects: Seq<Stock<N, G>>,
    kind: Kind,
) -> bool {
    forall|j: int| 0 <= j < effects.len() ==> (#[trigger] effects[j]).kind_of() != kind
}

/// The effects after time stretch was set: the one there is tuned, or a fresh
/// one is added where it is turned on.
pub open spec fn time_stretch_set<N: Studio, G: GainSource<N>>(
    before: Seq<Stock<N, G>>,
    enabled: bool,
    ratio: u64,
    rate: u32,
    channels: usize,
    after: Seq<Stock<N, G>>,
    result: Result<(), Seq<char>>,
) -> bool {
    &&& forall|i: int| #[trigger]
        first_at(before, Kind::TimeStretch, i) ==> exists|tuned: TimeStretch<N>|
            {
                &&& #[trigger] tuned.tuned(before[i]->TimeStretch_0, enabled, ratio)
                &&& settled(
                    before.update(i, Stock::TimeStretch(tuned)),
                    i,
                    enabled,
                    rate,
                    channels,
                    after,
                    result,
                )
            }
    &&& lacks(before, Kind::TimeStretch) ==> if enabled {
        exists|fresh: TimeStretch<N>|
            {
                &&& #[trigger] fresh.newly_at(ratio)
                &&& added_built(before, Stock::TimeStretch(fresh), rate, channels, after, result)
            }
    } else {
        result is Ok && after == live(before)
    }
}

/// The effects after the equaliser was set.
pub open spec fn fir_eq_set<N: Studio, G: GainSource<N>>(
    before: Seq<Stock<N, G>>,
    enabled: bool,
    params: G,
    rate: u32,
    channels: usize,
    after: Seq<Stock<N, G>>,
    result: Result<(), Seq<char>>,
) -> bool {
    &&& forall|i: int| #[trigger]
        first_at(before, Kind::FirEq, i) ==> exists|tuned: FirEq<N, G>|
            {
                &&& #[trigger] tuned.tuned(before[i]->FirEq_0, enabled)
                &&& settled(
                    before.update(i, Stock::FirEq(tuned)),
                    i,
                    enabled,
                    rate,
                    channels,
                    after,
                    result,
                )
            }
    &&& lacks(before, Kind::FirEq) ==> if enabled {
        exists|fresh: FirEq<N, G>, on: FirEq<N, G>|
            {
                &&& fresh.newly_off()
                &&& may_share::<N, G>(params, fresh.source())
                &&& #[trigger] on.tuned(fresh, true)
                &&& added_built(before, Stock::FirEq(on), rate, channels, after, result)
            }
    } else {
        result is Ok && after == live(before)
    }
}

/// The effects after the convolution was set, with what its response was
/// loaded as. A response that could not be loaded is reported: the effect there
/// is left off, and none is added.
pub open spec fn convolution_set<N: Studio, G: GainSource<N>>(
    before: Seq<Stock<N, G>>,
    enabled: bool,
    path: Option<Seq<char>>,
    loaded: Option<Result<SourceIr<N::Sample>, String>>,
    mix: u64,
    rate: u32,
    channels: usize,
    after: Seq<Stock<N, G>>,
    result: Result<(), Seq<char>>,
) -> bool {
    &&& forall|i: int| #[trigger]
        first_at(before, Kind::Convolution, i) ==> exists|
            tuned: Convolution<N>,
            set: Result<(), Seq<char>>,
        |
            {
                &&& #[trigger] tuned.tuned(
                    before[i]->Convolution_0,
                    enabled,
                    path,
                    loaded,
                    mix,
                    set,
                )
                &&& if set is Ok {
                    settled(
                        before.update(i, Stock::Convolution(tuned)),
                        i,
                        enabled,
                        rate,
                        channels,
                        after,
                        result,
                    )
                } else {
                    &&& result == set
                    &&& after == before.update(i, Stock::Convolution(tuned))
                }
            }
    &&& lacks(before, Kind::Convolution) ==> if enabled {
        exists|fresh: Convolution<N>, on: Convolution<N>, set: Result<(), Seq<char>>|
            {
                &&& fresh.newly_off()
                &&& #[trigger] on.tuned(fresh, true, path, loaded, mix, set)
                &&& if set is Ok {
                    added_built(before, Stock::Convolution(on), rate, channels, after, result)
                } else {
                    &&& result == set
                    &&& after == before
                }
            }
    } else {
        result is Ok && after == live(before)
    }
}

/// The effects after pitch shift was set.
pub open spec fn pitch_shift_set<N: Studio, G: GainSource<N>>(
    before: Seq<Stock<N, G>>,
    enabled: bool,
    cents: i64,
    rate: u32,
    channels: usize,
    after: Seq<Stock<N, G>>,
    result: Result<(), Seq<char>>,
) -> bool {
    &&& forall|i: int| #[trigger]
        first_at(before, Kind::PitchShift, i) ==> exists|tuned: PitchShift<N>|
            {
                &&& #[trigger] tuned.tuned(before[i]->PitchShift_0, enabled, cents)
                &&& settled(
                    before.update(i, Stock::PitchShift(tuned)),
                    i,
                    enabled,
                    rate,
                    channels,
                    after,
                    result,
                )
            }
    &&& lacks(before, Kind::PitchShift) ==> if enabled {
        exists|fresh: PitchShift<N>|
            {
                &&& #[trigger] fresh.newly_at(cents)
                &&& added_built(before, Stock::PitchShift(fresh), rate, channels, after, result)
            }
    } else {
        result is Ok && after == live(before)
    }
}

/// The first effect of a kind, if there is one.
pub open spec fn first_of<N: Studio, G: GainSource<N>>(
    effects: Seq<Stock<N, G>>,
    kind: Kind,
) -> Option<Stock<N, G>> {
    if lacks(effects, kind) {
        None
    } else {
        Some(effects[choose|i: int| first_at(effects, kind, i)])
    }
}

/// Whether time stretch is on, and its tempo.
pub open spec fn time_stretch_of<N: Studio, G: GainSource<N>>(effects: Seq<Stock<N, G>>) -> (
    bool,
    u64,
) {
    match first_of(effects, Kind::TimeStretch) {
        Some(Stock::TimeStretch(effect)) => (effect.enabled(), effect.tempo()),
        _ => (false, UNITY),
    }
}

/// Whether the equaliser is on, and its delay at `rate`.
pub open spec fn fir_eq_of<N: Studio, G: GainSource<N>>(
    effects: Seq<Stock<N, G>>,
    rate: u32,
) -> (bool, u64) {
    match first_of(effects, Kind::FirEq) {
        Some(Stock::FirEq(effect)) => (effect.is_enabled(), effect.latency_at(rate)),
        _ => (false, 0),
    }
}

/// Whether the convolution is on, and its mix.
pub open spec fn convolution_of<N: Studio, G: GainSource<N>>(effects: Seq<Stock<N, G>>) -> (
    bool,
    u64,
) {
    match first_of(effects, Kind::Convolution) {
        Some(Stock::Convolution(effect)) => (effect.enabled(), effect.mix()),
        _ => (false, 0),
    }
}

/// Whether pitch shift is on, and its cents.
pub open spec fn pitch_shift_of<N: Studio, G: GainSource<N>>(effects: Seq<Stock<N, G>>) -> (
    bool,
    i64,
) {
    match first_of(effects, Kind::PitchShift) {
        Some(Stock::PitchShift(effect)) => (effect.enabled(), effect.cents()),
        _ => (false, 0),
    }
}

impl<N: Studio, G: GainSource<N>> Chain<Stock<N, G>> {
    /// A sound chain holds one effect of each kind at most. Every call leaves it
    /// sound: settings, audio, drains, resets and new device shapes alike.
    pub proof fn there_is_one_of_each(&self, kind: Kind)
        requires
            self.wf(),
        ensures
            single(self.effects(), kind),
    {
        self.the_map_is_sound();
        let effects = self.effects();
        assert forall|i: int, j: int|
            0 <= i < effects.len() && 0 <= j < effects.len() && (#[trigger] effects[i]).kind_of()
                == kind && (#[trigger] effects[j]).kind_of() == kind implies i == j by {
            assert(effects[i].place() == effects[j].place());
        }
    }

    /// Where the first effect of a kind stands.
    fn find(&self, kind: Kind) -> (found: Option<usize>)
        requires
            self.wf(),
        ensures
            match found {
                Some(i) => {
                    &&& first_at(self.effects(), kind, i as int)
                    &&& first_of(self.effects(), kind) == Some(self.effects()[i as int])
                },
                None => lacks(self.effects(), kind),
            },
    {
        let n: usize = self.len();
        let mut i: usize = 0;
        while i < n
            invariant
                i <= n,
                n == self.effects().len(),
                forall|j: int| 0 <= j < i ==> (#[trigger] self.effects()[j]).kind_of() != kind,
            decreases n - i,
        {
            if self.effect(i).kind() == kind {
                proof {
                    lemma_first_is_one(self.effects(), kind, i as int);
                }
                return Some(i);
            }
            i += 1;
        }
        None
    }

    /// Turns time stretch on or off and sets its tempo, adding the effect or
    /// retiring it as needed.
    pub fn set_time_stretch(&mut self, enabled: bool, ratio: u64) -> (result: Result<(), String>)
        requires
            old(self).wf(),
            SLOWEST <= ratio <= FASTEST,
        ensures
            final(self).wf(),
            final(self).only_effects_differ(*old(self)),
            time_stretch_set(
                old(self).effects(),
                enabled,
                ratio,
                old(self).rate(),
                old(self).channels(),
                final(self).effects(),
                outcome(result),
            ),
            !enabled ==> result is Ok,
            result is Ok && enabled ==> {
                &&& single(final(self).effects(), Kind::TimeStretch)
                &&& !lacks(final(self).effects(), Kind::TimeStretch)
                &&& time_stretch_of(final(self).effects()) == (true, ratio)
            },
            !enabled ==> time_stretch_of(final(self).effects()) == match first_of(
                old(self).effects(),
                Kind::TimeStretch,
            ) {
                Some(Stock::TimeStretch(effect)) if effect.stream() is Some => (
                    false,
                    effect.tempo(),
                ),
                _ => (false, UNITY),
            },
    {
        let ghost start = *self;
        let result: Result<(), String> = match self.find(Kind::TimeStretch) {
            Some(i) => {
                let ghost before = self.effects();
                match self.effect_mut(i) {
                    Stock::TimeStretch(effect) => {
                        effect.set(enabled, ratio);
                    },
                    _ => {},
                }
                let ghost tuned = self.effects()[i as int]->TimeStretch_0;
                assert(self.effects() =~= before.update(i as int, Stock::TimeStretch(tuned)));
                assert(tuned.tuned(before[i as int]->TimeStretch_0, enabled, ratio));
                self.settle(i, enabled)
            },
            None => {
                if enabled {
                    let fresh: TimeStretch<N> = TimeStretch::new(ratio);
                    assert(fresh.newly_at(ratio));
                    self.add_built(Stock::TimeStretch(fresh))
                } else {
                    self.retire();
                    Ok(())
                }
            },
        };
        proof {
            let (before, after) = (start.effects(), self.effects());
            let (rate, channels) = (start.rate(), start.channels());
            start.there_is_one_of_each(Kind::TimeStretch);
            if enabled && result is Ok {
                time_stretch_turned_on_is_there_once(before, ratio, rate, channels, after);
            }
            if !enabled {
                lemma_there_or_not(before, Kind::TimeStretch);
                time_stretch_turned_off_keeps_its_tempo(before, ratio, rate, channels, after);
            }
        }
        result
    }

    /// Whether time stretch is on, and its tempo; off and normal speed where
    /// there is none.
    pub fn time_stretch(&self) -> (setting: (bool, u64))
        requires
            self.wf(),
        ensures
            setting == time_stretch_of(self.effects()),
    {
        if let Some(i) = self.find(Kind::TimeStretch) {
            if let Stock::TimeStretch(effect) = self.effect(i) {
                return effect.setting();
            }
        }
        (false, UNITY)
    }

    /// Turns the equaliser on or off, adding the effect or retiring it as
    /// needed. It follows `params`.
    pub fn set_fir_eq(&mut self, enabled: bool, params: &G) -> (result: Result<(), String>)
        requires
            old(self).wf(),
        ensures
            final(self).wf(),
            final(self).only_effects_differ(*old(self)),
            fir_eq_set(
                old(self).effects(),
                enabled,
                *params,
                old(self).rate(),
                old(self).channels(),
                final(self).effects(),
                outcome(result),
            ),
            !enabled ==> result is Ok,
            result is Ok ==> fir_eq_of(final(self).effects(), old(self).rate()).0 == enabled,
    {
        let ghost start = *self;
        let result: Result<(), String> = match self.find(Kind::FirEq) {
            Some(i) => {
                let ghost before = self.effects();
                match self.effect_mut(i) {
                    Stock::FirEq(effect) => {
                        effect.set(enabled);
                    },
                    _ => {},
                }
                let ghost tuned = self.effects()[i as int]->FirEq_0;
                assert(self.effects() =~= before.update(i as int, Stock::FirEq(tuned)));
                assert(tuned.tuned(before[i as int]->FirEq_0, enabled));
                self.settle(i, enabled)
            },
            None => {
                if enabled {
                    let mut effect: FirEq<N, G> = FirEq::new(params.share());
                    let ghost fresh = effect;
                    effect.set(true);
                    assert(effect.tuned(fresh, true));
                    self.add_built(Stock::FirEq(effect))
                } else {
                    self.retire();
                    Ok(())
                }
            },
        };
        proof {
            let (before, after) = (start.effects(), self.effects());
            let (rate, channels) = (start.rate(), start.channels());
            start.there_is_one_of_each(Kind::FirEq);
            lemma_there_or_not(before, Kind::FirEq);
            if result is Ok {
                the_equaliser_reads_back(before, enabled, *params, rate, channels, after);
            }
        }
        result
    }

    /// Whether the equaliser is on, and its delay at `rate`.
    pub fn fir_eq(&self, rate: u32) -> (setting: (bool, u64))
        requires
            self.wf(),
        ensures
            setting == fir_eq_of(self.effects(), rate),
    {
        if let Some(i) = self.find(Kind::FirEq) {
            if let Stock::FirEq(effect) = self.effect(i) {
                return (effect.enabled(), effect.latency_secs(rate));
            }
        }
        (false, 0)
    }

    /// Whether a setting of the convolution needs its response to be loaded.
    pub fn convolution_needs_load(&self, enabled: bool, ir_path: &Option<String>) -> (needs: bool)
        requires
            self.wf(),
        ensures
            needs == self.response_missing(enabled, path_text(*ir_path)),
    {
        match self.find(Kind::Convolution) {
            Some(i) => match self.effect(i) {
                Stock::Convolution(effect) => effect.needs_load(ir_path),
                _ => false,
            },
            None => enabled && ir_path.is_some(),
        }
    }

    /// A response must be loaded: the path is another than the one at hand, or
    /// the effect is yet to be added.
    pub open spec fn response_missing(&self, enabled: bool, path: Option<Seq<char>>) -> bool {
        match first_of(self.effects(), Kind::Convolution) {
            Some(Stock::Convolution(effect)) => path is Some && path != effect.path(),
            _ => enabled && path is Some,
        }
    }

    /// Turns the convolution on or off and sets its response and mix, adding
    /// the effect or retiring it as needed. `loaded` is what loading the
    /// response came to, where it was needed. A failed load is reported and
    /// leaves the effect off.
    pub fn set_convolution(
        &mut self,
        enabled: bool,
        ir_path: Option<String>,
        loaded: Option<Result<SourceIr<N::Sample>, String>>,
        mix: u64,
    ) -> (result: Result<(), String>)
        requires
            old(self).wf(),
            old(self).response_missing(enabled, path_text(ir_path)) ==> loaded is Some,
            loaded matches Some(Ok(source)) ==> source.wf(),
        ensures
            final(self).wf(),
            final(self).only_effects_differ(*old(self)),
            convolution_set(
                old(self).effects(),
                enabled,
                path_text(ir_path),
                loaded,
                mix,
                old(self).rate(),
                old(self).channels(),
                final(self).effects(),
                outcome(result),
            ),
            result is Ok && enabled ==> convolution_of(final(self).effects()) == (
                true,
                if mix > UNITY {
                    UNITY
                } else {
                    mix
                },
            ),
            result is Ok && !enabled ==> !convolution_of(final(self).effects()).0,
    {
        let ghost path = path_text(ir_path);
        let ghost given = loaded;
        let ghost start = *self;
        let result: Result<(), String> = match self.find(Kind::Convolution) {
            Some(i) => {
                let ghost before = self.effects();
                let set: Result<(), String> = match self.effect_mut(i) {
                    Stock::Convolution(effect) => effect.set(enabled, ir_path, loaded, mix),
                    _ => Ok(()),
                };
                let ghost tuned = self.effects()[i as int]->Convolution_0;
                assert(self.effects() =~= before.update(i as int, Stock::Convolution(tuned)));
                assert(tuned.tuned(
                    before[i as int]->Convolution_0,
                    enabled,
                    path,
                    given,
                    mix,
                    outcome(set),
                ));
                match set {
                    Ok(()) => self.settle(i, enabled),
                    Err(message) => Err(message),
                }
            },
            None => {
                if enabled {
                    let mut effect: Convolution<N> = Convolution::new();
                    let ghost fresh = effect;
                    let set: Result<(), String> = effect.set(true, ir_path, loaded, mix);
                    assert(effect.tuned(fresh, true, path, given, mix, outcome(set)));
                    match set {
                        Ok(()) => self.add_built(Stock::Convolution(effect)),
                        Err(message) => Err(message),
                    }
                } else {
                    self.retire();
                    Ok(())
                }
            },
        };
        proof {
            let (before, after) = (start.effects(), self.effects());
            let (rate, channels) = (start.rate(), start.channels());
            start.there_is_one_of_each(Kind::Convolution);
            if result is Ok {
                a_mix_reads_back(before, enabled, path, given, mix, rate, channels, after);
            }
        }
        result
    }

    /// Whether the convolution is on, and its mix.
    pub fn convolution(&self) -> (setting: (bool, u64))
        requires
            self.wf(),
        ensures
            setting == convolution_of(self.effects()),
    {
        if let Some(i) = self.find(Kind::Convolution) {
            if let Stock::Convolution(effect) = self.effect(i) {
                return effect.setting();
            }
        }
        (false, 0)
    }

    /// Turns pitch shift on or off and sets its cents, adding the effect or
    /// retiring it as needed.
    pub fn set_pitch_shift(&mut self, enabled: bool, cents: i64) -> (result: Result<(), String>)
        requires
            old(self).wf(),
        ensures
            final(self).wf(),
            final(self).only_effects_differ(*old(self)),
            pitch_shift_set(
                old(self).effects(),
                enabled,
                cents,
                old(self).rate(),
                old(self).channels(),
                final(self).effects(),
                outcome(result),
            ),
            !enabled ==> result is Ok && !pitch_shift_of(final(self).effects()).0,
            result is Ok && enabled ==> {
                &&& pitch_shift_of(final(self).effects()) == (true, held_cents(cents))
                &&& single(final(self).effects(), Kind::PitchShift)
                &&& !lacks(final(self).effects(), Kind::PitchShift)
                &&& combined_ratio(final(self).effects(), final(self).effects().len())
                    == combined_ratio(old(self).effects(), old(self).effects().len())
                &&& lacks(old(self).effects(), Kind::PitchShift)
                    ==> final(self).effects().drop_last() == live(old(self).effects())
                    && final(self).effects().last().kind_of() == Kind::PitchShift
            },
    {
        let ghost start = *self;
        let result: Result<(), String> = match self.find(Kind::PitchShift) {
            Some(i) => {
                let ghost before = self.effects();
                match self.effect_mut(i) {
                    Stock::PitchShift(effect) => {
                        effect.set(enabled, cents);
                    },
                    _ => {},
                }
                let ghost tuned = self.effects()[i as int]->PitchShift_0;
                assert(self.effects() =~= before.update(i as int, Stock::PitchShift(tuned)));
                assert(tuned.tuned(before[i as int]->PitchShift_0, enabled, cents));
                self.settle(i, enabled)
            },
            None => {
                if enabled {
                    let fresh: PitchShift<N> = PitchShift::new(cents);
                    assert(fresh.newly_at(cents));
                    self.add_built(Stock::PitchShift(fresh))
                } else {
                    self.retire();
                    Ok(())
                }
            },
        };
        proof {
            let (before, after) = (start.effects(), self.effects());
            let (rate, channels) = (start.rate(), start.channels());
            start.there_is_one_of_each(Kind::PitchShift);
            self.there_is_one_of_each(Kind::PitchShift);
            lemma_there_or_not(before, Kind::PitchShift);
            if result is Ok {
                cents_read_back(before, enabled, cents, rate, channels, after);
                if enabled {
                    pitch_shift_keeps_time(before, cents, rate, channels, after);
                    lemma_there_or_not(after, Kind::PitchShift);
                }
            }
        }
        result
    }

    /// Whether pitch shift is on, and its cents.
    pub fn pitch_shift(&self) -> (setting: (bool, i64))
        requires
            self.wf(),
        ensures
            setting == pitch_shift_of(self.effects()),
    {
        if let Some(i) = self.find(Kind::PitchShift) {
            if let Stock::PitchShift(effect) = self.effect(i) {
                return effect.setting();
            }
        }
        (false, 0)
    }
}

/// The first effect of a kind stands in one place.
proof fn lemma_first_is_one<N: Studio, G: GainSource<N>>(
    effects: Seq<Stock<N, G>>,
    kind: Kind,
    i: int,
)
    requires
        first_at(effects, kind, i),
    ensures
        !lacks(effects, kind),
        i == choose|j: int| first_at(effects, kind, j),
{
    let j = choose|j: int| first_at(effects, kind, j);
    assert(first_at(effects, kind, j));
    if i < j {
        assert(effects[i].kind_of() != kind);
    }
    if j < i {
        assert(effects[j].kind_of() != kind);
    }
}


/// Whether an effect is turned on.
pub open spec fn turned_on<N: Studio, G: GainSource<N>>(effect: Stock<N, G>) -> bool {
    match effect {
        Stock::TimeStretch(effect) => effect.enabled(),
        Stock::FirEq(effect) => effect.is_enabled(),
        Stock::Convolution(effect) => effect.enabled(),
        Stock::PitchShift(effect) => effect.enabled(),
    }
}

/// Two effects with one setting.
pub open spec fn set_alike<N: Studio, G: GainSource<N>>(a: Stock<N, G>, b: Stock<N, G>) -> bool {
    match (a, b) {
        (Stock::TimeStretch(a), Stock::TimeStretch(b)) => a.enabled() == b.enabled() && a.tempo()
            == b.tempo(),
        (Stock::FirEq(a), Stock::FirEq(b)) => a.is_enabled() == b.is_enabled(),
        (Stock::Convolution(a), Stock::Convolution(b)) => a.enabled() == b.enabled() && a.mix()
            == b.mix(),
        (Stock::PitchShift(a), Stock::PitchShift(b)) => a.enabled() == b.enabled() && a.cents()
            == b.cents(),
        _ => false,
    }
}

/// There is one effect of a kind at most.
pub open spec fn single<N: Studio, G: GainSource<N>>(
    effects: Seq<Stock<N, G>>,
    kind: Kind,
) -> bool {
    forall|i: int, j: int|
        0 <= i < effects.len() && 0 <= j < effects.len() && (#[trigger] effects[i]).kind_of() == kind
            && (#[trigger] effects[j]).kind_of() == kind ==> i == j
}

/// The active effects are effects.
proof fn lemma_live_is_part<N: Studio, G: GainSource<N>>(effects: Seq<Stock<N, G>>, j: int)
    requires
        0 <= j < live(effects).len(),
    ensures
        exists|i: int| 0 <= i < effects.len() && live(effects)[j] == #[trigger] effects[i],
        live(effects)[j].active(),
    decreases effects.len(),
{
    if effects.len() > 0 {
        let rest = effects.drop_last();
        if effects.last().active() && j == live(rest).len() {
            assert(live(effects)[j] == effects[effects.len() - 1]);
        } else {
            lemma_live_is_part(rest, j);
            let i = choose|i: int| 0 <= i < rest.len() && live(rest)[j] == #[trigger] rest[i];
            assert(live(effects)[j] == effects[i]);
        }
    }
}

/// An active effect that is the first of its kind is still the first when the
/// inactive ones are gone.
proof fn lemma_first_stays<N: Studio, G: GainSource<N>>(
    effects: Seq<Stock<N, G>>,
    kind: Kind,
    i: int,
) -> (j: int)
    requires
        first_at(effects, kind, i),
        effects[i].active(),
    ensures
        first_at(live(effects), kind, j),
        live(effects)[j] == effects[i],
    decreases effects.len(),
{
    let rest = effects.drop_last();
    if i == effects.len() - 1 {
        let j = live(rest).len() as int;
        assert forall|k: int| 0 <= k < j implies (#[trigger] live(effects)[k]).kind_of() != kind by {
            lemma_live_is_part(rest, k);
            let at = choose|at: int| 0 <= at < rest.len() && live(rest)[k] == #[trigger] rest[at];
            assert(effects[at].kind_of() != kind);
            assert(live(effects)[k] == live(rest)[k]);
        }
        j
    } else {
        assert forall|k: int| 0 <= k < i implies (#[trigger] rest[k]).kind_of() != kind by {
            assert(effects[k].kind_of() != kind);
        }
        let j = lemma_first_stays(rest, kind, i);
        assert forall|k: int| 0 <= k < j implies (#[trigger] live(effects)[k]).kind_of() != kind by {
            assert(live(effects)[k] == live(rest)[k]);
        }
        j
    }
}

/// A rebuild keeps the setting.
proof fn lemma_rebuild_keeps_setting<N: Studio, G: GainSource<N>>(
    before: Stock<N, G>,
    rate: u32,
    channels: usize,
    after: Stock<N, G>,
    result: Result<(), Seq<char>>,
)
    requires
        Stock::rebuilt(before, rate, channels, after, result),
    ensures
        set_alike(before, after),
        after.kind_of() == before.kind_of(),
{
}

/// A setting that was settled reads back: turned on, as it was set.
proof fn lemma_settled_reads_back<N: Studio, G: GainSource<N>>(
    effects: Seq<Stock<N, G>>,
    i: int,
    rate: u32,
    channels: usize,
    after: Seq<Stock<N, G>>,
)
    requires
        first_at(effects, effects[i].kind_of(), i),
        turned_on(effects[i]),
        settled(effects, i, true, rate, channels, after, Ok(())),
    ensures
        first_of(after, effects[i].kind_of()) matches Some(effect) && set_alike(
            effects[i],
            effect,
        ),
{
    let kind = effects[i].kind_of();
    if effects[i].bypassed() && rate > 0 && channels > 0 {
        let built = choose|built: Stock<N, G>|
            {
                &&& #[trigger] Stock::rebuilt(effects[i], rate, channels, built, Ok(()))
                &&& after == live(effects.update(i, built))
            };
        lemma_rebuild_keeps_setting(effects[i], rate, channels, built, Ok(()));
        let changed = effects.update(i, built);
        assert forall|k: int| 0 <= k < i implies (#[trigger] changed[k]).kind_of() != kind by {
            assert(effects[k].kind_of() != kind);
        }
        let j = lemma_first_stays(changed, kind, i);
        lemma_first_is_one(after, kind, j);
    } else {
        let j = lemma_first_stays(effects, kind, i);
        lemma_first_is_one(after, kind, j);
    }
}

/// A setting that came with a new effect reads back.
proof fn lemma_added_reads_back<N: Studio, G: GainSource<N>>(
    effects: Seq<Stock<N, G>>,
    effect: Stock<N, G>,
    rate: u32,
    channels: usize,
    after: Seq<Stock<N, G>>,
)
    requires
        lacks(effects, effect.kind_of()),
        turned_on(effect),
        added_built(effects, effect, rate, channels, after, Ok(())),
    ensures
        first_of(after, effect.kind_of()) matches Some(found) && set_alike(effect, found),
{
    let kind = effect.kind_of();
    let built = if rate > 0 && channels > 0 {
        let built = choose|built: Stock<N, G>|
            {
                &&& #[trigger] Stock::rebuilt(effect, rate, channels, built, Ok(()))
                &&& after == live(effects.push(built))
            };
        lemma_rebuild_keeps_setting(effect, rate, channels, built, Ok(()));
        built
    } else {
        effect
    };
    let longer = effects.push(built);
    let n = effects.len() as int;
    assert forall|k: int| 0 <= k < n implies (#[trigger] longer[k]).kind_of() != kind by {
        assert(effects[k].kind_of() != kind);
    }
    let j = lemma_first_stays(longer, kind, n);
    lemma_first_is_one(after, kind, j);
}

/// Without the inactive ones there is no more of a kind than before, and none
/// of it is on that was off.
proof fn lemma_off_stays_off<N: Studio, G: GainSource<N>>(
    effects: Seq<Stock<N, G>>,
    kind: Kind,
)
    requires
        forall|k: int|
            0 <= k < effects.len() && (#[trigger] effects[k]).kind_of() == kind ==> !turned_on(
                effects[k],
            ),
    ensures
        first_of(live(effects), kind) matches Some(effect) ==> !turned_on(effect)
            && effect.kind_of() == kind,
{
    let after = live(effects);
    if !lacks(after, kind) {
        let some = choose|k: int| 0 <= k < after.len() && (#[trigger] after[k]).kind_of() == kind;
        let first = lemma_first_of_some(after, kind, some);
        lemma_first_is_one(after, kind, first);
        lemma_live_is_part(effects, first);
    }
}

/// Where there is an effect of a kind, there is a first one.
proof fn lemma_first_of_some<N: Studio, G: GainSource<N>>(
    effects: Seq<Stock<N, G>>,
    kind: Kind,
    i: int,
) -> (first: int)
    requires
        0 <= i < effects.len(),
        effects[i].kind_of() == kind,
    ensures
        first_at(effects, kind, first),
    decreases i,
{
    if exists|j: int| 0 <= j < i && (#[trigger] effects[j]).kind_of() == kind {
        let j = choose|j: int| 0 <= j < i && (#[trigger] effects[j]).kind_of() == kind;
        lemma_first_of_some(effects, kind, j)
    } else {
        i
    }
}

/// A kind is there or it is not.
proof fn lemma_there_or_not<N: Studio, G: GainSource<N>>(
    effects: Seq<Stock<N, G>>,
    kind: Kind,
) -> (first: int)
    ensures
        lacks(effects, kind) || first_at(effects, kind, first),
{
    if lacks(effects, kind) {
        0
    } else {
        let i = choose|i: int|
            0 <= i < effects.len() && (#[trigger] effects[i]).kind_of() == kind;
        lemma_first_of_some(effects, kind, i)
    }
}

/// A tempo that was set reads back; time stretch that was turned off reads as
/// off.
pub proof fn a_tempo_reads_back<N: Studio, G: GainSource<N>>(
    before: Seq<Stock<N, G>>,
    enabled: bool,
    ratio: u64,
    rate: u32,
    channels: usize,
    after: Seq<Stock<N, G>>,
)
    requires
        !enabled ==> single(before, Kind::TimeStretch),
        time_stretch_set(before, enabled, ratio, rate, channels, after, Ok(())),
    ensures
        enabled ==> time_stretch_of(after) == (true, ratio),
        !enabled ==> !time_stretch_of(after).0,
{
    let kind = Kind::TimeStretch;
    let i = lemma_there_or_not(before, kind);
    if lacks(before, kind) {
        if enabled {
            let fresh = choose|fresh: TimeStretch<N>|
                {
                    &&& #[trigger] fresh.newly_at(ratio)
                    &&& added_built(
                        before,
                        Stock::TimeStretch(fresh),
                        rate,
                        channels,
                        after,
                        Ok(()),
                    )
                };
            lemma_added_reads_back(before, Stock::TimeStretch(fresh), rate, channels, after);
        } else {
            lemma_off_stays_off(before, kind);
        }
    } else {
        let tuned = choose|tuned: TimeStretch<N>|
            {
                &&& #[trigger] tuned.tuned(before[i]->TimeStretch_0, enabled, ratio)
                &&& settled(
                    before.update(i, Stock::TimeStretch(tuned)),
                    i,
                    enabled,
                    rate,
                    channels,
                    after,
                    Ok(()),
                )
            };
        let changed = before.update(i, Stock::TimeStretch(tuned));
        lemma_change_keeps_first(before, kind, i, Stock::TimeStretch(tuned));
        if enabled {
            lemma_settled_reads_back(changed, i, rate, channels, after);
        } else {
            lemma_off_stays_off(changed, kind);
        }
    }
}

/// Another effect of the same kind in its place leaves the first where it is.
proof fn lemma_change_keeps_first<N: Studio, G: GainSource<N>>(
    before: Seq<Stock<N, G>>,
    kind: Kind,
    i: int,
    effect: Stock<N, G>,
)
    requires
        first_at(before, kind, i),
        effect.kind_of() == kind,
    ensures
        first_at(before.update(i, effect), kind, i),
        single(before, kind) ==> forall|k: int|
            0 <= k < before.len() && (#[trigger] before.update(i, effect)[k]).kind_of() == kind
                ==> k == i,
{
    let changed = before.update(i, effect);
    assert forall|k: int| 0 <= k < i implies (#[trigger] changed[k]).kind_of() != kind by {
        assert(before[k].kind_of() != kind);
    }
    if single(before, kind) {
        assert forall|k: int|
            0 <= k < before.len() && (#[trigger] changed[k]).kind_of() == kind implies k == i by {
            if k != i {
                assert(before[k].kind_of() == kind && before[i].kind_of() == kind);
            }
        }
    }
}

/// The equaliser reads back as on or off as it was set.
pub proof fn the_equaliser_reads_back<N: Studio, G: GainSource<N>>(
    before: Seq<Stock<N, G>>,
    enabled: bool,
    params: G,
    rate: u32,
    channels: usize,
    after: Seq<Stock<N, G>>,
)
    requires
        !enabled ==> single(before, Kind::FirEq),
        fir_eq_set(before, enabled, params, rate, channels, after, Ok(())),
    ensures
        fir_eq_of(after, rate).0 == enabled,
{
    let kind = Kind::FirEq;
    let i = lemma_there_or_not(before, kind);
    if lacks(before, kind) {
        if enabled {
            let (fresh, on) = choose|fresh: FirEq<N, G>, on: FirEq<N, G>|
                {
                    &&& fresh.newly_off()
                    &&& may_share::<N, G>(params, fresh.source())
                    &&& #[trigger] on.tuned(fresh, true)
                    &&& added_built(before, Stock::FirEq(on), rate, channels, after, Ok(()))
                };
            lemma_added_reads_back(before, Stock::FirEq(on), rate, channels, after);
        } else {
            lemma_off_stays_off(before, kind);
        }
    } else {
        let tuned = choose|tuned: FirEq<N, G>|
            {
                &&& #[trigger] tuned.tuned(before[i]->FirEq_0, enabled)
                &&& settled(
                    before.update(i, Stock::FirEq(tuned)),
                    i,
                    enabled,
                    rate,
                    channels,
                    after,
                    Ok(()),
                )
            };
        let changed = before.update(i, Stock::FirEq(tuned));
        lemma_change_keeps_first(before, kind, i, Stock::FirEq(tuned));
        if enabled {
            lemma_settled_reads_back(changed, i, rate, channels, after);
        } else {
            lemma_off_stays_off(changed, kind);
        }
    }
}

/// A mix that was set reads back, held at fully wet; a convolution that was
/// turned off reads as off.
pub proof fn a_mix_reads_back<N: Studio, G: GainSource<N>>(
    before: Seq<Stock<N, G>>,
    enabled: bool,
    path: Option<Seq<char>>,
    loaded: Option<Result<SourceIr<N::Sample>, String>>,
    mix: u64,
    rate: u32,
    channels: usize,
    after: Seq<Stock<N, G>>,
)
    requires
        !enabled ==> single(before, Kind::Convolution),
        convolution_set(before, enabled, path, loaded, mix, rate, channels, after, Ok(())),
    ensures
        enabled ==> convolution_of(after) == (
            true,
            if mix > UNITY {
                UNITY
            } else {
                mix
            },
        ),
        !enabled ==> !convolution_of(after).0,
{
    let kind = Kind::Convolution;
    let i = lemma_there_or_not(before, kind);
    if lacks(before, kind) {
        if enabled {
            let (fresh, on, set) = choose|
                fresh: Convolution<N>,
                on: Convolution<N>,
                set: Result<(), Seq<char>>,
            |
                {
                    &&& fresh.newly_off()
                    &&& #[trigger] on.tuned(fresh, true, path, loaded, mix, set)
                    &&& if set is Ok {
                        added_built(
                            before,
                            Stock::Convolution(on),
                            rate,
                            channels,
                            after,
                            Ok(()),
                        )
                    } else {
                        &&& Ok::<(), Seq<char>>(()) == set
                        &&& after == before
                    }
                };
            lemma_added_reads_back(before, Stock::Convolution(on), rate, channels, after);
        } else {
            lemma_off_stays_off(before, kind);
        }
    } else {
        let (tuned, set) = choose|tuned: Convolution<N>, set: Result<(), Seq<char>>|
            {
                &&& #[trigger] tuned.tuned(
                    before[i]->Convolution_0,
                    enabled,
                    path,
                    loaded,
                    mix,
                    set,
                )
                &&& if set is Ok {
                    settled(
                        before.update(i, Stock::Convolution(tuned)),
                        i,
                        enabled,
                        rate,
                        channels,
                        after,
                        Ok(()),
                    )
                } else {
                    &&& Ok::<(), Seq<char>>(()) == set
                    &&& after == before.update(i, Stock::Convolution(tuned))
                }
            };
        let changed = before.update(i, Stock::Convolution(tuned));
        lemma_change_keeps_first(before, kind, i, Stock::Convolution(tuned));
        if enabled {
            lemma_settled_reads_back(changed, i, rate, channels, after);
        } else {
            lemma_off_stays_off(changed, kind);
        }
    }
}

/// Cents that were set read back, held within an octave; pitch shift that was
/// turned off reads as off.
pub proof fn cents_read_back<N: Studio, G: GainSource<N>>(
    before: Seq<Stock<N, G>>,
    enabled: bool,
    cents: i64,
    rate: u32,
    channels: usize,
    after: Seq<Stock<N, G>>,
)
    requires
        !enabled ==> single(before, Kind::PitchShift),
        pitch_shift_set(before, enabled, cents, rate, channels, after, Ok(())),
    ensures
        enabled ==> pitch_shift_of(after) == (true, held_cents(cents)),
        !enabled ==> !pitch_shift_of(after).0,
{
    let kind = Kind::PitchShift;
    let i = lemma_there_or_not(before, kind);
    if lacks(before, kind) {
        if enabled {
            let fresh = choose|fresh: PitchShift<N>|
                {
                    &&& #[trigger] fresh.newly_at(cents)
                    &&& added_built(before, Stock::PitchShift(fresh), rate, channels, after, Ok(()))
                };
            lemma_added_reads_back(before, Stock::PitchShift(fresh), rate, channels, after);
        } else {
            lemma_off_stays_off(before, kind);
        }
    } else {
        let tuned = choose|tuned: PitchShift<N>|
            {
                &&& #[trigger] tuned.tuned(before[i]->PitchShift_0, enabled, cents)
                &&& settled(
                    before.update(i, Stock::PitchShift(tuned)),
                    i,
                    enabled,
                    rate,
                    channels,
                    after,
                    Ok(()),
                )
            };
        let changed = before.update(i, Stock::PitchShift(tuned));
        lemma_change_keeps_first(before, kind, i, Stock::PitchShift(tuned));
        if enabled {
            lemma_settled_reads_back(changed, i, rate, channels, after);
        } else {
            lemma_off_stays_off(changed, kind);
        }
    }
}

/// Dropping the inactive ones leaves no more of a kind.
proof fn lemma_live_keeps_single<N: Studio, G: GainSource<N>>(
    effects: Seq<Stock<N, G>>,
    kind: Kind,
)
    requires
        single(effects, kind),
    ensures
        single(live(effects), kind),
    decreases effects.len(),
{
    if effects.len() > 0 {
        let rest = effects.drop_last();
        assert forall|i: int, j: int|
            0 <= i < rest.len() && 0 <= j < rest.len() && (#[trigger] rest[i]).kind_of() == kind
                && (#[trigger] rest[j]).kind_of() == kind implies i == j by {
            assert(effects[i] == rest[i] && effects[j] == rest[j]);
        }
        lemma_live_keeps_single(rest, kind);
        if effects.last().active() && effects.last().kind_of() == kind {
            assert forall|j: int| 0 <= j < live(rest).len() implies (
            #[trigger] live(rest)[j]).kind_of() != kind by {
                lemma_live_is_part(rest, j);
                let i = choose|i: int| 0 <= i < rest.len() && live(rest)[j] == #[trigger] rest[i];
                assert(effects[i] == rest[i]);
                assert(effects[effects.len() - 1].kind_of() == kind);
            }
        }
        let after = live(effects);
        assert forall|i: int, j: int|
            0 <= i < after.len() && 0 <= j < after.len() && (#[trigger] after[i]).kind_of() == kind
                && (#[trigger] after[j]).kind_of() == kind implies i == j by {
            let n = live(rest).len();
            if i < n {
                assert(after[i] == live(rest)[i]);
            }
            if j < n {
                assert(after[j] == live(rest)[j]);
            }
        }
    }
}

/// Another effect of the same kind in its place leaves as many of each kind.
proof fn lemma_change_keeps_single<N: Studio, G: GainSource<N>>(
    before: Seq<Stock<N, G>>,
    i: int,
    effect: Stock<N, G>,
    kind: Kind,
)
    requires
        0 <= i < before.len(),
        effect.kind_of() == before[i].kind_of(),
        single(before, kind),
    ensures
        single(before.update(i, effect), kind),
{
    let changed = before.update(i, effect);
    assert forall|a: int, b: int|
        0 <= a < changed.len() && 0 <= b < changed.len() && (#[trigger] changed[a]).kind_of()
            == kind && (#[trigger] changed[b]).kind_of() == kind implies a == b by {
        assert(before[a].kind_of() == kind && before[b].kind_of() == kind);
    }
}

proof fn lemma_settled_keeps_single<N: Studio, G: GainSource<N>>(
    effects: Seq<Stock<N, G>>,
    i: int,
    enabled: bool,
    rate: u32,
    channels: usize,
    after: Seq<Stock<N, G>>,
    result: Result<(), Seq<char>>,
    kind: Kind,
)
    requires
        0 <= i < effects.len(),
        single(effects, kind),
        settled(effects, i, enabled, rate, channels, after, result),
    ensures
        single(after, kind),
{
    if enabled && effects[i].bypassed() && rate > 0 && channels > 0 {
        let built = choose|built: Stock<N, G>|
            {
                &&& #[trigger] Stock::rebuilt(effects[i], rate, channels, built, result)
                &&& after == if result is Ok {
                    live(effects.update(i, built))
                } else {
                    effects.update(i, built)
                }
            };
        lemma_rebuild_keeps_setting(effects[i], rate, channels, built, result);
        lemma_change_keeps_single(effects, i, built, kind);
        lemma_live_keeps_single(effects.update(i, built), kind);
    } else {
        lemma_live_keeps_single(effects, kind);
    }
}

proof fn lemma_added_keeps_single<N: Studio, G: GainSource<N>>(
    effects: Seq<Stock<N, G>>,
    effect: Stock<N, G>,
    rate: u32,
    channels: usize,
    after: Seq<Stock<N, G>>,
    result: Result<(), Seq<char>>,
    kind: Kind,
)
    requires
        lacks(effects, effect.kind_of()),
        single(effects, kind),
        added_built(effects, effect, rate, channels, after, result),
    ensures
        single(after, kind),
{
    let built = if rate > 0 && channels > 0 {
        let built = choose|built: Stock<N, G>|
            {
                &&& #[trigger] Stock::rebuilt(effect, rate, channels, built, result)
                &&& after == if result is Ok {
                    live(effects.push(built))
                } else {
                    effects
                }
            };
        lemma_rebuild_keeps_setting(effect, rate, channels, built, result);
        built
    } else {
        effect
    };
    let longer = effects.push(built);
    assert forall|a: int, b: int|
        0 <= a < longer.len() && 0 <= b < longer.len() && (#[trigger] longer[a]).kind_of() == kind
            && (#[trigger] longer[b]).kind_of() == kind implies a == b by {
        if a < effects.len() {
            assert(longer[a] == effects[a]);
        }
        if b < effects.len() {
            assert(longer[b] == effects[b]);
        }
    }
    lemma_live_keeps_single(longer, kind);
}

/// The effects after one of the settings was made.
pub open spec fn some_setting<N: Studio, G: GainSource<N>>(
    before: Seq<Stock<N, G>>,
    rate: u32,
    channels: usize,
    after: Seq<Stock<N, G>>,
    result: Result<(), Seq<char>>,
) -> bool {
    ||| exists|enabled: bool, ratio: u64| #[trigger]
        time_stretch_set(before, enabled, ratio, rate, channels, after, result)
    ||| exists|enabled: bool, params: G| #[trigger]
        fir_eq_set(before, enabled, params, rate, channels, after, result)
    ||| exists|
        enabled: bool,
        path: Option<Seq<char>>,
        loaded: Option<Result<SourceIr<N::Sample>, String>>,
        mix: u64,
    | #[trigger]
        convolution_set(before, enabled, path, loaded, mix, rate, channels, after, result)
    ||| exists|enabled: bool, cents: i64| #[trigger]
        pitch_shift_set(before, enabled, cents, rate, channels, after, result)
}

/// However settings are made, there is one effect of each kind at most.
pub proof fn settings_keep_one_of_each<N: Studio, G: GainSource<N>>(
    before: Seq<Stock<N, G>>,
    rate: u32,
    channels: usize,
    after: Seq<Stock<N, G>>,
    result: Result<(), Seq<char>>,
    kind: Kind,
)
    requires
        single(before, kind),
        some_setting(before, rate, channels, after, result),
    ensures
        single(after, kind),
{
    lemma_live_keeps_single(before, kind);
    if exists|enabled: bool, ratio: u64| #[trigger]
        time_stretch_set(before, enabled, ratio, rate, channels, after, result) {
        let (enabled, ratio) = choose|enabled: bool, ratio: u64| #[trigger]
            time_stretch_set(before, enabled, ratio, rate, channels, after, result);
        let i = lemma_there_or_not(before, Kind::TimeStretch);
        if lacks(before, Kind::TimeStretch) {
            if enabled {
                let fresh = choose|fresh: TimeStretch<N>|
                    {
                        &&& #[trigger] fresh.newly_at(ratio)
                        &&& added_built(
                            before,
                            Stock::TimeStretch(fresh),
                            rate,
                            channels,
                            after,
                            result,
                        )
                    };
                let effect = Stock::TimeStretch(fresh);
                lemma_added_keeps_single(before, effect, rate, channels, after, result, kind);
            }
        } else {
            let tuned = choose|tuned: TimeStretch<N>|
                {
                    &&& #[trigger] tuned.tuned(before[i]->TimeStretch_0, enabled, ratio)
                    &&& settled(
                        before.update(i, Stock::TimeStretch(tuned)),
                        i,
                        enabled,
                        rate,
                        channels,
                        after,
                        result,
                    )
                };
            let effect = Stock::TimeStretch(tuned);
            lemma_tuned_keeps_single(before, i, effect, enabled, rate, channels, after, result, kind);
        }
    } else if exists|enabled: bool, params: G| #[trigger]
        fir_eq_set(before, enabled, params, rate, channels, after, result) {
        let (enabled, params) = choose|enabled: bool, params: G| #[trigger]
            fir_eq_set(before, enabled, params, rate, channels, after, result);
        let i = lemma_there_or_not(before, Kind::FirEq);
        if lacks(before, Kind::FirEq) {
            if enabled {
                let (fresh, on) = choose|fresh: FirEq<N, G>, on: FirEq<N, G>|
                    {
                        &&& fresh.newly_off()
                        &&& may_share::<N, G>(params, fresh.source())
                        &&& #[trigger] on.tuned(fresh, true)
                        &&& added_built(before, Stock::FirEq(on), rate, channels, after, result)
                    };
                let effect = Stock::FirEq(on);
                lemma_added_keeps_single(before, effect, rate, channels, after, result, kind);
            }
        } else {
            let tuned = choose|tuned: FirEq<N, G>|
                {
                    &&& #[trigger] tuned.tuned(before[i]->FirEq_0, enabled)
                    &&& settled(
                        before.update(i, Stock::FirEq(tuned)),
                        i,
                        enabled,
                        rate,
                        channels,
                        after,
                        result,
                    )
                };
            let effect = Stock::FirEq(tuned);
            lemma_tuned_keeps_single(before, i, effect, enabled, rate, channels, after, result, kind);
        }
    } else if exists|enabled: bool, cents: i64| #[trigger]
        pitch_shift_set(before, enabled, cents, rate, channels, after, result) {
        let (enabled, cents) = choose|enabled: bool, cents: i64| #[trigger]
            pitch_shift_set(before, enabled, cents, rate, channels, after, result);
        let i = lemma_there_or_not(before, Kind::PitchShift);
        if lacks(before, Kind::PitchShift) {
            if enabled {
                let fresh = choose|fresh: PitchShift<N>|
                    {
                        &&& #[trigger] fresh.newly_at(cents)
                        &&& added_built(
                            before,
                            Stock::PitchShift(fresh),
                            rate,
                            channels,
                            after,
                            result,
                        )
                    };
                let effect = Stock::PitchShift(fresh);
                lemma_added_keeps_single(before, effect, rate, channels, after, result, kind);
            }
        } else {
            let tuned = choose|tuned: PitchShift<N>|
                {
                    &&& #[trigger] tuned.tuned(before[i]->PitchShift_0, enabled, cents)
                    &&& settled(
                        before.update(i, Stock::PitchShift(tuned)),
                        i,
                        enabled,
                        rate,
                        channels,
                        after,
                        result,
                    )
                };
            let effect = Stock::PitchShift(tuned);
            lemma_tuned_keeps_single(before, i, effect, enabled, rate, channels, after, result, kind);
        }
    } else {
        lemma_convolution_keeps_single(before, rate, channels, after, result, kind);
    }
}

proof fn lemma_tuned_keeps_single<N: Studio, G: GainSource<N>>(
    before: Seq<Stock<N, G>>,
    i: int,
    effect: Stock<N, G>,
    enabled: bool,
    rate: u32,
    channels: usize,
    after: Seq<Stock<N, G>>,
    result: Result<(), Seq<char>>,
    kind: Kind,
)
    requires
        0 <= i < before.len(),
        effect.kind_of() == before[i].kind_of(),
        single(before, kind),
        settled(before.update(i, effect), i, enabled, rate, channels, after, result),
    ensures
        single(after, kind),
{
    lemma_change_keeps_single(before, i, effect, kind);
    lemma_settled_keeps_single(
        before.update(i, effect),
        i,
        enabled,
        rate,
        channels,
        after,
        result,
        kind,
    );
}

proof fn lemma_convolution_keeps_single<N: Studio, G: GainSource<N>>(
    before: Seq<Stock<N, G>>,
    rate: u32,
    channels: usize,
    after: Seq<Stock<N, G>>,
    result: Result<(), Seq<char>>,
    kind: Kind,
)
    requires
        single(before, kind),
        exists|
            enabled: bool,
            path: Option<Seq<char>>,
            loaded: Option<Result<SourceIr<N::Sample>, String>>,
            mix: u64,
        | #[trigger]
            convolution_set(before, enabled, path, loaded, mix, rate, channels, after, result),
    ensures
        single(after, kind),
{
    let (enabled, path, loaded, mix) = choose|
        enabled: bool,
        path: Option<Seq<char>>,
        loaded: Option<Result<SourceIr<N::Sample>, String>>,
        mix: u64,
    | #[trigger]
        convolution_set(before, enabled, path, loaded, mix, rate, channels, after, result);
    lemma_live_keeps_single(before, kind);
    let i = lemma_there_or_not(before, Kind::Convolution);
    if lacks(before, Kind::Convolution) {
        if enabled {
            let (fresh, on, set) = choose|
                fresh: Convolution<N>,
                on: Convolution<N>,
                set: Result<(), Seq<char>>,
            |
                {
                    &&& fresh.newly_off()
                    &&& #[trigger] on.tuned(fresh, true, path, loaded, mix, set)
                    &&& if set is Ok {
                        added_built(
                            before,
                            Stock::Convolution(on),
                            rate,
                            channels,
                            after,
                            result,
                        )
                    } else {
                        &&& result == set
                        &&& after == before
                    }
                };
            if set is Ok {
                let effect = Stock::Convolution(on);
                lemma_added_keeps_single(before, effect, rate, channels, after, result, kind);
            }
        }
    } else {
        let (tuned, set) = choose|tuned: Convolution<N>, set: Result<(), Seq<char>>|
            {
                &&& #[trigger] tuned.tuned(
                    before[i]->Convolution_0,
                    enabled,
                    path,
                    loaded,
                    mix,
                    set,
                )
                &&& if set is Ok {
                    settled(
                        before.update(i, Stock::Convolution(tuned)),
                        i,
                        enabled,
                        rate,
                        channels,
                        after,
                        result,
                    )
                } else {
                    &&& result == set
                    &&& after == before.update(i, Stock::Convolution(tuned))
                }
            };
        let effect = Stock::Convolution(tuned);
        if set is Ok {
            lemma_tuned_keeps_single(before, i, effect, enabled, rate, channels, after, result, kind);
        } else {
            lemma_change_keeps_single(before, i, effect, kind);
        }
    }
}

/// Off is structural: a reset lets go of an effect that is turned off, whatever
/// it held.
pub proof fn a_reset_retires_what_is_off<N: Studio, G: GainSource<N>>(
    before: Stock<N, G>,
    after: Stock<N, G>,
)
    requires
        !turned_on(before),
        Stock::restarted(before, after),
    ensures
        !after.active(),
        after.bypassed(),
{
}

/// A reset of a chain with everything turned off leaves it bare, and a bare
/// chain hands audio through as it comes.
pub proof fn a_reset_with_all_off_bares_the_chain<N: Studio, G: GainSource<N>>(
    before: Seq<Stock<N, G>>,
    after: Seq<Stock<N, G>>,
)
    requires
        forall|i: int| 0 <= i < before.len() ==> !turned_on(#[trigger] before[i]),
        all_restarted(before, after),
    ensures
        live(after) == Seq::<Stock<N, G>>::empty(),
        !any_engages(live(after)),
{
    if live(after).len() > 0 {
        lemma_live_is_part(after, 0);
        let i = choose|i: int| 0 <= i < after.len() && live(after)[0] == #[trigger] after[i];
        assert(!turned_on(before[i]));
        a_reset_retires_what_is_off(before[i], after[i]);
    }
    assert(live(after) =~= Seq::<Stock<N, G>>::empty());
}

/// An effect that is bypassed changes nothing.
pub proof fn a_bypassed_effect_is_transparent<N: Studio, G: GainSource<N>>(
    before: Stock<N, G>,
    input: Seq<N::Sample>,
    after: Stock<N, G>,
    output: Seq<N::Sample>,
    result: Result<(), Seq<char>>,
)
    requires
        before.bypassed(),
        Stock::processed(before, input, after, output, result),
    ensures
        result is Ok,
        output == input,
        after.bypassed(),
{
}

/// Only time stretch changes time.
pub proof fn only_time_stretch_changes_time<N: Studio, G: GainSource<N>>(effect: Stock<N, G>)
    ensures
        effect.kind_of() != Kind::TimeStretch ==> effect.ratio() == UNITY,
        effect.bypassed() ==> effect.ratio() == UNITY,
{
}

/// What is left when the inactive effects are gone lacks a kind whose effects
/// were all inactive.
proof fn lemma_inactive_is_gone<N: Studio, G: GainSource<N>>(
    effects: Seq<Stock<N, G>>,
    kind: Kind,
)
    requires
        forall|k: int|
            0 <= k < effects.len() && (#[trigger] effects[k]).kind_of() == kind
                ==> !effects[k].active(),
    ensures
        lacks(live(effects), kind),
{
    assert forall|j: int| 0 <= j < live(effects).len() implies (#[trigger] live(
        effects,
    )[j]).kind_of() != kind by {
        lemma_live_is_part(effects, j);
        let i = choose|i: int| 0 <= i < effects.len() && live(effects)[j] == #[trigger] effects[i];
        assert(effects[i].active());
    }
}

/// However often time stretch is turned on, the chain holds one, at the tempo
/// set last.
pub proof fn time_stretch_turned_on_is_there_once<N: Studio, G: GainSource<N>>(
    before: Seq<Stock<N, G>>,
    ratio: u64,
    rate: u32,
    channels: usize,
    after: Seq<Stock<N, G>>,
)
    requires
        single(before, Kind::TimeStretch),
        time_stretch_set(before, true, ratio, rate, channels, after, Ok(())),
    ensures
        single(after, Kind::TimeStretch),
        !lacks(after, Kind::TimeStretch),
        time_stretch_of(after) == (true, ratio),
{
    a_tempo_reads_back(before, true, ratio, rate, channels, after);
    settings_keep_one_of_each(before, rate, channels, after, Ok(()), Kind::TimeStretch);
}

/// Time stretch that is turned off while its engine runs reads as off, at the
/// tempo it had, and one without an engine is gone at once.
pub proof fn time_stretch_turned_off_keeps_its_tempo<N: Studio, G: GainSource<N>>(
    before: Seq<Stock<N, G>>,
    ratio: u64,
    rate: u32,
    channels: usize,
    after: Seq<Stock<N, G>>,
)
    requires
        single(before, Kind::TimeStretch),
        time_stretch_set(before, false, ratio, rate, channels, after, Ok(())),
    ensures
        single(after, Kind::TimeStretch),
        time_stretch_of(after) == match first_of(before, Kind::TimeStretch) {
            Some(Stock::TimeStretch(effect)) if effect.stream() is Some => (false, effect.tempo()),
            _ => (false, UNITY),
        },
{
    let kind = Kind::TimeStretch;
    settings_keep_one_of_each(before, rate, channels, after, Ok(()), kind);
    let i = lemma_there_or_not(before, kind);
    if lacks(before, kind) {
        lemma_inactive_is_gone(before, kind);
    } else {
        lemma_first_is_one(before, kind, i);
        let was = before[i]->TimeStretch_0;
        let tuned = choose|tuned: TimeStretch<N>|
            {
                &&& #[trigger] tuned.tuned(was, false, ratio)
                &&& settled(
                    before.update(i, Stock::TimeStretch(tuned)),
                    i,
                    false,
                    rate,
                    channels,
                    after,
                    Ok(()),
                )
            };
        let changed = before.update(i, Stock::TimeStretch(tuned));
        lemma_change_keeps_first(before, kind, i, Stock::TimeStretch(tuned));
        if was.stream() is Some {
            let j = lemma_first_stays(changed, kind, i);
            lemma_first_is_one(after, kind, j);
        } else {
            lemma_inactive_is_gone(changed, kind);
        }
    }
}

/// The next reset lets go of time stretch that is off: it then reads as off,
/// at normal speed.
pub proof fn a_reset_forgets_the_tempo<N: Studio, G: GainSource<N>>(
    before: Seq<Stock<N, G>>,
    after: Seq<Stock<N, G>>,
)
    requires
        single(before, Kind::TimeStretch),
        !time_stretch_of(before).0,
        all_restarted(before, after),
    ensures
        time_stretch_of(live(after)) == (false, UNITY),
{
    let kind = Kind::TimeStretch;
    assert forall|k: int|
        0 <= k < after.len() && (#[trigger] after[k]).kind_of() == kind implies !after[k].active() by {
        assert(Stock::restarted(before[k], after[k]));
        let first = lemma_first_of_some(before, kind, k);
        lemma_first_is_one(before, kind, first);
        assert(before[first].kind_of() == kind && before[k].kind_of() == kind);
        a_reset_retires_what_is_off(before[k], after[k]);
    }
    lemma_inactive_is_gone(after, kind);
}

/// The combined ratio goes by the effects before.
proof fn lemma_ratio_of_prefix<N: Studio, G: GainSource<N>>(
    a: Seq<Stock<N, G>>,
    b: Seq<Stock<N, G>>,
    n: nat,
)
    requires
        n <= a.len(),
        n <= b.len(),
        forall|k: int|
            0 <= k < n ==> #[trigger] a[k] == b[k] || (a[k].ratio() == UNITY && b[k].ratio()
                == UNITY),
    ensures
        combined_ratio(a, n) == combined_ratio(b, n),
        combined_ratio(a, n) <= PACE_LIMIT,
    decreases n,
{
    if n > 0 {
        lemma_ratio_of_prefix(a, b, (n - 1) as nat);
        let so_far = combined_ratio(a, (n - 1) as nat);
        assert(a[n - 1] == b[n - 1] || (a[n - 1].ratio() == UNITY && b[n - 1].ratio() == UNITY));
        assert(so_far * UNITY as nat / UNITY as nat == so_far) by (nonlinear_arith)
            requires
                UNITY > 0,
        ;
    }
}

/// Inactive effects do not change time.
proof fn lemma_ratio_of_live<N: Studio, G: GainSource<N>>(effects: Seq<Stock<N, G>>)
    ensures
        combined_ratio(live(effects), live(effects).len()) == combined_ratio(
            effects,
            effects.len(),
        ),
    decreases effects.len(),
{
    if effects.len() > 0 {
        let rest = effects.drop_last();
        lemma_ratio_of_live(rest);
        lemma_ratio_of_prefix(effects, rest, rest.len());
        if effects.last().active() {
            lemma_ratio_of_prefix(live(effects), live(rest), live(rest).len());
        }
    }
}

/// Pitch shift that is turned on keeps the chain's time ratio, and so the
/// duration. A new one comes behind every effect there is, so behind any time
/// stretch; one that is there stays at its place.
pub proof fn pitch_shift_keeps_time<N: Studio, G: GainSource<N>>(
    before: Seq<Stock<N, G>>,
    cents: i64,
    rate: u32,
    channels: usize,
    after: Seq<Stock<N, G>>,
)
    requires
        pitch_shift_set(before, true, cents, rate, channels, after, Ok(())),
    ensures
        combined_ratio(after, after.len()) == combined_ratio(before, before.len()),
        lacks(before, Kind::PitchShift) ==> {
            &&& after.len() > 0
            &&& after.last().kind_of() == Kind::PitchShift
            &&& after.drop_last() == live(before)
        },
        forall|i: int| #[trigger]
            first_at(before, Kind::PitchShift, i) ==> exists|effect: Stock<N, G>|
                {
                    &&& effect.kind_of() == Kind::PitchShift
                    &&& after == live(#[trigger] before.update(i, effect))
                },
{
    let kind = Kind::PitchShift;
    let i = lemma_there_or_not(before, kind);
    if lacks(before, kind) {
        let fresh = choose|fresh: PitchShift<N>|
            {
                &&& #[trigger] fresh.newly_at(cents)
                &&& added_built(before, Stock::PitchShift(fresh), rate, channels, after, Ok(()))
            };
        let effect = Stock::PitchShift(fresh);
        let built = if rate > 0 && channels > 0 {
            let built = choose|built: Stock<N, G>|
                {
                    &&& #[trigger] Stock::rebuilt(effect, rate, channels, built, Ok(()))
                    &&& after == live(before.push(built))
                };
            lemma_rebuild_keeps_setting(effect, rate, channels, built, Ok(()));
            built
        } else {
            effect
        };
        let longer = before.push(built);
        assert(after == live(longer));
        assert(built.active());
        assert(longer.drop_last() =~= before);
        lemma_ratio_of_live(longer);
        lemma_ratio_of_prefix(longer, before, before.len());
        let so_far = combined_ratio(before, before.len());
        assert(so_far * UNITY as nat / UNITY as nat == so_far) by (nonlinear_arith)
            requires
                UNITY > 0,
        ;
        assert(after.drop_last() =~= live(before));
        assert forall|k: int| #[trigger] first_at(before, kind, k) implies false by {
            assert(before[k].kind_of() == kind);
        }
    } else {
        let tuned = choose|tuned: PitchShift<N>|
            {
                &&& #[trigger] tuned.tuned(before[i]->PitchShift_0, true, cents)
                &&& settled(
                    before.update(i, Stock::PitchShift(tuned)),
                    i,
                    true,
                    rate,
                    channels,
                    after,
                    Ok(()),
                )
            };
        let changed = before.update(i, Stock::PitchShift(tuned));
        let effect = if changed[i].bypassed() && rate > 0 && channels > 0 {
            let built = choose|built: Stock<N, G>|
                {
                    &&& #[trigger] Stock::rebuilt(changed[i], rate, channels, built, Ok(()))
                    &&& after == live(changed.update(i, built))
                };
            lemma_rebuild_keeps_setting(changed[i], rate, channels, built, Ok(()));
            built
        } else {
            changed[i]
        };
        let last = before.update(i, effect);
        assert(changed.update(i, effect) =~= last);
        assert(changed.update(i, changed[i]) =~= changed);
        assert(after == live(last));
        lemma_ratio_of_live(last);
        lemma_ratio_of_prefix(last, before, before.len());
        assert forall|k: int| #[trigger] first_at(before, kind, k) implies k == i by {
            if k < i {
                assert(before[k].kind_of() != kind);
            }
            if i < k {
                assert(before[i].kind_of() != kind);
            }
        }
    }
}

/// A reset of a chain whose time stretch is off lets go of it: it then reads as
/// off, at normal speed.
pub proof fn a_reset_chain_runs_at_normal_speed<N: Studio, G: GainSource<N>>(
    before: Chain<Stock<N, G>>,
    after: Chain<Stock<N, G>>,
)
    requires
        before.wf(),
        !time_stretch_of(before.effects()).0,
        after.restarted_from(before.effects()),
    ensures
        time_stretch_of(after.effects()) == (false, UNITY),
{
    before.there_is_one_of_each(Kind::TimeStretch);
    let restarted = choose|restarted: Seq<Stock<N, G>>| #[trigger]
        all_restarted(before.effects(), restarted) && after.effects() == live(restarted);
    a_reset_forgets_the_tempo(before.effects(), restarted);
}

/// Audio and drains leave every effect at its place, so there is one of each
/// kind at most afterwards if there was before, and none of a kind that there
/// was none of.
pub proof fn audio_keeps_one_of_each<N: Studio, G: GainSource<N>>(
    before: Seq<Stock<N, G>>,
    after: Seq<Stock<N, G>>,
    kind: Kind,
)
    requires
        single(before, kind),
        same_places(before, after),
    ensures
        single(after, kind),
        lacks(before, kind) ==> lacks(after, kind),
{
    assert forall|i: int| 0 <= i < after.len() implies (#[trigger] after[i]).kind_of()
        == before[i].kind_of() by {
        assert(before[i].place() == after[i].place());
    }
    assert forall|i: int, j: int|
        0 <= i < after.len() && 0 <= j < after.len() && (#[trigger] after[i]).kind_of() == kind && (
        #[trigger] after[j]).kind_of() == kind implies i == j by {
        assert(before[i].kind_of() == kind && before[j].kind_of() == kind);
    }
}

impl<N: Studio, G: GainSource<N>> Stock<N, G> {
    /// Which of the effects it is, whether it is on, and what it is set to: its
    /// tempo, mix or cents.
    pub open spec fn setting(&self) -> (Kind, bool, int) {
        match self {
            Stock::TimeStretch(effect) => (
                Kind::TimeStretch,
                effect.enabled(),
                effect.tempo() as int,
            ),
            Stock::FirEq(effect) => (Kind::FirEq, effect.is_enabled(), 0),
            Stock::Convolution(effect) => (
                Kind::Convolution,
                effect.enabled(),
                effect.mix() as int,
            ),
            Stock::PitchShift(effect) => (
                Kind::PitchShift,
                effect.enabled(),
                effect.cents() as int,
            ),
        }
    }
}

/// The effects of `b` are those of `a`, in their order and as they are set.
pub open spec fn same_settings<N: Studio, G: GainSource<N>>(
    a: Seq<Stock<N, G>>,
    b: Seq<Stock<N, G>>,
) -> bool {
    &&& a.len() == b.len()
    &&& forall|i: int|
        #![trigger a[i]]
        #![trigger b[i]]
        0 <= i < a.len() ==> a[i].setting() == b[i].setting()
}

/// Audio and drains, whether they succeed or fail, resets and new device shapes
/// keep what an effect is set to, and its mirror has it too.
pub proof fn calls_keep_the_setting<N: Studio, G: GainSource<N>>(
    before: Stock<N, G>,
    input: Seq<N::Sample>,
    rate: u32,
    channels: usize,
    after: Stock<N, G>,
    output: Seq<N::Sample>,
    result: Result<(), Seq<char>>,
)
    requires
        Stock::processed(before, input, after, output, result) || Stock::flushed(
            before,
            after,
            output,
            result,
        ) || Stock::restarted(before, after) || Stock::rebuilt(
            before,
            rate,
            channels,
            after,
            result,
        ) || Stock::mirrored(before, after),
    ensures
        after.setting() == before.setting(),
{
}

proof fn lemma_passing_keeps_the_settings<N: Studio, G: GainSource<N>>(
    before: Seq<Stock<N, G>>,
    after: Seq<Stock<N, G>>,
    input: Seq<N::Sample>,
    output: Seq<N::Sample>,
)
    requires
        passed(before, after, input, output),
    ensures
        same_settings(before, after),
{
    let trace = choose|trace: Seq<Seq<N::Sample>>|
        {
            &&& #[trigger] threads(before, after, trace, before.len() as int)
            &&& trace[0] == input
            &&& trace.last() == output
        };
    assert forall|i: int| 0 <= i < before.len() implies before[i].setting()
        == after[i].setting() by {
        assert(step(before[i], after[i], trace[i], trace[i + 1]));
    }
}

proof fn lemma_stopping_keeps_the_settings<N: Studio, G: GainSource<N>>(
    before: Seq<Stock<N, G>>,
    after: Seq<Stock<N, G>>,
    input: Seq<N::Sample>,
    message: Seq<char>,
)
    requires
        stopped(before, after, input, message),
    ensures
        same_settings(before, after),
{
    let (trace, n) = choose|trace: Seq<Seq<N::Sample>>, n: int|
        {
            &&& #[trigger] fails_at(before, after, trace, n, message)
            &&& trace[0] == input
        };
    assert forall|i: int| 0 <= i < before.len() implies before[i].setting()
        == after[i].setting() by {
        if i < n {
            assert(step(before[i], after[i], trace[i], trace[i + 1]));
        } else if i == n {
            assert(failed(before[n], after[n], trace[n], message));
        } else {
            assert(after[i] == before[i]);
        }
    }
}

/// Effects up to one, that one, and those behind it.
proof fn lemma_settings_join<N: Studio, G: GainSource<N>>(
    before: Seq<Stock<N, G>>,
    after: Seq<Stock<N, G>>,
    n: int,
)
    requires
        0 <= n < before.len(),
        after.len() == before.len(),
        forall|j: int| 0 <= j < n ==> #[trigger] after[j] == before[j],
        before[n].setting() == after[n].setting(),
        same_settings(before.skip(n + 1), after.skip(n + 1)),
    ensures
        same_settings(before, after),
{
    assert forall|i: int| 0 <= i < before.len() implies before[i].setting()
        == after[i].setting() by {
        if i < n {
            assert(after[i] == before[i]);
        } else if i > n {
            assert(before.skip(n + 1)[i - n - 1] == before[i]);
            assert(after.skip(n + 1)[i - n - 1] == after[i]);
        }
    }
}

proof fn lemma_a_cascade_keeps_the_settings<N: Studio, G: GainSource<N>>(
    states: Seq<Seq<Stock<N, G>>>,
    emitted: Seq<Seq<N::Sample>>,
    n: int,
)
    requires
        cascades(states, emitted, n),
        0 <= n <= states[0].len(),
    ensures
        same_settings(states[0], states.last()),
    decreases n,
{
    if n > 0 {
        let sooner = states.take(n);
        let less = emitted.take(n - 1);
        assert(cascades(sooner, less, n - 1)) by {
            assert forall|i: int| 0 <= i < n - 1 implies if engages((#[trigger] sooner[i])[i]) {
                flushed_at(sooner[i], sooner[i + 1], i, less[i])
            } else {
                sooner[i + 1] == sooner[i] && less[i] == Seq::<N::Sample>::empty()
            } by {
                assert(sooner[i] == states[i]);
            }
        }
        lemma_a_cascade_keeps_the_settings(sooner, less, n - 1);
        let (before, after) = (states[n - 1], states[n]);
        assert(sooner[0] == states[0] && sooner.last() == before && states.last() == after);
        if engages(before[n - 1]) {
            assert(flushed_at(before, after, n - 1, emitted[n - 1]));
            let held = choose|held: Seq<N::Sample>|
                {
                    &&& #[trigger] Stock::flushed(before[n - 1], after[n - 1], held, Ok(()))
                    &&& passed(before.skip(n), after.skip(n), held, emitted[n - 1])
                };
            lemma_passing_keeps_the_settings(before.skip(n), after.skip(n), held, emitted[n - 1]);
            lemma_settings_join(before, after, n - 1);
        }
        assert forall|i: int| 0 <= i < states[0].len() implies states[0][i].setting()
            == after[i].setting() by {
            assert(states[0][i].setting() == before[i].setting());
        }
    }
}

/// What the effects of a chain are set to stays what it is while audio goes
/// through them, whether it gets through or not.
pub proof fn audio_keeps_the_settings<N: Studio, G: GainSource<N>>(
    before: Chain<Stock<N, G>>,
    carried: Seq<N::Sample>,
    had: Seq<N::Sample>,
    frames_written: u64,
    after: Chain<Stock<N, G>>,
    out: Seq<N::Sample>,
    result: Result<(), Seq<char>>,
)
    requires
        Chain::ran(before, carried, had, frames_written, after, out, result),
    ensures
        same_settings(before.effects(), after.effects()),
{
    if any_engages(before.effects()) {
        match result {
            Ok(()) => {
                lemma_passing_keeps_the_settings(
                    before.effects(),
                    after.effects(),
                    carried,
                    out.skip(had.len() as int),
                );
            },
            Err(message) => {
                lemma_stopping_keeps_the_settings(
                    before.effects(),
                    after.effects(),
                    carried,
                    message,
                );
            },
        }
    }
}

/// A drain keeps what the effects are set to, and so does one that fails.
pub proof fn a_drain_keeps_the_settings<N: Studio, G: GainSource<N>>(
    before: Seq<Stock<N, G>>,
    after: Seq<Stock<N, G>>,
    output: Seq<N::Sample>,
    message: Seq<char>,
)
    requires
        drained_through(before, after, output) || drain_stopped(before, after, output, message),
    ensures
        same_settings(before, after),
{
    if drained_through(before, after, output) {
        let (states, emitted) = choose|
            states: Seq<Seq<Stock<N, G>>>,
            emitted: Seq<Seq<N::Sample>>,
        |
            {
                &&& #[trigger] cascades(states, emitted, before.len() as int)
                &&& states[0] == before
                &&& states.last() == after
                &&& joined(emitted) == output
            };
        lemma_a_cascade_keeps_the_settings(states, emitted, before.len() as int);
    } else {
        let (states, emitted, n) = choose|
            states: Seq<Seq<Stock<N, G>>>,
            emitted: Seq<Seq<N::Sample>>,
            n: int,
        |
            {
                &&& #[trigger] cascade_fails(states, emitted, n, after, message)
                &&& states[0] == before
                &&& joined(emitted) == output
            };
        let last = states.last();
        lemma_a_cascade_length(states, emitted, n);
        lemma_a_cascade_keeps_the_settings(states, emitted, n);
        if after.skip(n + 1) == last.skip(n + 1) && exists|
            partial: Seq<N::Sample>,
            cause: Seq<char>,
        |
            {
                &&& #[trigger] Stock::flushed(last[n], after[n], partial, Err(cause))
                &&& message == blamed(after[n].label(), cause)
            } {
            lemma_settings_join(last, after, n);
        } else {
            let held = choose|held: Seq<N::Sample>|
                {
                    &&& #[trigger] Stock::flushed(last[n], after[n], held, Ok(()))
                    &&& stopped(last.skip(n + 1), after.skip(n + 1), held, message)
                };
            lemma_stopping_keeps_the_settings(last.skip(n + 1), after.skip(n + 1), held, message);
            lemma_settings_join(last, after, n);
        }
        assert forall|i: int| 0 <= i < before.len() implies before[i].setting()
            == after[i].setting() by {
            assert(before[i].setting() == last[i].setting());
        }
    }
}

/// A cascade keeps the number of effects.
proof fn lemma_a_cascade_length<N: Studio, G: GainSource<N>>(
    states: Seq<Seq<Stock<N, G>>>,
    emitted: Seq<Seq<N::Sample>>,
    n: int,
)
    requires
        cascades(states, emitted, n),
        n >= 0,
    ensures
        states.last().len() == states[0].len(),
    decreases n,
{
    if n > 0 {
        let sooner = states.take(n);
        let less = emitted.take(n - 1);
        assert(cascades(sooner, less, n - 1)) by {
            assert forall|i: int| 0 <= i < n - 1 implies if engages((#[trigger] sooner[i])[i]) {
                flushed_at(sooner[i], sooner[i + 1], i, less[i])
            } else {
                sooner[i + 1] == sooner[i] && less[i] == Seq::<N::Sample>::empty()
            } by {
                assert(sooner[i] == states[i]);
            }
        }
        lemma_a_cascade_length(sooner, less, n - 1);
        assert(sooner[0] == states[0] && sooner.last() == states[n - 1]);
    }
}

/// A mirror has the active effects of its chain, in their order and as they are
/// set.
pub proof fn a_mirror_carries_the_settings<N: Studio, G: GainSource<N>>(
    effects: Seq<Stock<N, G>>,
    mirrors: Seq<Stock<N, G>>,
)
    requires
        all_mirrored(live(effects), mirrors),
    ensures
        same_settings(live(effects), mirrors),
{
    assert forall|i: int| 0 <= i < mirrors.len() implies live(effects)[i].setting()
        == mirrors[i].setting() by {
        assert(Stock::mirrored(live(effects)[i], mirrors[i]));
    }
}

/// A reset keeps what the effects that it leaves are set to, and a new device
/// shape does too, whether every effect could be rebuilt for it or not.
pub proof fn a_new_stream_keeps_the_settings<N: Studio, G: GainSource<N>>(
    before: Seq<Stock<N, G>>,
    rate: u32,
    channels: usize,
    built: Seq<Stock<N, G>>,
    results: Seq<Result<(), Seq<char>>>,
    after: Seq<Stock<N, G>>,
)
    requires
        built == before || all_rebuilt(before, rate, channels, built, results),
        all_restarted(built, after),
    ensures
        same_settings(before, after),
{
    assert forall|i: int| 0 <= i < before.len() implies before[i].setting()
        == after[i].setting() by {
        assert(Stock::restarted(built[i], after[i]));
        if built != before && !before[i].fits(rate, channels) {
            assert(Stock::rebuilt(before[i], rate, channels, built[i], results[i]));
        }
    }
}

} // verus!
