//! The decode-thread effect chain: pluggable processing between the resampler
//! and the ring.
//!
//! The chain owns the whole cross-cutting integration once: bypass, crossfade
//! mirroring, the drain at the end of a stream, and the playhead
//! [`Timeline`]. An empty or fully bypassed chain hands audio through as it
//! came.
//!
//! Time ratios are counted in parts of [`UNITY`], source time in ticks as
//! [`crate::timeline`] has it.
use vstd::prelude::*;

use crate::frames::append_copy;
use crate::timeline::{lookup, projected, pruned, raised, recorded, sound};
use crate::timeline::{recording_keeps_the_map_sound, Marker, Timeline};
use crate::timeline::{PACE_LIMIT, SECOND_LIMIT, SOURCE_LIMIT};

verus! {

/// A time ratio of one: source time and output time run alike.
pub const UNITY: u64 = 0x1_0000_0000;

/// What a call that can fail came to, with the message it failed with.
pub open spec fn outcome(result: Result<(), String>) -> Result<(), Seq<char>> {
    match result {
        Ok(()) => Ok(()),
        Err(message) => Err(message@),
    }
}

/// One pluggable stage. It runs at device rate, on interleaved audio, and
/// never in the realtime callback.
///
/// What a stage does to audio is its own affair. The relations here name it,
/// and the chain's contracts are stated in those names.
pub trait Effect: Sized {
    /// One audio sample.
    type Sample: Copy;

    /// What holds of a stage between calls.
    closed spec fn inv(&self) -> bool {
        arbitrary()
    }

    /// The name for error messages.
    closed spec fn label(&self) -> Seq<char> {
        arbitrary()
    }

    /// The place in a chain that the stage takes, of which there is one; none
    /// where any number of its kind may stand in a chain.
    closed spec fn place(&self) -> Option<int> {
        arbitrary()
    }

    /// Whether the stage is on, or still holds audio.
    closed spec fn active(&self) -> bool {
        arbitrary()
    }

    /// Whether audio goes through unchanged.
    closed spec fn bypassed(&self) -> bool {
        arbitrary()
    }

    /// Source time per output time, in parts of [`UNITY`].
    closed spec fn ratio(&self) -> nat {
        arbitrary()
    }

    /// Frames held inside.
    closed spec fn pending(&self) -> nat {
        arbitrary()
    }

    /// Whether the stage is built for a device shape.
    closed spec fn fits(&self, rate: u32, channels: usize) -> bool {
        arbitrary()
    }

    /// `before` took `input`, put out `output` and became `after`.
    closed spec fn processed(
        before: Self,
        input: Seq<Self::Sample>,
        after: Self,
        output: Seq<Self::Sample>,
        result: Result<(), Seq<char>>,
    ) -> bool {
        arbitrary()
    }

    /// `before` put out all it held, `output`, and became `after`.
    closed spec fn flushed(
        before: Self,
        after: Self,
        output: Seq<Self::Sample>,
        result: Result<(), Seq<char>>,
    ) -> bool {
        arbitrary()
    }

    /// `before` dropped its audio and became `after`.
    closed spec fn restarted(before: Self, after: Self) -> bool {
        arbitrary()
    }

    /// `before` was rebuilt for a device shape and became `after`.
    closed spec fn rebuilt(
        before: Self,
        rate: u32,
        channels: usize,
        after: Self,
        result: Result<(), Seq<char>>,
    ) -> bool {
        arbitrary()
    }

    /// `mirror` has the settings of `effect` and no audio.
    closed spec fn mirrored(effect: Self, mirror: Self) -> bool {
        arbitrary()
    }

    /// Stable name for error messages.
    fn name(&self) -> (name: &'static str)
        requires
            self.inv(),
        ensures
            name@ == self.label(),
    ;

    /// False once the effect is disabled and holds no audio. The chain drops
    /// inactive effects at the next reset.
    fn is_active(&self) -> (active: bool)
        requires
            self.inv(),
        ensures
            active == self.active(),
    ;

    /// True while the effect changes nothing at all, so that the chain can
    /// skip it.
    fn is_bypassed(&self) -> (bypassed: bool)
        requires
            self.inv(),
        ensures
            bypassed == self.bypassed(),
    ;

    /// Takes interleaved `input` and appends to `output`: more, fewer or no
    /// frames.
    fn process(&mut self, input: &[Self::Sample], output: &mut Vec<Self::Sample>) -> (result:
        Result<(), String>)
        requires
            old(self).inv(),
        ensures
            final(self).inv(),
            final(self).label() == old(self).label(),
            final(self).place() == old(self).place(),
            old(output)@.is_prefix_of(final(output)@),
            Self::processed(
                *old(self),
                input@,
                *final(self),
                final(output)@.skip(old(output)@.len() as int),
                outcome(result),
            ),
    ;

    /// Appends whatever is still held inside. The effect is a fresh stream
    /// afterwards.
    fn drain(&mut self, output: &mut Vec<Self::Sample>) -> (result: Result<(), String>)
        requires
            old(self).inv(),
        ensures
            final(self).inv(),
            final(self).label() == old(self).label(),
            final(self).place() == old(self).place(),
            old(output)@.is_prefix_of(final(output)@),
            Self::flushed(
                *old(self),
                *final(self),
                final(output)@.skip(old(output)@.len() as int),
                outcome(result),
            ),
    ;

    /// Drops audio across a discontinuity. A disabled effect sheds its backend
    /// here and goes inactive.
    fn reset(&mut self)
        requires
            old(self).inv(),
        ensures
            final(self).inv(),
            final(self).label() == old(self).label(),
            final(self).place() == old(self).place(),
            Self::restarted(*old(self), *final(self)),
    ;

    /// Source time that one unit of output time stands for, in parts of
    /// [`UNITY`].
    fn time_ratio(&self) -> (ratio: u64)
        requires
            self.inv(),
        ensures
            ratio == self.ratio(),
    ;

    /// How many frames are held inside, counted as they will come out.
    fn pending_output_frames(&self) -> (frames: u64)
        requires
            self.inv(),
        ensures
            frames == self.pending(),
    ;

    /// Whether the effect is already built for this device shape.
    fn matches(&self, rate: u32, channels: usize) -> (fits: bool)
        requires
            self.inv(),
        ensures
            fits == self.fits(rate, channels),
    ;

    /// Rebuilds for a new device shape, keeping the settings.
    fn reconfigure(&mut self, rate: u32, channels: usize) -> (result: Result<(), String>)
        requires
            old(self).inv(),
        ensures
            final(self).inv(),
            final(self).label() == old(self).label(),
            final(self).place() == old(self).place(),
            Self::rebuilt(*old(self), rate, channels, *final(self), outcome(result)),
    ;

    /// A fresh instance with the same settings and no audio: the crossfade
    /// mirror for an incoming track.
    fn spawn_mirror(&self) -> (mirror: Self)
        requires
            self.inv(),
        ensures
            mirror.inv(),
            mirror.place() == self.place(),
            Self::mirrored(*self, mirror),
    ;
}

/// Brings interleaved audio to device rate, ahead of the effects.
///
/// What it makes of the audio is its own affair. The relation here names it.
pub trait Resample<T>: Sized {
    /// What holds of a resampler between calls.
    closed spec fn inv(&self) -> bool {
        arbitrary()
    }

    /// Whether `before`, given `input`, can put out `output` and become `after`
    /// with this result.
    closed spec fn resampled(
        before: Self,
        input: Seq<T>,
        after: Self,
        output: Seq<T>,
        result: Result<(), Seq<char>>,
    ) -> bool {
        arbitrary()
    }

    /// Resamples `input`, appending to `output`.
    fn process(&mut self, input: &[T], output: &mut Vec<T>) -> (result: Result<(), String>)
        requires
            old(self).inv(),
        ensures
            final(self).inv(),
            old(output)@.is_prefix_of(final(output)@),
            Self::resampled(
                *old(self),
                input@,
                *final(self),
                final(output)@.skip(old(output)@.len() as int),
                outcome(result),
            ),
    ;
}

/// The resampler for a device rate that is a multiple of the source's: every
/// frame comes out so many times over.
pub struct Repeater {
    channels: usize,
    times: usize,
}

/// Every whole frame of `input`, `times` times over.
pub open spec fn every_frame_repeated<T>(input: Seq<T>, channels: nat, times: nat) -> Seq<T> {
    Seq::new(
        input.len() / channels * times * channels,
        |j: int|
            input[j / (channels as int) / (times as int) * channels + j % (channels as int)],
    )
}

impl Repeater {
    /// The channel count.
    pub closed spec fn channels(&self) -> nat {
        self.channels as nat
    }

    /// How often each frame comes out.
    pub closed spec fn times(&self) -> nat {
        self.times as nat
    }

    /// Repeats every frame of `channels` channels `times` times.
    pub fn new(channels: usize, times: usize) -> (repeater: Self)
        requires
            channels > 0,
            times > 0,
        ensures
            repeater.channels() == channels,
            repeater.times() == times,
    {
        Repeater { channels, times }
    }
}

impl<T: Copy> Resample<T> for Repeater {
    open spec fn inv(&self) -> bool {
        self.channels() > 0 && self.times() > 0
    }

    open spec fn resampled(
        before: Self,
        input: Seq<T>,
        after: Self,
        output: Seq<T>,
        result: Result<(), Seq<char>>,
    ) -> bool {
        &&& result is Ok
        &&& after == before
        &&& output == every_frame_repeated(input, before.channels(), before.times())
    }

    fn process(&mut self, input: &[T], output: &mut Vec<T>) -> (result: Result<(), String>) {
        let ghost begun = output@;
        let ghost ch = self.channels as nat;
        let ghost times = self.times as nat;
        let ghost goal = every_frame_repeated(input@, ch, times);
        let frames: usize = input.len() / self.channels;
        let mut i: usize = 0;
        assert(0 * times * ch == 0) by (nonlinear_arith);
        assert(goal.take(0) =~= Seq::<T>::empty());
        proof {
            vstd::arithmetic::div_mod::lemma_fundamental_div_mod(input@.len() as int, ch as int);
        }
        while i < frames
            invariant
                i <= frames,
                *self == *old(self),
                ch == self.channels,
                times == self.times,
                ch > 0,
                times > 0,
                frames == input@.len() / ch,
                ch * frames <= input@.len(),
                goal == every_frame_repeated(input@, ch, times),
                goal.len() == frames * times * ch,
                0 <= i * times * ch <= goal.len(),
                output@ == begun + goal.take((i * times * ch) as int),
            decreases frames - i,
        {
            let mut k: usize = 0;
            assert((i * times + 0) * ch == i * times * ch);
            while k < self.times
                invariant
                    i < frames,
                    k <= self.times,
                    *self == *old(self),
                    ch == self.channels,
                    times == self.times,
                    ch > 0,
                    times > 0,
                    frames == input@.len() / ch,
                    ch * frames <= input@.len(),
                    goal == every_frame_repeated(input@, ch, times),
                    goal.len() == frames * times * ch,
                    0 <= (i * times + k) * ch <= goal.len(),
                    output@ == begun + goal.take(((i * times + k) * ch) as int),
                decreases self.times - k,
            {
                proof {
                    lemma_repeated_frame(input@, ch, times, i as int, k as int);
                    assert((i + 1) * ch <= ch * frames && (i + 1) * ch == i * ch + ch)
                        by (nonlinear_arith)
                        requires
                            i + 1 <= frames,
                    ;
                    assert(input.len() <= usize::MAX);
                }
                let at: usize = i * self.channels;
                append_copy(
                    output,
                    vstd::slice::slice_subrange(input, at, at + self.channels),
                );
                proof {
                    let p = (i * times + k) * ch;
                    assert(goal.take(p) + goal.subrange(p, p + ch) =~= goal.take(p + ch));
                    assert((i * times + (k + 1)) * ch == p + ch) by (nonlinear_arith)
                        requires
                            p == (i * times + k) * ch,
                    ;
                }
                k += 1;
            }
            proof {
                assert((i * times + times) * ch == (i + 1) * times * ch) by (nonlinear_arith);
            }
            i += 1;
        }
        assert(goal.take(goal.len() as int) =~= goal);
        assert(output@.skip(begun.len() as int) =~= goal);
        Ok(())
    }
}

/// The `k`th copy of frame `i`.
proof fn lemma_repeated_frame<T>(input: Seq<T>, ch: nat, times: nat, i: int, k: int)
    requires
        ch > 0,
        times > 0,
        0 <= i < input.len() / ch,
        0 <= k < times,
    ensures
        ({
            let p = (i * times + k) * ch;
            let all = every_frame_repeated(input, ch, times);
            &&& 0 <= p
            &&& p + ch <= all.len()
            &&& all.subrange(p, p + ch) == input.subrange(i * ch, i * ch + ch)
        }),
{
    let frames = input.len() / ch;
    let p = (i * times + k) * ch;
    let all = every_frame_repeated(input, ch, times);
    let copy = i * times + k;
    assert(0 <= copy && copy + 1 <= frames * times) by (nonlinear_arith)
        requires
            copy == i * times + k,
            0 <= i,
            i + 1 <= frames,
            0 <= k < times,
    ;
    assert(0 <= p && p + ch <= frames * times * ch) by (nonlinear_arith)
        requires
            p == copy * ch,
            0 <= copy,
            copy + 1 <= frames * times,
    ;
    vstd::arithmetic::div_mod::lemma_fundamental_div_mod(input.len() as int, ch as int);
    assert(0 <= i * ch && i * ch + ch <= ch * frames) by (nonlinear_arith)
        requires
            0 <= i,
            i + 1 <= frames,
    ;
    vstd::arithmetic::div_mod::lemma_fundamental_div_mod_converse(copy, times as int, i, k);
    assert forall|c: int| 0 <= c < ch implies #[trigger] all[p + c] == input[i * ch + c] by {
        vstd::arithmetic::div_mod::lemma_fundamental_div_mod_converse(p + c, ch as int, copy, c);
    }
    let frame = all.subrange(p, p + ch);
    let source = input.subrange(i * ch, i * ch + ch);
    assert forall|c: int| 0 <= c < ch implies #[trigger] frame[c] == source[c] by {
        assert(all[p + c] == input[i * ch + c]);
    }
    assert(frame =~= source);
}

/// Whether an effect shapes audio.
pub open spec fn engages<E: Effect>(effect: E) -> bool {
    effect.active() && !effect.bypassed()
}

/// Whether any effect shapes audio.
pub open spec fn any_engages<E: Effect>(effects: Seq<E>) -> bool {
    exists|i: int| 0 <= i < effects.len() && engages(#[trigger] effects[i])
}

/// The combined time ratio of the first `n` effects: the product of those of
/// the engaged ones, held at the fastest pace that a timeline takes.
pub open spec fn combined_ratio<E: Effect>(effects: Seq<E>, n: nat) -> nat
    decreases n,
{
    if n == 0 {
        UNITY as nat
    } else {
        let so_far = combined_ratio(effects, (n - 1) as nat);
        if engages(effects[n - 1]) {
            let product = so_far * effects[n - 1].ratio() / UNITY as nat;
            if product > PACE_LIMIT {
                PACE_LIMIT as nat
            } else {
                product
            }
        } else {
            so_far
        }
    }
}

/// The frames held by the first `n` effects, as far as they are engaged.
pub open spec fn held_frames<E: Effect>(effects: Seq<E>, n: nat) -> nat
    decreases n,
{
    if n == 0 {
        0
    } else {
        held_frames(effects, (n - 1) as nat) + if engages(effects[n - 1]) {
            effects[n - 1].pending()
        } else {
            0
        }
    }
}

/// The effects that are active, in order.
pub open spec fn live<E: Effect>(effects: Seq<E>) -> Seq<E>
    decreases effects.len(),
{
    if effects.len() == 0 {
        Seq::empty()
    } else if effects.last().active() {
        live(effects.drop_last()).push(effects.last())
    } else {
        live(effects.drop_last())
    }
}

/// An error as the chain reports it: with the name of the effect it came from.
pub open spec fn blamed(label: Seq<char>, message: Seq<char>) -> Seq<char> {
    label + seq![':', ' '] + message
}

/// One effect's part in a pass: an engaged one processes, any other is skipped.
pub open spec fn step<E: Effect>(
    before: E,
    after: E,
    input: Seq<E::Sample>,
    output: Seq<E::Sample>,
) -> bool {
    if engages(before) {
        E::processed(before, input, after, output, Ok(()))
    } else {
        after == before && output == input
    }
}

/// `trace` is the audio before, between and after the first `n` effects.
pub open spec fn threads<E: Effect>(
    before: Seq<E>,
    after: Seq<E>,
    trace: Seq<Seq<E::Sample>>,
    n: int,
) -> bool {
    &&& trace.len() == n + 1
    &&& forall|i: int|
        0 <= i < n ==> step(#[trigger] before[i], after[i], trace[i], trace[i + 1])
}

/// An effect failed on `input`, and the chain reports it with `message`.
pub open spec fn failed<E: Effect>(
    before: E,
    after: E,
    input: Seq<E::Sample>,
    message: Seq<char>,
) -> bool {
    exists|partial: Seq<E::Sample>, cause: Seq<char>|
        {
            &&& #[trigger] E::processed(before, input, after, partial, Err(cause))
            &&& message == blamed(after.label(), cause)
        }
}

/// A pass through the first `n` effects and then a failure of the next one,
/// which leaves the effects after it alone.
pub open spec fn fails_at<E: Effect>(
    before: Seq<E>,
    after: Seq<E>,
    trace: Seq<Seq<E::Sample>>,
    n: int,
    message: Seq<char>,
) -> bool {
    &&& 0 <= n < before.len()
    &&& threads(before, after, trace, n)
    &&& engages(before[n])
    &&& failed(before[n], after[n], trace[n], message)
    &&& forall|j: int| n < j < before.len() ==> #[trigger] after[j] == before[j]
}

/// `input` went through every engaged effect in order and came out as `output`.
pub open spec fn passed<E: Effect>(
    before: Seq<E>,
    after: Seq<E>,
    input: Seq<E::Sample>,
    output: Seq<E::Sample>,
) -> bool {
    &&& after.len() == before.len()
    &&& exists|trace: Seq<Seq<E::Sample>>|
        {
            &&& #[trigger] threads(before, after, trace, before.len() as int)
            &&& trace[0] == input
            &&& trace.last() == output
        }
}

/// `input` went into the effects and one of them failed, with `message`.
pub open spec fn stopped<E: Effect>(
    before: Seq<E>,
    after: Seq<E>,
    input: Seq<E::Sample>,
    message: Seq<char>,
) -> bool {
    &&& after.len() == before.len()
    &&& exists|trace: Seq<Seq<E::Sample>>, n: int|
        {
            &&& #[trigger] fails_at(before, after, trace, n, message)
            &&& trace[0] == input
        }
}

/// Every effect is fit to be called.
pub open spec fn all_sound<E: Effect>(effects: Seq<E>) -> bool {
    forall|i: int| 0 <= i < effects.len() ==> (#[trigger] effects[i]).inv()
}

/// No two effects take one place.
pub open spec fn uncrowded<E: Effect>(effects: Seq<E>) -> bool {
    forall|i: int, j: int|
        0 <= i < j < effects.len() && (#[trigger] effects[i]).place() is Some ==> effects[i].place()
            != (#[trigger] effects[j]).place()
}

/// Whether the place that `effect` takes is free.
pub open spec fn has_room_for<E: Effect>(effects: Seq<E>, effect: E) -> bool {
    effect.place() is Some ==> forall|i: int|
        0 <= i < effects.len() ==> (#[trigger] effects[i]).place() != effect.place()
}

/// The effects of `b` take the places of those of `a`.
pub open spec fn same_places<E: Effect>(a: Seq<E>, b: Seq<E>) -> bool {
    &&& a.len() == b.len()
    &&& forall|i: int|
        #![trigger a[i].place()]
        #![trigger b[i].place()]
        0 <= i < a.len() ==> a[i].place() == b[i].place()
}

/// The active effects are effects.
proof fn lemma_live_is_among<E: Effect>(effects: Seq<E>, j: int)
    requires
        0 <= j < live(effects).len(),
    ensures
        exists|i: int| 0 <= i < effects.len() && live(effects)[j] == #[trigger] effects[i],
    decreases effects.len(),
{
    if effects.len() > 0 {
        let rest = effects.drop_last();
        if effects.last().active() && j == live(rest).len() {
            assert(live(effects)[j] == effects[effects.len() - 1]);
        } else {
            lemma_live_is_among(rest, j);
            let i = choose|i: int| 0 <= i < rest.len() && live(rest)[j] == #[trigger] rest[i];
            assert(live(effects)[j] == effects[i]);
        }
    }
}

/// Dropping the inactive effects crowds no place.
proof fn lemma_live_is_uncrowded<E: Effect>(effects: Seq<E>)
    requires
        uncrowded(effects),
    ensures
        uncrowded(live(effects)),
    decreases effects.len(),
{
    if effects.len() > 0 {
        let rest = effects.drop_last();
        assert(uncrowded(rest));
        lemma_live_is_uncrowded(rest);
        if effects.last().active() {
            let kept = live(rest);
            let all = live(effects);
            let n = kept.len() as int;
            assert forall|i: int, j: int|
                0 <= i < j < all.len() && (#[trigger] all[i]).place() is Some implies all[i].place()
                != (#[trigger] all[j]).place() by {
                assert(all[i] == kept[i]);
                if j < n {
                    assert(all[j] == kept[j]);
                } else {
                    lemma_live_is_among(rest, i);
                    let at = choose|at: int|
                        0 <= at < rest.len() && live(rest)[i] == #[trigger] rest[at];
                    assert(effects[at] == all[i]);
                    assert(effects[effects.len() - 1] == all[j]);
                }
            }
        }
    }
}

/// `message` with the name of the effect it came from.
fn blame(label: &str, message: String) -> (blamed_message: String)
    ensures
        blamed_message@ == blamed(label@, message@),
{
    let mut whole: String = label.to_owned();
    proof {
        reveal_strlit(": ");
    }
    whole.append(": ");
    whole.append(message.as_str());
    assert(": "@ =~= seq![':', ' ']);
    whole
}

/// Passes `input` through the engaged effects from `from` on.
fn pass<E: Effect>(effects: &mut Vec<E>, from: usize, input: Vec<E::Sample>) -> (result: Result<
    Vec<E::Sample>,
    String,
>)
    requires
        from <= old(effects)@.len(),
        all_sound(old(effects)@),
    ensures
        all_sound(final(effects)@),
        same_places(old(effects)@, final(effects)@),
        final(effects)@.len() == old(effects)@.len(),
        forall|j: int| 0 <= j < from ==> #[trigger] final(effects)@[j] == old(effects)@[j],
        match result {
            Ok(output) => passed(
                old(effects)@.skip(from as int),
                final(effects)@.skip(from as int),
                input@,
                output@,
            ),
            Err(message) => stopped(
                old(effects)@.skip(from as int),
                final(effects)@.skip(from as int),
                input@,
                message@,
            ),
        },
{
    let ghost before = effects@;
    let ghost b = before.skip(from as int);
    let ghost mut trace = seq![input@];
    let ghost start = input@;
    let mut current: Vec<E::Sample> = input;
    let mut i: usize = from;
    while i < effects.len()
        invariant
            from <= i <= effects@.len(),
            effects@.len() == before.len(),
            before == old(effects)@,
            all_sound(effects@),
            same_places(before, effects@),
            b == before.skip(from as int),
            forall|j: int| 0 <= j < from ==> #[trigger] effects@[j] == before[j],
            forall|j: int| i <= j < before.len() ==> #[trigger] effects@[j] == before[j],
            threads(b, effects@.skip(from as int), trace, i - from),
            start == input@,
            trace[0] == start,
            trace.last() == current@,
        decreases effects@.len() - i,
    {
        let ghost a = effects@.skip(from as int);
        let ghost k = i - from;
        assert(b[k] == effects@[i as int]);
        if effects[i].is_active() && !effects[i].is_bypassed() {
            let mut output: Vec<E::Sample> = Vec::new();
            let result = effects[i].process(current.as_slice(), &mut output);
            assert(output@.skip(0) =~= output@);
            let ghost a2 = effects@.skip(from as int);
            proof {
                assert forall|j: int| 0 <= j < k implies a2[j] == #[trigger] a[j] by {
                    assert(a2[j] == effects@[j + from]);
                }
                assert(a2[k] == effects@[i as int]);
            }
            match result {
                Err(message) => {
                    let ghost cause = message@;
                    let whole: String = blame(effects[i].name(), message);
                    proof {
                        assert(failed(b[k], a2[k], trace[k], whole@)) by {
                            assert(E::processed(b[k], trace[k], a2[k], output@, Err(cause)));
                        }
                        assert forall|j: int| 0 <= j < k implies step(
                            #[trigger] b[j],
                            a2[j],
                            trace[j],
                            trace[j + 1],
                        ) by {
                            assert(a[j] == a2[j]);
                        }
                        assert forall|j: int| k < j < b.len() implies #[trigger] a2[j] == b[j] by {
                            assert(a2[j] == effects@[j + from]);
                            assert(b[j] == before[j + from]);
                        }
                        assert(fails_at(b, a2, trace, k, whole@));
                    }
                    return Err(whole);
                },
                Ok(()) => {
                    let ghost longer = trace.push(output@);
                    proof {
                        assert forall|j: int| 0 <= j < k + 1 implies step(
                            #[trigger] b[j],
                            a2[j],
                            longer[j],
                            longer[j + 1],
                        ) by {
                            if j < k {
                                assert(a[j] == a2[j]);
                                assert(step(b[j], a[j], trace[j], trace[j + 1]));
                            }
                        }
                        trace = longer;
                    }
                    current = output;
                },
            }
        } else {
            let ghost longer = trace.push(current@);
            proof {
                assert forall|j: int| 0 <= j < k + 1 implies step(
                    #[trigger] b[j],
                    a[j],
                    longer[j],
                    longer[j + 1],
                ) by {
                    if j < k {
                        assert(step(b[j], a[j], trace[j], trace[j + 1]));
                    } else {
                        assert(a[k] == effects@[i as int]);
                    }
                }
                trace = longer;
            }
        }
        i += 1;
    }
    assert(threads(b, effects@.skip(from as int), trace, b.len() as int));
    Ok(current)
}

/// Ticks to a second at device rate `rate`.
fn second_at(rate: u32) -> (second: u128)
    ensures
        second == rate * UNITY,
        second <= SECOND_LIMIT,
{
    assert(rate * 0x1_0000_0000 <= 0x1_0000_0000_0000_0000) by (nonlinear_arith)
        requires
            rate <= 0xffff_ffff,
    ;
    rate as u128 * UNITY as u128
}

/// Where source time and its map stand.
pub struct Clock {
    /// Source time fed through the chain so far; unknown until the first
    /// engaged run takes it from the ring position.
    pub consumed: Option<nat>,
    pub markers: Seq<Marker>,
}

/// The clock after `produced` frames of output at ring position `origin` came
/// of `consumed` frames of input, at time ratio `ratio`. The first run starts
/// from the ring position itself: all audio before it was one source frame to
/// the device frame. Source time advances by exact input frames.
pub open spec fn noted(
    clock: Clock,
    second: int,
    origin: u64,
    produced: nat,
    consumed: nat,
    ratio: u64,
) -> Clock {
    let at = match clock.consumed {
        Some(at) => at,
        None => origin as nat * UNITY as nat,
    };
    let reached = at + consumed * UNITY as nat;
    Clock {
        consumed: Some(
            if reached > SOURCE_LIMIT {
                SOURCE_LIMIT as nat
            } else {
                reached
            },
        ),
        markers: if produced > 0 {
            recorded(clock.markers, second, origin, at as u128, ratio)
        } else {
            clock.markers
        },
    }
}

/// The ordered effects between the resampler and the ring, and the timeline
/// that they imply.
pub struct Chain<E: Effect> {
    effects: Vec<E>,
    rate: u32,
    channels: usize,
    consumed: Option<u128>,
    timeline: Timeline,
    /// A crossfade mirror records nothing: where its output lands in the ring
    /// is known only when it is mixed. Set when it is adopted.
    recording: bool,
    /// Set by a drain, so that draining an exhausted track again and again
    /// flushes it once.
    drained: bool,
}

impl<E: Effect> Chain<E> {
    /// The effects, in order.
    pub closed spec fn effects(&self) -> Seq<E> {
        self.effects@
    }

    /// The sample rate.
    pub closed spec fn rate(&self) -> u32 {
        self.rate
    }

    /// The channel count.
    pub closed spec fn channels(&self) -> usize {
        self.channels
    }

    /// What is known of source time.
    pub closed spec fn clock(&self) -> Clock {
        Clock {
            consumed: match self.consumed {
                Some(at) => Some(at as nat),
                None => None,
            },
            markers: self.timeline.markers(),
        }
    }

    /// Whether output is noted in the timeline.
    pub closed spec fn recording(&self) -> bool {
        self.recording
    }

    /// Whether all has been put out since the last input.
    pub closed spec fn drained(&self) -> bool {
        self.drained
    }

    /// What holds between calls.
    pub closed spec fn wf(&self) -> bool {
        &&& all_sound(self.effects@)
        &&& uncrowded(self.effects@)
        &&& self.timeline.wf()
        &&& self.timeline.second() == self.rate * UNITY
        &&& self.consumed matches Some(at) ==> at <= SOURCE_LIMIT
    }

    /// The map of a chain is sound, so that positions on it never go back.
    pub proof fn the_map_is_sound(&self)
        requires
            self.wf(),
        ensures
            sound(self.clock().markers),
            self.clock().consumed matches Some(at) ==> at <= SOURCE_LIMIT,
            all_sound(self.effects()),
            uncrowded(self.effects()),
    {
        self.timeline.markers_are_sound();
    }

    /// Ticks to a second.
    pub open spec fn second(&self) -> int {
        self.rate() * UNITY
    }

    /// Samples to a frame; one before the device shape is known.
    pub open spec fn width(&self) -> nat {
        if self.channels() == 0 {
            1
        } else {
            self.channels() as nat
        }
    }

    /// An empty chain that records its timeline.
    pub fn new() -> (chain: Self)
        ensures
            chain.wf(),
            chain.effects() == Seq::<E>::empty(),
            chain.rate() == 0,
            chain.channels() == 0,
            chain.clock() == (Clock { consumed: None, markers: Seq::empty() }),
            chain.recording(),
            !chain.drained(),
    {
        Chain {
            effects: Vec::new(),
            rate: 0,
            channels: 0,
            consumed: None,
            timeline: Timeline::new(0),
            recording: true,
            drained: false,
        }
    }

    /// Adds an effect behind those already there. Its place must be free.
    pub fn push(&mut self, effect: E)
        requires
            old(self).wf(),
            effect.inv(),
            has_room_for(old(self).effects(), effect),
        ensures
            final(self).wf(),
            final(self).effects() == old(self).effects().push(effect),
            final(self).rate() == old(self).rate(),
            final(self).channels() == old(self).channels(),
            final(self).clock() == old(self).clock(),
            final(self).recording() == old(self).recording(),
            final(self).drained() == old(self).drained(),
    {
        self.effects.push(effect);
    }

    /// How many effects there are.
    pub fn len(&self) -> (n: usize)
        ensures
            n == self.effects().len(),
    {
        self.effects.len()
    }

    /// Whether any effect shapes audio right now.
    pub fn engaged(&self) -> (engaged: bool)
        requires
            self.wf(),
        ensures
            engaged == any_engages(self.effects()),
    {
        let mut i: usize = 0;
        while i < self.effects.len()
            invariant
                self.wf(),
                i <= self.effects@.len(),
                forall|j: int| 0 <= j < i ==> !engages(#[trigger] self.effects@[j]),
            decreases self.effects@.len() - i,
        {
            if self.effects[i].is_active() && !self.effects[i].is_bypassed() {
                assert(engages(self.effects@[i as int]));
                return true;
            }
            i += 1;
        }
        false
    }

    /// Source time to output time, in parts of [`UNITY`].
    pub fn time_ratio(&self) -> (ratio: u64)
        requires
            self.wf(),
        ensures
            ratio == combined_ratio(self.effects(), self.effects().len()),
            ratio <= PACE_LIMIT,
    {
        let mut ratio: u64 = UNITY;
        let mut i: usize = 0;
        while i < self.effects.len()
            invariant
                self.wf(),
                i <= self.effects@.len(),
                ratio == combined_ratio(self.effects@, i as nat),
                ratio <= PACE_LIMIT,
            decreases self.effects@.len() - i,
        {
            if self.effects[i].is_active() && !self.effects[i].is_bypassed() {
                let own: u64 = self.effects[i].time_ratio();
                assert(ratio * own <= 0xffff_ffff_ffff_ffff * 0xffff_ffff_ffff_ffff)
                    by (nonlinear_arith)
                    requires
                        ratio <= 0xffff_ffff_ffff_ffff,
                        own <= 0xffff_ffff_ffff_ffff,
                ;
                let product: u128 = ratio as u128 * own as u128 / UNITY as u128;
                ratio = if product > PACE_LIMIT as u128 {
                    PACE_LIMIT
                } else {
                    product as u64
                };
            }
            i += 1;
        }
        ratio
    }

    /// Output frames still held inside the engaged effects.
    pub fn pending_output_frames(&self) -> (frames: u64)
        requires
            self.wf(),
            held_frames(self.effects(), self.effects().len()) <= u64::MAX,
        ensures
            frames == held_frames(self.effects(), self.effects().len()),
    {
        let mut frames: u64 = 0;
        let mut i: usize = 0;
        while i < self.effects.len()
            invariant
                self.wf(),
                i <= self.effects@.len(),
                frames == held_frames(self.effects@, i as nat),
                held_frames(self.effects@, self.effects@.len()) <= u64::MAX,
            decreases self.effects@.len() - i,
        {
            proof {
                lemma_held_frames_grow(self.effects@, i as nat + 1, self.effects@.len());
            }
            if self.effects[i].is_active() && !self.effects[i].is_bypassed() {
                frames += self.effects[i].pending_output_frames();
            }
            i += 1;
        }
        frames
    }
}

proof fn lemma_held_frames_grow<E: Effect>(effects: Seq<E>, n: nat, m: nat)
    requires
        n <= m,
    ensures
        held_frames(effects, n) <= held_frames(effects, m),
    decreases m,
{
    if n < m {
        lemma_held_frames_grow(effects, n, (m - 1) as nat);
    }
}

impl<E: Effect> Default for Chain<E> {
    fn default() -> (chain: Self)
        ensures
            chain.wf(),
            chain.effects() == Seq::<E>::empty(),
            chain.rate() == 0,
            chain.channels() == 0,
            chain.clock() == (Clock { consumed: None, markers: Seq::empty() }),
            chain.recording(),
            !chain.drained(),
    {
        Chain::new()
    }
}

impl<E: Effect> Chain<E> {
    /// Nothing changed but what the caller names.
    pub open spec fn same_shape(&self, other: Self) -> bool {
        &&& self.rate() == other.rate()
        &&& self.channels() == other.channels()
        &&& self.recording() == other.recording()
    }

    /// `carried`, at device rate, went through the effects of `before` and was
    /// appended to `had`, which starts at ring position `frames_written`. With
    /// nothing engaged that is `carried` itself.
    pub open spec fn ran(
        before: Self,
        carried: Seq<E::Sample>,
        had: Seq<E::Sample>,
        frames_written: u64,
        after: Self,
        out: Seq<E::Sample>,
        result: Result<(), Seq<char>>,
    ) -> bool {
        let width = before.width();
        let origin = (frames_written + had.len() / width) as u64;
        let effects = before.effects();
        &&& after.same_shape(before)
        &&& same_places(effects, after.effects())
        &&& if !any_engages(effects) {
            &&& result is Ok
            &&& out == had + carried
            &&& after.effects() == effects
            &&& after.drained() == before.drained()
            &&& after.clock() == if before.recording() && before.clock().consumed is Some
                && before.rate() > 0 {
                noted(
                    before.clock(),
                    before.second(),
                    origin,
                    carried.len() / width,
                    carried.len() / width,
                    UNITY,
                )
            } else {
                before.clock()
            }
        } else {
            &&& !after.drained()
            &&& had.is_prefix_of(out)
            &&& match result {
                Ok(()) => {
                    &&& passed(effects, after.effects(), carried, out.skip(had.len() as int))
                    &&& after.clock() == if before.recording() && before.rate() > 0 {
                        noted(
                            before.clock(),
                            before.second(),
                            origin,
                            (out.len() - had.len()) as nat / width,
                            carried.len() / width,
                            combined_ratio(effects, effects.len()) as u64,
                        )
                    } else {
                        before.clock()
                    }
                },
                Err(message) => {
                    &&& out == had
                    &&& after.clock() == before.clock()
                    &&& stopped(effects, after.effects(), carried, message)
                },
            }
        }
    }

    /// `input` went through a resampler and what came out of it through the
    /// effects, as [`ran`](Self::ran) says. Where the resampler fails, no effect
    /// is called.
    pub open spec fn ran_resampled<R: Resample<E::Sample>>(
        before: Self,
        resampler: R,
        input: Seq<E::Sample>,
        had: Seq<E::Sample>,
        frames_written: u64,
        after: Self,
        resampled: R,
        out: Seq<E::Sample>,
        result: Result<(), Seq<char>>,
    ) -> bool {
        exists|carried: Seq<E::Sample>, came: Result<(), Seq<char>>|
            {
                &&& #[trigger] R::resampled(resampler, input, resampled, carried, came)
                &&& match came {
                    Ok(()) => Self::ran(
                        before,
                        carried,
                        had,
                        frames_written,
                        after,
                        out,
                        result,
                    ),
                    Err(_) => {
                        &&& result == came
                        &&& after.same_shape(before)
                        &&& after.effects() == before.effects()
                        &&& after.clock() == before.clock()
                        &&& if any_engages(before.effects()) {
                            !after.drained() && out == had
                        } else {
                            after.drained() == before.drained() && out == had + carried
                        }
                    },
                }
            }
    }

    /// Whether a run behind `buffered` samples can be marked, where it is: the
    /// ring position that it starts at can be counted. Audio that no effect has
    /// changed since the chain began is not marked.
    pub open spec fn can_mark(&self, frames_written: u64, buffered: nat) -> bool {
        self.recording() && self.rate() > 0 && (any_engages(self.effects())
            || self.clock().consumed is Some) ==> frames_written + buffered / self.width()
            <= u64::MAX
    }

    /// Whether the next run can be marked behind `buffered` samples from ring
    /// position `frames_written` on.
    pub fn has_room(&self, frames_written: u64, buffered: usize) -> (yes: bool)
        requires
            self.wf(),
        ensures
            yes == self.can_mark(frames_written, buffered as nat),
    {
        if self.recording && self.rate > 0 && (self.engaged() || self.consumed.is_some()) {
            let frames: usize = buffered / self.frame_width();
            frames as u64 <= u64::MAX - frames_written
        } else {
            true
        }
    }

    /// The pump's entry point where the source is at device rate: takes `input`
    /// through the effects and appends what comes out to `out`. With nothing
    /// engaged that is `input` itself.
    ///
    /// `frames_written` is the ring position that the content of `out` starts
    /// at, and pins the markers: what is appended at frame `n` of `out` will
    /// be the ring's frame `frames_written + n`.
    pub fn process(
        &mut self,
        input: &[E::Sample],
        out: &mut Vec<E::Sample>,
        frames_written: u64,
    ) -> (result: Result<(), String>)
        requires
            old(self).wf(),
            old(self).can_mark(frames_written, old(out)@.len()),
        ensures
            final(self).wf(),
            Self::ran(
                *old(self),
                input@,
                old(out)@,
                frames_written,
                *final(self),
                final(out)@,
                outcome(result),
            ),
    {
        let before: usize = out.len();
        if !self.engaged() {
            append_copy(out, input);
            self.note_plain(frames_written, before, input.len());
            return Ok(());
        }
        let mut carried: Vec<E::Sample> = Vec::with_capacity(input.len());
        append_copy(&mut carried, input);
        assert(carried@ =~= input@);
        self.run_effects(carried, out, frames_written)
    }

    /// The pump's entry point where the source is at another rate: takes
    /// `input` through the resampler and then through the effects. With nothing
    /// engaged that is what the resampler itself does.
    pub fn process_resampled<R: Resample<E::Sample>>(
        &mut self,
        resampler: &mut R,
        input: &[E::Sample],
        out: &mut Vec<E::Sample>,
        frames_written: u64,
    ) -> (result: Result<(), String>)
        requires
            old(self).wf(),
            old(resampler).inv(),
            old(self).can_mark(frames_written, old(out)@.len()),
        ensures
            final(self).wf(),
            final(resampler).inv(),
            Self::ran_resampled(
                *old(self),
                *old(resampler),
                input@,
                old(out)@,
                frames_written,
                *final(self),
                *final(resampler),
                final(out)@,
                outcome(result),
            ),
    {
        let before: usize = out.len();
        let ghost begun = out@;
        if !self.engaged() {
            let came = resampler.process(input, out);
            let ghost more = out@.skip(begun.len() as int);
            assert(out@ =~= begun + more);
            assert(R::resampled(*old(resampler), input@, *resampler, more, outcome(came)));
            if came.is_ok() {
                self.note_plain(frames_written, before, out.len() - before);
            }
            return came;
        }
        self.drained = false;
        let mut carried: Vec<E::Sample> = Vec::new();
        let came = resampler.process(input, &mut carried);
        assert(carried@.skip(0) =~= carried@);
        assert(R::resampled(*old(resampler), input@, *resampler, carried@, outcome(came)));
        match came {
            Err(message) => Err(message),
            Ok(()) => self.run_effects(carried, out, frames_written),
        }
    }

    /// Marks `samples` samples of plain audio that came out behind `before`
    /// others. Audio that no effect has changed since the chain began needs no
    /// marks.
    fn note_plain(&mut self, frames_written: u64, before: usize, samples: usize)
        requires
            old(self).wf(),
            !any_engages(old(self).effects()),
            old(self).can_mark(frames_written, before as nat),
        ensures
            final(self).wf(),
            final(self).same_shape(*old(self)),
            final(self).effects() == old(self).effects(),
            final(self).drained() == old(self).drained(),
            final(self).clock() == if old(self).recording() && old(self).clock().consumed is Some
                && old(self).rate() > 0 {
                noted(
                    old(self).clock(),
                    old(self).second(),
                    (frames_written + before as nat / old(self).width()) as u64,
                    samples as nat / old(self).width(),
                    samples as nat / old(self).width(),
                    UNITY,
                )
            } else {
                old(self).clock()
            },
    {
        if self.recording && self.consumed.is_some() && self.rate > 0 {
            let width: usize = self.frame_width();
            let produced: usize = samples / width;
            self.note_output(frames_written, before / width, produced, produced, UNITY);
        }
    }

    fn frame_width(&self) -> (width: usize)
        ensures
            width == self.width(),
            width > 0,
    {
        if self.channels == 0 {
            1
        } else {
            self.channels
        }
    }

    /// Takes `carried` through the engaged effects and appends the result.
    fn run_effects(
        &mut self,
        carried: Vec<E::Sample>,
        out: &mut Vec<E::Sample>,
        frames_written: u64,
    ) -> (result: Result<(), String>)
        requires
            old(self).wf(),
            any_engages(old(self).effects()),
            old(self).can_mark(frames_written, old(out)@.len()),
        ensures
            final(self).wf(),
            Self::ran(
                *old(self),
                carried@,
                old(out)@,
                frames_written,
                *final(self),
                final(out)@,
                outcome(result),
            ),
    {
        let width: usize = self.frame_width();
        let before: usize = out.len();
        let consumed: usize = carried.len() / width;
        let ghost begun = out@;
        self.drained = false;
        let ratio: u64 = self.time_ratio();
        let ghost effects = self.effects@;
        let passing = pass(&mut self.effects, 0, carried);
        proof {
            assert(effects.skip(0) =~= effects);
            assert(self.effects@.skip(0) =~= self.effects@);
        }
        match passing {
            Err(message) => Err(message),
            Ok(result) => {
                append_copy(out, result.as_slice());
                let produced: usize = result.len() / width;
                assert(out@.skip(begun.len() as int) =~= result@);
                if self.recording && self.rate > 0 {
                    self.note_output(frames_written, before / width, produced, consumed, ratio);
                }
                Ok(())
            },
        }
    }

    /// Advances source time by the input of one run and marks its output.
    fn note_output(
        &mut self,
        frames_written: u64,
        out_frames_before: usize,
        produced_frames: usize,
        consumed_frames: usize,
        ratio: u64,
    )
        requires
            old(self).wf(),
            frames_written + out_frames_before <= u64::MAX,
            ratio <= PACE_LIMIT,
        ensures
            final(self).wf(),
            final(self).same_shape(*old(self)),
            final(self).effects() == old(self).effects(),
            final(self).drained() == old(self).drained(),
            final(self).clock() == noted(
                old(self).clock(),
                old(self).second(),
                (frames_written + out_frames_before) as u64,
                produced_frames as nat,
                consumed_frames as nat,
                ratio,
            ),
    {
        let origin: u64 = frames_written + out_frames_before as u64;
        let at: u128 = match self.consumed {
            Some(at) => at,
            None => origin as u128 * UNITY as u128,
        };
        if produced_frames > 0 {
            self.timeline.record(origin, at, ratio);
        }
        let reached: u128 = at + consumed_frames as u128 * UNITY as u128;
        self.consumed = Some(
            if reached > SOURCE_LIMIT {
                SOURCE_LIMIT
            } else {
                reached
            },
        );
    }
}

/// Pieces of audio, one after another.
pub open spec fn joined<T>(pieces: Seq<Seq<T>>) -> Seq<T>
    decreases pieces.len(),
{
    if pieces.len() == 0 {
        Seq::empty()
    } else {
        joined(pieces.drop_last()) + pieces.last()
    }
}

/// Effect `i` put out all it held, which went on through the effects behind it
/// and came out as `emitted`.
pub open spec fn flushed_at<E: Effect>(
    before: Seq<E>,
    after: Seq<E>,
    i: int,
    emitted: Seq<E::Sample>,
) -> bool {
    &&& after.len() == before.len()
    &&& forall|j: int| 0 <= j < i ==> #[trigger] after[j] == before[j]
    &&& exists|held: Seq<E::Sample>|
        {
            &&& #[trigger] E::flushed(before[i], after[i], held, Ok(()))
            &&& passed(before.skip(i + 1), after.skip(i + 1), held, emitted)
        }
}

/// Flushing effect `i` failed with `message`: in the effect itself, or in one
/// behind it that what it held went on to.
pub open spec fn flush_fails_at<E: Effect>(
    before: Seq<E>,
    after: Seq<E>,
    i: int,
    message: Seq<char>,
) -> bool {
    &&& after.len() == before.len()
    &&& forall|j: int| 0 <= j < i ==> #[trigger] after[j] == before[j]
    &&& {
        ||| {
            &&& after.skip(i + 1) == before.skip(i + 1)
            &&& exists|partial: Seq<E::Sample>, cause: Seq<char>|
                {
                    &&& #[trigger] E::flushed(before[i], after[i], partial, Err(cause))
                    &&& message == blamed(after[i].label(), cause)
                }
        }
        ||| exists|held: Seq<E::Sample>|
            {
                &&& #[trigger] E::flushed(before[i], after[i], held, Ok(()))
                &&& stopped(before.skip(i + 1), after.skip(i + 1), held, message)
            }
    }
}

/// The first `n` effects were flushed in turn. `states` are the effects
/// before, between and after, `emitted` what each flush put out.
pub open spec fn cascades<E: Effect>(
    states: Seq<Seq<E>>,
    emitted: Seq<Seq<E::Sample>>,
    n: int,
) -> bool {
    &&& states.len() == n + 1
    &&& emitted.len() == n
    &&& forall|i: int|
        0 <= i < n ==> if engages((#[trigger] states[i])[i]) {
            flushed_at(states[i], states[i + 1], i, emitted[i])
        } else {
            states[i + 1] == states[i] && emitted[i] == Seq::<E::Sample>::empty()
        }
}

/// Every engaged effect was flushed in turn, front to back.
pub open spec fn drained_through<E: Effect>(
    before: Seq<E>,
    after: Seq<E>,
    output: Seq<E::Sample>,
) -> bool {
    exists|states: Seq<Seq<E>>, emitted: Seq<Seq<E::Sample>>|
        {
            &&& #[trigger] cascades(states, emitted, before.len() as int)
            &&& states[0] == before
            &&& states.last() == after
            &&& joined(emitted) == output
        }
}

/// The flush of effect `n` fails after those before it went well.
pub open spec fn cascade_fails<E: Effect>(
    states: Seq<Seq<E>>,
    emitted: Seq<Seq<E::Sample>>,
    n: int,
    after: Seq<E>,
    message: Seq<char>,
) -> bool {
    &&& cascades(states, emitted, n)
    &&& 0 <= n < states.last().len()
    &&& engages(states.last()[n])
    &&& flush_fails_at(states.last(), after, n, message)
}

/// The engaged effects were flushed in turn until one flush failed.
pub open spec fn drain_stopped<E: Effect>(
    before: Seq<E>,
    after: Seq<E>,
    output: Seq<E::Sample>,
    message: Seq<char>,
) -> bool {
    exists|states: Seq<Seq<E>>, emitted: Seq<Seq<E::Sample>>, n: int|
        {
            &&& #[trigger] cascade_fails(states, emitted, n, after, message)
            &&& states[0] == before
            &&& joined(emitted) == output
        }
}

/// Flushes effect `i` through the effects behind it.
fn flush_one<E: Effect>(effects: &mut Vec<E>, i: usize) -> (result: Result<
    Vec<E::Sample>,
    String,
>)
    requires
        i < old(effects)@.len(),
        all_sound(old(effects)@),
    ensures
        all_sound(final(effects)@),
        same_places(old(effects)@, final(effects)@),
        final(effects)@.len() == old(effects)@.len(),
        match result {
            Ok(emitted) => flushed_at(old(effects)@, final(effects)@, i as int, emitted@),
            Err(message) => flush_fails_at(old(effects)@, final(effects)@, i as int, message@),
        },
{
    let ghost before = effects@;
    let mut held: Vec<E::Sample> = Vec::new();
    let flush = effects[i].drain(&mut held);
    let ghost between = effects@;
    assert(held@.skip(0) =~= held@);
    assert(between.skip(i + 1) =~= before.skip(i + 1));
    match flush {
        Err(cause) => {
            let ghost why = cause@;
            let message: String = blame(effects[i].name(), cause);
            assert(E::flushed(before[i as int], effects@[i as int], held@, Err(why)));
            Err(message)
        },
        Ok(()) => {
            let ghost tail = held@;
            assert(effects.len() <= usize::MAX);
            let result = pass(effects, i + 1, held);
            assert(effects@[i as int] == between[i as int]);
            assert forall|j: int| 0 <= j < i implies #[trigger] effects@[j] == before[j] by {
                assert(between[j] == before[j]);
            }
            assert(E::flushed(before[i as int], effects@[i as int], tail, Ok(())));
            result
        },
    }
}

impl<E: Effect> Chain<E> {
    /// Flushes what every engaged effect holds into `out`, each tail going on
    /// through the effects behind it. Once per stream: a second drain does
    /// nothing.
    pub fn drain(&mut self, out: &mut Vec<E::Sample>) -> (result: Result<(), String>)
        requires
            old(self).wf(),
        ensures
            final(self).wf(),
            final(self).same_shape(*old(self)),
            same_places(old(self).effects(), final(self).effects()),
            final(self).clock() == old(self).clock(),
            old(self).drained() || !any_engages(old(self).effects()) ==> {
                &&& result is Ok
                &&& final(out)@ == old(out)@
                &&& final(self).effects() == old(self).effects()
                &&& final(self).drained() == old(self).drained()
            },
            !old(self).drained() && any_engages(old(self).effects()) ==> {
                &&& final(self).drained()
                &&& old(out)@.is_prefix_of(final(out)@)
                &&& match result {
                    Ok(()) => drained_through(
                        old(self).effects(),
                        final(self).effects(),
                        final(out)@.skip(old(out)@.len() as int),
                    ),
                    Err(message) => drain_stopped(
                        old(self).effects(),
                        final(self).effects(),
                        final(out)@.skip(old(out)@.len() as int),
                        message@,
                    ),
                }
            },
    {
        if self.drained || !self.engaged() {
            return Ok(());
        }
        self.drained = true;
        let ghost begun = out@;
        let ghost first = self.effects@;
        let ghost mut states = seq![self.effects@];
        let ghost mut emitted: Seq<Seq<E::Sample>> = Seq::empty();
        let mut i: usize = 0;
        assert(begun.skip(begun.len() as int) =~= joined(emitted));
        while i < self.effects.len()
            invariant
                self.wf(),
                self.same_shape(*old(self)),
                self.clock() == old(self).clock(),
                self.drained,
                begun == old(out)@,
                first == old(self).effects(),
                !old(self).drained(),
                any_engages(first),
                i <= self.effects@.len(),
                same_places(first, self.effects@),
                self.effects@.len() == first.len(),
                cascades(states, emitted, i as int),
                states[0] == first,
                states.last() == self.effects@,
                out@ == begun + joined(emitted),
            decreases self.effects@.len() - i,
        {
            let ghost now = self.effects@;
            let ghost was = states;
            let ghost had = emitted;
            if self.effects[i].is_active() && !self.effects[i].is_bypassed() {
                match flush_one(&mut self.effects, i) {
                    Err(message) => {
                        proof {
                            assert(cascade_fails(
                                states,
                                emitted,
                                i as int,
                                self.effects@,
                                message@,
                            ));
                            assert(out@.skip(begun.len() as int) =~= joined(emitted));
                        }
                        return Err(message);
                    },
                    Ok(tail) => {
                        append_copy(out, tail.as_slice());
                        proof {
                            states = was.push(self.effects@);
                            emitted = had.push(tail@);
                            assert(emitted.drop_last() =~= had);
                            assert(states.drop_last() =~= was);
                            lemma_cascade_grows(was, had, states, emitted, i as int);
                        }
                    },
                }
            } else {
                proof {
                    states = was.push(now);
                    emitted = had.push(Seq::empty());
                    assert(emitted.drop_last() =~= had);
                    assert(states.drop_last() =~= was);
                    lemma_cascade_grows(was, had, states, emitted, i as int);
                }
            }
            i += 1;
        }
        assert(out@.skip(begun.len() as int) =~= joined(emitted));
        assert(cascades(states, emitted, first.len() as int));
        Ok(())
    }
}

/// One more flush makes a longer cascade.
proof fn lemma_cascade_grows<E: Effect>(
    was: Seq<Seq<E>>,
    had: Seq<Seq<E::Sample>>,
    states: Seq<Seq<E>>,
    emitted: Seq<Seq<E::Sample>>,
    n: int,
)
    requires
        n >= 0,
        cascades(was, had, n),
        states.len() == n + 2,
        emitted.len() == n + 1,
        states.drop_last() == was,
        emitted.drop_last() == had,
        if engages(was.last()[n]) {
            flushed_at(was.last(), states.last(), n, emitted.last())
        } else {
            states.last() == was.last() && emitted.last() == Seq::<E::Sample>::empty()
        },
    ensures
        cascades(states, emitted, n + 1),
{
    assert forall|i: int| 0 <= i < n + 1 implies if engages((#[trigger] states[i])[i]) {
        flushed_at(states[i], states[i + 1], i, emitted[i])
    } else {
        states[i + 1] == states[i] && emitted[i] == Seq::<E::Sample>::empty()
    } by {
        if i < n {
            assert(states[i] == was[i] && states[i + 1] == was[i + 1]);
            assert(emitted[i] == had[i]);
        } else {
            assert(states[i] == was.last());
        }
    }
}

/// Every effect dropped its audio.
pub open spec fn all_restarted<E: Effect>(before: Seq<E>, after: Seq<E>) -> bool {
    &&& after.len() == before.len()
    &&& forall|i: int| 0 <= i < before.len() ==> E::restarted(#[trigger] before[i], after[i])
}

/// Every effect not yet built for the device shape was rebuilt, with `results`.
pub open spec fn all_rebuilt<E: Effect>(
    before: Seq<E>,
    rate: u32,
    channels: usize,
    after: Seq<E>,
    results: Seq<Result<(), Seq<char>>>,
) -> bool {
    &&& after.len() == before.len()
    &&& results.len() == before.len()
    &&& forall|i: int|
        0 <= i < before.len() ==> if (#[trigger] before[i]).fits(rate, channels) {
            after[i] == before[i] && results[i] == Ok::<(), Seq<char>>(())
        } else {
            E::rebuilt(before[i], rate, channels, after[i], results[i])
        }
}

/// The first failure among the first `n` results, as the chain reports it.
pub open spec fn first_failure<E: Effect>(
    effects: Seq<E>,
    results: Seq<Result<(), Seq<char>>>,
    n: nat,
) -> Result<(), Seq<char>>
    decreases n,
{
    if n == 0 {
        Ok(())
    } else {
        match first_failure(effects, results, (n - 1) as nat) {
            Err(message) => Err(message),
            Ok(()) => match results[n - 1] {
                Err(cause) => Err(blamed(effects[n - 1].label(), cause)),
                Ok(()) => Ok(()),
            },
        }
    }
}

/// Every effect has a fresh mirror.
pub open spec fn all_mirrored<E: Effect>(effects: Seq<E>, mirrors: Seq<E>) -> bool {
    &&& mirrors.len() == effects.len()
    &&& forall|i: int| 0 <= i < effects.len() ==> E::mirrored(#[trigger] effects[i], mirrors[i])
}

/// Drops the effects that are not active.
fn retain_active<E: Effect>(effects: &mut Vec<E>)
    requires
        all_sound(old(effects)@),
    ensures
        all_sound(final(effects)@),
        uncrowded(old(effects)@) ==> uncrowded(final(effects)@),
        final(effects)@ == live(old(effects)@),
{
    let ghost all = effects@;
    let mut rest: Vec<E> = Vec::new();
    std::mem::swap(effects, &mut rest);
    let mut i: Ghost<nat> = Ghost(0nat);
    assert(all.take(0) =~= Seq::<E>::empty());
    assert(rest@ =~= all.skip(0));
    while rest.len() > 0
        invariant
            i@ <= all.len(),
            all_sound(all),
            rest@ == all.skip(i@ as int),
            effects@ == live(all.take(i@ as int)),
            all_sound(effects@),
        decreases rest@.len(),
    {
        let ghost k = i@ as int;
        assert(rest@[0] == all[k]);
        let effect: E = rest.remove(0);
        assert(rest@ =~= all.skip(k + 1));
        assert(all.take(k + 1).drop_last() =~= all.take(k));
        assert(all.take(k + 1).last() == all[k]);
        if effect.is_active() {
            effects.push(effect);
        }
        i = Ghost(i@ + 1);
    }
    assert(all.take(i@ as int) =~= all);
    proof {
        if uncrowded(all) {
            lemma_live_is_uncrowded(all);
        }
    }
}

impl<E: Effect> Chain<E> {
    /// The effects after a reset: each restarted, the inactive ones gone.
    pub open spec fn restarted_from(&self, before: Seq<E>) -> bool {
        &&& self.clock() == (Clock { consumed: None, markers: Seq::empty() })
        &&& !self.drained()
        &&& exists|after: Seq<E>| #[trigger]
            all_restarted(before, after) && self.effects() == live(after)
    }

    /// A discontinuity: every effect drops its audio, disabled effects drop
    /// out, and the timeline starts over.
    pub fn reset(&mut self)
        requires
            old(self).wf(),
        ensures
            final(self).wf(),
            final(self).same_shape(*old(self)),
            final(self).restarted_from(old(self).effects()),
    {
        let ghost before = self.effects@;
        let mut i: usize = 0;
        while i < self.effects.len()
            invariant
                self.wf(),
                self.same_shape(*old(self)),
                i <= self.effects@.len(),
                self.effects@.len() == before.len(),
                forall|j: int| i <= j < before.len() ==> #[trigger] self.effects@[j] == before[j],
                forall|j: int|
                    0 <= j < i ==> E::restarted(#[trigger] before[j], self.effects@[j]),
            decreases self.effects@.len() - i,
        {
            let ghost now = self.effects@;
            assert(now[i as int] == before[i as int]);
            self.effects[i].reset();
            assert forall|j: int| 0 <= j < i + 1 implies E::restarted(
                #[trigger] before[j],
                self.effects@[j],
            ) by {
                if j < i {
                    assert(self.effects@[j] == now[j]);
                }
            }
            i += 1;
        }
        let ghost after = self.effects@;
        assert(all_restarted(before, after));
        retain_active(&mut self.effects);
        self.timeline.clear();
        self.consumed = None;
        self.drained = false;
    }

    /// The device shape changed, or just became known: rebuilds what needs it,
    /// then resets. All effects are rebuilt even where one fails; the first
    /// failure is reported.
    pub fn reconfigure(&mut self, rate: u32, channels: usize) -> (result: Result<(), String>)
        requires
            old(self).wf(),
        ensures
            final(self).wf(),
            final(self).rate() == rate,
            final(self).channels() == channels,
            final(self).recording() == old(self).recording(),
            exists|built: Seq<E>, results: Seq<Result<(), Seq<char>>>|
                {
                    &&& #[trigger] all_rebuilt(
                        old(self).effects(),
                        rate,
                        channels,
                        built,
                        results,
                    )
                    &&& outcome(result) == first_failure(built, results, built.len())
                    &&& final(self).restarted_from(built)
                },
    {
        let ghost before = self.effects@;
        self.rate = rate;
        self.channels = channels;
        self.timeline = Timeline::new(second_at(rate));
        self.consumed = None;
        let mut error: Option<String> = None;
        let ghost mut results: Seq<Result<(), Seq<char>>> = Seq::empty();
        let mut i: usize = 0;
        while i < self.effects.len()
            invariant
                self.wf(),
                self.rate == rate,
                self.channels == channels,
                self.recording == old(self).recording,
                i <= self.effects@.len(),
                self.effects@.len() == before.len(),
                results.len() == i,
                forall|j: int| i <= j < before.len() ==> #[trigger] self.effects@[j] == before[j],
                forall|j: int|
                    0 <= j < i ==> if (#[trigger] before[j]).fits(rate, channels) {
                        self.effects@[j] == before[j] && results[j] == Ok::<(), Seq<char>>(())
                    } else {
                        E::rebuilt(before[j], rate, channels, self.effects@[j], results[j])
                    },
                first_failure(self.effects@, results, i as nat) == match error {
                    Some(message) => Err::<(), Seq<char>>(message@),
                    None => Ok(()),
                },
            decreases self.effects@.len() - i,
        {
            let ghost now = self.effects@;
            let ghost had = results;
            assert(now[i as int] == before[i as int]);
            let mut result: Result<(), String> = Ok(());
            if !self.effects[i].matches(rate, channels) {
                result = self.effects[i].reconfigure(rate, channels);
            }
            proof {
                results = had.push(outcome(result));
                lemma_first_failure_keeps(now, had, self.effects@, results, i as nat);
                assert forall|j: int| 0 <= j < i + 1 implies if (#[trigger] before[j]).fits(
                    rate,
                    channels,
                ) {
                    self.effects@[j] == before[j] && results[j] == Ok::<(), Seq<char>>(())
                } else {
                    E::rebuilt(before[j], rate, channels, self.effects@[j], results[j])
                } by {
                    if j < i {
                        assert(self.effects@[j] == now[j]);
                        assert(results[j] == had[j]);
                    }
                }
            }
            if let Err(message) = result {
                if error.is_none() {
                    error = Some(blame(self.effects[i].name(), message));
                }
            }
            i += 1;
        }
        let ghost built = self.effects@;
        assert(all_rebuilt(before, rate, channels, built, results));
        self.reset();
        let result: Result<(), String> = match error {
            Some(message) => Err(message),
            None => Ok(()),
        };
        assert(outcome(result) == first_failure(built, results, built.len()));
        assert(self.restarted_from(built));
        assert(all_rebuilt(old(self).effects(), rate, channels, built, results));
        result
    }

    /// A fresh chain with the same active effects and settings but no audio:
    /// what a crossfade's incoming track goes through. It records nothing
    /// until it is adopted.
    pub fn spawn_mirror(&self) -> (mirror: Self)
        requires
            self.wf(),
        ensures
            mirror.wf(),
            mirror.rate() == self.rate(),
            mirror.channels() == self.channels(),
            all_mirrored(live(self.effects()), mirror.effects()),
            mirror.clock() == (Clock { consumed: None, markers: Seq::empty() }),
            !mirror.recording(),
            !mirror.drained(),
    {
        let mut effects: Vec<E> = Vec::new();
        let mut i: usize = 0;
        assert(self.effects@.take(0) =~= Seq::<E>::empty());
        while i < self.effects.len()
            invariant
                self.wf(),
                i <= self.effects@.len(),
                all_sound(effects@),
                all_mirrored(live(self.effects@.take(i as int)), effects@),
                same_places(live(self.effects@.take(i as int)), effects@),
            decreases self.effects@.len() - i,
        {
            proof {
                let k = i as int;
                assert(self.effects@.take(k + 1).drop_last() =~= self.effects@.take(k));
                assert(self.effects@.take(k + 1).last() == self.effects@[k]);
            }
            if self.effects[i].is_active() {
                effects.push(self.effects[i].spawn_mirror());
            }
            i += 1;
        }
        assert(self.effects@.take(i as int) =~= self.effects@);
        proof {
            lemma_live_is_uncrowded(self.effects@);
            let kept = live(self.effects@);
            assert forall|a: int, b: int|
                0 <= a < b < effects@.len() && (#[trigger] effects@[a]).place()
                    is Some implies effects@[a].place() != (#[trigger] effects@[b]).place() by {
                assert(kept[a].place() == effects@[a].place());
                assert(kept[b].place() == effects@[b].place());
            }
        }
        Chain {
            effects,
            rate: self.rate,
            channels: self.channels,
            consumed: None,
            timeline: Timeline::new(second_at(self.rate)),
            recording: false,
            drained: false,
        }
    }

    /// Promotes an adopted mirror to the chain of record: it records from here
    /// on, starting afresh from the ring position.
    pub fn adopt_timeline(&mut self)
        requires
            old(self).wf(),
        ensures
            final(self).wf(),
            final(self).effects() == old(self).effects(),
            final(self).rate() == old(self).rate(),
            final(self).channels() == old(self).channels(),
            final(self).drained() == old(self).drained(),
            final(self).recording(),
            final(self).clock() == (Clock { consumed: None, markers: Seq::empty() }),
    {
        self.recording = true;
        self.consumed = None;
        self.timeline.clear();
    }

    /// Source time at a device frame in ticks, or `None` where no marker covers
    /// it: there frames over rate is exact.
    pub fn stream_secs(&self, device_frame: u64) -> (found: Option<u128>)
        requires
            self.wf(),
        ensures
            match lookup(self.clock().markers, device_frame as int) {
                Some(at) => found is Some && found->0 == at,
                None => found is None,
            },
    {
        self.timeline.stream_secs(device_frame)
    }

    /// Drops markers that nothing will look up any more.
    pub fn prune_timeline(&mut self, keep_from: u64)
        requires
            old(self).wf(),
        ensures
            final(self).wf(),
            final(self).same_shape(*old(self)),
            final(self).effects() == old(self).effects(),
            final(self).drained() == old(self).drained(),
            final(self).clock() == (Clock {
                consumed: old(self).clock().consumed,
                markers: pruned(old(self).clock().markers, keep_from),
            }),
    {
        self.timeline.prune(keep_from);
    }
}

impl<E: Effect> Chain<E> {
    /// All but the effects is as in `other`.
    pub open spec fn only_effects_differ(&self, other: Self) -> bool {
        &&& self.same_shape(other)
        &&& self.clock() == other.clock()
        &&& self.drained() == other.drained()
    }

    /// Effect `i`.
    pub fn effect(&self, i: usize) -> (effect: &E)
        requires
            i < self.effects().len(),
        ensures
            *effect == self.effects()[i as int],
    {
        &self.effects[i]
    }

    /// Effect `i`, to be changed.
    pub fn effect_mut(&mut self, i: usize) -> (effect: &mut E)
        requires
            old(self).wf(),
            i < old(self).effects().len(),
        ensures
            *effect == old(self).effects()[i as int],
            old(self).effects()[i as int].inv(),
            final(self).effects() == old(self).effects().update(i as int, *final(effect)),
            final(self).only_effects_differ(*old(self)),
            final(effect).inv() && final(effect).place() == effect.place() ==> final(self).wf(),
    {
        &mut self.effects[i]
    }

    /// Effect `i` was given another setting: builds it where it is on but has
    /// not been built, and drops what is not active.
    pub(crate) fn settle(&mut self, i: usize, enabled: bool) -> (result: Result<(), String>)
        requires
            old(self).wf(),
            i < old(self).effects().len(),
        ensures
            final(self).wf(),
            final(self).only_effects_differ(*old(self)),
            settled(
                old(self).effects(),
                i as int,
                enabled,
                old(self).rate(),
                old(self).channels(),
                final(self).effects(),
                outcome(result),
            ),
    {
        let ghost before = self.effects@;
        let (rate, channels) = (self.rate, self.channels);
        if enabled && self.effects[i].is_bypassed() && rate > 0 && channels > 0 {
            let result = self.effects[i].reconfigure(rate, channels);
            let ghost built = self.effects@[i as int];
            assert(self.effects@ =~= before.update(i as int, built));
            if let Err(message) = result {
                assert(E::rebuilt(
                    before[i as int],
                    rate,
                    channels,
                    built,
                    Err::<(), Seq<char>>(message@),
                ));
                return Err(message);
            }
            assert(E::rebuilt(before[i as int], rate, channels, built, Ok::<(), Seq<char>>(())));
        }
        retain_active(&mut self.effects);
        Ok(())
    }

    /// Builds a new effect where the device shape is known, adds it behind the
    /// others and drops what is not active. One that cannot be built is not
    /// added.
    pub(crate) fn add_built(&mut self, effect: E) -> (result: Result<(), String>)
        requires
            old(self).wf(),
            effect.inv(),
            has_room_for(old(self).effects(), effect),
        ensures
            final(self).wf(),
            final(self).only_effects_differ(*old(self)),
            added_built(
                old(self).effects(),
                effect,
                old(self).rate(),
                old(self).channels(),
                final(self).effects(),
                outcome(result),
            ),
    {
        let mut effect: E = effect;
        let ghost given = effect;
        let (rate, channels) = (self.rate, self.channels);
        if rate > 0 && channels > 0 {
            let result = effect.reconfigure(rate, channels);
            if let Err(message) = result {
                assert(E::rebuilt(given, rate, channels, effect, Err::<(), Seq<char>>(message@)));
                return Err(message);
            }
            assert(E::rebuilt(given, rate, channels, effect, Ok::<(), Seq<char>>(())));
        }
        self.effects.push(effect);
        retain_active(&mut self.effects);
        Ok(())
    }

    /// Drops what is not active.
    pub(crate) fn retire(&mut self)
        requires
            old(self).wf(),
        ensures
            final(self).wf(),
            final(self).only_effects_differ(*old(self)),
            final(self).effects() == live(old(self).effects()),
    {
        retain_active(&mut self.effects);
    }
}

/// Effect `i` was built where it is on but was not, and what is not active
/// dropped. Where the build failed the rest is left as it is.
pub open spec fn settled<E: Effect>(
    before: Seq<E>,
    i: int,
    enabled: bool,
    rate: u32,
    channels: usize,
    after: Seq<E>,
    result: Result<(), Seq<char>>,
) -> bool {
    if enabled && before[i].bypassed() && rate > 0 && channels > 0 {
        exists|built: E|
            {
                &&& #[trigger] E::rebuilt(before[i], rate, channels, built, result)
                &&& after == if result is Ok {
                    live(before.update(i, built))
                } else {
                    before.update(i, built)
                }
            }
    } else {
        result is Ok && after == live(before)
    }
}

/// `effect` was built where the device shape is known, and added, and what is
/// not active dropped. Where the build failed nothing changed.
pub open spec fn added_built<E: Effect>(
    before: Seq<E>,
    effect: E,
    rate: u32,
    channels: usize,
    after: Seq<E>,
    result: Result<(), Seq<char>>,
) -> bool {
    if rate > 0 && channels > 0 {
        exists|built: E|
            {
                &&& #[trigger] E::rebuilt(effect, rate, channels, built, result)
                &&& after == if result is Ok {
                    live(before.push(built))
                } else {
                    before
                }
            }
    } else {
        result is Ok && after == live(before.push(effect))
    }
}

/// A failure already found stays the first.
proof fn lemma_first_failure_keeps<E: Effect>(
    a: Seq<E>,
    ra: Seq<Result<(), Seq<char>>>,
    b: Seq<E>,
    rb: Seq<Result<(), Seq<char>>>,
    n: nat,
)
    requires
        n <= ra.len(),
        n <= rb.len(),
        n <= a.len(),
        n <= b.len(),
        forall|j: int| 0 <= j < n ==> #[trigger] a[j] == b[j],
        forall|j: int| 0 <= j < n ==> #[trigger] ra[j] == rb[j],
    ensures
        first_failure(a, ra, n) == first_failure(b, rb, n),
    decreases n,
{
    if n > 0 {
        lemma_first_failure_keeps(a, ra, b, rb, (n - 1) as nat);
        assert(a[n - 1] == b[n - 1] && ra[n - 1] == rb[n - 1]);
    }
}

/// The first run starts from the ring position itself, so the map joins the
/// plain division of frames by rate, which serves before it, without a step.
pub proof fn the_first_run_starts_at_the_ring_position(
    second: int,
    origin: u64,
    produced: nat,
    consumed: nat,
    ratio: u64,
)
    requires
        produced > 0,
    ensures
        ({
            let fresh = Clock { consumed: None, markers: Seq::empty() };
            let clock = noted(fresh, second, origin, produced, consumed, ratio);
            &&& lookup(clock.markers, origin as int) == Some(origin * UNITY)
            &&& lookup(clock.markers, origin - 1) is None
        }),
{
    reveal_with_fuel(lookup, 2);
    let fresh = Clock { consumed: None, markers: Seq::empty() };
    let clock = noted(fresh, second, origin, produced, consumed, ratio);
    let marker = clock.markers.last();
    assert(origin as nat * UNITY as nat <= 0xffff_ffff_ffff_ffff * 0x1_0000_0000)
        by (nonlinear_arith)
        requires
            origin <= 0xffff_ffff_ffff_ffff,
            UNITY == 0x1_0000_0000,
    ;
    assert((origin - marker.device_frame) * marker.pace == 0) by (nonlinear_arith)
        requires
            origin == marker.device_frame,
    ;
    assert(clock.markers.drop_last() =~= Seq::<Marker>::empty());
}

/// A chain with nothing engaged hands audio on as it came, and as long as none
/// of its effects has shaped any it keeps no map: every position is left to
/// the plain division of frames by rate.
pub proof fn an_idle_chain_is_not_there<E: Effect>(
    before: Chain<E>,
    carried: Seq<E::Sample>,
    had: Seq<E::Sample>,
    frames_written: u64,
    after: Chain<E>,
    out: Seq<E::Sample>,
    result: Result<(), Seq<char>>,
    frame: int,
)
    requires
        !any_engages(before.effects()),
        Chain::ran(before, carried, had, frames_written, after, out, result),
    ensures
        result is Ok,
        out == had + carried,
        after.effects() == before.effects(),
        before.clock() == (Clock { consumed: None, markers: Seq::empty() }) ==> after.clock()
            == before.clock() && lookup(after.clock().markers, frame) is None,
{
}

/// With a resampler before it, a chain with nothing engaged does what the
/// resampler itself does: what that appends, what it becomes and how it fails
/// are all that comes of the call.
pub proof fn an_idle_chain_leaves_the_resampler_alone<E: Effect, R: Resample<E::Sample>>(
    before: Chain<E>,
    resampler: R,
    input: Seq<E::Sample>,
    had: Seq<E::Sample>,
    frames_written: u64,
    after: Chain<E>,
    resampled: R,
    out: Seq<E::Sample>,
    result: Result<(), Seq<char>>,
    frame: int,
)
    requires
        !any_engages(before.effects()),
        Chain::ran_resampled(
            before,
            resampler,
            input,
            had,
            frames_written,
            after,
            resampled,
            out,
            result,
        ),
    ensures
        had.is_prefix_of(out),
        R::resampled(resampler, input, resampled, out.skip(had.len() as int), result),
        after.effects() == before.effects(),
        before.clock() == (Clock { consumed: None, markers: Seq::empty() }) ==> after.clock()
            == before.clock() && lookup(after.clock().markers, frame) is None,
{
    let (carried, came) = choose|carried: Seq<E::Sample>, came: Result<(), Seq<char>>|
        {
            &&& #[trigger] R::resampled(resampler, input, resampled, carried, came)
            &&& match came {
                Ok(()) => Chain::ran(
                    before,
                    carried,
                    had,
                    frames_written,
                    after,
                    out,
                    result,
                ),
                Err(_) => {
                    &&& result == came
                    &&& after.same_shape(before)
                    &&& after.effects() == before.effects()
                    &&& after.clock() == before.clock()
                    &&& if any_engages(before.effects()) {
                        !after.drained() && out == had
                    } else {
                        after.drained() == before.drained() && out == had + carried
                    }
                },
            }
        };
    assert(result == came) by {
        match (result, came) {
            (Ok(a), Ok(b)) => {
                assert(a == b);
            },
            (Err(a), Err(b)) => {
                assert(a == b);
            },
            _ => {},
        }
    }
    assert(out.skip(had.len() as int) =~= carried);
}

/// The map has not run ahead of the source time that went in by ring position
/// `at`.
pub open spec fn keeps_up(clock: Clock, at: int) -> bool {
    &&& sound(clock.markers)
    &&& clock.consumed is Some
    &&& clock.markers.len() > 0 ==> {
        &&& clock.markers.last().device_frame <= at
        &&& projected(clock.markers.last(), at) <= clock.consumed->0
    }
}

/// Whatever a run puts out, the map stays sound: what it says of each frame is
/// at or past what it says of any frame before.
pub proof fn runs_keep_positions_in_order(
    clock: Clock,
    second: int,
    origin: u64,
    produced: nat,
    consumed: nat,
    ratio: u64,
)
    requires
        sound(clock.markers),
        clock.consumed matches Some(at) ==> at <= SOURCE_LIMIT,
        ratio <= PACE_LIMIT,
    ensures
        sound(noted(clock, second, origin, produced, consumed, ratio).markers),
        noted(clock, second, origin, produced, consumed, ratio).consumed->0 <= SOURCE_LIMIT,
{
    let at = match clock.consumed {
        Some(at) => at,
        None => origin as nat * UNITY as nat,
    };
    assert(origin as nat * UNITY as nat <= 0xffff_ffff_ffff_ffff * 0x1_0000_0000)
        by (nonlinear_arith)
        requires
            origin <= 0xffff_ffff_ffff_ffff,
            UNITY == 0x1_0000_0000,
    ;
    recording_keeps_the_map_sound(clock.markers, second, origin, at as u128, ratio);
}

/// While no run puts out more source time than went into it, the map never
/// runs ahead of the source time that went in.
pub proof fn runs_that_keep_pace_keep_up(
    clock: Clock,
    second: int,
    origin: u64,
    produced: nat,
    consumed: nat,
    ratio: u64,
)
    requires
        keeps_up(clock, origin as int),
        clock.consumed->0 + consumed * UNITY <= SOURCE_LIMIT,
        ratio <= PACE_LIMIT,
        produced * ratio <= consumed * UNITY,
    ensures
        keeps_up(
            noted(clock, second, origin, produced, consumed, ratio),
            origin + produced,
        ),
{
    let at = clock.consumed->0;
    assert(consumed * UNITY >= 0) by (nonlinear_arith);
    runs_keep_positions_in_order(clock, second, origin, produced, consumed, ratio);
    if produced > 0 {
        let last = recorded(clock.markers, second, origin, at as u128, ratio).last();
        assert(last.pace == ratio && last.device_frame <= origin);
        assert(raised(clock.markers, origin, at as u128) == at);
        assert(last.device_frame == origin ==> (origin - last.device_frame) * last.pace == 0)
            by (nonlinear_arith);
        assert(projected(last, origin as int) <= at);
        assert(projected(last, origin + produced) == projected(last, origin as int) + produced
            * ratio) by (nonlinear_arith)
            requires
                last.pace == ratio,
        ;
    } else {
        assert(origin + produced == origin);
    }
}

/// A run at the pace of the last marker that puts out exactly the source time
/// that went in leaves the map as it is: a steady ratio keeps one marker.
pub proof fn steady_runs_keep_one_marker(
    clock: Clock,
    second: int,
    origin: u64,
    produced: nat,
    consumed: nat,
    ratio: u64,
)
    requires
        second > 0,
        clock.consumed is Some,
        clock.consumed->0 <= SOURCE_LIMIT,
        clock.markers.len() > 0,
        clock.markers.last().device_frame < origin,
        clock.markers.last().pace == ratio,
        projected(clock.markers.last(), origin as int) == clock.consumed->0,
    ensures
        noted(clock, second, origin, produced, consumed, ratio).markers == clock.markers,
{
    let last = clock.markers.last();
    assert((origin - last.device_frame) * last.pace >= 0) by (nonlinear_arith)
        requires
            last.device_frame < origin,
    ;
}

/// Source time advances by exact input frames: over two runs, by the input of
/// both.
pub proof fn source_time_adds_up(
    clock: Clock,
    second: int,
    first: (u64, nat, nat, u64),
    second_run: (u64, nat, nat, u64),
)
    requires
        clock.consumed is Some,
        clock.consumed->0 + (first.2 + second_run.2) * UNITY <= SOURCE_LIMIT,
    ensures
        noted(
            noted(clock, second, first.0, first.1, first.2, first.3),
            second,
            second_run.0,
            second_run.1,
            second_run.2,
            second_run.3,
        ).consumed == Some((clock.consumed->0 + (first.2 + second_run.2) * UNITY) as nat),
{
    assert((first.2 + second_run.2) * UNITY == first.2 * UNITY + second_run.2 * UNITY) by (nonlinear_arith);
    assert(second_run.2 * UNITY >= 0) by (nonlinear_arith);
}

} // verus!
