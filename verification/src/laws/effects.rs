//! The four effects: how each begins, what it holds and what it leaves behind.
use vstd::prelude::*;

use crate::chain::{Effect, UNITY};
use crate::convolution::{response_at, Convolution, Resampling, Room, SourceIr};
use crate::fireq::{heading, FirEq, GainSource, Voicing};
use crate::frames::channel_of;
use crate::numeric::{Fixed, Numeric, FIXED_ONE};
use crate::phase::no_gain_is_a_pure_delay;
use crate::pitch::{PitchShift, Vocoding, Voice};
use crate::spectral::{convolved, output_follows_the_kernel, owed, stereo_out, stereo_tail, tail};
use crate::spectral::StereoConvolver;
use crate::stretch::{Steering, Stretching, TimeStretch};
use crate::transform::{Convolving, Spectral};

verus! {

/// A vocoder that has heard nothing and shifts by `ratio`.
pub open spec fn is_new<N: Vocoding>(voice: Voice<N>, ratio: nat) -> bool {
    &&& voice.history.len() == 2048
    &&& forall|i: int| 0 <= i < 2048 ==> #[trigger] voice.history[i] == N::zero_value()
    &&& voice.pending.len() == 0
    &&& voice.overlap.len() == 0
    &&& voice.energy.len() == 0
    &&& voice.stretched.len() == 0
    &&& voice.read == 0
    &&& voice.hop == 512
    &&& voice.ratio == ratio
    &&& voice.target == ratio
    &&& forall|k: int|
        0 <= k < N::bin_count(2048) ==> #[trigger] voice.seen[k] == N::zero_value()
    &&& forall|k: int|
        0 <= k < N::bin_count(2048) ==> #[trigger] voice.turned[k] == N::zero_value()
}

/// A reset time stretch that is on begins cold, at the tempo it was on its way to,
/// with an engine that holds nothing; one that is off is gone.
pub proof fn a_reset_stretch_begins_cold<N: Stretching>(
    before: TimeStretch<N>,
    after: TimeStretch<N>,
)
    requires
        TimeStretch::restarted(before, after),
    ensures
        after.enabled() == before.enabled(),
        after.tempo() == before.tempo(),
        !before.enabled() || before.stream() is None ==> after.stream() is None,
        before.enabled() && before.stream() is Some ==> after.stream() is Some && {
            let (was, now) = (before.stream()->0, after.stream()->0);
            &&& now.engine == N::cleared(was.engine)
            &&& now.discard == N::latency(now.engine)
            &&& now.fade == 256
            &&& !now.primed
            &&& now.target == was.target
            &&& now.channels == was.channels
        },
{
}

/// The time ratio that a running time stretch tells is the pace of its engine, and
/// what it tells to be inside is no more than the source that waits makes at that
/// pace, and the engine's delay. One that does not run changes no time.
pub proof fn a_stretch_tells_its_pace<N: Steering>(effect: TimeStretch<N>)
    requires
        effect.wf(),
    ensures
        effect.stream() is None ==> effect.ratio() == 0x1_0000_0000 && effect.pending() == 0,
        effect.stream() matches Some(stream) ==> {
            let inside = effect.pending() - N::latency(stream.engine);
            &&& effect.ratio() == N::pace(stream.engine)
            &&& !stream.primed ==> effect.pending() == 0
            &&& stream.primed ==> inside * N::pace(stream.engine) <= N::occupied(stream.engine)
                * 0x1_0000_0000
            &&& stream.primed && effect.pending() < u64::MAX ==> (inside + 1) * N::pace(
                stream.engine,
            ) > N::occupied(stream.engine) * 0x1_0000_0000
        },
{
    effect.the_stream_is_sound();
    if let Some(stream) = effect.stream() {
        crate::laws::stretching::what_is_left_is_all_that_waits::<N>(stream);
        let inside = effect.pending() - N::latency(stream.engine);
        let all = stream.buffered() as int;
        let pace = stream.target as int;
        if stream.primed {
            assert(inside * pace <= all * pace) by (nonlinear_arith)
                requires
                    inside <= all,
                    pace >= 0,
            ;
        }
    }
}

/// A reset pitch shift that is on has a new vocoder for every channel, at the shift
/// that it was on its way to; one that is off has none.
pub proof fn a_reset_shift_begins_anew<N: Vocoding>(
    before: PitchShift<N>,
    after: PitchShift<N>,
    c: int,
)
    requires
        PitchShift::restarted(before, after),
    ensures
        after.enabled() == before.enabled(),
        after.cents() == before.cents(),
        !before.enabled() || before.voices() is None ==> after.voices() is None,
        before.enabled() && before.voices() is Some ==> after.voices() is Some && {
            let (was, now) = (before.voices()->0, after.voices()->0);
            &&& now.len() == was.len()
            &&& 0 <= c < was.len() ==> is_new(now[c], was[c].target)
        },
{
}

/// A pitch shift that is built for a device shape has a new vocoder for every
/// channel, at the ratio of its cents. It changes no time, and a running one holds
/// 2048 frames.
pub proof fn a_built_shift_has_its_ratio<N: Vocoding>(
    before: PitchShift<N>,
    rate: u32,
    channels: usize,
    after: PitchShift<N>,
    result: Result<(), Seq<char>>,
    c: int,
)
    requires
        PitchShift::rebuilt(before, rate, channels, after, result),
        0 <= c < channels,
    ensures
        result is Ok,
        after.ratio() == 0x1_0000_0000,
        after.pending() == if after.voices() is Some {
            2048nat
        } else {
            0nat
        },
        after.voices() is Some <==> before.enabled() && rate > 0,
        after.voices() matches Some(voices) ==> voices.len() == channels && is_new(
            voices[c],
            N::ratio_for(before.cents() as int),
        ),
{
}

/// An equaliser that is turned off is on its way to a kernel that only delays, so
/// that what it puts out stays in time.
pub proof fn turned_off_it_only_delays<G: GainSource<Fixed>>(
    before: FirEq<Fixed, G>,
    after: FirEq<Fixed, G>,
    t: int,
)
    requires
        after.tuned(before, false),
        before.filter() is Some,
        0 <= t < 4096,
    ensures
        !after.is_enabled(),
        after.filter() is Some,
        heading(after.filter()->0)[t] == if t == 2048 {
            FIXED_ONE
        } else {
            0
        },
{
    no_gain_is_a_pure_delay(before.rate(), t);
}

/// An equaliser changes no time. A running one holds half its kernel, 2048 frames,
/// and the frames that wait for the rest of their 512; it tells its delay in parts
/// of a second.
pub proof fn an_equaliser_tells_its_delay<N: Voicing, G: GainSource<N>>(
    effect: FirEq<N, G>,
    rate: u32,
)
    requires
        rate > 0,
    ensures
        effect.ratio() == 0x1_0000_0000,
        effect.pending() == match effect.filter() {
            Some(filter) => 2048 + filter.frames() % 512,
            None => 0nat,
        },
        !effect.is_enabled() ==> effect.latency_at(rate) == 0,
        effect.is_enabled() ==> {
            let late = effect.latency_at(rate);
            late * rate <= 2048 * 0x1_0000_0000 < (late + 1) * rate
        },
{
    let n: int = 0x800_0000_0000;
    let r = rate as int;
    vstd::arithmetic::div_mod::lemma_fundamental_div_mod(n, r);
    vstd::arithmetic::div_mod::lemma_mod_bound(n, r);
    let q = n / r;
    assert(0 <= q <= n && q * r <= n < (q + 1) * r) by (nonlinear_arith)
        requires
            n == r * q + n % r,
            0 <= n % r < r,
            n >= 0,
            r >= 1,
    {
        if q < 0 {
            assert(r * q <= -r);
        }
        if q > n {
            assert(r * q >= q);
        }
    }
}

/// Every channel is filtered on its own: at frame `t` of the stream, channel `c` of
/// what comes out is the convolution of all that channel `c` was given with the
/// kernel in use, while none waits to be exchanged for it. What it was given grows
/// by its own sample of every frame.
pub proof fn each_channel_is_filtered_on_its_own<N: Convolving>(
    before: StereoConvolver<N>,
    input: Seq<N::Sample>,
    after: StereoConvolver<N>,
    c: int,
    t: int,
)
    requires
        before.wf(),
        before.floor() == 0,
        after.took(before, input),
        before.coming() is None,
        0 <= c < before.channels(),
        before.frames() / before.block_size() * before.block_size() <= t < after.frames()
            / before.block_size() * before.block_size(),
    ensures
        ({
            let ch = before.channels();
            let given = before.fed(c) + Seq::new(input.len() / ch, |i: int| input[i * ch + c]);
            let from = before.frames() / before.block_size() * before.block_size();
            &&& after.taps() == before.taps()
            &&& stereo_out(before, after)[(t - from) * ch + c] == convolved::<N>(
                before.taps(),
                given,
                t,
                before.taps().len(),
            )
        }),
{
    output_follows_the_kernel(before, input, after, c, t);
    let ch = before.channels();
    let block = before.block_size();
    before.always();
    let given = before.fed(c) + Seq::new(input.len() / ch, |i: int| input[i * ch + c]);
    assert(given =~= after.fed(c));
    let from = before.frames() / block;
    let to = after.frames() / block;
    let out = stereo_out(before, after);
    let i = t - from * block;
    assert((to - from) * block == to * block - from * block) by (nonlinear_arith);
    let n = ((to - from) * block) as nat;
    assert(out.len() == n * ch);
    vstd::arithmetic::div_mod::lemma_fundamental_div_mod_converse(
        (n * ch) as int,
        ch as int,
        n as int,
        0,
    );
    assert(channel_of(out, ch, c)[i] == out[i * ch + c]);
}

/// Drained, every channel plays out what its own input still owes.
pub proof fn each_channel_plays_out_on_its_own<N: Spectral>(
    before: StereoConvolver<N>,
    c: int,
    i: int,
)
    requires
        before.frames() > 0,
        0 <= c < before.channels(),
        0 <= i < owed(before.taps().len(), before.frames(), before.block_size()),
    ensures
        stereo_tail(before)[i * before.channels() + c] == tail::<N>(
            before.taps(),
            before.fed(c),
            before.floor(),
            before.block_size(),
        )[i],
        before.block_size() > 0 && before.taps().len() > 0 ==> owed(
            before.taps().len(),
            before.frames(),
            before.block_size(),
        ) == before.frames() % before.block_size() + before.taps().len() - 1,
{
    let ch = before.channels();
    let j = i * ch + c;
    let n = owed(before.taps().len(), before.frames(), before.block_size());
    assert(0 <= j < n * ch) by (nonlinear_arith)
        requires
            0 <= i < n,
            0 <= c < ch,
            j == i * ch + c,
    {
        assert(i * ch + ch <= n * ch);
    }
    vstd::arithmetic::div_mod::lemma_fundamental_div_mod_converse(j, ch as int, i, c);
}

/// A reset room keeps its responses and has heard nothing; one that is off is gone.
/// A mirror of a room begins like a reset one.
pub proof fn a_reset_room_has_heard_nothing<N: Spectral + Resampling>(
    before: Convolution<N>,
    after: Convolution<N>,
    c: int,
)
    requires
        Convolution::restarted(before, after) && before.enabled() || Convolution::mirrored(
            before,
            after,
        ),
    ensures
        after.enabled() == before.enabled(),
        after.mix() == before.mix(),
        after.path() == before.path(),
        before.room() is None ==> after.room() is None,
        before.room() is Some ==> after.room() is Some && {
            let (was, now) = (before.room()->0, after.room()->0);
            &&& now.kernels == was.kernels
            &&& now.fed.len() == was.fed.len()
            &&& now.staged.len() == 0
            &&& 0 <= c < was.fed.len() ==> now.fed[c].len() == 0
        },
{
}

/// A room that is off keeps playing dry until it is reset, which ends it. It never
/// changes time, and holds the frames that wait for the rest of their block.
pub proof fn a_room_that_is_off_is_dry<N: Spectral + Resampling>(
    before: Convolution<N>,
    after: Convolution<N>,
)
    requires
        Convolution::restarted(before, after),
        !before.enabled(),
    ensures
        before.mix_in_force() == 0,
        after.room() is None,
        before.ratio() == 0x1_0000_0000,
        before.pending() == match before.room() {
            Some(room) => room.staged.len() / room.fed.len(),
            None => 0nat,
        },
{
}

proof fn lemma_lane_tail<N: Spectral>(room: Room<N>, mix: u64, c: int, waiting: Seq<N::Sample>)
    requires
        room.heard(c) == room.fed[c] + waiting,
        channel_of(room.staged, room.fed.len(), c) == waiting,
        room.heard(c).len() > 0,
        room.kernels.len() > 0,
    ensures
        ({
            let response = room.kernels[if c < room.kernels.len() {
                c
            } else {
                room.kernels.len() - 1
            }];
            let wet = tail::<N>(response, room.fed[c] + waiting, 0, 1024);
            let (dry_gain, wet_gain) = N::circle_point(mix as nat, 0x4_0000_0000);
            &&& room.lane_tail(mix, c).len() == wet.len()
            &&& forall|i: int|
                0 <= i < wet.len() ==> #[trigger] room.lane_tail(mix, c)[i] == N::sum(
                    N::product(
                        dry_gain,
                        if i < waiting.len() {
                            waiting[i]
                        } else {
                            N::zero_value()
                        },
                    ),
                    N::product(wet_gain, wet[i]),
                )
        }),
{
    assert(4 * UNITY as nat == 0x4_0000_0000);
}

/// Drained, every channel of a room plays out on its own: the frames that waited
/// for their block, and what the response still makes of all that the channel was
/// given, waiting frames and all.
pub proof fn each_channel_rings_out_on_its_own<N: Spectral>(
    room: Room<N>,
    mix: u64,
    c: int,
    i: int,
)
    requires
        crate::convolution::balanced(room),
        0 <= c < room.fed.len(),
        room.staged.len() % room.fed.len() == 0,
        room.fed[c].len() + room.staged.len() > 0,
        0 <= i,
        (i + 1) * room.fed.len() <= room.ring_out(mix).len(),
    ensures
        ({
            let ch = room.fed.len();
            let waiting = Seq::new(room.staged.len() / ch, |k: int| room.staged[k * ch + c]);
            let response = room.kernels[if c < room.kernels.len() {
                c
            } else {
                room.kernels.len() - 1
            }];
            let wet = tail::<N>(response, room.fed[c] + waiting, 0, 1024);
            let (dry_gain, wet_gain) = N::circle_point(mix as nat, 0x4_0000_0000);
            room.ring_out(mix)[i * ch + c] == N::sum(
                N::product(
                    dry_gain,
                    if i < waiting.len() {
                        waiting[i]
                    } else {
                        N::zero_value()
                    },
                ),
                N::product(wet_gain, wet[i]),
            )
        }),
{
    let ch = room.fed.len();
    let waiting = Seq::new(room.staged.len() / ch, |k: int| room.staged[k * ch + c]);
    assert(channel_of(room.staged, ch, c) =~= waiting);
    let n = room.lane_tail(mix, 0).len();
    let j = i * ch + c;
    assert(room.ring_out(mix).len() == n * ch);
    assert(i < n && 0 <= j < n * ch) by (nonlinear_arith)
        requires
            (i + 1) * ch <= n * ch,
            0 <= i,
            0 <= c < ch,
            j == i * ch + c,
    {
        if i >= n {
            assert((i + 1) * ch >= (n + 1) * ch);
            assert((n + 1) * ch == n * ch + ch);
        }
    }
    vstd::arithmetic::div_mod::lemma_fundamental_div_mod_converse(j, ch as int, i, c);
    assert(room.staged.len() > 0 ==> waiting.len() > 0) by {
        vstd::arithmetic::div_mod::lemma_fundamental_div_mod(room.staged.len() as int, ch as int);
        if waiting.len() == 0 {
            assert(ch * 0 == 0);
        }
    }
    assert(room.heard(c) =~= room.fed[c] + waiting);
    assert(room.fed[0].len() == room.fed[c].len());
    assert(room.heard(0).len() == room.heard(c).len());
    crate::convolution::the_tail_rings_out(room, mix, c);
    crate::convolution::the_tail_rings_out(room, mix, 0);
    let lane = room.lane_tail(mix, c);
    lemma_lane_tail(room, mix, c, waiting);
    assert(i < lane.len());
    assert(room.ring_out(mix)[j] == lane[i]);
}

/// Each effect is called by its own name.
pub proof fn effects_have_their_names<
    N: Stretching,
    V: Vocoding,
    W: Voicing,
    G: GainSource<W>,
    R: Spectral + Resampling,
>(
    stretch: TimeStretch<N>,
    shift: PitchShift<V>,
    equaliser: FirEq<W, G>,
    room: Convolution<R>,
)
    ensures
        stretch.label() == "time-stretch"@,
        shift.label() == "pitch-shift"@,
        equaliser.label() == "fir-eq"@,
        room.label() == "convolution"@,
{
}

/// An effect that runs takes part in what is heard also when it is turned off, until
/// it has let go of its audio; one that was turned on stays in the chain though it
/// does not run yet; and one that neither runs nor is on is let go of.
pub proof fn a_running_effect_takes_part<
    N: Stretching,
    V: Vocoding,
    W: Voicing,
    G: GainSource<W>,
    R: Spectral + Resampling,
>(
    stretch: TimeStretch<N>,
    shift: PitchShift<V>,
    equaliser: FirEq<W, G>,
    room: Convolution<R>,
)
    ensures
        stretch.stream() is Some ==> stretch.active() && !stretch.bypassed(),
        stretch.stream() is None ==> stretch.bypassed() && stretch.active() == stretch.enabled(),
        shift.voices() is Some ==> shift.active() && !shift.bypassed(),
        shift.voices() is None ==> shift.bypassed() && shift.active() == shift.enabled(),
        equaliser.filter() is Some ==> equaliser.active() && !equaliser.bypassed(),
        equaliser.filter() is None ==> equaliser.bypassed() && equaliser.active()
            == equaliser.is_enabled(),
        room.room() is Some ==> room.active() && !room.bypassed(),
        room.room() is None ==> room.bypassed() && room.active() == room.enabled(),
{
}

/// A time stretch that is built for a device shape runs if it is on: with an engine
/// opened for that shape at the set tempo, from a cold start. Where the engine could
/// not be opened, that is reported with what was being done in front.
pub proof fn a_built_stretch_runs<N: Stretching>(
    before: TimeStretch<N>,
    rate: u32,
    channels: usize,
    after: TimeStretch<N>,
    result: Result<(), Seq<char>>,
)
    requires
        TimeStretch::rebuilt(before, rate, channels, after, result),
    ensures
        after.enabled() == before.enabled(),
        after.tempo() == before.tempo(),
        after.rate() == rate,
        after.channels() == channels,
        !before.enabled() || rate == 0 || channels == 0 ==> result is Ok && after.stream() is None,
        before.enabled() && rate > 0 && channels > 0 ==> match N::opened(
            rate,
            channels as nat,
            before.tempo() as nat,
        ) {
            Ok(engine) => result is Ok && after.stream() is Some && {
                let stream = after.stream()->0;
                &&& stream.engine == engine
                &&& stream.channels == channels
                &&& stream.target == before.tempo()
                &&& stream.discard == N::latency(engine)
                &&& stream.fade == 256
                &&& !stream.primed
            },
            Err(cause) => {
                &&& after.stream() is None
                &&& result == Err::<(), Seq<char>>("build time-stretch backend: "@ + cause)
            },
        },
{
}

/// A convolution that is built for a device shape runs if it is on and has a
/// recording: with the recording's responses at the device's rate, for every channel
/// of the device, none of which has heard anything.
pub proof fn a_built_room_has_its_responses<N: Spectral + Resampling>(
    before: Convolution<N>,
    rate: u32,
    channels: usize,
    after: Convolution<N>,
    result: Result<(), Seq<char>>,
    c: int,
)
    requires
        Convolution::rebuilt(before, rate, channels, after, result),
        0 <= c < channels,
    ensures
        after.enabled() == before.enabled(),
        after.mix() == before.mix(),
        after.path() == before.path(),
        after.source() == before.source(),
        !before.enabled() || rate == 0 || before.source() is None ==> result is Ok && after.room()
            is None,
        before.enabled() && rate > 0 && before.source() is Some ==> match response_at::<N>(
            *before.source()->0,
            rate,
        ) {
            Ok(kernels) => result is Ok && after.room() is Some && {
                let room = after.room()->0;
                &&& room.kernels == kernels
                &&& room.fed.len() == channels
                &&& room.fed[c].len() == 0
                &&& room.staged.len() == 0
            },
            Err(message) => result == Err::<(), Seq<char>>(message) && after.room() is None,
        },
{
}

/// A convolution that is set keeps running on the recording it has. Another recording
/// takes its place once it is loaded, and what ran is let go of; one that could not
/// be loaded leaves the effect off, with none. The mix is held to all wet.
pub proof fn a_set_room_keeps_its_recording<N: Spectral + Resampling>(
    before: Convolution<N>,
    after: Convolution<N>,
    enabled: bool,
    path: Option<Seq<char>>,
    loaded: Option<Result<SourceIr<N::Sample>, String>>,
    mix: u64,
    result: Result<(), Seq<char>>,
)
    requires
        after.tuned(before, enabled, path, loaded, mix, result),
    ensures
        mix <= 0x1_0000_0000 ==> after.mix() == mix,
        mix > 0x1_0000_0000 ==> after.mix() == 0x1_0000_0000,
        path == before.path() ==> result is Ok && after.enabled() == enabled && after.room()
            == before.room() && after.source() == before.source(),
        path != before.path() ==> after.room() is None,
        path != before.path() && path is Some ==> (loaded matches Some(Ok(source))
            ==> after.enabled() == enabled && after.path() == path && after.source() is Some
            && *after.source()->0 == source),
        path != before.path() && path is Some ==> (loaded matches Some(Err(message))
            ==> !after.enabled() && after.path() is None && after.source() is None && result
            == Err::<(), Seq<char>>(message@)),
        path is None && before.path() is Some ==> after.source() is None && after.path() is None
            && result is Ok,
{
}

} // verus!
