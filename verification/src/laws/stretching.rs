//! Time: what a stream through a stretching engine puts out, and when.
use vstd::prelude::*;

use crate::grains::Granular;
use crate::numeric::{Fixed, Numeric};
use crate::stretch::{faded, held_ratio, lesser, Feeding, Stream, Stretching};
use crate::stretch::TimeStretch;

verus! {

/// A tempo is taken as it is from a quarter of normal speed to double, one being
/// 2 to the 32, and held to the nearer end beyond.
pub proof fn a_tempo_is_held_in_range(ratio: u64)
    ensures
        0x4000_0000 <= ratio <= 0x2_0000_0000 ==> held_ratio(ratio) == ratio,
        ratio < 0x4000_0000 ==> held_ratio(ratio) == 0x4000_0000,
        ratio > 0x2_0000_0000 ==> held_ratio(ratio) == 0x2_0000_0000,
{
}

/// An effect that is turned off plays on at normal speed and keeps its tempo for
/// when it is turned on again.
pub proof fn turned_off_it_plays_at_normal_speed<N: Stretching>(
    before: TimeStretch<N>,
    after: TimeStretch<N>,
    ratio: u64,
)
    requires
        after.tuned(before, false, ratio),
        before.stream() is Some,
    ensures
        !after.enabled(),
        after.tempo() == before.tempo(),
        after.stream() is Some,
        after.stream()->0.target == 0x1_0000_0000,
        after.stream()->0.engine == N::retargeted(before.stream()->0.engine, 0x1_0000_0000),
{
}

/// A cold start leaves out the engine's delay and fades in over 256 frames: frame
/// `f` of what comes out is the frame that far past the delay, at `f + 1` parts in
/// 256 of its loudness, and from frame 255 on as it is.
pub proof fn a_cold_start_fades_in<N: Stretching>(
    engine: N::Stretch,
    channels: nat,
    target: nat,
    frames: nat,
    f: int,
    c: int,
)
    requires
        channels > 0,
        N::latency(engine) <= frames,
        N::rendered(engine, frames).0.len() == frames * channels,
        0 <= f < frames - N::latency(engine),
        0 <= c < channels,
    ensures
        ({
            let (after, out) = Stream::<N>::cold(engine, channels, target).pulled(frames);
            let late = N::latency(engine);
            let rendered = N::rendered(engine, frames).0[(late + f) * channels + c];
            &&& out.len() == (frames - late) * channels
            &&& out[f * channels + c] == if f < 256 {
                N::product(rendered, N::fraction_value((f + 1) as nat, 256))
            } else {
                rendered
            }
            &&& after.engine == N::rendered(engine, frames).1
            &&& after.discard == 0
            &&& after.target == target
        }),
{
    let block = N::rendered(engine, frames).0;
    let late = N::latency(engine);
    let rest = block.skip((late * channels) as int);
    let (all, cut) = (frames * channels, late * channels);
    assert(cut <= all && (frames - late) * channels == all - cut) by (nonlinear_arith)
        requires
            cut == late * channels,
            all == frames * channels,
            late <= frames,
    ;
    let j = f * channels + c;
    assert(0 <= j < (frames - late) * channels && cut + j == (late + f) * channels + c)
        by (nonlinear_arith)
        requires
            0 <= f < frames - late,
            0 <= c < channels,
            j == f * channels + c,
            cut == late * channels,
    ;
    vstd::arithmetic::div_mod::lemma_fundamental_div_mod_converse(j, channels as int, f, c);
    assert(rest[j] == block[(late + f) * channels + c]);
    let here = lesser((frames - late) as nat, 256);
    assert(Stream::<N>::cold(engine, channels, target).pulled(frames).1 == faded::<N>(
        rest,
        channels,
        0,
        here,
    ));
}

/// A stream that is drained begins anew: nothing of it is left, and what comes
/// next starts cold.
pub proof fn a_drained_stream_begins_anew<N: Stretching>(stream: Stream<N>)
    requires
        stream.primed,
    ensures
        ({
            let after = stream.drained().0;
            &&& !after.primed
            &&& after.fade == 256
            &&& after.discard == N::latency(after.engine)
            &&& exists|engine: N::Stretch| after.engine == #[trigger] N::cleared(engine)
        }),
{
    let (next, made) = stream.closed_off(64);
    let (last, rest) = next.pulled_out(next.left());
    assert(stream.drained().0.engine == N::cleared(last.engine));
}

/// What is still inside is the source that waits, at the tempo, and the delay: not
/// a frame less, so that a drain leaves nothing, and not a frame more.
pub proof fn what_is_left_is_all_that_waits<N: Stretching>(stream: Stream<N>)
    requires
        stream.target > 0,
    ensures
        ({
            let waits = N::occupied(stream.engine) * 0x1_0000_0000;
            let more = stream.left() - N::latency(stream.engine);
            &&& more * stream.target >= waits
            &&& more > 0 ==> (more - 1) * stream.target < waits
            &&& stream.buffered() * stream.target <= waits
            &&& (stream.buffered() + 1) * stream.target > waits
        }),
{
    let t = stream.target as int;
    let waits: int = (N::occupied(stream.engine) * 0x1_0000_0000) as int;
    let up = (waits + t - 1) / t;
    let down = waits / t;
    vstd::arithmetic::div_mod::lemma_fundamental_div_mod(waits + t - 1, t);
    vstd::arithmetic::div_mod::lemma_mod_bound(waits + t - 1, t);
    vstd::arithmetic::div_mod::lemma_fundamental_div_mod(waits, t);
    vstd::arithmetic::div_mod::lemma_mod_bound(waits, t);
    vstd::arithmetic::div_mod::lemma_div_pos_is_pos(waits + t - 1, t);
    assert(up * t == t * up && down * t == t * down) by (nonlinear_arith);
    assert((up - 1) * t == up * t - t && (down + 1) * t == down * t + t) by (nonlinear_arith);
}

/// What an engine plays is as long as what was asked for.
proof fn lemma_played_len(start: Granular, n: nat)
    ensures
        start.played(n).0.len() == n * start.channels,
        start.played(n).1.channels == start.channels,
        start.played(n).1.tempo == start.tempo,
    decreases n,
{
    if n > 0 {
        lemma_played_len(start, (n - 1) as nat);
        assert(n * start.channels == (n - 1) * start.channels + start.channels) by (nonlinear_arith);
    } else {
        assert(0 * start.channels == 0);
    }
}

proof fn lemma_pulled_out(stream: Stream<Fixed>, frames: nat)
    requires
        stream.discard == 0,
        stream.engine.channels == stream.channels,
        stream.fade <= 256,
    ensures
        stream.pulled_out(frames).1.len() == frames * stream.channels,
    decreases frames,
{
    let ch = stream.channels;
    if frames > 0 {
        let take = lesser(frames, 1024);
        let (next, block) = stream.pulled(take);
        lemma_played_len(stream.engine, take);
        assert(0 * ch == 0);
        assert(stream.engine.played(take).0.skip(0) =~= stream.engine.played(take).0);
        lemma_pulled_out(next, (frames - take) as nat);
        assert(frames * ch == take * ch + (frames - take) * ch) by (nonlinear_arith);
    } else {
        assert(0 * ch == 0);
    }
}

/// At the end of a stream the source that waits comes out at the tempo: its length
/// over the tempo, rounded up to whole frames.
pub proof fn what_waits_comes_out_at_the_tempo(stream: Stream<Fixed>)
    requires
        stream.primed,
        stream.discard == 0,
        stream.fade <= 256,
        stream.target > 0,
        stream.engine.channels == stream.channels,
        stream.channels > 0,
    ensures
        ({
            let out = stream.drained().1;
            let frames = out.len() / stream.channels;
            let waits = stream.engine.frames() * 0x1_0000_0000;
            &&& out.len() == frames * stream.channels
            &&& frames * stream.target >= waits
            &&& frames > 0 ==> (frames - 1) * stream.target < waits
        }),
{
    let (next, made) = stream.closed_off(64);
    assert(next.engine == stream.engine);
    assert(made =~= Seq::<i64>::empty());
    let n = next.left();
    lemma_pulled_out(next, n);
    what_is_left_is_all_that_waits::<Fixed>(next);
    let rest = next.pulled_out(n).1;
    assert(stream.drained().1 =~= rest);
    vstd::arithmetic::div_mod::lemma_fundamental_div_mod_converse(
        (n * stream.channels) as int,
        stream.channels as int,
        n as int,
        0,
    );
}

/// What is fed goes in from the front and in order: what is left to feed is always
/// an end of the input, shorter by what the engine took.
pub proof fn input_goes_in_from_the_front<N: Stretching>(feeding: Feeding<N>)
    requires
        N::pushed(feeding.stream.engine, feeding.left).0 * feeding.stream.channels
            <= feeding.left.len(),
    ensures
        ({
            let (taken, engine) = N::pushed(feeding.stream.engine, feeding.left);
            let next = feeding.stepped();
            &&& next.left == feeding.left.skip((taken * feeding.stream.channels) as int)
            &&& taken > 0 ==> next.stream.engine == engine && next.stream.primed && next.made
                == feeding.made
            &&& taken == 0 ==> next.made.len() >= feeding.made.len() && next.made.take(
                feeding.made.len() as int,
            ) == feeding.made
        }),
{
    let (taken, engine) = N::pushed(feeding.stream.engine, feeding.left);
    let next = feeding.stepped();
    if taken == 0 {
        assert(0 * feeding.stream.channels == 0) by (nonlinear_arith);
        assert(feeding.left.skip(0) =~= feeding.left);
        assert(next.made.take(feeding.made.len() as int) =~= feeding.made);
    }
}

} // verus!
