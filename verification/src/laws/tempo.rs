//! Tempo through a whole stream: what goes in comes out at the tempo that is set.
use vstd::prelude::*;

use crate::chain::Effect;
use crate::grains::{a_ready_block_has_its_source, lemma_frames_fit, lemma_source_is_used_slowly};
use crate::grains::{a_demand_that_is_met_is_enough, output_uses_source_at_the_tempo, Granular};
use crate::numeric::Fixed;
use crate::stretch::{lemma_ends_once, pulls_wait_for_source, Feeding, Stream, Stretching};
use crate::stretch::TimeStretch;

verus! {

/// A stream in order: one tempo, from a quarter of normal speed to double, and no
/// more source than the engine takes.
pub open spec fn in_order(stream: Stream<Fixed>) -> bool {
    &&& stream.channels > 0
    &&& stream.engine.channels == stream.channels
    &&& stream.engine.step < 512
    &&& stream.engine.phase < 0x1_0000_0000
    &&& stream.engine.tempo == stream.target
    &&& 0x4000_0000 <= stream.target <= 0x2_0000_0000
    &&& stream.discard == 0
    &&& stream.fade <= 256
    &&& stream.engine.frames() <= 16384
}

/// How much source is still to be played, in parts of a frame: what waits, less how
/// far the grain that plays has got.
pub open spec fn ahead(stream: Stream<Fixed>) -> int {
    stream.engine.frames() * 0x1_0000_0000 - stream.engine.phase - stream.engine.step
        * stream.target
}

/// How many whole frames there are.
pub open spec fn whole(samples: Seq<i64>, channels: nat) -> nat {
    samples.len() / channels
}

proof fn lemma_longer(a: nat, b: nat, channels: nat)
    requires
        channels > 0,
    ensures
        (a + b * channels) / channels == a / channels + b,
        (a + b * channels) % channels == a % channels,
{
    vstd::arithmetic::div_mod::lemma_fundamental_div_mod(a as int, channels as int);
    assert((a / channels + b) * channels == channels * (a / channels) + b * channels)
        by (nonlinear_arith);
    vstd::arithmetic::div_mod::lemma_fundamental_div_mod_converse(
        (a + b * channels) as int,
        channels as int,
        (a / channels + b) as int,
        (a % channels) as int,
    );
}

proof fn lemma_block_len(start: Granular, n: nat)
    ensures
        start.played(n).0.len() == n * start.channels,
    decreases n,
{
    if n > 0 {
        lemma_block_len(start, (n - 1) as nat);
        lemma_kept(start, (n - 1) as nat);
        assert(n * start.channels == (n - 1) * start.channels + start.channels) by (nonlinear_arith);
    } else {
        assert(0 * start.channels == 0);
    }
}

proof fn lemma_kept(start: Granular, n: nat)
    ensures
        start.played(n).1.channels == start.channels,
        start.played(n).1.tempo == start.tempo,
    decreases n,
{
    if n > 0 {
        lemma_kept(start, (n - 1) as nat);
    }
}

/// One block pulled uses source up at the tempo.
proof fn lemma_pull(stream: Stream<Fixed>)
    requires
        in_order(stream),
        stream.ready(),
    ensures
        ({
            let (next, block) = stream.pulled(1024);
            &&& in_order(next)
            &&& next.target == stream.target
            &&& next.channels == stream.channels
            &&& block.len() == 1024 * stream.channels
            &&& ahead(next) == ahead(stream) - 1024 * stream.target
            &&& next.engine.frames() < stream.engine.frames()
        }),
{
    let engine = stream.engine;
    let t = stream.target as int;
    assert forall|i: nat| i < 1024 implies (#[trigger] engine.played(i)).1.frames() >= 1024 by {
        a_ready_block_has_its_source(stream, i);
    }
    output_uses_source_at_the_tempo(engine, 1024);
    lemma_source_is_used_slowly(engine, 1024, engine.tempo);
    lemma_block_len(engine, 1024);
    let (block, now) = engine.played(1024);
    assert(0 * stream.channels == 0);
    assert(block.skip(0) =~= block);
    let (next, out) = stream.pulled(1024);
    assert(next.engine == now);
    let used = engine.frames() - now.frames();
    assert((now.step - engine.step) * t == now.step * t - engine.step * t) by (nonlinear_arith);
    assert(used * 0x1_0000_0000 >= 1024 * t - 512 * t - 0x1_0000_0000);
    assert(used > 0);
}

/// As long as blocks are ready, each uses source up at the tempo.
proof fn lemma_blocks(stream: Stream<Fixed>, k: nat)
    requires
        in_order(stream),
        forall|j: nat| j < k ==> (#[trigger] stream.pulled_blocks(j)).0.ready(),
    ensures
        ({
            let (next, made) = stream.pulled_blocks(k);
            &&& in_order(next)
            &&& next.target == stream.target
            &&& next.channels == stream.channels
            &&& made.len() == (1024 * k) * stream.channels
            &&& ahead(next) == ahead(stream) - (1024 * k) * stream.target
            &&& next.engine.frames() + k <= stream.engine.frames()
        }),
    decreases k,
{
    if k > 0 {
        let m = (k - 1) as nat;
        lemma_blocks(stream, m);
        let (now, made) = stream.pulled_blocks(m);
        assert(now.ready());
        lemma_pull(now);
        let (ch, t) = (stream.channels as int, stream.target as int);
        assert((1024 * k) * ch == (1024 * m) * ch + 1024 * ch && (1024 * k) * t == (1024 * m) * t
            + 1024 * t) by (nonlinear_arith)
            requires
                k == m + 1,
        ;
    } else {
        let (ch, t) = (stream.channels as int, stream.target as int);
        assert((1024 * 0) * ch == 0 && (1024 * 0) * t == 0) by (nonlinear_arith);
    }
}

/// Blocks are ready no longer than there is source.
proof fn lemma_pulls_end(stream: Stream<Fixed>, k: nat) -> (end: nat)
    requires
        in_order(stream),
        forall|j: nat| j < k ==> (#[trigger] stream.pulled_blocks(j)).0.ready(),
    ensures
        stream.pauses(end),
        end >= k,
    decreases stream.engine.frames() - k,
{
    lemma_blocks(stream, k);
    if stream.pulled_blocks(k).0.ready() {
        assert forall|j: nat| j < k + 1 implies (#[trigger] stream.pulled_blocks(j)).0.ready() by {
            if j < k {
                assert(stream.pulled_blocks(j).0.ready());
            } else {
                assert(j == k);
            }
        }
        lemma_blocks(stream, k + 1);
        lemma_pulls_end(stream, k + 1)
    } else {
        k
    }
}

/// Pulling all that is ready puts out whole blocks, which use source up at the
/// tempo, until none is ready.
proof fn lemma_pull_all(stream: Stream<Fixed>) -> (k: nat)
    requires
        in_order(stream),
    ensures
        ({
            let (next, made) = stream.pulled_while_ready();
            &&& in_order(next)
            &&& next.target == stream.target
            &&& next.channels == stream.channels
            &&& !next.ready()
            &&& made.len() == (1024 * k) * stream.channels
            &&& ahead(next) == ahead(stream) - (1024 * k) * stream.target
            &&& next.engine.frames() + k <= stream.engine.frames()
            &&& stream.ready() ==> k > 0
        }),
{
    let k = lemma_pulls_end(stream, 0);
    pulls_wait_for_source::<Fixed>(stream, k);
    lemma_blocks(stream, k);
    if stream.ready() && k == 0 {
        assert(stream.pulled_blocks(0).0 == stream);
    }
    k
}

/// An engine that is full has a block ready.
proof fn lemma_full_is_ready(stream: Stream<Fixed>)
    requires
        in_order(stream),
        stream.engine.frames() >= 4406,
    ensures
        stream.ready(),
{
    let tempo = stream.target + stream.target / 10;
    let each = 512 * tempo / 0x1_0000_0000 + 1;
    assert(each <= 1127);
    assert(3 * each + 1024 <= 4406);
    assert((1024nat / 512nat + 1) * each == 3 * each);
}

/// How far feeding has got: nothing was dropped, and what came out used source up
/// at the tempo.
pub open spec fn keeps_count(
    feeding: Feeding<Fixed>,
    start: Stream<Fixed>,
    input: Seq<i64>,
) -> bool {
    let ch = start.channels;
    &&& in_order(feeding.stream)
    &&& feeding.stream.target == start.target
    &&& feeding.stream.channels == ch
    &&& !feeding.stalled
    &&& feeding.left.len() % ch == 0
    &&& feeding.made.len() % ch == 0
    &&& ahead(feeding.stream) + whole(feeding.made, ch) * start.target + whole(feeding.left, ch)
        * 0x1_0000_0000 == ahead(start) + whole(input, ch) * 0x1_0000_0000
}

/// How many steps are left at most.
pub open spec fn to_go(feeding: Feeding<Fixed>) -> nat {
    2 * whole(feeding.left, feeding.stream.channels) + if feeding.stream.engine.frames() >= 16384 {
        1nat
    } else {
        0nat
    }
}

proof fn lemma_step(feeding: Feeding<Fixed>, start: Stream<Fixed>, input: Seq<i64>)
    requires
        keeps_count(feeding, start, input),
        start.channels > 0,
        !feeding.over(),
    ensures
        keeps_count(feeding.stepped(), start, input),
        to_go(feeding.stepped()) < to_go(feeding),
{
    let ch = start.channels;
    let engine = feeding.stream.engine;
    let l = whole(feeding.left, ch);
    let next = feeding.stepped();
    vstd::arithmetic::div_mod::lemma_fundamental_div_mod(feeding.left.len() as int, ch as int);
    assert(l > 0) by {
        if l == 0 {
            assert(ch * 0 == 0);
        }
    }
    let (taken, loaded) = Fixed::pushed(engine, feeding.left);
    assert(taken <= l);
    lemma_frames_fit(feeding.left.len(), ch, taken);
    if taken > 0 {
        let part = feeding.left.take((taken * ch) as int);
        assert(loaded.queue.len() == engine.queue.len() + taken * ch);
        lemma_longer(engine.queue.len(), taken, ch);
        assert(loaded.frames() == engine.frames() + taken);
        lemma_longer(next.left.len(), taken, ch);
        assert(next.left.len() + taken * ch == feeding.left.len());
        assert(whole(next.left, ch) == l - taken);
    } else {
        assert(engine.frames() == 16384);
        assert(0 * ch == 0);
        assert(feeding.left.take(0) =~= Seq::<i64>::empty());
        assert(engine.queue + Seq::<i64>::empty() =~= engine.queue);
        assert(loaded == engine);
        let same = Stream { engine: loaded, ..feeding.stream };
        assert(same == feeding.stream);
        lemma_full_is_ready(feeding.stream);
        let k = lemma_pull_all(feeding.stream);
        let block = feeding.stream.pulled_while_ready().1;
        assert((1024 * k) * ch > 0) by (nonlinear_arith)
            requires
                k > 0,
                ch > 0,
        ;
        lemma_longer(feeding.made.len(), 1024 * k, ch);
        let m = whole(feeding.made, ch);
        let t = start.target;
        assert((m + 1024 * k) * t == m * t + (1024 * k) * t) by (nonlinear_arith);
    }
}

proof fn lemma_feeding_ends(
    begin: Feeding<Fixed>,
    start: Stream<Fixed>,
    input: Seq<i64>,
    k: nat,
) -> (end: nat)
    requires
        start.channels > 0,
        keeps_count(begin.after(k), start, input),
        forall|j: nat| j < k ==> !(#[trigger] begin.after(j)).over(),
    ensures
        begin.ends(end),
        keeps_count(begin.after(end), start, input),
    decreases to_go(begin.after(k)),
{
    let now = begin.after(k);
    if now.over() {
        k
    } else {
        lemma_step(now, start, input);
        assert(begin.after(k + 1) == now.stepped());
        assert forall|j: nat| j < k + 1 implies !(#[trigger] begin.after(j)).over() by {
            if j < k {
                assert(!begin.after(j).over());
            } else {
                assert(j == k);
            }
        }
        lemma_feeding_ends(begin, start, input, k + 1)
    }
}

/// What goes into a stream comes out at the tempo that is set, and nothing is lost:
/// the output, each frame counted as the tempo, and the source still ahead come to
/// what was ahead before and what went in. At a tempo of one half, there are two
/// frames out for one in; at double, one for two. No more than 4406 frames of source
/// are left waiting, and the engine never runs ahead of its source by more than the
/// grain that it plays.
pub proof fn what_goes_in_comes_out_at_the_tempo(stream: Stream<Fixed>, input: Seq<i64>)
    requires
        in_order(stream),
        input.len() % stream.channels == 0,
    ensures
        ({
            let (after, output) = stream.fed(input);
            let (put_in, out) = (whole(input, stream.channels), whole(output, stream.channels));
            &&& output.len() % stream.channels == 0
            &&& out * stream.target + ahead(after) == ahead(stream) + put_in * 0x1_0000_0000
            &&& after.engine.frames() < 4406
            &&& ahead(after) <= 4406 * 0x1_0000_0000
            &&& ahead(after) >= -(512 * stream.target + 0x1_0000_0000)
            &&& in_order(after)
            &&& after.target == stream.target
        }),
{
    let ch = stream.channels;
    let t = stream.target;
    let begin = Feeding { stream, left: input, made: Seq::empty(), stalled: false };
    assert(begin.after(0) == begin);
    assert(0nat % ch == 0 && 0nat / ch == 0) by (nonlinear_arith)
        requires
            ch > 0,
    ;
    assert(0 * t == 0);
    assert(keeps_count(begin, stream, input));
    let end = lemma_feeding_ends(begin, stream, input, 0);
    lemma_ends_once::<Fixed>(begin, end);
    let all = begin.after(end);
    let k = lemma_pull_all(all.stream);
    let (last, rest) = all.stream.pulled_while_ready();
    assert(stream.fed(input) == (last, all.made + rest));
    assert(whole(all.left, ch) == 0);
    lemma_longer(all.made.len(), 1024 * k, ch);
    let m = whole(all.made, ch);
    assert((m + 1024 * k) * t == m * t + (1024 * k) * t) by (nonlinear_arith);
    if last.engine.frames() >= 4406 {
        lemma_full_is_ready(last);
    }
    let step = last.engine.step;
    assert(0 <= step * t <= 512 * t) by (nonlinear_arith)
        requires
            0 <= step < 512,
            t >= 0,
    ;
}

/// A stream begins in order, with nothing ahead.
pub proof fn a_new_stream_is_in_order(rate: u32, channels: nat, tempo: nat)
    requires
        0 < channels <= 8,
        0x4000_0000 <= tempo <= 0x2_0000_0000,
    ensures
        Fixed::opened(rate, channels, tempo) matches Ok(engine) && in_order(
            Stream::<Fixed>::cold(engine, channels, tempo),
        ) && ahead(Stream::<Fixed>::cold(engine, channels, tempo)) == 0,
{
    assert(0nat / channels == 0) by (nonlinear_arith)
        requires
            channels > 0,
    ;
    assert(0 * tempo == 0);
}

/// A time stretch that runs puts out one frame for every tempo's worth of frames
/// that goes in, the tempo being the one that it was built with or set to.
pub proof fn a_time_stretch_plays_at_its_tempo(
    before: TimeStretch<Fixed>,
    input: Seq<i64>,
    after: TimeStretch<Fixed>,
    output: Seq<i64>,
    result: Result<(), Seq<char>>,
)
    requires
        TimeStretch::processed(before, input, after, output, result),
        before.stream() is Some,
        in_order(before.stream()->0),
        input.len() % before.stream()->0.channels == 0,
    ensures
        result is Ok,
        after.stream() is Some,
        ({
            let (was, now) = (before.stream()->0, after.stream()->0);
            let (put_in, out) = (whole(input, was.channels), whole(output, was.channels));
            &&& out * was.target + ahead(now) == ahead(was) + put_in * 0x1_0000_0000
            &&& in_order(now)
            &&& now.target == was.target
        }),
{
    what_goes_in_comes_out_at_the_tempo(before.stream()->0, input);
}

/// A block is ready only where the source is enough for it also at a tempo a tenth
/// faster than the one aimed at, as an engine on its way may be: in each of its
/// frames a whole grain of source, two times 512 frames, is at hand.
pub proof fn a_ready_block_bears_overshooting(stream: Stream<Fixed>, tempo: nat, i: nat)
    requires
        in_order(stream),
        stream.ready(),
        10 * tempo <= 11 * stream.target,
        i <= 1024,
    ensures
        (Granular { tempo, ..stream.engine }).played(i).1.frames() >= 1024,
{
    let most = stream.target + stream.target / 10;
    let engine = Granular { tempo, ..stream.engine };
    let each = 512 * most / 0x1_0000_0000 + 1;
    assert(each <= 1127);
    assert((1024nat / 512nat + 1) * each == 3 * each);
    assert(tempo <= most);
    a_demand_that_is_met_is_enough(engine, 1024, most, i);
}

} // verus!
