//! The chain: audio goes through its effects in order, and positions follow it.
use vstd::prelude::*;

use crate::chain::{all_restarted, cascades, combined_ratio, drained_through, engages, failed, fails_at};
use crate::chain::{every_frame_repeated, first_failure, live, Chain};
use crate::chain::{flushed_at, held_frames, joined, passed, step, stopped, threads, Effect};
use crate::timeline::{lookup, pruned, recorded, Marker};

verus! {

/// Whether an effect has a part in what is heard: it is on, or still holds audio,
/// and is not bypassed.
pub open spec fn takes_part<E: Effect>(effect: E) -> bool {
    effect.active() && !effect.bypassed()
}

/// Audio goes through the first effect and what comes out of it through the
/// others; one that takes no part is left as it is and hands the audio on. Where
/// there is no effect the audio is left as it is.
pub proof fn audio_goes_through_the_effects_in_order<E: Effect>(
    before: Seq<E>,
    after: Seq<E>,
    input: Seq<E::Sample>,
    output: Seq<E::Sample>,
)
    requires
        passed(before, after, input, output),
    ensures
        before.len() == 0 ==> output == input,
        before.len() > 0 && !takes_part(before[0]) ==> after[0] == before[0] && passed(
            before.skip(1),
            after.skip(1),
            input,
            output,
        ),
        before.len() > 0 && takes_part(before[0]) ==> exists|between: Seq<E::Sample>|
            {
                &&& #[trigger] E::processed(before[0], input, after[0], between, Ok(()))
                &&& passed(before.skip(1), after.skip(1), between, output)
            },
{
    let n = before.len() as int;
    let trace = choose|trace: Seq<Seq<E::Sample>>|
        {
            &&& #[trigger] threads(before, after, trace, n)
            &&& trace[0] == input
            &&& trace.last() == output
        };
    if n > 0 {
        let rest = trace.skip(1);
        assert(step(before[0], after[0], trace[0], trace[1]));
        assert forall|i: int| 0 <= i < n - 1 implies step(
            #[trigger] before.skip(1)[i],
            after.skip(1)[i],
            rest[i],
            rest[i + 1],
        ) by {
            assert(step(before[i + 1], after[i + 1], trace[i + 1], trace[i + 2]));
        }
        let m = before.skip(1).len() as int;
        assert(m == n - 1);
        assert(rest[0] == trace[1]);
        assert(rest.last() == output);
        assert(threads(before.skip(1), after.skip(1), rest, m));
        assert(passed(before.skip(1), after.skip(1), trace[1], output));
        if takes_part(before[0]) {
            assert(E::processed(before[0], input, after[0], trace[1], Ok(())));
        }
    }
}

/// An effect that fails ends the pass: the effects behind it are not called, and
/// the error has its name in front, a colon and a space between.
pub proof fn the_first_failure_ends_the_pass<E: Effect>(
    before: Seq<E>,
    after: Seq<E>,
    input: Seq<E::Sample>,
    message: Seq<char>,
)
    requires
        stopped(before, after, input, message),
    ensures
        before.len() > 0,
        !takes_part(before[0]) ==> after[0] == before[0] && stopped(
            before.skip(1),
            after.skip(1),
            input,
            message,
        ),
        takes_part(before[0]) ==> {
            ||| {
                &&& after.skip(1) == before.skip(1)
                &&& exists|partial: Seq<E::Sample>, cause: Seq<char>|
                    {
                        &&& #[trigger] E::processed(
                            before[0],
                            input,
                            after[0],
                            partial,
                            Err(cause),
                        )
                        &&& message == after[0].label() + ": "@ + cause
                    }
            }
            ||| exists|between: Seq<E::Sample>|
                {
                    &&& #[trigger] E::processed(before[0], input, after[0], between, Ok(()))
                    &&& stopped(before.skip(1), after.skip(1), between, message)
                }
        },
{
    reveal_strlit(": ");
    assert(": "@ =~= seq![':', ' ']);
    let (trace, n) = choose|trace: Seq<Seq<E::Sample>>, n: int|
        {
            &&& #[trigger] fails_at(before, after, trace, n, message)
            &&& trace[0] == input
        };
    if n == 0 {
        assert(failed(before[0], after[0], trace[0], message));
        assert(after.skip(1) =~= before.skip(1));
    } else {
        let rest = trace.skip(1);
        assert(step(before[0], after[0], trace[0], trace[1]));
        assert forall|i: int| 0 <= i < n - 1 implies step(
            #[trigger] before.skip(1)[i],
            after.skip(1)[i],
            rest[i],
            rest[i + 1],
        ) by {
            assert(step(before[i + 1], after[i + 1], trace[i + 1], trace[i + 2]));
        }
        assert(threads(before.skip(1), after.skip(1), rest, n - 1));
        assert(before.skip(1)[n - 1] == before[n] && after.skip(1)[n - 1] == after[n]);
        assert(rest[n - 1] == trace[n]);
        assert forall|j: int| n - 1 < j < before.skip(1).len() implies #[trigger] after.skip(1)[j]
            == before.skip(1)[j] by {
            assert(after[j + 1] == before[j + 1]);
        }
        assert(fails_at(before.skip(1), after.skip(1), rest, n - 1, message));
        assert(rest[0] == trace[1]);
        assert(stopped(before.skip(1), after.skip(1), trace[1], message));
        if takes_part(before[0]) {
            assert(E::processed(before[0], input, after[0], trace[1], Ok(())));
        }
    }
}

/// One more effect at the end of a chain multiplies its time ratio by its own, one
/// being 2 to the 32, up to the fastest there is, and adds the frames that it
/// holds; if it takes no part it does neither. A chain of none has a ratio of one
/// and holds nothing.
pub proof fn an_effect_has_its_share_of_time<E: Effect>(effects: Seq<E>, effect: E)
    ensures
        combined_ratio(Seq::<E>::empty(), 0) == 0x1_0000_0000,
        held_frames(Seq::<E>::empty(), 0) == 0,
        combined_ratio(effects.push(effect), effects.len() + 1) == if takes_part(effect) {
            let all = combined_ratio(effects, effects.len()) * effect.ratio() / 0x1_0000_0000;
            if all <= 0x4000_0000_0000_0000 {
                all
            } else {
                0x4000_0000_0000_0000
            }
        } else {
            combined_ratio(effects, effects.len())
        },
        held_frames(effects.push(effect), effects.len() + 1) == held_frames(effects, effects.len())
            + if takes_part(effect) {
            effect.pending()
        } else {
            0
        },
{
    lemma_a_beginning_is_enough(effects, effects.push(effect), effects.len());
}

proof fn lemma_a_beginning_is_enough<E: Effect>(a: Seq<E>, b: Seq<E>, n: nat)
    requires
        n <= a.len(),
        n <= b.len(),
        forall|i: int| 0 <= i < n ==> #[trigger] a[i] == b[i],
    ensures
        combined_ratio(a, n) == combined_ratio(b, n),
        held_frames(a, n) == held_frames(b, n),
    decreases n,
{
    if n > 0 {
        lemma_a_beginning_is_enough(a, b, (n - 1) as nat);
        assert(a[n - 1] == b[n - 1]);
    }
}

/// A chain that ends puts out all that its first effect holds, sent through the
/// second, and then all that the second holds.
pub proof fn a_drain_goes_from_front_to_back<E: Effect>(
    before: Seq<E>,
    after: Seq<E>,
    output: Seq<E::Sample>,
)
    requires
        drained_through(before, after, output),
        before.len() == 2,
        takes_part(before[0]),
        takes_part(before[1]),
    ensures
        exists|held: Seq<E::Sample>, first: Seq<E::Sample>, between: E, rest: Seq<E::Sample>|
            {
                &&& #[trigger] E::flushed(before[0], after[0], held, Ok(()))
                &&& #[trigger] E::processed(before[1], held, between, first, Ok(()))
                &&& if takes_part(between) {
                    E::flushed(between, after[1], rest, Ok(()))
                } else {
                    after[1] == between && rest == Seq::<E::Sample>::empty()
                }
                &&& output == #[trigger] (first + rest)
            },
{
    let (states, emitted) = choose|states: Seq<Seq<E>>, emitted: Seq<Seq<E::Sample>>|
        {
            &&& #[trigger] cascades(states, emitted, 2)
            &&& states[0] == before
            &&& states.last() == after
            &&& joined(emitted) == output
        };
    reveal_with_fuel(joined, 3);
    assert(emitted.drop_last().drop_last() =~= Seq::empty());
    assert(output =~= emitted[0] + emitted[1]);
    let mid = states[1];
    assert(engages(states[0][0]));
    assert(flushed_at(states[0], states[1], 0, emitted[0]));
    let held = choose|held: Seq<E::Sample>|
        {
            &&& #[trigger] E::flushed(before[0], mid[0], held, Ok(()))
            &&& passed(before.skip(1), mid.skip(1), held, emitted[0])
        };
    audio_goes_through_the_effects_in_order(before.skip(1), mid.skip(1), held, emitted[0]);
    let first = choose|between: Seq<E::Sample>|
        {
            &&& #[trigger] E::processed(before.skip(1)[0], held, mid.skip(1)[0], between, Ok(()))
            &&& passed(before.skip(1).skip(1), mid.skip(1).skip(1), between, emitted[0])
        };
    audio_goes_through_the_effects_in_order(
        before.skip(1).skip(1),
        mid.skip(1).skip(1),
        first,
        emitted[0],
    );
    assert(first == emitted[0]);
    let between = mid[1];
    let rest = emitted[1];
    assert(states[2] == after);
    if engages(states[1][1]) {
        assert(flushed_at(states[1], states[2], 1, emitted[1]));
        assert(after[0] == mid[0]);
        let tail = choose|held: Seq<E::Sample>|
            {
                &&& #[trigger] E::flushed(mid[1], after[1], held, Ok(()))
                &&& passed(mid.skip(2), after.skip(2), held, rest)
            };
        audio_goes_through_the_effects_in_order(mid.skip(2), after.skip(2), tail, rest);
        assert(tail == rest);
    } else {
        assert(states[2] == states[1]);
    }
    assert(E::flushed(before[0], after[0], held, Ok(())));
    assert(E::processed(before[1], held, between, first, Ok(())));
}

/// A chain of one effect puts out what it holds as it is.
pub proof fn a_single_effect_drains_as_it_is<E: Effect>(
    before: Seq<E>,
    after: Seq<E>,
    output: Seq<E::Sample>,
)
    requires
        drained_through(before, after, output),
        before.len() == 1,
    ensures
        if takes_part(before[0]) {
            E::flushed(before[0], after[0], output, Ok(()))
        } else {
            after == before && output == Seq::<E::Sample>::empty()
        },
{
    let (states, emitted) = choose|states: Seq<Seq<E>>, emitted: Seq<Seq<E::Sample>>|
        {
            &&& #[trigger] cascades(states, emitted, 1)
            &&& states[0] == before
            &&& states.last() == after
            &&& joined(emitted) == output
        };
    reveal_with_fuel(joined, 2);
    assert(emitted.drop_last() =~= Seq::empty());
    assert(output =~= emitted[0]);
    if engages(states[0][0]) {
        assert(flushed_at(states[0], states[1], 0, emitted[0]));
        let held = choose|held: Seq<E::Sample>|
            {
                &&& #[trigger] E::flushed(before[0], after[0], held, Ok(()))
                &&& passed(before.skip(1), after.skip(1), held, emitted[0])
            };
        audio_goes_through_the_effects_in_order(before.skip(1), after.skip(1), held, emitted[0]);
    } else {
        assert(states[1] == states[0]);
    }
}

/// A position is that of the marker it stands behind, and goes on from there by the
/// marker's pace with every frame. Before the first marker there is none.
pub proof fn a_position_runs_on_from_its_marker(markers: Seq<Marker>, i: int, frame: int)
    requires
        0 <= i < markers.len(),
        forall|a: int, b: int|
            0 <= a < b < markers.len() ==> (#[trigger] markers[a]).device_frame < (
            #[trigger] markers[b]).device_frame,
    ensures
        markers[i].device_frame <= frame && (i + 1 < markers.len() ==> frame < markers[i
            + 1].device_frame) ==> lookup(markers, frame) == Some(
            markers[i].source + (frame - markers[i].device_frame) * markers[i].pace,
        ),
        frame < markers[0].device_frame ==> lookup(markers, frame) is None,
    decreases markers.len(),
{
    let fewer = markers.drop_last();
    if i + 1 < markers.len() {
        assert(markers[i + 1].device_frame <= markers.last().device_frame);
        assert forall|a: int, b: int| 0 <= a < b < fewer.len() implies (
        #[trigger] fewer[a]).device_frame < (#[trigger] fewer[b]).device_frame by {
            assert(markers[a].device_frame < markers[b].device_frame);
        }
        a_position_runs_on_from_its_marker(fewer, i, frame);
    } else if frame < markers[0].device_frame {
        if i > 0 {
            assert forall|a: int, b: int| 0 <= a < b < fewer.len() implies (
            #[trigger] fewer[a]).device_frame < (#[trigger] fewer[b]).device_frame by {
                assert(markers[a].device_frame < markers[b].device_frame);
            }
            assert(markers[0].device_frame < markers[i].device_frame);
            a_position_runs_on_from_its_marker(fewer, 0, frame);
        } else {
            assert(fewer.len() == 0);
            assert(lookup(fewer, frame) is None);
        }
    }
}

/// What is given up when nothing before a frame will be asked for again is a run
/// of the oldest markers, and no more than one marker is kept that is not after
/// that frame.
pub proof fn only_the_oldest_markers_are_given_up(markers: Seq<Marker>, keep_from: u64)
    ensures
        exists|n: int|
            0 <= n <= markers.len() && pruned(markers, keep_from) == #[trigger] markers.skip(n),
        markers.len() > 0 ==> pruned(markers, keep_from).len() > 0,
        pruned(markers, keep_from).len() > 1 ==> pruned(markers, keep_from)[1].device_frame
            > keep_from,
    decreases markers.len(),
{
    if markers.len() > 1 && markers[1].device_frame <= keep_from {
        only_the_oldest_markers_are_given_up(markers.skip(1), keep_from);
        let n = choose|n: int|
            0 <= n <= markers.skip(1).len() && pruned(markers.skip(1), keep_from)
                == #[trigger] markers.skip(1).skip(n);
        assert(markers.skip(1).skip(n) =~= markers.skip(n + 1));
    } else {
        assert(markers.skip(0) =~= markers);
    }
}

/// The effects that are active, in their order.
pub open spec fn the_active<E: Effect>(effects: Seq<E>) -> Seq<E> {
    effects.filter(|effect: E| effect.active())
}

/// The effects that stay are those that are active, every one of them and in their
/// order.
pub proof fn active_effects_stay_in_their_order<E: Effect>(effects: Seq<E>)
    ensures
        live(effects) == the_active(effects),
    decreases effects.len(),
{
    reveal(Seq::filter);
    if effects.len() > 0 {
        active_effects_stay_in_their_order(effects.drop_last());
    }
}

/// A reset makes every effect drop its audio, then lets go of those that are not
/// active any more, and forgets all positions.
pub proof fn a_reset_drops_audio_and_positions<E: Effect>(chain: Chain<E>, before: Seq<E>)
    requires
        chain.restarted_from(before),
    ensures
        chain.clock().consumed is None,
        chain.clock().markers.len() == 0,
        !chain.drained(),
        exists|after: Seq<E>|
            {
                &&& after.len() == before.len()
                &&& forall|i: int|
                    0 <= i < before.len() ==> E::restarted(#[trigger] before[i], after[i])
                &&& chain.effects() == #[trigger] the_active(after)
            },
{
    let after = choose|after: Seq<E>| #[trigger]
        all_restarted(before, after) && chain.effects() == live(after);
    active_effects_stay_in_their_order(after);
    assert(chain.effects() == the_active(after));
}

/// Of several effects that could not be built, the first is reported, with its name
/// in front; where all could, nothing is.
pub proof fn the_first_failure_is_reported<E: Effect>(
    effects: Seq<E>,
    results: Seq<Result<(), Seq<char>>>,
    i: int,
    n: nat,
)
    requires
        n <= results.len(),
        n <= effects.len(),
        0 <= i <= n,
        forall|j: int| 0 <= j < i ==> #[trigger] results[j] is Ok,
    ensures
        i == n ==> first_failure(effects, results, n) is Ok,
        i < n ==> (results[i] matches Err(cause) ==> first_failure(effects, results, n) == Err::<
            (),
            Seq<char>,
        >(effects[i].label() + ": "@ + cause)),
    decreases n,
{
    reveal_strlit(": ");
    assert(": "@ =~= seq![':', ' ']);
    if n > 0 {
        if i < n {
            the_first_failure_is_reported(effects, results, i, (n - 1) as nat);
        } else {
            the_first_failure_is_reported(effects, results, i - 1, (n - 1) as nat);
            assert(results[i - 1] is Ok);
        }
    }
}

/// A record that goes on at the same pace adds a marker only where it departs by
/// two milliseconds or more from where the last marker has got to; one at another
/// pace always does.
pub proof fn a_steady_run_adds_no_marker(
    markers: Seq<Marker>,
    second: int,
    device_frame: u64,
    source: u128,
    pace: u64,
)
    requires
        markers.len() > 0,
        markers.last().device_frame < device_frame,
        second > 0,
    ensures
        ({
            let last = markers.last();
            let reached = last.source + (device_frame - last.device_frame) * last.pace;
            let after = recorded(markers, second, device_frame, source, pace);
            &&& source <= reached && pace == last.pace ==> after == markers
            &&& pace == last.pace && (source - reached) * 1000 < 2 * second ==> after
                == markers
            &&& pace == last.pace && (source - reached) * 1000 >= 2 * second && source
                > reached ==> after == markers.push(Marker { device_frame, source, pace })
            &&& pace != last.pace && source >= reached ==> after == markers.push(
                Marker { device_frame, source, pace },
            )
        }),
{
}

/// The first run of a chain that keeps time is placed where it lands in the ring:
/// its first frame at the ring position, and every frame on by the chain's time
/// ratio from there. What it has used of the source is counted by its input.
pub proof fn a_first_run_is_placed_on_the_map<E: Effect>(
    before: Chain<E>,
    carried: Seq<E::Sample>,
    had: Seq<E::Sample>,
    frames_written: u64,
    after: Chain<E>,
    out: Seq<E::Sample>,
    n: int,
)
    requires
        Chain::ran(before, carried, had, frames_written, after, out, Ok(())),
        exists|i: int| 0 <= i < before.effects().len() && takes_part(#[trigger] before.effects()[i]),
        before.recording(),
        before.rate() > 0,
        before.clock().consumed is None,
        before.clock().markers.len() == 0,
        before.channels() > 0,
        out.len() >= had.len() + before.channels(),
        frames_written + had.len() / before.channels() as nat <= 0x7fff_ffff_ffff_ffff,
        carried.len() <= 0xffff_ffff_ffff_ffff,
        combined_ratio(before.effects(), before.effects().len()) <= 0x4000_0000_0000_0000,
        n >= 0,
    ensures
        ({
            let origin = frames_written + had.len() / before.channels() as nat;
            let ratio = combined_ratio(before.effects(), before.effects().len());
            &&& lookup(after.clock().markers, origin + n) == Some(
                origin * 0x1_0000_0000 + n * ratio,
            )
            &&& after.clock().consumed == Some(
                ((origin + carried.len() / before.channels() as nat) * 0x1_0000_0000) as nat,
            )
        }),
{
    let i = choose|i: int|
        0 <= i < before.effects().len() && takes_part(#[trigger] before.effects()[i]);
    assert(engages(before.effects()[i]));
    let ch = before.channels() as nat;
    let made = (out.len() - had.len()) as nat;
    assert(made / ch >= 1) by {
        vstd::arithmetic::div_mod::lemma_fundamental_div_mod(made as int, ch as int);
        if made / ch == 0 {
            assert(ch * 0 == 0);
        }
    }
    vstd::arithmetic::div_mod::lemma_div_pos_is_pos(had.len() as int, ch as int);
    vstd::arithmetic::div_mod::lemma_div_pos_is_pos(carried.len() as int, ch as int);
    let used = carried.len() / ch;
    assert(used <= carried.len()) by (nonlinear_arith)
        requires
            used == carried.len() / ch,
            ch >= 1,
    ;
    let markers = after.clock().markers;
    let origin = frames_written + had.len() / ch;
    assert(markers.len() == 1);
    assert(markers[0].device_frame == origin);
    assert(markers[0].source == origin * 0x1_0000_0000);
    a_position_runs_on_from_its_marker(markers, 0, origin + n);
}

/// A repeater puts every frame out so many times over, in order, all channels
/// together.
pub proof fn every_frame_is_put_out_again_and_again<T>(
    input: Seq<T>,
    channels: nat,
    times: nat,
    frame: int,
    again: int,
    c: int,
)
    requires
        channels > 0,
        0 <= frame < input.len() / channels,
        0 <= again < times,
        0 <= c < channels,
    ensures
        ({
            let out = every_frame_repeated(input, channels, times);
            &&& out.len() == input.len() / channels * times * channels
            &&& out[(frame * times + again) * channels + c] == input[frame * channels + c]
        }),
{
    let at = frame * times + again;
    let j = at * channels + c;
    let n = (input.len() / channels) as int;
    assert(0 <= at < n * times && 0 <= j < n * times * channels) by (nonlinear_arith)
        requires
            at == frame * times + again,
            j == at * channels + c,
            0 <= frame < n,
            0 <= again < times,
            0 <= c < channels,
    {
        assert(frame * times + times <= n * times);
        assert(at * channels + channels <= (n * times) * channels);
    }
    vstd::arithmetic::div_mod::lemma_fundamental_div_mod_converse(j, channels as int, at, c);
    vstd::arithmetic::div_mod::lemma_fundamental_div_mod_converse(at, times as int, frame, again);
}

} // verus!
