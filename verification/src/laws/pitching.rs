//! Pitch shift: every channel on its own, by the ratio that was set, with the
//! duration kept.
use vstd::prelude::*;

use crate::chain::{Effect, UNITY};
use crate::frames::channel_of;
use crate::numeric::{cut_quotient, Fixed, Numeric, FIXED_ONE};
use crate::pitch::{all_output, all_taken, channels_stay_aligned, glided, hop_for};
use crate::pitch::{held_cents, turned_on, vocoder_window, weighted, PitchShift};
use crate::pitch::{Vocoding, Voice};
use crate::pitch::{ANALYSIS_HOP, CENTS_LIMIT, FFT_SIZE};
use crate::transform::Spectral;

verus! {

/// Every channel is shifted on its own: channel `c` of what comes out is, sample
/// by sample, what a lone vocoder puts out for the samples of channel `c` of what
/// went in.
pub proof fn each_channel_is_shifted_on_its_own<N: Vocoding>(
    before: PitchShift<N>,
    input: Seq<N::Sample>,
    after: PitchShift<N>,
    output: Seq<N::Sample>,
    result: Result<(), Seq<char>>,
    c: int,
)
    requires
        before.wf(),
        before.voices() is Some,
        PitchShift::processed(before, input, after, output, result),
        0 <= c < before.channels(),
    ensures
        ({
            let ch = before.channels() as nat;
            let lane = Seq::new(input.len() / ch, |i: int| input[i * ch + c]);
            let alone = before.voices()->0[c].taken(lane);
            &&& output.len() == alone.output().len() * ch
            &&& forall|i: int|
                0 <= i < alone.output().len() ==> output[i * ch + c] == #[trigger] alone.output()[i]
            &&& after.voices() is Some
            &&& after.voices()->0.len() == ch
            &&& after.voices()->0[c] == alone.read_out()
        }),
{
    before.the_voices_are_aligned();
    let ch = before.channels() as nat;
    let voices = before.voices()->0;
    let taken = all_taken(voices, input);
    let lane = Seq::new(input.len() / ch, |i: int| input[i * ch + c]);
    assert(channel_of(input, ch, c) =~= lane);
    let first = channel_of(input, ch, 0);
    channels_stay_aligned(voices[c], voices[0], lane, first);
    let alone = voices[c].taken(lane);
    assert(taken[c] == alone && taken[0] == voices[0].taken(first));
    let n = alone.output().len();
    assert(output == all_output(taken));
    assert forall|i: int| 0 <= i < n implies output[i * ch + c] == #[trigger] alone.output()[i] by {
        vstd::arithmetic::div_mod::lemma_fundamental_div_mod_converse(
            i * ch + c,
            ch as int,
            i,
            c,
        );
        assert(0 <= i * ch + c < n * ch) by (nonlinear_arith)
            requires
                0 <= i < n,
                0 <= c < ch,
        ;
    }
}

/// A drain, too, keeps the channels apart: channel `c` of what comes out is what
/// a lone vocoder puts out when silence flushes it, and all start anew.
pub proof fn each_channel_is_flushed_on_its_own<N: Vocoding>(
    before: PitchShift<N>,
    after: PitchShift<N>,
    output: Seq<N::Sample>,
    result: Result<(), Seq<char>>,
    c: int,
)
    requires
        before.wf(),
        before.voices() is Some,
        PitchShift::flushed(before, after, output, result),
        0 <= c < before.channels(),
    ensures
        ({
            let ch = before.channels() as nat;
            let silence = Seq::new((FFT_SIZE + ANALYSIS_HOP) as nat, |i: int| N::zero_value());
            let alone = before.voices()->0[c].taken(silence);
            &&& output.len() == alone.output().len() * ch
            &&& forall|i: int|
                0 <= i < alone.output().len() ==> output[i * ch + c] == #[trigger] alone.output()[i]
            &&& after.voices() is Some
            &&& after.voices()->0[c] == Voice::<N>::fresh(before.voices()->0[c].target)
        }),
{
    before.the_voices_are_aligned();
    let ch = before.channels() as nat;
    let voices = before.voices()->0;
    let silence = Seq::new((FFT_SIZE + ANALYSIS_HOP) as nat, |i: int| N::zero_value());
    assert(crate::pitch::flush_silence::<N>() =~= silence);
    let taken = crate::pitch::all_flushed(voices);
    channels_stay_aligned(voices[c], voices[0], silence, silence);
    let alone = voices[c].taken(silence);
    assert(taken[c] == alone && taken[0] == voices[0].taken(silence));
    let n = alone.output().len();
    assert forall|i: int| 0 <= i < n implies output[i * ch + c] == #[trigger] alone.output()[i] by {
        vstd::arithmetic::div_mod::lemma_fundamental_div_mod_converse(
            i * ch + c,
            ch as int,
            i,
            c,
        );
        assert(0 <= i * ch + c < n * ch) by (nonlinear_arith)
            requires
                0 <= i < n,
                0 <= c < ch,
        ;
    }
}

/// A shift that is set on a running effect reaches the vocoder of every channel:
/// each aims at the ratio of those cents, held within an octave, from then on.
/// Turned off, each aims at no shift.
pub proof fn a_shift_that_is_set_reaches_every_channel<N: Vocoding>(
    before: PitchShift<N>,
    after: PitchShift<N>,
    enabled: bool,
    cents: i64,
    c: int,
)
    requires
        before.voices() is Some,
        after.tuned(before, enabled, cents),
        0 <= c < before.voices()->0.len(),
    ensures
        after.voices() is Some,
        after.voices()->0.len() == before.voices()->0.len(),
        ({
            let held: int = if cents > CENTS_LIMIT {
                CENTS_LIMIT as int
            } else if cents < -CENTS_LIMIT {
                -CENTS_LIMIT
            } else {
                cents as int
            };
            let voice = after.voices()->0[c];
            &&& voice.target == if enabled {
                N::ratio_for(held)
            } else {
                UNITY as nat
            }
            &&& voice.ratio == before.voices()->0[c].ratio
            &&& voice.stretched == before.voices()->0[c].stretched
            &&& voice.pending == before.voices()->0[c].pending
        }),
{
}

/// Every frame takes the ratio a tenth of the way to the one aimed at, and never
/// past it; and the frame is synthesised at the hop that this ratio makes of the
/// analysis hop, to the nearest sample.
pub proof fn each_frame_glides_and_stretches<N: Vocoding>(voice: Voice<N>)
    requires
        voice.in_range(),
    ensures
        ({
            let next = voice.framed();
            let way = voice.target - voice.ratio;
            let gone = next.ratio - voice.ratio;
            &&& -10 < 10 * gone - way < 10
            &&& way >= 0 ==> 0 <= gone <= way
            &&& way <= 0 ==> way <= gone <= 0
            &&& next.target == voice.target
            &&& -(UNITY as int) <= 2 * (next.hop * UNITY - ANALYSIS_HOP * next.ratio) <= UNITY
            &&& next.stretched.len() == voice.stretched.len() + next.hop
        }),
{
    let ratio = glided(voice.ratio as int, voice.target as int);
    assert(UNITY / 2 <= ratio <= 2 * UNITY);
    let hop = hop_for(ratio);
    assert(hop * UNITY <= ANALYSIS_HOP * ratio + UNITY / 2 < hop * UNITY + UNITY);
}

/// The centre of every fourth bin comes round to where the first one's is.
proof fn lemma_centre(k: int)
    requires
        k >= 0,
    ensures
        Fixed::turn_value((k * ANALYSIS_HOP) as nat, FFT_SIZE as nat) == (k % 4) * (FIXED_ONE / 4),
{
    let (q, j) = (k / 4, k % 4);
    vstd::arithmetic::div_mod::lemma_fundamental_div_mod_converse(
        k * ANALYSIS_HOP,
        2048,
        q,
        512 * j,
    );
    assert((512 * j) * FIXED_ONE == 2048 * (j * 0x4000_0000));
    assert((2048 * (j * 0x4000_0000)) / 2048 == j * 0x4000_0000);
}

proof fn lemma_difference(a: i64, b: i64)
    requires
        -0x4000_0000_0000_0000 <= a <= 0x3fff_ffff_ffff_ffff,
        -0x3fff_ffff_ffff_ffff <= b <= 0x4000_0000_0000_0000,
    ensures
        Fixed::difference(a, b) == a - b,
{
}

/// A bin's phase is moved on by as much as it turned since the last frame, scaled
/// from the analysis hop to the synthesis hop. How far it turned is taken next to
/// what the bin's own frequency turns in a hop, as the phases tell it only up to
/// whole turns.
pub proof fn a_bin_turns_on_at_its_frequency(seen: i64, turned: i64, phase: i64, k: int, hop: nat)
    requires
        -FIXED_ONE <= seen <= FIXED_ONE,
        -FIXED_ONE <= phase <= FIXED_ONE,
        -0x100_0000_0000_0000 <= turned <= 0x100_0000_0000_0000,
        0 <= k <= FFT_SIZE,
        hop <= 2 * ANALYSIS_HOP,
    ensures
        exists|advance: int|
            {
                &&& #[trigger] turns_by(advance, phase - seen, k)
                &&& -(ANALYSIS_HOP as int) < ANALYSIS_HOP * (turned_on::<Fixed>(
                    seen,
                    turned,
                    phase,
                    k,
                    hop,
                ) - turned) - advance * hop < ANALYSIS_HOP
            },
{
    let centre = Fixed::turn_value((k * ANALYSIS_HOP) as nat, FFT_SIZE as nat);
    lemma_centre(k);
    assert(centre == (k % 4) * (FIXED_ONE / 4));
    lemma_difference(phase, seen);
    let since = Fixed::difference(phase, seen);
    lemma_difference(since, centre);
    let gap = Fixed::difference(since, centre);
    assert(gap == phase - seen - centre);
    let off = Fixed::wrapped(gap);
    let advance = centre + off;
    assert(Fixed::sum(centre, off) == advance);
    assert((advance - (phase - seen)) % (FIXED_ONE as int) == 0);
    assert(turns_by(advance, phase - seen, k));
    let part = Fixed::fraction_value(hop, ANALYSIS_HOP as nat);
    assert(part == hop * 0x80_0000) by {
        assert(hop * FIXED_ONE / 512 == hop * 0x80_0000);
    }
    let n = advance * part;
    assert(n == (advance * hop) * 0x80_0000) by (nonlinear_arith)
        requires
            n == advance * part,
            part == hop * 0x80_0000,
    ;
    let m = advance * hop;
    assert(-0x8000_0000_0000 <= m <= 0x8000_0000_0000) by (nonlinear_arith)
        requires
            m == advance * hop,
            -0x2_0000_0000 <= advance <= 0x2_0000_0000,
            0 <= hop <= 1024,
    ;
    let moved = Fixed::product(advance as i64, part);
    assert(moved == cut_quotient(n, FIXED_ONE as int));
    assert(-512 < 512 * moved - m < 512);
}

/// `advance` is the number next to what bin `k` turns in a hop that differs from
/// `seen` by whole turns.
pub open spec fn turns_by(advance: int, seen: int, k: int) -> bool {
    let centre = (k % 4) * (FIXED_ONE / 4);
    &&& (advance - seen) % (FIXED_ONE as int) == 0
    &&& -(FIXED_ONE / 2) < advance - centre <= FIXED_ONE / 2
}

/// The shifted signal is the stretched one read at the step that undoes the
/// stretching: sample `i` lies `i` synthesis hops over the analysis hop behind
/// the first, on the straight line between the samples on both sides.
pub proof fn the_stretched_signal_is_read_back(voice: Voice<Fixed>, i: int)
    requires
        voice.in_range(),
        0 <= i < voice.output().len(),
        forall|j: int|
            0 <= j < voice.stretched.len() ==> -0x1000_0000_0000 <= #[trigger] voice.stretched[j]
                <= 0x1000_0000_0000,
    ensures
        ({
            let at = voice.read + i * voice.hop;
            let (p, r) = (at / ANALYSIS_HOP as int, at % ANALYSIS_HOP as int);
            &&& 0 <= p
            &&& p + 1 < voice.stretched.len()
            &&& -1024 <= ANALYSIS_HOP * voice.output()[i] - (voice.stretched[p] * (ANALYSIS_HOP - r)
                + voice.stretched[p + 1] * r) <= 1024
        }),
{
    let at = voice.read + i * voice.hop;
    let (p, r) = (at / ANALYSIS_HOP as int, at % ANALYSIS_HOP as int);
    let len = voice.stretched.len();
    let n = crate::pitch::readable(len, voice.read, voice.hop);
    let span = len * ANALYSIS_HOP - ANALYSIS_HOP - voice.read;
    vstd::arithmetic::div_mod::lemma_fundamental_div_mod(
        span + voice.hop - 1,
        voice.hop as int,
    );
    assert(i * voice.hop < span) by (nonlinear_arith)
        requires
            0 <= i < n,
            voice.hop * n <= span + voice.hop - 1,
            voice.hop > 0,
    ;
    assert(i * voice.hop >= 0) by (nonlinear_arith)
        requires
            0 <= i,
            voice.hop >= 0,
    ;
    assert(p + 1 < len);
    let (a, b) = (voice.stretched[p], voice.stretched[p + 1]);
    let part = Fixed::fraction_value(r as nat, ANALYSIS_HOP as nat);
    assert(part == r * 0x80_0000) by {
        assert(r * FIXED_ONE / 512 == r * 0x80_0000);
    }
    let rest = Fixed::difference(FIXED_ONE, part);
    assert(rest == (512 - r) * 0x80_0000);
    lemma_a_part_of(a, 512 - r);
    lemma_a_part_of(b, r);
}

/// A product with a part of the analysis hop.
proof fn lemma_a_part_of(a: i64, r: int)
    requires
        -0x1000_0000_0000 <= a <= 0x1000_0000_0000,
        0 <= r <= 512,
    ensures
        ({
            let whole = Fixed::product(a, (r * 0x80_0000) as i64);
            &&& -512 < 512 * whole - a * r < 512
            &&& -0x1000_0000_0000 <= whole <= 0x1000_0000_0000
        }),
{
    let m = a * r;
    let part = r * 0x80_0000;
    assert(a * part == m * 0x80_0000) by (nonlinear_arith)
        requires
            m == a * r,
            part == r * 0x80_0000,
    ;
    assert(-0x1000_0000_0000 * 512 <= m <= 0x1000_0000_0000 * 512) by (nonlinear_arith)
        requires
            m == a * r,
            -0x1000_0000_0000 <= a <= 0x1000_0000_0000,
            0 <= r <= 512,
    ;
}

/// The weight of sample `i` of a frame of 2048: nothing at its start and whole in
/// its middle.
pub open spec fn weight(i: int) -> i64 {
    Fixed::difference(
        0x8000_0000,
        Fixed::product(0x8000_0000, Fixed::circle_point(i as nat, 2048).0),
    )
}

/// A number of a sequence, or nothing past its end.
pub open spec fn or_nothing(values: Seq<i64>, i: int) -> i64 {
    if i < values.len() {
        values[i]
    } else {
        0
    }
}

/// Every 512 samples the last 2048 are looked at under the window. The tones found
/// there sound again as loud as they were, each turned on to where the stretched
/// signal has got to; under the window once more, they are laid over what the
/// frames before left, and what no later frame reaches is evened out by how much
/// window came together there.
pub proof fn each_frame_is_laid_over_the_last(voice: Voice<Fixed>, i: int)
    requires
        voice.in_range(),
        voice.history.len() == 2048,
        voice.pending.len() == 512,
        voice.overlap.len() <= 2048,
        voice.energy.len() <= 2048,
        0 <= i < 2048,
    ensures
        ({
            let next = voice.framed();
            let heard = (voice.history + voice.pending).skip(512);
            let look = Fixed::spectrum(Seq::new(2048, |j: int| Fixed::product(heard[j], weight(j))));
            let tones = Seq::new(
                1025,
                |k: int| (Fixed::polar_of(look, k).0, next.turned[k]),
            );
            let frame = Fixed::signal(Fixed::assembled(tones, 2048), 2048);
            let sample = Fixed::sum(
                or_nothing(voice.overlap, i),
                Fixed::product(frame[i], weight(i)),
            );
            let window = Fixed::sum(
                or_nothing(voice.energy, i),
                Fixed::product(weight(i), weight(i)),
            );
            &&& next.history == heard
            &&& next.pending.len() == 0
            &&& i <= 1024 ==> next.seen[i] == Fixed::polar_of(look, i).1
            &&& i <= 1024 ==> next.turned[i] == turned_on::<Fixed>(
                voice.seen[i],
                voice.turned[i],
                Fixed::polar_of(look, i).1,
                i,
                next.hop,
            )
            &&& i < next.hop ==> next.stretched[voice.stretched.len() + i] == if window > 4294 {
                Fixed::quotient(sample, window)
            } else {
                0
            }
            &&& i >= next.hop ==> next.overlap[i - next.hop] == sample && next.energy[i - next.hop]
                == window
            &&& next.stretched.take(voice.stretched.len() as int) == voice.stretched
        }),
{
    let next = voice.framed();
    let heard = (voice.history + voice.pending).skip(512);
    assert(Fixed::fraction_value(1, 2) == 0x8000_0000);
    assert(Fixed::fraction_value(1, 1_000_000) == 4294);
    let window = vocoder_window::<Fixed>();
    assert(heard =~= voice.history.skip(512) + voice.pending);
    assert(weighted::<Fixed>(heard, window) =~= Seq::new(
        2048,
        |j: int| Fixed::product(heard[j], weight(j)),
    ));
    let look = Fixed::spectrum(Seq::new(2048, |j: int| Fixed::product(heard[j], weight(j))));
    let tones = Seq::new(1025, |k: int| (Fixed::polar_of(look, k).0, next.turned[k]));
    assert(tones =~= Seq::new(
        Fixed::bin_count(2048),
        |k: int| (Fixed::polar_of(look, k).0, next.turned[k]),
    ));
    let ratio = glided(voice.ratio as int, voice.target as int);
    assert(UNITY / 2 <= ratio <= 2 * UNITY);
    assert(256 <= hop_for(ratio) <= 1024);
    assert(window[i] == weight(i));
    assert(next.stretched.take(voice.stretched.len() as int) =~= voice.stretched);
}

proof fn lemma_powers_are_positive(f: int, k: nat, acc: int)
    requires
        acc >= 0,
    ensures
        crate::curves::powered(f, k, acc) >= 0,
    decreases 33 - k,
{
    if k <= 32 {
        crate::curves::lemma_octave_roots_fall(k);
        let root = crate::curves::octave_root(k);
        assert(acc * root >= 0) by (nonlinear_arith)
            requires
                acc >= 0,
                root >= 0,
        ;
        lemma_powers_are_positive(2 * f - FIXED_ONE, k + 1, acc * root / FIXED_ONE as int);
        lemma_powers_are_positive(2 * f, k + 1, acc);
    }
}

/// A shift is offered up to an octave, 1200 cents, either way. No shift leaves the
/// pitch as it is, an octave up doubles it and an octave down halves it; and a
/// shift down by any number of steps is half of what is left of the octave above.
pub proof fn an_octave_doubles_the_pitch(cents: i64, steps: int)
    requires
        0 < steps <= FIXED_ONE,
    ensures
        -1200 * UNITY <= cents <= 1200 * UNITY ==> held_cents(cents) == cents,
        cents > 1200 * UNITY ==> held_cents(cents) == 1200 * UNITY,
        cents < -1200 * UNITY ==> held_cents(cents) == -1200 * UNITY,
        Fixed::ratio_for(0) == UNITY,
        Fixed::ratio_for(1200 * UNITY) == 2 * UNITY,
        Fixed::ratio_for(-1200 * UNITY) == UNITY / 2,
        Fixed::ratio_for(-1200 * steps) == Fixed::ratio_for(1200 * (FIXED_ONE - steps)) / 2,
{
    crate::curves::lemma_power_of_nothing(1, FIXED_ONE as int);
    assert(crate::curves::power_of_two(0) == FIXED_ONE);
    assert((1200 * (FIXED_ONE - steps)) / 1200 == FIXED_ONE - steps);
    assert((1200 * steps) / 1200 == steps);
    lemma_powers_are_positive(FIXED_ONE - steps, 1, FIXED_ONE as int);
}

/// A vocoder takes its input 512 samples at a time and in order: what it looks at
/// is always the last 2048 that it took, and it is not told of samples before
/// their 512 are whole.
pub proof fn the_last_samples_are_shifted<N: Vocoding>(
    voice: Voice<N>,
    input: Seq<N::Sample>,
    rest: Seq<N::Sample>,
    hops: nat,
)
    requires
        voice.history.len() == 2048,
        voice.pending.len() == 0,
        input.len() == 512 * hops,
        rest.len() < 512,
    ensures
        ({
            let next = voice.taken(input + rest);
            &&& next.pending == rest
            &&& next.history == (voice.history + input).skip(input.len() as int)
            &&& next.target == voice.target
            &&& next.read == voice.read
            &&& voice.stretched.is_prefix_of(next.stretched)
        }),
    decreases hops,
{
    let all = input + rest;
    if hops == 0 {
        assert(all =~= rest);
        assert(voice.pending + rest =~= rest);
        assert((voice.history + input).skip(0) =~= voice.history);
    } else {
        let fed = Voice { pending: voice.pending + all.take(512), ..voice };
        let next = fed.framed();
        let left = input.skip(512);
        assert(all.skip(512) =~= left + rest);
        assert(voice.taken(all) == next.taken(left + rest));
        assert(next.history =~= (voice.history + input.take(512)).skip(512));
        the_last_samples_are_shifted::<N>(next, left, rest, (hops - 1) as nat);
        assert((next.history + left).skip(left.len() as int) =~= (voice.history + input).skip(
            input.len() as int,
        ));
        assert(voice.stretched.is_prefix_of(next.stretched));
        let last = next.taken(left + rest);
        assert(voice.stretched =~= last.stretched.subrange(0, voice.stretched.len() as int)) by {
            assert(next.stretched == last.stretched.subrange(0, next.stretched.len() as int));
            assert forall|k: int| 0 <= k < voice.stretched.len() implies voice.stretched[k]
                == last.stretched[k] by {
                assert(next.stretched[k] == voice.stretched[k]);
                assert(last.stretched.subrange(0, next.stretched.len() as int)[k]
                    == last.stretched[k]);
            }
        }
    }
}

} // verus!
