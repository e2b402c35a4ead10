//! Pitch shift, in cents, as a chain effect.
//!
//! A phase vocoder stretches the signal by the pitch ratio: it analyses at a
//! fixed hop, moves every bin's phase on to a scaled hop and overlaps the
//! frames there. A linear resampling by the same factor then brings it back to
//! its length, so the pitch moves and the duration does not. Latency is one
//! window.
//!
//! Off is structural: a disabled shifter glides to no shift and stays warm
//! until the next reset drops its backend.
use vstd::prelude::*;

use crate::chain::{Effect, UNITY};
use crate::curves::{angle, angle_of, power_of_two, power_of_two_of};
use crate::frames::{append_copy, deinterleave, drop_front, filled, interleave};
use crate::frames::{channel_of, channels_of, contents, repeated, woven};
use crate::numeric::{Fixed, Numeric, FIXED_ONE};
use crate::spectral::{hann_periodic, raised_cosine};
use crate::tones::{answer, answer_of, sound, sounded};
use crate::transform::Spectral;

verus! {

/// The transform size.
pub const FFT_SIZE: usize = 2048;

/// Samples from one analysis frame to the next.
pub const ANALYSIS_HOP: usize = 512;

/// The pitch range offered, in cents of thirty-two bits behind the point: an
/// octave either way.
pub const CENTS_LIMIT: i64 = 0x4b0_0000_0000;

/// Each frame goes this fraction of the way to a new pitch ratio.
pub const GLIDE: i64 = 10;

/// A system that can take a spectrum apart into magnitudes and phases.
pub trait Vocoding: Spectral {
    /// The value of [`bins_of`](Self::bins_of).
    closed spec fn bin_count(size: nat) -> nat {
        arbitrary()
    }

    /// The value of [`polar`](Self::polar).
    closed spec fn polar_of(spectrum: Self::Spectrum, k: int) -> (Self::Sample, Self::Sample) {
        arbitrary()
    }

    /// The value of [`assemble`](Self::assemble).
    closed spec fn assembled(
        bins: Seq<(Self::Sample, Self::Sample)>,
        size: nat,
    ) -> Self::Spectrum {
        arbitrary()
    }

    /// The value of [`turn`](Self::turn).
    closed spec fn turn_value(num: nat, den: nat) -> Self::Sample {
        arbitrary()
    }

    /// The value of [`wrap`](Self::wrap).
    closed spec fn wrapped(angle: Self::Sample) -> Self::Sample {
        arbitrary()
    }

    /// The value of [`pitch_ratio`](Self::pitch_ratio).
    closed spec fn ratio_for(cents: int) -> nat {
        arbitrary()
    }

    /// How many bins the spectrum of `size` samples has.
    fn bins_of(size: usize) -> (count: usize)
        requires
            size > 0,
            size % 2 == 0,
        ensures
            count == Self::bin_count(size as nat),
            count <= size,
    ;

    /// Magnitude and phase of bin `k`.
    fn polar(bins: &Self::Bins, k: usize) -> (bin: (Self::Sample, Self::Sample))
        requires
            k < Self::bin_count(Self::bins_size(*bins)),
        ensures
            bin == Self::polar_of(Self::model(*bins), k as int),
    ;

    /// The spectrum with these magnitudes and phases. The first and the last
    /// bin keep their real part only.
    fn assemble(bins: Vec<(Self::Sample, Self::Sample)>, size: usize) -> (spectrum: Self::Bins)
        requires
            bins@.len() == Self::bin_count(size as nat),
        ensures
            Self::bins_size(spectrum) == size,
            Self::model(spectrum) == Self::assembled(bins@, size as nat),
    ;

    /// The angle of `num / den` full turns.
    fn turn(num: u64, den: u64) -> (angle: Self::Sample)
        requires
            den > 0,
        ensures
            angle == Self::turn_value(num as nat, den as nat),
    ;

    /// The same direction, within half a turn of zero; half a turn itself comes
    /// out positive.
    fn wrap(angle: Self::Sample) -> (near: Self::Sample)
        ensures
            near == Self::wrapped(angle),
    ;

    /// The pitch ratio of `cents` hundredths of a semitone, in parts of
    /// [`UNITY`]: an octave up doubles it.
    fn pitch_ratio(cents: i64) -> (ratio: u64)
        requires
            -CENTS_LIMIT <= cents <= CENTS_LIMIT,
        ensures
            ratio == Self::ratio_for(cents as int),
            UNITY / 2 <= ratio <= 2 * UNITY,
            cents == 0 ==> ratio == UNITY,
            cents == CENTS_LIMIT ==> ratio == 2 * UNITY,
            cents == -CENTS_LIMIT ==> ratio == UNITY / 2,
    ;
}

/// In [`Fixed`] a spectrum is kept as the window it belongs to; a bin of it is
/// how the window answers to a point that goes round so many times in it.
/// Angles are counted in turns.
impl Vocoding for Fixed {
    open spec fn bin_count(size: nat) -> nat {
        size / 2 + 1
    }

    open spec fn polar_of(spectrum: Seq<i64>, k: int) -> (i64, i64) {
        let (re, im) = answer(spectrum, k as nat);
        (
            Self::root_value(Self::sum(Self::product(re, re), Self::product(im, im))),
            angle(re as int, im as int) as i64,
        )
    }

    open spec fn assembled(bins: Seq<(i64, i64)>, size: nat) -> Seq<i64> {
        sounded(bins, size)
    }

    open spec fn turn_value(num: nat, den: nat) -> i64 {
        Self::fraction_value(num % den, den)
    }

    open spec fn wrapped(angle: i64) -> i64 {
        let part = angle as int % FIXED_ONE as int;
        if part > FIXED_ONE / 2 {
            (part - FIXED_ONE) as i64
        } else {
            part as i64
        }
    }

    open spec fn ratio_for(cents: int) -> nat {
        if cents >= 0 {
            power_of_two(cents / 1200) as nat
        } else {
            (power_of_two(FIXED_ONE - (-cents) / 1200) / 2) as nat
        }
    }

    fn bins_of(size: usize) -> (count: usize) {
        size / 2 + 1
    }

    fn polar(bins: &Vec<i64>, k: usize) -> (bin: (i64, i64)) {
        if bins.len() == 0 {
            return (0, 0);
        }
        let (re, im) = answer_of(bins, k);
        (
            Self::root(Self::plus(Self::times(re, re), Self::times(im, im))),
            angle_of(re, im),
        )
    }

    fn assemble(bins: Vec<(i64, i64)>, size: usize) -> (spectrum: Vec<i64>) {
        sound(&bins, size)
    }

    fn turn(num: u64, den: u64) -> (angle: i64) {
        Self::fraction(num % den, den)
    }

    fn wrap(angle: i64) -> (near: i64)
        ensures
            -(FIXED_ONE / 2) < near <= FIXED_ONE / 2,
            (angle - near) % (FIXED_ONE as int) == 0,
    {
        let part: i64 = if angle >= 0 {
            angle % FIXED_ONE
        } else {
            FIXED_ONE - 1 - (-(angle + 1)) % FIXED_ONE
        };
        if part > FIXED_ONE / 2 {
            part - FIXED_ONE
        } else {
            part
        }
    }

    fn pitch_ratio(cents: i64) -> (ratio: u64) {
        if cents >= 0 {
            power_of_two_of(cents as u64 / 1200)
        } else {
            power_of_two_of(0x1_0000_0000 - (-cents) as u64 / 1200) / 2
        }
    }
}

/// The pitch ratio one frame later, on its way to `target`.
pub open spec fn glided(ratio: int, target: int) -> int {
    if target >= ratio {
        ratio + (target - ratio) / GLIDE as int
    } else {
        ratio - (ratio - target) / GLIDE as int
    }
}

/// The synthesis hop that stretches by `ratio`: the nearest whole number of
/// samples, one at least.
pub open spec fn hop_for(ratio: int) -> int {
    let hop = (ANALYSIS_HOP * ratio + UNITY / 2) / UNITY as int;
    if hop < 1 {
        1
    } else {
        hop
    }
}

fn glide(ratio: u64, target: u64) -> (next: u64)
    ensures
        next == glided(ratio as int, target as int),
        ratio <= next <= target || target <= next <= ratio,
{
    if target >= ratio {
        ratio + (target - ratio) / 10
    } else {
        ratio - (ratio - target) / 10
    }
}

fn synthesis_hop(ratio: u64) -> (hop: usize)
    requires
        UNITY / 2 <= ratio <= 2 * UNITY,
    ensures
        hop == hop_for(ratio as int),
        ANALYSIS_HOP / 2 <= hop <= 2 * ANALYSIS_HOP,
{
    assert(ANALYSIS_HOP * ratio <= 512 * 0x2_0000_0000) by (nonlinear_arith)
        requires
            ANALYSIS_HOP == 512,
            ratio <= 0x2_0000_0000,
    ;
    ((ANALYSIS_HOP as u64 * ratio + UNITY / 2) / UNITY) as usize
}

/// Where one channel's vocoder stands.
#[verifier::ext_equal]
pub struct Voice<N: Vocoding> {
    /// The last window of input, oldest first.
    pub history: Seq<N::Sample>,
    /// Input that waits for the rest of its hop.
    pub pending: Seq<N::Sample>,
    /// Each bin's phase in the last frame.
    pub seen: Seq<N::Sample>,
    /// Each bin's phase as synthesised so far.
    pub turned: Seq<N::Sample>,
    /// Synthesised frames, overlapped and added, that later frames still reach.
    pub overlap: Seq<N::Sample>,
    /// The window energy that normalises them.
    pub energy: Seq<N::Sample>,
    /// The stretched signal that waits to be resampled.
    pub stretched: Seq<N::Sample>,
    /// Where the next output sample is read in it, in parts of an analysis hop.
    pub read: nat,
    /// The synthesis hop of the last frame.
    pub hop: nat,
    pub ratio: nat,
    pub target: nat,
}

/// `signal` with silence up to `n` samples.
pub open spec fn padded<N: Numeric>(signal: Seq<N::Sample>, n: nat) -> Seq<N::Sample> {
    signal + repeated(N::zero_value(), (n - signal.len()) as nat)
}

/// Two signals multiplied sample by sample.
pub open spec fn weighted<N: Numeric>(a: Seq<N::Sample>, b: Seq<N::Sample>) -> Seq<N::Sample> {
    Seq::new(a.len(), |i: int| N::product(a[i], b[i]))
}

/// `frame`, weighted by `window`, laid over `signal`.
pub open spec fn overlaid<N: Numeric>(
    signal: Seq<N::Sample>,
    frame: Seq<N::Sample>,
    window: Seq<N::Sample>,
) -> Seq<N::Sample> {
    Seq::new(
        frame.len(),
        |i: int| N::sum(padded::<N>(signal, frame.len())[i], N::product(frame[i], window[i])),
    )
}

/// One overlapped sample over its window energy; silence where there is none.
pub open spec fn settled<N: Numeric>(sample: N::Sample, energy: N::Sample) -> N::Sample {
    if N::precedes(N::fraction_value(1, 1_000_000), energy) {
        N::quotient(sample, energy)
    } else {
        N::zero_value()
    }
}

/// The phase of bin `k` as synthesised, one frame on. The bin's frequency is
/// what its phase advanced since the last frame, taken next to the advance of
/// the bin's centre; the synthesised phase advances by as much, scaled from
/// the analysis hop to the synthesis hop.
pub open spec fn turned_on<N: Vocoding>(
    seen: N::Sample,
    turned: N::Sample,
    phase: N::Sample,
    k: int,
    hop: nat,
) -> N::Sample {
    let centre = N::turn_value((k * ANALYSIS_HOP) as nat, FFT_SIZE as nat);
    let off = N::wrapped(N::difference(N::difference(phase, seen), centre));
    N::sum(
        turned,
        N::product(N::sum(centre, off), N::fraction_value(hop, ANALYSIS_HOP as nat)),
    )
}

/// The Hann window of the vocoder.
pub open spec fn vocoder_window<N: Numeric>() -> Seq<N::Sample> {
    Seq::new(FFT_SIZE as nat, |i: int| raised_cosine::<N>(i as nat, FFT_SIZE as nat))
}

impl<N: Vocoding> Voice<N> {
    /// A vocoder that has heard nothing, at pitch ratio `ratio`.
    pub open spec fn fresh(ratio: nat) -> Self {
        Voice {
            history: repeated(N::zero_value(), FFT_SIZE as nat),
            pending: Seq::empty(),
            seen: repeated(N::zero_value(), N::bin_count(FFT_SIZE as nat)),
            turned: repeated(N::zero_value(), N::bin_count(FFT_SIZE as nat)),
            overlap: Seq::empty(),
            energy: Seq::empty(),
            stretched: Seq::empty(),
            read: 0,
            hop: ANALYSIS_HOP as nat,
            ratio,
            target: ratio,
        }
    }

    /// One analysis frame on: takes the pending hop into the window and
    /// synthesises a frame at the stretched hop.
    pub open spec fn framed(self) -> Self {
        let window = vocoder_window::<N>();
        let history = self.history.skip(ANALYSIS_HOP as int) + self.pending;
        let ratio = glided(self.ratio as int, self.target as int) as nat;
        let hop = hop_for(ratio as int) as nat;
        let spectrum = N::spectrum(weighted::<N>(history, window));
        let count = N::bin_count(FFT_SIZE as nat);
        let turned = Seq::new(
            count,
            |k: int|
                turned_on::<N>(
                    self.seen[k],
                    self.turned[k],
                    N::polar_of(spectrum, k).1,
                    k,
                    hop,
                ),
        );
        let moved = N::assembled(
            Seq::new(count, |k: int| (N::polar_of(spectrum, k).0, turned[k])),
            FFT_SIZE as nat,
        );
        let overlap = overlaid::<N>(self.overlap, N::signal(moved, FFT_SIZE as nat), window);
        let energy = overlaid::<N>(self.energy, window, window);
        Voice {
            history,
            pending: Seq::empty(),
            seen: Seq::new(count, |k: int| N::polar_of(spectrum, k).1),
            turned,
            overlap: overlap.skip(hop as int),
            energy: energy.skip(hop as int),
            stretched: self.stretched + Seq::new(
                hop,
                |i: int| settled::<N>(overlap[i], energy[i]),
            ),
            read: self.read,
            hop,
            ratio,
            target: self.target,
        }
    }

    /// All of `input` taken, a frame for every hop that it completes.
    pub open spec fn taken(self, input: Seq<N::Sample>) -> Self
        decreases input.len(),
    {
        let need = ANALYSIS_HOP - self.pending.len();
        if need <= 0 || input.len() < need {
            Voice { pending: self.pending + input, ..self }
        } else {
            (Voice { pending: self.pending + input.take(need), ..self }).framed().taken(
                input.skip(need),
            )
        }
    }
}

/// The sample at `read` parts of an analysis hop into `signal`, on the line
/// between its two neighbours.
pub open spec fn interpolated<N: Numeric>(signal: Seq<N::Sample>, read: int) -> N::Sample {
    let i = read / ANALYSIS_HOP as int;
    let part = N::fraction_value((read % ANALYSIS_HOP as int) as nat, ANALYSIS_HOP as nat);
    N::sum(
        N::product(signal[i], N::difference(N::one_value(), part)),
        N::product(signal[i + 1], part),
    )
}

/// How many samples can be read from `read` on in steps of `step` while a
/// neighbour on either side is at hand.
pub open spec fn readable(len: nat, read: nat, step: nat) -> nat {
    if read + ANALYSIS_HOP < len * ANALYSIS_HOP {
        ((len * ANALYSIS_HOP - ANALYSIS_HOP - read + step - 1) / step as int) as nat
    } else {
        0
    }
}

impl<N: Vocoding> Voice<N> {
    /// The samples that can be read by now.
    pub open spec fn output(self) -> Seq<N::Sample> {
        Seq::new(
            readable(self.stretched.len(), self.read, self.hop),
            |i: int| interpolated::<N>(self.stretched, self.read + i * self.hop),
        )
    }

    /// The ratio and the hop lie within an octave of one to one, and reading
    /// starts in the first step.
    pub open spec fn in_range(self) -> bool {
        &&& self.read < ANALYSIS_HOP
        &&& ANALYSIS_HOP / 2 <= self.hop <= 2 * ANALYSIS_HOP
        &&& UNITY / 2 <= self.ratio <= 2 * UNITY
        &&& UNITY / 2 <= self.target <= 2 * UNITY
    }

    /// Those samples read, and what lies before the next one dropped.
    pub open spec fn read_out(self) -> Self {
        let read = self.read + readable(self.stretched.len(), self.read, self.hop) * self.hop;
        Voice {
            stretched: self.stretched.skip((read / ANALYSIS_HOP as nat) as int),
            read: read % ANALYSIS_HOP as nat,
            ..self
        }
    }
}

/// A streaming pitch shifter for one channel.
pub struct Vocoder<N: Vocoding> {
    plan: N::Plan,
    window: Vec<N::Sample>,
    history: Vec<N::Sample>,
    pending: Vec<N::Sample>,
    seen: Vec<N::Sample>,
    turned: Vec<N::Sample>,
    overlap: Vec<N::Sample>,
    energy: Vec<N::Sample>,
    stretched: Vec<N::Sample>,
    read: usize,
    hop: usize,
    ratio: u64,
    target: u64,
}

/// `frame`, weighted by `window`, laid over `signal`.
fn overlay<N: Numeric>(
    signal: &Vec<N::Sample>,
    frame: &[N::Sample],
    window: &[N::Sample],
) -> (sum: Vec<N::Sample>)
    requires
        signal@.len() <= frame@.len(),
        frame@.len() == window@.len(),
    ensures
        sum@ == overlaid::<N>(signal@, frame@, window@),
{
    let n: usize = frame.len();
    let mut sum: Vec<N::Sample> = Vec::with_capacity(n);
    let mut i: usize = 0;
    while i < n
        invariant
            i <= n,
            n == frame@.len(),
            n == window@.len(),
            signal@.len() <= n,
            sum@ == overlaid::<N>(signal@, frame@, window@).take(i as int),
        decreases n - i,
    {
        let had = if i < signal.len() {
            signal[i]
        } else {
            N::zero()
        };
        sum.push(N::plus(had, N::times(frame[i], window[i])));
        i += 1;
    }
    sum
}

impl<N: Vocoding> Vocoder<N> {
    /// Where the voice stands.
    pub closed spec fn voice(&self) -> Voice<N> {
        Voice {
            history: self.history@,
            pending: self.pending@,
            seen: self.seen@,
            turned: self.turned@,
            overlap: self.overlap@,
            energy: self.energy@,
            stretched: self.stretched@,
            read: self.read as nat,
            hop: self.hop as nat,
            ratio: self.ratio as nat,
            target: self.target as nat,
        }
    }

    /// What holds of the parts but for how much input waits.
    closed spec fn sound(&self) -> bool {
        &&& N::plan_size(self.plan) == FFT_SIZE
        &&& self.window@ == vocoder_window::<N>()
        &&& self.history@.len() == FFT_SIZE
        &&& N::bin_count(FFT_SIZE as nat) <= FFT_SIZE
        &&& self.seen@.len() == N::bin_count(FFT_SIZE as nat)
        &&& self.turned@.len() == N::bin_count(FFT_SIZE as nat)
        &&& self.overlap@.len() == self.energy@.len()
        &&& self.overlap@.len() <= FFT_SIZE
        &&& self.read < ANALYSIS_HOP
        &&& ANALYSIS_HOP / 2 <= self.hop <= 2 * ANALYSIS_HOP
        &&& UNITY / 2 <= self.ratio <= 2 * UNITY
        &&& UNITY / 2 <= self.target <= 2 * UNITY
    }

    /// What holds between calls.
    pub closed spec fn wf(&self) -> bool {
        &&& self.sound()
        &&& self.pending@.len() < ANALYSIS_HOP
    }

    /// The voice of a sound vocoder is in range, as the laws of this module ask
    /// for it.
    pub proof fn the_voice_is_in_range(&self)
        requires
            self.wf(),
        ensures
            self.voice().in_range(),
            self.voice().pending.len() < ANALYSIS_HOP,
    {
    }

    /// A fresh vocoder that shifts by `ratio`.
    pub fn new(ratio: u64) -> (vocoder: Self)
        requires
            UNITY / 2 <= ratio <= 2 * UNITY,
        ensures
            vocoder.wf(),
            vocoder.voice() == Voice::<N>::fresh(ratio as nat),
    {
        let bins: usize = N::bins_of(FFT_SIZE);
        let vocoder = Vocoder {
            plan: N::plan(FFT_SIZE),
            window: hann_periodic::<N>(FFT_SIZE),
            history: filled(N::zero(), FFT_SIZE),
            pending: Vec::new(),
            seen: filled(N::zero(), bins),
            turned: filled(N::zero(), bins),
            overlap: Vec::new(),
            energy: Vec::new(),
            stretched: Vec::new(),
            read: 0,
            hop: ANALYSIS_HOP,
            ratio,
            target: ratio,
        };
        assert(vocoder.voice() =~= Voice::<N>::fresh(ratio as nat));
        vocoder
    }

    /// Moves to pitch ratio `ratio`, frame by frame.
    pub fn set_ratio(&mut self, ratio: u64)
        requires
            old(self).wf(),
            UNITY / 2 <= ratio <= 2 * UNITY,
        ensures
            final(self).wf(),
            final(self).voice() == (Voice { target: ratio as nat, ..old(self).voice() }),
    {
        self.target = ratio;
    }

    /// Takes one channel's `input` and appends what can be put out by then.
    pub fn process(&mut self, input: &[N::Sample], output: &mut Vec<N::Sample>)
        requires
            old(self).wf(),
        ensures
            final(self).wf(),
            final(self).voice() == old(self).voice().taken(input@).read_out(),
            final(output)@ == old(output)@ + old(self).voice().taken(input@).output(),
    {
        let ghost goal = self.voice().taken(input@);
        let mut at: usize = 0;
        assert(input@.skip(0) =~= input@);
        while input.len() - at >= ANALYSIS_HOP - self.pending.len()
            invariant
                self.wf(),
                at <= input@.len(),
                self.voice().taken(input@.skip(at as int)) == goal,
            decreases input@.len() - at,
        {
            let need: usize = ANALYSIS_HOP - self.pending.len();
            let ghost before = self.voice();
            append_copy(&mut self.pending, vstd::slice::slice_subrange(input, at, at + need));
            proof {
                let rest = input@.skip(at as int);
                assert(rest.take(need as int) =~= input@.subrange(at as int, at + need));
                assert(self.voice() == (Voice {
                    pending: before.pending + rest.take(need as int),
                    ..before
                }));
                assert(rest.skip(need as int) =~= input@.skip(at + need));
            }
            self.analyse_frame();
            at += need;
        }
        let ghost before = self.voice();
        append_copy(&mut self.pending, vstd::slice::slice_subrange(input, at, input.len()));
        proof {
            assert(input@.skip(at as int) =~= input@.subrange(at as int, input@.len() as int));
            assert(self.voice() =~= goal);
        }
        self.resample(output);
    }

    /// Puts enough silence behind the last input to carry it through the
    /// window and the overlaps.
    pub fn drain(&mut self, output: &mut Vec<N::Sample>)
        requires
            old(self).wf(),
        ensures
            final(self).wf(),
            final(self).voice() == old(self).voice().taken(flush_silence::<N>()).read_out(),
            final(output)@ == old(output)@ + old(self).voice().taken(
                flush_silence::<N>(),
            ).output(),
    {
        let silence: Vec<N::Sample> = filled(N::zero(), FFT_SIZE + ANALYSIS_HOP);
        self.process(silence.as_slice(), output);
    }

    /// Drops all audio and settles on the pitch ratio aimed at.
    pub fn reset(&mut self)
        requires
            old(self).wf(),
        ensures
            final(self).wf(),
            final(self).voice() == Voice::<N>::fresh(old(self).voice().target),
    {
        let bins: usize = N::bins_of(FFT_SIZE);
        self.history = filled(N::zero(), FFT_SIZE);
        self.pending.clear();
        self.seen = filled(N::zero(), bins);
        self.turned = filled(N::zero(), bins);
        self.overlap.clear();
        self.energy.clear();
        self.stretched.clear();
        self.read = 0;
        self.hop = ANALYSIS_HOP;
        self.ratio = self.target;
        assert(self.voice() =~= Voice::<N>::fresh(old(self).voice().target));
    }

    fn analyse_frame(&mut self)
        requires
            old(self).sound(),
            old(self).pending@.len() == ANALYSIS_HOP,
        ensures
            final(self).wf(),
            final(self).voice() == old(self).voice().framed(),
    {
        let ghost before = self.voice();
        let ghost goal = before.framed();
        drop_front(&mut self.history, ANALYSIS_HOP);
        append_copy(&mut self.history, self.pending.as_slice());
        self.pending.clear();
        self.ratio = glide(self.ratio, self.target);
        self.hop = synthesis_hop(self.ratio);
        let shaped: Vec<N::Sample> = weight::<N>(self.history.as_slice(), self.window.as_slice());
        let bins = N::forward(&mut self.plan, shaped.as_slice());
        let ghost spectrum = N::model(bins);
        let moved: Vec<(N::Sample, N::Sample)> = self.move_phases(&bins);
        let frame: Vec<N::Sample> = N::inverse(&mut self.plan, N::assemble(moved, FFT_SIZE));
        let overlap: Vec<N::Sample> = overlay::<N>(
            &self.overlap,
            frame.as_slice(),
            self.window.as_slice(),
        );
        let energy: Vec<N::Sample> = overlay::<N>(
            &self.energy,
            self.window.as_slice(),
            self.window.as_slice(),
        );
        self.overlap = overlap;
        self.energy = energy;
        self.settle();
        assert(self.voice() =~= goal);
    }

    /// Moves every bin's phase on and remembers it.
    fn move_phases(&mut self, bins: &N::Bins) -> (moved: Vec<(N::Sample, N::Sample)>)
        requires
            old(self).sound(),
            N::bins_size(*bins) == FFT_SIZE,
        ensures
            final(self).sound(),
            ({
                let count = N::bin_count(FFT_SIZE as nat);
                let spectrum = N::model(*bins);
                let turned = Seq::new(
                    count,
                    |k: int|
                        turned_on::<N>(
                            old(self).seen@[k],
                            old(self).turned@[k],
                            N::polar_of(spectrum, k).1,
                            k,
                            old(self).hop as nat,
                        ),
                );
                &&& final(self).voice() == Voice {
                    seen: Seq::new(count, |k: int| N::polar_of(spectrum, k).1),
                    turned,
                    ..old(self).voice()
                }
                &&& moved@ == Seq::new(count, |k: int| (N::polar_of(spectrum, k).0, turned[k]))
            }),
    {
        let count: usize = self.seen.len();
        let ghost spectrum = N::model(*bins);
        let ghost phases = Seq::new(count as nat, |k: int| N::polar_of(spectrum, k).1);
        let ghost goal = Seq::new(
            count as nat,
            |k: int|
                turned_on::<N>(
                    self.seen@[k],
                    self.turned@[k],
                    N::polar_of(spectrum, k).1,
                    k,
                    self.hop as nat,
                ),
        );
        let mut seen: Vec<N::Sample> = Vec::with_capacity(count);
        let mut turned: Vec<N::Sample> = Vec::with_capacity(count);
        let mut moved: Vec<(N::Sample, N::Sample)> = Vec::with_capacity(count);
        let factor = N::fraction(self.hop as u64, ANALYSIS_HOP as u64);
        let mut k: usize = 0;
        while k < count
            invariant
                k <= count,
                self.sound(),
                N::bins_size(*bins) == FFT_SIZE,
                spectrum == N::model(*bins),
                count == N::bin_count(FFT_SIZE as nat),
                factor == N::fraction_value(self.hop as nat, ANALYSIS_HOP as nat),
                phases == Seq::new(count as nat, |k: int| N::polar_of(spectrum, k).1),
                goal == Seq::new(
                    count as nat,
                    |k: int|
                        turned_on::<N>(
                            self.seen@[k],
                            self.turned@[k],
                            N::polar_of(spectrum, k).1,
                            k,
                            self.hop as nat,
                        ),
                ),
                seen@ == phases.take(k as int),
                turned@ == goal.take(k as int),
                moved@ == Seq::new(k as nat, |k: int| (N::polar_of(spectrum, k).0, goal[k])),
            decreases count - k,
        {
            let (magnitude, phase) = N::polar(bins, k);
            let centre = N::turn(k as u64 * ANALYSIS_HOP as u64, FFT_SIZE as u64);
            let off = N::wrap(N::minus(N::minus(phase, self.seen[k]), centre));
            let next = N::plus(self.turned[k], N::times(N::plus(centre, off), factor));
            seen.push(phase);
            turned.push(next);
            moved.push((magnitude, next));
            k += 1;
        }
        assert(seen@ =~= phases);
        assert(turned@ =~= goal);
        self.seen = seen;
        self.turned = turned;
        moved
    }

    /// Hands on the samples that no later frame reaches.
    fn settle(&mut self)
        requires
            old(self).sound(),
            old(self).pending@.len() < ANALYSIS_HOP,
            old(self).overlap@.len() == FFT_SIZE,
        ensures
            final(self).wf(),
            final(self).voice() == (Voice {
                overlap: old(self).overlap@.skip(old(self).hop as int),
                energy: old(self).energy@.skip(old(self).hop as int),
                stretched: old(self).stretched@ + Seq::new(
                    old(self).hop as nat,
                    |i: int| settled::<N>(old(self).overlap@[i], old(self).energy@[i]),
                ),
                ..old(self).voice()
            }),
    {
        let hop: usize = self.hop;
        let ghost before = *self;
        let ghost done = Seq::new(
            hop as nat,
            |i: int| settled::<N>(before.overlap@[i], before.energy@[i]),
        );
        let least = N::fraction(1, 1_000_000);
        let mut i: usize = 0;
        while i < hop
            invariant
                i <= hop <= FFT_SIZE,
                *self == (Vocoder { stretched: self.stretched, ..before }),
                before.overlap@.len() == FFT_SIZE,
                before.energy@.len() == FFT_SIZE,
                least == N::fraction_value(1, 1_000_000),
                done == Seq::new(
                    hop as nat,
                    |i: int| settled::<N>(before.overlap@[i], before.energy@[i]),
                ),
                self.stretched@ == before.stretched@ + done.take(i as int),
            decreases hop - i,
        {
            let energy = self.energy[i];
            let value = if N::below(least, energy) {
                N::over(self.overlap[i], energy)
            } else {
                N::zero()
            };
            self.stretched.push(value);
            i += 1;
        }
        assert(done.take(hop as int) =~= done);
        drop_front(&mut self.overlap, hop);
        drop_front(&mut self.energy, hop);
    }

    /// Reads the stretched signal out at the pace that undoes the stretch.
    fn resample(&mut self, output: &mut Vec<N::Sample>)
        requires
            old(self).wf(),
        ensures
            final(self).wf(),
            final(self).voice() == old(self).voice().read_out(),
            final(output)@ == old(output)@ + old(self).voice().output(),
    {
        let ghost v = self.voice();
        let ghost begun = output@;
        let len: usize = self.stretched.len();
        let mut i: usize = 0;
        let mut part: usize = self.read;
        let mut count: Ghost<nat> = Ghost(0nat);
        assert(0 * v.hop == 0) by (nonlinear_arith);
        while len - i >= 2
            invariant
                self.wf(),
                v == self.voice(),
                len == self.stretched@.len(),
                i <= len,
                part < ANALYSIS_HOP,
                i * ANALYSIS_HOP + part == v.read + count@ * v.hop,
                count@ > 0 ==> v.read + (count@ - 1) * v.hop + ANALYSIS_HOP < len * ANALYSIS_HOP,
                output@ == begun + Seq::new(
                    count@,
                    |k: int| interpolated::<N>(v.stretched, v.read + k * v.hop),
                ),
            decreases (len + 1) * ANALYSIS_HOP - (i * ANALYSIS_HOP + part),
        {
            let from = self.stretched[i];
            let to = self.stretched[i + 1];
            let share = N::fraction(part as u64, ANALYSIS_HOP as u64);
            let rest = N::minus(N::one(), share);
            output.push(N::plus(N::times(from, rest), N::times(to, share)));
            let moved: usize = part + self.hop;
            proof {
                assert((count@ + 1) * v.hop == count@ * v.hop + v.hop) by (nonlinear_arith);
            }
            i = i + moved / ANALYSIS_HOP;
            part = moved % ANALYSIS_HOP;
            count = Ghost(count@ + 1);
        }
        proof {
            lemma_readable(len as nat, v.read, v.hop, count@);
            assert(v.output() =~= Seq::new(
                count@,
                |k: int| interpolated::<N>(v.stretched, v.read + k * v.hop),
            ));
        }
        drop_front(&mut self.stretched, i);
        self.read = part;
        assert(self.voice() =~= v.read_out());
    }
}

/// How many samples can be read is told by where reading has to stop.
proof fn lemma_readable(len: nat, read: nat, step: nat, count: nat)
    requires
        step > 0,
        count > 0 ==> read + (count - 1) * step + ANALYSIS_HOP < len * ANALYSIS_HOP,
        read + count * step + ANALYSIS_HOP >= len * ANALYSIS_HOP,
    ensures
        readable(len, read, step) == count,
{
    let span = len * ANALYSIS_HOP - ANALYSIS_HOP - read;
    if count > 0 {
        assert((count - 1) * step >= 0) by (nonlinear_arith)
            requires
                count > 0,
        ;
        assert((count - 1) * step == count * step - step) by (nonlinear_arith);
        let q = count as int;
        let r = span + step - 1 - count * step;
        vstd::arithmetic::div_mod::lemma_fundamental_div_mod_converse(
            span + step - 1,
            step as int,
            q,
            r,
        );
    } else {
        assert(0 * step == 0) by (nonlinear_arith);
    }
}

/// `a` and `b` multiplied sample by sample.
pub(crate) fn weight<N: Numeric>(a: &[N::Sample], b: &[N::Sample]) -> (product: Vec<N::Sample>)
    requires
        a@.len() == b@.len(),
    ensures
        product@ == weighted::<N>(a@, b@),
{
    let n: usize = a.len();
    let mut product: Vec<N::Sample> = Vec::with_capacity(n);
    let mut i: usize = 0;
    while i < n
        invariant
            i <= n,
            n == a@.len(),
            n == b@.len(),
            product@ == weighted::<N>(a@, b@).take(i as int),
        decreases n - i,
    {
        product.push(N::times(a[i], b[i]));
        i += 1;
    }
    product
}

/// The silence that flushes a vocoder.
pub open spec fn flush_silence<N: Numeric>() -> Seq<N::Sample> {
    repeated(N::zero_value(), (FFT_SIZE + ANALYSIS_HOP) as nat)
}

/// Two channels that have got equally far.
pub open spec fn aligned<N: Vocoding>(a: Voice<N>, b: Voice<N>) -> bool {
    &&& a.pending.len() == b.pending.len()
    &&& a.stretched.len() == b.stretched.len()
    &&& a.read == b.read
    &&& a.hop == b.hop
    &&& a.ratio == b.ratio
    &&& a.target == b.target
}

/// Channels that have got equally far, and are given equally much, get equally
/// far again: they stay aligned sample by sample.
pub proof fn channels_stay_aligned<N: Vocoding>(
    a: Voice<N>,
    b: Voice<N>,
    to_a: Seq<N::Sample>,
    to_b: Seq<N::Sample>,
)
    requires
        a.in_range(),
        b.in_range(),
        aligned(a, b),
        to_a.len() == to_b.len(),
    ensures
        aligned(a.taken(to_a), b.taken(to_b)),
        a.taken(to_a).output().len() == b.taken(to_b).output().len(),
        aligned(a.taken(to_a).read_out(), b.taken(to_b).read_out()),
    decreases to_a.len(),
{
    let need = ANALYSIS_HOP - a.pending.len();
    if need > 0 && to_a.len() >= need {
        let fa = (Voice { pending: a.pending + to_a.take(need), ..a }).framed();
        let fb = (Voice { pending: b.pending + to_b.take(need), ..b }).framed();
        assert(aligned(fa, fb));
        channels_stay_aligned(fa, fb, to_a.skip(need), to_b.skip(need));
    } else {
        lemma_reading_stays_within(a.stretched.len(), a.read, a.hop);
    }
}

/// Reading ends at most one sample past the last.
proof fn lemma_reading_stays_within(len: nat, read: nat, step: nat)
    requires
        read < ANALYSIS_HOP,
        0 < step <= 2 * ANALYSIS_HOP,
    ensures
        (read + readable(len, read, step) * step) / ANALYSIS_HOP as nat <= len,
{
    let n = readable(len, read, step);
    if n > 0 {
        let span = len * ANALYSIS_HOP - ANALYSIS_HOP - read;
        vstd::arithmetic::div_mod::lemma_fundamental_div_mod(span + step - 1, step as int);
        assert(step * n == n * step) by (nonlinear_arith);
    } else {
        assert(0 * step == 0) by (nonlinear_arith);
    }
}

/// Every channel given its part of interleaved `input`.
pub open spec fn all_taken<N: Vocoding>(
    voices: Seq<Voice<N>>,
    input: Seq<N::Sample>,
) -> Seq<Voice<N>> {
    Seq::new(voices.len(), |c: int| voices[c].taken(channel_of(input, voices.len(), c)))
}

/// Every channel given the silence that flushes it.
pub open spec fn all_flushed<N: Vocoding>(voices: Seq<Voice<N>>) -> Seq<Voice<N>> {
    Seq::new(voices.len(), |c: int| voices[c].taken(flush_silence::<N>()))
}

/// What every channel can put out by now, interleaved.
pub open spec fn all_output<N: Vocoding>(voices: Seq<Voice<N>>) -> Seq<N::Sample> {
    woven(Seq::new(voices.len(), |c: int| voices[c].output()), voices[0].output().len())
}

/// Every channel, once that was put out.
pub open spec fn all_read_out<N: Vocoding>(voices: Seq<Voice<N>>) -> Seq<Voice<N>> {
    Seq::new(voices.len(), |c: int| voices[c].read_out())
}

/// Every channel as it starts, at the ratio aimed at.
pub open spec fn all_fresh<N: Vocoding>(voices: Seq<Voice<N>>) -> Seq<Voice<N>> {
    Seq::new(voices.len(), |c: int| Voice::fresh(voices[c].target))
}

/// One vocoder per channel.
struct Backend<N: Vocoding> {
    channels: usize,
    vocoders: Vec<Vocoder<N>>,
}

impl<N: Vocoding> Backend<N> {
    spec fn voices(&self) -> Seq<Voice<N>> {
        Seq::new(self.channels as nat, |c: int| self.vocoders@[c].voice())
    }

    spec fn wf(&self) -> bool {
        &&& self.channels > 0
        &&& self.vocoders@.len() == self.channels
        &&& forall|c: int| 0 <= c < self.channels ==> (#[trigger] self.vocoders@[c]).wf()
        &&& forall|c: int|
            0 <= c < self.channels ==> aligned(
                (#[trigger] self.vocoders@[c]).voice(),
                self.vocoders@[0].voice(),
            )
    }

    fn new(channels: usize, ratio: u64) -> (backend: Self)
        requires
            channels > 0,
            UNITY / 2 <= ratio <= 2 * UNITY,
        ensures
            backend.wf(),
            backend.channels == channels,
            backend.voices() == repeated(Voice::<N>::fresh(ratio as nat), channels as nat),
    {
        let mut vocoders: Vec<Vocoder<N>> = Vec::with_capacity(channels);
        let mut c: usize = 0;
        while c < channels
            invariant
                c <= channels,
                UNITY / 2 <= ratio <= 2 * UNITY,
                vocoders@.len() == c,
                forall|k: int|
                    0 <= k < c ==> {
                        &&& (#[trigger] vocoders@[k]).wf()
                        &&& vocoders@[k].voice() == Voice::<N>::fresh(ratio as nat)
                    },
            decreases channels - c,
        {
            vocoders.push(Vocoder::new(ratio));
            c += 1;
        }
        let backend = Backend { channels, vocoders };
        assert(backend.voices() =~= repeated(Voice::<N>::fresh(ratio as nat), channels as nat));
        backend
    }

    fn set_ratio(&mut self, ratio: u64)
        requires
            old(self).wf(),
            UNITY / 2 <= ratio <= 2 * UNITY,
        ensures
            final(self).wf(),
            final(self).channels == old(self).channels,
            final(self).voices() == Seq::new(
                old(self).voices().len(),
                |c: int| Voice { target: ratio as nat, ..old(self).voices()[c] },
            ),
    {
        let ghost before = *self;
        let mut c: usize = 0;
        while c < self.channels
            invariant
                before.wf(),
                UNITY / 2 <= ratio <= 2 * UNITY,
                c <= self.channels,
                self.channels == before.channels,
                self.vocoders@.len() == self.channels,
                forall|k: int|
                    c <= k < self.channels ==> #[trigger] self.vocoders@[k] == before.vocoders@[k],
                forall|k: int|
                    0 <= k < c ==> {
                        &&& (#[trigger] self.vocoders@[k]).wf()
                        &&& self.vocoders@[k].voice() == (Voice {
                            target: ratio as nat,
                            ..before.vocoders@[k].voice()
                        })
                    },
            decreases self.channels - c,
        {
            assert(before.vocoders@[c as int].wf());
            self.vocoders[c].set_ratio(ratio);
            c += 1;
        }
        proof {
            assert forall|k: int| 0 <= k < self.channels implies aligned(
                (#[trigger] self.vocoders@[k]).voice(),
                self.vocoders@[0].voice(),
            ) by {
                assert(aligned(before.vocoders@[k].voice(), before.vocoders@[0].voice()));
            }
            assert(self.voices() =~= Seq::new(
                before.voices().len(),
                |c: int| Voice { target: ratio as nat, ..before.voices()[c] },
            ));
        }
    }

    /// Gives every channel its part of `input` and interleaves what comes out.
    fn run(&mut self, input: &[N::Sample], output: &mut Vec<N::Sample>)
        requires
            old(self).wf(),
        ensures
            final(self).wf(),
            final(self).channels == old(self).channels,
            final(self).voices() == all_read_out(all_taken(old(self).voices(), input@)),
            final(output)@ == old(output)@ + all_output(all_taken(old(self).voices(), input@)),
    {
        let lanes: Vec<Vec<N::Sample>> = deinterleave(input, self.channels);
        let ghost ch = self.channels as nat;
        let ghost goal = all_taken(self.voices(), input@);
        proof {
            assert(contents(lanes@).len() == ch);
            assert forall|c: int| 0 <= c < ch implies (#[trigger] lanes@[c])@ == channel_of(
                input@,
                ch,
                c,
            ) by {
                assert(contents(lanes@)[c] == lanes@[c]@);
                assert(channels_of(input@, ch)[c] == channel_of(input@, ch, c));
            }
        }
        self.feed(&lanes, output);
        proof {
            let ghost given = Seq::new(
                ch,
                |c: int| old(self).voices()[c].taken(lanes@[c]@),
            );
            assert(given =~= goal);
        }
    }

    /// Gives channel `c` the samples `lanes[c]`, equally many each, and
    /// interleaves what comes out.
    fn feed(&mut self, lanes: &Vec<Vec<N::Sample>>, output: &mut Vec<N::Sample>)
        requires
            old(self).wf(),
            lanes@.len() == old(self).channels,
            forall|c: int| 0 <= c < lanes@.len() ==> (#[trigger] lanes@[c])@.len() == lanes@[0]@.len(),
        ensures
            final(self).wf(),
            final(self).channels == old(self).channels,
            ({
                let given = Seq::new(
                    old(self).channels as nat,
                    |c: int| old(self).voices()[c].taken(lanes@[c]@),
                );
                &&& final(self).voices() == all_read_out(given)
                &&& final(output)@ == old(output)@ + all_output(given)
            }),
    {
        let ghost before = *self;
        let ghost given = Seq::new(
            self.channels as nat,
            |c: int| self.voices()[c].taken(lanes@[c]@),
        );
        let mut outs: Vec<Vec<N::Sample>> = Vec::with_capacity(self.channels);
        let mut c: usize = 0;
        while c < self.channels
            invariant
                before.wf(),
                c <= self.channels,
                self.channels == before.channels,
                self.vocoders@.len() == self.channels,
                lanes@.len() == self.channels,
                given == Seq::new(
                    before.channels as nat,
                    |c: int| before.voices()[c].taken(lanes@[c]@),
                ),
                forall|k: int|
                    c <= k < self.channels ==> #[trigger] self.vocoders@[k] == before.vocoders@[k],
                forall|k: int|
                    0 <= k < c ==> {
                        &&& (#[trigger] self.vocoders@[k]).wf()
                        &&& self.vocoders@[k].voice() == given[k].read_out()
                    },
                outs@.len() == c,
                forall|k: int| 0 <= k < c ==> (#[trigger] outs@[k])@ == given[k].output(),
            decreases self.channels - c,
        {
            assert(before.vocoders@[c as int].wf());
            assert(before.voices()[c as int] == before.vocoders@[c as int].voice());
            let mut out: Vec<N::Sample> = Vec::new();
            self.vocoders[c].process(lanes[c].as_slice(), &mut out);
            outs.push(out);
            c += 1;
        }
        proof {
            assert forall|k: int| 0 <= k < self.channels implies {
                &&& aligned((#[trigger] self.vocoders@[k]).voice(), self.vocoders@[0].voice())
                &&& given[k].output().len() == given[0].output().len()
            } by {
                assert(before.voices()[k] == before.vocoders@[k].voice());
                assert(before.voices()[0] == before.vocoders@[0].voice());
                assert(aligned(before.vocoders@[k].voice(), before.vocoders@[0].voice()));
                channels_stay_aligned(
                    before.voices()[k],
                    before.voices()[0],
                    lanes@[k]@,
                    lanes@[0]@,
                );
            }
            assert forall|k: int| 0 <= k < outs@.len() implies (#[trigger] outs@[k])@.len()
                == given[0].output().len() by {
                assert(self.vocoders@[k].wf());
            }
        }
        interleave(&outs, outs[0].len(), output);
        proof {
            assert(contents(outs@) =~= Seq::new(given.len(), |c: int| given[c].output()));
            assert(self.voices() =~= all_read_out(given));
        }
    }

    /// Flushes every channel and begins a fresh stream.
    fn drain(&mut self, output: &mut Vec<N::Sample>)
        requires
            old(self).wf(),
        ensures
            final(self).wf(),
            final(self).channels == old(self).channels,
            final(self).voices() == all_fresh(old(self).voices()),
            final(output)@ == old(output)@ + all_output(all_flushed(old(self).voices())),
    {
        let ghost before = self.voices();
        let mut lanes: Vec<Vec<N::Sample>> = Vec::with_capacity(self.channels);
        while lanes.len() < self.channels
            invariant
                lanes@.len() <= self.channels,
                forall|c: int| 0 <= c < lanes@.len() ==> (#[trigger] lanes@[c])@ == flush_silence::<N>(),
            decreases self.channels - lanes@.len(),
        {
            lanes.push(filled(N::zero(), FFT_SIZE + ANALYSIS_HOP));
        }
        self.feed(&lanes, output);
        proof {
            let given = Seq::new(before.len(), |c: int| before[c].taken(lanes@[c]@));
            assert(given =~= all_flushed(before));
            assert forall|c: int| 0 <= c < before.len() implies (#[trigger] self.voices()[c]).target
                == before[c].target by {
                lemma_target_stays(before[c], lanes@[c]@);
            }
        }
        self.reset();
        assert(self.voices() =~= all_fresh(before));
    }

    fn reset(&mut self)
        requires
            old(self).wf(),
        ensures
            final(self).wf(),
            final(self).channels == old(self).channels,
            final(self).voices() == all_fresh(old(self).voices()),
    {
        let ghost before = *self;
        let mut c: usize = 0;
        while c < self.channels
            invariant
                before.wf(),
                c <= self.channels,
                self.channels == before.channels,
                self.vocoders@.len() == self.channels,
                forall|k: int|
                    c <= k < self.channels ==> #[trigger] self.vocoders@[k] == before.vocoders@[k],
                forall|k: int|
                    0 <= k < c ==> {
                        &&& (#[trigger] self.vocoders@[k]).wf()
                        &&& self.vocoders@[k].voice() == Voice::<N>::fresh(
                            before.vocoders@[k].voice().target,
                        )
                    },
            decreases self.channels - c,
        {
            assert(before.vocoders@[c as int].wf());
            self.vocoders[c].reset();
            c += 1;
        }
        proof {
            assert forall|k: int| 0 <= k < self.channels implies aligned(
                (#[trigger] self.vocoders@[k]).voice(),
                self.vocoders@[0].voice(),
            ) by {
                assert(aligned(before.vocoders@[k].voice(), before.vocoders@[0].voice()));
            }
            assert(self.voices() =~= all_fresh(before.voices()));
        }
    }
}

/// Audio does not change the ratio aimed at.
proof fn lemma_target_stays<N: Vocoding>(voice: Voice<N>, input: Seq<N::Sample>)
    ensures
        voice.taken(input).target == voice.target,
        voice.taken(input).read_out().target == voice.target,
    decreases input.len(),
{
    let need = ANALYSIS_HOP - voice.pending.len();
    if need > 0 && input.len() >= need {
        lemma_target_stays(
            (Voice { pending: voice.pending + input.take(need), ..voice }).framed(),
            input.skip(need),
        );
    }
}

/// `cents` held within the range offered.
pub open spec fn held_cents(cents: i64) -> i64 {
    if cents < -CENTS_LIMIT {
        (-CENTS_LIMIT) as i64
    } else if cents > CENTS_LIMIT {
        CENTS_LIMIT
    } else {
        cents
    }
}

fn hold_cents(cents: i64) -> (held: i64)
    ensures
        held == held_cents(cents),
        -CENTS_LIMIT <= held <= CENTS_LIMIT,
{
    if cents < -CENTS_LIMIT {
        -CENTS_LIMIT
    } else if cents > CENTS_LIMIT {
        CENTS_LIMIT
    } else {
        cents
    }
}

/// The pitch-shift effect. The vocoders exist only while there is a device
/// shape to build them for.
pub struct PitchShift<N: Vocoding> {
    enabled: bool,
    cents: i64,
    rate: u32,
    channels: usize,
    backend: Option<Backend<N>>,
}

impl<N: Vocoding> PitchShift<N> {
    /// Whether the setting is on.
    pub closed spec fn enabled(&self) -> bool {
        self.enabled
    }

    /// The setting, in cents.
    pub closed spec fn cents(&self) -> i64 {
        self.cents
    }

    /// The sample rate.
    pub closed spec fn rate(&self) -> u32 {
        self.rate
    }

    /// The channel count.
    pub closed spec fn channels(&self) -> usize {
        self.channels
    }

    /// Where each channel's vocoder stands, while there is a backend.
    pub closed spec fn voices(&self) -> Option<Seq<Voice<N>>> {
        match self.backend {
            Some(backend) => Some(backend.voices()),
            None => None,
        }
    }

    /// What holds between calls.
    pub closed spec fn wf(&self) -> bool {
        &&& -CENTS_LIMIT <= self.cents <= CENTS_LIMIT
        &&& self.backend matches Some(backend) ==> {
            &&& backend.wf()
            &&& backend.channels == self.channels
        }
    }

    /// A sound effect has one voice for each channel, all in range and all
    /// equally far, as the laws of this module ask for it.
    pub proof fn the_voices_are_aligned(&self)
        requires
            self.wf(),
        ensures
            -CENTS_LIMIT <= self.cents() <= CENTS_LIMIT,
            self.voices() matches Some(voices) ==> {
                &&& voices.len() == self.channels()
                &&& voices.len() > 0
                &&& forall|c: int|
                    0 <= c < voices.len() ==> (#[trigger] voices[c]).in_range() && aligned(
                        voices[c],
                        voices[0],
                    )
            },
    {
        if let Some(backend) = self.backend {
            let voices = backend.voices();
            assert forall|c: int| 0 <= c < voices.len() implies (#[trigger] voices[c]).in_range()
                && aligned(voices[c], voices[0]) by {
                assert(backend.vocoders@[c].wf());
            }
        }
    }

    /// The same setting and device shape.
    pub open spec fn set_as(&self, other: Self) -> bool {
        &&& self.enabled() == other.enabled()
        &&& self.cents() == other.cents()
        &&& self.rate() == other.rate()
        &&& self.channels() == other.channels()
    }

    /// An enabled effect that knows no device shape yet.
    pub open spec fn newly_at(&self, cents: i64) -> bool {
        &&& self.enabled()
        &&& self.cents() == held_cents(cents)
        &&& self.rate() == 0
        &&& self.channels() == 0
        &&& self.voices() is None
    }

    /// `before` with another setting. The shift is kept while disabled; the
    /// vocoders then glide to none.
    pub open spec fn tuned(&self, before: Self, enabled: bool, cents: i64) -> bool {
        let target = if enabled {
            N::ratio_for(held_cents(cents) as int)
        } else {
            UNITY as nat
        };
        &&& self.enabled() == enabled
        &&& self.cents() == if enabled {
            held_cents(cents)
        } else {
            before.cents()
        }
        &&& self.rate() == before.rate()
        &&& self.channels() == before.channels()
        &&& self.voices() == match before.voices() {
            None => None,
            Some(voices) => Some(
                Seq::new(voices.len(), |c: int| Voice { target, ..voices[c] }),
            ),
        }
    }

    /// The vocoders of a fresh build for `channels` channels at `rate`.
    pub open spec fn built(&self, rate: u32, channels: usize) -> Option<Seq<Voice<N>>> {
        if self.enabled() && rate > 0 && channels > 0 {
            Some(repeated(Voice::fresh(N::ratio_for(self.cents() as int)), channels as nat))
        } else {
            None
        }
    }

    /// An enabled effect that shifts by `cents`, with no backend yet.
    pub fn new(cents: i64) -> (effect: Self)
        ensures
            effect.wf(),
            effect.newly_at(cents),
    {
        PitchShift {
            enabled: true,
            cents: hold_cents(cents),
            rate: 0,
            channels: 0,
            backend: None,
        }
    }

    /// Changes the setting. Disabling glides to no shift and leaves the
    /// teardown to the next reset, so that the switch cannot click.
    pub fn set(&mut self, enabled: bool, cents: i64)
        requires
            old(self).wf(),
        ensures
            final(self).wf(),
            final(self).tuned(*old(self), enabled, cents),
    {
        self.enabled = enabled;
        if enabled {
            self.cents = hold_cents(cents);
        }
        let ratio: u64 = if enabled {
            N::pitch_ratio(self.cents)
        } else {
            UNITY
        };
        match &mut self.backend {
            Some(backend) => {
                backend.set_ratio(ratio);
            },
            None => {},
        }
    }

    /// The current setting.
    pub fn setting(&self) -> (setting: (bool, i64))
        ensures
            setting == (self.enabled(), self.cents()),
    {
        (self.enabled, self.cents)
    }

    /// A backend for the current setting, where there is a device shape.
    fn build(&self, rate: u32, channels: usize) -> (backend: Option<Backend<N>>)
        requires
            self.wf(),
        ensures
            backend matches Some(b) ==> b.wf() && b.channels == channels,
            match backend {
                Some(b) => self.built(rate, channels) == Some(b.voices()),
                None => self.built(rate, channels) is None,
            },
    {
        if self.enabled && rate > 0 && channels > 0 {
            Some(Backend::new(channels, N::pitch_ratio(self.cents)))
        } else {
            None
        }
    }
}

impl<N: Vocoding> Effect for PitchShift<N> {
    type Sample = N::Sample;

    open spec fn inv(&self) -> bool {
        self.wf()
    }

    open spec fn label(&self) -> Seq<char> {
        "pitch-shift"@
    }

    /// It may stand in a chain any number of times.
    open spec fn place(&self) -> Option<int> {
        None
    }

    open spec fn active(&self) -> bool {
        self.enabled() || self.voices() is Some
    }

    open spec fn bypassed(&self) -> bool {
        self.voices() is None
    }

    /// The duration stays.
    open spec fn ratio(&self) -> nat {
        UNITY as nat
    }

    open spec fn pending(&self) -> nat {
        if self.voices() is Some {
            FFT_SIZE as nat
        } else {
            0
        }
    }

    open spec fn fits(&self, rate: u32, channels: usize) -> bool {
        &&& self.rate() == rate
        &&& self.channels() == channels
        &&& self.voices() is Some || !self.enabled()
    }

    open spec fn processed(
        before: Self,
        input: Seq<N::Sample>,
        after: Self,
        output: Seq<N::Sample>,
        result: Result<(), Seq<char>>,
    ) -> bool {
        &&& result is Ok
        &&& after.set_as(before)
        &&& match before.voices() {
            None => after.voices() is None && output == input,
            Some(voices) => {
                &&& after.voices() == Some(all_read_out(all_taken(voices, input)))
                &&& output == all_output(all_taken(voices, input))
            },
        }
    }

    open spec fn flushed(
        before: Self,
        after: Self,
        output: Seq<N::Sample>,
        result: Result<(), Seq<char>>,
    ) -> bool {
        &&& result is Ok
        &&& after.set_as(before)
        &&& match before.voices() {
            None => after.voices() is None && output == Seq::<N::Sample>::empty(),
            Some(voices) => {
                &&& after.voices() == Some(all_fresh(voices))
                &&& output == all_output(all_flushed(voices))
            },
        }
    }

    open spec fn restarted(before: Self, after: Self) -> bool {
        &&& after.set_as(before)
        &&& after.voices() == match before.voices() {
            Some(voices) if before.enabled() => Some(all_fresh(voices)),
            _ => None,
        }
    }

    open spec fn rebuilt(
        before: Self,
        rate: u32,
        channels: usize,
        after: Self,
        result: Result<(), Seq<char>>,
    ) -> bool {
        &&& result is Ok
        &&& after.enabled() == before.enabled()
        &&& after.cents() == before.cents()
        &&& after.rate() == rate
        &&& after.channels() == channels
        &&& after.voices() == before.built(rate, channels)
    }

    open spec fn mirrored(effect: Self, mirror: Self) -> bool {
        &&& mirror.set_as(effect)
        &&& mirror.voices() == effect.built(effect.rate(), effect.channels())
    }

    fn name(&self) -> (name: &'static str) {
        "pitch-shift"
    }

    fn is_active(&self) -> (active: bool) {
        self.enabled || self.backend.is_some()
    }

    fn is_bypassed(&self) -> (bypassed: bool) {
        self.backend.is_none()
    }

    fn process(&mut self, input: &[N::Sample], output: &mut Vec<N::Sample>) -> (result: Result<
        (),
        String,
    >) {
        let ghost begun = output@;
        match &mut self.backend {
            Some(backend) => {
                backend.run(input, output);
            },
            None => {
                append_copy(output, input);
            },
        }
        proof {
            let n = begun.len() as int;
            match old(self).voices() {
                None => {
                    assert(output@.skip(n) =~= input@);
                },
                Some(voices) => {
                    assert(output@.skip(n) =~= all_output(all_taken(voices, input@)));
                },
            }
        }
        Ok(())
    }

    fn drain(&mut self, output: &mut Vec<N::Sample>) -> (result: Result<(), String>) {
        let ghost begun = output@;
        match &mut self.backend {
            Some(backend) => {
                backend.drain(output);
            },
            None => {},
        }
        proof {
            let n = begun.len() as int;
            match old(self).voices() {
                None => {
                    assert(output@.skip(n) =~= Seq::<N::Sample>::empty());
                },
                Some(voices) => {
                    assert(output@.skip(n) =~= all_output(all_flushed(voices)));
                },
            }
        }
        Ok(())
    }

    fn reset(&mut self) {
        if !self.enabled {
            self.backend = None;
            return ;
        }
        match &mut self.backend {
            Some(backend) => {
                backend.reset();
            },
            None => {},
        }
    }

    fn time_ratio(&self) -> (ratio: u64) {
        UNITY
    }

    fn pending_output_frames(&self) -> (frames: u64) {
        if self.backend.is_some() {
            FFT_SIZE as u64
        } else {
            0
        }
    }

    fn matches(&self, rate: u32, channels: usize) -> (fits: bool) {
        self.rate == rate && self.channels == channels && (self.backend.is_some() || !self.enabled)
    }

    fn reconfigure(&mut self, rate: u32, channels: usize) -> (result: Result<(), String>) {
        let backend = self.build(rate, channels);
        self.rate = rate;
        self.channels = channels;
        self.backend = backend;
        Ok(())
    }

    fn spawn_mirror(&self) -> (mirror: Self) {
        PitchShift {
            enabled: self.enabled,
            cents: self.cents,
            rate: self.rate,
            channels: self.channels,
            backend: self.build(self.rate, self.channels),
        }
    }
}

/// How many samples have come out after `hops` hops went in at a steady `hop`:
/// one for each that went in, but for the reach of the last interpolation.
pub open spec fn put_out(hops: nat, hop: nat) -> nat {
    if hops == 0 {
        0
    } else {
        (hops * ANALYSIS_HOP - ANALYSIS_HOP as nat / hop) as nat
    }
}

/// A channel at a steady pitch that has taken `hops` hops since it was fresh
/// and let go of the first `dropped` samples of what it stretched.
pub open spec fn steady<N: Vocoding>(voice: Voice<N>, hops: nat, dropped: nat) -> bool {
    let hop = hop_for(voice.ratio as int) as nat;
    &&& voice.in_range()
    &&& voice.ratio == voice.target
    &&& voice.pending.len() < ANALYSIS_HOP
    &&& hops > 0 ==> voice.hop == hop
    &&& dropped + voice.stretched.len() == hops * hop
    &&& dropped * ANALYSIS_HOP + voice.read == put_out(hops, hop) * hop
}

/// At a steady pitch every hop adds a synthesis hop to the stretched signal.
proof fn lemma_steady_takes<N: Vocoding>(voice: Voice<N>, input: Seq<N::Sample>) -> (frames: nat)
    requires
        voice.in_range(),
        voice.ratio == voice.target,
        voice.pending.len() < ANALYSIS_HOP,
    ensures
        frames == (voice.pending.len() + input.len()) / ANALYSIS_HOP as nat,
        ({
            let after = voice.taken(input);
            let hop = hop_for(voice.ratio as int) as nat;
            &&& after.in_range()
            &&& after.ratio == voice.ratio
            &&& after.target == voice.target
            &&& after.read == voice.read
            &&& after.pending.len() < ANALYSIS_HOP
            &&& after.stretched.len() == voice.stretched.len() + frames * hop
            &&& after.hop == if frames > 0 {
                hop
            } else {
                voice.hop
            }
        }),
    decreases input.len(),
{
    let need = ANALYSIS_HOP - voice.pending.len();
    let hop = hop_for(voice.ratio as int) as nat;
    assert(0 * hop == 0) by (nonlinear_arith);
    if input.len() >= need {
        let next = (Voice { pending: voice.pending + input.take(need), ..voice }).framed();
        let rest = lemma_steady_takes(next, input.skip(need));
        assert((rest + 1) * hop == rest * hop + hop) by (nonlinear_arith);
        rest + 1
    } else {
        0
    }
}

/// The duration is preserved: from a fresh start, at a steady pitch, as many
/// samples come out as went in, but for the incomplete hop and the reach of
/// the last interpolation. It holds however the input is cut into calls.
pub proof fn the_duration_is_preserved<N: Vocoding>(
    voice: Voice<N>,
    hops: nat,
    dropped: nat,
    input: Seq<N::Sample>,
) -> (after: (nat, nat))
    requires
        steady(voice, hops, dropped),
    ensures
        after.0 == hops + (voice.pending.len() + input.len()) / ANALYSIS_HOP as nat,
        steady(voice.taken(input).read_out(), after.0, after.1),
        put_out(hops, hop_for(voice.ratio as int) as nat) + voice.taken(input).output().len()
            == put_out(after.0, hop_for(voice.ratio as int) as nat),
{
    let hop = hop_for(voice.ratio as int) as nat;
    let frames = lemma_steady_takes(voice, input);
    let now = voice.taken(input);
    let all = hops + frames;
    let q = ANALYSIS_HOP as nat / hop;
    let before = put_out(hops, hop);
    let after = put_out(all, hop);
    let n = (after - before) as nat;
    vstd::arithmetic::div_mod::lemma_fundamental_div_mod(ANALYSIS_HOP as int, hop as int);
    assert(q * hop == hop * q) by (nonlinear_arith);
    assert(all * hop == hops * hop + frames * hop) by (nonlinear_arith)
        requires
            all == hops + frames,
    ;
    assert(q <= ANALYSIS_HOP) by (nonlinear_arith)
        requires
            q * hop <= ANALYSIS_HOP,
            hop >= 1,
    ;
    assert(0 * hop == 0) by (nonlinear_arith);
    if all == 0 {
        lemma_readable(now.stretched.len(), now.read, now.hop, 0);
        assert(0 * now.hop == 0) by (nonlinear_arith);
    } else {
        let p = all * hop;
        assert(after * hop == ANALYSIS_HOP * p - q * hop) by (nonlinear_arith)
            requires
                after == all * ANALYSIS_HOP - q,
                p == all * hop,
        ;
        assert(after * hop == before * hop + n * hop) by (nonlinear_arith)
            requires
                after == before + n,
        ;
        assert((n - 1) * hop == n * hop - hop) by (nonlinear_arith);
        assert(now.hop == hop);
        lemma_readable(now.stretched.len(), now.read, hop, n);
    }
    let end = now.read + n * now.hop;
    let more = end / ANALYSIS_HOP as nat;
    lemma_reading_stays_within(now.stretched.len(), now.read, now.hop);
    (all, dropped + more)
}

/// A fresh channel is steady and owes nothing.
pub proof fn a_fresh_channel_is_steady<N: Vocoding>(ratio: nat)
    requires
        UNITY / 2 <= ratio <= 2 * UNITY,
    ensures
        steady(Voice::<N>::fresh(ratio), 0, 0),
{
    let hop = hop_for(ratio as int) as nat;
    assert(0 * hop == 0) by (nonlinear_arith);
}

} // verus!
