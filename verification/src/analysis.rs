//! Tempo and key of a track, gathered as it decodes.
//!
//! Tempo is the autocorrelation of an onset envelope, the rise of the spectrum
//! from frame to frame: its strongest lag between 60 and 200 beats a minute is
//! the beat. Key is template matching: the spectrum folded into twelve pitch
//! classes and correlated, at each tonic, with a major and a minor profile.
//!
//! Frequencies are compared as fractions of integers, so that the bins that
//! count and the classes that they fall into are exact.
use vstd::prelude::*;

use crate::frames::{append_copy, drop_front, filled, repeated};
use crate::numeric::{Exact, Fixed, Numeric, FIXED_ONE};
use crate::pitch::{weight, weighted, Vocoding};
use crate::spectral::{hann_periodic, raised_cosine};

verus! {

/// The transform size.
pub const FFT_SIZE: usize = 2048;

/// Samples from one frame to the next.
pub const HOP: usize = 512;

/// The lowest frequency that counts for the key, in Hz.
pub const CHROMA_MIN_HZ: u64 = 55;

/// The highest frequency that counts for the key, in Hz.
pub const CHROMA_MAX_HZ: u64 = 5000;

/// A system with a wider one beside it, for long sums.
pub trait Widening: Vocoding {
    /// The wider system.
    type Wide: Numeric;

    /// The value of [`widen`](Self::widen).
    closed spec fn widened(a: Self::Sample) -> <Self::Wide as Numeric>::Sample {
        arbitrary()
    }

    /// The value of [`narrow`](Self::narrow).
    closed spec fn narrowed(a: <Self::Wide as Numeric>::Sample) -> Self::Sample {
        arbitrary()
    }

    /// The same number in the wider system.
    fn widen(a: Self::Sample) -> (wide: <Self::Wide as Numeric>::Sample)
        ensures
            wide == Self::widened(a),
    ;

    /// The nearest number in this system.
    fn narrow(a: <Self::Wide as Numeric>::Sample) -> (narrow: Self::Sample)
        ensures
            narrow == Self::narrowed(a),
    ;
}

/// [`Fixed`] is wide enough.
impl Widening for Fixed {
    type Wide = Fixed;

    open spec fn widened(a: i64) -> i64 {
        a
    }

    open spec fn narrowed(a: i64) -> i64 {
        a
    }

    fn widen(a: i64) -> (wide: i64) {
        a
    }

    fn narrow(a: i64) -> (narrow: i64) {
        a
    }
}

/// The lower edge of the semitone `i` above the A of 55 Hz, in billionths of a
/// Hz: half a semitone below its pitch.
pub open spec fn edge_value(i: int) -> nat {
    if i <= 0 {
        53_434_256_763
    } else if i == 1 {
        56_611_623_015
    } else if i == 2 {
        59_977_925_296
    } else if i == 3 {
        63_544_398_327
    } else if i == 4 {
        67_322_944_881
    } else if i == 5 {
        71_326_175_505
    } else if i == 6 {
        75_567_450_610
    } else if i == 7 {
        80_060_925_056
    } else if i == 8 {
        84_821_595_397
    } else if i == 9 {
        89_865_349_928
    } else if i == 10 {
        95_209_021_710
    } else {
        100_870_444_752
    }
}

fn edge(i: usize) -> (billionths: u64)
    requires
        i < 12,
    ensures
        billionths == edge_value(i as int),
        billionths <= 200_000_000_000,
{
    match i {
        0 => 53_434_256_763,
        1 => 56_611_623_015,
        2 => 59_977_925_296,
        3 => 63_544_398_327,
        4 => 67_322_944_881,
        5 => 71_326_175_505,
        6 => 75_567_450_610,
        7 => 80_060_925_056,
        8 => 84_821_595_397,
        9 => 89_865_349_928,
        10 => 95_209_021_710,
        _ => 100_870_444_752,
    }
}

/// The weight of the note `i` semitones above the tonic in a major key, in
/// hundredths.
pub open spec fn major_value(i: int) -> nat {
    if i <= 0 {
        635
    } else if i == 1 {
        223
    } else if i == 2 {
        348
    } else if i == 3 {
        233
    } else if i == 4 {
        438
    } else if i == 5 {
        409
    } else if i == 6 {
        252
    } else if i == 7 {
        519
    } else if i == 8 {
        239
    } else if i == 9 {
        366
    } else if i == 10 {
        229
    } else {
        288
    }
}

fn major_weight(i: usize) -> (hundredths: u64)
    requires
        i < 12,
    ensures
        hundredths == major_value(i as int),
{
    match i {
        0 => 635,
        1 => 223,
        2 => 348,
        3 => 233,
        4 => 438,
        5 => 409,
        6 => 252,
        7 => 519,
        8 => 239,
        9 => 366,
        10 => 229,
        _ => 288,
    }
}

/// The weight of the note `i` semitones above the tonic in a minor key, in
/// hundredths.
pub open spec fn minor_value(i: int) -> nat {
    if i <= 0 {
        633
    } else if i == 1 {
        268
    } else if i == 2 {
        352
    } else if i == 3 {
        538
    } else if i == 4 {
        260
    } else if i == 5 {
        353
    } else if i == 6 {
        254
    } else if i == 7 {
        475
    } else if i == 8 {
        398
    } else if i == 9 {
        269
    } else if i == 10 {
        334
    } else {
        317
    }
}

fn minor_weight(i: usize) -> (hundredths: u64)
    requires
        i < 12,
    ensures
        hundredths == minor_value(i as int),
{
    match i {
        0 => 633,
        1 => 268,
        2 => 352,
        3 => 538,
        4 => 260,
        5 => 353,
        6 => 254,
        7 => 475,
        8 => 398,
        9 => 269,
        10 => 334,
        _ => 317,
    }
}

/// The name of pitch class `i`.
pub open spec fn note_text(i: int) -> Seq<char> {
    if i <= 0 {
        "C"@
    } else if i == 1 {
        "C#"@
    } else if i == 2 {
        "D"@
    } else if i == 3 {
        "D#"@
    } else if i == 4 {
        "E"@
    } else if i == 5 {
        "F"@
    } else if i == 6 {
        "F#"@
    } else if i == 7 {
        "G"@
    } else if i == 8 {
        "G#"@
    } else if i == 9 {
        "A"@
    } else if i == 10 {
        "A#"@
    } else {
        "B"@
    }
}

fn note_name(i: usize) -> (name: &'static str)
    requires
        i < 12,
    ensures
        name@ == note_text(i as int),
{
    match i {
        0 => "C",
        1 => "C#",
        2 => "D",
        3 => "D#",
        4 => "E",
        5 => "F",
        6 => "F#",
        7 => "G",
        8 => "G#",
        9 => "A",
        10 => "A#",
        _ => "B",
    }
}

/// The last of the semitones up to `i` whose lower edge is not above
/// `num / den` Hz.
pub open spec fn last_edge(num: nat, den: nat, i: nat) -> nat
    decreases i,
{
    if i == 0 || edge_value(i as int) * den <= num * 1_000_000_000 {
        i
    } else {
        last_edge(num, den, (i - 1) as nat)
    }
}

/// The pitch class of `num / den` Hz, C being zero: brought down into the
/// lowest octave, `octaves` octaves at most, it is counted up from A.
pub open spec fn pitch_class(num: nat, den: nat, octaves: nat) -> nat
    decreases octaves,
{
    if octaves == 0 || num * 1_000_000_000 < 2 * edge_value(0) * den {
        (last_edge(num, den, 11) + 9) % 12
    } else {
        pitch_class(num, 2 * den, (octaves - 1) as nat)
    }
}

/// How many octaves there are between the bounds of what counts.
pub const OCTAVES: usize = 7;

/// The pitch class that bin `k` folds into, unless it lies out of bounds.
pub open spec fn class_of_bin(rate: u32, k: int) -> Option<nat> {
    let num = (k * rate) as nat;
    if CHROMA_MIN_HZ * FFT_SIZE <= num <= CHROMA_MAX_HZ * FFT_SIZE {
        Some(pitch_class(num, FFT_SIZE as nat, OCTAVES as nat))
    } else {
        None
    }
}

/// Whether `num / den` Hz is at or above `billionths` of a Hz.
fn reaches(num: u64, den: u64, billionths: u64) -> (reaches: bool)
    requires
        num <= 5000 * 2048,
        den <= 0x40000,
        billionths <= 400_000_000_000,
    ensures
        reaches == (billionths * den <= num * 1_000_000_000),
{
    assert(billionths * den <= 400_000_000_000 * 0x40000) by (nonlinear_arith)
        requires
            billionths <= 400_000_000_000,
            den <= 0x40000,
    ;
    billionths * den <= num * 1_000_000_000
}

fn chroma_class(rate: u32, k: usize) -> (class: Option<usize>)
    requires
        k <= FFT_SIZE,
    ensures
        match class_of_bin(rate, k as int) {
            Some(c) => class is Some && class->0 == c && c < 12,
            None => class is None,
        },
{
    assert(k * rate <= 2048 * 0xffff_ffff) by (nonlinear_arith)
        requires
            k <= 2048,
            rate <= 0xffff_ffff,
    ;
    let num: u64 = k as u64 * rate as u64;
    if num < CHROMA_MIN_HZ * FFT_SIZE as u64 || num > CHROMA_MAX_HZ * FFT_SIZE as u64 {
        return None;
    }
    let mut den: u64 = FFT_SIZE as u64;
    let mut octaves: usize = OCTAVES;
    while octaves > 0 && reaches(num, den, 2 * edge(0))
        invariant
            num <= 5000 * 2048,
            octaves <= OCTAVES,
            0 < den <= 0x40000,
            octaves > 6 ==> den <= 2048,
            octaves > 5 ==> den <= 4096,
            octaves > 4 ==> den <= 8192,
            octaves > 3 ==> den <= 0x4000,
            octaves > 2 ==> den <= 0x8000,
            octaves > 1 ==> den <= 0x10000,
            octaves > 0 ==> den <= 0x20000,
            pitch_class(num as nat, FFT_SIZE as nat, OCTAVES as nat) == pitch_class(
                num as nat,
                den as nat,
                octaves as nat,
            ),
        decreases octaves,
    {
        den = 2 * den;
        octaves -= 1;
    }
    let mut i: usize = 11;
    while i > 0 && !reaches(num, den, edge(i))
        invariant
            i <= 11,
            num <= 5000 * 2048,
            den <= 0x40000,
            last_edge(num as nat, den as nat, 11) == last_edge(num as nat, den as nat, i as nat),
        decreases i,
    {
        i -= 1;
    }
    Some((i + 9) % 12)
}

/// The sum of the first `n` values, added up in order.
pub open spec fn total<N: Numeric>(values: Seq<N::Sample>, n: nat) -> N::Sample
    decreases n,
{
    if n == 0 {
        N::zero_value()
    } else {
        N::sum(total::<N>(values, (n - 1) as nat), values[n - 1])
    }
}

/// The mean of a frame: the downmix to mono.
pub open spec fn mean_value<N: Numeric>(values: Seq<N::Sample>) -> N::Sample {
    N::quotient(total::<N>(values, values.len()), N::fraction_value(values.len(), 1))
}

/// Each whole frame of interleaved audio, mixed down to mono.
pub open spec fn downmixed<N: Numeric>(interleaved: Seq<N::Sample>, channels: nat) -> Seq<
    N::Sample,
> {
    Seq::new(
        interleaved.len() / channels,
        |i: int| mean_value::<N>(interleaved.subrange(i * channels, i * channels + channels)),
    )
}

/// How far the first `n` magnitudes rise above what they were, added up.
pub open spec fn flux<N: Numeric>(now: Seq<N::Sample>, was: Seq<N::Sample>, n: nat) -> N::Sample
    decreases n,
{
    if n == 0 {
        N::zero_value()
    } else {
        let rise = N::difference(now[n - 1], was[n - 1]);
        if N::precedes(N::zero_value(), rise) {
            N::sum(flux::<N>(now, was, (n - 1) as nat), rise)
        } else {
            flux::<N>(now, was, (n - 1) as nat)
        }
    }
}

/// `chroma` with the first `n` magnitudes added to their pitch classes.
pub open spec fn folded<N: Widening>(
    chroma: Seq<<N::Wide as Numeric>::Sample>,
    magnitudes: Seq<N::Sample>,
    rate: u32,
    n: nat,
) -> Seq<<N::Wide as Numeric>::Sample>
    decreases n,
{
    if n == 0 {
        chroma
    } else {
        let so_far = folded::<N>(chroma, magnitudes, rate, (n - 1) as nat);
        match class_of_bin(rate, n - 1) {
            Some(class) => so_far.update(
                class as int,
                <N::Wide as Numeric>::sum(
                    so_far[class as int],
                    N::widened(magnitudes[n - 1]),
                ),
            ),
            None => so_far,
        }
    }
}

/// What has been gathered of a track.
#[verifier::ext_equal]
pub struct Evidence<N: Widening> {
    /// The last window of mono samples, oldest first.
    pub history: Seq<N::Sample>,
    /// Mono samples that wait for the rest of their hop.
    pub pending: Seq<N::Sample>,
    /// The magnitudes of the last frame.
    pub previous: Seq<N::Sample>,
    /// The onset envelope, one value a hop.
    pub onset: Seq<N::Sample>,
    /// The energy of each pitch class.
    pub chroma: Seq<<N::Wide as Numeric>::Sample>,
    /// Whether there was a frame yet.
    pub started: bool,
}

impl<N: Widening> Evidence<N> {
    /// Nothing yet.
    pub open spec fn none() -> Self {
        Evidence {
            history: repeated(N::zero_value(), FFT_SIZE as nat),
            pending: Seq::empty(),
            previous: repeated(N::zero_value(), N::bin_count(FFT_SIZE as nat)),
            onset: Seq::empty(),
            chroma: repeated(<N::Wide as Numeric>::zero_value(), 12),
            started: false,
        }
    }

    /// One hop on: the new frame's rise joins the envelope, but for the very
    /// first, which rises from nothing; its magnitudes join the chroma.
    pub open spec fn framed(self, rate: u32) -> Self {
        let count = N::bin_count(FFT_SIZE as nat);
        let history = self.history.skip(HOP as int) + self.pending;
        let window = Seq::new(
            FFT_SIZE as nat,
            |i: int| raised_cosine::<N>(i as nat, FFT_SIZE as nat),
        );
        let spectrum = N::spectrum(weighted::<N>(history, window));
        let magnitudes = Seq::new(count, |k: int| N::polar_of(spectrum, k).0);
        Evidence {
            history,
            pending: Seq::empty(),
            previous: magnitudes,
            onset: if self.started {
                self.onset.push(flux::<N>(magnitudes, self.previous, count))
            } else {
                self.onset
            },
            chroma: folded::<N>(self.chroma, magnitudes, rate, count),
            started: true,
        }
    }

    /// Mono samples taken, a frame for every hop that they complete.
    pub open spec fn heard(self, mono: Seq<N::Sample>, rate: u32) -> Self
        decreases mono.len(),
    {
        let need = HOP - self.pending.len();
        if need <= 0 || mono.len() < need {
            Evidence { pending: self.pending + mono, ..self }
        } else {
            (Evidence { pending: self.pending + mono.take(need), ..self }).framed(rate).heard(
                mono.skip(need),
                rate,
            )
        }
    }
}

/// Adds up `values` in order.
fn add_up<N: Numeric>(values: &[N::Sample]) -> (sum: N::Sample)
    ensures
        sum == total::<N>(values@, values@.len()),
{
    let mut sum = N::zero();
    let mut i: usize = 0;
    while i < values.len()
        invariant
            i <= values@.len(),
            sum == total::<N>(values@, i as nat),
        decreases values@.len() - i,
    {
        sum = N::plus(sum, values[i]);
        i += 1;
    }
    sum
}

/// Gathers tempo and key evidence from a track as it decodes.
pub struct Analysis<N: Widening> {
    channels: usize,
    rate: u32,
    plan: N::Plan,
    window: Vec<N::Sample>,
    classes: Vec<Option<usize>>,
    history: Vec<N::Sample>,
    pending: Vec<N::Sample>,
    previous: Vec<N::Sample>,
    onset: Vec<N::Sample>,
    chroma: Vec<<N::Wide as Numeric>::Sample>,
    started: bool,
}

impl<N: Widening> Analysis<N> {
    /// What has been gathered.
    pub closed spec fn evidence(&self) -> Evidence<N> {
        Evidence {
            history: self.history@,
            pending: self.pending@,
            previous: self.previous@,
            onset: self.onset@,
            chroma: self.chroma@,
            started: self.started,
        }
    }

    /// The sample rate.
    pub closed spec fn rate(&self) -> u32 {
        self.rate
    }

    /// The channel count.
    pub closed spec fn channels(&self) -> usize {
        self.channels
    }

    closed spec fn sound(&self) -> bool {
        &&& self.channels > 0
        &&& self.rate > 0
        &&& N::plan_size(self.plan) == FFT_SIZE
        &&& N::bin_count(FFT_SIZE as nat) <= FFT_SIZE
        &&& self.window@ == Seq::new(
            FFT_SIZE as nat,
            |i: int| raised_cosine::<N>(i as nat, FFT_SIZE as nat),
        )
        &&& self.history@.len() == FFT_SIZE
        &&& self.previous@.len() == N::bin_count(FFT_SIZE as nat)
        &&& self.chroma@.len() == 12
        &&& self.classes@.len() == N::bin_count(FFT_SIZE as nat)
        &&& forall|k: int|
            0 <= k < self.classes@.len() ==> match class_of_bin(self.rate, k) {
                Some(class) => {
                    &&& #[trigger] self.classes@[k] is Some
                    &&& self.classes@[k]->0 == class
                    &&& class < 12
                },
                None => self.classes@[k] is None,
            }
    }

    /// What holds between calls.
    pub closed spec fn wf(&self) -> bool {
        &&& self.sound()
        &&& self.pending@.len() < HOP
    }

    /// What a sound analysis always is, as the laws of this module ask for it.
    pub proof fn always(&self)
        requires
            self.wf(),
        ensures
            self.rate() > 0,
            self.channels() > 0,
            self.evidence().pending.len() < HOP,
            self.evidence().chroma.len() == 12,
    {
    }

    /// Nothing gathered yet. There is nothing to analyse without a rate or
    /// without channels.
    pub fn new(sample_rate: u32, channels: u16) -> (analysis: Option<Self>)
        ensures
            analysis is Some <==> sample_rate > 0 && channels > 0,
            analysis matches Some(a) ==> {
                &&& a.wf()
                &&& a.rate() == sample_rate
                &&& a.channels() == channels
                &&& a.evidence() == Evidence::<N>::none()
            },
    {
        if sample_rate == 0 || channels == 0 {
            return None;
        }
        let bins: usize = N::bins_of(FFT_SIZE);
        let mut classes: Vec<Option<usize>> = Vec::with_capacity(bins);
        let mut k: usize = 0;
        while k < bins
            invariant
                k <= bins <= FFT_SIZE,
                classes@.len() == k,
                forall|j: int|
                    0 <= j < k ==> match class_of_bin(sample_rate, j) {
                        Some(class) => {
                            &&& #[trigger] classes@[j] is Some
                            &&& classes@[j]->0 == class
                            &&& class < 12
                        },
                        None => classes@[j] is None,
                    },
            decreases bins - k,
        {
            classes.push(chroma_class(sample_rate, k));
            k += 1;
        }
        let analysis = Analysis {
            channels: channels as usize,
            rate: sample_rate,
            plan: N::plan(FFT_SIZE),
            window: hann_periodic::<N>(FFT_SIZE),
            classes,
            history: filled(N::zero(), FFT_SIZE),
            pending: Vec::new(),
            previous: filled(N::zero(), bins),
            onset: Vec::new(),
            chroma: filled(<N::Wide as Numeric>::zero(), 12),
            started: false,
        };
        assert(analysis.evidence() =~= Evidence::<N>::none());
        Some(analysis)
    }

    /// Adds interleaved audio, mixed down to mono; a trailing partial frame is
    /// dropped.
    pub fn feed(&mut self, interleaved: &[N::Sample])
        requires
            old(self).wf(),
        ensures
            final(self).wf(),
            final(self).rate() == old(self).rate(),
            final(self).channels() == old(self).channels(),
            final(self).evidence() == old(self).evidence().heard(
                downmixed::<N>(interleaved@, old(self).channels() as nat),
                old(self).rate(),
            ),
    {
        let channels: usize = self.channels;
        let ghost ch = channels as nat;
        let ghost mono = downmixed::<N>(interleaved@, ch);
        let ghost goal = self.evidence().heard(mono, self.rate);
        let len: usize = interleaved.len();
        let frames: usize = len / channels;
        let width = N::fraction(channels as u64, 1);
        let mut i: usize = 0;
        let mut at: usize = 0;
        proof {
            vstd::arithmetic::div_mod::lemma_fundamental_div_mod(
                interleaved@.len() as int,
                ch as int,
            );
            assert(mono.skip(0) =~= mono);
            assert(0 * ch == 0) by (nonlinear_arith);
        }
        while i < frames
            invariant
                i <= frames,
                at == i * channels,
                self.wf(),
                self.rate == old(self).rate,
                self.channels == channels,
                channels == old(self).channels,
                ch == channels,
                channels > 0,
                len == interleaved@.len(),
                frames == interleaved@.len() / ch,
                interleaved@.len() == ch * frames + interleaved@.len() % ch,
                mono == downmixed::<N>(interleaved@, ch),
                width == N::fraction_value(ch, 1),
                goal == self.evidence().heard(mono.skip(i as int), self.rate),
            decreases frames - i,
        {
            assert((i + 1) * channels == i * channels + channels) by (nonlinear_arith);
            assert((i + 1) * channels <= ch * frames) by (nonlinear_arith)
                requires
                    i + 1 <= frames,
                    ch == channels,
            ;
            let frame: &[N::Sample] = vstd::slice::slice_subrange(
                interleaved,
                at,
                at + channels,
            );
            let sample = N::over(add_up::<N>(frame), width);
            let ghost before = self.evidence();
            let ghost rest = mono.skip(i as int);
            assert(sample == rest[0]);
            self.pending.push(sample);
            at += channels;
            i += 1;
            proof {
                assert(rest.skip(1) =~= mono.skip(i as int));
                lemma_hear_one(before, rest, self.rate);
                assert(self.evidence().pending =~= before.pending + rest.take(1));
            }
            if self.pending.len() == HOP {
                self.consume_hop();
            }
        }
        proof {
            assert(mono.skip(i as int) =~= Seq::<N::Sample>::empty());
            assert(self.evidence().pending + Seq::<N::Sample>::empty()
                =~= self.evidence().pending);
        }
    }

    fn consume_hop(&mut self)
        requires
            old(self).sound(),
            old(self).pending@.len() == HOP,
        ensures
            final(self).wf(),
            final(self).rate == old(self).rate,
            final(self).channels == old(self).channels,
            final(self).evidence() == old(self).evidence().framed(old(self).rate),
    {
        let ghost before = self.evidence();
        let ghost goal = before.framed(self.rate);
        drop_front(&mut self.history, HOP);
        append_copy(&mut self.history, self.pending.as_slice());
        self.pending.clear();
        let shaped: Vec<N::Sample> = weight::<N>(self.history.as_slice(), self.window.as_slice());
        let bins = N::forward(&mut self.plan, shaped.as_slice());
        let ghost spectrum = N::model(bins);
        let count: usize = self.previous.len();
        let ghost all = Seq::new(count as nat, |k: int| N::polar_of(spectrum, k).0);
        let mut magnitudes: Vec<N::Sample> = Vec::with_capacity(count);
        let mut rise = N::zero();
        let mut k: usize = 0;
        while k < count
            invariant
                k <= count,
                self.sound(),
                count == self.previous@.len(),
                N::bins_size(bins) == FFT_SIZE,
                spectrum == N::model(bins),
                all == Seq::new(count as nat, |k: int| N::polar_of(spectrum, k).0),
                magnitudes@ == all.take(k as int),
                rise == flux::<N>(all, self.previous@, k as nat),
            decreases count - k,
        {
            let magnitude = N::polar(&bins, k).0;
            magnitudes.push(magnitude);
            let more = N::minus(magnitude, self.previous[k]);
            if N::below(N::zero(), more) {
                rise = N::plus(rise, more);
            }
            k += 1;
        }
        assert(magnitudes@ =~= all);
        if self.started {
            self.onset.push(rise);
        }
        self.started = true;
        let ghost chroma = self.chroma@;
        let mut k: usize = 0;
        while k < count
            invariant
                k <= count,
                self.sound(),
                count == self.classes@.len(),
                magnitudes@ == all,
                all.len() == count,
                self.history@ == goal.history,
                self.pending@.len() == 0,
                self.onset@ == goal.onset,
                self.started,
                self.rate == old(self).rate,
                self.channels == old(self).channels,
                self.chroma@ == folded::<N>(chroma, all, self.rate, k as nat),
            decreases count - k,
        {
            if let Some(class) = self.classes[k] {
                let sum = <N::Wide as Numeric>::plus(self.chroma[class], N::widen(magnitudes[k]));
                self.chroma.set(class, sum);
            }
            k += 1;
        }
        self.previous = magnitudes;
        assert(self.evidence() =~= goal);
    }
}

/// Hearing goes sample by sample.
proof fn lemma_hear_one<N: Widening>(evidence: Evidence<N>, mono: Seq<N::Sample>, rate: u32)
    requires
        mono.len() > 0,
        evidence.pending.len() < HOP,
    ensures
        ({
            let next = Evidence { pending: evidence.pending + mono.take(1), ..evidence };
            evidence.heard(mono, rate) == if next.pending.len() == HOP {
                next.framed(rate).heard(mono.skip(1), rate)
            } else {
                next.heard(mono.skip(1), rate)
            }
        }),
{
    let next = Evidence { pending: evidence.pending + mono.take(1), ..evidence };
    let need = HOP - evidence.pending.len();
    if need > 1 {
        let rest = mono.skip(1);
        if mono.len() < need {
            assert(evidence.pending + mono =~= next.pending + rest);
        } else {
            assert(evidence.pending + mono.take(need) =~= next.pending + rest.take(need - 1));
            assert(mono.skip(need) =~= rest.skip(need - 1));
        }
    }
}

/// The slowest tempo looked for, in beats a minute.
pub const BPM_MIN: u64 = 60;

/// The fastest tempo looked for, in beats a minute.
pub const BPM_MAX: u64 = 200;

/// The shortest beat looked for, in hops: the shortest that is no faster than
/// [`BPM_MAX`].
pub open spec fn min_lag(rate: u32) -> nat {
    if rate == 0 {
        1
    } else {
        ((rate * 3 + 5119) / 5120) as nat
    }
}

/// The longest beat looked for, in hops: the longest that is no slower than
/// [`BPM_MIN`].
pub open spec fn max_lag(rate: u32) -> nat {
    (rate / 512) as nat
}

/// The shortest envelope that a tempo is read from, in hops: two beats at the
/// slowest tempo.
pub open spec fn least_listen(rate: u32) -> nat {
    2 * ((rate + 511) / 512) as nat
}

/// `a` is one of the ends, or neither below the low one nor above the high one.
pub open spec fn within<N: Numeric>(a: N::Sample, low: N::Sample, high: N::Sample) -> bool {
    ||| a == low
    ||| a == high
    ||| !N::precedes(a, low) && !N::precedes(high, a)
}

/// The envelope about its mean.
pub open spec fn centered<N: Numeric>(onset: Seq<N::Sample>) -> Seq<N::Sample> {
    Seq::new(onset.len(), |i: int| N::difference(onset[i], mean_value::<N>(onset)))
}

/// The first `n` products of a signal with itself `lag` later, added up.
pub open spec fn correlation<N: Numeric>(signal: Seq<N::Sample>, lag: nat, n: nat) -> N::Sample
    decreases n,
{
    if n == 0 {
        N::zero_value()
    } else {
        N::sum(
            correlation::<N>(signal, lag, (n - 1) as nat),
            N::product(signal[n - 1], signal[n - 1 + lag]),
        )
    }
}

/// The autocorrelation of the envelope at every lag looked for.
pub open spec fn correlations<N: Numeric>(onset: Seq<N::Sample>, rate: u32) -> Seq<N::Sample> {
    let signal = centered::<N>(onset);
    Seq::new(
        (max_lag(rate) - min_lag(rate) + 1) as nat,
        |j: int|
            correlation::<N>(
                signal,
                (min_lag(rate) + j) as nat,
                (signal.len() - (min_lag(rate) + j)) as nat,
            ),
    )
}

/// Where the greatest of the first `n` values stands, the last of equals.
pub open spec fn last_peak<N: Numeric>(values: Seq<N::Sample>, n: nat) -> int
    decreases n,
{
    if n <= 1 {
        0
    } else {
        let best = last_peak::<N>(values, (n - 1) as nat);
        if N::precedes(values[n - 1], values[best]) {
            best
        } else {
            n - 1
        }
    }
}

/// Whether `a` is further than `b` from zero.
pub open spec fn exceeds<N: Numeric>(a: N::Sample, b: N::Sample) -> bool {
    N::precedes(b, a) || N::precedes(a, N::difference(N::zero_value(), b))
}

/// `a` held between `low` and `high`.
pub open spec fn held<N: Numeric>(
    a: N::Sample,
    low: N::Sample,
    high: N::Sample,
) -> N::Sample {
    if N::precedes(a, low) {
        low
    } else if N::precedes(high, a) {
        high
    } else {
        a
    }
}

/// The tempo of a beat of `lag` hops, in beats a minute. Rounding takes it no
/// further than the tempi looked for.
pub open spec fn tempo_at<N: Numeric>(lag: N::Sample, rate: u32) -> N::Sample {
    held::<N>(
        N::quotient(N::fraction_value((rate * 60) as nat, 512), lag),
        N::fraction_value(BPM_MIN as nat, 1),
        N::fraction_value(BPM_MAX as nat, 1),
    )
}

/// How far the top of the parabola through the peak and its neighbours lies
/// from the peak.
pub open spec fn peak_offset<N: Numeric>(values: Seq<N::Sample>, peak: int) -> N::Sample {
    if 0 < peak && peak + 1 < values.len() {
        let (left, right) = (values[peak - 1], values[peak + 1]);
        let bend = N::sum(
            N::difference(left, N::product(N::fraction_value(2, 1), values[peak])),
            right,
        );
        if exceeds::<N>(bend, N::fraction_value(1, 1_000_000_000)) {
            N::quotient(
                N::product(N::fraction_value(1, 2), N::difference(left, right)),
                bend,
            )
        } else {
            N::zero_value()
        }
    } else {
        N::zero_value()
    }
}

/// The tempo of an onset envelope in beats a minute, and how much the peak
/// stands out. There is none in less than two beats at the slowest tempo, none
/// where no whole number of hops makes a beat, and none where nothing repeats.
pub open spec fn tempo_of<N: Numeric>(onset: Seq<N::Sample>, rate: u32) -> Option<
    (N::Sample, N::Sample),
> {
    if onset.len() < least_listen(rate) || max_lag(rate) < min_lag(rate) {
        None
    } else {
        let values = correlations::<N>(onset, rate);
        let peak = last_peak::<N>(values, values.len());
        if !N::precedes(N::zero_value(), values[peak]) {
            None
        } else {
            let lag = N::sum(
                N::fraction_value(min_lag(rate), 1),
                N::sum(N::fraction_value(peak as nat, 1), peak_offset::<N>(values, peak)),
            );
            let mean = mean_value::<N>(values);
            Some(
                (
                    tempo_at::<N>(lag, rate),
                    if exceeds::<N>(mean, N::fraction_value(1, 1_000_000_000)) {
                        held::<N>(
                            N::quotient(
                                N::difference(N::quotient(values[peak], mean), N::one_value()),
                                N::fraction_value(4, 1),
                            ),
                            N::zero_value(),
                            N::one_value(),
                        )
                    } else {
                        N::zero_value()
                    },
                ),
            )
        }
    }
}

fn is_beyond<N: Numeric>(a: N::Sample, b: N::Sample) -> (beyond: bool)
    ensures
        beyond == exceeds::<N>(a, b),
{
    N::below(b, a) || N::below(a, N::minus(N::zero(), b))
}

fn hold<N: Numeric>(a: N::Sample, low: N::Sample, high: N::Sample) -> (kept: N::Sample)
    ensures
        kept == held::<N>(a, low, high),
        within::<N>(kept, low, high),
{
    if N::below(a, low) {
        low
    } else if N::below(high, a) {
        high
    } else {
        a
    }
}

fn mean<N: Numeric>(values: &[N::Sample]) -> (mean: N::Sample)
    ensures
        mean == mean_value::<N>(values@),
{
    N::over(add_up::<N>(values), N::fraction(values.len() as u64, 1))
}

/// The autocorrelation of `onset` at every lag looked for.
fn correlate<N: Numeric>(onset: &[N::Sample], rate: u32, least: usize, most: usize) -> (values:
    Vec<N::Sample>)
    requires
        least == min_lag(rate),
        most == max_lag(rate),
        least <= most,
        most * 2 <= onset@.len(),
    ensures
        values@ == correlations::<N>(onset@, rate),
{
    let len: usize = onset.len();
    let middle = mean::<N>(onset);
    let mut signal: Vec<N::Sample> = Vec::with_capacity(len);
    let mut i: usize = 0;
    while i < len
        invariant
            i <= len,
            len == onset@.len(),
            middle == mean_value::<N>(onset@),
            signal@ == centered::<N>(onset@).take(i as int),
        decreases len - i,
    {
        signal.push(N::minus(onset[i], middle));
        i += 1;
    }
    assert(signal@ =~= centered::<N>(onset@));
    let ghost goal = correlations::<N>(onset@, rate);
    let mut values: Vec<N::Sample> = Vec::with_capacity(most - least + 1);
    let mut lag: usize = least;
    while lag <= most
        invariant
            least == min_lag(rate),
            most == max_lag(rate),
            least <= lag <= most + 1,
            most * 2 <= len,
            len == onset@.len(),
            signal@ == centered::<N>(onset@),
            goal == correlations::<N>(onset@, rate),
            values@ == goal.take(lag - least),
        decreases most + 1 - lag,
    {
        let mut sum = N::zero();
        let mut n: usize = 0;
        while n < len - lag
            invariant
                n <= len - lag,
                lag <= len,
                len == signal@.len(),
                sum == correlation::<N>(signal@, lag as nat, n as nat),
            decreases len - lag - n,
        {
            sum = N::plus(sum, N::times(signal[n], signal[n + lag]));
            n += 1;
        }
        values.push(sum);
        lag += 1;
    }
    assert(values@ =~= goal);
    values
}

/// The tempo of an onset envelope, one value a hop at `rate`, and how sure it
/// is.
pub fn estimate_bpm<N: Numeric>(onset: &[N::Sample], rate: u32) -> (tempo: Option<
    (N::Sample, N::Sample),
>)
    ensures
        tempo == tempo_of::<N>(onset@, rate),
        tempo matches Some((bpm, confidence)) ==> {
            &&& within::<N>(
                bpm,
                N::fraction_value(BPM_MIN as nat, 1),
                N::fraction_value(BPM_MAX as nat, 1),
            )
            &&& within::<N>(confidence, N::zero_value(), N::one_value())
            &&& onset@.len() >= least_listen(rate)
        },
{
    if rate == 0 {
        return None;
    }
    let least: usize = ((rate as u64 * 3 + 5119) / 5120) as usize;
    let most: usize = (rate / 512) as usize;
    let listen: usize = 2 * ((rate as u64 + 511) / 512) as usize;
    if onset.len() < listen || most < least {
        return None;
    }
    let values: Vec<N::Sample> = correlate::<N>(onset, rate, least, most);
    let mut best: usize = 0;
    let mut i: usize = 1;
    while i < values.len()
        invariant
            1 <= i <= values@.len(),
            best < i,
            best == last_peak::<N>(values@, i as nat),
        decreases values@.len() - i,
    {
        if !N::below(values[i], values[best]) {
            best = i;
        }
        i += 1;
    }
    let peak = values[best];
    if !N::below(N::zero(), peak) {
        return None;
    }
    let tiny = N::fraction(1, 1_000_000_000);
    let offset = if best > 0 && best + 1 < values.len() {
        let (left, right) = (values[best - 1], values[best + 1]);
        let bend = N::plus(N::minus(left, N::times(N::fraction(2, 1), peak)), right);
        if is_beyond::<N>(bend, tiny) {
            N::over(N::times(N::fraction(1, 2), N::minus(left, right)), bend)
        } else {
            N::zero()
        }
    } else {
        N::zero()
    };
    let lag = N::plus(
        N::fraction(least as u64, 1),
        N::plus(N::fraction(best as u64, 1), offset),
    );
    let bpm = hold::<N>(
        N::over(N::fraction(rate as u64 * 60, 512), lag),
        N::fraction(BPM_MIN, 1),
        N::fraction(BPM_MAX, 1),
    );
    let level = mean::<N>(values.as_slice());
    let confidence = if is_beyond::<N>(level, tiny) {
        hold::<N>(
            N::over(N::minus(N::over(peak, level), N::one()), N::fraction(4, 1)),
            N::zero(),
            N::one(),
        )
    } else {
        N::zero()
    };
    Some((bpm, confidence))
}

/// The deviations of the first `n` values from `a_mean` and `b_mean`,
/// multiplied and added up.
pub open spec fn covariance<W: Numeric>(
    a: Seq<W::Sample>,
    a_mean: W::Sample,
    b: Seq<W::Sample>,
    b_mean: W::Sample,
    n: nat,
) -> W::Sample
    decreases n,
{
    if n == 0 {
        W::zero_value()
    } else {
        W::sum(
            covariance::<W>(a, a_mean, b, b_mean, (n - 1) as nat),
            W::product(
                W::difference(a[n - 1], a_mean),
                W::difference(b[n - 1], b_mean),
            ),
        )
    }
}

/// The Pearson correlation of two signals of one length; none where one of
/// them is level.
pub open spec fn pearson_value<W: Numeric>(a: Seq<W::Sample>, b: Seq<W::Sample>) -> W::Sample {
    let n = a.len();
    let (a_mean, b_mean) = (mean_value::<W>(a), mean_value::<W>(b));
    let spread = W::root_value(
        W::product(
            covariance::<W>(a, a_mean, a, a_mean, n),
            covariance::<W>(b, b_mean, b, b_mean, n),
        ),
    );
    if W::precedes(W::fraction_value(1, 1_000_000_000_000), spread) {
        W::quotient(covariance::<W>(a, a_mean, b, b_mean, n), spread)
    } else {
        W::zero_value()
    }
}

/// The profile of candidate `j`: major and minor in turn on each tonic from C
/// up, by pitch class.
pub open spec fn profile_of<W: Numeric>(j: int) -> Seq<W::Sample> {
    Seq::new(
        12,
        |i: int|
            {
                let above = (i + 12 - j / 2) % 12;
                W::fraction_value(
                    if j % 2 == 0 {
                        major_value(above)
                    } else {
                        minor_value(above)
                    },
                    100,
                )
            },
    )
}

/// How well candidate `j` fits.
pub open spec fn fit<W: Numeric>(chroma: Seq<W::Sample>, j: int) -> W::Sample {
    pearson_value::<W>(chroma, profile_of::<W>(j))
}

/// The best of the first `n` candidates, the first of equals.
pub open spec fn best_fit<W: Numeric>(chroma: Seq<W::Sample>, n: nat) -> int
    decreases n,
{
    if n <= 1 {
        0
    } else {
        let best = best_fit::<W>(chroma, (n - 1) as nat);
        if W::precedes(fit::<W>(chroma, best), fit::<W>(chroma, n - 1)) {
            n - 1
        } else {
            best
        }
    }
}

/// The name of candidate `j`.
pub open spec fn key_text(j: int) -> Seq<char> {
    note_text(j / 2) + if j % 2 == 0 {
        " major"@
    } else {
        " minor"@
    }
}

/// The key of a chroma and how well it fits. Silence has none.
pub open spec fn key_of<W: Numeric>(chroma: Seq<W::Sample>) -> Option<(Seq<char>, W::Sample)> {
    if W::precedes(total::<W>(chroma, chroma.len()), W::fraction_value(1, 1_000_000)) {
        None
    } else {
        let best = best_fit::<W>(chroma, 24);
        Some((key_text(best), held::<W>(fit::<W>(chroma, best), W::zero_value(), W::one_value())))
    }
}

fn covary<W: Numeric>(
    a: &[W::Sample],
    a_mean: W::Sample,
    b: &[W::Sample],
    b_mean: W::Sample,
) -> (sum: W::Sample)
    requires
        a@.len() == b@.len(),
    ensures
        sum == covariance::<W>(a@, a_mean, b@, b_mean, a@.len()),
{
    let mut sum = W::zero();
    let mut i: usize = 0;
    while i < a.len()
        invariant
            i <= a@.len(),
            a@.len() == b@.len(),
            sum == covariance::<W>(a@, a_mean, b@, b_mean, i as nat),
        decreases a@.len() - i,
    {
        sum = W::plus(sum, W::times(W::minus(a[i], a_mean), W::minus(b[i], b_mean)));
        i += 1;
    }
    sum
}

/// The Pearson correlation of two signals of one length.
fn pearson<W: Numeric>(a: &[W::Sample], b: &[W::Sample]) -> (correlation: W::Sample)
    requires
        a@.len() == b@.len(),
    ensures
        correlation == pearson_value::<W>(a@, b@),
{
    let a_mean = mean::<W>(a);
    let b_mean = mean::<W>(b);
    let together = covary::<W>(a, a_mean, b, b_mean);
    let spread = W::root(
        W::times(covary::<W>(a, a_mean, a, a_mean), covary::<W>(b, b_mean, b, b_mean)),
    );
    if W::below(W::fraction(1, 1_000_000_000_000), spread) {
        W::over(together, spread)
    } else {
        W::zero()
    }
}

fn rotated_profile<W: Numeric>(tonic: usize, major: bool) -> (profile: Vec<W::Sample>)
    requires
        tonic < 12,
    ensures
        profile@ == profile_of::<W>(
            2 * tonic + if major {
                0int
            } else {
                1int
            },
        ),
{
    let ghost j = 2 * tonic + if major {
        0int
    } else {
        1int
    };
    let mut profile: Vec<W::Sample> = Vec::with_capacity(12);
    let mut i: usize = 0;
    while i < 12
        invariant
            i <= 12,
            tonic < 12,
            j == 2 * tonic + if major {
                0int
            } else {
                1int
            },
            profile@ == profile_of::<W>(j).take(i as int),
        decreases 12 - i,
    {
        let above: usize = (i + 12 - tonic) % 12;
        let hundredths: u64 = if major {
            major_weight(above)
        } else {
            minor_weight(above)
        };
        assert(j / 2 == tonic);
        profile.push(W::fraction(hundredths, 100));
        i += 1;
    }
    assert(profile@ =~= profile_of::<W>(j));
    profile
}

/// The key of a chroma, one value for each pitch class from C up, and how
/// well it fits.
pub fn estimate_key<W: Numeric>(chroma: &[W::Sample]) -> (key: Option<(String, W::Sample)>)
    requires
        chroma@.len() == 12,
    ensures
        match key_of::<W>(chroma@) {
            Some((name, confidence)) => key matches Some(found) && found.0@ == name && found.1
                == confidence,
            None => key is None,
        },
{
    if W::below(add_up::<W>(chroma), W::fraction(1, 1_000_000)) {
        return None;
    }
    let first: Vec<W::Sample> = rotated_profile::<W>(0, true);
    let mut best: usize = 0;
    let mut best_value = pearson::<W>(chroma, first.as_slice());
    let mut j: usize = 1;
    while j < 24
        invariant
            1 <= j <= 24,
            chroma@.len() == 12,
            best < j,
            best == best_fit::<W>(chroma@, j as nat),
            best_value == fit::<W>(chroma@, best as int),
        decreases 24 - j,
    {
        let profile: Vec<W::Sample> = rotated_profile::<W>(j / 2, j % 2 == 0);
        let value = pearson::<W>(chroma, profile.as_slice());
        if W::below(best_value, value) {
            best = j;
            best_value = value;
        }
        j += 1;
    }
    let mut name: String = note_name(best / 2).to_owned();
    name.append(
        if best % 2 == 0 {
            " major"
        } else {
            " minor"
        },
    );
    Some((name, hold::<W>(best_value, W::zero(), W::one())))
}

/// What a track's analysis found. Either estimate is missing where the track
/// was too short or too featureless.
pub struct TrackAnalysis<N: Numeric> {
    pub bpm: Option<N::Sample>,
    pub bpm_confidence: N::Sample,
    pub key: Option<String>,
    pub key_confidence: N::Sample,
}

impl<N: Widening> Analysis<N> {
    /// The tempo and key found so far.
    pub fn finish(&self) -> (found: TrackAnalysis<N>)
        requires
            self.wf(),
        ensures
            match tempo_of::<N>(self.evidence().onset, self.rate()) {
                Some((bpm, confidence)) => {
                    &&& found.bpm == Some(bpm)
                    &&& found.bpm_confidence == confidence
                    &&& within::<N>(
                        bpm,
                        N::fraction_value(BPM_MIN as nat, 1),
                        N::fraction_value(BPM_MAX as nat, 1),
                    )
                    &&& within::<N>(confidence, N::zero_value(), N::one_value())
                },
                None => found.bpm is None && found.bpm_confidence == N::zero_value(),
            },
            match key_of::<N::Wide>(self.evidence().chroma) {
                Some((name, confidence)) => {
                    &&& found.key is Some
                    &&& found.key->0@ == name
                    &&& found.key_confidence == N::narrowed(confidence)
                },
                None => found.key is None && found.key_confidence == N::zero_value(),
            },
    {
        let (bpm, bpm_confidence) = match estimate_bpm::<N>(self.onset.as_slice(), self.rate) {
            Some((bpm, confidence)) => (Some(bpm), confidence),
            None => (None, N::zero()),
        };
        let (key, key_confidence) = match estimate_key::<N::Wide>(self.chroma.as_slice()) {
            Some((key, confidence)) => (Some(key), N::narrow(confidence)),
            None => (None, N::zero()),
        };
        TrackAnalysis { bpm, bpm_confidence, key, key_confidence }
    }
}

/// Cutting the audio into pieces changes nothing of what is gathered.
pub proof fn pieces_do_not_matter<N: Widening>(
    evidence: Evidence<N>,
    first: Seq<N::Sample>,
    rest: Seq<N::Sample>,
    rate: u32,
)
    requires
        evidence.pending.len() < HOP,
    ensures
        evidence.heard(first, rate).heard(rest, rate) == evidence.heard(first + rest, rate),
    decreases first.len(),
{
    let need = HOP - evidence.pending.len();
    if first.len() < need {
        let next = evidence.heard(first, rate);
        let all = first + rest;
        if all.len() < need {
            assert(next.pending + rest =~= evidence.pending + all);
        } else {
            let more = need - first.len();
            assert(next.pending + rest.take(more) =~= evidence.pending + all.take(need));
            assert(rest.skip(more) =~= all.skip(need));
        }
    } else {
        let next = (Evidence { pending: evidence.pending + first.take(need), ..evidence }).framed(
            rate,
        );
        assert((first + rest).take(need) =~= first.take(need));
        assert((first + rest).skip(need) =~= first.skip(need) + rest);
        pieces_do_not_matter(next, first.skip(need), rest, rate);
    }
}

/// Audio cut at a frame boundary gives what it gives in one piece, and the
/// samples after the last whole frame of a call change nothing. What an
/// analysis finds depends on its evidence and its rate alone.
pub proof fn cuts_do_not_matter<N: Widening>(
    analysis: Analysis<N>,
    first: Seq<N::Sample>,
    rest: Seq<N::Sample>,
)
    requires
        analysis.wf(),
    ensures
        ({
            let channels = analysis.channels() as nat;
            let rate = analysis.rate();
            let frames = first.len() / channels;
            let whole = first.take((frames * channels) as int);
            analysis.evidence().heard(downmixed::<N>(first, channels), rate).heard(
                downmixed::<N>(rest, channels),
                rate,
            ) == analysis.evidence().heard(downmixed::<N>(whole + rest, channels), rate)
        }),
{
    let channels = analysis.channels() as nat;
    lemma_downmix_joins::<N>(first, rest, channels);
    pieces_do_not_matter(
        analysis.evidence(),
        downmixed::<N>(first, channels),
        downmixed::<N>(rest, channels),
        analysis.rate(),
    );
}

/// A downmix goes frame by frame.
proof fn lemma_downmix_joins<N: Numeric>(
    first: Seq<N::Sample>,
    rest: Seq<N::Sample>,
    channels: nat,
)
    requires
        channels > 0,
    ensures
        ({
            let whole = first.take((first.len() / channels * channels) as int);
            downmixed::<N>(whole + rest, channels) == downmixed::<N>(first, channels)
                + downmixed::<N>(rest, channels)
        }),
{
    let frames = first.len() / channels;
    let more = rest.len() / channels;
    let cut = frames * channels;
    vstd::arithmetic::div_mod::lemma_fundamental_div_mod(first.len() as int, channels as int);
    vstd::arithmetic::div_mod::lemma_fundamental_div_mod(rest.len() as int, channels as int);
    assert(cut == channels * frames) by (nonlinear_arith)
        requires
            cut == frames * channels,
    ;
    let whole = first.take(cut as int);
    let all = whole + rest;
    assert(all.len() == (frames + more) * channels + rest.len() % channels) by (nonlinear_arith)
        requires
            all.len() == cut + rest.len(),
            cut == frames * channels,
            rest.len() == channels * more + rest.len() % channels,
    ;
    vstd::arithmetic::div_mod::lemma_fundamental_div_mod_converse(
        all.len() as int,
        channels as int,
        (frames + more) as int,
        (rest.len() % channels) as int,
    );
    let want = downmixed::<N>(first, channels) + downmixed::<N>(rest, channels);
    assert forall|i: int| 0 <= i < frames + more implies #[trigger] downmixed::<N>(all, channels)[i]
        == want[i] by {
        if i < frames {
            assert(0 <= i * channels && i * channels + channels <= cut) by (nonlinear_arith)
                requires
                    0 <= i,
                    i + 1 <= frames,
                    cut == frames * channels,
            ;
            assert(all.subrange(i * channels, i * channels + channels) =~= first.subrange(
                i * channels,
                i * channels + channels,
            ));
        } else {
            let j = i - frames;
            assert(i * channels == cut + j * channels && 0 <= j * channels && j * channels
                + channels <= channels * more) by (nonlinear_arith)
                requires
                    j == i - frames,
                    0 <= j,
                    j + 1 <= more,
                    cut == frames * channels,
            ;
            assert(all.subrange(i * channels, i * channels + channels) =~= rest.subrange(
                j * channels,
                j * channels + channels,
            ));
        }
    }
    assert(downmixed::<N>(all, channels) =~= want);
}

/// Every sample twice over: one channel played on two.
pub open spec fn doubled<T>(mono: Seq<T>) -> Seq<T> {
    Seq::new(2 * mono.len(), |i: int| mono[i / 2])
}

/// The mean of `sample` with itself is the mean of `sample` alone.
pub open spec fn halves<N: Numeric>(sample: N::Sample) -> bool {
    mean_value::<N>(seq![sample, sample]) == mean_value::<N>(seq![sample])
}

/// One channel played on two is heard as that one channel.
pub proof fn doubled_channels_are_heard_as_one<N: Widening>(
    evidence: Evidence<N>,
    mono: Seq<N::Sample>,
    rate: u32,
)
    requires
        forall|i: int| 0 <= i < mono.len() ==> halves::<N>(#[trigger] mono[i]),
    ensures
        evidence.heard(downmixed::<N>(doubled(mono), 2), rate) == evidence.heard(
            downmixed::<N>(mono, 1),
            rate,
        ),
{
    let two = downmixed::<N>(doubled(mono), 2);
    let one = downmixed::<N>(mono, 1);
    assert forall|i: int| 0 <= i < mono.len() implies #[trigger] two[i] == one[i] by {
        assert(doubled(mono).subrange(i * 2, i * 2 + 2) =~= seq![mono[i], mono[i]]);
        assert(mono.subrange(i * 1, i * 1 + 1) =~= seq![mono[i]]);
        assert(halves::<N>(mono[i]));
    }
    assert(two =~= one);
}

/// In [`Fixed`] every sample below a quarter of the range, and so all audio,
/// halves.
pub proof fn fixed_samples_halve(sample: i64)
    requires
        -0x4000_0000_0000_0000 <= sample < 0x4000_0000_0000_0000,
    ensures
        halves::<Fixed>(sample),
{
    reveal_with_fuel(total, 3);
    let pair = seq![sample, sample];
    let one = seq![sample];
    assert(total::<Fixed>(pair, 2) == 2 * sample);
    assert(total::<Fixed>(one, 1) == sample);
    assert(Fixed::fraction_value(2, 1) == 0x2_0000_0000);
    assert(Fixed::fraction_value(1, 1) == 0x1_0000_0000);
    let n = sample * 0x1_0000_0000;
    assert(2 * sample * 0x1_0000_0000 == 2 * n);
    if n >= 0 {
        assert(2 * n / 0x2_0000_0000 == n / 0x1_0000_0000);
    } else {
        assert(2 * -n / 0x2_0000_0000 == -n / 0x1_0000_0000);
    }
}

/// The beats looked for are those of the tempi looked for: at `lag` hops, the
/// tempo is `rate * 60 / (512 * lag)`.
pub proof fn lags_lie_in_the_tempo_range(rate: u32, lag: nat)
    requires
        min_lag(rate) <= lag <= max_lag(rate),
    ensures
        BPM_MIN * (512 * lag) <= rate * 60 <= BPM_MAX * (512 * lag),
{
}

/// In [`Fixed`], every tempo lies between [`BPM_MIN`] and [`BPM_MAX`] beats a
/// minute, and every confidence between zero and one.
pub proof fn fixed_tempi_lie_in_range(onset: Seq<i64>, rate: u32)
    ensures
        tempo_of::<Fixed>(onset, rate) matches Some((bpm, confidence)) ==> {
            &&& BPM_MIN * FIXED_ONE <= bpm <= BPM_MAX * FIXED_ONE
            &&& 0 <= confidence <= FIXED_ONE
        },
{
}

/// Less than two beats at the slowest tempo gives no tempo.
pub proof fn a_short_listen_has_no_tempo<N: Numeric>(onset: Seq<N::Sample>, rate: u32)
    requires
        onset.len() < least_listen(rate),
    ensures
        tempo_of::<N>(onset, rate) is None,
{
}

/// Silence has no key, in a system where a millionth is not nothing.
pub proof fn silence_has_no_key<W: Exact>()
    requires
        W::precedes(W::zero_value(), W::fraction_value(1, 1_000_000)),
    ensures
        key_of::<W>(repeated(W::zero_value(), 12)) is None,
{
    lemma_silent_total::<W>(12, 12);
}

proof fn lemma_silent_total<W: Exact>(n: nat, k: nat)
    requires
        k <= n,
    ensures
        total::<W>(repeated(W::zero_value(), n), k) == W::zero_value(),
    decreases k,
{
    if k > 0 {
        lemma_silent_total::<W>(n, (k - 1) as nat);
        W::zero_is_neutral(W::zero_value());
    }
}

} // verus!
