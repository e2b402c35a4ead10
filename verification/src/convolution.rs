//! Convolution with an impulse response, as a chain effect.
//!
//! One effect covers reverb, room and headphone correction: the host supplies
//! an impulse response, which is resampled to the device rate. A mono response
//! is applied to every channel, a stereo one channel by channel.
//!
//! It is causal: the wet signal lies on the dry one and nothing is delayed.
//! The mix blends the two by equal power; at zero it is the dry signal. The
//! tail rings out when the chain is drained.
use std::sync::Arc;

use vstd::prelude::*;

use crate::chain::{outcome, Effect, UNITY};
use crate::frames::{append_copy, deinterleave, drop_front, interleave, take_channel};
use crate::frames::{channel_of, channels_of, contents, woven};
use crate::frames::{lemma_channel_of_sum, lemma_woven_joins, weaving_undoes_parting};
use crate::numeric::{the_fixed_circle_is_round, Exact, Fixed, Numeric, FIXED_ONE, ROUNDNESS};
use crate::spectral::{agree, lemma_stream_len, lemma_stream_splits, lemma_tail_len};
use crate::spectral::output_is_causal;
use crate::spectral::{owed, sample_at, share, stream, tail, Convolver, Kernel};
use crate::transform::Spectral;

verus! {

/// Partition size of the convolvers.
pub const BLOCK: usize = 1024;

/// The longest impulse response accepted, in seconds at its own rate.
pub const MAX_IR_SECS: u64 = 10;

/// A system that can change the sample rate of a recording.
pub trait Resampling: Numeric {
    /// The outcome of [`resample`](Self::resample).
    closed spec fn resampled(
        samples: Seq<Self::Sample>,
        from: u32,
        to: u32,
        channels: nat,
    ) -> Result<Seq<Self::Sample>, Seq<char>> {
        arbitrary()
    }

    /// All of an interleaved recording, from one rate to another.
    fn resample(samples: &[Self::Sample], from: u32, to: u32, channels: usize) -> (result: Result<
        Vec<Self::Sample>,
        String,
    >)
        requires
            from > 0,
            to > 0,
            channels > 0,
        ensures
            match result {
                Ok(out) => Self::resampled(samples@, from, to, channels as nat) == Ok::<
                    Seq<Self::Sample>,
                    Seq<char>,
                >(out@),
                Err(message) => Self::resampled(samples@, from, to, channels as nat) == Err::<
                    Seq<Self::Sample>,
                    Seq<char>,
                >(message@),
            },
    ;
}

/// A decoded impulse response at its own sample rate, kept so that it can be
/// resampled again when the device rate changes.
pub struct SourceIr<T> {
    rate: u32,
    channels: usize,
    interleaved: Vec<T>,
}

impl<T> SourceIr<T> {
    /// The sample rate.
    pub closed spec fn rate(&self) -> u32 {
        self.rate
    }

    /// The channel count.
    pub closed spec fn channels(&self) -> usize {
        self.channels
    }

    /// The interleaved samples.
    pub closed spec fn samples(&self) -> Seq<T> {
        self.interleaved@
    }

    /// Whole frames, one at least.
    pub closed spec fn wf(&self) -> bool {
        &&& self.rate > 0
        &&& self.channels > 0
        &&& self.interleaved@.len() > 0
        &&& self.interleaved@.len() % self.channels as nat == 0
    }
}

/// An impulse response as it comes from a decoder, piece by piece.
pub struct IrLoader<T> {
    rate: u32,
    channels: usize,
    interleaved: Vec<T>,
}

/// `text` and then `name`.
fn with_name(text: &str, name: &str) -> (message: String)
    ensures
        message@ == text@ + name@,
{
    let mut message: String = text.to_owned();
    message.append(name);
    message
}

impl<T: Copy> IrLoader<T> {
    /// The sample rate.
    pub closed spec fn rate(&self) -> u32 {
        self.rate
    }

    /// The channel count.
    pub closed spec fn channels(&self) -> usize {
        self.channels
    }

    /// What the decoder has delivered.
    pub closed spec fn read(&self) -> Seq<T> {
        self.interleaved@
    }

    /// The most samples that are kept.
    pub open spec fn cap(&self) -> nat {
        (MAX_IR_SECS * self.rate() * self.channels()) as nat
    }

    /// What holds between calls.
    pub closed spec fn wf(&self) -> bool {
        &&& self.rate > 0
        &&& 0 < self.channels <= u16::MAX
    }

    /// Begins on a file of this format. `name` is how the file is called in
    /// an error.
    pub fn begin(rate: u32, channels: u16, name: &str) -> (loader: Result<Self, String>)
        ensures
            loader is Ok <==> rate > 0 && channels > 0,
            loader matches Ok(l) ==> {
                &&& l.wf()
                &&& l.rate() == rate
                &&& l.channels() == channels
                &&& l.read() == Seq::<T>::empty()
            },
            loader matches Err(message) ==> message@ == "impulse response has no audio: "@ + name@,
    {
        if rate == 0 || channels == 0 {
            return Err(with_name("impulse response has no audio: ", name));
        }
        Ok(IrLoader { rate, channels: channels as usize, interleaved: Vec::new() })
    }

    /// Whether there is room for more.
    pub fn wants_more(&self) -> (wants: bool)
        requires
            self.wf(),
        ensures
            wants == (self.read().len() < self.cap()),
    {
        (self.interleaved.len() as u64) < self.limit()
    }

    fn limit(&self) -> (limit: u64)
        requires
            self.wf(),
        ensures
            limit == self.cap(),
            limit >= self.channels(),
    {
        let (rate, channels) = (self.rate as u64, self.channels as u64);
        assert(MAX_IR_SECS * rate <= 10 * 0xffff_ffff) by (nonlinear_arith)
            requires
                MAX_IR_SECS == 10,
                rate <= 0xffff_ffff,
        ;
        assert(10 <= MAX_IR_SECS * rate) by (nonlinear_arith)
            requires
                MAX_IR_SECS == 10,
                1 <= rate,
        ;
        let per_channel: u64 = MAX_IR_SECS * rate;
        assert(channels <= per_channel * channels <= 10 * 0xffff_ffff * 0xffff) by (nonlinear_arith)
            requires
                10 <= per_channel <= 10 * 0xffff_ffff,
                channels <= 0xffff,
        ;
        per_channel * channels
    }

    /// Takes the next piece.
    pub fn feed(&mut self, piece: &[T])
        requires
            old(self).wf(),
        ensures
            final(self).wf(),
            final(self).rate() == old(self).rate(),
            final(self).channels() == old(self).channels(),
            final(self).read() == old(self).read() + piece@,
    {
        append_copy(&mut self.interleaved, piece);
    }

    /// What was read, cut to whole frames and to the cap. Nothing at all is an
    /// error.
    pub fn finish(self, name: &str) -> (source: Result<SourceIr<T>, String>)
        requires
            self.wf(),
        ensures
            source is Ok <==> self.read().len() >= self.channels(),
            source matches Ok(ir) ==> {
                let frames = if self.read().len() <= self.cap() {
                    self.read().len() / self.channels() as nat
                } else {
                    self.cap() / self.channels() as nat
                };
                &&& ir.wf()
                &&& ir.rate() == self.rate()
                &&& ir.channels() == self.channels()
                &&& ir.samples() == self.read().take((frames * self.channels()) as int)
            },
            source matches Err(message) ==> message@ == "impulse response decoded to nothing: "@
                + name@,
    {
        let limit: u64 = self.limit();
        let channels: usize = self.channels;
        let rate: u32 = self.rate;
        let mut interleaved: Vec<T> = self.interleaved;
        let total: usize = interleaved.len();
        let frames: usize = if total as u64 <= limit {
            total / channels
        } else {
            (limit / channels as u64) as usize
        };
        proof {
            let ch = channels as nat;
            let held = if total <= limit {
                total as nat
            } else {
                limit as nat
            };
            vstd::arithmetic::div_mod::lemma_fundamental_div_mod(held as int, ch as int);
            assert(frames * ch == ch * (held / ch)) by (nonlinear_arith)
                requires
                    frames == held / ch,
            ;
            vstd::arithmetic::div_mod::lemma_fundamental_div_mod_converse(
                (frames * ch) as int,
                ch as int,
                frames as int,
                0,
            );
            assert(frames >= 1 <==> held >= ch) by (nonlinear_arith)
                requires
                    held == ch * (held / ch) + held % ch,
                    0 <= held % ch < ch,
                    frames == held / ch,
            ;
            assert(frames * ch > 0 <==> frames >= 1) by (nonlinear_arith)
                requires
                    ch > 0,
            ;
        }
        interleaved.truncate(frames * channels);
        if interleaved.len() == 0 {
            return Err(with_name("impulse response decoded to nothing: ", name));
        }
        Ok(SourceIr { rate, channels, interleaved })
    }
}

/// Frame `i` of a lane at another rate: read between the two frames it falls
/// between, or at the last where none follows.
pub open spec fn frame_between(lane: Seq<i64>, from: u32, to: u32, i: int) -> i64 {
    let at = i * from / to as int;
    let share = Fixed::fraction_value((i * from % to as int) as nat, to as nat);
    if at + 1 < lane.len() {
        Fixed::sum(
            lane[at],
            Fixed::product(share, Fixed::difference(lane[at + 1], lane[at])),
        )
    } else {
        lane[at]
    }
}

/// `n` frames of a lane at another rate.
pub open spec fn lane_at(lane: Seq<i64>, from: u32, to: u32, n: nat) -> Seq<i64> {
    Seq::new(n, |i: int| frame_between(lane, from, to, i))
}

/// How many frames `frames` frames come to at another rate.
pub open spec fn frames_at(frames: nat, from: u32, to: u32) -> nat {
    frames * to as nat / from as nat
}

/// [`Fixed`] reads between the frames in a straight line.
impl Resampling for Fixed {
    open spec fn resampled(
        samples: Seq<i64>,
        from: u32,
        to: u32,
        channels: nat,
    ) -> Result<Seq<i64>, Seq<char>> {
        let n = frames_at(samples.len() / channels, from, to);
        if n > usize::MAX {
            Err("too long to resample"@)
        } else {
            Ok(
                woven(
                    Seq::new(
                        channels,
                        |c: int| lane_at(channel_of(samples, channels, c), from, to, n),
                    ),
                    n,
                ),
            )
        }
    }

    fn resample(samples: &[i64], from: u32, to: u32, channels: usize) -> (result: Result<
        Vec<i64>,
        String,
    >) {
        let frames: usize = samples.len() / channels;
        let ghost ch = channels as nat;
        assert(frames * to <= 0xffff_ffff_ffff_ffff * 0xffff_ffff) by (nonlinear_arith)
            requires
                frames <= 0xffff_ffff_ffff_ffff,
                to <= 0xffff_ffff,
        ;
        let wanted: u128 = frames as u128 * to as u128 / from as u128;
        if wanted > usize::MAX as u128 {
            return Err("too long to resample".to_owned());
        }
        let n: usize = wanted as usize;
        let lanes: Vec<Vec<i64>> = deinterleave(samples, channels);
        assert(contents(lanes@).len() == ch);
        let mut outs: Vec<Vec<i64>> = Vec::with_capacity(channels);
        let mut c: usize = 0;
        while c < channels
            invariant
                c <= channels,
                ch == channels,
                from > 0,
                to > 0,
                frames == samples@.len() / ch,
                n == frames_at(frames as nat, from, to),
                lanes@.len() == ch,
                contents(lanes@) == channels_of(samples@, ch),
                outs@.len() == c,
                forall|k: int|
                    0 <= k < c ==> (#[trigger] outs@[k])@ == lane_at(
                        channel_of(samples@, ch, k),
                        from,
                        to,
                        n as nat,
                    ),
            decreases channels - c,
        {
            assert(contents(lanes@)[c as int] == lanes@[c as int]@);
            let ghost lane = channel_of(samples@, ch, c as int);
            let mut out: Vec<i64> = Vec::with_capacity(n);
            let mut i: usize = 0;
            while i < n
                invariant
                    i <= n,
                    from > 0,
                    to > 0,
                    c < lanes@.len(),
                    lanes@[c as int]@ == lane,
                    lane.len() == frames,
                    n == frames_at(frames as nat, from, to),
                    out@ == lane_at(lane, from, to, n as nat).take(i as int),
                decreases n - i,
            {
                assert(i * from <= 0xffff_ffff_ffff_ffff * 0xffff_ffff) by (nonlinear_arith)
                    requires
                        i <= 0xffff_ffff_ffff_ffff,
                        from <= 0xffff_ffff,
                ;
                let at: u128 = i as u128 * from as u128 / to as u128;
                proof {
                    lemma_frame_exists(i as nat, frames as nat, from, to);
                }
                let part: u64 = (i as u128 * from as u128 % to as u128) as u64;
                let here: i64 = lanes[c][at as usize];
                if at as usize + 1 < lanes[c].len() {
                    let rise: i64 = Fixed::minus(lanes[c][at as usize + 1], here);
                    out.push(Fixed::plus(here, Fixed::times(Fixed::fraction(part, to as u64), rise)));
                } else {
                    out.push(here);
                }
                i += 1;
            }
            assert(out@ =~= lane_at(lane, from, to, n as nat));
            outs.push(out);
            c += 1;
        }
        let mut result: Vec<i64> = Vec::new();
        interleave(&outs, n, &mut result);
        assert(contents(outs@) =~= Seq::new(
            ch,
            |c: int| lane_at(channel_of(samples@, ch, c), from, to, n as nat),
        ));
        assert(Seq::<i64>::empty() + woven(contents(outs@), n as nat) =~= woven(
            contents(outs@),
            n as nat,
        ));
        Ok(result)
    }
}

proof fn lemma_frame_exists(i: nat, frames: nat, from: u32, to: u32)
    requires
        from > 0,
        to > 0,
        i < frames_at(frames, from, to),
    ensures
        0 <= i * from / (to as int) < frames,
{
    let n = frames * to as nat / from as nat;
    vstd::arithmetic::div_mod::lemma_fundamental_div_mod((frames * to) as int, from as int);
    assert(i * from < frames * to) by (nonlinear_arith)
        requires
            i + 1 <= n,
            from * n <= frames * to,
            from > 0,
    ;
    assert(i * from / (to as int) < frames) by (nonlinear_arith)
        requires
            0 <= i * from < frames * to,
            to > 0,
    ;
    assert(0 <= i * from / to as int) by (nonlinear_arith)
        requires
            0 <= i * from,
            to > 0,
    ;
}

/// The impulse response of audio channel `c`: its own, or the last one.
pub open spec fn taps_for<T>(kernels: Seq<Seq<T>>, c: int) -> Seq<T> {
    kernels[if c < kernels.len() {
        c
    } else {
        kernels.len() - 1
    }]
}

/// The gains of the dry and the wet signal at `mix` parts of [`UNITY`].
pub open spec fn gains_at<N: Numeric>(mix: u64) -> (N::Sample, N::Sample) {
    N::circle_point(mix as nat, 4 * UNITY as nat)
}

/// The wet signal blended with the dry one, which may end before it.
pub open spec fn blended_lane<N: Numeric>(
    dry: Seq<N::Sample>,
    wet: Seq<N::Sample>,
    mix: u64,
) -> Seq<N::Sample> {
    let gains = gains_at::<N>(mix);
    Seq::new(
        wet.len(),
        |i: int| N::sum(N::product(gains.0, sample_at::<N>(dry, i)), N::product(gains.1, wet[i])),
    )
}

/// Where the convolution stands.
#[verifier::ext_equal]
pub struct Room<N: Spectral> {
    /// One impulse response for each of its channels.
    pub kernels: Seq<Seq<N::Sample>>,
    /// What each audio channel has been given, in whole blocks.
    pub fed: Seq<Seq<N::Sample>>,
    /// Interleaved input that waits for the rest of its block.
    pub staged: Seq<N::Sample>,
}

impl<N: Spectral> Room<N> {
    /// A room that has heard nothing.
    pub open spec fn fresh(kernels: Seq<Seq<N::Sample>>, channels: nat) -> Self {
        Room { kernels, fed: Seq::new(channels, |c: int| Seq::empty()), staged: Seq::empty() }
    }

    /// How many blocks `input` completes.
    pub open spec fn blocks(self, input: Seq<N::Sample>) -> nat {
        (self.staged + input).len() / self.fed.len() / BLOCK as nat
    }

    /// The whole blocks that `input` completes, interleaved.
    pub open spec fn front(self, input: Seq<N::Sample>) -> Seq<N::Sample> {
        (self.staged + input).take((self.blocks(input) * BLOCK * self.fed.len()) as int)
    }

    /// The room once `input` came in.
    pub open spec fn given(self, input: Seq<N::Sample>) -> Self {
        Room {
            fed: Seq::new(
                self.fed.len(),
                |c: int| self.fed[c] + channel_of(self.front(input), self.fed.len(), c),
            ),
            staged: (self.staged + input).skip(
                (self.blocks(input) * BLOCK * self.fed.len()) as int,
            ),
            ..self
        }
    }

    /// What channel `c` puts out when `input` comes in.
    pub open spec fn lane(self, input: Seq<N::Sample>, mix: u64, c: int) -> Seq<N::Sample> {
        let fed = self.given(input).fed[c];
        blended_lane::<N>(
            channel_of(self.front(input), self.fed.len(), c),
            stream::<N>(
                taps_for(self.kernels, c),
                fed,
                0,
                BLOCK as nat,
                self.fed[c].len() / BLOCK as nat,
                fed.len() / BLOCK as nat,
            ),
            mix,
        )
    }

    /// What comes out when `input` comes in.
    pub open spec fn output(self, input: Seq<N::Sample>, mix: u64) -> Seq<N::Sample> {
        woven(
            Seq::new(self.fed.len(), |c: int| self.lane(input, mix, c)),
            self.blocks(input) * BLOCK as nat,
        )
    }

    /// All that channel `c` was given, staged frames included.
    pub open spec fn heard(self, c: int) -> Seq<N::Sample> {
        self.fed[c] + channel_of(self.staged, self.fed.len(), c)
    }

    /// What channel `c` still owes: the staged frames and the tail, which is
    /// wet only.
    pub open spec fn lane_tail(self, mix: u64, c: int) -> Seq<N::Sample> {
        blended_lane::<N>(
            channel_of(self.staged, self.fed.len(), c),
            if self.heard(c).len() == 0 {
                Seq::empty()
            } else {
                tail::<N>(taps_for(self.kernels, c), self.heard(c), 0, BLOCK as nat)
            },
            mix,
        )
    }

    /// All that is still owed.
    pub open spec fn ring_out(self, mix: u64) -> Seq<N::Sample> {
        woven(
            Seq::new(self.fed.len(), |c: int| self.lane_tail(mix, c)),
            self.lane_tail(mix, 0).len(),
        )
    }
}

/// Blends `wet` with `dry`, which may end before it.
fn blend<N: Numeric>(dry: &[N::Sample], wet: &[N::Sample], mix: u64) -> (lane: Vec<N::Sample>)
    requires
        mix <= UNITY,
    ensures
        lane@ == blended_lane::<N>(dry@, wet@, mix),
{
    let (dry_gain, wet_gain) = N::circle(mix, 4 * UNITY);
    let n: usize = wet.len();
    let mut lane: Vec<N::Sample> = Vec::with_capacity(n);
    let mut i: usize = 0;
    while i < n
        invariant
            i <= n,
            n == wet@.len(),
            (dry_gain, wet_gain) == gains_at::<N>(mix),
            lane@ == blended_lane::<N>(dry@, wet@, mix).take(i as int),
        decreases n - i,
    {
        let direct = if i < dry.len() {
            dry[i]
        } else {
            N::zero()
        };
        lane.push(N::plus(N::times(dry_gain, direct), N::times(wet_gain, wet[i])));
        i += 1;
    }
    lane
}

/// One convolver per audio channel over the shared kernels of the response.
struct Backend<N: Spectral> {
    channels: usize,
    ir_kernels: Vec<Arc<Kernel<N>>>,
    convolvers: Vec<Convolver<N>>,
    stage: Vec<N::Sample>,
}

/// Kernels of one length and the block size of the effect.
spec fn kernels_fit<N: Spectral>(kernels: Seq<Arc<Kernel<N>>>) -> bool {
    &&& kernels.len() > 0
    &&& forall|k: int|
        0 <= k < kernels.len() ==> {
            &&& (#[trigger] kernels[k]).wf()
            &&& kernels[k].block_size() == BLOCK
            &&& kernels[k].taps().len() == kernels[0].taps().len()
            &&& kernels[k].taps().len() > 0
        }
}

/// The taps of each kernel.
pub open spec fn taps_of<N: Spectral>(kernels: Seq<Arc<Kernel<N>>>) -> Seq<Seq<N::Sample>> {
    Seq::new(kernels.len(), |k: int| kernels[k].taps())
}

/// One convolver per audio channel, each over the response channel that it
/// maps to.
fn kernels_to_convolvers<N: Spectral>(
    ir_kernels: &Vec<Arc<Kernel<N>>>,
    audio_channels: usize,
) -> (convolvers: Vec<Convolver<N>>)
    requires
        kernels_fit(ir_kernels@),
    ensures
        convolvers@.len() == audio_channels,
        forall|c: int|
            0 <= c < audio_channels ==> {
                &&& (#[trigger] convolvers@[c]).wf()
                &&& convolvers@[c].block_size() == BLOCK
                &&& convolvers@[c].taps() == taps_for(taps_of(ir_kernels@), c)
                &&& convolvers@[c].fed() == Seq::<N::Sample>::empty()
            },
{
    let last: usize = ir_kernels.len() - 1;
    let mut convolvers: Vec<Convolver<N>> = Vec::with_capacity(audio_channels);
    let mut c: usize = 0;
    while c < audio_channels
        invariant
            c <= audio_channels,
            kernels_fit(ir_kernels@),
            last == ir_kernels@.len() - 1,
            convolvers@.len() == c,
            forall|k: int|
                0 <= k < c ==> {
                    &&& (#[trigger] convolvers@[k]).wf()
                    &&& convolvers@[k].block_size() == BLOCK
                    &&& convolvers@[k].taps() == taps_for(taps_of(ir_kernels@), k)
                    &&& convolvers@[k].fed() == Seq::<N::Sample>::empty()
                },
        decreases audio_channels - c,
    {
        let mapped: usize = if c < last {
            c
        } else {
            last
        };
        assert(ir_kernels@[mapped as int].wf());
        convolvers.push(Convolver::from_kernel(share(&ir_kernels[mapped])));
        c += 1;
    }
    convolvers
}

impl<N: Spectral> Backend<N> {
    spec fn room(&self) -> Room<N> {
        Room {
            kernels: taps_of(self.ir_kernels@),
            fed: Seq::new(self.channels as nat, |c: int| self.convolvers@[c].fed()),
            staged: self.stage@,
        }
    }

    spec fn lane_fits(&self, c: int) -> bool {
        &&& self.convolvers@[c].wf()
        &&& self.convolvers@[c].block_size() == BLOCK
        &&& self.convolvers@[c].taps() == taps_for(taps_of(self.ir_kernels@), c)
        &&& self.convolvers@[c].fed().len() == self.convolvers@[0].fed().len()
    }

    spec fn wf(&self) -> bool {
        &&& self.channels > 0
        &&& kernels_fit(self.ir_kernels@)
        &&& self.convolvers@.len() == self.channels
        &&& forall|c: int| 0 <= c < self.channels ==> #[trigger] self.lane_fits(c)
        &&& self.convolvers@[0].fed().len() % BLOCK as nat == 0
        &&& self.stage@.len() / (self.channels as nat) < BLOCK
    }

    /// A fresh backend over kernels that others may share.
    fn over(ir_kernels: Vec<Arc<Kernel<N>>>, channels: usize) -> (backend: Self)
        requires
            kernels_fit(ir_kernels@),
            channels > 0,
        ensures
            backend.wf(),
            backend.channels == channels,
            backend.room() == Room::<N>::fresh(taps_of(ir_kernels@), channels as nat),
    {
        let convolvers = kernels_to_convolvers(&ir_kernels, channels);
        let backend = Backend { channels, ir_kernels, convolvers, stage: Vec::new() };
        proof {
            assert(0nat / channels as nat == 0) by (nonlinear_arith)
                requires
                    channels > 0,
            ;
            assert forall|c: int| 0 <= c < channels implies #[trigger] backend.lane_fits(c) by {
                assert(backend.convolvers@[c].wf());
                assert(backend.convolvers@[0].wf());
            }
            assert(backend.convolvers@[0].wf());
            assert(backend.room() =~= Room::<N>::fresh(taps_of(ir_kernels@), channels as nat));
        }
        backend
    }

    /// A fresh backend over the same kernels: nothing is transformed again.
    fn mirror(&self) -> (mirror: Self)
        requires
            self.wf(),
        ensures
            mirror.wf(),
            mirror.channels == self.channels,
            mirror.room() == Room::<N>::fresh(self.room().kernels, self.channels as nat),
    {
        let mut kernels: Vec<Arc<Kernel<N>>> = Vec::with_capacity(self.ir_kernels.len());
        let mut k: usize = 0;
        while k < self.ir_kernels.len()
            invariant
                k <= self.ir_kernels@.len(),
                kernels@ == self.ir_kernels@.take(k as int),
            decreases self.ir_kernels@.len() - k,
        {
            kernels.push(share(&self.ir_kernels[k]));
            k += 1;
        }
        assert(kernels@ =~= self.ir_kernels@);
        Backend::over(kernels, self.channels)
    }
}

/// Whole blocks on top of whole blocks.
proof fn lemma_more_blocks(had: nat, more: nat)
    requires
        had % BLOCK as nat == 0,
    ensures
        (had + more * BLOCK as nat) / BLOCK as nat == had / BLOCK as nat + more,
        (had + more * BLOCK as nat) % BLOCK as nat == 0,
{
}

/// The part of `n` frames that fills blocks.
proof fn lemma_whole_blocks_fit(len: nat, channels: nat)
    requires
        channels > 0,
    ensures
        ({
            let blocks = len / channels / BLOCK as nat;
            &&& blocks * BLOCK <= len / channels <= len
            &&& blocks * BLOCK * channels <= len
            &&& (blocks * BLOCK * channels) % channels as int == 0
            &&& (blocks * BLOCK * channels) / channels as int == blocks * BLOCK
            &&& (len - blocks * BLOCK * channels) as nat / channels < BLOCK
        }),
{
    let blocks = len / channels / BLOCK as nat;
    let frames = len / channels;
    let kept = blocks * BLOCK;
    vstd::arithmetic::div_mod::lemma_fundamental_div_mod(len as int, channels as int);
    assert(kept <= frames && frames - kept < BLOCK);
    assert(kept * channels <= frames * channels) by (nonlinear_arith)
        requires
            kept <= frames,
    ;
    assert(frames * channels == channels * frames) by (nonlinear_arith);
    assert(frames <= len) by (nonlinear_arith)
        requires
            channels * frames <= len,
            channels >= 1,
    ;
    vstd::arithmetic::div_mod::lemma_fundamental_div_mod_converse(
        kept * channels,
        channels as int,
        kept,
        0,
    );
    let rest = len - kept * channels;
    let part = len % channels;
    assert((frames - kept) * channels == channels * frames - kept * channels) by (nonlinear_arith);
    assert(rest == (frames - kept) * channels + part);
    vstd::arithmetic::div_mod::lemma_fundamental_div_mod_converse(
        rest,
        channels as int,
        frames - kept,
        part as int,
    );
}

impl<N: Spectral> Backend<N> {
    fn process(&mut self, input: &[N::Sample], output: &mut Vec<N::Sample>, mix: u64)
        requires
            old(self).wf(),
            mix <= UNITY,
        ensures
            final(self).wf(),
            final(self).channels == old(self).channels,
            final(self).room() == old(self).room().given(input@),
            final(output)@ == old(output)@ + old(self).room().output(input@, mix),
    {
        let ghost before = *self;
        let ghost room = self.room();
        let channels: usize = self.channels;
        let ghost ch = channels as nat;
        append_copy(&mut self.stage, input);
        let ghost all = self.stage@;
        assert(all == room.staged + input@);
        let blocks: usize = self.stage.len() / channels / BLOCK;
        proof {
            lemma_whole_blocks_fit(all.len(), ch);
            assert(self.stage.len() <= usize::MAX);
        }
        let whole: usize = blocks * BLOCK;
        if blocks == 0 {
            proof {
                assert(0 * ch == 0) by (nonlinear_arith);
                assert(room.front(input@) =~= Seq::empty());
                assert forall|c: int| 0 <= c < ch implies #[trigger] channel_of(
                    room.front(input@),
                    ch,
                    c,
                ) =~= Seq::<N::Sample>::empty() by {
                    assert(0nat / ch == 0) by (nonlinear_arith)
                        requires
                            ch > 0,
                    ;
                }
                assert(room.output(input@, mix) =~= Seq::empty());
                assert(self.room() =~= room.given(input@)) by {
                    assert(all.skip(0) =~= all);
                    assert(self.room().fed =~= room.given(input@).fed) by {
                        assert forall|c: int| 0 <= c < ch implies self.room().fed[c]
                            == #[trigger] room.given(input@).fed[c] by {
                            assert(room.fed[c] + channel_of(room.front(input@), ch, c)
                                =~= room.fed[c]);
                        }
                    }
                }
                assert forall|c: int| 0 <= c < ch implies #[trigger] self.lane_fits(c) by {
                    assert(before.lane_fits(c));
                }
            }
            return ;
        }
        let ghost front = room.front(input@);
        let front_slice: &[N::Sample] = vstd::slice::slice_subrange(
            self.stage.as_slice(),
            0,
            whole * channels,
        );
        let dry: Vec<Vec<N::Sample>> = deinterleave(front_slice, channels);
        proof {
            assert(front_slice@ =~= front);
            assert(contents(dry@).len() == ch);
        }
        let mut lanes: Vec<Vec<N::Sample>> = Vec::with_capacity(channels);
        let mut c: usize = 0;
        while c < channels
            invariant
                before.wf(),
                mix <= UNITY,
                room == before.room(),
                ch == channels,
                channels == before.channels,
                front == room.front(input@),
                front.len() / ch == whole,
                whole == blocks * BLOCK,
                blocks == room.blocks(input@),
                c <= channels,
                self.channels == channels,
                self.ir_kernels == before.ir_kernels,
                self.stage@ == all,
                self.convolvers@.len() == channels,
                dry@.len() == ch,
                contents(dry@) == channels_of(front, ch),
                forall|k: int|
                    c <= k < channels ==> #[trigger] self.convolvers@[k] == before.convolvers@[k],
                forall|k: int|
                    0 <= k < c ==> {
                        &&& (#[trigger] self.convolvers@[k]).wf()
                        &&& self.convolvers@[k].block_size() == BLOCK
                        &&& self.convolvers@[k].taps() == before.convolvers@[k].taps()
                        &&& self.convolvers@[k].fed() == before.convolvers@[k].fed() + channel_of(
                            front,
                            ch,
                            k,
                        )
                    },
                lanes@.len() == c,
                forall|k: int|
                    0 <= k < c ==> {
                        &&& (#[trigger] lanes@[k])@ == room.lane(input@, mix, k)
                        &&& lanes@[k]@.len() == whole
                    },
            decreases channels - c,
        {
            let ghost k = c as int;
            proof {
                assert(before.lane_fits(k) && before.lane_fits(0));
                assert(contents(dry@)[k] == dry@[k]@);
                assert(dry@[k]@ == channel_of(front, ch, k));
                assert(room.given(input@).fed[k] == room.fed[k] + channel_of(front, ch, k));
                lemma_more_blocks(room.fed[k].len(), blocks as nat);
                lemma_stream_len::<N>(
                    taps_for(room.kernels, k),
                    room.given(input@).fed[k],
                    0,
                    BLOCK as nat,
                    room.fed[k].len() / BLOCK as nat,
                    room.fed[k].len() / BLOCK as nat + blocks as nat,
                );
            }
            let mut wet: Vec<N::Sample> = Vec::with_capacity(whole);
            self.convolvers[c].process(dry[c].as_slice(), &mut wet);
            proof {
                let streamed = stream::<N>(
                    taps_for(room.kernels, k),
                    room.given(input@).fed[k],
                    0,
                    BLOCK as nat,
                    room.fed[k].len() / BLOCK as nat,
                    room.given(input@).fed[k].len() / BLOCK as nat,
                );
                assert(wet@ =~= streamed);
            }
            lanes.push(blend::<N>(dry[c].as_slice(), wet.as_slice(), mix));
            c += 1;
        }
        interleave(&lanes, whole, output);
        drop_front(&mut self.stage, whole * channels);
        proof {
            assert(contents(lanes@) =~= Seq::new(ch, |c: int| room.lane(input@, mix, c)));
            assert(before.lane_fits(0));
            lemma_more_blocks(before.convolvers@[0].fed().len(), blocks as nat);
            assert forall|k: int| 0 <= k < ch implies #[trigger] self.lane_fits(k) by {
                assert(before.lane_fits(k));
                assert(self.convolvers@[k].wf());
                assert(self.convolvers@[0].wf());
            }
            assert(self.convolvers@[0].wf());
            assert(self.room().fed =~= room.given(input@).fed) by {
                assert forall|c: int| 0 <= c < ch implies self.room().fed[c]
                    == #[trigger] room.given(input@).fed[c] by {
                    assert(self.convolvers@[c].wf());
                }
            }
            assert(self.room() =~= room.given(input@));
        }
    }

    /// Flushes the staged frames and every convolver's tail, and begins a
    /// fresh stream.
    fn drain(&mut self, output: &mut Vec<N::Sample>, mix: u64)
        requires
            old(self).wf(),
            mix <= UNITY,
        ensures
            final(self).wf(),
            final(self).channels == old(self).channels,
            final(self).room() == Room::<N>::fresh(
                old(self).room().kernels,
                old(self).channels as nat,
            ),
            final(output)@ == old(output)@ + old(self).room().ring_out(mix),
    {
        let ghost before = *self;
        let ghost room = self.room();
        let channels: usize = self.channels;
        let ghost ch = channels as nat;
        let dry: Vec<Vec<N::Sample>> = deinterleave(self.stage.as_slice(), channels);
        assert(contents(dry@).len() == ch);
        let ghost owing = room.lane_tail(mix, 0).len();
        let mut lanes: Vec<Vec<N::Sample>> = Vec::with_capacity(channels);
        let mut c: usize = 0;
        while c < channels
            invariant
                before.wf(),
                mix <= UNITY,
                room == before.room(),
                ch == channels,
                channels == before.channels,
                owing == room.lane_tail(mix, 0).len(),
                c <= channels,
                self.channels == channels,
                self.ir_kernels == before.ir_kernels,
                self.convolvers@.len() == channels,
                dry@.len() == ch,
                contents(dry@) == channels_of(room.staged, ch),
                forall|k: int|
                    c <= k < channels ==> #[trigger] self.convolvers@[k] == before.convolvers@[k],
                forall|k: int|
                    0 <= k < c ==> {
                        &&& (#[trigger] self.convolvers@[k]).wf()
                        &&& self.convolvers@[k].block_size() == BLOCK
                        &&& self.convolvers@[k].taps() == before.convolvers@[k].taps()
                        &&& self.convolvers@[k].fed() == Seq::<N::Sample>::empty()
                    },
                lanes@.len() == c,
                forall|k: int|
                    0 <= k < c ==> {
                        &&& (#[trigger] lanes@[k])@ == room.lane_tail(mix, k)
                        &&& lanes@[k]@.len() == owing
                    },
            decreases channels - c,
        {
            let ghost k = c as int;
            proof {
                assert(before.lane_fits(k) && before.lane_fits(0));
                assert(contents(dry@)[k] == dry@[k]@);
                assert(dry@[k]@ == channel_of(room.staged, ch, k));
                let fed = room.fed[k].len();
                let more = dry@[k]@.len();
                assert(more == room.staged.len() / ch);
                assert((fed + more) / BLOCK as nat == fed / BLOCK as nat);
                lemma_tail_len::<N>(taps_for(room.kernels, k), room.heard(k), 0, BLOCK as nat);
                lemma_tail_len::<N>(taps_for(room.kernels, 0), room.heard(0), 0, BLOCK as nat);
            }
            let mut wet: Vec<N::Sample> = Vec::new();
            self.convolvers[c].process(dry[c].as_slice(), &mut wet);
            proof {
                let n = room.fed[k].len() / BLOCK as nat;
                assert(stream::<N>(
                    taps_for(room.kernels, k),
                    room.heard(k),
                    0,
                    BLOCK as nat,
                    n,
                    n,
                ) =~= Seq::empty());
                assert(wet@ =~= Seq::empty());
            }
            self.convolvers[c].drain(&mut wet);
            lanes.push(blend::<N>(dry[c].as_slice(), wet.as_slice(), mix));
            assert(lanes@[k]@ =~= room.lane_tail(mix, k));
            c += 1;
        }
        interleave(&lanes, lanes[0].len(), output);
        self.stage.clear();
        proof {
            assert(contents(lanes@) =~= Seq::new(ch, |c: int| room.lane_tail(mix, c)));
            assert(0nat / ch == 0) by (nonlinear_arith)
                requires
                    ch > 0,
            ;
            assert forall|k: int| 0 <= k < ch implies #[trigger] self.lane_fits(k) by {
                assert(before.lane_fits(k));
                assert(self.convolvers@[k].wf());
                assert(self.convolvers@[0].wf());
            }
            assert(self.convolvers@[0].wf());
            assert(self.room().fed =~= Room::<N>::fresh(room.kernels, ch).fed) by {
                assert forall|c: int| 0 <= c < ch implies self.room().fed[c] == Seq::<
                    N::Sample,
                >::empty() by {
                    assert(self.convolvers@[c].wf());
                }
            }
            assert(self.room() =~= Room::<N>::fresh(room.kernels, ch));
        }
    }

    fn reset(&mut self)
        requires
            old(self).wf(),
        ensures
            final(self).wf(),
            final(self).channels == old(self).channels,
            final(self).room() == Room::<N>::fresh(
                old(self).room().kernels,
                old(self).channels as nat,
            ),
    {
        let ghost before = *self;
        let ghost ch = self.channels as nat;
        let mut c: usize = 0;
        while c < self.channels
            invariant
                before.wf(),
                c <= self.channels,
                self.channels == before.channels,
                self.ir_kernels == before.ir_kernels,
                self.convolvers@.len() == self.channels,
                forall|k: int|
                    c <= k < self.channels ==> #[trigger] self.convolvers@[k]
                        == before.convolvers@[k],
                forall|k: int|
                    0 <= k < c ==> {
                        &&& (#[trigger] self.convolvers@[k]).wf()
                        &&& self.convolvers@[k].block_size() == BLOCK
                        &&& self.convolvers@[k].taps() == before.convolvers@[k].taps()
                        &&& self.convolvers@[k].fed() == Seq::<N::Sample>::empty()
                    },
            decreases self.channels - c,
        {
            assert(before.lane_fits(c as int));
            self.convolvers[c].reset();
            c += 1;
        }
        self.stage.clear();
        proof {
            assert(0nat / ch == 0) by (nonlinear_arith)
                requires
                    ch > 0,
            ;
            assert forall|k: int| 0 <= k < ch implies #[trigger] self.lane_fits(k) by {
                assert(before.lane_fits(k));
                assert(self.convolvers@[k].wf());
                assert(self.convolvers@[0].wf());
            }
            assert(self.convolvers@[0].wf());
            assert(self.room().fed =~= Room::<N>::fresh(before.room().kernels, ch).fed) by {
                assert forall|c: int| 0 <= c < ch implies self.room().fed[c] == Seq::<
                    N::Sample,
                >::empty() by {
                    assert(self.convolvers@[c].wf());
                }
            }
            assert(self.room() =~= Room::<N>::fresh(before.room().kernels, ch));
        }
    }
}

/// The impulse responses, one a channel, of a recording played at `rate`.
pub open spec fn response_at<N: Resampling>(
    source: SourceIr<N::Sample>,
    rate: u32,
) -> Result<Seq<Seq<N::Sample>>, Seq<char>> {
    let channels = source.channels() as nat;
    let resampled = if source.rate() == rate {
        Ok(source.samples())
    } else {
        N::resampled(source.samples(), source.rate(), rate, channels)
    };
    match resampled {
        Err(message) => Err(message),
        Ok(samples) => if samples.len() / channels == 0 {
            Err("impulse response is empty"@)
        } else if samples.len() / channels + 2 * BLOCK > usize::MAX {
            Err("impulse response is too long"@)
        } else {
            Ok(channels_of(samples, channels))
        },
    }
}

impl<N: Spectral + Resampling> Backend<N> {
    /// Brings the response to the device rate and transforms each of its
    /// channels once.
    fn build(source: &SourceIr<N::Sample>, device_rate: u32, audio_channels: usize) -> (result:
        Result<Self, String>)
        requires
            source.wf(),
            device_rate > 0,
            audio_channels > 0,
        ensures
            match result {
                Ok(backend) => {
                    &&& backend.wf()
                    &&& backend.channels == audio_channels
                    &&& response_at::<N>(*source, device_rate) == Ok::<
                        Seq<Seq<N::Sample>>,
                        Seq<char>,
                    >(backend.room().kernels)
                    &&& backend.room() == Room::<N>::fresh(
                        backend.room().kernels,
                        audio_channels as nat,
                    )
                },
                Err(message) => response_at::<N>(*source, device_rate) == Err::<
                    Seq<Seq<N::Sample>>,
                    Seq<char>,
                >(message@),
            },
    {
        let ir_channels: usize = source.channels;
        let ghost ch = ir_channels as nat;
        let resampled: Vec<N::Sample> = if source.rate == device_rate {
            let mut copy: Vec<N::Sample> = Vec::with_capacity(source.interleaved.len());
            append_copy(&mut copy, source.interleaved.as_slice());
            assert(copy@ =~= source.interleaved@);
            copy
        } else {
            match N::resample(source.interleaved.as_slice(), source.rate, device_rate, ir_channels) {
                Ok(out) => out,
                Err(message) => {
                    return Err(message);
                },
            }
        };
        let frames: usize = resampled.len() / ir_channels;
        if frames == 0 {
            return Err("impulse response is empty".to_owned());
        }
        if frames > usize::MAX - 2 * BLOCK {
            return Err("impulse response is too long".to_owned());
        }
        let mut ir_kernels: Vec<Arc<Kernel<N>>> = Vec::with_capacity(ir_channels);
        let mut c: usize = 0;
        while c < ir_channels
            invariant
                c <= ir_channels,
                ch == ir_channels,
                frames == resampled@.len() / ch,
                frames > 0,
                frames + 2 * BLOCK <= usize::MAX,
                ir_kernels@.len() == c,
                forall|k: int|
                    0 <= k < c ==> {
                        &&& (#[trigger] ir_kernels@[k]).wf()
                        &&& ir_kernels@[k].block_size() == BLOCK
                        &&& ir_kernels@[k].taps() == channel_of(resampled@, ch, k)
                    },
            decreases ir_channels - c,
        {
            let taps: Vec<N::Sample> = take_channel(resampled.as_slice(), ir_channels, c);
            ir_kernels.push(Arc::new(Kernel::new(taps.as_slice(), BLOCK)));
            c += 1;
        }
        assert(taps_of(ir_kernels@) =~= channels_of(resampled@, ch));
        Ok(Backend::over(ir_kernels, audio_channels))
    }
}

/// The impulse-response effect. The backend exists only while there is a
/// response and a device shape.
pub struct Convolution<N: Spectral> {
    enabled: bool,
    mix: u64,
    rate: u32,
    channels: usize,
    ir_path: Option<String>,
    source_ir: Option<Arc<SourceIr<N::Sample>>>,
    backend: Option<Backend<N>>,
}

/// What a path says.
pub open spec fn path_text(path: Option<String>) -> Option<Seq<char>> {
    match path {
        Some(text) => Some(text@),
        None => None,
    }
}

impl<N: Spectral> Convolution<N> {
    /// Whether the setting is on.
    pub closed spec fn enabled(&self) -> bool {
        self.enabled
    }

    /// The setting of the mix, in parts of [`UNITY`].
    pub closed spec fn mix(&self) -> u64 {
        self.mix
    }

    /// The sample rate.
    pub closed spec fn rate(&self) -> u32 {
        self.rate
    }

    /// The channel count.
    pub closed spec fn channels(&self) -> usize {
        self.channels
    }

    /// The path of the response.
    pub closed spec fn path(&self) -> Option<Seq<char>> {
        path_text(self.ir_path)
    }

    /// The response at hand.
    pub closed spec fn source(&self) -> Option<Arc<SourceIr<N::Sample>>> {
        self.source_ir
    }

    /// Where the convolution stands, while there is a backend.
    pub closed spec fn room(&self) -> Option<Room<N>> {
        match self.backend {
            Some(backend) => Some(backend.room()),
            None => None,
        }
    }

    /// What holds between calls.
    pub closed spec fn wf(&self) -> bool {
        &&& self.mix <= UNITY
        &&& self.source_ir matches Some(source) ==> source.wf()
        &&& self.backend matches Some(backend) ==> {
            &&& backend.wf()
            &&& backend.channels == self.channels
        }
    }

    /// The room of an effect is balanced, as the laws of this module ask for it.
    pub proof fn the_room_is_balanced(&self)
        requires
            self.wf(),
        ensures
            self.room() matches Some(room) ==> {
                &&& balanced(room)
                &&& room.fed.len() == self.channels()
            },
            self.mix() <= UNITY,
    {
        if let Some(backend) = self.backend {
            let room = backend.room();
            assert forall|c: int| 0 <= c < room.fed.len() implies (#[trigger] room.fed[c]).len()
                == room.fed[0].len() && room.fed[c].len() % BLOCK as nat == 0 by {
                assert(backend.lane_fits(c));
            }
            assert forall|k: int| 0 <= k < room.kernels.len() implies (#[trigger] room.kernels[k]).len()
                == room.kernels[0].len() && room.kernels[k].len() > 0 by {
                assert(backend.ir_kernels@[k].wf());
            }
        }
    }

    /// The same setting, response and device shape.
    pub open spec fn set_as(&self, other: Self) -> bool {
        &&& self.enabled() == other.enabled()
        &&& self.mix() == other.mix()
        &&& self.rate() == other.rate()
        &&& self.channels() == other.channels()
        &&& self.path() == other.path()
        &&& self.source() == other.source()
    }

    /// The mix in force: that of the setting while enabled, dry otherwise.
    pub open spec fn mix_in_force(&self) -> u64 {
        if self.enabled() {
            self.mix()
        } else {
            0
        }
    }

    /// A disabled effect with no response, which knows no device shape yet.
    pub open spec fn newly_off(&self) -> bool {
        &&& !self.enabled()
        &&& self.mix() == UNITY / 2
        &&& self.rate() == 0
        &&& self.channels() == 0
        &&& self.path() is None
        &&& self.source() is None
        &&& self.room() is None
    }

    /// `before` with another setting. The same path keeps the response. Another
    /// path takes what was loaded; a failed load leaves the effect off, with
    /// neither response nor path.
    pub open spec fn tuned(
        &self,
        before: Self,
        enabled: bool,
        path: Option<Seq<char>>,
        loaded: Option<Result<SourceIr<N::Sample>, String>>,
        mix: u64,
        result: Result<(), Seq<char>>,
    ) -> bool {
        &&& self.rate() == before.rate()
        &&& self.channels() == before.channels()
        &&& self.mix() == if mix > UNITY {
            UNITY
        } else {
            mix
        }
        &&& if path == before.path() {
            &&& result is Ok
            &&& self.enabled() == enabled
            &&& self.path() == path
            &&& self.source() == before.source()
            &&& self.room() == before.room()
        } else {
            &&& self.room() is None
            &&& match loaded {
                Some(Err(message)) if path is Some => {
                    &&& result == Err::<(), Seq<char>>(message@)
                    &&& !self.enabled()
                    &&& self.path() is None
                    &&& self.source() is None
                },
                Some(Ok(source)) if path is Some => {
                    &&& result is Ok
                    &&& self.enabled() == enabled
                    &&& self.path() == path
                    &&& self.source() is Some
                    &&& *self.source()->0 == source
                },
                _ => {
                    &&& result is Ok
                    &&& self.enabled() == enabled
                    &&& self.path() == path
                    &&& self.source() is None
                },
            }
        }
    }

    /// A disabled effect with no response.
    pub fn new() -> (effect: Self)
        ensures
            effect.wf(),
            effect.newly_off(),
    {
        Convolution {
            enabled: false,
            mix: UNITY / 2,
            rate: 0,
            channels: 0,
            ir_path: None,
            source_ir: None,
            backend: None,
        }
    }

    fn same_path(&self, ir_path: &Option<String>) -> (same: bool)
        ensures
            same == (path_text(*ir_path) == self.path()),
    {
        match (&self.ir_path, ir_path) {
            (Some(a), Some(b)) => *a == *b,
            (None, None) => true,
            _ => false,
        }
    }

    /// Whether a setting with this path needs the response to be loaded.
    pub fn needs_load(&self, ir_path: &Option<String>) -> (needs: bool)
        ensures
            needs == (*ir_path is Some && path_text(*ir_path) != self.path()),
    {
        ir_path.is_some() && !self.same_path(ir_path)
    }

    /// Applies a setting. `loaded` is what loading the response came to, where
    /// [`needs_load`](Self::needs_load) asked for it; an unchanged path is not
    /// loaded again. A failed load leaves the effect disabled, without a
    /// response and without a path, so that another try is not skipped.
    pub fn set(
        &mut self,
        enabled: bool,
        ir_path: Option<String>,
        loaded: Option<Result<SourceIr<N::Sample>, String>>,
        mix: u64,
    ) -> (result: Result<(), String>)
        requires
            old(self).wf(),
            ir_path is Some && path_text(ir_path) != old(self).path() ==> loaded is Some,
            loaded matches Some(Ok(source)) ==> source.wf(),
        ensures
            final(self).wf(),
            final(self).tuned(*old(self), enabled, path_text(ir_path), loaded, mix, outcome(result)),
    {
        self.mix = if mix > UNITY {
            UNITY
        } else {
            mix
        };
        if !self.same_path(&ir_path) {
            self.backend = None;
            self.source_ir = None;
            if ir_path.is_some() {
                match loaded {
                    Some(Ok(source)) => {
                        self.source_ir = Some(Arc::new(source));
                    },
                    Some(Err(message)) => {
                        self.enabled = false;
                        self.ir_path = None;
                        return Err(message);
                    },
                    None => {},
                }
            }
            self.ir_path = ir_path;
        }
        self.enabled = enabled;
        Ok(())
    }

    /// The current setting.
    pub fn setting(&self) -> (setting: (bool, u64))
        ensures
            setting == (self.enabled(), self.mix()),
    {
        (self.enabled, self.mix)
    }

    /// The transformed kernels in use, which a mirror shares: one for each
    /// channel of the response.
    pub fn ir_kernels(&self) -> (kernels: Option<&Vec<Arc<Kernel<N>>>>)
        ensures
            match self.room() {
                Some(room) => kernels is Some && taps_of(kernels->0@) == room.kernels,
                None => kernels is None,
            },
    {
        match &self.backend {
            Some(backend) => Some(&backend.ir_kernels),
            None => None,
        }
    }

    fn effective_mix(&self) -> (mix: u64)
        requires
            self.wf(),
        ensures
            mix == self.mix_in_force(),
            mix <= UNITY,
    {
        if self.enabled {
            self.mix
        } else {
            0
        }
    }
}

impl<N: Spectral> Default for Convolution<N> {
    fn default() -> (effect: Self)
        ensures
            effect.wf(),
            effect.newly_off(),
    {
        Convolution::new()
    }
}

impl<N: Spectral + Resampling> Effect for Convolution<N> {
    type Sample = N::Sample;

    open spec fn inv(&self) -> bool {
        self.wf()
    }

    open spec fn label(&self) -> Seq<char> {
        "convolution"@
    }

    /// It may stand in a chain any number of times.
    open spec fn place(&self) -> Option<int> {
        None
    }

    open spec fn active(&self) -> bool {
        self.enabled() || self.room() is Some
    }

    open spec fn bypassed(&self) -> bool {
        self.room() is None
    }

    open spec fn ratio(&self) -> nat {
        UNITY as nat
    }

    /// Input that waits for the rest of its block.
    open spec fn pending(&self) -> nat {
        match self.room() {
            Some(room) => room.staged.len() / room.fed.len(),
            None => 0,
        }
    }

    open spec fn fits(&self, rate: u32, channels: usize) -> bool {
        &&& self.rate() == rate
        &&& self.channels() == channels
        &&& self.room() is Some || !self.enabled()
    }

    open spec fn processed(
        before: Self,
        input: Seq<N::Sample>,
        after: Self,
        output: Seq<N::Sample>,
        result: Result<(), Seq<char>>,
    ) -> bool {
        &&& result is Ok
        &&& after.set_as(before)
        &&& match before.room() {
            None => after.room() is None && output == input,
            Some(room) => {
                &&& after.room() == Some(room.given(input))
                &&& output == room.output(input, before.mix_in_force())
            },
        }
    }

    open spec fn flushed(
        before: Self,
        after: Self,
        output: Seq<N::Sample>,
        result: Result<(), Seq<char>>,
    ) -> bool {
        &&& result is Ok
        &&& after.set_as(before)
        &&& match before.room() {
            None => after.room() is None && output == Seq::<N::Sample>::empty(),
            Some(room) => {
                &&& after.room() == Some(Room::<N>::fresh(room.kernels, room.fed.len()))
                &&& output == room.ring_out(before.mix_in_force())
            },
        }
    }

    open spec fn restarted(before: Self, after: Self) -> bool {
        &&& after.set_as(before)
        &&& after.room() == match before.room() {
            Some(room) if before.enabled() => Some(
                Room::<N>::fresh(room.kernels, room.fed.len()),
            ),
            _ => None,
        }
    }

    open spec fn rebuilt(
        before: Self,
        rate: u32,
        channels: usize,
        after: Self,
        result: Result<(), Seq<char>>,
    ) -> bool {
        &&& after.enabled() == before.enabled()
        &&& after.mix() == before.mix()
        &&& after.path() == before.path()
        &&& after.source() == before.source()
        &&& after.rate() == rate
        &&& after.channels() == channels
        &&& match before.source() {
            Some(source) if before.enabled() && rate > 0 && channels > 0 => match response_at::<N>(
                *source,
                rate,
            ) {
                Ok(kernels) => {
                    &&& result is Ok
                    &&& after.room() == Some(Room::<N>::fresh(kernels, channels as nat))
                },
                Err(message) => {
                    &&& result == Err::<(), Seq<char>>(message)
                    &&& after.room() is None
                },
            },
            _ => result is Ok && after.room() is None,
        }
    }

    open spec fn mirrored(effect: Self, mirror: Self) -> bool {
        &&& mirror.set_as(effect)
        &&& mirror.room() == match effect.room() {
            Some(room) => Some(Room::<N>::fresh(room.kernels, room.fed.len())),
            None => None,
        }
    }

    fn name(&self) -> (name: &'static str) {
        "convolution"
    }

    fn is_active(&self) -> (active: bool) {
        self.enabled || self.backend.is_some()
    }

    fn is_bypassed(&self) -> (bypassed: bool) {
        self.backend.is_none()
    }

    fn process(&mut self, input: &[N::Sample], output: &mut Vec<N::Sample>) -> (result: Result<
        (),
        String,
    >) {
        let ghost begun = output@;
        let mix: u64 = self.effective_mix();
        match &mut self.backend {
            Some(backend) => {
                backend.process(input, output, mix);
            },
            None => {
                append_copy(output, input);
            },
        }
        proof {
            let n = begun.len() as int;
            match old(self).room() {
                None => {
                    assert(output@.skip(n) =~= input@);
                },
                Some(room) => {
                    assert(output@.skip(n) =~= room.output(input@, mix));
                },
            }
        }
        Ok(())
    }

    fn drain(&mut self, output: &mut Vec<N::Sample>) -> (result: Result<(), String>) {
        let ghost begun = output@;
        let mix: u64 = self.effective_mix();
        match &mut self.backend {
            Some(backend) => {
                backend.drain(output, mix);
            },
            None => {},
        }
        proof {
            let n = begun.len() as int;
            match old(self).room() {
                None => {
                    assert(output@.skip(n) =~= Seq::<N::Sample>::empty());
                },
                Some(room) => {
                    assert(output@.skip(n) =~= room.ring_out(mix));
                },
            }
        }
        Ok(())
    }

    fn reset(&mut self) {
        if !self.enabled {
            self.backend = None;
            return ;
        }
        match &mut self.backend {
            Some(backend) => {
                backend.reset();
            },
            None => {},
        }
    }

    fn time_ratio(&self) -> (ratio: u64) {
        UNITY
    }

    fn pending_output_frames(&self) -> (frames: u64) {
        match &self.backend {
            Some(backend) => (backend.stage.len() / backend.channels) as u64,
            None => 0,
        }
    }

    fn matches(&self, rate: u32, channels: usize) -> (fits: bool) {
        self.rate == rate && self.channels == channels && (self.backend.is_some() || !self.enabled)
    }

    fn reconfigure(&mut self, rate: u32, channels: usize) -> (result: Result<(), String>) {
        self.rate = rate;
        self.channels = channels;
        self.backend = None;
        if self.enabled && rate > 0 && channels > 0 {
            if let Some(source) = &self.source_ir {
                match Backend::build(source, rate, channels) {
                    Ok(backend) => {
                        self.backend = Some(backend);
                    },
                    Err(message) => {
                        return Err(message);
                    },
                }
            }
        }
        Ok(())
    }

    fn spawn_mirror(&self) -> (mirror: Self) {
        Convolution {
            enabled: self.enabled,
            mix: self.mix,
            rate: self.rate,
            channels: self.channels,
            ir_path: self.ir_path.clone(),
            source_ir: match &self.source_ir {
                Some(source) => Some(share(source)),
                None => None,
            },
            backend: match &self.backend {
                Some(backend) => Some(backend.mirror()),
                None => None,
            },
        }
    }
}

/// A room as it is between calls: whole blocks on every channel, and less than
/// a block of frames waiting.
pub open spec fn balanced<N: Spectral>(room: Room<N>) -> bool {
    &&& room.fed.len() > 0
    &&& room.kernels.len() > 0
    &&& room.staged.len() / room.fed.len() < BLOCK
    &&& forall|c: int|
        0 <= c < room.fed.len() ==> {
            &&& (#[trigger] room.fed[c]).len() == room.fed[0].len()
            &&& room.fed[c].len() % BLOCK as nat == 0
        }
    &&& forall|k: int|
        0 <= k < room.kernels.len() ==> {
            &&& (#[trigger] room.kernels[k]).len() == room.kernels[0].len()
            &&& room.kernels[k].len() > 0
        }
}

/// Fully dry, the effect hands on the very samples that came in.
pub proof fn a_dry_mix_changes_nothing<N: Spectral + Exact>(room: Room<N>, input: Seq<N::Sample>)
    requires
        balanced(room),
    ensures
        room.output(input, 0) == room.front(input),
{
    let ch = room.fed.len();
    let front = room.front(input);
    let blocks = room.blocks(input);
    let frames = blocks * BLOCK as nat;
    lemma_whole_blocks_fit((room.staged + input).len(), ch);
    N::circle_starts_at_one(4 * UNITY as nat);
    let lanes = Seq::new(ch, |c: int| room.lane(input, 0, c));
    assert forall|c: int| 0 <= c < ch implies #[trigger] lanes[c] == channels_of(front, ch)[c] by {
        let dry = channel_of(front, ch, c);
        let fed = room.given(input).fed[c];
        assert(room.fed[c].len() % BLOCK as nat == 0);
        lemma_more_blocks(room.fed[c].len(), blocks);
        lemma_stream_len::<N>(
            taps_for(room.kernels, c),
            fed,
            0,
            BLOCK as nat,
            room.fed[c].len() / BLOCK as nat,
            fed.len() / BLOCK as nat,
        );
        let wet = stream::<N>(
            taps_for(room.kernels, c),
            fed,
            0,
            BLOCK as nat,
            room.fed[c].len() / BLOCK as nat,
            fed.len() / BLOCK as nat,
        );
        assert forall|i: int| 0 <= i < frames implies lanes[c][i] == dry[i] by {
            N::one_is_neutral(dry[i]);
            N::zero_absorbs(wet[i]);
            N::zero_is_neutral(dry[i]);
        }
        assert(lanes[c] =~= dry);
    }
    assert(lanes =~= channels_of(front, ch));
    weaving_undoes_parting(front, ch);
    assert(front.take((front.len() / ch) * ch as int) =~= front);
}

/// Fully wet, a channel is the convolution alone.
pub proof fn a_wet_mix_is_the_convolution<N: Spectral + Exact>(
    room: Room<N>,
    input: Seq<N::Sample>,
    c: int,
)
    requires
        0 <= c < room.fed.len(),
    ensures
        room.lane(input, UNITY, c) == stream::<N>(
            taps_for(room.kernels, c),
            room.given(input).fed[c],
            0,
            BLOCK as nat,
            room.fed[c].len() / BLOCK as nat,
            room.given(input).fed[c].len() / BLOCK as nat,
        ),
{
    N::circle_turns_to_zero(UNITY as nat);
    let dry = channel_of(room.front(input), room.fed.len(), c);
    let wet = stream::<N>(
        taps_for(room.kernels, c),
        room.given(input).fed[c],
        0,
        BLOCK as nat,
        room.fed[c].len() / BLOCK as nat,
        room.given(input).fed[c].len() / BLOCK as nat,
    );
    assert forall|i: int| 0 <= i < wet.len() implies room.lane(input, UNITY, c)[i] == wet[i] by {
        N::zero_absorbs(sample_at::<N>(dry, i));
        N::one_is_neutral(wet[i]);
        N::zero_is_neutral(wet[i]);
    }
    assert(room.lane(input, UNITY, c) =~= wet);
}

/// What whole blocks leave over is counted from there.
proof fn lemma_blocks_add_up(len: nat, more: nat, channels: nat)
    requires
        channels > 0,
    ensures
        ({
            let first = len / channels / BLOCK as nat;
            let rest = (len - first * BLOCK * channels) as nat;
            (len + more) / channels / BLOCK as nat == first + (rest + more) / channels
                / BLOCK as nat
        }),
{
    lemma_whole_blocks_fit(len, channels);
    let first = len / channels / BLOCK as nat;
    let kept = first * BLOCK;
    let rest = (len - kept * channels) as nat;
    let frames = (rest + more) / channels;
    vstd::arithmetic::div_mod::lemma_fundamental_div_mod((rest + more) as int, channels as int);
    let over = (rest + more) % channels;
    assert(len + more == (kept + frames) * channels + over) by (nonlinear_arith)
        requires
            rest == len - kept * channels,
            rest + more == channels * frames + over,
    ;
    vstd::arithmetic::div_mod::lemma_fundamental_div_mod_converse(
        (len + more) as int,
        channels as int,
        kept + frames,
        over as int,
    );
    assert((kept + frames) / BLOCK as int == first + frames / BLOCK as nat);
}

/// Input in two pieces leaves the room as the whole of it does, and the front
/// of it is as long.
proof fn lemma_given_in_pieces<N: Spectral>(
    room: Room<N>,
    first: Seq<N::Sample>,
    rest: Seq<N::Sample>,
)
    requires
        room.fed.len() > 0,
    ensures
        room.blocks(first + rest) == room.blocks(first) + room.given(first).blocks(rest),
        room.front(first + rest) == room.front(first) + room.given(first).front(rest),
        room.given(first).given(rest) == room.given(first + rest),
        room.front(first).len() == room.blocks(first) * BLOCK * room.fed.len(),
        room.front(first).len() % room.fed.len() == 0,
        room.front(first).len() / room.fed.len() == room.blocks(first) * BLOCK,
{
    let ch = room.fed.len();
    let head = room.staged + first;
    let next = room.given(first);
    let all = room.staged + (first + rest);
    assert(head + rest =~= all);
    lemma_whole_blocks_fit(head.len(), ch);
    lemma_blocks_add_up(head.len(), rest.len(), ch);
    let k1 = room.blocks(first);
    let k2 = next.blocks(rest);
    let cut = k1 * BLOCK * ch;
    assert(next.staged == head.skip(cut as int));
    assert(next.fed.len() == ch);
    assert((next.staged + rest).len() == head.len() - cut + rest.len());
    lemma_whole_blocks_fit((next.staged + rest).len(), ch);
    lemma_whole_blocks_fit(all.len(), ch);
    assert((k1 + k2) * BLOCK * ch == k1 * BLOCK * ch + k2 * BLOCK * ch) by (nonlinear_arith);
    assert(room.front(first + rest) =~= room.front(first) + next.front(rest));
    let both = next.given(rest);
    let whole = room.given(first + rest);
    assert(both.staged =~= whole.staged);
    assert forall|c: int| 0 <= c < ch implies both.fed[c] == whole.fed[c] by {
        lemma_channel_of_sum(room.front(first), next.front(rest), ch, c);
        assert(both.fed[c] =~= whole.fed[c]);
    }
    assert(both.fed =~= whole.fed);
    assert(both =~= whole);
}

/// Cutting the input into pieces changes nothing of what comes out, nor of what
/// is left inside.
pub proof fn pieces_do_not_matter<N: Spectral>(
    room: Room<N>,
    first: Seq<N::Sample>,
    rest: Seq<N::Sample>,
    mix: u64,
)
    requires
        balanced(room),
    ensures
        room.given(first).given(rest) == room.given(first + rest),
        room.output(first, mix) + room.given(first).output(rest, mix) == room.output(
            first + rest,
            mix,
        ),
{
    let ch = room.fed.len();
    let next = room.given(first);
    lemma_given_in_pieces(room, first, rest);
    lemma_given_in_pieces(next, rest, Seq::empty());
    let a = Seq::new(ch, |c: int| room.lane(first, mix, c));
    let b = Seq::new(ch, |c: int| next.lane(rest, mix, c));
    let whole = Seq::new(ch, |c: int| room.lane(first + rest, mix, c));
    lemma_given_keeps_balance(room, first);
    assert forall|c: int| 0 <= c < ch implies (#[trigger] a[c]).len() == room.blocks(first)
        * BLOCK && whole[c] == a[c] + b[c] by {
        lemma_lane_in_pieces(room, first, rest, mix, c);
    }
    assert forall|c: int| 0 <= c < ch implies (#[trigger] b[c]).len() == next.blocks(rest)
        * BLOCK by {
        lemma_lane_in_pieces(next, rest, Seq::empty(), mix, c);
    }
    assert(whole =~= Seq::new(ch, |c: int| a[c] + b[c]));
    let f = room.blocks(first) * BLOCK as nat;
    let g = next.blocks(rest) * BLOCK as nat;
    lemma_woven_joins(a, b, f, g);
    assert(room.blocks(first + rest) * BLOCK as nat == f + g) by (nonlinear_arith)
        requires
            room.blocks(first + rest) == room.blocks(first) + next.blocks(rest),
            f == room.blocks(first) * BLOCK as nat,
            g == next.blocks(rest) * BLOCK as nat,
    ;
}

/// A room stays as it is between calls.
proof fn lemma_given_keeps_balance<N: Spectral>(room: Room<N>, input: Seq<N::Sample>)
    requires
        balanced(room),
    ensures
        balanced(room.given(input)),
{
    let ch = room.fed.len();
    let next = room.given(input);
    lemma_whole_blocks_fit((room.staged + input).len(), ch);
    assert forall|c: int| 0 <= c < ch implies (#[trigger] next.fed[c]).len() == next.fed[0].len()
        && next.fed[c].len() % BLOCK as nat == 0 by {
        assert(room.fed[c].len() == room.fed[0].len());
        lemma_more_blocks(room.fed[c].len(), room.blocks(input));
    }
}

proof fn lemma_lane_in_pieces<N: Spectral>(
    room: Room<N>,
    first: Seq<N::Sample>,
    rest: Seq<N::Sample>,
    mix: u64,
    c: int,
)
    requires
        balanced(room),
        0 <= c < room.fed.len(),
    ensures
        room.lane(first, mix, c).len() == room.blocks(first) * BLOCK,
        room.lane(first + rest, mix, c) == room.lane(first, mix, c) + room.given(first).lane(
            rest,
            mix,
            c,
        ),
{
    let ch = room.fed.len();
    let block = BLOCK as nat;
    let next = room.given(first);
    lemma_given_in_pieces(room, first, rest);
    lemma_given_in_pieces(next, rest, Seq::empty());
    lemma_channel_of_sum(room.front(first), next.front(rest), ch, c);
    let taps = taps_for(room.kernels, c);
    let dry1 = channel_of(room.front(first), ch, c);
    let dry2 = channel_of(next.front(rest), ch, c);
    let fed0 = room.fed[c];
    let fed1 = next.fed[c];
    let fed2 = next.given(rest).fed[c];
    assert(fed0.len() % block == 0);
    lemma_more_blocks(fed0.len(), room.blocks(first));
    lemma_more_blocks(fed1.len(), next.blocks(rest));
    let n0 = fed0.len() / block;
    let n1 = fed1.len() / block;
    let n2 = fed2.len() / block;
    assert(n1 == n0 + room.blocks(first));
    assert(n2 == n1 + next.blocks(rest));
    lemma_stream_splits::<N>(taps, fed2, 0, block, n0, n1, n2);
    assert(fed2 == fed1 + dry2);
    assert(agree::<N>(fed1, fed2, n1 * block as int)) by {
        assert(n1 * block == fed1.len());
        assert forall|t: int| t < n1 * block implies #[trigger] sample_at::<N>(fed1, t)
            == sample_at::<N>(fed2, t) by {}
    }
    output_is_causal::<N>(taps, fed1, fed2, 0, block, n0, n1);
    lemma_stream_len::<N>(taps, fed1, 0, block, n0, n1);
    let wet1 = stream::<N>(taps, fed1, 0, block, n0, n1);
    let wet2 = stream::<N>(taps, fed2, 0, block, n1, n2);
    assert(wet1.len() == room.blocks(first) * BLOCK);
    assert(dry1.len() == wet1.len());
    let joined = blended_lane::<N>(dry1 + dry2, wet1 + wet2, mix);
    let parts = blended_lane::<N>(dry1, wet1, mix) + blended_lane::<N>(dry2, wet2, mix);
    assert forall|i: int| 0 <= i < joined.len() implies joined[i] == parts[i] by {
        if i < wet1.len() {
            assert(sample_at::<N>(dry1 + dry2, i) == sample_at::<N>(dry1, i));
        } else {
            assert(sample_at::<N>(dry1 + dry2, i) == sample_at::<N>(dry2, i - wet1.len()));
        }
    }
    assert(joined =~= parts);
}

/// Drained, every channel has put out one sample for each that it heard and
/// each of its impulse response, less one.
pub proof fn the_tail_rings_out<N: Spectral>(room: Room<N>, mix: u64, c: int)
    requires
        balanced(room),
        0 <= c < room.fed.len(),
        room.heard(c).len() > 0,
    ensures
        room.fed[c].len() + room.lane_tail(mix, c).len() == room.heard(c).len() + taps_for(
            room.kernels,
            c,
        ).len() - 1,
{
    assert(room.fed[c].len() % BLOCK as nat == 0);
    let taps = taps_for(room.kernels, c);
    assert(taps.len() == room.kernels[0].len() && taps.len() > 0);
    lemma_tail_len::<N>(taps, room.heard(c), 0, BLOCK as nat);
}

/// Fully dry, a drain puts out the frames that waited for their block and then
/// silence: one sample for each of them and each of the impulse response, less
/// one.
pub proof fn a_dry_drain_adds_only_silence<N: Spectral + Exact>(room: Room<N>, c: int)
    requires
        balanced(room),
        0 <= c < room.fed.len(),
        room.heard(c).len() > 0,
    ensures
        ({
            let waiting = channel_of(room.staged, room.fed.len(), c);
            let rest = room.lane_tail(0, c);
            &&& rest.len() == waiting.len() + taps_for(room.kernels, c).len() - 1
            &&& forall|i: int|
                0 <= i < rest.len() ==> #[trigger] rest[i] == sample_at::<N>(waiting, i)
        }),
{
    the_tail_rings_out(room, 0, c);
    N::circle_starts_at_one(4 * UNITY as nat);
    let waiting = channel_of(room.staged, room.fed.len(), c);
    let wet = tail::<N>(taps_for(room.kernels, c), room.heard(c), 0, BLOCK as nat);
    let rest = room.lane_tail(0, c);
    assert forall|i: int| 0 <= i < rest.len() implies #[trigger] rest[i] == sample_at::<N>(
        waiting,
        i,
    ) by {
        N::one_is_neutral(sample_at::<N>(waiting, i));
        N::zero_absorbs(wet[i]);
        N::zero_is_neutral(sample_at::<N>(waiting, i));
    }
}

/// Dry and wet are mixed by equal power: whatever the mix, the squares of their
/// gains add up to one, in [`Fixed`] to within [`ROUNDNESS`].
pub proof fn a_mix_holds_its_power(mix: u64)
    ensures
        ({
            let (dry, wet) = gains_at::<Fixed>(mix);
            -ROUNDNESS <= dry * dry + wet * wet - FIXED_ONE * FIXED_ONE <= ROUNDNESS
        }),
{
    the_fixed_circle_is_round(mix as nat, 4 * UNITY as nat);
}

} // verus!
