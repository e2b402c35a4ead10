//! Time stretch: tempo without pitch, as a chain effect.
//!
//! The stretching itself is a pull-based engine that fills silence when it is
//! pulled past what it was fed. So every pull here is gated on the engine's own
//! word on how much source it needs: silence in mid-stream cannot come up.
//!
//! Off is structural: a disabled effect sheds its backend at the next reset.
//! Disabling in mid-play goes to normal speed first. Enabling in mid-play
//! starts the engine cold: the delay that it reports is cut from the first
//! output, and a short fade covers the splice.
use vstd::prelude::*;

use crate::chain::{Effect, UNITY};
use crate::frames::append_copy;
use crate::numeric::Numeric;

verus! {

/// Frames in one gated pull.
pub const PULL_FRAMES: usize = 1024;

/// Frames of source that the engine can hold.
pub const SOURCE_CAPACITY_FRAMES: usize = 16384;

/// Frames of linear fade-in after a cold start.
pub const FADE_FRAMES: usize = 256;

/// The slowest tempo offered, in parts of [`UNITY`]: a quarter.
pub const SLOWEST: u64 = 0x4000_0000;

/// The fastest tempo offered, in parts of [`UNITY`]: double.
pub const FASTEST: u64 = 0x2_0000_0000;

/// The most channels that an engine takes.
pub const ENGINE_CHANNELS: usize = 8;

/// How often the engine is asked to finish before its buffer is taken as is.
pub const FINISH_TRIES: usize = 64;

/// A system with an engine that stretches time.
pub trait Stretching: Numeric {
    /// An engine at work.
    type Engine;

    /// Where an engine stands, apart from how it is kept.
    type Stretch;

    /// Where an engine stands.
    closed spec fn stretch(engine: Self::Engine) -> Self::Stretch {
        arbitrary()
    }

    /// How many channels it takes.
    closed spec fn lanes(stretch: Self::Stretch) -> nat {
        arbitrary()
    }

    /// The tempo that an engine is at, or on its way to, in parts of [`UNITY`].
    closed spec fn pace(stretch: Self::Stretch) -> nat {
        arbitrary()
    }

    /// The value of [`occupied_frames`](Self::occupied_frames).
    closed spec fn occupied(stretch: Self::Stretch) -> nat {
        arbitrary()
    }

    /// The value of [`latency_frames`](Self::latency_frames).
    closed spec fn latency(stretch: Self::Stretch) -> nat {
        arbitrary()
    }

    /// The value of [`demand_hint`](Self::demand_hint).
    closed spec fn demand(stretch: Self::Stretch, frames: nat, tempo: nat) -> nat {
        arbitrary()
    }

    /// The outcome of [`open`](Self::open).
    closed spec fn opened(rate: u32, channels: nat, tempo: nat) -> Result<
        Self::Stretch,
        Seq<char>,
    > {
        arbitrary()
    }

    /// The outcome of [`push_source`](Self::push_source): the frames taken, and where
    /// the engine stands then.
    closed spec fn pushed(stretch: Self::Stretch, samples: Seq<Self::Sample>) -> (
        nat,
        Self::Stretch,
    ) {
        arbitrary()
    }

    /// The outcome of [`render`](Self::render): the audio, and where the engine
    /// stands then.
    closed spec fn rendered(stretch: Self::Stretch, frames: nat) -> (
        Seq<Self::Sample>,
        Self::Stretch,
    ) {
        arbitrary()
    }

    /// The outcome of [`finish`](Self::finish), and where the engine stands then.
    closed spec fn finished(stretch: Self::Stretch) -> (bool, Self::Stretch) {
        arbitrary()
    }

    /// Where the engine stands after [`clear`](Self::clear).
    closed spec fn cleared(stretch: Self::Stretch) -> Self::Stretch {
        arbitrary()
    }

    /// Where the engine stands after [`retarget`](Self::retarget).
    closed spec fn retargeted(stretch: Self::Stretch, tempo: nat) -> Self::Stretch {
        arbitrary()
    }

    /// Builds an engine for a device shape, with room for
    /// [`SOURCE_CAPACITY_FRAMES`] of source and blocks of [`PULL_FRAMES`].
    fn open(rate: u32, channels: usize, tempo: u64) -> (result: Result<Self::Engine, String>)
        requires
            SLOWEST <= tempo <= FASTEST,
        ensures
            match result {
                Ok(engine) => {
                    &&& Self::opened(rate, channels as nat, tempo as nat) == Ok::<
                        Self::Stretch,
                        Seq<char>,
                    >(Self::stretch(engine))
                    &&& Self::lanes(Self::stretch(engine)) == channels
                    &&& Self::pace(Self::stretch(engine)) == tempo
                    &&& 0 < channels <= ENGINE_CHANNELS
                },
                Err(message) => Self::opened(rate, channels as nat, tempo as nat) == Err::<
                    Self::Stretch,
                    Seq<char>,
                >(message@),
            },
    ;

    /// Frames of source that wait in the engine.
    fn occupied_frames(engine: &Self::Engine) -> (frames: usize)
        ensures
            frames == Self::occupied(Self::stretch(*engine)),
    ;

    /// Frames of output that the engine swallows before the first.
    fn latency_frames(engine: &Self::Engine) -> (frames: usize)
        ensures
            frames == Self::latency(Self::stretch(*engine)),
    ;

    /// Frames of source that `frames` frames of output can call for at any
    /// tempo up to `tempo`.
    fn demand_hint(engine: &Self::Engine, frames: usize, tempo: u64) -> (need: usize)
        ensures
            need == Self::demand(Self::stretch(*engine), frames as nat, tempo as nat),
    ;

    /// Offers interleaved source; says how many frames were taken.
    fn push_source(engine: &mut Self::Engine, samples: &[Self::Sample]) -> (taken: usize)
        ensures
            Self::lanes(Self::stretch(*final(engine))) == Self::lanes(Self::stretch(*old(engine))),
            Self::pace(Self::stretch(*final(engine))) == Self::pace(Self::stretch(*old(engine))),
            taken * Self::lanes(Self::stretch(*old(engine))) <= samples@.len(),
            (taken as nat, Self::stretch(*final(engine))) == Self::pushed(
                Self::stretch(*old(engine)),
                samples@,
            ),
    ;

    /// Renders `frames` frames, with silence where source is missing.
    fn render(engine: &mut Self::Engine, frames: usize) -> (block: Vec<Self::Sample>)
        requires
            0 < frames <= PULL_FRAMES,
        ensures
            Self::lanes(Self::stretch(*final(engine))) == Self::lanes(Self::stretch(*old(engine))),
            Self::pace(Self::stretch(*final(engine))) == Self::pace(Self::stretch(*old(engine))),
            block@.len() == frames * Self::lanes(Self::stretch(*old(engine))),
            (block@, Self::stretch(*final(engine))) == Self::rendered(
                Self::stretch(*old(engine)),
                frames as nat,
            ),
    ;

    /// Marks the end of the source. False where the engine had no room to
    /// note it all.
    fn finish(engine: &mut Self::Engine) -> (done: bool)
        ensures
            Self::lanes(Self::stretch(*final(engine))) == Self::lanes(Self::stretch(*old(engine))),
            Self::pace(Self::stretch(*final(engine))) == Self::pace(Self::stretch(*old(engine))),
            (done, Self::stretch(*final(engine))) == Self::finished(Self::stretch(*old(engine))),
    ;

    /// Drops everything in flight.
    fn clear(engine: &mut Self::Engine)
        ensures
            Self::lanes(Self::stretch(*final(engine))) == Self::lanes(Self::stretch(*old(engine))),
            Self::pace(Self::stretch(*final(engine))) == Self::pace(Self::stretch(*old(engine))),
            Self::stretch(*final(engine)) == Self::cleared(Self::stretch(*old(engine))),
    ;

    /// Moves to another tempo.
    fn retarget(engine: &mut Self::Engine, tempo: u64)
        requires
            SLOWEST <= tempo <= FASTEST,
        ensures
            Self::lanes(Self::stretch(*final(engine))) == Self::lanes(Self::stretch(*old(engine))),
            Self::pace(Self::stretch(*final(engine))) == tempo,
            Self::stretch(*final(engine)) == Self::retargeted(
                Self::stretch(*old(engine)),
                tempo as nat,
            ),
    ;
}

/// A system whose engine is known to run at the tempo that it is told.
pub trait Steering: Stretching {
    /// An engine opens at the tempo asked for.
    proof fn an_engine_opens_at_its_tempo(rate: u32, channels: nat, tempo: nat)
        ensures
            Self::opened(rate, channels, tempo) matches Ok(engine) ==> Self::pace(engine) == tempo,
    ;

    /// Source, output, the end of the source and a fresh start leave the tempo as
    /// it is.
    proof fn an_engine_keeps_its_tempo(
        engine: Self::Stretch,
        samples: Seq<Self::Sample>,
        frames: nat,
    )
        ensures
            Self::pace(Self::pushed(engine, samples).1) == Self::pace(engine),
            Self::pace(Self::rendered(engine, frames).1) == Self::pace(engine),
            Self::pace(Self::finished(engine).1) == Self::pace(engine),
            Self::pace(Self::cleared(engine)) == Self::pace(engine),
    ;

    /// An engine goes to the tempo that it is told.
    proof fn an_engine_takes_a_tempo(engine: Self::Stretch, tempo: nat)
        ensures
            Self::pace(Self::retargeted(engine, tempo)) == tempo,
    ;
}

/// The audio of one pull behind the splice: the first frames under a fade-in
/// that had got `done` frames far, `here` of them yet to come.
pub open spec fn faded<N: Numeric>(
    fresh: Seq<N::Sample>,
    channels: nat,
    done: nat,
    here: nat,
) -> Seq<N::Sample> {
    Seq::new(
        fresh.len(),
        |j: int|
            if j / channels as int >= here {
                fresh[j]
            } else {
                N::product(
                    fresh[j],
                    N::fraction_value(
                        (done + j / channels as int + 1) as nat,
                        FADE_FRAMES as nat,
                    ),
                )
            },
    )
}

/// The lesser of two numbers.
pub open spec fn lesser(a: nat, b: nat) -> nat {
    if a <= b {
        a
    } else {
        b
    }
}

/// Where the stream through an engine stands.
pub struct Stream<N: Stretching> {
    pub engine: N::Stretch,
    pub channels: nat,
    /// The tempo that the engine is at or on its way to.
    pub target: nat,
    /// Output of the cold start still to be cut.
    pub discard: nat,
    /// Fade-in still to be applied.
    pub fade: nat,
    /// Whether any source went in since the start.
    pub primed: bool,
}

impl<N: Stretching> Stream<N> {
    /// A cold start.
    pub open spec fn cold(engine: N::Stretch, channels: nat, target: nat) -> Self {
        Stream {
            engine,
            channels,
            target,
            discard: N::latency(engine),
            fade: FADE_FRAMES as nat,
            primed: false,
        }
    }

    /// One pull of `frames` frames, less the cold start's delay and under the
    /// fade-in.
    pub open spec fn pulled(self, frames: nat) -> (Self, Seq<N::Sample>) {
        let (block, engine) = N::rendered(self.engine, frames);
        let cut = lesser(self.discard, frames);
        let here = lesser((frames - cut) as nat, self.fade);
        (
            Stream {
                engine,
                discard: (self.discard - cut) as nat,
                fade: (self.fade - here) as nat,
                ..self
            },
            faded::<N>(
                block.skip((cut * self.channels) as int),
                self.channels,
                (FADE_FRAMES - self.fade) as nat,
                here,
            ),
        )
    }

    /// Whether a block can be rendered with no source missing, also while the
    /// tempo overshoots on its way.
    pub open spec fn ready(self) -> bool {
        N::demand(self.engine, PULL_FRAMES as nat, self.target + self.target / 10) <= N::occupied(
            self.engine,
        )
    }

    /// `k` blocks pulled.
    pub open spec fn pulled_blocks(self, k: nat) -> (Self, Seq<N::Sample>)
        decreases k,
    {
        if k == 0 {
            (self, Seq::empty())
        } else {
            let (now, made) = self.pulled_blocks((k - 1) as nat);
            let (next, block) = now.pulled(PULL_FRAMES as nat);
            (next, made + block)
        }
    }

    /// After `k` blocks the next is not ready, and before them each was.
    pub open spec fn pauses(self, k: nat) -> bool {
        &&& !self.pulled_blocks(k).0.ready()
        &&& forall|j: nat| j < k ==> (#[trigger] self.pulled_blocks(j)).0.ready()
    }

    /// Blocks pulled as long as the next is ready.
    pub open spec fn pulled_while_ready(self) -> (Self, Seq<N::Sample>) {
        self.pulled_blocks(choose|k: nat| self.pauses(k))
    }

    /// All of `input` fed, and all pulled that is ready then.
    pub open spec fn fed(self, input: Seq<N::Sample>) -> (Self, Seq<N::Sample>) {
        let start = Feeding { stream: self, left: input, made: Seq::empty(), stalled: false };
        let all = start.after(choose|k: nat| start.ends(k));
        let (last, rest) = all.stream.pulled_while_ready();
        (last, all.made + rest)
    }

    /// The end of the source noted, with pulls to make room for it.
    pub open spec fn closed_off(self, tries: nat) -> (Self, Seq<N::Sample>)
        decreases tries,
    {
        let (done, engine) = N::finished(self.engine);
        let next = Stream { engine, ..self };
        if done || tries == 0 {
            (next, Seq::empty())
        } else {
            let (pulled, made) = next.pulled_while_ready();
            let (last, rest) = pulled.closed_off((tries - 1) as nat);
            (last, made + rest)
        }
    }

    /// `frames` frames pulled, ready or not.
    pub open spec fn pulled_out(self, frames: nat) -> (Self, Seq<N::Sample>)
        decreases frames,
    {
        if frames == 0 {
            (self, Seq::empty())
        } else {
            let take = lesser(frames, PULL_FRAMES as nat);
            let (next, block) = self.pulled(take);
            let (last, rest) = next.pulled_out((frames - take) as nat);
            (last, block + rest)
        }
    }

    /// How much output the source that waits will make, rounded down.
    pub open spec fn buffered(self) -> nat {
        N::occupied(self.engine) * UNITY as nat / self.target
    }

    /// How much output is still inside, rounded up.
    pub open spec fn left(self) -> nat {
        ((N::occupied(self.engine) * UNITY + self.target - 1) / self.target as int + N::latency(
            self.engine,
        )) as nat
    }

    /// Everything dropped, to begin like a cold start.
    pub open spec fn restarted(self) -> Self {
        Stream::cold(N::cleared(self.engine), self.channels, self.target)
    }

    /// The end of the stream: all that is inside comes out, and the next
    /// stream begins cold. A stream that never began holds nothing.
    pub open spec fn drained(self) -> (Self, Seq<N::Sample>) {
        if !self.primed {
            (self, Seq::empty())
        } else {
            let (next, made) = self.closed_off(FINISH_TRIES as nat);
            let (last, rest) = next.pulled_out(next.left());
            (last.restarted(), made + rest)
        }
    }

    /// On the way to another tempo.
    pub open spec fn retargeted(self, target: nat) -> Self {
        Stream { engine: N::retargeted(self.engine, target), target, ..self }
    }
}

/// How far the feeding of an input has got.
pub struct Feeding<N: Stretching> {
    pub stream: Stream<N>,
    /// Input that is still to be fed.
    pub left: Seq<N::Sample>,
    /// What came out of pulls that made room.
    pub made: Seq<N::Sample>,
    /// Whether neither a push nor a pull went on, which drops what is left.
    pub stalled: bool,
}

impl<N: Stretching> Feeding<N> {
    /// Nothing is left to feed, or nothing goes on.
    pub open spec fn over(self) -> bool {
        self.left.len() == 0 || self.stalled
    }

    /// One step on: the engine takes what it has room for, or where that is
    /// nothing, pulls make room.
    pub open spec fn stepped(self) -> Self {
        let (taken, engine) = N::pushed(self.stream.engine, self.left);
        if taken > 0 {
            Feeding {
                stream: Stream { engine, primed: true, ..self.stream },
                left: self.left.skip((taken * self.stream.channels) as int),
                ..self
            }
        } else {
            let (next, block) = (Stream { engine, ..self.stream }).pulled_while_ready();
            Feeding {
                stream: next,
                made: self.made + block,
                stalled: block.len() == 0,
                ..self
            }
        }
    }

    /// `k` steps on.
    pub open spec fn after(self, k: nat) -> Self
        decreases k,
    {
        if k == 0 {
            self
        } else {
            self.after((k - 1) as nat).stepped()
        }
    }

    /// `k` steps on it is over, and not before.
    pub open spec fn ends(self, k: nat) -> bool {
        &&& self.after(k).over()
        &&& forall|j: nat| j < k ==> !(#[trigger] self.after(j)).over()
    }
}

/// There is one number of blocks after which pulling pauses.
proof fn lemma_pauses_once<N: Stretching>(stream: Stream<N>, k: nat)
    requires
        stream.pauses(k),
    ensures
        stream.pulled_while_ready() == stream.pulled_blocks(k),
{
    let found = choose|found: nat| stream.pauses(found);
    assert(stream.pauses(found));
    if found < k {
        assert(stream.pulled_blocks(found).0.ready());
    }
    if k < found {
        assert(stream.pulled_blocks(k).0.ready());
    }
}

/// There is one number of steps after which feeding ends.
pub proof fn lemma_ends_once<N: Stretching>(start: Feeding<N>, k: nat)
    requires
        start.ends(k),
    ensures
        start.after(choose|found: nat| start.ends(found)) == start.after(k),
{
    let found = choose|found: nat| start.ends(found);
    assert(start.ends(found));
    if found < k {
        assert(!start.after(found).over());
    }
    if k < found {
        assert(!start.after(k).over());
    }
}

struct Backend<N: Stretching> {
    engine: N::Engine,
    channels: usize,
    target: u64,
    discard_frames: usize,
    fade_frames: usize,
    primed: bool,
}

impl<N: Stretching> Backend<N> {
    spec fn stream(&self) -> Stream<N> {
        Stream {
            engine: N::stretch(self.engine),
            channels: self.channels as nat,
            target: self.target as nat,
            discard: self.discard_frames as nat,
            fade: self.fade_frames as nat,
            primed: self.primed,
        }
    }

    spec fn wf(&self) -> bool {
        &&& N::lanes(N::stretch(self.engine)) == self.channels
        &&& 0 < self.channels <= ENGINE_CHANNELS
        &&& SLOWEST <= self.target <= FASTEST
        &&& N::pace(N::stretch(self.engine)) == self.target
        &&& self.fade_frames <= FADE_FRAMES
    }

    fn build(rate: u32, channels: usize, ratio: u64) -> (result: Result<Self, String>)
        requires
            SLOWEST <= ratio <= FASTEST,
        ensures
            match result {
                Ok(backend) => {
                    &&& backend.wf()
                    &&& backend.channels == channels
                    &&& N::opened(rate, channels as nat, ratio as nat) == Ok::<
                        N::Stretch,
                        Seq<char>,
                    >(backend.stream().engine)
                    &&& backend.stream() == Stream::<N>::cold(
                        backend.stream().engine,
                        channels as nat,
                        ratio as nat,
                    )
                },
                Err(message) => N::opened(rate, channels as nat, ratio as nat) matches Err(cause)
                    && message@ == "build time-stretch backend: "@ + cause,
            },
    {
        match N::open(rate, channels, ratio) {
            Ok(engine) => {
                let discard_frames: usize = N::latency_frames(&engine);
                Ok(
                    Backend {
                        engine,
                        channels,
                        target: ratio,
                        discard_frames,
                        fade_frames: FADE_FRAMES,
                        primed: false,
                    },
                )
            },
            Err(cause) => {
                let mut message: String = "build time-stretch backend: ".to_owned();
                message.append(cause.as_str());
                Err(message)
            },
        }
    }

    /// Feeds interleaved input and pulls what is ready.
    fn feed(&mut self, input: &[N::Sample], output: &mut Vec<N::Sample>)
        requires
            old(self).wf(),
        ensures
            final(self).wf(),
            final(self).channels == old(self).channels,
            final(self).stream() == old(self).stream().fed(input@).0,
            final(output)@ == old(output)@ + old(self).stream().fed(input@).1,
    {
        let ghost begun = output@;
        let ghost start = Feeding {
            stream: self.stream(),
            left: input@,
            made: Seq::empty(),
            stalled: false,
        };
        let mut steps: Ghost<nat> = Ghost(0nat);
        let mut at: usize = 0;
        assert(input@.skip(0) =~= input@);
        assert(begun + start.made =~= begun);
        assert(output.len() <= usize::MAX);
        loop
            invariant_except_break
                at <= input@.len(),
                start.after(steps@).left == input@.skip(at as int),
                !start.after(steps@).stalled,
            invariant
                self.wf(),
                self.channels == start.stream.channels,
                self.stream() == start.after(steps@).stream,
                output@ == begun + start.after(steps@).made,
                output@.len() <= usize::MAX,
                forall|j: nat| j < steps@ ==> !(#[trigger] start.after(j)).over(),
            ensures
                start.after(steps@).over(),
            decreases input@.len() - at + usize::MAX - output@.len(),
        {
            let ghost now = start.after(steps@);
            if at == input.len() {
                break;
            }
            let offered: &[N::Sample] = vstd::slice::slice_subrange(input, at, input.len());
            assert(offered@ =~= now.left);
            let taken: usize = N::push_source(&mut self.engine, offered);
            steps = Ghost(steps@ + 1);
            assert(start.after(steps@) == now.stepped());
            if taken > 0 {
                self.primed = true;
                at += taken * self.channels;
                assert(now.left.skip((taken * self.channels) as int) =~= input@.skip(at as int));
                assert(taken * self.channels >= 1) by (nonlinear_arith)
                    requires
                        taken > 0,
                        self.channels > 0,
                ;
            } else {
                let before: usize = output.len();
                self.pull_ready(output);
                assert(output@ =~= begun + start.after(steps@).made);
                if output.len() == before {
                    break;
                }
            }
        }
        let ghost all = start.after(steps@);
        proof {
            lemma_ends_once(start, steps@);
        }
        self.pull_ready(output);
        proof {
            let rest = all.stream.pulled_while_ready().1;
            assert((begun + all.made) + rest =~= begun + (all.made + rest));
        }
    }

    /// Pulls blocks while the engine holds enough source for each.
    fn pull_ready(&mut self, output: &mut Vec<N::Sample>)
        requires
            old(self).wf(),
        ensures
            final(self).wf(),
            final(self).channels == old(self).channels,
            final(self).stream() == old(self).stream().pulled_while_ready().0,
            final(output)@ == old(output)@ + old(self).stream().pulled_while_ready().1,
    {
        let ghost start = self.stream();
        let ghost begun = output@;
        let mut blocks: Ghost<nat> = Ghost(0nat);
        assert(begun + Seq::<N::Sample>::empty() =~= begun);
        assert(output.len() <= usize::MAX);
        loop
            invariant
                self.wf(),
                self.channels == start.channels,
                self.stream() == start.pulled_blocks(blocks@).0,
                output@ == begun + start.pulled_blocks(blocks@).1,
                output@.len() <= usize::MAX,
                forall|j: nat| j < blocks@ ==> (#[trigger] start.pulled_blocks(j)).0.ready(),
            ensures
                !self.stream().ready(),
            decreases self.discard_frames + usize::MAX - output@.len(),
        {
            let need: usize = N::demand_hint(
                &self.engine,
                PULL_FRAMES,
                self.target + self.target / 10,
            );
            if N::occupied_frames(&self.engine) < need {
                break;
            }
            let ghost now = self.stream();
            self.pull_block(PULL_FRAMES, output);
            assert(output.len() <= usize::MAX);
            proof {
                let made = start.pulled_blocks(blocks@).1;
                let block = now.pulled(PULL_FRAMES as nat).1;
                assert((begun + made) + block =~= begun + (made + block));
            }
            blocks = Ghost(blocks@ + 1);
        }
        proof {
            lemma_pauses_once(start, blocks@);
        }
    }

    /// One pull, ready or not, less the cold start's delay and under the
    /// fade-in.
    fn pull_block(&mut self, frames: usize, output: &mut Vec<N::Sample>)
        requires
            old(self).wf(),
            0 < frames <= PULL_FRAMES,
        ensures
            final(self).wf(),
            final(self).channels == old(self).channels,
            final(self).stream() == old(self).stream().pulled(frames as nat).0,
            final(output)@ == old(output)@ + old(self).stream().pulled(frames as nat).1,
            final(self).discard_frames < old(self).discard_frames || final(output)@.len() > old(
                output,
            )@.len(),
            final(self).discard_frames <= old(self).discard_frames,
    {
        let ghost start = self.stream();
        let channels: usize = self.channels;
        let ghost ch = channels as nat;
        let block: Vec<N::Sample> = N::render(&mut self.engine, frames);
        let cut: usize = if self.discard_frames <= frames {
            self.discard_frames
        } else {
            frames
        };
        self.discard_frames = self.discard_frames - cut;
        let here: usize = if frames - cut <= self.fade_frames {
            frames - cut
        } else {
            self.fade_frames
        };
        let done: usize = FADE_FRAMES - self.fade_frames;
        self.fade_frames = self.fade_frames - here;
        let ghost fresh = block@.skip((cut * channels) as int);
        let ghost out = faded::<N>(fresh, ch, done as nat, here as nat);
        let ghost begun = output@;
        assert(cut * channels <= frames * channels) by (nonlinear_arith)
            requires
                cut <= frames,
        ;
        assert(frames * channels <= 1024 * 8) by (nonlinear_arith)
            requires
                frames <= 1024,
                channels <= 8,
        ;
        let mut frame: usize = 0;
        assert(out.take(0) =~= Seq::<N::Sample>::empty());
        while frame < frames - cut
            invariant
                frame <= frames - cut,
                cut <= frames <= PULL_FRAMES,
                0 < channels <= ENGINE_CHANNELS,
                ch == channels,
                block@.len() == frames * channels,
                fresh == block@.skip((cut * channels) as int),
                out == faded::<N>(fresh, ch, done as nat, here as nat),
                done + here <= FADE_FRAMES,
                output@ == begun + out.take((frame * channels) as int),
            decreases frames - cut - frame,
        {
            let fading: bool = frame < here;
            let gain = if fading {
                N::fraction((done + frame + 1) as u64, FADE_FRAMES as u64)
            } else {
                N::one()
            };
            assert((frame + 1) * channels == frame * channels + channels) by (nonlinear_arith);
            assert((cut + frame + 1) * channels == cut * channels + frame * channels + channels)
                by (nonlinear_arith);
            assert((cut + frame + 1) * channels <= frames * channels) by (nonlinear_arith)
                requires
                    cut + frame + 1 <= frames,
            ;
            assert(frames * channels <= 1024 * 8) by (nonlinear_arith)
                requires
                    frames <= 1024,
                    channels <= 8,
            ;
            assert((cut + frame) * channels == cut * channels + frame * channels)
                by (nonlinear_arith);
            let mut c: usize = 0;
            while c < channels
                invariant
                    c <= channels,
                    frame < frames - cut,
                    0 < channels <= ENGINE_CHANNELS,
                    ch == channels,
                    block@.len() == frames * channels,
                    block@.len() <= 1024 * 8,
                    (cut + frame) * channels == cut * channels + frame * channels,
                    (cut + frame) * channels + channels <= frames * channels,
                    fresh == block@.skip((cut * channels) as int),
                    cut * channels <= block@.len(),
                    out == faded::<N>(fresh, ch, done as nat, here as nat),
                    fading == (frame < here),
                    fading ==> gain == N::fraction_value(
                        (done + frame + 1) as nat,
                        FADE_FRAMES as nat,
                    ),
                    output@ == begun + out.take(frame * channels + c),
                decreases channels - c,
            {
                let sample = block[(cut + frame) * channels + c];
                let ghost j = frame * channels + c;
                proof {
                    vstd::arithmetic::div_mod::lemma_fundamental_div_mod_converse(
                        j,
                        channels as int,
                        frame as int,
                        c as int,
                    );
                    assert(fresh[j] == sample);
                }
                if fading {
                    output.push(N::times(sample, gain));
                } else {
                    output.push(sample);
                }
                assert(out.take(j + 1) =~= out.take(j).push(out[j]));
                c += 1;
            }
            frame += 1;
        }
        proof {
            assert((frames - cut) * channels == frames * channels - cut * channels)
                by (nonlinear_arith);
            assert(out.take(out.len() as int) =~= out);
            if cut == 0 {
                assert(frames * channels >= 1) by (nonlinear_arith)
                    requires
                        frames > 0,
                        channels > 0,
                ;
            }
        }
    }

    /// The end of the stream: pulls out all that is inside and restarts.
    fn drain(&mut self, output: &mut Vec<N::Sample>)
        requires
            old(self).wf(),
        ensures
            final(self).wf(),
            final(self).channels == old(self).channels,
            final(self).stream() == old(self).stream().drained().0,
            final(output)@ == old(output)@ + old(self).stream().drained().1,
    {
        if !self.primed {
            return ;
        }
        let ghost start = self.stream();
        let ghost begun = output@;
        let ghost goal = start.closed_off(FINISH_TRIES as nat);
        let ghost mut made = Seq::<N::Sample>::empty();
        let mut tries: usize = FINISH_TRIES;
        assert(made + goal.1 =~= goal.1);
        assert(begun + made =~= begun);
        loop
            invariant_except_break
                self.wf(),
                self.channels == start.channels,
                output@ == begun + made,
                ({
                    let (last, rest) = self.stream().closed_off(tries as nat);
                    goal == (last, made + rest)
                }),
            ensures
                self.wf(),
                self.channels == start.channels,
                self.stream() == goal.0,
                output@ == begun + goal.1,
            decreases tries,
        {
            let done: bool = N::finish(&mut self.engine);
            if done || tries == 0 {
                assert(made + Seq::<N::Sample>::empty() =~= made);
                break;
            }
            let ghost now = self.stream();
            self.pull_ready(output);
            tries -= 1;
            proof {
                let (next, block) = now.pulled_while_ready();
                let (last, rest) = next.closed_off(tries as nat);
                assert(made + (block + rest) =~= (made + block) + rest);
                assert((begun + made) + block =~= begun + (made + block));
                made = made + block;
            }
        }
        let ghost closed = self.stream();
        let ghost after = closed.pulled_out(closed.left());
        let ghost held = output@;
        let occupied: usize = N::occupied_frames(&self.engine);
        let latency: usize = N::latency_frames(&self.engine);
        let mut remaining: u128 = (occupied as u128 * UNITY as u128 + self.target as u128 - 1)
            / self.target as u128 + latency as u128;
        assert(remaining == closed.left());
        let ghost mut taken = Seq::<N::Sample>::empty();
        assert(taken + after.1 =~= after.1);
        assert(held + taken =~= held);
        while remaining > 0
            invariant
                self.wf(),
                self.channels == start.channels,
                output@ == held + taken,
                ({
                    let (last, rest) = self.stream().pulled_out(remaining as nat);
                    after == (last, taken + rest)
                }),
            decreases remaining,
        {
            let take: usize = if remaining < PULL_FRAMES as u128 {
                remaining as usize
            } else {
                PULL_FRAMES
            };
            let ghost now = self.stream();
            self.pull_block(take, output);
            remaining -= take as u128;
            proof {
                let (next, block) = now.pulled(take as nat);
                let (last, rest) = next.pulled_out(remaining as nat);
                assert(taken + (block + rest) =~= (taken + block) + rest);
                assert((held + taken) + block =~= held + (taken + block));
                taken = taken + block;
            }
        }
        proof {
            assert(taken + Seq::<N::Sample>::empty() =~= taken);
            assert((begun + goal.1) + after.1 =~= begun + (goal.1 + after.1));
        }
        self.restart();
    }

    /// Drops everything, to begin like a cold start.
    fn restart(&mut self)
        requires
            old(self).wf(),
        ensures
            final(self).wf(),
            final(self).channels == old(self).channels,
            final(self).stream() == old(self).stream().restarted(),
    {
        N::clear(&mut self.engine);
        self.discard_frames = N::latency_frames(&self.engine);
        self.fade_frames = FADE_FRAMES;
        self.primed = false;
    }
}

/// `ratio` held within the range offered.
pub open spec fn held_ratio(ratio: u64) -> u64 {
    if ratio < SLOWEST {
        SLOWEST
    } else if ratio > FASTEST {
        FASTEST
    } else {
        ratio
    }
}

/// Holds a tempo within the range offered.
pub fn clamp_ratio(ratio: u64) -> (held: u64)
    ensures
        held == held_ratio(ratio),
        SLOWEST <= held <= FASTEST,
{
    if ratio < SLOWEST {
        SLOWEST
    } else if ratio > FASTEST {
        FASTEST
    } else {
        ratio
    }
}

/// The time-stretch effect. The engine exists only while there is a device
/// shape to build it for.
pub struct TimeStretch<N: Stretching> {
    enabled: bool,
    ratio: u64,
    rate: u32,
    channels: usize,
    backend: Option<Backend<N>>,
}

impl<N: Stretching> TimeStretch<N> {
    /// Whether the setting is on.
    pub closed spec fn enabled(&self) -> bool {
        self.enabled
    }

    /// The tempo of the setting, in parts of [`UNITY`].
    pub closed spec fn tempo(&self) -> u64 {
        self.ratio
    }

    /// The sample rate.
    pub closed spec fn rate(&self) -> u32 {
        self.rate
    }

    /// The channel count.
    pub closed spec fn channels(&self) -> usize {
        self.channels
    }

    /// Where the stream through the engine stands, while there is one.
    pub closed spec fn stream(&self) -> Option<Stream<N>> {
        match self.backend {
            Some(backend) => Some(backend.stream()),
            None => None,
        }
    }

    /// What holds between calls.
    pub closed spec fn wf(&self) -> bool {
        &&& SLOWEST <= self.ratio <= FASTEST
        &&& self.backend matches Some(backend) ==> {
            &&& backend.wf()
            &&& backend.channels == self.channels
        }
    }

    /// The stream of a sound effect has the channels of its device shape.
    pub proof fn the_stream_is_sound(&self)
        requires
            self.wf(),
        ensures
            SLOWEST <= self.tempo() <= FASTEST,
            self.stream() matches Some(stream) ==> {
                &&& stream.channels == self.channels()
                &&& stream.channels > 0
                &&& N::pace(stream.engine) == stream.target
                &&& SLOWEST <= stream.target <= FASTEST
            },
    {
    }

    /// The same setting and device shape.
    pub open spec fn set_as(&self, other: Self) -> bool {
        &&& self.enabled() == other.enabled()
        &&& self.tempo() == other.tempo()
        &&& self.rate() == other.rate()
        &&& self.channels() == other.channels()
    }

    /// An enabled effect at `ratio` that knows no device shape yet.
    pub open spec fn newly_at(&self, ratio: u64) -> bool {
        &&& self.enabled()
        &&& self.tempo() == ratio
        &&& self.rate() == 0
        &&& self.channels() == 0
        &&& self.stream() is None
    }

    /// `before` with another setting. The tempo is kept while disabled; the
    /// engine then goes to normal speed.
    pub open spec fn tuned(&self, before: Self, enabled: bool, ratio: u64) -> bool {
        &&& self.enabled() == enabled
        &&& self.tempo() == if enabled {
            ratio
        } else {
            before.tempo()
        }
        &&& self.rate() == before.rate()
        &&& self.channels() == before.channels()
        &&& self.stream() == match before.stream() {
            None => None,
            Some(stream) => Some(
                stream.retargeted(
                    if enabled {
                        ratio as nat
                    } else {
                        UNITY as nat
                    },
                ),
            ),
        }
    }

    /// The stream that a build for this device shape starts, or why it failed.
    pub open spec fn built(&self, rate: u32, channels: usize) -> Result<
        Option<Stream<N>>,
        Seq<char>,
    > {
        if self.enabled() && rate > 0 && channels > 0 {
            match N::opened(rate, channels as nat, self.tempo() as nat) {
                Ok(engine) => Ok(
                    Some(Stream::cold(engine, channels as nat, self.tempo() as nat)),
                ),
                Err(cause) => Err("build time-stretch backend: "@ + cause),
            }
        } else {
            Ok(None)
        }
    }

    /// An enabled effect at `ratio`, with no engine yet.
    pub fn new(ratio: u64) -> (effect: Self)
        requires
            SLOWEST <= ratio <= FASTEST,
        ensures
            effect.wf(),
            effect.newly_at(ratio),
    {
        TimeStretch { enabled: true, ratio, rate: 0, channels: 0, backend: None }
    }

    /// Changes the setting. Disabling goes to normal speed and leaves the
    /// teardown to the next reset, so that the switch cannot click.
    pub fn set(&mut self, enabled: bool, ratio: u64)
        requires
            old(self).wf(),
            SLOWEST <= ratio <= FASTEST,
        ensures
            final(self).wf(),
            final(self).tuned(*old(self), enabled, ratio),
            old(self).stream() is Some ==> final(self).stream() is Some,
            final(self).stream() matches Some(stream) ==> N::pace(stream.engine) == if enabled {
                ratio
            } else {
                UNITY
            },
    {
        self.enabled = enabled;
        if enabled {
            self.ratio = ratio;
        }
        let target: u64 = if enabled {
            ratio
        } else {
            UNITY
        };
        match &mut self.backend {
            Some(backend) => {
                backend.target = target;
                N::retarget(&mut backend.engine, target);
            },
            None => {},
        }
    }

    /// The current setting.
    pub fn setting(&self) -> (setting: (bool, u64))
        ensures
            setting == (self.enabled(), self.tempo()),
    {
        (self.enabled, self.ratio)
    }

    fn build(&self, rate: u32, channels: usize) -> (result: Result<Option<Backend<N>>, String>)
        requires
            self.wf(),
        ensures
            match result {
                Ok(None) => self.built(rate, channels) == Ok::<Option<Stream<N>>, Seq<char>>(None),
                Ok(Some(backend)) => {
                    &&& backend.wf()
                    &&& backend.channels == channels
                    &&& self.built(rate, channels) == Ok::<Option<Stream<N>>, Seq<char>>(
                        Some(backend.stream()),
                    )
                },
                Err(message) => self.built(rate, channels) == Err::<Option<Stream<N>>, Seq<char>>(
                    message@,
                ),
            },
    {
        if self.enabled && rate > 0 && channels > 0 {
            match Backend::build(rate, channels, self.ratio) {
                Ok(backend) => Ok(Some(backend)),
                Err(message) => Err(message),
            }
        } else {
            Ok(None)
        }
    }
}

impl<N: Stretching> Effect for TimeStretch<N> {
    type Sample = N::Sample;

    open spec fn inv(&self) -> bool {
        self.wf()
    }

    open spec fn label(&self) -> Seq<char> {
        "time-stretch"@
    }

    /// It may stand in a chain any number of times.
    open spec fn place(&self) -> Option<int> {
        None
    }

    open spec fn active(&self) -> bool {
        self.enabled() || self.stream() is Some
    }

    open spec fn bypassed(&self) -> bool {
        self.stream() is None
    }

    open spec fn ratio(&self) -> nat {
        match self.stream() {
            Some(stream) => stream.target,
            None => UNITY as nat,
        }
    }

    open spec fn pending(&self) -> nat {
        match self.stream() {
            Some(stream) if stream.primed => lesser(
                stream.buffered() + N::latency(stream.engine),
                u64::MAX as nat,
            ),
            _ => 0,
        }
    }

    open spec fn fits(&self, rate: u32, channels: usize) -> bool {
        &&& self.rate() == rate
        &&& self.channels() == channels
        &&& self.stream() is Some || !self.enabled()
    }

    open spec fn processed(
        before: Self,
        input: Seq<N::Sample>,
        after: Self,
        output: Seq<N::Sample>,
        result: Result<(), Seq<char>>,
    ) -> bool {
        &&& result is Ok
        &&& after.set_as(before)
        &&& match before.stream() {
            None => after.stream() is None && output == input,
            Some(stream) => {
                &&& after.stream() == Some(stream.fed(input).0)
                &&& output == stream.fed(input).1
            },
        }
    }

    open spec fn flushed(
        before: Self,
        after: Self,
        output: Seq<N::Sample>,
        result: Result<(), Seq<char>>,
    ) -> bool {
        &&& result is Ok
        &&& after.set_as(before)
        &&& match before.stream() {
            None => after.stream() is None && output == Seq::<N::Sample>::empty(),
            Some(stream) => {
                &&& after.stream() == Some(stream.drained().0)
                &&& output == stream.drained().1
            },
        }
    }

    open spec fn restarted(before: Self, after: Self) -> bool {
        &&& after.set_as(before)
        &&& after.stream() == match before.stream() {
            Some(stream) if before.enabled() => Some(stream.restarted()),
            _ => None,
        }
    }

    open spec fn rebuilt(
        before: Self,
        rate: u32,
        channels: usize,
        after: Self,
        result: Result<(), Seq<char>>,
    ) -> bool {
        &&& after.enabled() == before.enabled()
        &&& after.tempo() == before.tempo()
        &&& after.rate() == rate
        &&& after.channels() == channels
        &&& match before.built(rate, channels) {
            Ok(stream) => result is Ok && after.stream() == stream,
            Err(message) => result == Err::<(), Seq<char>>(message) && after.stream() is None,
        }
    }

    /// A mirror whose engine cannot be built plays unstretched.
    open spec fn mirrored(effect: Self, mirror: Self) -> bool {
        &&& mirror.set_as(effect)
        &&& mirror.stream() == match effect.built(effect.rate(), effect.channels()) {
            Ok(stream) => stream,
            Err(_) => None,
        }
    }

    fn name(&self) -> (name: &'static str) {
        "time-stretch"
    }

    fn is_active(&self) -> (active: bool) {
        self.enabled || self.backend.is_some()
    }

    fn is_bypassed(&self) -> (bypassed: bool) {
        self.backend.is_none()
    }

    fn process(&mut self, input: &[N::Sample], output: &mut Vec<N::Sample>) -> (result: Result<
        (),
        String,
    >) {
        let ghost begun = output@;
        match &mut self.backend {
            Some(backend) => {
                backend.feed(input, output);
            },
            None => {
                append_copy(output, input);
            },
        }
        proof {
            let n = begun.len() as int;
            match old(self).stream() {
                None => {
                    assert(output@.skip(n) =~= input@);
                },
                Some(stream) => {
                    assert(output@.skip(n) =~= stream.fed(input@).1);
                },
            }
        }
        Ok(())
    }

    fn drain(&mut self, output: &mut Vec<N::Sample>) -> (result: Result<(), String>) {
        let ghost begun = output@;
        match &mut self.backend {
            Some(backend) => {
                backend.drain(output);
            },
            None => {},
        }
        proof {
            let n = begun.len() as int;
            match old(self).stream() {
                None => {
                    assert(output@.skip(n) =~= Seq::<N::Sample>::empty());
                },
                Some(stream) => {
                    assert(output@.skip(n) =~= stream.drained().1);
                },
            }
        }
        Ok(())
    }

    fn reset(&mut self) {
        if !self.enabled {
            self.backend = None;
            return ;
        }
        match &mut self.backend {
            Some(backend) => {
                backend.restart();
            },
            None => {},
        }
    }

    fn time_ratio(&self) -> (ratio: u64) {
        match &self.backend {
            Some(backend) => backend.target,
            None => UNITY,
        }
    }

    fn pending_output_frames(&self) -> (frames: u64) {
        match &self.backend {
            Some(backend) => {
                if !backend.primed {
                    return 0;
                }
                let occupied: usize = N::occupied_frames(&backend.engine);
                let latency: usize = N::latency_frames(&backend.engine);
                let frames: u128 = occupied as u128 * UNITY as u128 / backend.target as u128
                    + latency as u128;
                if frames > u64::MAX as u128 {
                    u64::MAX
                } else {
                    frames as u64
                }
            },
            None => 0,
        }
    }

    fn matches(&self, rate: u32, channels: usize) -> (fits: bool) {
        self.rate == rate && self.channels == channels && (self.backend.is_some() || !self.enabled)
    }

    fn reconfigure(&mut self, rate: u32, channels: usize) -> (result: Result<(), String>) {
        let built = self.build(rate, channels);
        self.rate = rate;
        self.channels = channels;
        self.backend = None;
        match built {
            Ok(backend) => {
                self.backend = backend;
                Ok(())
            },
            Err(message) => Err(message),
        }
    }

    fn spawn_mirror(&self) -> (mirror: Self) {
        let backend = match self.build(self.rate, self.channels) {
            Ok(backend) => backend,
            Err(_) => None,
        };
        TimeStretch {
            enabled: self.enabled,
            ratio: self.ratio,
            rate: self.rate,
            channels: self.channels,
            backend,
        }
    }
}

/// A tempo that is set on a running effect reaches the engine itself: it is at
/// that tempo, or on its way to it, from then on. Turned off, it goes to normal
/// speed. The audio and the fade in flight are left alone.
pub proof fn a_tempo_that_is_set_reaches_the_engine<N: Steering>(
    before: TimeStretch<N>,
    after: TimeStretch<N>,
    enabled: bool,
    ratio: u64,
)
    requires
        before.stream() is Some,
        after.tuned(before, enabled, ratio),
    ensures
        after.stream() is Some,
        N::pace(after.stream()->0.engine) == if enabled {
            ratio
        } else {
            UNITY
        },
        after.ratio() == N::pace(after.stream()->0.engine),
        after.stream()->0.discard == before.stream()->0.discard,
        after.stream()->0.fade == before.stream()->0.fade,
        after.stream()->0.primed == before.stream()->0.primed,
{
    N::an_engine_takes_a_tempo(
        before.stream()->0.engine,
        if enabled {
            ratio as nat
        } else {
            UNITY as nat
        },
    );
}

/// The tempo of the setting is the one that a new engine starts at, and a fresh
/// stream goes on at the tempo that the last one had.
pub proof fn a_stream_starts_at_its_tempo<N: Steering>(
    effect: TimeStretch<N>,
    rate: u32,
    channels: usize,
    stream: Stream<N>,
)
    ensures
        effect.built(rate, channels) matches Ok(Some(built)) ==> N::pace(built.engine)
            == effect.tempo() && built.target == effect.tempo(),
        N::pace(stream.restarted().engine) == N::pace(stream.engine),
{
    N::an_engine_opens_at_its_tempo(rate, channels as nat, effect.tempo() as nat);
    N::an_engine_keeps_its_tempo(stream.engine, Seq::empty(), 0);
}

/// Mid-stream, every block is pulled from an engine that holds enough source
/// for it, so that none runs into silence; and pulling goes on until the next
/// block is not ready. `k` is how many are pulled.
pub proof fn pulls_wait_for_source<N: Stretching>(stream: Stream<N>, k: nat)
    requires
        stream.pauses(k),
    ensures
        stream.pulled_while_ready() == stream.pulled_blocks(k),
        forall|j: nat| j < k ==> (#[trigger] stream.pulled_blocks(j)).0.ready(),
        !stream.pulled_while_ready().0.ready(),
{
    lemma_pauses_once(stream, k);
}

/// An engine that has no block ready is not pulled from.
pub proof fn nothing_is_pulled_too_early<N: Stretching>(stream: Stream<N>)
    requires
        !stream.ready(),
    ensures
        stream.pulled_while_ready() == (stream, Seq::<N::Sample>::empty()),
{
    assert(stream.pauses(0));
    lemma_pauses_once(stream, 0);
}

/// Where the engine takes all of the input at once, that is all that feeding it
/// is.
pub proof fn an_engine_with_room_is_fed_at_once<N: Stretching>(
    stream: Stream<N>,
    input: Seq<N::Sample>,
)
    requires
        input.len() > 0,
        N::pushed(stream.engine, input).0 > 0,
        N::pushed(stream.engine, input).0 * stream.channels == input.len(),
    ensures
        ({
            let engine = N::pushed(stream.engine, input).1;
            stream.fed(input) == (Stream { engine, primed: true, ..stream }).pulled_while_ready()
        }),
{
    let start = Feeding { stream, left: input, made: Seq::empty(), stalled: false };
    reveal_with_fuel(Feeding::after, 2);
    let next = start.after(1);
    assert(next == start.stepped());
    assert(next.left.len() == 0);
    assert(start.ends(1)) by {
        assert forall|j: nat| j < 1 implies !(#[trigger] start.after(j)).over() by {
            assert(j == 0);
        }
    }
    lemma_ends_once(start, 1);
    let rest = next.stream.pulled_while_ready().1;
    assert(Seq::<N::Sample>::empty() + rest =~= rest);
}

/// A second drain adds nothing.
pub proof fn a_second_drain_adds_nothing<N: Stretching>(stream: Stream<N>)
    ensures
        ({
            let drained = stream.drained().0;
            drained.drained() == (drained, Seq::<N::Sample>::empty())
        }),
{
}

/// The cut of the cold start and the fade-in run on by frames, however these
/// are cut into pulls.
pub proof fn the_splice_runs_on_by_frames<N: Stretching>(
    stream: Stream<N>,
    first: nat,
    next: nat,
)
    ensures
        ({
            let twice = stream.pulled(first).0.pulled(next).0;
            let once = stream.pulled(first + next).0;
            &&& twice.discard == once.discard
            &&& twice.fade == once.fade
        }),
{
}

/// A pull puts out all that the engine rendered but for the cut.
pub proof fn a_pull_loses_only_the_cut<N: Stretching>(stream: Stream<N>, frames: nat)
    requires
        N::rendered(stream.engine, frames).0.len() == frames * stream.channels,
    ensures
        stream.pulled(frames).1.len() == (frames - (stream.discard - stream.pulled(
            frames,
        ).0.discard)) * stream.channels,
{
    let cut = lesser(stream.discard, frames);
    assert((frames - cut) * stream.channels == frames * stream.channels - cut * stream.channels)
        by (nonlinear_arith);
    assert(cut * stream.channels <= frames * stream.channels) by (nonlinear_arith)
        requires
            cut <= frames,
    ;
}

/// Once nothing is left to cut or to fade, a pull hands on what the engine
/// rendered.
pub proof fn past_the_splice_audio_is_untouched<N: Stretching>(stream: Stream<N>, frames: nat)
    requires
        stream.discard == 0,
        stream.fade == 0,
        stream.channels > 0,
    ensures
        stream.pulled(frames).1 == N::rendered(stream.engine, frames).0,
{
    let block = N::rendered(stream.engine, frames).0;
    assert(0 * stream.channels == 0) by (nonlinear_arith);
    assert(block.skip(0) =~= block);
    let out = stream.pulled(frames).1;
    assert forall|j: int| 0 <= j < block.len() implies out[j] == block[j] by {
        assert(j / stream.channels as int >= 0) by (nonlinear_arith)
            requires
                0 <= j,
                stream.channels > 0,
        ;
    }
    assert(out =~= block);
}

} // verus!
