//! The stretching engine of [`Fixed`].
//!
//! It plays grains of its source at the pitch they have. From one grain to the
//! next the output moves on by a fixed hop and the source by as much, scaled by
//! the tempo; each grain fades over into the next while it lasts. At normal
//! speed every grain continues the one before it, and the source comes out as it
//! is.
use vstd::prelude::*;

use crate::chain::UNITY;
use crate::frames::{append_copy, drop_front};
use crate::numeric::{Exact, Fixed, Numeric};
use crate::spectral::{hann_periodic, raised_cosine};
use crate::stretch::{lesser, Steering, Stream, Stretching, ENGINE_CHANNELS, FASTEST, PULL_FRAMES};
use crate::stretch::SOURCE_CAPACITY_FRAMES;

verus! {

/// Frames of output from one grain to the next: half of a grain.
pub const GRAIN_HOP: usize = 512;

/// An engine that plays grains.
pub struct Granulator {
    channels: usize,
    queue: Vec<i64>,
    tempo: u64,
    /// How far the grain lies behind the first frame that waits, in parts of
    /// [`UNITY`].
    phase: u64,
    /// Frames that the grain has played.
    step: usize,
    /// The second half of the grain before; nothing where there was none.
    tail: Vec<i64>,
    window: Vec<i64>,
}

/// Where a [`Granulator`] stands.
#[verifier::ext_equal]
pub struct Granular {
    pub channels: nat,
    pub queue: Seq<i64>,
    pub tempo: nat,
    pub phase: nat,
    pub step: nat,
    pub tail: Seq<i64>,
}

impl Granular {
    /// How many frames there are.
    pub open spec fn frames(self) -> nat {
        self.queue.len() / self.channels
    }

    /// Channel `c` of source frame `i`; silence where there is none.
    pub open spec fn source(self, i: int, c: int) -> i64 {
        if i < self.frames() {
            self.queue[i * self.channels + c]
        } else {
            0
        }
    }

    /// What the grain before has where this one is now. The first grain has
    /// none before it, and takes itself for that.
    pub open spec fn fading(self, c: int) -> i64 {
        if self.tail.len() == 0 {
            self.source(self.step as int, c)
        } else {
            self.tail[self.step * self.channels + c]
        }
    }

    /// The next frame: the grain before, on its way over into this one.
    pub open spec fn frame(self) -> Seq<i64> {
        Seq::new(
            self.channels,
            |c: int|
                crossed(self.fading(c), self.source(self.step as int, c), self.step),
        )
    }

    /// Where the source has got to at the next grain, in parts of [`UNITY`].
    pub open spec fn reach(self) -> nat {
        self.phase + GRAIN_HOP as nat * self.tempo
    }

    /// One frame on.
    pub open spec fn moved(self) -> Self {
        if self.step + 1 < GRAIN_HOP {
            Granular { step: self.step + 1, ..self }
        } else {
            Granular {
                queue: self.queue.skip(
                    (lesser(self.reach() / UNITY as nat, self.frames()) * self.channels) as int,
                ),
                phase: self.reach() % UNITY as nat,
                step: 0,
                tail: Seq::new(
                    GRAIN_HOP as nat * self.channels,
                    |j: int|
                        self.source(GRAIN_HOP + j / self.channels as int, j % self.channels as int),
                ),
                ..self
            }
        }
    }

    /// The next `n` frames, and where the engine stands then.
    pub open spec fn played(self, n: nat) -> (Seq<i64>, Self)
        decreases n,
    {
        if n == 0 {
            (Seq::empty(), self)
        } else {
            let (audio, now) = self.played((n - 1) as nat);
            (audio + now.frame(), now.moved())
        }
    }
}

/// A sample `step` frames into the fade from one grain to the next.
pub open spec fn crossed(old: i64, new: i64, step: nat) -> i64 {
    Fixed::sum(
        old,
        Fixed::product(
            raised_cosine::<Fixed>(step, 2 * GRAIN_HOP as nat),
            Fixed::difference(new, old),
        ),
    )
}

impl Granulator {
    /// What the engine holds.
    pub closed spec fn view_of(&self) -> Granular {
        Granular {
            channels: self.channels as nat,
            queue: self.queue@,
            tempo: self.tempo as nat,
            phase: self.phase as nat,
            step: self.step as nat,
            tail: self.tail@,
        }
    }

    #[verifier::type_invariant]
    spec fn sound(&self) -> bool {
        &&& 0 < self.channels <= ENGINE_CHANNELS
        &&& self.phase < UNITY
        &&& self.tempo <= FASTEST
        &&& self.step < GRAIN_HOP
        &&& self.tail@.len() == 0 || self.tail@.len() == GRAIN_HOP * self.channels
        &&& self.window@ == Seq::new(
            2 * GRAIN_HOP as nat,
            |i: int| raised_cosine::<Fixed>(i as nat, 2 * GRAIN_HOP as nat),
        )
    }

    /// Channel `c` of source frame `i`.
    fn source(&self, i: usize, c: usize) -> (sample: i64)
        requires
            c < self.view_of().channels,
        ensures
            sample == self.view_of().source(i as int, c as int),
    {
        proof {
            use_type_invariant(self);
            vstd::arithmetic::div_mod::lemma_fundamental_div_mod(
                self.queue@.len() as int,
                self.channels as int,
            );
            assert(self.queue.len() <= usize::MAX);
        }
        if i < self.queue.len() / self.channels {
            assert(i * self.channels + c < self.queue@.len() && i * self.channels >= 0)
                by (nonlinear_arith)
                requires
                    i + 1 <= self.queue@.len() as int / self.channels as int,
                    self.channels * (self.queue@.len() as int / self.channels as int)
                        <= self.queue@.len(),
                    c < self.channels,
                    i >= 0,
            ;
            self.queue[i * self.channels + c]
        } else {
            0
        }
    }

    /// Appends the next frame.
    fn put_frame(&self, block: &mut Vec<i64>)
        ensures
            final(block)@ == old(block)@ + self.view_of().frame(),
    {
        proof {
            use_type_invariant(self);
        }
        let ghost now = self.view_of();
        let ghost had = block@;
        let mut c: usize = 0;
        assert(block@ =~= had + now.frame().take(0));
        while c < self.channels
            invariant
                c <= self.channels,
                now == self.view_of(),
                now.channels == self.channels,
                block@ == had + now.frame().take(c as int),
            decreases self.channels - c,
        {
            proof {
                use_type_invariant(self);
            }
            let new: i64 = self.source(self.step, c);
            let old_sample: i64 = if self.tail.len() == 0 {
                new
            } else {
                assert(self.step * self.channels + c < GRAIN_HOP * self.channels && self.step
                    * self.channels >= 0) by (nonlinear_arith)
                    requires
                        self.step + 1 <= GRAIN_HOP,
                        c < self.channels,
                        self.step >= 0,
                ;
                self.tail[self.step * self.channels + c]
            };
            let sample: i64 = Fixed::plus(
                old_sample,
                Fixed::times(self.window[self.step], Fixed::minus(new, old_sample)),
            );
            block.push(sample);
            assert(now.frame().take(c + 1) =~= now.frame().take(c as int).push(sample));
            c += 1;
        }
        assert(now.frame().take(c as int) =~= now.frame());
    }

    /// Goes one frame on.
    fn go_on(&mut self)
        ensures
            final(self).view_of() == old(self).view_of().moved(),
    {
        proof {
            use_type_invariant(&*self);
        }
        let ghost now = self.view_of();
        if self.step + 1 < GRAIN_HOP {
            self.step = self.step + 1;
            return ;
        }
        let channels: usize = self.channels;
        let mut tail: Vec<i64> = Vec::with_capacity(GRAIN_HOP * channels);
        let ghost goal = now.moved().tail;
        let mut i: usize = 0;
        assert(goal.take(0) =~= Seq::<i64>::empty());
        while i < GRAIN_HOP
            invariant
                i <= GRAIN_HOP,
                now == self.view_of(),
                channels == now.channels,
                0 < channels <= ENGINE_CHANNELS,
                now.step + 1 >= GRAIN_HOP,
                goal == now.moved().tail,
                tail@ == goal.take(i * channels),
            decreases GRAIN_HOP - i,
        {
            assert((i + 1) * channels == i * channels + channels) by (nonlinear_arith);
            assert((i + 1) * channels <= GRAIN_HOP * channels) by (nonlinear_arith)
                requires
                    i + 1 <= GRAIN_HOP,
            ;
            let mut c: usize = 0;
            while c < channels
                invariant
                    c <= channels,
                    i < GRAIN_HOP,
                    now == self.view_of(),
                    channels == now.channels,
                    0 < channels <= ENGINE_CHANNELS,
                    now.step + 1 >= GRAIN_HOP,
                    goal == now.moved().tail,
                    i * channels + channels <= GRAIN_HOP * channels,
                    tail@ == goal.take(i * channels + c),
                decreases channels - c,
            {
                let ghost j = i * channels + c;
                proof {
                    vstd::arithmetic::div_mod::lemma_fundamental_div_mod_converse(
                        j,
                        channels as int,
                        i as int,
                        c as int,
                    );
                }
                tail.push(self.source(GRAIN_HOP + i, c));
                assert(goal.take(j + 1) =~= goal.take(j).push(goal[j]));
                c += 1;
            }
            i += 1;
        }
        assert(goal.take(goal.len() as int) =~= goal);
        assert(GRAIN_HOP * channels == goal.len());
        let reach: u64 = self.phase + GRAIN_HOP as u64 * self.tempo;
        let held: usize = self.queue.len() / channels;
        let done: u64 = reach / UNITY;
        let passed: usize = if done <= held as u64 {
            done as usize
        } else {
            held
        };
        proof {
            vstd::arithmetic::div_mod::lemma_fundamental_div_mod(
                now.queue.len() as int,
                channels as int,
            );
            assert(passed * channels <= now.queue.len() && passed * channels >= 0)
                by (nonlinear_arith)
                requires
                    0 <= passed <= held,
                    channels * held <= now.queue.len(),
            ;
            assert(self.queue.len() <= usize::MAX);
        }
        let mut queue: Vec<i64> = Vec::new();
        std::mem::swap(&mut queue, &mut self.queue);
        drop_front(&mut queue, passed * channels);
        self.queue = queue;
        self.phase = reach % UNITY;
        self.step = 0;
        self.tail = tail;
        assert(self.view_of() =~= now.moved());
    }
}

impl Stretching for Fixed {
    type Engine = Granulator;

    type Stretch = Granular;

    open spec fn stretch(engine: Granulator) -> Granular {
        engine.view_of()
    }

    open spec fn lanes(stretch: Granular) -> nat {
        stretch.channels
    }

    open spec fn pace(stretch: Granular) -> nat {
        stretch.tempo
    }

    open spec fn occupied(stretch: Granular) -> nat {
        stretch.frames()
    }

    open spec fn latency(stretch: Granular) -> nat {
        0
    }

    /// Whole grains past the one that plays, each as far on as the tempo takes
    /// it, and a last one.
    open spec fn demand(stretch: Granular, frames: nat, tempo: nat) -> nat {
        lesser(
            (frames / GRAIN_HOP as nat + 1) * (GRAIN_HOP as nat * tempo / UNITY as nat + 1) + 2
                * GRAIN_HOP as nat,
            usize::MAX as nat,
        )
    }

    open spec fn opened(rate: u32, channels: nat, tempo: nat) -> Result<Granular, Seq<char>> {
        if 0 < channels <= ENGINE_CHANNELS {
            Ok(
                Granular {
                    channels,
                    queue: Seq::empty(),
                    tempo,
                    phase: 0,
                    step: 0,
                    tail: Seq::empty(),
                },
            )
        } else {
            Err("channel count outside 1..=8"@)
        }
    }

    open spec fn pushed(stretch: Granular, samples: Seq<i64>) -> (nat, Granular) {
        let room = if stretch.frames() < SOURCE_CAPACITY_FRAMES {
            (SOURCE_CAPACITY_FRAMES - stretch.frames()) as nat
        } else {
            0
        };
        let taken = lesser(samples.len() / stretch.channels, room);
        (
            taken,
            Granular {
                queue: stretch.queue + samples.take((taken * stretch.channels) as int),
                ..stretch
            },
        )
    }

    open spec fn rendered(stretch: Granular, frames: nat) -> (Seq<i64>, Granular) {
        stretch.played(frames)
    }

    open spec fn finished(stretch: Granular) -> (bool, Granular) {
        (true, stretch)
    }

    open spec fn cleared(stretch: Granular) -> Granular {
        Granular { queue: Seq::empty(), phase: 0, step: 0, tail: Seq::empty(), ..stretch }
    }

    open spec fn retargeted(stretch: Granular, tempo: nat) -> Granular {
        Granular { tempo, ..stretch }
    }

    fn open(rate: u32, channels: usize, tempo: u64) -> (result: Result<Granulator, String>) {
        if channels == 0 || channels > ENGINE_CHANNELS {
            return Err("channel count outside 1..=8".to_owned());
        }
        Ok(
            Granulator {
                channels,
                queue: Vec::new(),
                tempo,
                phase: 0,
                step: 0,
                tail: Vec::new(),
                window: hann_periodic::<Fixed>(2 * GRAIN_HOP),
            },
        )
    }

    fn occupied_frames(engine: &Granulator) -> (frames: usize) {
        proof {
            use_type_invariant(engine);
        }
        engine.queue.len() / engine.channels
    }

    fn latency_frames(engine: &Granulator) -> (frames: usize) {
        0
    }

    fn demand_hint(engine: &Granulator, frames: usize, tempo: u64) -> (need: usize) {
        let grains: u128 = frames as u128 / GRAIN_HOP as u128 + 1;
        let each: u128 = GRAIN_HOP as u128 * tempo as u128 / UNITY as u128 + 1;
        assert(grains * each <= 0x1_0000_0000_0000_0000 * 0x1_0000_0000_0000) by (nonlinear_arith)
            requires
                0 <= grains <= 0x1_0000_0000_0000_0000,
                0 <= each <= 0x1_0000_0000_0000,
        ;
        let need: u128 = grains * each + 2 * GRAIN_HOP as u128;
        if need > usize::MAX as u128 {
            usize::MAX
        } else {
            need as usize
        }
    }

    fn push_source(engine: &mut Granulator, samples: &[i64]) -> (taken: usize) {
        proof {
            use_type_invariant(&*engine);
        }
        let channels: usize = engine.channels;
        let held: usize = engine.queue.len() / channels;
        let room: usize = if held < SOURCE_CAPACITY_FRAMES {
            SOURCE_CAPACITY_FRAMES - held
        } else {
            0
        };
        let offered: usize = samples.len() / channels;
        let taken: usize = if offered <= room {
            offered
        } else {
            room
        };
        proof {
            vstd::arithmetic::div_mod::lemma_fundamental_div_mod(
                samples@.len() as int,
                channels as int,
            );
            assert(taken * channels <= samples@.len()) by (nonlinear_arith)
                requires
                    taken <= offered,
                    channels * offered <= samples@.len(),
            ;
        }
        let mut queue: Vec<i64> = Vec::new();
        std::mem::swap(&mut queue, &mut engine.queue);
        append_copy(&mut queue, vstd::slice::slice_subrange(samples, 0, taken * channels));
        engine.queue = queue;
        assert(samples@.subrange(0, (taken * channels) as int) =~= samples@.take(
            (taken * channels) as int,
        ));
        taken
    }

    fn render(engine: &mut Granulator, frames: usize) -> (block: Vec<i64>) {
        proof {
            use_type_invariant(&*engine);
        }
        let ghost start = engine.view_of();
        let channels: usize = engine.channels;
        let mut block: Vec<i64> = Vec::new();
        let mut i: usize = 0;
        while i < frames
            invariant
                i <= frames,
                channels == start.channels,
                engine.view_of().channels == start.channels,
                engine.view_of().tempo == start.tempo,
                block@.len() == i * channels,
                (block@, engine.view_of()) == start.played(i as nat),
            decreases frames - i,
        {
            engine.put_frame(&mut block);
            engine.go_on();
            assert((i + 1) * channels == i * channels + channels) by (nonlinear_arith);
            i += 1;
        }
        block
    }

    fn finish(engine: &mut Granulator) -> (done: bool) {
        true
    }

    fn clear(engine: &mut Granulator) {
        proof {
            use_type_invariant(&*engine);
        }
        engine.queue = Vec::new();
        engine.phase = 0;
        engine.step = 0;
        engine.tail = Vec::new();
    }

    fn retarget(engine: &mut Granulator, tempo: u64) {
        proof {
            use_type_invariant(&*engine);
        }
        engine.tempo = tempo;
    }
}

impl Steering for Fixed {
    proof fn an_engine_opens_at_its_tempo(rate: u32, channels: nat, tempo: nat) {
    }

    proof fn an_engine_keeps_its_tempo(engine: Granular, samples: Seq<i64>, frames: nat) {
        lemma_playing_keeps_the_tempo(engine, frames);
    }

    proof fn an_engine_takes_a_tempo(engine: Granular, tempo: nat) {
    }
}

proof fn lemma_playing_keeps_the_tempo(start: Granular, n: nat)
    ensures
        start.played(n).1.tempo == start.tempo,
    decreases n,
{
    if n > 0 {
        lemma_playing_keeps_the_tempo(start, (n - 1) as nat);
    }
}

/// Whole frames off the front leave that many fewer.
pub proof fn lemma_frames_left(len: nat, channels: nat, p: nat)
    requires
        channels > 0,
        p * channels <= len,
    ensures
        (len - p * channels) as nat / channels == len / channels - p,
        p <= len / channels,
{
    vstd::arithmetic::div_mod::lemma_fundamental_div_mod(len as int, channels as int);
    let q = len / channels;
    assert(p <= q) by (nonlinear_arith)
        requires
            p * channels <= len,
            len == channels * q + len % channels,
            0 <= len % channels < channels,
    ;
    let r = len % channels;
    assert(len - p * channels == (q - p) * channels + r) by (nonlinear_arith)
        requires
            len == channels * q + r,
    ;
    vstd::arithmetic::div_mod::lemma_fundamental_div_mod_converse(
        len - p * channels,
        channels as int,
        q - p,
        (len % channels) as int,
    );
}

/// Frames that are held take up no more than there is.
pub proof fn lemma_frames_fit(len: nat, channels: nat, p: nat)
    requires
        channels > 0,
        p <= len / channels,
    ensures
        p * channels <= len,
{
    vstd::arithmetic::div_mod::lemma_fundamental_div_mod(len as int, channels as int);
    let q = len / channels;
    assert(p * channels <= len) by (nonlinear_arith)
        requires
            p <= q,
            len == channels * q + len % channels,
            0 <= len % channels,
            channels > 0,
    ;
}

/// How far the source goes on with one grain at most, at any tempo up to
/// `tempo`.
pub open spec fn advance(tempo: nat) -> nat {
    GRAIN_HOP as nat * tempo / UNITY as nat + 1
}

/// After `i` frames the engine has begun as many grains as hops went by, and
/// gone on with each by no more than the tempo takes it.
pub proof fn lemma_source_is_used_slowly(start: Granular, i: nat, tempo: nat)
    requires
        start.channels > 0,
        start.step < GRAIN_HOP,
        start.phase < UNITY,
        start.tempo <= tempo,
    ensures
        ({
            let now = start.played(i).1;
            let hops = (start.step + i) / GRAIN_HOP as nat;
            &&& now.channels == start.channels
            &&& now.tempo == start.tempo
            &&& now.phase < UNITY
            &&& now.step == (start.step + i) % GRAIN_HOP as nat
            &&& now.frames() + hops * advance(tempo) >= start.frames()
        }),
    decreases i,
{
    let each = advance(tempo);
    if i == 0 {
        assert(0 * each == 0);
    } else {
        lemma_source_is_used_slowly(start, (i - 1) as nat, tempo);
        let before = start.played((i - 1) as nat).1;
        let now = before.moved();
        let hops = (start.step + i - 1) as nat / GRAIN_HOP as nat;
        if before.step + 1 >= GRAIN_HOP {
            let over = before.reach() / UNITY as nat;
            let gone = lesser(over, before.frames());
            assert(over <= each) by {
                assert(GRAIN_HOP as nat * start.tempo <= GRAIN_HOP as nat * tempo)
                    by (nonlinear_arith)
                    requires
                        start.tempo <= tempo,
                ;
            }
            lemma_frames_fit(before.queue.len(), before.channels, gone);
            lemma_frames_left(before.queue.len(), before.channels, gone);
            assert((hops + 1) * each == hops * each + each) by (nonlinear_arith);
        }
    }
}

/// An engine that holds as much source as it says `frames` frames can call for
/// has all of it at hand in every one of them: a whole grain, so that nothing
/// is filled with silence. It holds at any tempo up to the one asked for.
pub proof fn a_demand_that_is_met_is_enough(start: Granular, frames: nat, tempo: nat, i: nat)
    requires
        start.channels > 0,
        start.step < GRAIN_HOP,
        start.phase < UNITY,
        start.tempo <= tempo,
        Fixed::demand(start, frames, tempo) < usize::MAX,
        Fixed::demand(start, frames, tempo) <= Fixed::occupied(start),
        i <= frames,
    ensures
        start.played(i).1.frames() >= 2 * GRAIN_HOP,
{
    lemma_source_is_used_slowly(start, i, tempo);
    let each = advance(tempo);
    let hops = (start.step + i) / GRAIN_HOP as nat;
    let most = frames / GRAIN_HOP as nat + 1;
    assert(hops <= most);
    assert(hops * each <= most * each) by (nonlinear_arith)
        requires
            hops <= most,
    ;
}

/// Output uses source up at the tempo, exactly: over `n` frames, the source that
/// was passed and what the grain has gone on come to `n` times the tempo, as long
/// as a whole grain was always at hand. So `n` frames of output stand for
/// `n * tempo / UNITY` frames of source, to within one grain.
pub proof fn output_uses_source_at_the_tempo(start: Granular, n: nat)
    requires
        start.channels > 0,
        start.step < GRAIN_HOP,
        start.phase < UNITY,
        start.tempo <= FASTEST,
        forall|i: nat| i < n ==> (#[trigger] start.played(i)).1.frames() >= 2 * GRAIN_HOP,
    ensures
        ({
            let now = start.played(n).1;
            let used = start.frames() - now.frames();
            &&& used * UNITY + now.phase - start.phase + (now.step - start.step) * start.tempo
                == n * start.tempo
            &&& n * start.tempo - used * UNITY <= GRAIN_HOP * start.tempo + UNITY
            &&& used * UNITY - n * start.tempo <= GRAIN_HOP * start.tempo + UNITY
        }),
    decreases n,
{
    let tempo = start.tempo;
    lemma_source_is_used_slowly(start, n, tempo);
    if n > 0 {
        let m = (n - 1) as nat;
        output_uses_source_at_the_tempo(start, m);
        lemma_source_is_used_slowly(start, m, tempo);
        let before = start.played(m).1;
        let now = before.moved();
        assert(n * tempo == m * tempo + tempo) by (nonlinear_arith)
            requires
                n == m + 1,
        ;
        let was = before.step - start.step;
        let is = now.step - start.step;
        if before.step + 1 < GRAIN_HOP {
            assert(is * tempo == was * tempo + tempo) by (nonlinear_arith)
                requires
                    is == was + 1,
            ;
        } else {
            let over = before.reach() / UNITY as nat;
            assert(over <= 2 * GRAIN_HOP);
            lemma_frames_fit(before.queue.len(), before.channels, over);
            lemma_frames_left(before.queue.len(), before.channels, over);
            assert(now.frames() == before.frames() - over);
            assert(was * tempo == is * tempo + (GRAIN_HOP - 1) * tempo) by (nonlinear_arith)
                requires
                    was == is + GRAIN_HOP - 1,
            ;
        }
    } else {
        assert(0 * tempo == 0);
    }
    let now = start.played(n).1;
    let gone = now.step - start.step;
    assert(gone * tempo <= GRAIN_HOP * tempo && gone * tempo >= -(GRAIN_HOP * tempo))
        by (nonlinear_arith)
        requires
            -GRAIN_HOP <= gone <= GRAIN_HOP,
            tempo >= 0,
    ;
}

/// A block that is pulled once it is ready never runs into silence: in each of
/// its frames a whole grain of source is at hand.
pub proof fn a_ready_block_has_its_source(stream: Stream<Fixed>, i: nat)
    requires
        stream.ready(),
        stream.target <= FASTEST,
        stream.engine.channels > 0,
        stream.engine.step < GRAIN_HOP,
        stream.engine.phase < UNITY,
        stream.engine.tempo <= stream.target,
        i <= PULL_FRAMES,
    ensures
        stream.engine.played(i).1.frames() >= 2 * GRAIN_HOP,
{
    let tempo = stream.target + stream.target / 10;
    let each = advance(tempo);
    assert(each <= 3 * GRAIN_HOP + 1);
    let most = PULL_FRAMES as nat / GRAIN_HOP as nat + 1;
    assert(most == 3);
    assert(most * each <= 3 * (3 * GRAIN_HOP + 1)) by (nonlinear_arith)
        requires
            most == 3,
            each <= 3 * GRAIN_HOP + 1,
    ;
    a_demand_that_is_met_is_enough(stream.engine, PULL_FRAMES as nat, tempo, i);
}

/// The grain before goes on where this one is.
pub open spec fn seamless(now: Granular) -> bool {
    now.tail.len() == 0 || (now.tail.len() == GRAIN_HOP * now.channels && forall|j: int|
        0 <= j < now.tail.len() && j < now.queue.len() ==> #[trigger] now.tail[j] == now.queue[j])
}

/// Where the grains join without a seam, the next frame is the source's.
proof fn lemma_a_seamless_frame(now: Granular)
    requires
        now.channels > 0,
        now.step < GRAIN_HOP,
        now.step < now.frames(),
        seamless(now),
    ensures
        (now.step + 1) * now.channels <= now.queue.len(),
        now.frame() == now.queue.subrange(
            (now.step * now.channels) as int,
            ((now.step + 1) * now.channels) as int,
        ),
{
    let ch = now.channels;
    lemma_frames_fit(now.queue.len(), ch, now.step + 1);
    assert((now.step + 1) * ch == now.step * ch + ch) by (nonlinear_arith);
    assert((now.step + 1) * ch <= GRAIN_HOP * ch) by (nonlinear_arith)
        requires
            now.step + 1 <= GRAIN_HOP,
    ;
    assert(now.step * ch >= 0) by (nonlinear_arith);
    let w = raised_cosine::<Fixed>(now.step, 2 * GRAIN_HOP as nat);
    let frame = now.frame();
    assert forall|c: int| 0 <= c < ch implies #[trigger] frame[c] == now.queue[now.step * ch
        + c] by {
        let sample = now.source(now.step as int, c);
        assert(now.fading(c) == sample);
        Fixed::equals_cancel(sample);
        assert(w * 0 == 0);
    }
    assert(frame =~= now.queue.subrange((now.step * ch) as int, (now.step * ch + ch) as int));
}

/// At normal speed the next grain goes on where the last one ends.
proof fn lemma_the_next_grain(now: Granular)
    requires
        now.channels > 0,
        now.step + 1 == GRAIN_HOP,
        now.phase == 0,
        now.tempo == UNITY,
        now.frames() >= 2 * GRAIN_HOP,
    ensures
        GRAIN_HOP * now.channels <= now.queue.len(),
        now.moved().queue == now.queue.skip(GRAIN_HOP * now.channels),
        now.moved().phase == 0,
        seamless(now.moved()),
{
    let ch = now.channels;
    let next = now.moved();
    lemma_frames_fit(now.queue.len(), ch, 2 * GRAIN_HOP as nat);
    assert(2 * GRAIN_HOP * ch == GRAIN_HOP * ch + GRAIN_HOP * ch) by (nonlinear_arith);
    assert(now.reach() / UNITY as nat == GRAIN_HOP && now.reach() % UNITY as nat == 0);
    assert forall|j: int| 0 <= j < next.tail.len() && j < next.queue.len() implies
        #[trigger] next.tail[j] == next.queue[j] by {
        vstd::arithmetic::div_mod::lemma_fundamental_div_mod(j, ch as int);
        let (part, c) = (j / ch as int, j % ch as int);
        let i = GRAIN_HOP + part;
        assert(0 <= part < GRAIN_HOP) by (nonlinear_arith)
            requires
                0 <= j < GRAIN_HOP * ch,
                j == ch * part + c,
                0 <= c < ch,
        ;
        assert(i * ch + c == GRAIN_HOP * ch + j) by (nonlinear_arith)
            requires
                i == GRAIN_HOP + part,
                j == ch * part + c,
        ;
        assert(next.tail[j] == now.source(i, c));
    }
}

proof fn lemma_normal_speed(start: Granular, n: nat)
    requires
        start.channels > 0,
        start.step == 0,
        start.phase == 0,
        start.tempo == UNITY,
        seamless(start),
        n + 2 * GRAIN_HOP <= start.frames(),
    ensures
        start.played(n).0 == start.queue.take((n * start.channels) as int),
        at_normal_speed(start, start.played(n).1, n),
    decreases n,
{
    let ch = start.channels;
    if n == 0 {
        assert(0 * ch == 0);
        assert(start.queue.take(0) =~= Seq::<i64>::empty());
        assert(start.queue.skip(0) =~= start.queue);
    } else {
        let m = (n - 1) as nat;
        lemma_normal_speed(start, m);
        let (audio, now) = start.played(m);
        let done = (m - now.step) as nat;
        lemma_frames_fit(start.queue.len(), ch, done);
        lemma_frames_left(start.queue.len(), ch, done);
        lemma_a_seamless_frame(now);
        assert(m * ch == done * ch + now.step * ch) by (nonlinear_arith)
            requires
                m == done + now.step,
        ;
        assert(n * ch == done * ch + (now.step + 1) * ch) by (nonlinear_arith)
            requires
                n == done + now.step + 1,
        ;
        lemma_frames_fit(start.queue.len(), ch, n);
        assert((now.step + 1) * ch == now.step * ch + ch) by (nonlinear_arith);
        assert(now.frame() =~= start.queue.subrange((m * ch) as int, (n * ch) as int));
        assert(audio + now.frame() =~= start.queue.take((n * ch) as int));
        if now.step + 1 >= GRAIN_HOP {
            lemma_the_next_grain(now);
            assert(n * ch == done * ch + GRAIN_HOP * ch) by (nonlinear_arith)
                requires
                    n == done + GRAIN_HOP,
            ;
            assert(now.moved().queue =~= start.queue.skip((n * ch) as int));
        }
    }
}

/// Where an engine that began as `start` stands after `n` frames at normal
/// speed.
pub open spec fn at_normal_speed(start: Granular, now: Granular, n: nat) -> bool {
    let done = n - now.step;
    &&& now.channels == start.channels
    &&& now.tempo == UNITY
    &&& now.phase == 0
    &&& now.step < GRAIN_HOP
    &&& now.step <= n
    &&& now.queue == start.queue.skip(done * start.channels)
    &&& seamless(now)
}

/// At normal speed a fresh engine hands its source out as it is.
pub proof fn normal_speed_changes_nothing(rate: u32, channels: nat, source: Seq<i64>, n: nat)
    requires
        0 < channels <= ENGINE_CHANNELS,
        n + 2 * GRAIN_HOP <= source.len() / channels <= SOURCE_CAPACITY_FRAMES,
    ensures
        ({
            let fresh = Fixed::opened(rate, channels, UNITY as nat)->Ok_0;
            let (taken, loaded) = Fixed::pushed(fresh, source);
            &&& taken == source.len() / channels
            &&& Fixed::rendered(loaded, n).0 == source.take((n * channels) as int)
        }),
{
    let fresh = Fixed::opened(rate, channels, UNITY as nat)->Ok_0;
    let (taken, loaded) = Fixed::pushed(fresh, source);
    assert(fresh.frames() == 0) by {
        lemma_frames_left(0, channels, 0);
    }
    lemma_frames_fit(source.len(), channels, taken);
    let whole = source.take((taken * channels) as int);
    assert(loaded.queue =~= whole);
    vstd::arithmetic::div_mod::lemma_fundamental_div_mod_converse(
        (taken * channels) as int,
        channels as int,
        taken as int,
        0,
    );
    lemma_normal_speed(loaded, n);
    lemma_frames_fit(whole.len(), channels, n);
    assert(whole.take((n * channels) as int) =~= source.take((n * channels) as int));
}

} // verus!
