//! Fast convolution, the foundation of the effects that filter.
//!
//! A [`Kernel`] is an impulse response cut into partitions of one block each,
//! every partition transformed once. A [`Line`] keeps the spectra of the last
//! blocks of one channel's input. A block of output is the sum of the products
//! of the two, newest block with first partition: uniformly partitioned
//! overlap-save convolution. It is causal: output sample `i` is the linear
//! convolution at index `i`, so no latency is added.
//!
//! [`Convolver`] streams one channel through one kernel; [`StereoConvolver`]
//! streams interleaved audio and exchanges its kernel without a click.
use std::collections::VecDeque;
use std::sync::Arc;

use vstd::prelude::*;

use crate::frames::{append_copy, append_repeated, deinterleave, drop_front, filled, interleave};
use crate::frames::take_channel;
use crate::frames::{channel_of, channels_of, contents, repeated, woven};
use crate::frames::{lemma_channel_of_sum, lemma_channel_of_whole, parting_undoes_weaving};
use crate::numeric::{the_fixed_circle_is_round, the_fixed_circle_turns_over, Exact, Fixed, Numeric};
use crate::numeric::{CIRCLE_STEPS, FIXED_ONE, ROUNDNESS};
use crate::transform::{circular_sum, Convolving, Spectral};

verus! {

/// A further owner of what `shared` owns: `std::sync::Arc::clone`, which
/// hands out another pointer to the same value.
#[verifier::external_body]
pub(crate) fn share<T>(shared: &Arc<T>) -> (other: Arc<T>)
    ensures
        other == *shared,
{
    Arc::clone(shared)
}

/// The sample at time `t`: silence before the signal starts and after it ends.
pub open spec fn sample_at<N: Numeric>(signal: Seq<N::Sample>, t: int) -> N::Sample {
    if 0 <= t < signal.len() {
        signal[t]
    } else {
        N::zero_value()
    }
}

/// How many blocks it takes to hold `len` samples.
pub open spec fn blocks_for(len: nat, block: nat) -> nat {
    ((len + block - 1) / block as int) as nat
}

/// Partition `p` of a kernel, in the left half of a transform window.
pub open spec fn partition<N: Numeric>(taps: Seq<N::Sample>, block: nat, p: int) -> Seq<N::Sample> {
    Seq::new(
        2 * block,
        |i: int|
            if i < block {
                sample_at::<N>(taps, p * block + i)
            } else {
                N::zero_value()
            },
    )
}

/// The overlap-save window of input block `m`: the block before it, then it.
pub open spec fn window<N: Numeric>(fed: Seq<N::Sample>, block: nat, m: int) -> Seq<N::Sample> {
    Seq::new(2 * block, |i: int| sample_at::<N>(fed, (m - 1) * block + i))
}

/// The spectrum a line holds of input block `m`: silence where the block came
/// before `floor`, the first block that it remembers.
pub open spec fn block_spectrum<N: Spectral>(
    fed: Seq<N::Sample>,
    floor: nat,
    block: nat,
    m: int,
) -> N::Spectrum {
    if m >= floor {
        N::spectrum(window::<N>(fed, block, m))
    } else {
        N::silent(2 * block)
    }
}

/// The products of the first `p` partitions with block `m` and those before it.
pub open spec fn accumulated<N: Spectral>(
    taps: Seq<N::Sample>,
    fed: Seq<N::Sample>,
    floor: nat,
    block: nat,
    m: int,
    p: nat,
) -> N::Spectrum
    decreases p,
{
    if p == 0 {
        N::silent(2 * block)
    } else {
        N::blended(
            accumulated::<N>(taps, fed, floor, block, m, (p - 1) as nat),
            N::spectrum(partition::<N>(taps, block, p - 1)),
            block_spectrum::<N>(fed, floor, block, m - (p - 1)),
        )
    }
}

/// Block `m` of the output: the half of the window that does not wrap.
pub open spec fn block_out<N: Spectral>(
    taps: Seq<N::Sample>,
    fed: Seq<N::Sample>,
    floor: nat,
    block: nat,
    m: int,
) -> Seq<N::Sample> {
    let whole = N::signal(
        accumulated::<N>(taps, fed, floor, block, m, blocks_for(taps.len(), block)),
        2 * block,
    );
    Seq::new(block, |i: int| whole[block + i])
}

/// Output blocks `from` up to `to`, one after another.
pub open spec fn stream<N: Spectral>(
    taps: Seq<N::Sample>,
    fed: Seq<N::Sample>,
    floor: nat,
    block: nat,
    from: nat,
    to: nat,
) -> Seq<N::Sample>
    decreases to,
{
    if to <= from {
        Seq::empty()
    } else {
        stream::<N>(taps, fed, floor, block, from, (to - 1) as nat) + block_out::<N>(
            taps,
            fed,
            floor,
            block,
            to - 1,
        )
    }
}

/// Two signals that are the same before time `limit`.
pub open spec fn agree<N: Numeric>(a: Seq<N::Sample>, b: Seq<N::Sample>, limit: int) -> bool {
    forall|t: int| t < limit ==> #[trigger] sample_at::<N>(a, t) == sample_at::<N>(b, t)
}

proof fn lemma_block_spectrum_agrees<N: Spectral>(
    a: Seq<N::Sample>,
    b: Seq<N::Sample>,
    floor: nat,
    block: nat,
    m: int,
    last: int,
)
    requires
        m <= last,
        agree::<N>(a, b, (last + 1) * block),
    ensures
        block_spectrum::<N>(a, floor, block, m) == block_spectrum::<N>(b, floor, block, m),
{
    assert forall|i: int| 0 <= i < 2 * block implies window::<N>(a, block, m)[i] == window::<N>(
        b,
        block,
        m,
    )[i] by {
        let t = (m - 1) * block + i;
        assert(t < (last + 1) * block) by (nonlinear_arith)
            requires
                t == (m - 1) * block + i,
                i < 2 * block,
                m <= last,
        ;
        assert(sample_at::<N>(a, t) == sample_at::<N>(b, t));
    }
    assert(window::<N>(a, block, m) =~= window::<N>(b, block, m));
}

proof fn lemma_accumulated_agrees<N: Spectral>(
    taps: Seq<N::Sample>,
    a: Seq<N::Sample>,
    b: Seq<N::Sample>,
    floor: nat,
    block: nat,
    m: int,
    p: nat,
)
    requires
        agree::<N>(a, b, (m + 1) * block),
    ensures
        accumulated::<N>(taps, a, floor, block, m, p) == accumulated::<N>(
            taps,
            b,
            floor,
            block,
            m,
            p,
        ),
    decreases p,
{
    if p > 0 {
        lemma_accumulated_agrees::<N>(taps, a, b, floor, block, m, (p - 1) as nat);
        lemma_block_spectrum_agrees::<N>(a, b, floor, block, m - (p - 1), m);
    }
}

/// Output up to block `to` depends on the input up to the end of that block
/// alone.
pub proof fn output_is_causal<N: Spectral>(
    taps: Seq<N::Sample>,
    a: Seq<N::Sample>,
    b: Seq<N::Sample>,
    floor: nat,
    block: nat,
    from: nat,
    to: nat,
)
    requires
        agree::<N>(a, b, to * block as int),
    ensures
        stream::<N>(taps, a, floor, block, from, to) == stream::<N>(
            taps,
            b,
            floor,
            block,
            from,
            to,
        ),
    decreases to,
{
    if to > from {
        assert((to - 1) * block <= to * block) by (nonlinear_arith);
        output_is_causal::<N>(taps, a, b, floor, block, from, (to - 1) as nat);
        lemma_accumulated_agrees::<N>(
            taps,
            a,
            b,
            floor,
            block,
            to - 1,
            blocks_for(taps.len(), block),
        );
    }
}

/// A stream of output can be cut at any block.
pub proof fn lemma_stream_splits<N: Spectral>(
    taps: Seq<N::Sample>,
    fed: Seq<N::Sample>,
    floor: nat,
    block: nat,
    from: nat,
    mid: nat,
    to: nat,
)
    requires
        from <= mid <= to,
    ensures
        stream::<N>(taps, fed, floor, block, from, to) == stream::<N>(
            taps,
            fed,
            floor,
            block,
            from,
            mid,
        ) + stream::<N>(taps, fed, floor, block, mid, to),
    decreases to,
{
    if to > mid {
        lemma_stream_splits::<N>(taps, fed, floor, block, from, mid, (to - 1) as nat);
    }
    assert(stream::<N>(taps, fed, floor, block, from, to) =~= stream::<N>(
        taps,
        fed,
        floor,
        block,
        from,
        mid,
    ) + stream::<N>(taps, fed, floor, block, mid, to));
}

pub proof fn lemma_stream_len<N: Spectral>(
    taps: Seq<N::Sample>,
    fed: Seq<N::Sample>,
    floor: nat,
    block: nat,
    from: nat,
    to: nat,
)
    requires
        from <= to,
    ensures
        stream::<N>(taps, fed, floor, block, from, to).len() == (to - from) * block,
    decreases to,
{
    if to > from {
        lemma_stream_len::<N>(taps, fed, floor, block, from, (to - 1) as nat);
        assert((to - from) * block == (to - 1 - from) * block + block) by (nonlinear_arith);
    } else {
        assert(0 * block == 0);
    }
}

proof fn lemma_blocks_for(len: nat, block: nat)
    requires
        len > 0,
        block > 0,
    ensures
        blocks_for(len, block) == (len - 1) / block as int + 1,
        blocks_for(len, block) >= 1,
        blocks_for(len, block) <= len,
        (blocks_for(len, block) - 1) * block < len <= blocks_for(len, block) * block,
{
    let q = (len - 1) / block as int;
    assert((len + block - 1) / block as int == q + 1) by (nonlinear_arith)
        requires
            q == (len - 1) / block as int,
            block > 0,
            len > 0,
    ;
    vstd::arithmetic::div_mod::lemma_fundamental_div_mod(len - 1, block as int);
    assert(q * block <= len - 1 < q * block + block && 0 <= q <= len - 1) by (nonlinear_arith)
        requires
            len - 1 == block * q + (len - 1) % block as int,
            0 <= (len - 1) % block as int,
            ((len - 1) % block as int) < block,
            block > 0,
            len > 0,
    ;
    assert((q + 1) * block == q * block + block) by (nonlinear_arith);
}

/// More taps take no fewer blocks.
proof fn lemma_more_taps(fewer: nat, more: nat, block: nat)
    requires
        0 < fewer <= more,
        block > 0,
    ensures
        blocks_for(fewer, block) <= blocks_for(more, block),
{
    lemma_blocks_for(fewer, block);
    lemma_blocks_for(more, block);
    vstd::arithmetic::div_mod::lemma_div_is_ordered(fewer - 1, more - 1, block as int);
}

/// An impulse response, partitioned and transformed.
pub struct Kernel<N: Spectral> {
    block: usize,
    len: usize,
    spectra: Vec<N::Bins>,
    taps: Ghost<Seq<N::Sample>>,
}

impl<N: Spectral> Kernel<N> {
    /// The impulse response itself.
    pub closed spec fn taps(&self) -> Seq<N::Sample> {
        self.taps@
    }

    /// The partition size.
    pub closed spec fn block_size(&self) -> nat {
        self.block as nat
    }

    /// What holds between calls.
    pub closed spec fn wf(&self) -> bool {
        &&& self.block > 0
        &&& self.len > 0
        &&& self.len == self.taps@.len()
        &&& self.len + 2 * self.block <= usize::MAX
        &&& self.spectra@.len() == blocks_for(self.len as nat, self.block as nat)
        &&& forall|p: int|
            0 <= p < self.spectra@.len() ==> {
                &&& N::bins_size(#[trigger] self.spectra@[p]) == 2 * self.block
                &&& N::model(self.spectra@[p]) == N::spectrum(
                    partition::<N>(self.taps@, self.block as nat, p),
                )
            }
    }

    /// Cuts `taps` into partitions of `block` samples and transforms each.
    pub fn new(taps: &[N::Sample], block: usize) -> (kernel: Self)
        requires
            block > 0,
            taps@.len() > 0,
            taps@.len() + 2 * block <= usize::MAX,
        ensures
            kernel.wf(),
            kernel.taps() == taps@,
            kernel.block_size() == block,
    {
        let len: usize = taps.len();
        proof {
            lemma_blocks_for(len as nat, block as nat);
        }
        let partitions: usize = (len - 1) / block + 1;
        let mut plan = N::plan(2 * block);
        let mut spectra: Vec<N::Bins> = Vec::with_capacity(partitions);
        let mut p: usize = 0;
        let mut start: usize = 0;
        while p < partitions
            invariant
                p <= partitions,
                partitions == blocks_for(len as nat, block as nat),
                (partitions - 1) * block < len,
                len == taps@.len(),
                block > 0,
                len + 2 * block <= usize::MAX,
                p < partitions ==> start == p * block,
                N::plan_size(plan) == 2 * block,
                spectra@.len() == p,
                forall|q: int|
                    0 <= q < p ==> {
                        &&& N::bins_size(#[trigger] spectra@[q]) == 2 * block
                        &&& N::model(spectra@[q]) == N::spectrum(
                            partition::<N>(taps@, block as nat, q),
                        )
                    },
            decreases partitions - p,
        {
            assert(start < len) by (nonlinear_arith)
                requires
                    start == p * block,
                    p <= partitions - 1,
                    (partitions - 1) * block < len,
            ;
            let take: usize = if len - start < block {
                len - start
            } else {
                block
            };
            let mut pad: Vec<N::Sample> = Vec::with_capacity(2 * block);
            append_copy(&mut pad, vstd::slice::slice_subrange(taps, start, start + take));
            append_repeated(&mut pad, N::zero(), 2 * block - take);
            assert(pad@ =~= partition::<N>(taps@, block as nat, p as int));
            spectra.push(N::forward(&mut plan, pad.as_slice()));
            p += 1;
            if p < partitions {
                assert(p * block == (p - 1) * block + block) by (nonlinear_arith);
                start += block;
            }
        }
        Kernel { block, len, spectra, taps: Ghost(taps@) }
    }
}

/// The recent input of one channel, as spectra.
pub struct Line<N: Spectral> {
    block: usize,
    plan: N::Plan,
    /// How many blocks are kept at most.
    depth: usize,
    /// The spectra of the latest blocks, newest last.
    fdl: VecDeque<N::Bins>,
    /// What stands for a block that was never heard or is forgotten.
    silence: N::Bins,
    history: Vec<N::Sample>,
    fed: Ghost<Seq<N::Sample>>,
    floor: Ghost<nat>,
}

impl<N: Spectral> Line<N> {
    /// The whole blocks pushed since the line was empty.
    pub closed spec fn fed(self) -> Seq<N::Sample> {
        self.fed@
    }

    /// The first block that the line remembers, of those it has room for.
    pub closed spec fn floor(self) -> nat {
        self.floor@
    }

    /// How many blocks it remembers.
    pub closed spec fn depth(self) -> nat {
        self.depth as nat
    }

    /// The block size.
    pub closed spec fn block_size(self) -> nat {
        self.block as nat
    }

    /// How many blocks were pushed since the line was empty.
    pub open spec fn blocks(self) -> nat {
        self.fed().len() / self.block_size()
    }

    /// What holds between calls.
    pub closed spec fn wf(self) -> bool {
        &&& self.block > 0
        &&& 2 * self.block <= usize::MAX
        &&& N::plan_size(self.plan) == 2 * self.block
        &&& self.depth > 0
        &&& self.fdl@.len() <= self.depth
        &&& self.history@.len() == self.block
        &&& self.fed@.len() % self.block as nat == 0
        &&& self.floor@ + self.fdl@.len() <= self.fed@.len() / self.block as nat
        &&& self.fdl@.len() < self.depth ==> self.floor@ + self.fdl@.len() == self.fed@.len()
            / self.block as nat
        &&& N::bins_size(self.silence) == 2 * self.block
        &&& N::model(self.silence) == N::silent((2 * self.block) as nat)
        &&& forall|i: int|
            0 <= i < self.block ==> #[trigger] self.history@[i] == sample_at::<N>(
                self.fed@,
                self.fed@.len() - self.block + i,
            )
        &&& forall|p: int| 0 <= p < self.fdl@.len() ==> #[trigger] self.slot_holds(p)
    }

    /// Whether slot `p` holds the spectrum of its block.
    closed spec fn slot_holds(self, p: int) -> bool {
        let bins = self.fdl@[p];
        &&& N::bins_size(bins) == 2 * self.block
        &&& N::model(bins) == block_spectrum::<N>(
            self.fed@,
            self.floor@,
            self.block as nat,
            self.fed@.len() / self.block as nat - self.fdl@.len() + p,
        )
    }

    /// An empty line that remembers `depth` blocks.
    pub fn new(block: usize, depth: usize) -> (line: Self)
        requires
            block > 0,
            2 * block <= usize::MAX,
            depth > 0,
        ensures
            line.wf(),
            line.block_size() == block,
            line.depth() == depth,
            line.fed() == Seq::<N::Sample>::empty(),
            line.floor() == 0,
    {
        let plan = N::plan(2 * block);
        let silence = N::silence(&plan);
        assert(0nat / block as nat == 0 && 0nat % block as nat == 0) by (nonlinear_arith)
            requires
                block > 0,
        ;
        Line {
            block,
            plan,
            depth,
            fdl: VecDeque::new(),
            silence,
            history: filled(N::zero(), block),
            fed: Ghost(Seq::empty()),
            floor: Ghost(0nat),
        }
    }

    /// Forgets everything.
    pub fn reset(&mut self)
        requires
            old(self).wf(),
        ensures
            final(self).wf(),
            final(self).block_size() == old(self).block_size(),
            final(self).depth() == old(self).depth(),
            final(self).fed() == Seq::<N::Sample>::empty(),
            final(self).floor() == 0,
    {
        let fresh: Line<N> = Line::new(self.block, self.depth);
        *self = fresh;
    }

    /// Makes room for `depth` blocks. Blocks already forgotten stay forgotten.
    pub fn deepen(&mut self, depth: usize)
        requires
            old(self).wf(),
        ensures
            final(self).wf(),
            final(self).block_size() == old(self).block_size(),
            final(self).fed() == old(self).fed(),
            final(self).depth() == if depth > old(self).depth() {
                depth as nat
            } else {
                old(self).depth()
            },
            final(self).floor() == if depth > old(self).depth() && old(self).blocks()
                - old(self).depth() > old(self).floor() {
                (old(self).blocks() - old(self).depth()) as nat
            } else {
                old(self).floor()
            },
    {
        if depth <= self.depth {
            return;
        }
        let ghost before = *self;
        let ghost n = before.fed@.len() / before.block as nat;
        self.depth = depth;
        self.floor = Ghost((n - before.fdl@.len()) as nat);
        assert forall|p: int| 0 <= p < self.fdl@.len() implies #[trigger] self.slot_holds(p) by {
            assert(before.slot_holds(p));
        }
    }

    /// Takes in the next block of input.
    pub fn push(&mut self, input: &[N::Sample])
        requires
            old(self).wf(),
            input@.len() == old(self).block_size(),
        ensures
            final(self).wf(),
            final(self).block_size() == old(self).block_size(),
            final(self).depth() == old(self).depth(),
            final(self).floor() == old(self).floor(),
            final(self).fed() == old(self).fed() + input@,
    {
        let ghost before = *self;
        let mut whole: Vec<N::Sample> = Vec::with_capacity(2 * self.block);
        append_copy(&mut whole, self.history.as_slice());
        append_copy(&mut whole, input);
        let bins = N::forward(&mut self.plan, whole.as_slice());
        if self.fdl.len() == self.depth {
            self.fdl.pop_front();
        }
        self.fdl.push_back(bins);
        self.history = vstd::slice::slice_to_vec(input);
        self.fed = Ghost(before.fed@ + input@);
        proof {
            let block = before.block as nat;
            let n = before.fed@.len() / block;
            let len = before.fed@.len();
            vstd::arithmetic::div_mod::lemma_fundamental_div_mod(len as int, block as int);
            assert(len == n * block) by (nonlinear_arith)
                requires
                    len as int == block * (len as int / block as int) + (len as int) % (
                    block as int),
                    (len as int) % (block as int) == 0,
                    n == len as int / block as int,
            ;
            assert((n + 1) * block == n * block + block) by (nonlinear_arith);
            vstd::arithmetic::div_mod::lemma_fundamental_div_mod_converse(
                (len + block) as int,
                block as int,
                (n + 1) as int,
                0,
            );
            assert(self.fed@.len() / block == n + 1);
            assert((n - 1) * block == n * block - block) by (nonlinear_arith);
            assert(whole@ =~= window::<N>(self.fed@, block, n as int)) by {
                assert forall|i: int| 0 <= i < 2 * block implies whole@[i] == #[trigger] window::<
                    N,
                >(self.fed@, block, n as int)[i] by {
                    if i < block {
                        assert(before.history@[i] == sample_at::<N>(
                            before.fed@,
                            len - block + i,
                        ));
                    }
                }
            }
            assert(agree::<N>(before.fed@, self.fed@, n * block as int));
            let kept = self.fdl@.len() - 1;
            let dropped = before.fdl@.len() - kept;
            assert forall|p: int| 0 <= p <= kept implies #[trigger] self.slot_holds(p) by {
                if p < kept {
                    assert(before.slot_holds(p + dropped));
                    assert(self.fdl@[p] == before.fdl@[p + dropped]);
                    lemma_block_spectrum_agrees::<N>(
                        before.fed@,
                        self.fed@,
                        self.floor@,
                        block,
                        n - kept + p,
                        n - 1,
                    );
                }
            }
        }
    }

    /// The output of the latest block through `kernel`.
    pub fn render(&mut self, kernel: &Kernel<N>) -> (out: Vec<N::Sample>)
        requires
            old(self).wf(),
            kernel.wf(),
            kernel.block_size() == old(self).block_size(),
            blocks_for(kernel.taps().len(), kernel.block_size()) <= old(self).depth(),
            old(self).fed().len() > 0,
        ensures
            final(self).wf(),
            final(self).block_size() == old(self).block_size(),
            final(self).depth() == old(self).depth(),
            final(self).floor() == old(self).floor(),
            final(self).fed() == old(self).fed(),
            out@ == block_out::<N>(
                kernel.taps(),
                old(self).fed(),
                old(self).floor(),
                old(self).block_size(),
                old(self).blocks() - 1,
            ),
    {
        let ghost before = *self;
        let ghost m = before.blocks() - 1;
        let mut acc = N::silence(&self.plan);
        let partitions: usize = kernel.spectra.len();
        let kept: usize = self.fdl.len();
        let mut p: usize = 0;
        while p < partitions
            invariant
                p <= partitions,
                partitions == kernel.spectra@.len(),
                partitions <= self.depth,
                kept == self.fdl@.len(),
                *self == before,
                self.wf(),
                kernel.wf(),
                kernel.block == self.block,
                m == before.blocks() - 1,
                N::bins_size(acc) == 2 * self.block,
                N::model(acc) == accumulated::<N>(
                    kernel.taps@,
                    self.fed@,
                    self.floor@,
                    self.block as nat,
                    m,
                    p as nat,
                ),
            decreases partitions - p,
        {
            if p < kept {
                assert(self.slot_holds(kept - 1 - p));
                N::accumulate(&mut acc, &kernel.spectra[p], &self.fdl[kept - 1 - p]);
            } else {
                assert(m - p < self.floor@);
                N::accumulate(&mut acc, &kernel.spectra[p], &self.silence);
            }
            p += 1;
        }
        let whole: Vec<N::Sample> = N::inverse(&mut self.plan, acc);
        let mut out: Vec<N::Sample> = Vec::with_capacity(self.block);
        append_copy(
            &mut out,
            vstd::slice::slice_subrange(whole.as_slice(), self.block, 2 * self.block),
        );
        assert(out@ =~= block_out::<N>(
            kernel.taps(),
            before.fed(),
            before.floor(),
            before.block_size(),
            m,
        ));
        assert forall|p: int| 0 <= p < kept implies #[trigger] self.slot_holds(p) by {
            assert(before.slot_holds(p));
        }
        out
    }
}

/// How much output is still owed after `fed` went in: the samples of the last,
/// incomplete block and the tail of the kernel.
pub open spec fn owed(taps: nat, fed: nat, block: nat) -> nat {
    (fed % block + taps - 1) as nat
}

/// The output still owed after `fed` went in.
pub open spec fn tail<N: Spectral>(
    taps: Seq<N::Sample>,
    fed: Seq<N::Sample>,
    floor: nat,
    block: nat,
) -> Seq<N::Sample> {
    stream::<N>(
        taps,
        fed,
        floor,
        block,
        fed.len() / block,
        fed.len() / block + blocks_for(owed(taps.len(), fed.len(), block), block),
    ).take(owed(taps.len(), fed.len(), block) as int)
}

/// A whole number of blocks and a remainder shorter than one.
proof fn lemma_block_count(whole: nat, rest: nat, block: nat)
    requires
        block > 0,
        whole % block == 0,
        rest < block,
    ensures
        (whole + rest) / block == whole / block,
        (whole + rest) % block == rest,
        whole / block * block == whole,
{
    vstd::arithmetic::div_mod::lemma_fundamental_div_mod(whole as int, block as int);
    let n = whole as int / block as int;
    assert(block * n == n * block) by (nonlinear_arith);
    vstd::arithmetic::div_mod::lemma_fundamental_div_mod_converse(
        (whole + rest) as int,
        block as int,
        n,
        rest as int,
    );
}

/// One more whole block.
proof fn lemma_next_block(whole: nat, block: nat)
    requires
        block > 0,
        whole % block == 0,
    ensures
        (whole + block) / block == whole / block + 1,
        (whole + block) % block == 0,
{
    vstd::arithmetic::div_mod::lemma_fundamental_div_mod(whole as int, block as int);
    let n = whole as int / block as int;
    assert(whole + block == (n + 1) * block) by (nonlinear_arith)
        requires
            whole == block * n,
    ;
    vstd::arithmetic::div_mod::lemma_fundamental_div_mod_converse(
        (whole + block) as int,
        block as int,
        n + 1,
        0,
    );
}

/// Pushes `staged` and then silence through `kernel` until nothing is owed.
fn flush<N: Spectral>(line: &mut Line<N>, kernel: &Kernel<N>, staged: &[N::Sample]) -> (out: Vec<
    N::Sample,
>)
    requires
        old(line).wf(),
        kernel.wf(),
        kernel.block_size() == old(line).block_size(),
        blocks_for(kernel.taps().len(), kernel.block_size()) <= old(line).depth(),
        staged@.len() < old(line).block_size(),
    ensures
        final(line).wf(),
        final(line).block_size() == old(line).block_size(),
        final(line).depth() == old(line).depth(),
        out@ == tail::<N>(
            kernel.taps(),
            old(line).fed() + staged@,
            old(line).floor(),
            old(line).block_size(),
        ),
        out@.len() == owed(
            kernel.taps().len(),
            old(line).fed().len() + staged@.len(),
            old(line).block_size(),
        ),
{
    let block: usize = kernel.block;
    let ghost size = block as nat;
    let ghost fed = line.fed() + staged@;
    let ghost n = line.blocks();
    let ghost floor = line.floor();
    let ghost taps = kernel.taps();
    proof {
        lemma_block_count(line.fed().len(), staged@.len(), size);
    }
    let remaining: usize = staged.len() + (kernel.len - 1);
    let mut out: Vec<N::Sample> = Vec::with_capacity(remaining);
    let mut i: Ghost<nat> = Ghost(0nat);
    assert(agree::<N>(line.fed(), fed, n * size as int));
    assert(0 * size == 0);
    let ghost count = blocks_for(remaining as nat, size);
    proof {
        if remaining > 0 {
            lemma_blocks_for(remaining as nat, size);
        } else {
            assert((size - 1) / size as int == 0) by (nonlinear_arith)
                requires
                    size > 0,
            ;
        }
    }
    while out.len() < remaining
        invariant
            line.wf(),
            kernel.wf(),
            kernel.block == block,
            block == size,
            line.block_size() == size,
            line.depth() == old(line).depth(),
            line.floor() == floor,
            taps == kernel.taps(),
            blocks_for(taps.len(), size) <= line.depth(),
            staged@.len() < size,
            fed.len() == n * size + staged@.len(),
            fed.skip(n * size as int) == staged@,
            remaining == staged@.len() + taps.len() - 1,
            remaining + size <= usize::MAX,
            count == blocks_for(remaining as nat, size),
            remaining > 0 ==> (count - 1) * size < remaining <= count * size,
            remaining == 0 ==> count == 0,
            out@.len() == i@ * size,
            i@ <= count,
            line.fed().len() == (n + i@) * size,
            line.blocks() == n + i@,
            agree::<N>(line.fed(), fed, (n + i@) * size as int),
            out@ == stream::<N>(taps, fed, floor, size, n, n + i@),
        decreases count - i@,
    {
        let mut input: Vec<N::Sample> = Vec::with_capacity(block);
        if out.len() == 0 {
            append_copy(&mut input, staged);
            append_repeated(&mut input, N::zero(), block - staged.len());
        } else {
            append_repeated(&mut input, N::zero(), block);
        }
        let ghost earlier = line.fed();
        let ghost k = i@;
        proof {
            if out@.len() == 0 {
                assert(k == 0) by (nonlinear_arith)
                    requires
                        out@.len() == k * size,
                        out@.len() == 0,
                        size > 0,
                ;
            } else {
                assert(k >= 1) by (nonlinear_arith)
                    requires
                        out@.len() == k * size,
                        out@.len() > 0,
                        size > 0,
                ;
                assert((n + k) * size >= n * size + size) by (nonlinear_arith)
                    requires
                        k >= 1,
                ;
            }
            assert((n + k + 1) * size == (n + k) * size + size) by (nonlinear_arith);
            assert((k + 1) * size == k * size + size) by (nonlinear_arith);
            assert(((n + k) * size) % size == 0) by (nonlinear_arith)
                requires
                    size > 0,
            ;
            lemma_next_block(earlier.len(), size);
            assert(k < count) by (nonlinear_arith)
                requires
                    k * size < remaining,
                    remaining <= count * size,
            ;
        }
        line.push(input.as_slice());
        proof {
            assert forall|t: int| t < (n + k + 1) * size implies #[trigger] sample_at::<N>(
                line.fed(),
                t,
            ) == sample_at::<N>(fed, t) by {
                if t < (n + k) * size {
                    assert(sample_at::<N>(earlier, t) == sample_at::<N>(fed, t));
                } else if k == 0 {
                    if t < fed.len() {
                        assert(fed[t] == fed.skip(n * size as int)[t - n * size]);
                    }
                }
            }
        }
        let rendered: Vec<N::Sample> = line.render(kernel);
        proof {
            lemma_accumulated_agrees::<N>(
                taps,
                line.fed(),
                fed,
                floor,
                size,
                (n + k) as int,
                blocks_for(taps.len(), size),
            );
        }
        append_copy(&mut out, rendered.as_slice());
        i = Ghost(i@ + 1);
    }
    proof {
        assert(i@ == count) by {
            if remaining > 0 {
                assert(i@ > count - 1) by (nonlinear_arith)
                    requires
                        i@ * size >= remaining,
                        (count - 1) * size < remaining,
                ;
            }
        }
    }
    out.truncate(remaining);
    out
}

/// A tail is as long as what is owed.
pub proof fn lemma_tail_len<N: Spectral>(
    taps: Seq<N::Sample>,
    fed: Seq<N::Sample>,
    floor: nat,
    block: nat,
)
    requires
        block > 0,
        taps.len() > 0,
    ensures
        tail::<N>(taps, fed, floor, block).len() == owed(taps.len(), fed.len(), block),
{
    let n = fed.len() / block;
    let left = owed(taps.len(), fed.len(), block);
    let count = blocks_for(left, block);
    lemma_stream_len::<N>(taps, fed, floor, block, n, n + count);
    if left > 0 {
        lemma_blocks_for(left, block);
    } else {
        assert(count * block >= 0) by (nonlinear_arith);
    }
}

/// One channel of audio through one kernel.
///
/// Input that does not fill a block waits for the rest of it.
pub struct Convolver<N: Spectral> {
    kernel: Arc<Kernel<N>>,
    line: Line<N>,
    staged: Vec<N::Sample>,
    started: bool,
}

impl<N: Spectral> Convolver<N> {
    /// The impulse response.
    pub closed spec fn taps(self) -> Seq<N::Sample> {
        self.kernel.taps()
    }

    /// The block size.
    pub closed spec fn block_size(self) -> nat {
        self.kernel.block_size()
    }

    /// All input since the stream began.
    pub closed spec fn fed(self) -> Seq<N::Sample> {
        self.line.fed() + self.staged@
    }

    /// What holds between calls.
    pub closed spec fn wf(self) -> bool {
        &&& self.kernel.wf()
        &&& self.line.wf()
        &&& self.line.block_size() == self.kernel.block_size()
        &&& self.line.depth() == blocks_for(self.kernel.taps().len(), self.kernel.block_size())
        &&& self.line.floor() == 0
        &&& self.line.fed().len() % self.kernel.block_size() == 0
        &&& self.staged@.len() < self.kernel.block_size()
        &&& self.started == (self.line.fed().len() + self.staged@.len() > 0)
    }

    /// What a sound convolver always is, as the laws of this module ask for it.
    pub proof fn always(&self)
        requires
            self.wf(),
        ensures
            self.block_size() > 0,
            self.taps().len() > 0,
    {
    }

    /// A fresh stream through `kernel`, in blocks of `block` samples.
    pub fn new(kernel: &[N::Sample], block: usize) -> (convolver: Self)
        requires
            block > 0,
            kernel@.len() > 0,
            kernel@.len() + 2 * block <= usize::MAX,
        ensures
            convolver.wf(),
            convolver.taps() == kernel@,
            convolver.block_size() == block,
            convolver.fed() == Seq::<N::Sample>::empty(),
    {
        Convolver::from_kernel(Arc::new(Kernel::new(kernel, block)))
    }

    /// A fresh stream through a kernel that others may share.
    pub fn from_kernel(kernel: Arc<Kernel<N>>) -> (convolver: Self)
        requires
            kernel.wf(),
        ensures
            convolver.wf(),
            convolver.taps() == kernel.taps(),
            convolver.block_size() == kernel.block_size(),
            convolver.fed() == Seq::<N::Sample>::empty(),
    {
        proof {
            lemma_blocks_for(kernel.taps().len(), kernel.block_size());
            assert(0nat % kernel.block_size() == 0) by (nonlinear_arith)
                requires
                    kernel.block_size() > 0,
            ;
        }
        let line: Line<N> = Line::new(kernel.block, kernel.spectra.len());
        let convolver = Convolver { kernel, line, staged: Vec::new(), started: false };
        assert(convolver.fed() =~= Seq::<N::Sample>::empty());
        convolver
    }

    /// Frames of delay that the convolver adds: none.
    pub fn latency_frames(&self) -> (frames: usize)
        ensures
            frames == 0,
    {
        0
    }

    /// Frames accepted but waiting for the rest of their block.
    pub fn staged_frames(&self) -> (frames: usize)
        requires
            self.wf(),
        ensures
            frames == self.fed().len() % self.block_size(),
    {
        proof {
            lemma_block_count(self.line.fed().len(), self.staged@.len(), self.block_size());
        }
        self.staged.len()
    }

    /// Convolves `input`, appending every block that it completes to `output`.
    pub fn process(&mut self, input: &[N::Sample], output: &mut Vec<N::Sample>)
        requires
            old(self).wf(),
        ensures
            final(self).wf(),
            final(self).taps() == old(self).taps(),
            final(self).block_size() == old(self).block_size(),
            final(self).fed() == old(self).fed() + input@,
            final(output)@ == old(output)@ + stream::<N>(
                old(self).taps(),
                final(self).fed(),
                0,
                old(self).block_size(),
                old(self).fed().len() / old(self).block_size(),
                final(self).fed().len() / old(self).block_size(),
            ),
    {
        let block: usize = self.kernel.block;
        let ghost size = block as nat;
        let ghost taps = self.taps();
        let ghost kernel = self.kernel;
        let ghost first = self.line.blocks();
        let ghost whole = self.fed() + input@;
        let ghost begun = output@;
        proof {
            lemma_block_count(self.line.fed().len(), self.staged@.len(), size);
        }
        if input.len() > 0 {
            self.started = true;
        }
        let mut at: usize = 0;
        assert(self.fed() + input@.subrange(0, 0) =~= self.fed());
        assert(stream::<N>(taps, whole, 0, size, first, first) =~= Seq::empty());
        while input.len() - at >= block - self.staged.len()
            invariant
                at <= input@.len(),
                self.kernel == kernel,
                kernel.wf(),
                block == size,
                kernel.block_size() == size,
                kernel.block == block,
                taps == kernel.taps(),
                self.line.wf(),
                self.line.block_size() == size,
                self.line.depth() == blocks_for(taps.len(), size),
                self.line.floor() == 0,
                self.line.fed().len() % size == 0,
                self.staged@.len() < size,
                self.started == (old(self).started || input@.len() > 0),
                self.line.fed() + self.staged@ == old(self).fed() + input@.subrange(0, at as int),
                whole == old(self).fed() + input@,
                first <= self.line.blocks(),
                first == old(self).line.blocks(),
                output@ == begun + stream::<N>(taps, whole, 0, size, first, self.line.blocks()),
            decreases input.len() - at,
        {
            let take: usize = block - self.staged.len();
            let ghost earlier = self.line.fed();
            let ghost so_far = self.line.fed() + self.staged@;
            append_copy(&mut self.staged, vstd::slice::slice_subrange(input, at, at + take));
            at += take;
            proof {
                lemma_next_block(earlier.len(), size);
                assert(so_far + input@.subrange(at - take, at as int) =~= old(self).fed()
                    + input@.subrange(0, at as int));
                assert(earlier + self.staged@ =~= so_far + input@.subrange(at - take, at as int));
            }
            self.line.push(self.staged.as_slice());
            let rendered: Vec<N::Sample> = self.line.render(&self.kernel);
            append_copy(output, rendered.as_slice());
            self.staged.clear();
            proof {
                let n = self.line.blocks();
                assert(self.line.fed() =~= old(self).fed() + input@.subrange(0, at as int));
                lemma_block_count(self.line.fed().len(), 0, size);
                assert(agree::<N>(self.line.fed(), whole, n * size as int));
                assert((n - 1 + 1) * size == n * size);
                lemma_accumulated_agrees::<N>(
                    taps,
                    self.line.fed(),
                    whole,
                    0,
                    size,
                    n - 1,
                    blocks_for(taps.len(), size),
                );
                assert(self.line.fed() + self.staged@ =~= self.line.fed());
            }
        }
        let ghost so_far = self.line.fed() + self.staged@;
        append_copy(&mut self.staged, vstd::slice::slice_subrange(input, at, input.len()));
        proof {
            let last = input@.subrange(at as int, input@.len() as int);
            assert(self.fed() =~= so_far + last);
            assert(input@.subrange(0, at as int) + last =~= input@);
            assert(self.fed() =~= whole);
            lemma_block_count(self.line.fed().len(), self.staged@.len(), size);
        }
    }

    /// Appends all output still owed and begins a fresh stream. A stream that
    /// never began owes nothing.
    pub fn drain(&mut self, output: &mut Vec<N::Sample>)
        requires
            old(self).wf(),
        ensures
            final(self).wf(),
            final(self).taps() == old(self).taps(),
            final(self).block_size() == old(self).block_size(),
            final(self).fed() == Seq::<N::Sample>::empty(),
            old(self).fed().len() == 0 ==> final(output)@ == old(output)@,
            old(self).fed().len() > 0 ==> final(output)@ == old(output)@ + tail::<N>(
                old(self).taps(),
                old(self).fed(),
                0,
                old(self).block_size(),
            ),
    {
        if !self.started {
            assert(self.fed() =~= Seq::<N::Sample>::empty());
            return;
        }
        let rest: Vec<N::Sample> = flush(&mut self.line, &self.kernel, self.staged.as_slice());
        append_copy(output, rest.as_slice());
        self.restart();
    }

    /// Drops all audio, leaving a fresh stream.
    pub fn reset(&mut self)
        requires
            old(self).wf(),
        ensures
            final(self).wf(),
            final(self).taps() == old(self).taps(),
            final(self).block_size() == old(self).block_size(),
            final(self).fed() == Seq::<N::Sample>::empty(),
    {
        self.restart();
    }

    fn restart(&mut self)
        requires
            old(self).kernel.wf(),
            old(self).line.wf(),
            old(self).line.block_size() == old(self).kernel.block_size(),
            old(self).line.depth() == blocks_for(
                old(self).kernel.taps().len(),
                old(self).kernel.block_size(),
            ),
        ensures
            final(self).wf(),
            final(self).kernel == old(self).kernel,
            final(self).fed() == Seq::<N::Sample>::empty(),
    {
        self.line.reset();
        self.staged.clear();
        self.started = false;
        assert(0nat % self.kernel.block_size() == 0) by (nonlinear_arith)
            requires
                self.kernel.block_size() > 0,
        ;
        assert(self.fed() =~= Seq::<N::Sample>::empty());
    }
}

/// The two outputs of one block mixed from `a` to `b` by equal power.
pub open spec fn crossfaded<N: Numeric>(a: Seq<N::Sample>, b: Seq<N::Sample>) -> Seq<N::Sample> {
    Seq::new(
        a.len(),
        |i: int|
            {
                let gains = N::circle_point(i as nat, 4 * a.len());
                N::sum(N::product(a[i], gains.0), N::product(b[i], gains.1))
            },
    )
}

/// Output blocks `from` up to `to` of a channel. With a kernel waiting, the
/// first of them fades over to it and the rest are its own.
pub open spec fn lane_out<N: Spectral>(
    taps: Seq<N::Sample>,
    next: Option<Seq<N::Sample>>,
    fed: Seq<N::Sample>,
    floor: nat,
    block: nat,
    from: nat,
    to: nat,
) -> Seq<N::Sample> {
    match next {
        None => stream::<N>(taps, fed, floor, block, from, to),
        Some(coming) => if to <= from {
            Seq::empty()
        } else {
            crossfaded::<N>(
                block_out::<N>(taps, fed, floor, block, from as int),
                block_out::<N>(coming, fed, floor, block, from as int),
            ) + stream::<N>(coming, fed, floor, block, from + 1, to)
        },
    }
}

/// Mixes `a` over to `b` by equal power.
fn crossfade<N: Spectral>(a: &[N::Sample], b: &[N::Sample]) -> (mixed: Vec<N::Sample>)
    requires
        a@.len() == b@.len(),
        4 * a@.len() <= CIRCLE_STEPS,
    ensures
        mixed@ == crossfaded::<N>(a@, b@),
{
    let n: usize = a.len();
    let mut mixed: Vec<N::Sample> = Vec::with_capacity(n);
    let mut i: usize = 0;
    while i < n
        invariant
            i <= n,
            n == a@.len(),
            n == b@.len(),
            4 * n <= CIRCLE_STEPS,
            mixed@ == crossfaded::<N>(a@, b@).take(i as int),
        decreases n - i,
    {
        let (out, into) = N::circle(i as u64, 4 * n as u64);
        mixed.push(N::plus(N::times(a[i], out), N::times(b[i], into)));
        i += 1;
    }
    mixed
}

/// Pushes whole blocks of one channel through `kernel`, fading over to `next`
/// in the first of them where one is waiting.
fn run_lane<N: Spectral>(
    line: &mut Line<N>,
    kernel: &Kernel<N>,
    next: &Option<Arc<Kernel<N>>>,
    input: &[N::Sample],
) -> (out: Vec<N::Sample>)
    requires
        old(line).wf(),
        kernel.wf(),
        kernel.block_size() == old(line).block_size(),
        blocks_for(kernel.taps().len(), kernel.block_size()) <= old(line).depth(),
        next matches Some(coming) ==> {
            &&& coming.wf()
            &&& coming.block_size() == old(line).block_size()
            &&& blocks_for(coming.taps().len(), coming.block_size()) <= old(line).depth()
        },
        4 * kernel.block_size() <= CIRCLE_STEPS,
        input@.len() % old(line).block_size() == 0,
    ensures
        final(line).wf(),
        final(line).block_size() == old(line).block_size(),
        final(line).depth() == old(line).depth(),
        final(line).floor() == old(line).floor(),
        final(line).fed() == old(line).fed() + input@,
        out@ == lane_out::<N>(
            kernel.taps(),
            waiting(*next),
            final(line).fed(),
            old(line).floor(),
            old(line).block_size(),
            old(line).blocks(),
            final(line).blocks(),
        ),
        out@.len() == input@.len(),
{
    let block: usize = kernel.block;
    let ghost size = block as nat;
    let ghost begun = line.fed();
    let ghost whole = line.fed() + input@;
    let ghost first = line.blocks();
    let ghost floor = line.floor();
    let ghost taps = kernel.taps();
    let ghost coming = waiting(*next);
    let mut out: Vec<N::Sample> = Vec::with_capacity(input.len());
    let mut at: usize = 0;
    proof {
        lemma_block_count(line.fed().len(), 0, size);
        assert(line.fed() + input@.subrange(0, 0) =~= line.fed());
    }
    while at < input.len()
        invariant
            line.wf(),
            kernel.wf(),
            kernel.block == block,
            block == size,
            taps == kernel.taps(),
            coming == waiting(*next),
            line.block_size() == size,
            line.depth() == old(line).depth(),
            line.floor() == floor,
            blocks_for(taps.len(), size) <= line.depth(),
            next matches Some(k) ==> {
                &&& k.wf()
                &&& k.block_size() == size
                &&& blocks_for(k.taps().len(), size) <= line.depth()
            },
            4 * size <= CIRCLE_STEPS,
            begun == old(line).fed(),
            whole == begun + input@,
            begun.len() % size == 0,
            begun.len() / size == first,
            input@.len() % size == 0,
            at <= input@.len(),
            at % block == 0,
            line.fed() == begun + input@.subrange(0, at as int),
            line.fed().len() % size == 0,
            first <= line.blocks(),
            at > 0 ==> first < line.blocks(),
            at == 0 ==> first == line.blocks(),
            out@ == lane_out::<N>(taps, coming, whole, floor, size, first, line.blocks()),
            out@.len() == at,
        decreases input.len() - at,
    {
        proof {
            lemma_room_for_block(at as nat, input@.len(), size);
            lemma_next_block(at as nat, size);
            lemma_next_block(line.fed().len(), size);
            assert(begun + input@.subrange(0, at as int) + input@.subrange(
                at as int,
                at + block,
            ) =~= begun + input@.subrange(0, at + block));
        }
        let ghost n = line.blocks();
        line.push(vstd::slice::slice_subrange(input, at, at + block));
        proof {
            lemma_block_count(line.fed().len(), 0, size);
            assert(agree::<N>(line.fed(), whole, (n + 1) * size as int));
            lemma_accumulated_agrees::<N>(
                taps,
                line.fed(),
                whole,
                floor,
                size,
                n as int,
                blocks_for(taps.len(), size),
            );
            if let Some(k) = coming {
                lemma_accumulated_agrees::<N>(
                    k,
                    line.fed(),
                    whole,
                    floor,
                    size,
                    n as int,
                    blocks_for(k.len(), size),
                );
            }
        }
        match next {
            None => {
                let rendered: Vec<N::Sample> = line.render(kernel);
                append_copy(&mut out, rendered.as_slice());
            },
            Some(incoming) => {
                if at == 0 {
                    let from: Vec<N::Sample> = line.render(kernel);
                    let into: Vec<N::Sample> = line.render(incoming);
                    let mixed: Vec<N::Sample> = crossfade::<N>(from.as_slice(), into.as_slice());
                    append_copy(&mut out, mixed.as_slice());
                    assert(stream::<N>(
                        incoming.taps(),
                        whole,
                        floor,
                        size,
                        first + 1,
                        first + 1,
                    ) =~= Seq::empty());
                    assert(out@ =~= lane_out::<N>(
                        taps,
                        coming,
                        whole,
                        floor,
                        size,
                        first,
                        line.blocks(),
                    ));
                } else {
                    let rendered: Vec<N::Sample> = line.render(incoming);
                    let ghost had = out@;
                    append_copy(&mut out, rendered.as_slice());
                    assert(out@ =~= lane_out::<N>(
                        taps,
                        coming,
                        whole,
                        floor,
                        size,
                        first,
                        n + 1,
                    ));
                }
            },
        }
        at += block;
    }
    assert(input@.subrange(0, input@.len() as int) =~= input@);
    out
}

/// Two multiples of `block`, the one below the other, lie at least a block apart.
proof fn lemma_room_for_block(low: nat, high: nat, block: nat)
    requires
        block > 0,
        low % block == 0,
        high % block == 0,
        low < high,
    ensures
        low + block <= high,
{
    lemma_block_count(low, 0, block);
    lemma_block_count(high, 0, block);
    let a = low / block;
    let b = high / block;
    assert(low + block <= high) by (nonlinear_arith)
        requires
            low == a * block,
            high == b * block,
            low < high,
    ;
}

/// The impulse response of a kernel that waits to be faded in.
pub open spec fn waiting<N: Spectral>(next: Option<Arc<Kernel<N>>>) -> Option<Seq<N::Sample>> {
    match next {
        None => None,
        Some(kernel) => Some(kernel.taps()),
    }
}

/// Interleaved audio through one kernel on every channel, with a kernel
/// exchange that does not click: the next block fades from the old kernel to
/// the new one, which runs over the same past input and so comes in warm.
pub struct StereoConvolver<N: Spectral> {
    channels: usize,
    kernel: Arc<Kernel<N>>,
    /// The kernel that the next block fades over to.
    next: Option<Arc<Kernel<N>>>,
    lines: Vec<Line<N>>,
    /// Whole frames that wait for the rest of their block.
    staged: Vec<N::Sample>,
    started: bool,
}

impl<N: Spectral> StereoConvolver<N> {
    /// The channel count.
    pub closed spec fn channels(&self) -> nat {
        self.channels as nat
    }

    /// The block size.
    pub closed spec fn block_size(&self) -> nat {
        self.kernel.block_size()
    }

    /// The impulse response in use.
    pub closed spec fn taps(&self) -> Seq<N::Sample> {
        self.kernel.taps()
    }

    /// The impulse response that the next block fades over to.
    pub closed spec fn coming(&self) -> Option<Seq<N::Sample>> {
        waiting(self.next)
    }

    /// All input of channel `c` since the stream began.
    pub closed spec fn fed(&self, c: int) -> Seq<N::Sample> {
        self.lines@[c].fed() + channel_of(self.staged@, self.channels as nat, c)
    }

    /// How many frames came in since the stream began.
    pub closed spec fn frames(&self) -> nat {
        self.lines@[0].fed().len() + self.staged@.len() / self.channels as nat
    }

    /// The first input block that the convolver remembers, of those it has room
    /// for. It is 0 but after a change to a kernel longer than it keeps input
    /// for, in the middle of a stream longer than that.
    pub closed spec fn floor(&self) -> nat {
        self.lines@[0].floor()
    }

    /// How many blocks of history the convolver keeps.
    pub closed spec fn depth(&self) -> nat {
        self.lines@[0].depth()
    }

    /// Whether the input at hand reaches back as far as a kernel of `len` taps
    /// does.
    pub open spec fn remembers(&self, len: nat) -> bool {
        &&& self.floor() == 0
        &&& {
            ||| blocks_for(len, self.block_size()) <= self.depth()
            ||| self.frames() / self.block_size() <= self.depth()
        }
    }

    closed spec fn line_fits(&self, c: int) -> bool {
        &&& self.lines@[c].wf()
        &&& self.lines@[c].block_size() == self.kernel.block_size()
        &&& self.lines@[c].fed().len() == self.lines@[0].fed().len()
        &&& self.lines@[c].floor() == self.lines@[0].floor()
        &&& self.lines@[c].depth() == self.lines@[0].depth()
    }

    /// What holds between calls.
    pub closed spec fn wf(&self) -> bool {
        &&& self.channels > 0
        &&& self.lines@.len() == self.channels
        &&& self.kernel.wf()
        &&& 4 * self.kernel.block_size() <= CIRCLE_STEPS
        &&& blocks_for(self.kernel.taps().len(), self.kernel.block_size()) <= self.depth()
        &&& self.next matches Some(coming) ==> {
            &&& coming.wf()
            &&& coming.block_size() == self.kernel.block_size()
            &&& blocks_for(coming.taps().len(), coming.block_size()) <= self.depth()
        }
        &&& forall|c: int| 0 <= c < self.channels ==> #[trigger] self.line_fits(c)
        &&& self.lines@[0].fed().len() % self.kernel.block_size() == 0
        &&& self.staged@.len() % self.channels as nat == 0
        &&& self.staged@.len() / (self.channels as nat) < self.kernel.block_size()
        &&& self.started == (self.frames() > 0)
    }

    /// What a sound convolver always is, as the laws of this module ask for it.
    pub proof fn always(&self)
        requires
            self.wf(),
        ensures
            self.channels() > 0,
            self.block_size() > 0,
            self.taps().len() > 0,
            self.coming() matches Some(kernel) ==> kernel.len() > 0,
            forall|c: int|
                0 <= c < self.channels() ==> (#[trigger] self.fed(c)).len() == self.frames(),
    {
        assert forall|c: int| 0 <= c < self.channels() implies (#[trigger] self.fed(c)).len()
            == self.frames() by {
            assert(self.line_fits(c));
        }
    }

    /// A fresh stream of `channels` channels through `kernel`, in blocks of
    /// `block` frames. It keeps all of its input, so that a kernel of any length
    /// can take over.
    pub fn new(kernel: &[N::Sample], block: usize, channels: usize) -> (convolver: Self)
        requires
            block > 0,
            4 * block <= CIRCLE_STEPS,
            kernel@.len() > 0,
            kernel@.len() + 2 * block <= usize::MAX,
            channels > 0,
        ensures
            convolver.wf(),
            convolver.channels() == channels,
            convolver.block_size() == block,
            convolver.taps() == kernel@,
            convolver.coming() is None,
            convolver.frames() == 0,
            convolver.floor() == 0,
            convolver.depth() == usize::MAX,
            forall|c: int|
                0 <= c < channels ==> #[trigger] convolver.fed(c) == Seq::<N::Sample>::empty(),
    {
        proof {
            lemma_blocks_for(kernel@.len(), block as nat);
        }
        StereoConvolver::keeping(kernel, block, channels, usize::MAX)
    }

    /// A fresh stream like that of [`new`](Self::new) which keeps no more input
    /// than kernels of up to `longest` taps reach back to.
    pub fn remembering(
        kernel: &[N::Sample],
        block: usize,
        channels: usize,
        longest: usize,
    ) -> (convolver: Self)
        requires
            block > 0,
            4 * block <= CIRCLE_STEPS,
            0 < kernel@.len() <= longest,
            kernel@.len() + 2 * block <= usize::MAX,
            channels > 0,
        ensures
            convolver.wf(),
            convolver.channels() == channels,
            convolver.block_size() == block,
            convolver.taps() == kernel@,
            convolver.coming() is None,
            convolver.frames() == 0,
            convolver.floor() == 0,
            convolver.depth() == blocks_for(longest as nat, block as nat),
            forall|c: int|
                0 <= c < channels ==> #[trigger] convolver.fed(c) == Seq::<N::Sample>::empty(),
    {
        proof {
            lemma_blocks_for(longest as nat, block as nat);
            lemma_more_taps(kernel@.len(), longest as nat, block as nat);
        }
        StereoConvolver::keeping(kernel, block, channels, (longest - 1) / block + 1)
    }

    fn keeping(kernel: &[N::Sample], block: usize, channels: usize, depth: usize) -> (convolver:
        Self)
        requires
            block > 0,
            4 * block <= CIRCLE_STEPS,
            kernel@.len() > 0,
            kernel@.len() + 2 * block <= usize::MAX,
            channels > 0,
            depth > 0,
            blocks_for(kernel@.len(), block as nat) <= depth,
        ensures
            convolver.wf(),
            convolver.channels() == channels,
            convolver.block_size() == block,
            convolver.taps() == kernel@,
            convolver.coming() is None,
            convolver.frames() == 0,
            convolver.floor() == 0,
            convolver.depth() == depth,
            forall|c: int|
                0 <= c < channels ==> #[trigger] convolver.fed(c) == Seq::<N::Sample>::empty(),
    {
        let kernel: Kernel<N> = Kernel::new(kernel, block);
        proof {
            lemma_blocks_for(kernel.taps().len(), kernel.block_size());
            assert(0nat % kernel.block_size() == 0) by (nonlinear_arith)
                requires
                    kernel.block_size() > 0,
            ;
            assert(0nat / channels as nat == 0 && 0nat % channels as nat == 0) by (nonlinear_arith)
                requires
                    channels > 0,
            ;
        }
        let mut lines: Vec<Line<N>> = Vec::with_capacity(channels);
        let mut c: usize = 0;
        while c < channels
            invariant
                c <= channels,
                block > 0,
                2 * block <= usize::MAX,
                depth > 0,
                lines@.len() == c,
                forall|k: int|
                    0 <= k < c ==> {
                        &&& (#[trigger] lines@[k]).wf()
                        &&& lines@[k].block_size() == block
                        &&& lines@[k].depth() == depth
                        &&& lines@[k].fed() == Seq::<N::Sample>::empty()
                        &&& lines@[k].floor() == 0
                    },
            decreases channels - c,
        {
            lines.push(Line::new(block, depth));
            c += 1;
        }
        let convolver = StereoConvolver {
            channels,
            kernel: Arc::new(kernel),
            next: None,
            lines,
            staged: Vec::new(),
            started: false,
        };
        assert forall|k: int| 0 <= k < channels implies #[trigger] convolver.fed(k)
            == Seq::<N::Sample>::empty() && convolver.line_fits(k) by {
            assert(convolver.fed(k) =~= Seq::<N::Sample>::empty());
        }
        convolver
    }

    /// Frames of delay that the convolver adds: none.
    pub fn latency_frames(&self) -> (frames: usize)
        ensures
            frames == 0,
    {
        0
    }

    /// Frames accepted but waiting for the rest of their block.
    pub fn staged_frames(&self) -> (frames: usize)
        requires
            self.wf(),
        ensures
            frames == self.frames() % self.block_size(),
    {
        proof {
            lemma_block_count(
                self.lines@[0].fed().len(),
                self.staged@.len() / self.channels as nat,
                self.block_size(),
            );
        }
        self.staged.len() / self.channels
    }

    /// Whether a kernel waits for the next block.
    pub fn exchanging(&self) -> (waits: bool)
        ensures
            waits == (self.coming() is Some),
    {
        self.next.is_some()
    }

    /// Fades over to `kernel` during the next block. A kernel that still
    /// waited for its own block is dropped.
    pub fn set_kernel(&mut self, kernel: &[N::Sample])
        requires
            old(self).wf(),
            kernel@.len() > 0,
            kernel@.len() + 2 * old(self).block_size() <= usize::MAX,
        ensures
            final(self).wf(),
            final(self).awaits(*old(self), kernel@),
    {
        proof {
            lemma_block_count(
                self.lines@[0].fed().len(),
                self.staged@.len() / self.channels as nat,
                self.block_size(),
            );
        }
        let coming: Kernel<N> = Kernel::new(kernel, self.kernel.block);
        let depth: usize = coming.spectra.len();
        let ghost before = *self;
        let mut c: usize = 0;
        while c < self.channels
            invariant
                before.wf(),
                c <= self.channels,
                self.channels == before.channels,
                self.kernel == before.kernel,
                self.next == before.next,
                self.staged == before.staged,
                self.started == before.started,
                self.lines@.len() == self.channels,
                forall|k: int| c <= k < self.channels ==> #[trigger] self.lines@[k] == before.lines@[k],
                forall|k: int|
                    0 <= k < c ==> {
                        &&& (#[trigger] self.lines@[k]).wf()
                        &&& self.lines@[k].block_size() == before.block_size()
                        &&& self.lines@[k].fed() == before.lines@[k].fed()
                        &&& self.lines@[k].depth() == if depth > before.depth() {
                            depth as nat
                        } else {
                            before.depth()
                        }
                        &&& self.lines@[k].floor() == if depth > before.depth()
                            && before.lines@[0].blocks() - before.depth() > before.floor() {
                            (before.lines@[0].blocks() - before.depth()) as nat
                        } else {
                            before.floor()
                        }
                    },
            decreases self.channels - c,
        {
            assert(before.line_fits(c as int) && before.line_fits(0));
            self.lines[c].deepen(depth);
            c += 1;
        }
        self.next = Some(Arc::new(coming));
        proof {
            assert(before.line_fits(0));
            assert forall|k: int| 0 <= k < self.channels implies #[trigger] self.line_fits(k) by {
                assert(before.line_fits(k));
            }
        }
    }

    /// Convolves interleaved `input`, appending every block that it completes
    /// to `output`. A trailing partial frame is dropped.
    pub fn process(&mut self, input: &[N::Sample], output: &mut Vec<N::Sample>)
        requires
            old(self).wf(),
        ensures
            final(self).wf(),
            final(self).took(*old(self), input@),
            final(output)@ == old(output)@ + stereo_out(*old(self), *final(self)),
    {
        let ghost before = *self;
        let channels: usize = self.channels;
        let ghost ch = channels as nat;
        let block: usize = self.kernel.block;
        let ghost size = block as nat;
        self.stage(input);
        let blocks: usize = self.staged.len() / channels / block;
        proof {
            lemma_block_count(before.lines@[0].fed().len(), before.staged@.len() / ch, size);
            lemma_whole_blocks(before.lines@[0].fed().len(), self.staged@.len() / ch, size);
        }
        proof {
            assert(before.line_fits(0));
            assert forall|c: int| 0 <= c < ch implies #[trigger] self.line_fits(c) by {
                assert(before.line_fits(c));
            }
        }
        if blocks == 0 {
            proof {
                let span = self.frames() / size - before.frames() / size;
                assert(span * size == 0) by (nonlinear_arith)
                    requires
                        span == 0,
                ;
                assert(0 * ch == 0) by (nonlinear_arith);
                assert(stereo_out(before, *self) =~= Seq::empty());
            }
            return ;
        }
        let ghost begun = output@;
        self.run_ready(blocks, output);
        proof {
            let n0 = before.frames() / size;
            let n1 = self.frames() / size;
            assert(n1 - n0 == blocks);
            assert(output@ =~= begun + stereo_out(before, *self));
        }
    }

    /// Adds the whole frames of `input` to those that wait.
    fn stage(&mut self, input: &[N::Sample])
        requires
            old(self).wf(),
        ensures
            final(self).channels == old(self).channels,
            final(self).kernel == old(self).kernel,
            final(self).next == old(self).next,
            final(self).lines == old(self).lines,
            final(self).staged@.len() % old(self).channels() == 0,
            final(self).staged@.len() / old(self).channels() == old(self).staged@.len() / old(
                self,
            ).channels() + input@.len() / old(self).channels(),
            final(self).started == (final(self).frames() > 0),
            forall|c: int|
                0 <= c < old(self).channels() ==> #[trigger] final(self).fed(c) == old(self).fed(c)
                    + channel_of(input@, old(self).channels(), c),
    {
        let ghost before = *self;
        let channels: usize = self.channels;
        let ghost ch = channels as nat;
        let came: usize = input.len() / channels;
        proof {
            lemma_channel_of_whole(input@, ch, 0);
        }
        append_copy(&mut self.staged, vstd::slice::slice_subrange(input, 0, came * channels));
        if came > 0 {
            self.started = true;
        }
        proof {
            let taken = input@.take((came * channels) as int);
            assert(input@.subrange(0, (came * channels) as int) =~= taken);
            lemma_channel_of_sum(before.staged@, taken, ch, 0);
            let a = before.staged@.len() / ch;
            let b = came as nat;
            vstd::arithmetic::div_mod::lemma_fundamental_div_mod(
                before.staged@.len() as int,
                ch as int,
            );
            assert((a + b) * ch == ch * a + b * ch) by (nonlinear_arith);
            vstd::arithmetic::div_mod::lemma_fundamental_div_mod_converse(
                self.staged@.len() as int,
                ch as int,
                (a + b) as int,
                0,
            );
            assert forall|c: int| 0 <= c < ch implies #[trigger] self.fed(c) == before.fed(c)
                + channel_of(input@, ch, c) by {
                lemma_channel_of_sum(before.staged@, taken, ch, c);
                lemma_channel_of_whole(input@, ch, c);
                assert(self.fed(c) =~= before.fed(c) + channel_of(input@, ch, c));
            }
        }
    }

    /// Puts the first `blocks` blocks that wait through the kernel.
    fn run_ready(&mut self, blocks: usize, output: &mut Vec<N::Sample>)
        requires
            old(self).channels > 0,
            old(self).lines@.len() == old(self).channels,
            old(self).kernel.wf(),
            4 * old(self).kernel.block_size() <= CIRCLE_STEPS,
            blocks_for(old(self).kernel.taps().len(), old(self).kernel.block_size()) <= old(
                self,
            ).depth(),
            old(self).next matches Some(coming) ==> {
                &&& coming.wf()
                &&& coming.block_size() == old(self).kernel.block_size()
                &&& blocks_for(coming.taps().len(), coming.block_size()) <= old(self).depth()
            },
            forall|c: int| 0 <= c < old(self).channels ==> #[trigger] old(self).line_fits(c),
            old(self).lines@[0].fed().len() % old(self).kernel.block_size() == 0,
            old(self).staged@.len() % old(self).channels as nat == 0,
            old(self).started,
            blocks > 0,
            blocks == old(self).staged@.len() / old(self).channels as nat / old(
                self,
            ).kernel.block_size(),
        ensures
            final(self).wf(),
            final(self).channels() == old(self).channels(),
            final(self).block_size() == old(self).block_size(),
            final(self).floor() == old(self).floor(),
            final(self).depth() == old(self).depth(),
            final(self).frames() == old(self).frames(),
            forall|c: int|
                0 <= c < old(self).channels() ==> #[trigger] final(self).fed(c) == old(self).fed(c),
            final(output)@ == old(output)@ + woven(
                Seq::new(
                    old(self).channels(),
                    |c: int|
                        lane_out::<N>(
                            old(self).taps(),
                            old(self).coming(),
                            final(self).fed(c),
                            old(self).floor(),
                            old(self).block_size(),
                            old(self).lines@[0].blocks(),
                            old(self).lines@[0].blocks() + blocks as nat,
                        ),
                ),
                (blocks * old(self).block_size()) as nat,
            ),
            final(self).coming() is None,
            final(self).taps() == match old(self).coming() {
                Some(coming) => coming,
                None => old(self).taps(),
            },
    {
        let ghost before = *self;
        let channels: usize = self.channels;
        let ghost ch = channels as nat;
        let block: usize = self.kernel.block;
        let ghost size = block as nat;
        proof {
            lemma_whole_blocks(self.lines@[0].fed().len(), self.staged@.len() / ch, size);
        }
        proof {
            vstd::arithmetic::div_mod::lemma_fundamental_div_mod(
                self.staged@.len() as int,
                ch as int,
            );
            assert(self.staged@.len() / ch <= self.staged@.len()) by (nonlinear_arith)
                requires
                    ch > 0,
            ;
            assert(self.staged.len() <= usize::MAX);
        }
        let ready: usize = blocks * block;
        proof {
            assert(ready * ch <= self.staged@.len()) by (nonlinear_arith)
                requires
                    ready <= self.staged@.len() / ch,
                    self.staged@.len() == ch * (self.staged@.len() / ch),
            ;
        }
        let whole: &[N::Sample] = vstd::slice::slice_subrange(
            self.staged.as_slice(),
            0,
            ready * channels,
        );
        let lanes: Vec<Vec<N::Sample>> = deinterleave(whole, channels);
        let ghost front = self.staged@.subrange(0, (ready * channels) as int);
        proof {
            assert(contents(lanes@).len() == ch);
            assert(whole@ =~= front);
            vstd::arithmetic::div_mod::lemma_fundamental_div_mod_converse(
                ready * ch,
                ch as int,
                ready as int,
                0,
            );
        }
        let mut outs: Vec<Vec<N::Sample>> = Vec::with_capacity(channels);
        let mut c: usize = 0;
        while c < channels
            invariant
                before.channels == channels,
                before.kernel.wf(),
                4 * before.kernel.block_size() <= CIRCLE_STEPS,
                blocks_for(before.taps().len(), size) <= before.depth(),
                before.next matches Some(coming) ==> {
                    &&& coming.wf()
                    &&& coming.block_size() == size
                    &&& blocks_for(coming.taps().len(), size) <= before.depth()
                },
                forall|k: int| 0 <= k < channels ==> #[trigger] before.line_fits(k),
                before.lines@.len() == channels,
                ch == channels,
                size == before.block_size(),
                c <= channels,
                self.channels == channels,
                self.kernel == before.kernel,
                self.next == before.next,
                self.staged == before.staged,
                self.started == before.started,
                self.lines@.len() == channels,
                ready % block == 0,
                block == size,
                lanes@.len() == ch,
                contents(lanes@) == channels_of(front, ch),
                front.len() / ch == ready,
                forall|k: int| c <= k < channels ==> #[trigger] self.lines@[k] == before.lines@[k],
                forall|k: int|
                    0 <= k < c ==> {
                        &&& (#[trigger] self.lines@[k]).wf()
                        &&& self.lines@[k].block_size() == size
                        &&& self.lines@[k].fed() == before.lines@[k].fed() + channel_of(
                            front,
                            ch,
                            k,
                        )
                        &&& self.lines@[k].depth() == before.depth()
                        &&& self.lines@[k].floor() == before.floor()
                    },
                outs@.len() == c,
                forall|k: int|
                    0 <= k < c ==> {
                        &&& (#[trigger] outs@[k])@ == lane_out::<N>(
                            before.taps(),
                            before.coming(),
                            self.lines@[k].fed(),
                            before.floor(),
                            size,
                            before.lines@[0].blocks(),
                            self.lines@[k].blocks(),
                        )
                        &&& outs@[k]@.len() == ready
                    },
            decreases channels - c,
        {
            proof {
                assert(before.line_fits(c as int) && before.line_fits(0));
                assert(contents(lanes@)[c as int] == lanes@[c as int]@);
                assert(lanes@[c as int]@ == channel_of(front, ch, c as int));
            }
            let out: Vec<N::Sample> = run_lane(
                &mut self.lines[c],
                &self.kernel,
                &self.next,
                lanes[c].as_slice(),
            );
            outs.push(out);
            c += 1;
        }
        interleave(&outs, ready, output);
        drop_front(&mut self.staged, ready * channels);
        match self.next.take() {
            None => {},
            Some(coming) => {
                self.kernel = coming;
            },
        }
        proof {
            assert(front + self.staged@ =~= before.staged@);
            lemma_channel_of_sum(front, self.staged@, ch, 0);
            let total = before.staged@.len() / ch;
            assert((total - ready) * ch == ch * total - ready * ch) by (nonlinear_arith);
            vstd::arithmetic::div_mod::lemma_fundamental_div_mod_converse(
                self.staged@.len() as int,
                ch as int,
                total - ready,
                0,
            );
            assert(before.line_fits(0));
            lemma_block_count(self.lines@[0].fed().len(), self.staged@.len() / ch, size);
            assert forall|k: int| 0 <= k < ch implies #[trigger] self.line_fits(k)
                && self.fed(k) == before.fed(k) by {
                assert(before.line_fits(k));
                lemma_channel_of_sum(front, self.staged@, ch, k);
                assert(self.fed(k) =~= before.fed(k));
            }
            assert forall|k: int| 0 <= k < ch implies #[trigger] self.fed(k) == before.fed(k) by {
                assert(self.line_fits(k));
            }
            let n0 = before.lines@[0].blocks();
            let n1 = n0 + blocks as nat;
            lemma_whole_blocks(before.lines@[0].fed().len(), ready as nat, size);
            assert(self.lines@[0].blocks() == n1);
            let want = Seq::new(
                ch,
                |k: int|
                    lane_out::<N>(
                        before.taps(),
                        before.coming(),
                        self.fed(k),
                        before.floor(),
                        size,
                        n0,
                        n1,
                    ),
            );
            assert forall|k: int| 0 <= k < ch implies #[trigger] contents(outs@)[k] == want[k] by {
                assert(self.line_fits(k));
                assert(before.line_fits(k));
                lemma_block_count(self.lines@[k].fed().len(), 0, size);
                assert(agree::<N>(self.lines@[k].fed(), self.fed(k), n1 * size as int));
                lemma_lane_agrees::<N>(
                    before.taps(),
                    before.coming(),
                    self.lines@[k].fed(),
                    self.fed(k),
                    before.floor(),
                    size,
                    n0,
                    n1,
                );
            }
            assert(contents(outs@) =~= want);
        }
    }

    /// Appends all output still owed by the kernel in use and begins a fresh
    /// stream. A kernel that waits is dropped.
    pub fn drain(&mut self, output: &mut Vec<N::Sample>)
        requires
            old(self).wf(),
        ensures
            final(self).fresh_after(*old(self)),
            final(output)@ == old(output)@ + stereo_tail(*old(self)),
    {
        if self.started {
            let ghost before = *self;
            let ghost size = self.block_size();
            let ghost owing = owed(self.taps().len(), self.frames(), size);
            let mut outs: Vec<Vec<N::Sample>> = Vec::with_capacity(self.channels);
            let mut c: usize = 0;
            while c < self.channels
                invariant
                    before.wf(),
                    size == before.block_size(),
                    owing == owed(before.taps().len(), before.frames(), size),
                    c <= self.channels,
                    self.channels == before.channels,
                    self.kernel == before.kernel,
                    self.staged == before.staged,
                    self.lines@.len() == self.channels,
                    forall|k: int|
                        c <= k < self.channels ==> #[trigger] self.lines@[k] == before.lines@[k],
                    forall|k: int|
                        0 <= k < c ==> {
                            &&& (#[trigger] self.lines@[k]).wf()
                            &&& self.lines@[k].block_size() == size
                            &&& self.lines@[k].depth() == before.depth()
                        },
                    outs@.len() == c,
                    forall|k: int|
                        0 <= k < c ==> {
                            &&& (#[trigger] outs@[k])@ == tail::<N>(
                                before.taps(),
                                before.fed(k),
                                before.floor(),
                                size,
                            )
                            &&& outs@[k]@.len() == owing
                        },
                decreases self.channels - c,
            {
                assert(before.line_fits(c as int));
                let lane: Vec<N::Sample> = take_channel(self.staged.as_slice(), self.channels, c);
                let out: Vec<N::Sample> = flush(&mut self.lines[c], &self.kernel, lane.as_slice());
                outs.push(out);
                c += 1;
            }
            interleave(&outs, outs[0].len(), output);
            assert(contents(outs@) =~= Seq::new(
                before.channels(),
                |k: int| tail::<N>(before.taps(), before.fed(k), before.floor(), size),
            ));
        } else {
            assert forall|k: int| 0 <= k < self.channels implies {
                &&& (#[trigger] self.lines@[k]).wf()
                &&& self.lines@[k].block_size() == self.block_size()
                &&& self.lines@[k].depth() == self.depth()
            } by {
                assert(self.line_fits(k));
            }
        }
        self.restart();
    }

    /// Drops all audio and a kernel that waits, leaving a fresh stream.
    pub fn reset(&mut self)
        requires
            old(self).wf(),
        ensures
            final(self).fresh_after(*old(self)),
    {
        assert forall|k: int| 0 <= k < self.channels implies {
            &&& (#[trigger] self.lines@[k]).wf()
            &&& self.lines@[k].block_size() == self.block_size()
            &&& self.lines@[k].depth() == self.depth()
        } by {
            assert(self.line_fits(k));
        }
        self.restart();
    }

    /// `before`, with `kernel` to be faded in during the next block.
    pub open spec fn awaits(&self, before: Self, kernel: Seq<N::Sample>) -> bool {
        let depth = blocks_for(kernel.len(), before.block_size());
        let blocks = before.frames() / before.block_size();
        &&& self.channels() == before.channels()
        &&& self.block_size() == before.block_size()
        &&& self.taps() == before.taps()
        &&& self.coming() == Some(kernel)
        &&& self.frames() == before.frames()
        &&& forall|c: int| 0 <= c < before.channels() ==> #[trigger] self.fed(c) == before.fed(c)
        &&& self.depth() == if depth > before.depth() {
            depth
        } else {
            before.depth()
        }
        &&& self.floor() == if depth > before.depth() && blocks - before.depth()
            > before.floor() {
            (blocks - before.depth()) as nat
        } else {
            before.floor()
        }
    }

    /// `before`, with `input` taken. Where it completes a block, a kernel that
    /// waited is in use from then on.
    pub open spec fn took(&self, before: Self, input: Seq<N::Sample>) -> bool {
        &&& self.channels() == before.channels()
        &&& self.block_size() == before.block_size()
        &&& self.floor() == before.floor()
        &&& self.depth() == before.depth()
        &&& self.frames() == before.frames() + input.len() / before.channels()
        &&& forall|c: int|
            0 <= c < before.channels() ==> #[trigger] self.fed(c) == before.fed(c) + channel_of(
                input,
                before.channels(),
                c,
            )
        &&& if before.frames() / before.block_size() < self.frames() / before.block_size() {
            &&& self.coming() is None
            &&& self.taps() == match before.coming() {
                Some(coming) => coming,
                None => before.taps(),
            }
        } else {
            &&& self.coming() == before.coming()
            &&& self.taps() == before.taps()
        }
    }

    /// A fresh stream through the kernel that `before` used.
    pub open spec fn fresh_after(&self, before: Self) -> bool {
        &&& self.wf()
        &&& self.channels() == before.channels()
        &&& self.block_size() == before.block_size()
        &&& self.depth() == before.depth()
        &&& self.taps() == before.taps()
        &&& self.coming() is None
        &&& self.frames() == 0
        &&& self.floor() == 0
        &&& forall|c: int|
            0 <= c < before.channels() ==> #[trigger] self.fed(c) == Seq::<N::Sample>::empty()
    }

    fn restart(&mut self)
        requires
            old(self).channels > 0,
            old(self).lines@.len() == old(self).channels,
            old(self).kernel.wf(),
            4 * old(self).kernel.block_size() <= CIRCLE_STEPS,
            blocks_for(old(self).kernel.taps().len(), old(self).kernel.block_size()) <= old(
                self,
            ).depth(),
            forall|k: int|
                0 <= k < old(self).channels ==> {
                    &&& (#[trigger] old(self).lines@[k]).wf()
                    &&& old(self).lines@[k].block_size() == old(self).block_size()
                    &&& old(self).lines@[k].depth() == old(self).depth()
                },
        ensures
            final(self).fresh_after(*old(self)),
    {
        let ghost before = *self;
        let mut c: usize = 0;
        while c < self.channels
            invariant
                c <= self.channels,
                self.channels == before.channels,
                self.kernel == before.kernel,
                self.lines@.len() == self.channels,
                forall|k: int|
                    0 <= k < self.channels ==> {
                        &&& (#[trigger] self.lines@[k]).wf()
                        &&& self.lines@[k].block_size() == before.block_size()
                        &&& self.lines@[k].depth() == before.depth()
                        &&& k < c ==> self.lines@[k].floor() == 0
                        &&& k < c ==> self.lines@[k].fed() == Seq::<N::Sample>::empty()
                    },
            decreases self.channels - c,
        {
            self.lines[c].reset();
            c += 1;
        }
        self.next = None;
        self.staged.clear();
        self.started = false;
        proof {
            assert(0nat % self.block_size() == 0) by (nonlinear_arith)
                requires
                    self.block_size() > 0,
            ;
            let ch = self.channels as nat;
            assert(0nat / ch == 0 && 0nat % ch == 0) by (nonlinear_arith)
                requires
                    ch > 0,
            ;
            assert forall|k: int| 0 <= k < self.channels implies #[trigger] self.fed(k)
                == Seq::<N::Sample>::empty() && self.line_fits(k) by {
                assert(self.fed(k) =~= Seq::<N::Sample>::empty());
            }
        }
    }
}

/// What a stretch of input makes the convolver put out: of every channel the
/// blocks that it completed, interleaved.
pub open spec fn stereo_out<N: Spectral>(
    before: StereoConvolver<N>,
    after: StereoConvolver<N>,
) -> Seq<N::Sample> {
    let block = before.block_size();
    let from = before.frames() / block;
    let to = after.frames() / block;
    woven(
        Seq::new(
            before.channels(),
            |c: int|
                lane_out::<N>(
                    before.taps(),
                    before.coming(),
                    after.fed(c),
                    before.floor(),
                    block,
                    from,
                    to,
                ),
        ),
        ((to - from) * block) as nat,
    )
}

/// All output still owed, interleaved. A stream that never began owes nothing.
pub open spec fn stereo_tail<N: Spectral>(before: StereoConvolver<N>) -> Seq<N::Sample> {
    if before.frames() == 0 {
        Seq::empty()
    } else {
        woven(
            Seq::new(
                before.channels(),
                |c: int|
                    tail::<N>(before.taps(), before.fed(c), before.floor(), before.block_size()),
            ),
            owed(before.taps().len(), before.frames(), before.block_size()),
        )
    }
}

/// Whole blocks out of a remainder.
proof fn lemma_whole_blocks(whole: nat, rest: nat, block: nat)
    requires
        block > 0,
        whole % block == 0,
    ensures
        rest / block * block <= rest,
        rest - rest / block * block < block,
        (rest / block * block) % block == 0,
        (whole + rest) / block == whole / block + rest / block,
        whole / block * block == whole,
{
    vstd::arithmetic::div_mod::lemma_fundamental_div_mod(rest as int, block as int);
    lemma_block_count(whole, 0, block);
    let a = whole / block;
    let b = rest / block;
    assert(b * block == block * b) by (nonlinear_arith);
    assert((a + b) * block == a * block + b * block) by (nonlinear_arith);
    vstd::arithmetic::div_mod::lemma_fundamental_div_mod_converse(
        (whole + rest) as int,
        block as int,
        (a + b) as int,
        (rest % block) as int,
    );
    vstd::arithmetic::div_mod::lemma_fundamental_div_mod_converse(
        (b * block) as int,
        block as int,
        b as int,
        0,
    );
}

/// A channel's output depends on no input past the blocks put out.
proof fn lemma_lane_agrees<N: Spectral>(
    taps: Seq<N::Sample>,
    next: Option<Seq<N::Sample>>,
    a: Seq<N::Sample>,
    b: Seq<N::Sample>,
    floor: nat,
    block: nat,
    from: nat,
    to: nat,
)
    requires
        block > 0,
        from <= to,
        agree::<N>(a, b, to * block as int),
    ensures
        lane_out::<N>(taps, next, a, floor, block, from, to) == lane_out::<N>(
            taps,
            next,
            b,
            floor,
            block,
            from,
            to,
        ),
{
    output_is_causal::<N>(taps, a, b, floor, block, from, to);
    if from < to {
        if let Some(coming) = next {
            assert((from + 1) * block <= to * block) by (nonlinear_arith)
                requires
                    from + 1 <= to,
            ;
            lemma_accumulated_agrees::<N>(
                taps,
                a,
                b,
                floor,
                block,
                from as int,
                blocks_for(taps.len(), block),
            );
            lemma_accumulated_agrees::<N>(
                coming,
                a,
                b,
                floor,
                block,
                from as int,
                blocks_for(coming.len(), block),
            );
            output_is_causal::<N>(coming, a, b, floor, block, from + 1, to);
        }
    }
}

/// The weight `1/2 - 1/2 * cos` at `i` parts in `n` of a full turn.
pub open spec fn raised_cosine<N: Numeric>(i: nat, n: nat) -> N::Sample {
    N::difference(
        N::fraction_value(1, 2),
        N::product(N::fraction_value(1, 2), N::circle_point(i, n).0),
    )
}

/// `n` points of a Hann window whose period is `period`.
fn hann_of<N: Numeric>(n: usize, period: usize) -> (window: Vec<N::Sample>)
    requires
        0 < period <= CIRCLE_STEPS,
        n <= period + 1,
    ensures
        window@ == Seq::new(n as nat, |i: int| raised_cosine::<N>(i as nat, period as nat)),
{
    let mut window: Vec<N::Sample> = Vec::with_capacity(n);
    let mut i: usize = 0;
    while i < n
        invariant
            i <= n,
            0 < period <= CIRCLE_STEPS,
            n <= period + 1,
            window@ == Seq::new(i as nat, |k: int| raised_cosine::<N>(k as nat, period as nat)),
        decreases n - i,
    {
        let (cosine, _) = N::circle(i as u64, period as u64);
        let half = N::fraction(1, 2);
        window.push(N::minus(half, N::times(half, cosine)));
        i += 1;
    }
    window
}

/// A symmetric Hann window of `n` points, zero at both ends: for tapering FIR
/// kernels, whose ends should vanish. One point is a window of ones.
pub fn hann<N: Numeric>(n: usize) -> (window: Vec<N::Sample>)
    requires
        n <= CIRCLE_STEPS,
    ensures
        n <= 1 ==> window@ == repeated(N::one_value(), n as nat),
        n > 1 ==> window@ == Seq::new(
            n as nat,
            |i: int| raised_cosine::<N>(i as nat, (n - 1) as nat),
        ),
{
    if n <= 1 {
        return filled(N::one(), n);
    }
    hann_of::<N>(n, n - 1)
}

/// A periodic Hann window of `n` points: the form whose overlapped copies sum
/// flat, for overlap-add work.
pub fn hann_periodic<N: Numeric>(n: usize) -> (window: Vec<N::Sample>)
    requires
        n <= CIRCLE_STEPS,
    ensures
        window@ == Seq::new(n as nat, |i: int| raised_cosine::<N>(i as nat, n as nat)),
{
    if n == 0 {
        return Vec::new();
    }
    hann_of::<N>(n, n)
}

/// Copies of a periodic window half a period apart sum flat: in [`Fixed`], to
/// one at every point.
pub proof fn a_periodic_window_sums_flat(half: nat, i: nat)
    requires
        i < half,
    ensures
        Fixed::sum(
            raised_cosine::<Fixed>(i, 2 * half),
            raised_cosine::<Fixed>(i + half, 2 * half),
        ) == FIXED_ONE,
{
    let n = 2 * half;
    let half_value = Fixed::fraction_value(1, 2);
    assert(half_value == FIXED_ONE / 2);
    the_fixed_circle_is_round(i, n);
    the_fixed_circle_turns_over(i, half);
    let c = Fixed::circle_point(i, n).0;
    let d = Fixed::circle_point(i + half, n).0;
    assert(half_value * d == -(half_value * c)) by (nonlinear_arith)
        requires
            d == -c,
    ;
    assert(half_value * c <= 0x8000_0000 * 0x2_0000_0000 && half_value * c >= -(0x8000_0000
        * 0x2_0000_0000)) by (nonlinear_arith)
        requires
            half_value == 0x8000_0000,
            -0x2_0000_0000 <= c <= 0x2_0000_0000,
    ;
}

/// A symmetric window vanishes at both ends.
pub proof fn a_symmetric_window_vanishes_at_its_ends(n: nat)
    requires
        n > 1,
    ensures
        raised_cosine::<Fixed>(0, (n - 1) as nat) == 0,
        raised_cosine::<Fixed>((n - 1) as nat, (n - 1) as nat) == 0,
{
    let period = (n - 1) as nat;
    Fixed::circle_starts_at_one(period);
    assert((4 * period) / period == 4 && (4 * period) % period == 0) by (nonlinear_arith)
        requires
            period > 0,
    ;
    assert((4 * 0nat) / period == 0 && (4 * 0nat) % period == 0) by (nonlinear_arith)
        requires
            period > 0,
    ;
    assert(Fixed::circle_point(period, period) == Fixed::circle_point(0, period));
    assert(Fixed::fraction_value(1, 2) == FIXED_ONE / 2);
}

/// The linear convolution at time `t`, cut after `n` taps: the sum of
/// `taps[j] * signal[t - j]`.
pub open spec fn convolved<N: Numeric>(
    taps: Seq<N::Sample>,
    signal: Seq<N::Sample>,
    t: int,
    n: nat,
) -> N::Sample
    decreases n,
{
    if n == 0 {
        N::zero_value()
    } else {
        N::sum(
            convolved::<N>(taps, signal, t, (n - 1) as nat),
            N::product(sample_at::<N>(taps, n - 1), sample_at::<N>(signal, t - (n - 1))),
        )
    }
}

/// Taps past the end of the impulse response add nothing.
proof fn lemma_convolved_ends<N: Convolving>(
    taps: Seq<N::Sample>,
    signal: Seq<N::Sample>,
    t: int,
    n: nat,
)
    requires
        n >= taps.len(),
    ensures
        convolved::<N>(taps, signal, t, n) == convolved::<N>(taps, signal, t, taps.len()),
    decreases n,
{
    if n > taps.len() {
        lemma_convolved_ends::<N>(taps, signal, t, (n - 1) as nat);
        N::zero_absorbs(sample_at::<N>(signal, t - (n - 1)));
        N::zero_is_neutral(convolved::<N>(taps, signal, t, (n - 1) as nat));
    }
}

/// One partition's product, read in the half of the window that does not wrap,
/// continues the convolution by that partition's taps.
proof fn lemma_partition_convolves<N: Convolving>(
    taps: Seq<N::Sample>,
    signal: Seq<N::Sample>,
    block: nat,
    m: int,
    p: nat,
    r: int,
    n: nat,
)
    requires
        0 <= r < block,
        n <= 2 * block,
    ensures
        N::sum(
            convolved::<N>(taps, signal, m * block + r, p * block),
            circular_sum::<N>(
                partition::<N>(taps, block, p as int),
                window::<N>(signal, block, m - p),
                block + r,
                n,
            ),
        ) == convolved::<N>(
            taps,
            signal,
            m * block + r,
            p * block + if n <= block {
                n
            } else {
                block
            },
        ),
    decreases n,
{
    let t = m * block + r;
    let part = partition::<N>(taps, block, p as int);
    let win = window::<N>(signal, block, m - p);
    let so_far = convolved::<N>(taps, signal, t, p * block);
    if n == 0 {
        N::zero_is_neutral(so_far);
    } else {
        let j = n - 1;
        lemma_partition_convolves::<N>(taps, signal, block, m, p, r, j as nat);
        let inner = circular_sum::<N>(part, win, block + r, j as nat);
        let term = N::product(part[j], win[(block + r - j) % (2 * block) as int]);
        N::sum_associates(so_far, inner, term);
        if n <= block {
            assert((block + r - j) % (2 * block) as int == block + r - j) by {
                vstd::arithmetic::div_mod::lemma_small_mod(
                    (block + r - j) as nat,
                    (2 * block) as nat,
                );
            }
            assert((m - p - 1) * block + block + r - j == t - (p * block + j))
                by (nonlinear_arith)
                requires
                    t == m * block + r,
            ;
            assert(term == N::product(
                sample_at::<N>(taps, p * block + j),
                sample_at::<N>(signal, t - (p * block + j)),
            ));
        } else {
            N::zero_absorbs(win[(block + r - j) % (2 * block) as int]);
            N::zero_is_neutral(N::sum(so_far, inner));
        }
    }
}

/// The spectrum held of a block is that of its window, also where the block
/// lies before the start of the stream.
proof fn lemma_block_spectrum_is_window<N: Convolving>(signal: Seq<N::Sample>, block: nat, m: int)
    ensures
        block_spectrum::<N>(signal, 0, block, m) == N::spectrum(window::<N>(signal, block, m)),
{
    if m < 0 {
        N::silence_is_silent(2 * block);
        let win = window::<N>(signal, block, m);
        assert forall|i: int| 0 <= i < 2 * block implies win[i] == N::zero_value() by {
            assert((m - 1) * block + i < 0) by (nonlinear_arith)
                requires
                    m <= -1,
                    i < 2 * block,
            ;
        }
        assert(win =~= repeated(N::zero_value(), 2 * block));
    }
}

/// The products of the first `p` partitions are the convolution by their taps.
proof fn lemma_accumulated_convolves<N: Convolving>(
    taps: Seq<N::Sample>,
    signal: Seq<N::Sample>,
    block: nat,
    m: int,
    p: nat,
)
    requires
        block > 0,
    ensures
        N::signal(accumulated::<N>(taps, signal, 0, block, m, p), 2 * block).len() == 2 * block,
        forall|r: int|
            0 <= r < block ==> #[trigger] N::signal(
                accumulated::<N>(taps, signal, 0, block, m, p),
                2 * block,
            )[block + r] == convolved::<N>(taps, signal, m * block + r, p * block),
    decreases p,
{
    if p == 0 {
        N::silence_is_silent(2 * block);
        assert(0 * block == 0);
    } else {
        let q = (p - 1) as nat;
        lemma_accumulated_convolves::<N>(taps, signal, block, m, q);
        lemma_block_spectrum_is_window::<N>(signal, block, m - q);
        let acc = accumulated::<N>(taps, signal, 0, block, m, q);
        let part = partition::<N>(taps, block, q as int);
        let win = window::<N>(signal, block, m - q);
        N::product_convolves(acc, part, win);
        assert(p * block == q * block + block) by (nonlinear_arith)
            requires
                p == q + 1,
        ;
        assert forall|r: int| 0 <= r < block implies #[trigger] N::signal(
            accumulated::<N>(taps, signal, 0, block, m, p),
            2 * block,
        )[block + r] == convolved::<N>(taps, signal, m * block + r, p * block) by {
            assert(N::signal(acc, 2 * block)[block + r] == convolved::<N>(
                taps,
                signal,
                m * block + r,
                q * block,
            ));
            lemma_partition_convolves::<N>(taps, signal, block, m, q, r, 2 * block);
        }
    }
}

/// What comes out is the linear convolution of what went in with the impulse
/// response: sample `r` of output block `m` is the convolution at that very
/// time, with no latency. It holds in every [`Convolving`] system.
pub proof fn output_is_the_convolution<N: Convolving>(
    taps: Seq<N::Sample>,
    signal: Seq<N::Sample>,
    block: nat,
    m: int,
    r: int,
)
    requires
        block > 0,
        taps.len() > 0,
        0 <= r < block,
    ensures
        block_out::<N>(taps, signal, 0, block, m)[r] == convolved::<N>(
            taps,
            signal,
            m * block + r,
            taps.len(),
        ),
{
    let p = blocks_for(taps.len(), block);
    lemma_blocks_for(taps.len(), block);
    lemma_accumulated_convolves::<N>(taps, signal, block, m, p);
    lemma_convolved_ends::<N>(taps, signal, m * block + r, p * block);
}

/// A stream of blocks is the convolution from the first of them on.
proof fn lemma_stream_convolves<N: Convolving>(
    taps: Seq<N::Sample>,
    signal: Seq<N::Sample>,
    block: nat,
    to: nat,
)
    requires
        block > 0,
        taps.len() > 0,
    ensures
        stream::<N>(taps, signal, 0, block, 0, to) == Seq::new(
            to * block,
            |t: int| convolved::<N>(taps, signal, t, taps.len()),
        ),
    decreases to,
{
    let got = stream::<N>(taps, signal, 0, block, 0, to);
    let want = Seq::new(to * block, |t: int| convolved::<N>(taps, signal, t, taps.len()));
    lemma_stream_len::<N>(taps, signal, 0, block, 0, to);
    if to > 0 {
        lemma_stream_convolves::<N>(taps, signal, block, (to - 1) as nat);
        assert(to * block == (to - 1) * block + block) by (nonlinear_arith);
        assert forall|t: int| 0 <= t < to * block implies got[t] == want[t] by {
            let r = t - (to - 1) * block;
            if r >= 0 {
                output_is_the_convolution::<N>(taps, signal, block, to - 1, r);
            }
        }
    }
    assert(got =~= want);
}

/// Cutting the input into pieces changes nothing: the blocks that come out
/// over two calls are those that one call with all the input puts out.
pub proof fn chunking_does_not_matter<N: Spectral>(
    taps: Seq<N::Sample>,
    fed: Seq<N::Sample>,
    more: Seq<N::Sample>,
    still_more: Seq<N::Sample>,
    block: nat,
)
    requires
        block > 0,
    ensures
        ({
            let once = fed + more;
            let twice = once + still_more;
            let n0 = fed.len() / block;
            let n1 = once.len() / block;
            let n2 = twice.len() / block;
            stream::<N>(taps, once, 0, block, n0, n1) + stream::<N>(taps, twice, 0, block, n1, n2)
                == stream::<N>(taps, fed + (more + still_more), 0, block, n0, n2)
        }),
{
    let once = fed + more;
    let twice = once + still_more;
    let n0 = fed.len() / block;
    let n1 = once.len() / block;
    let n2 = twice.len() / block;
    assert(twice =~= fed + (more + still_more));
    vstd::arithmetic::div_mod::lemma_div_is_ordered(
        fed.len() as int,
        once.len() as int,
        block as int,
    );
    vstd::arithmetic::div_mod::lemma_div_is_ordered(
        once.len() as int,
        twice.len() as int,
        block as int,
    );
    lemma_stream_splits::<N>(taps, twice, 0, block, n0, n1, n2);
    assert(n1 * block <= once.len()) by {
        vstd::arithmetic::div_mod::lemma_fundamental_div_mod(once.len() as int, block as int);
        assert(n1 * block == block * n1) by (nonlinear_arith);
    }
    assert(agree::<N>(once, twice, n1 * block as int));
    output_is_causal::<N>(taps, once, twice, 0, block, n0, n1);
}

/// What a stream has put out and what its drain adds are together the whole
/// convolution: one sample for each of input and kernel together, less one.
pub proof fn a_drained_stream_is_complete<N: Convolving>(
    taps: Seq<N::Sample>,
    signal: Seq<N::Sample>,
    block: nat,
)
    requires
        block > 0,
        taps.len() > 0,
    ensures
        stream::<N>(taps, signal, 0, block, 0, signal.len() / block) + tail::<N>(
            taps,
            signal,
            0,
            block,
        ) == Seq::new(
            (signal.len() + taps.len() - 1) as nat,
            |t: int| convolved::<N>(taps, signal, t, taps.len()),
        ),
{
    let n = signal.len() / block;
    let left = owed(taps.len(), signal.len(), block);
    let extra = blocks_for(left, block);
    let out = stream::<N>(taps, signal, 0, block, 0, n);
    let rest = stream::<N>(taps, signal, 0, block, n, n + extra);
    lemma_stream_splits::<N>(taps, signal, 0, block, 0, n, n + extra);
    lemma_stream_convolves::<N>(taps, signal, block, n + extra);
    lemma_stream_len::<N>(taps, signal, 0, block, 0, n);
    lemma_stream_len::<N>(taps, signal, 0, block, n, n + extra);
    vstd::arithmetic::div_mod::lemma_fundamental_div_mod(signal.len() as int, block as int);
    assert(n * block == block * n) by (nonlinear_arith);
    assert((n + extra) * block == n * block + extra * block) by (nonlinear_arith);
    if left > 0 {
        lemma_blocks_for(left, block);
    } else {
        assert(extra * block >= 0) by (nonlinear_arith);
    }
    let all = out + rest;
    let got = out + tail::<N>(taps, signal, 0, block);
    let want = Seq::new(
        (signal.len() + taps.len() - 1) as nat,
        |t: int| convolved::<N>(taps, signal, t, taps.len()),
    );
    assert forall|t: int| 0 <= t < want.len() implies got[t] == want[t] by {
        assert(got[t] == all[t]);
    }
    assert(got =~= want);
}

/// A kernel that is a single one changes nothing.
pub proof fn identity_kernel_changes_nothing<N: Convolving>(signal: Seq<N::Sample>, t: int)
    requires
        0 <= t < signal.len(),
    ensures
        convolved::<N>(seq![N::one_value()], signal, t, 1) == signal[t],
{
    let taps = seq![N::one_value()];
    assert(convolved::<N>(taps, signal, t, 0) == N::zero_value());
    N::one_is_neutral(signal[t]);
    N::zero_is_neutral(signal[t]);
}

/// What every channel puts out is the linear convolution of all its input with
/// the kernel in use after the call, frame by frame. Where a kernel waited,
/// that holds past the one block that fades over to it.
pub proof fn output_follows_the_kernel<N: Convolving>(
    before: StereoConvolver<N>,
    input: Seq<N::Sample>,
    after: StereoConvolver<N>,
    c: int,
    t: int,
)
    requires
        before.wf(),
        before.floor() == 0,
        after.took(before, input),
        0 <= c < before.channels(),
        before.frames() / before.block_size() * before.block_size() <= t < after.frames()
            / before.block_size() * before.block_size(),
        before.coming() is Some ==> t >= (before.frames() / before.block_size() + 1)
            * before.block_size(),
    ensures
        channel_of(stereo_out(before, after), before.channels(), c)[t - before.frames()
            / before.block_size() * before.block_size()] == convolved::<N>(
            after.taps(),
            after.fed(c),
            t,
            after.taps().len(),
        ),
{
    before.always();
    let block = before.block_size();
    let channels = before.channels();
    let from = before.frames() / block;
    let to = after.frames() / block;
    let taps = after.taps();
    let fed = after.fed(c);
    let start = if before.coming() is Some {
        from + 1
    } else {
        from
    };
    assert(from < to) by (nonlinear_arith)
        requires
            from * block < to * block,
    ;
    let lanes = Seq::new(
        channels,
        |k: int|
            lane_out::<N>(
                before.taps(),
                before.coming(),
                after.fed(k),
                before.floor(),
                block,
                from,
                to,
            ),
    );
    let frames = ((to - from) * block) as nat;
    assert((to - from) * block == to * block - from * block) by (nonlinear_arith);
    parting_undoes_weaving(lanes, frames, c);
    let whole = stream::<N>(taps, fed, 0, block, 0, to);
    let part = stream::<N>(taps, fed, 0, block, start, to);
    lemma_stream_convolves::<N>(taps, fed, block, to);
    lemma_stream_splits::<N>(taps, fed, 0, block, 0, start, to);
    lemma_stream_len::<N>(taps, fed, 0, block, 0, start);
    lemma_stream_len::<N>(taps, fed, 0, block, start, to);
    let low = from * block;
    let cut = start * block;
    let high = to * block;
    assert((from + 1) * block == low + block) by (nonlinear_arith)
        requires
            low == from * block,
    ;
    assert((start - 0) * block == cut && (to - start) * block == high - cut) by (nonlinear_arith)
        requires
            cut == start * block,
            high == to * block,
    ;
    assert(cut <= t < high);
    assert(whole[t] == part[t - cut]);
    if let Some(coming) = before.coming() {
        let fade = crossfaded::<N>(
            block_out::<N>(before.taps(), fed, 0, block, from as int),
            block_out::<N>(coming, fed, 0, block, from as int),
        );
        assert(fade.len() == block);
        assert(lanes[c] == fade + part);
        assert(lanes[c][t - low] == part[t - cut]);
    } else {
        assert(lanes[c] == part);
    }
    let got = channel_of(stereo_out(before, after), channels, c);
    assert(stereo_out(before, after) == woven(lanes, frames));
    assert(got[t - low] == lanes[c][t - low]);
    assert(whole[t] == convolved::<N>(taps, fed, t, taps.len()));
}

/// A kernel that the convolver remembers enough input for is followed exactly
/// past its one-block fade, whatever kernel it took over from.
pub proof fn an_exchanged_kernel_is_followed<N: Convolving>(
    before: StereoConvolver<N>,
    kernel: Seq<N::Sample>,
    waiting: StereoConvolver<N>,
    input: Seq<N::Sample>,
    after: StereoConvolver<N>,
    c: int,
    t: int,
)
    requires
        before.wf(),
        waiting.wf(),
        before.remembers(kernel.len()),
        waiting.awaits(before, kernel),
        after.took(waiting, input),
        0 <= c < before.channels(),
        (before.frames() / before.block_size() + 1) * before.block_size() <= t < after.frames()
            / before.block_size() * before.block_size(),
    ensures
        after.taps() == kernel,
        after.floor() == 0,
        channel_of(stereo_out(waiting, after), before.channels(), c)[t - before.frames()
            / before.block_size() * before.block_size()] == convolved::<N>(
            kernel,
            after.fed(c),
            t,
            kernel.len(),
        ),
{
    before.always();
    let block = before.block_size();
    let from = before.frames() / block;
    let to = after.frames() / block;
    assert(from < to && from * block <= t) by (nonlinear_arith)
        requires
            (from + 1) * block <= t < to * block,
            block > 0,
    ;
    output_follows_the_kernel(waiting, input, after, c, t);
}

/// A convolver that keeps all of its input remembers enough for any kernel, at
/// every time: through audio, exchanges and restarts it goes on keeping it all.
pub proof fn all_input_is_enough_for_any_kernel<N: Spectral>(
    before: StereoConvolver<N>,
    kernel: Seq<N::Sample>,
    input: Seq<N::Sample>,
    after: StereoConvolver<N>,
)
    requires
        before.wf(),
        before.depth() == usize::MAX,
        before.floor() == 0,
        0 < kernel.len() <= usize::MAX,
    ensures
        before.remembers(kernel.len()),
        after.took(before, input) || after.awaits(before, kernel) || after.fresh_after(before)
            ==> after.depth() == usize::MAX && after.floor() == 0,
{
    before.always();
    lemma_blocks_for(kernel.len(), before.block_size());
}

/// A new convolver plays `played`, is given any kernel, and plays `still`: from
/// one block past the exchange on, every channel is the linear convolution of
/// its whole stream with that kernel.
pub proof fn a_completed_exchange_follows_the_new_kernel<N: Convolving>(
    fresh: StereoConvolver<N>,
    played: Seq<N::Sample>,
    before: StereoConvolver<N>,
    kernel: Seq<N::Sample>,
    waiting: StereoConvolver<N>,
    still: Seq<N::Sample>,
    after: StereoConvolver<N>,
    c: int,
    t: int,
)
    requires
        fresh.wf(),
        fresh.depth() == usize::MAX,
        fresh.floor() == 0,
        fresh.frames() == 0,
        before.wf(),
        before.took(fresh, played),
        0 < kernel.len() <= usize::MAX,
        waiting.wf(),
        waiting.awaits(before, kernel),
        after.took(waiting, still),
        0 <= c < fresh.channels(),
        (before.frames() / fresh.block_size() + 1) * fresh.block_size() <= t < after.frames()
            / fresh.block_size() * fresh.block_size(),
    ensures
        after.fed(c) == channel_of(played, fresh.channels(), c) + channel_of(
            still,
            fresh.channels(),
            c,
        ),
        channel_of(stereo_out(waiting, after), fresh.channels(), c)[t - before.frames()
            / fresh.block_size() * fresh.block_size()] == convolved::<N>(
            kernel,
            after.fed(c),
            t,
            kernel.len(),
        ),
{
    fresh.always();
    assert(fresh.fed(c).len() == 0);
    assert(before.fed(c) =~= channel_of(played, fresh.channels(), c));
    all_input_is_enough_for_any_kernel(fresh, kernel, played, before);
    all_input_is_enough_for_any_kernel(before, kernel, played, waiting);
    an_exchanged_kernel_is_followed(before, kernel, waiting, still, after, c, t);
}

/// A fade is equal-power: at every frame of it the squares of the two gains add
/// up to one, in [`Fixed`] to within [`ROUNDNESS`].
pub proof fn a_fade_holds_its_power(a: Seq<i64>, b: Seq<i64>, i: int)
    requires
        0 <= i < a.len(),
    ensures
        ({
            let (out, into) = Fixed::circle_point(i as nat, 4 * a.len());
            &&& crossfaded::<Fixed>(a, b)[i] == Fixed::sum(
                Fixed::product(a[i], out),
                Fixed::product(b[i], into),
            )
            &&& -ROUNDNESS <= out * out + into * into - FIXED_ONE * FIXED_ONE <= ROUNDNESS
        }),
{
    the_fixed_circle_is_round(i as nat, 4 * a.len());
}

/// A kernel exchange begins exactly on the old kernel's output.
pub proof fn an_exchange_begins_on_the_old_kernel<N: Exact>(
    a: Seq<N::Sample>,
    b: Seq<N::Sample>,
)
    requires
        a.len() == b.len(),
        a.len() > 0,
    ensures
        crossfaded::<N>(a, b)[0] == N::product(a[0], N::one_value()),
{
    N::circle_starts_at_one(4 * a.len());
    N::zero_absorbs(b[0]);
    N::zero_is_neutral(N::product(a[0], N::one_value()));
}

} // verus!
