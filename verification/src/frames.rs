//! Interleaved audio: frames of one sample per channel, one after another.
use vstd::prelude::*;

verus! {

/// The samples of channel `c`: one out of every whole frame.
pub open spec fn channel_of<T>(interleaved: Seq<T>, channels: nat, c: int) -> Seq<T> {
    Seq::new(interleaved.len() / channels, |i: int| interleaved[i * channels + c])
}

/// Every channel of `interleaved`, in order.
pub open spec fn channels_of<T>(interleaved: Seq<T>, channels: nat) -> Seq<Seq<T>> {
    Seq::new(channels, |c: int| channel_of(interleaved, channels, c))
}

/// The first `frames` frames of the signals in `lanes`, interleaved.
pub open spec fn woven<T>(lanes: Seq<Seq<T>>, frames: nat) -> Seq<T> {
    Seq::new(
        frames * lanes.len(),
        |j: int| lanes[j % lanes.len() as int][j / lanes.len() as int],
    )
}

/// The contents of a vector of vectors.
pub open spec fn contents<T>(lanes: Seq<Vec<T>>) -> Seq<Seq<T>> {
    Seq::new(lanes.len(), |c: int| lanes[c]@)
}

/// `n` copies of `value`.
pub open spec fn repeated<T>(value: T, n: nat) -> Seq<T> {
    Seq::new(n, |i: int| value)
}

/// Copies `src` onto the end of `dst`.
pub fn append_copy<T: Copy>(dst: &mut Vec<T>, src: &[T])
    ensures
        final(dst)@ == old(dst)@ + src@,
{
    let mut i: usize = 0;
    while i < src.len()
        invariant
            i <= src@.len(),
            dst@ == old(dst)@ + src@.subrange(0, i as int),
        decreases src.len() - i,
    {
        dst.push(src[i]);
        i += 1;
    }
    assert(src@.subrange(0, src@.len() as int) == src@);
}

/// Puts `n` copies of `value` onto the end of `dst`.
pub fn append_repeated<T: Copy>(dst: &mut Vec<T>, value: T, n: usize)
    ensures
        final(dst)@ == old(dst)@ + repeated(value, n as nat),
{
    let mut i: usize = 0;
    while i < n
        invariant
            i <= n,
            dst@ == old(dst)@ + repeated(value, i as nat),
        decreases n - i,
    {
        dst.push(value);
        i += 1;
    }
}

/// `n` copies of `value`.
pub fn filled<T: Copy>(value: T, n: usize) -> (v: Vec<T>)
    ensures
        v@ == repeated(value, n as nat),
{
    let mut v: Vec<T> = Vec::with_capacity(n);
    append_repeated(&mut v, value, n);
    v
}

/// Drops the first `n` elements of `v`.
pub fn drop_front<T>(v: &mut Vec<T>, n: usize)
    requires
        n <= old(v)@.len(),
    ensures
        final(v)@ == old(v)@.skip(n as int),
{
    let rest: Vec<T> = v.split_off(n);
    *v = rest;
}

/// The samples of channel `c`, one out of every whole frame.
pub fn take_channel<T: Copy>(interleaved: &[T], channels: usize, c: usize) -> (lane: Vec<T>)
    requires
        c < channels,
    ensures
        lane@ == channel_of(interleaved@, channels as nat, c as int),
{
    let frames: usize = interleaved.len() / channels;
    let mut lane: Vec<T> = Vec::with_capacity(frames);
    let mut i: usize = 0;
    let mut at: usize = c;
    while i < frames
        invariant
            i <= frames,
            c < channels,
            frames == interleaved@.len() / channels as nat,
            at == i * channels + c || i == frames,
            lane@ == channel_of(interleaved@, channels as nat, c as int).take(i as int),
        decreases frames - i,
    {
        assert(at < interleaved@.len()) by (nonlinear_arith)
            requires
                at == i * channels + c,
                c < channels,
                i < frames,
                frames == interleaved@.len() / channels as nat,
        ;
        lane.push(interleaved[at]);
        i += 1;
        if i < frames {
            assert(i * channels + c < interleaved@.len()) by (nonlinear_arith)
                requires
                    c < channels,
                    i < frames,
                    frames == interleaved@.len() / channels as nat,
            ;
            assert(i * channels + c == (i - 1) * channels + c + channels) by (nonlinear_arith);
            at += channels;
        }
    }
    lane
}

/// Parts interleaved audio into one vector per channel; a trailing partial
/// frame is dropped.
pub fn deinterleave<T: Copy>(interleaved: &[T], channels: usize) -> (lanes: Vec<Vec<T>>)
    requires
        channels > 0,
    ensures
        contents(lanes@) == channels_of(interleaved@, channels as nat),
{
    let mut lanes: Vec<Vec<T>> = Vec::with_capacity(channels);
    let mut c: usize = 0;
    while c < channels
        invariant
            c <= channels,
            lanes@.len() == c,
            forall|k: int|
                0 <= k < c ==> (#[trigger] lanes@[k])@ == channel_of(
                    interleaved@,
                    channels as nat,
                    k,
                ),
        decreases channels - c,
    {
        lanes.push(take_channel(interleaved, channels, c));
        c += 1;
    }
    assert(contents(lanes@) =~= channels_of(interleaved@, channels as nat));
    lanes
}

/// Appends the first `frames` frames of the signals in `lanes` to `out`.
pub fn interleave<T: Copy>(lanes: &Vec<Vec<T>>, frames: usize, out: &mut Vec<T>)
    requires
        forall|c: int| 0 <= c < lanes@.len() ==> frames <= (#[trigger] lanes@[c])@.len(),
    ensures
        final(out)@ == old(out)@ + woven(contents(lanes@), frames as nat),
{
    let ghost all = contents(lanes@);
    let ghost start = out@;
    let mut i: usize = 0;
    while i < frames
        invariant
            i <= frames,
            all == contents(lanes@),
            forall|c: int| 0 <= c < lanes@.len() ==> frames <= (#[trigger] lanes@[c])@.len(),
            out@ == start + woven(all, i as nat),
        decreases frames - i,
    {
        let ghost before = out@;
        let mut c: usize = 0;
        while c < lanes.len()
            invariant
                i < frames,
                c <= lanes@.len(),
                all == contents(lanes@),
                forall|c: int| 0 <= c < lanes@.len() ==> frames <= (#[trigger] lanes@[c])@.len(),
                before == start + woven(all, i as nat),
                out@ == before + Seq::new(c as nat, |k: int| all[k][i as int]),
            decreases lanes.len() - c,
        {
            out.push(lanes[c][i]);
            c += 1;
        }
        proof {
            lemma_woven_step(all, i as nat);
        }
        i += 1;
    }
    assert(woven(all, 0) =~= Seq::empty());
}

/// One more frame of interleaved audio is one more sample of each channel.
pub proof fn lemma_woven_step<T>(lanes: Seq<Seq<T>>, i: nat)
    ensures
        woven(lanes, i + 1) == woven(lanes, i) + Seq::new(lanes.len(), |k: int| lanes[k][i as int]),
{
    let n = lanes.len();
    let next = woven(lanes, i) + Seq::new(n, |k: int| lanes[k][i as int]);
    assert((i + 1) * n == i * n + n) by (nonlinear_arith);
    assert forall|j: int| 0 <= j < (i + 1) * n implies woven(lanes, i + 1)[j] == next[j] by {
        if j >= i * n {
            let k = j - i * n;
            vstd::arithmetic::div_mod::lemma_fundamental_div_mod_converse(j, n as int, i as int, k);
        }
    }
    assert(woven(lanes, i + 1) =~= next);
}

/// Parting woven signals gives the signals back, frame by frame.
pub proof fn parting_undoes_weaving<T>(lanes: Seq<Seq<T>>, frames: nat, c: int)
    requires
        0 <= c < lanes.len(),
    ensures
        channel_of(woven(lanes, frames), lanes.len(), c).len() == frames,
        forall|i: int|
            0 <= i < frames ==> #[trigger] channel_of(woven(lanes, frames), lanes.len(), c)[i]
                == lanes[c][i],
{
    let n = lanes.len();
    vstd::arithmetic::div_mod::lemma_fundamental_div_mod_converse(
        (frames * n) as int,
        n as int,
        frames as int,
        0,
    );
    assert forall|i: int| 0 <= i < frames implies #[trigger] channel_of(
        woven(lanes, frames),
        n,
        c,
    )[i] == lanes[c][i] by {
        assert(0 <= i * n + c < frames * n) by (nonlinear_arith)
            requires
                0 <= i,
                i + 1 <= frames,
                0 <= c < n,
        ;
        vstd::arithmetic::div_mod::lemma_fundamental_div_mod_converse(
            i * n + c,
            n as int,
            i,
            c,
        );
    }
}

/// Parting interleaved audio into channels and weaving it back gives the
/// whole frames of it, unchanged.
pub proof fn weaving_undoes_parting<T>(interleaved: Seq<T>, channels: nat)
    requires
        channels > 0,
    ensures
        woven(channels_of(interleaved, channels), interleaved.len() / channels)
            == interleaved.take((interleaved.len() / channels) * channels as int),
{
    let frames = interleaved.len() / channels;
    let parted = channels_of(interleaved, channels);
    let back = woven(parted, frames);
    assert(frames * channels <= interleaved.len()) by (nonlinear_arith)
        requires
            frames == interleaved.len() / channels,
            channels > 0,
    ;
    assert forall|j: int| 0 <= j < frames * channels implies back[j] == interleaved[j] by {
        let c = j % channels as int;
        let i = j / channels as int;
        vstd::arithmetic::div_mod::lemma_fundamental_div_mod(j, channels as int);
        assert(i < frames) by (nonlinear_arith)
            requires
                j < frames * channels,
                i == j / channels as int,
                channels > 0,
        ;
        assert(0 <= i) by (nonlinear_arith)
            requires
                0 <= j,
                i == j / channels as int,
                channels > 0,
        ;
        assert(i * channels == channels * i) by (nonlinear_arith);
        assert(parted[c][i] == interleaved[i * channels + c]);
    }
    assert(back =~= interleaved.take(frames * channels as int));
}

/// A channel of audio that follows whole frames follows that channel of them.
pub proof fn lemma_channel_of_sum<T>(a: Seq<T>, b: Seq<T>, channels: nat, c: int)
    requires
        0 <= c < channels,
        a.len() % channels == 0,
    ensures
        channel_of(a + b, channels, c) == channel_of(a, channels, c) + channel_of(b, channels, c),
        (a + b).len() / channels == a.len() / channels + b.len() / channels,
{
    let n = a.len() / channels;
    let m = b.len() / channels;
    let rest = b.len() % channels;
    vstd::arithmetic::div_mod::lemma_fundamental_div_mod(a.len() as int, channels as int);
    vstd::arithmetic::div_mod::lemma_fundamental_div_mod(b.len() as int, channels as int);
    assert((n + m) * channels == channels * n + channels * m) by (nonlinear_arith);
    vstd::arithmetic::div_mod::lemma_fundamental_div_mod_converse(
        (a.len() + b.len()) as int,
        channels as int,
        (n + m) as int,
        rest as int,
    );
    let left = channel_of(a + b, channels, c);
    let right = channel_of(a, channels, c) + channel_of(b, channels, c);
    assert forall|i: int| 0 <= i < n + m implies left[i] == right[i] by {
        if i < n {
            assert(i * channels + c < a.len()) by (nonlinear_arith)
                requires
                    i + 1 <= n,
                    c < channels,
                    a.len() == channels * n,
            ;
            assert(0 <= i * channels) by (nonlinear_arith)
                requires
                    0 <= i,
            ;
        } else {
            assert((i - n) * channels + channels * n == i * channels) by (nonlinear_arith);
            assert(0 <= (i - n) * channels) by (nonlinear_arith)
                requires
                    n <= i,
            ;
            assert((i - n) * channels + c < b.len()) by (nonlinear_arith)
                requires
                    i - n + 1 <= m,
                    c < channels,
                    b.len() >= channels * m,
            ;
        }
    }
    assert(left =~= right);
}

/// A trailing partial frame belongs to no channel.
pub proof fn lemma_channel_of_whole<T>(a: Seq<T>, channels: nat, c: int)
    requires
        0 <= c < channels,
    ensures
        a.len() / channels * channels <= a.len(),
        (a.len() / channels * channels) % channels == 0,
        (a.len() / channels * channels) / channels == a.len() / channels,
        channel_of(a.take((a.len() / channels * channels) as int), channels, c) == channel_of(
            a,
            channels,
            c,
        ),
{
    let n = a.len() / channels;
    vstd::arithmetic::div_mod::lemma_fundamental_div_mod(a.len() as int, channels as int);
    assert(n * channels == channels * n) by (nonlinear_arith);
    vstd::arithmetic::div_mod::lemma_fundamental_div_mod_converse(
        (n * channels) as int,
        channels as int,
        n as int,
        0,
    );
    let left = channel_of(a.take((n * channels) as int), channels, c);
    assert forall|i: int| 0 <= i < n implies left[i] == a[i * channels + c] by {
        assert(i * channels + c < n * channels) by (nonlinear_arith)
            requires
                i + 1 <= n,
                c < channels,
        ;
        assert(0 <= i * channels) by (nonlinear_arith)
            requires
                0 <= i,
        ;
    }
    assert(left =~= channel_of(a, channels, c));
}

/// Frames of one set of lanes and then of another are the frames of the lanes
/// joined.
pub proof fn lemma_woven_joins<T>(a: Seq<Seq<T>>, b: Seq<Seq<T>>, f: nat, g: nat)
    requires
        a.len() == b.len(),
        forall|c: int| 0 <= c < a.len() ==> (#[trigger] a[c]).len() == f,
        forall|c: int| 0 <= c < b.len() ==> (#[trigger] b[c]).len() == g,
    ensures
        woven(Seq::new(a.len(), |c: int| a[c] + b[c]), f + g) == woven(a, f) + woven(b, g),
{
    let n = a.len();
    let joined = Seq::new(n, |c: int| a[c] + b[c]);
    let left = woven(joined, f + g);
    let right = woven(a, f) + woven(b, g);
    assert((f + g) * n == f * n + g * n) by (nonlinear_arith);
    assert forall|j: int| 0 <= j < left.len() implies left[j] == right[j] by {
        let c = j % n as int;
        let i = j / n as int;
        assert(n > 0) by (nonlinear_arith)
            requires
                0 <= j < (f + g) * n,
        ;
        vstd::arithmetic::div_mod::lemma_fundamental_div_mod(j, n as int);
        assert(0 <= c < n);
        assert(a[c].len() == f && b[c].len() == g);
        assert(i < f + g) by (nonlinear_arith)
            requires
                j < (f + g) * n,
                n > 0,
                i == j / n as int,
        ;
        if j < f * n {
            assert(0 <= i < f) by (nonlinear_arith)
                requires
                    0 <= j < f * n,
                    n > 0,
                    i == j / n as int,
            ;
        } else {
            assert(i >= f) by (nonlinear_arith)
                requires
                    j >= f * n,
                    n > 0,
                    i == j / n as int,
            ;
            assert(j - f * n == (i - f) * n + c) by (nonlinear_arith)
                requires
                    j == n * i + c,
            ;
            vstd::arithmetic::div_mod::lemma_fundamental_div_mod_converse(
                j - f * n,
                n as int,
                i - f,
                c,
            );
        }
    }
    assert(left =~= right);
}

} // verus!
