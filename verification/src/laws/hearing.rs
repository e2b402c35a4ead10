//! Listening: which pitch a frequency is, and what a track's sound adds up to.
use vstd::prelude::*;

use crate::analysis::{class_of_bin, downmixed, edge_value, flux, folded, last_edge, mean_value};
use crate::analysis::{pitch_class, total, Evidence, Widening};
use crate::frames::repeated;
use crate::numeric::{Fixed, Numeric, FIXED_ONE};
use crate::pitch::{weighted, Vocoding};
use crate::spectral::raised_cosine;
use crate::transform::Spectral;

verus! {

/// Where the semitones meet from half a semitone below the A of 55 Hz on, in
/// billionths of a Hz. The last is an octave above the first.
pub open spec fn border(i: int) -> int {
    seq![
        53_434_256_763,
        56_611_623_015,
        59_977_925_296,
        63_544_398_327,
        67_322_944_881,
        71_326_175_505,
        75_567_450_610,
        80_060_925_056,
        84_821_595_397,
        89_865_349_928,
        95_209_021_710,
        100_870_444_752,
        106_868_513_526int,
    ][i]
}

/// `o` octaves up.
pub open spec fn octaves_up(o: nat) -> int
    decreases o,
{
    if o == 0 {
        1
    } else {
        2 * octaves_up((o - 1) as nat)
    }
}

proof fn lemma_borders(i: int)
    requires
        0 <= i < 12,
    ensures
        border(i) == edge_value(i),
        border(12) == 2 * edge_value(0),
        edge_value(0) <= border(i) < border(i + 1) <= border(12),
        forall|j: int| i < j < 12 ==> #[trigger] edge_value(j) >= border(i + 1),
{
}

proof fn lemma_octaves_up(o: nat)
    ensures
        octaves_up(o) >= 1,
    decreases o,
{
    if o > 0 {
        lemma_octaves_up((o - 1) as nat);
    }
}

proof fn lemma_last_edge(num: nat, den: nat, i: int, n: nat)
    requires
        den > 0,
        0 <= i <= n < 12,
        border(i) * den <= num * 1_000_000_000 < border(i + 1) * den,
    ensures
        last_edge(num, den, n) == i,
    decreases n,
{
    lemma_borders(i);
    if n > i {
        assert(edge_value(n as int) * den >= border(i + 1) * den) by (nonlinear_arith)
            requires
                edge_value(n as int) >= border(i + 1),
                den > 0,
        ;
        lemma_last_edge(num, den, i, (n - 1) as nat);
    }
}

/// A frequency between the borders of a semitone has the pitch class of that
/// semitone, in whatever octave it lies: A being nine semitones above C.
pub proof fn a_frequency_has_the_pitch_that_it_lies_at(
    num: nat,
    den: nat,
    i: int,
    octave: nat,
    octaves: nat,
)
    requires
        den > 0,
        0 <= i < 12,
        octave <= octaves,
        border(i) * octaves_up(octave) * den <= num * 1_000_000_000,
        num * 1_000_000_000 < border(i + 1) * octaves_up(octave) * den,
    ensures
        pitch_class(num, den, octaves) == (i + 9) % 12,
    decreases octave,
{
    lemma_borders(i);
    if octave == 0 {
        assert(border(i + 1) * den <= 2 * edge_value(0) * den) by (nonlinear_arith)
            requires
                border(i + 1) <= 2 * edge_value(0),
                den > 0,
        ;
        assert(border(i) * 1 * den == border(i) * den);
        assert(border(i + 1) * 1 * den == border(i + 1) * den);
        lemma_last_edge(num, den, i, 11);
    } else {
        let below = octaves_up((octave - 1) as nat);
        lemma_octaves_up((octave - 1) as nat);
        let (b, t, e) = (border(i), border(i + 1), edge_value(0));
        assert(b * (2 * below) * den == b * below * (2 * den)) by (nonlinear_arith);
        assert(t * (2 * below) * den == t * below * (2 * den)) by (nonlinear_arith);
        assert(b * below * (2 * den) >= 2 * e * den) by (nonlinear_arith)
            requires
                b >= e,
                e > 0,
                below >= 1,
                den > 0,
        ;
        a_frequency_has_the_pitch_that_it_lies_at(
            num,
            2 * den,
            i,
            (octave - 1) as nat,
            (octaves - 1) as nat,
        );
    }
}

/// A bin of a spectrum of 2048 samples counts toward the pitch class of its
/// frequency where that lies between 55 and 5000 Hz, and else toward none.
pub proof fn a_bin_counts_toward_its_pitch(rate: u32, k: int, i: int, octave: nat)
    requires
        k >= 0,
        0 <= i < 12,
        octave <= 7,
        border(i) * octaves_up(octave) * 2048 <= k * rate * 1_000_000_000,
        k * rate * 1_000_000_000 < border(i + 1) * octaves_up(octave) * 2048,
    ensures
        class_of_bin(rate, k) == (if 55 * 2048 <= k * rate <= 5000 * 2048 {
            Some(((i + 9) % 12) as nat)
        } else {
            None::<nat>
        }),
{
    assert(k * rate >= 0) by (nonlinear_arith)
        requires
            k >= 0,
    ;
    a_frequency_has_the_pitch_that_it_lies_at((k * rate) as nat, 2048, i, octave, 7);
}

/// What the first `n` bins give a pitch class: the magnitudes of the bins that
/// count toward it, and of no others.
pub open spec fn given<N: Widening>(
    start: <N::Wide as Numeric>::Sample,
    magnitudes: Seq<N::Sample>,
    rate: u32,
    class: nat,
    n: nat,
) -> <N::Wide as Numeric>::Sample
    decreases n,
{
    if n == 0 {
        start
    } else if class_of_bin(rate, n - 1) == Some(class) {
        <N::Wide as Numeric>::sum(
            given::<N>(start, magnitudes, rate, class, (n - 1) as nat),
            N::widened(magnitudes[n - 1]),
        )
    } else {
        given::<N>(start, magnitudes, rate, class, (n - 1) as nat)
    }
}

proof fn lemma_twelve_classes(num: nat, den: nat, octaves: nat)
    ensures
        pitch_class(num, den, octaves) < 12,
    decreases octaves,
{
    if octaves > 0 && num * 1_000_000_000 >= 2 * edge_value(0) * den {
        lemma_twelve_classes(num, 2 * den, (octaves - 1) as nat);
    }
}

/// Every pitch class gathers the magnitudes of its own bins.
pub proof fn a_pitch_gathers_its_own_bins<N: Widening>(
    chroma: Seq<<N::Wide as Numeric>::Sample>,
    magnitudes: Seq<N::Sample>,
    rate: u32,
    class: nat,
    n: nat,
)
    requires
        chroma.len() == 12,
        class < 12,
    ensures
        folded::<N>(chroma, magnitudes, rate, n).len() == 12,
        folded::<N>(chroma, magnitudes, rate, n)[class as int] == given::<N>(
            chroma[class as int],
            magnitudes,
            rate,
            class,
            n,
        ),
    decreases n,
{
    if n > 0 {
        lemma_twelve_classes(((n - 1) * rate) as nat, 2048, 7);
        a_pitch_gathers_its_own_bins::<N>(chroma, magnitudes, rate, class, (n - 1) as nat);
    }
}

/// What the first `n` numbers rise by, those that fall left out.
pub open spec fn risen(now: Seq<i64>, was: Seq<i64>, n: nat) -> int
    decreases n,
{
    if n == 0 {
        0
    } else if now[n - 1] > was[n - 1] {
        risen(now, was, (n - 1) as nat) + (now[n - 1] - was[n - 1])
    } else {
        risen(now, was, (n - 1) as nat)
    }
}

/// An onset is what the magnitudes have risen by, and nothing that fell takes
/// from it.
pub proof fn an_onset_is_what_rises(now: Seq<i64>, was: Seq<i64>, n: nat)
    requires
        n <= 0x1000,
        n <= now.len(),
        n <= was.len(),
        forall|k: int| 0 <= k < n ==> 0 <= #[trigger] now[k] <= 0x4_0000_0000_0000,
        forall|k: int| 0 <= k < n ==> 0 <= #[trigger] was[k] <= 0x4_0000_0000_0000,
    ensures
        flux::<Fixed>(now, was, n) == risen(now, was, n),
        0 <= risen(now, was, n) <= n * 0x4_0000_0000_0000,
    decreases n,
{
    if n > 0 {
        an_onset_is_what_rises(now, was, (n - 1) as nat);
    }
}

/// The first `n` numbers added up.
pub open spec fn plain_sum(values: Seq<i64>, n: nat) -> int
    decreases n,
{
    if n == 0 {
        0
    } else {
        plain_sum(values, (n - 1) as nat) + values[n - 1]
    }
}

proof fn lemma_plain_sum(values: Seq<i64>, n: nat)
    requires
        n <= 0x1_0000,
        n <= values.len(),
        forall|k: int| 0 <= k < n ==> -0x4000_0000_0000 <= #[trigger] values[k] <= 0x4000_0000_0000,
    ensures
        total::<Fixed>(values, n) == plain_sum(values, n),
        -n * 0x4000_0000_0000 <= plain_sum(values, n) <= n * 0x4000_0000_0000,
    decreases n,
{
    if n > 0 {
        lemma_plain_sum(values, (n - 1) as nat);
    }
}

/// A frame is heard as the mean of its channels, to within one unit.
pub proof fn a_frame_is_heard_as_its_mean(frame: Seq<i64>)
    requires
        0 < frame.len() <= 0x1_0000,
        forall|k: int|
            0 <= k < frame.len() ==> -0x4000_0000_0000 <= #[trigger] frame[k] <= 0x4000_0000_0000,
    ensures
        ({
            let off = mean_value::<Fixed>(frame) * frame.len() - plain_sum(frame, frame.len());
            -frame.len() < off < frame.len()
        }),
{
    let n = frame.len();
    lemma_plain_sum(frame, n);
    let s = plain_sum(frame, n);
    assert(Fixed::fraction_value(n, 1) == n * FIXED_ONE);
    let m = if s >= 0 {
        s
    } else {
        -s
    };
    let one: int = FIXED_ONE as int;
    let d = n * one;
    let q = (m * one) / d;
    vstd::arithmetic::div_mod::lemma_fundamental_div_mod(m * one, d);
    vstd::arithmetic::div_mod::lemma_mod_bound(m * one, d);
    assert(q * n <= m && m < q * n + n && q >= 0) by (nonlinear_arith)
        requires
            m * one == d * q + (m * one) % d,
            0 <= (m * one) % d < d,
            d == n * one,
            n > 0,
            one > 0,
            m >= 0,
    {
        let r = (m * one) % d;
        assert(one * m == one * (n * q) + r);
        if q < 0 {
            assert(one * (n * q) <= -(one * n));
        }
        assert(one * (n * q) <= one * m);
        assert(one * m < one * (n * q) + one * n);
        assert(one * m < one * (n * q + n));
    }
    assert(q <= m) by (nonlinear_arith)
        requires
            q * n <= m,
            n >= 1,
            q >= 0,
    ;
    assert(-(s * one) == (-s) * one) by (nonlinear_arith);
    assert(s >= 0 ==> mean_value::<Fixed>(frame) == q);
    assert(s < 0 ==> s * one < 0) by (nonlinear_arith)
        requires
            one > 0,
    ;
    assert(s >= 0 ==> s * one >= 0) by (nonlinear_arith)
        requires
            one > 0,
    ;
    assert(s < 0 ==> mean_value::<Fixed>(frame) == -q);
    assert((-q) * n == -(q * n)) by (nonlinear_arith);
}

/// Every whole frame is heard on its own, in its place.
pub proof fn frames_are_heard_in_their_places<N: Widening>(
    left: Seq<N::Sample>,
    right: Seq<N::Sample>,
    i: int,
)
    requires
        left.len() == right.len(),
        0 <= i < left.len(),
    ensures
        downmixed::<N>(
            Seq::new(
                2 * left.len(),
                |j: int|
                    if j % 2 == 0 {
                        left[j / 2]
                    } else {
                        right[j / 2]
                    },
            ),
            2,
        )[i] == mean_value::<N>(seq![left[i], right[i]]),
{
    let both = Seq::new(
        2 * left.len(),
        |j: int|
            if j % 2 == 0 {
                left[j / 2]
            } else {
                right[j / 2]
            },
    );
    assert(both.subrange(i * 2, i * 2 + 2) =~= seq![left[i], right[i]]);
    assert(both.len() / 2 == left.len());
}

/// What is looked at is the last 2048 samples heard, silence standing before the
/// first. It is looked at every 512 samples, and every look but the first tells
/// of an onset.
pub proof fn the_last_samples_are_looked_at<N: Widening>(
    start: Evidence<N>,
    mono: Seq<N::Sample>,
    rate: u32,
    hops: nat,
)
    requires
        start.history.len() == 2048,
        start.pending.len() == 0,
        mono.len() == 512 * hops,
    ensures
        start.heard(mono, rate).pending.len() == 0,
        start.heard(mono, rate).history == (start.history + mono).skip(mono.len() as int),
        start.heard(mono, rate).started == (start.started || hops > 0),
        start.heard(mono, rate).onset.len() == start.onset.len() + hops - (if start.started
            || hops == 0 {
            0int
        } else {
            1int
        }),
    decreases hops,
{
    if hops == 0 {
        assert(start.pending + mono =~= start.pending);
        assert((start.history + mono).skip(0) =~= start.history);
    } else {
        let fed = Evidence { pending: start.pending + mono.take(512), ..start };
        let next = fed.framed(rate);
        assert(start.heard(mono, rate) == next.heard(mono.skip(512), rate));
        assert(next.history =~= (start.history + mono.take(512)).skip(512));
        the_last_samples_are_looked_at::<N>(next, mono.skip(512), rate, (hops - 1) as nat);
        assert((next.history + mono.skip(512)).skip(mono.skip(512).len() as int) =~= (
        start.history + mono).skip(mono.len() as int));
    }
}

/// Before anything is heard there was silence.
pub proof fn a_track_begins_in_silence<N: Widening>()
    ensures
        Evidence::<N>::none().history == repeated(N::zero_value(), 2048),
        Evidence::<N>::none().pending.len() == 0,
        Evidence::<N>::none().onset.len() == 0,
        Evidence::<N>::none().chroma == repeated(<N::Wide as Numeric>::zero_value(), 12),
        !Evidence::<N>::none().started,
{
}

/// Every look weighs the last 2048 samples by a window that is nothing at its start
/// and whole in its middle. Its magnitudes are kept for the next look, and where
/// there was one before, what has risen since then is its onset.
pub proof fn a_look_is_weighed_and_kept(start: Evidence<Fixed>, rate: u32, k: int)
    requires
        start.history.len() == 2048,
        start.pending.len() == 512,
        0 <= k <= 1024,
    ensures
        ({
            let next = start.framed(rate);
            let heard = (start.history + start.pending).skip(512);
            let look = Fixed::spectrum(
                Seq::new(
                    2048,
                    |j: int|
                        Fixed::product(
                            heard[j],
                            Fixed::difference(
                                0x8000_0000,
                                Fixed::product(
                                    0x8000_0000,
                                    Fixed::circle_point(j as nat, 2048).0,
                                ),
                            ),
                        ),
                ),
            );
            &&& next.previous.len() == 1025
            &&& next.previous[k] == Fixed::polar_of(look, k).0
            &&& next.chroma == folded::<Fixed>(start.chroma, next.previous, rate, 1025)
            &&& start.started ==> next.onset == start.onset.push(
                flux::<Fixed>(next.previous, start.previous, 1025),
            )
            &&& !start.started ==> next.onset == start.onset
        }),
{
    let heard = (start.history + start.pending).skip(512);
    assert(Fixed::fraction_value(1, 2) == 0x8000_0000);
    assert(heard =~= start.history.skip(512) + start.pending);
    let window = Seq::new(2048, |i: int| raised_cosine::<Fixed>(i as nat, 2048));
    assert(weighted::<Fixed>(heard, window) =~= Seq::new(
        2048,
        |j: int|
            Fixed::product(
                heard[j],
                Fixed::difference(
                    0x8000_0000,
                    Fixed::product(0x8000_0000, Fixed::circle_point(j as nat, 2048).0),
                ),
            ),
    ));
}

} // verus!
