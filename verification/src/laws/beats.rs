//! Tempo: the beat at which the onsets repeat most strongly, in beats a minute.
use vstd::prelude::*;

use crate::analysis::{centered, correlation, correlations, last_peak, max_lag, mean_value};
use crate::analysis::{min_lag, peak_offset, tempo_at, tempo_of, total};
use crate::numeric::{cut_quotient, Fixed, Numeric, FIXED_ONE};

verus! {

/// The onsets, each less the mean of all.
pub open spec fn about_the_mean(onset: Seq<i64>) -> Seq<i64> {
    Seq::new(
        onset.len(),
        |i: int|
            Fixed::difference(
                onset[i],
                Fixed::quotient(added(onset, onset.len()), Fixed::fraction_value(onset.len(), 1)),
            ),
    )
}

/// The first `n` numbers added up.
pub open spec fn added(values: Seq<i64>, n: nat) -> i64
    decreases n,
{
    if n == 0 {
        0
    } else {
        Fixed::sum(added(values, (n - 1) as nat), values[n - 1])
    }
}

/// How far the first `n` onsets agree with those `lag` hops later.
pub open spec fn agreement(signal: Seq<i64>, lag: nat, n: nat) -> i64
    decreases n,
{
    if n == 0 {
        0
    } else {
        Fixed::sum(
            agreement(signal, lag, (n - 1) as nat),
            Fixed::product(signal[n - 1], signal[n - 1 + lag]),
        )
    }
}

/// How strongly the onsets repeat after `lag` hops.
pub open spec fn strength(onset: Seq<i64>, lag: int) -> i64 {
    agreement(about_the_mean(onset), lag as nat, (onset.len() - lag) as nat)
}

/// Whether a beat of `lag` hops is neither slower than sixty nor faster than two
/// hundred beats a minute.
pub open spec fn is_a_beat(rate: u32, lag: int) -> bool {
    60 * (512 * lag) <= 60 * rate <= 200 * (512 * lag)
}

proof fn lemma_added(values: Seq<i64>, n: nat)
    ensures
        added(values, n) == total::<Fixed>(values, n),
    decreases n,
{
    if n > 0 {
        lemma_added(values, (n - 1) as nat);
    }
}

proof fn lemma_agreement(signal: Seq<i64>, lag: nat, n: nat)
    ensures
        agreement(signal, lag, n) == correlation::<Fixed>(signal, lag, n),
    decreases n,
{
    if n > 0 {
        lemma_agreement(signal, lag, (n - 1) as nat);
    }
}

/// The correlations are the strengths of the beats, one after another.
proof fn lemma_strengths(onset: Seq<i64>, rate: u32, lag: int)
    requires
        rate > 0,
        is_a_beat(rate, lag),
    ensures
        min_lag(rate) <= lag <= max_lag(rate),
        strength(onset, lag) == correlations::<Fixed>(onset, rate)[lag - min_lag(rate)],
{
    assert(512 * lag <= rate);
    assert(3 * rate <= 5120 * lag);
    assert(lag >= 1);
    assert(max_lag(rate) == rate as int / 512);
    assert(lag <= rate as int / 512);
    assert((rate * 3 + 5119) / 5120 <= lag);
    lemma_added(onset, onset.len());
    assert(about_the_mean(onset) =~= centered::<Fixed>(onset));
    lemma_agreement(about_the_mean(onset), lag as nat, (onset.len() - lag) as nat);
}

/// The strongest beat is the one found.
proof fn lemma_peak(values: Seq<i64>, peak: int, n: nat)
    requires
        0 <= peak < values.len(),
        0 < n <= values.len(),
        forall|j: int| 0 <= j < values.len() && j != peak ==> #[trigger] values[j] < values[peak],
    ensures
        0 <= last_peak::<Fixed>(values, n) < n,
        n > peak ==> last_peak::<Fixed>(values, n) == peak,
    decreases n,
{
    if n > 1 {
        lemma_peak(values, peak, (n - 1) as nat);
    }
}

/// Half of a number, cut toward zero.
proof fn lemma_half(x: i64)
    ensures
        Fixed::fraction_value(1, 2) == 0x8000_0000,
        x >= 0 ==> 0 <= 2 * Fixed::product(0x8000_0000, x) <= x,
        x <= 0 ==> x <= 2 * Fixed::product(0x8000_0000, x) <= 0,
{
    let n = 0x8000_0000 * x;
    assert(FIXED_ONE / 2 == 0x8000_0000);
}

/// The top of the parabola lies within half a hop of a peak.
proof fn lemma_offset(values: Seq<i64>, peak: int)
    requires
        0 <= peak < values.len(),
        forall|j: int| 0 <= j < values.len() && j != peak ==> #[trigger] values[j] < values[peak],
        forall|j: int|
            0 <= j < values.len() ==> -0x800_0000_0000_0000 <= #[trigger] values[j]
                <= 0x800_0000_0000_0000,
    ensures
        -FIXED_ONE <= 2 * peak_offset::<Fixed>(values, peak) <= FIXED_ONE,
{
    if 0 < peak && peak + 1 < values.len() {
        let (left, top, right) = (values[peak - 1], values[peak], values[peak + 1]);
        assert(Fixed::fraction_value(2, 1) == 2 * FIXED_ONE);
        let twice = Fixed::product((2 * FIXED_ONE) as i64, top);
        assert(twice == 2 * top) by {
            let n = (2 * FIXED_ONE) * top;
            assert(n == 2 * top * FIXED_ONE) by (nonlinear_arith)
                requires
                    n == (2 * FIXED_ONE) * top,
            ;
        }
        let bend = Fixed::sum(Fixed::difference(left, twice), right);
        assert(bend == left - 2 * top + right);
        let lean = Fixed::difference(left, right);
        assert(lean == left - right);
        lemma_half(lean);
        let half = Fixed::product(0x8000_0000, lean);
        assert(-(-bend) <= 2 * half <= -bend);
        let n = -(half * FIXED_ONE);
        let d = -bend;
        assert(d > 0);
        assert(-(d * FIXED_ONE) <= 2 * n <= d * FIXED_ONE) by (nonlinear_arith)
            requires
                n == -(half * FIXED_ONE),
                -d <= 2 * half <= d,
                FIXED_ONE > 0,
        ;
        lemma_quotient_bound(n, d, FIXED_ONE as int);
        assert(Fixed::quotient(half, bend) == cut_quotient(n, d));
    }
}

proof fn lemma_quotient_bound(n: int, d: int, one: int)
    requires
        d > 0,
        one >= 0,
        -(d * one) <= 2 * n <= d * one,
    ensures
        -one <= 2 * cut_quotient(n, d) <= one,
{
    let m = if n >= 0 {
        n
    } else {
        -n
    };
    let q = m / d;
    vstd::arithmetic::div_mod::lemma_fundamental_div_mod(m, d);
    assert(2 * q <= one) by (nonlinear_arith)
        requires
            m == d * q + m % d,
            0 <= m % d,
            2 * m <= d * one,
            d > 0,
    ;
    assert(q >= 0) by {
        vstd::arithmetic::div_mod::lemma_div_pos_is_pos(m, d);
    }
}

/// The tempo that is found is that of the beat at which the onsets repeat most
/// strongly: `lag` hops of 512 samples, to within half a hop, held between sixty
/// and two hundred beats a minute. `num` is how many such hops a minute has.
pub proof fn the_tempo_is_that_of_the_strongest_beat(onset: Seq<i64>, rate: u32, lag: int)
    requires
        0 < rate <= 0x400_0000,
        is_a_beat(rate, lag),
        512 * onset.len() >= 2 * (rate + 511),
        0 < strength(onset, lag),
        forall|l: int|
            is_a_beat(rate, l) && l != lag ==> #[trigger] strength(onset, l) < strength(onset, lag),
        forall|l: int|
            is_a_beat(rate, l) ==> -0x800_0000_0000_0000 <= #[trigger] strength(onset, l)
                <= 0x800_0000_0000_0000,
    ensures
        tempo_of::<Fixed>(onset, rate) is Some,
        ({
            let num = rate * 60 * FIXED_ONE / 512;
            let bpm = (tempo_of::<Fixed>(onset, rate)->Some_0).0 as int;
            &&& 60 * FIXED_ONE <= bpm <= 200 * FIXED_ONE
            &&& bpm * (2 * lag - 1) <= 2 * num || bpm == 60 * FIXED_ONE
            &&& (bpm + 1) * (2 * lag + 1) > 2 * num || bpm == 200 * FIXED_ONE
        }),
{
    let values = correlations::<Fixed>(onset, rate);
    let least = min_lag(rate) as int;
    let peak = lag - least;
    lemma_strengths(onset, rate, lag);
    assert forall|j: int| 0 <= j < values.len() implies {
        &&& -0x800_0000_0000_0000 <= #[trigger] values[j] <= 0x800_0000_0000_0000
        &&& j != peak ==> values[j] < values[peak]
    } by {
        let l = least + j;
        assert(is_a_beat(rate, l));
        lemma_strengths(onset, rate, l);
        assert(strength(onset, l) == values[j]);
    }
    lemma_peak(values, peak, values.len());
    lemma_offset(values, peak);
    let off = peak_offset::<Fixed>(values, peak) as int;
    assert(Fixed::fraction_value(min_lag(rate), 1) == least * FIXED_ONE);
    assert(Fixed::fraction_value(peak as nat, 1) == peak * FIXED_ONE);
    let at = Fixed::sum(
        (least * FIXED_ONE) as i64,
        Fixed::sum((peak * FIXED_ONE) as i64, off as i64),
    );
    assert(at == lag * FIXED_ONE + off);
    let num = Fixed::fraction_value((rate * 60) as nat, 512);
    assert(num == rate * 60 * FIXED_ONE / 512);
    assert(num >= 0 && num <= 0x100_0000_0000_0000);
    let one: int = FIXED_ONE as int;
    let q = Fixed::quotient(num, at);
    let n = num * one;
    vstd::arithmetic::div_mod::lemma_fundamental_div_mod(n, at as int);
    let r = n / at as int;
    assert(0 <= r && r * (2 * lag - 1) <= 2 * num && (r + 1) * (2 * lag + 1) > 2 * num)
        by (nonlinear_arith)
        requires
            n == at * r + n % (at as int),
            0 <= n % (at as int) < at,
            n == num * one,
            num >= 0,
            at == lag * one + off,
            -one <= 2 * off <= one,
            one > 0,
            lag >= 1,
    {
        assert(2 * at >= (2 * lag - 1) * one);
        assert(2 * at <= (2 * lag + 1) * one);
        if r < 0 {
            assert(at * r <= -at);
        }
        assert(2 * at * r <= 2 * n);
        assert((2 * lag - 1) * one * r <= 2 * at * r);
        assert(one * ((2 * lag - 1) * r) <= one * (2 * num));
        assert(n < at * (r + 1));
        assert(2 * n < (2 * lag + 1) * one * (r + 1));
        assert(one * (2 * num) < one * ((2 * lag + 1) * (r + 1)));
    }
    assert(r <= n) by (nonlinear_arith)
        requires
            n == at * r + n % (at as int),
            0 <= n % (at as int),
            at >= 1,
            r >= 0,
    ;
    assert(r <= 2 * num) by (nonlinear_arith)
        requires
            r * (2 * lag - 1) <= 2 * num,
            lag >= 1,
            r >= 0,
    ;
    assert(q == r);
    assert(Fixed::fraction_value(60, 1) == 60 * FIXED_ONE);
    assert(Fixed::fraction_value(200, 1) == 200 * FIXED_ONE);
    let bpm = tempo_at::<Fixed>(at, rate) as int;
    assert(bpm * (2 * lag - 1) <= 2 * num || bpm == 60 * FIXED_ONE) by {
        if bpm == 200 * FIXED_ONE {
            assert(bpm * (2 * lag - 1) <= r * (2 * lag - 1)) by (nonlinear_arith)
                requires
                    bpm <= r,
                    lag >= 1,
            ;
        }
    }
    assert((bpm + 1) * (2 * lag + 1) > 2 * num || bpm == 200 * FIXED_ONE) by {
        if bpm == 60 * FIXED_ONE {
            assert((bpm + 1) * (2 * lag + 1) >= (r + 1) * (2 * lag + 1)) by (nonlinear_arith)
                requires
                    bpm >= r,
                    lag >= 1,
            ;
        }
    }
}

/// The mean of how strongly the beats repeat, taken over all of them.
pub open spec fn mean_strength(onset: Seq<i64>, rate: u32) -> i64 {
    let first = (rate * 3 + 5119) / 5120;
    let count = rate as int / 512 - first + 1;
    Fixed::quotient(
        added(Seq::new(count as nat, |j: int| strength(onset, first + j)), count as nat),
        Fixed::fraction_value(count as nat, 1),
    )
}

/// A tempo is the surer the more its beat stands out from the mean of all: a beat
/// as strong as the mean is not sure at all, and one five times as strong is quite
/// sure.
pub proof fn a_tempo_is_as_sure_as_its_beat_stands_out(onset: Seq<i64>, rate: u32, lag: int)
    requires
        0 < rate <= 0x400_0000,
        is_a_beat(rate, lag),
        512 * onset.len() >= 2 * (rate + 511),
        0 < strength(onset, lag) <= 0x800_0000_0000_0000,
        forall|l: int|
            is_a_beat(rate, l) && l != lag ==> #[trigger] strength(onset, l) < strength(onset, lag),
        mean_strength(onset, rate) > 4,
        strength(onset, lag) <= mean_strength(onset, rate) * 0x1000_0000,
    ensures
        tempo_of::<Fixed>(onset, rate) matches Some((_, sure)) && {
            let (peak, mean) = (strength(onset, lag) as int, mean_strength(onset, rate) as int);
            &&& 0 <= sure <= FIXED_ONE
            &&& sure == 0 || (4 * sure + FIXED_ONE) * mean <= peak * FIXED_ONE
            &&& sure == FIXED_ONE || peak * FIXED_ONE < (4 * sure + FIXED_ONE + 5) * mean
        },
{
    let values = correlations::<Fixed>(onset, rate);
    let least = min_lag(rate) as int;
    let place = lag - least;
    lemma_strengths(onset, rate, lag);
    assert forall|j: int| 0 <= j < values.len() implies j != place ==> #[trigger] values[j]
        < values[place] by {
        let l = least + j;
        assert(is_a_beat(rate, l));
        lemma_strengths(onset, rate, l);
        assert(strength(onset, l) == values[j]);
    }
    lemma_peak(values, place, values.len());
    let first = (rate * 3 + 5119) / 5120;
    let count = rate as int / 512 - first + 1;
    let listed = Seq::new(count as nat, |j: int| strength(onset, first + j));
    assert forall|j: int| 0 <= j < count implies #[trigger] listed[j] == values[j] by {
        assert(is_a_beat(rate, least + j));
        lemma_strengths(onset, rate, least + j);
    }
    assert(listed =~= values);
    lemma_added(values, values.len());
    let mean = mean_value::<Fixed>(values);
    assert(mean == mean_strength(onset, rate));
    let peak = strength(onset, lag);
    let one: int = FIXED_ONE as int;
    assert(Fixed::fraction_value(1, 1_000_000_000) == 4);
    let n = peak * one;
    let q = n / mean as int;
    vstd::arithmetic::div_mod::lemma_fundamental_div_mod(n, mean as int);
    vstd::arithmetic::div_mod::lemma_mod_bound(n, mean as int);
    assert(q * mean <= n < (q + 1) * mean && 0 <= q <= 0x1000_0000 * one) by (nonlinear_arith)
        requires
            n == mean * q + n % (mean as int),
            0 <= n % (mean as int) < mean,
            n == peak * one,
            0 < peak <= mean * 0x1000_0000,
            one > 0,
            mean > 0,
    {
        if q < 0 {
            assert(mean * q <= -mean);
        }
        if q > 0x1000_0000 * one {
            assert(mean * q >= mean * (0x1000_0000 * one + 1));
            assert(n <= (mean * 0x1000_0000) * one);
        }
    }
    assert(Fixed::quotient(peak, mean) == q);
    let over = q - one;
    assert(Fixed::difference(q as i64, FIXED_ONE) == over);
    assert(Fixed::fraction_value(4, 1) == 4 * one);
    let part = cut_quotient(over * one, 4 * one);
    assert(over >= 0 ==> part == over / 4) by {
        if over >= 0 {
            vstd::arithmetic::div_mod::lemma_div_denominator(over * one, one, 4);
            vstd::arithmetic::div_mod::lemma_div_multiples_vanish(over, one);
            assert(over * one == one * over) by (nonlinear_arith);
            assert(over * one >= 0);
        }
    }
    assert(over < 0 ==> -one <= part <= 0) by {
        if over < 0 {
            let m = -(over * one);
            assert(0 <= m / (4 * one) <= one);
        }
    }
    assert(Fixed::quotient(over as i64, (4 * one) as i64) == part);
    let sure = if part < 0 {
        0int
    } else if part > one {
        one
    } else {
        part
    };
    assert(sure == 0 || (4 * sure + one) * mean <= n) by {
        if sure > 0 {
            assert(4 * sure <= over);
            assert((4 * sure + one) * mean <= q * mean) by (nonlinear_arith)
                requires
                    4 * sure + one <= q,
                    mean > 0,
            ;
        }
    }
    assert(sure == one || n < (4 * sure + one + 5) * mean) by {
        if sure < one {
            assert(over < 4 * sure + 4);
            assert((q + 1) * mean <= (4 * sure + one + 5) * mean) by (nonlinear_arith)
                requires
                    q + 1 <= 4 * sure + one + 5,
                    mean > 0,
            ;
        }
    }
}

/// Nothing is said of a tempo before two beats of the slowest were heard, at sixty
/// beats a minute two seconds, in whole hops of 512 samples.
pub proof fn two_slow_beats_must_be_heard(onset: Seq<i64>, rate: u32, hops: nat)
    requires
        512 * (hops - 1) < rate <= 512 * hops,
        onset.len() < 2 * hops,
    ensures
        tempo_of::<Fixed>(onset, rate) is None,
{
    assert((rate + 511) / 512 == hops);
}

} // verus!
