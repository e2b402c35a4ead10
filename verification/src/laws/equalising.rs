//! The equaliser: which gain a frequency gets, and how the kernel gives it.
use vstd::prelude::*;

use crate::curves::{log_of_two, log_steps};
use crate::fireq::{band_below, designed, gain_db, kernel_bin};
use crate::fireq::{the_band_found_surrounds_the_frequency, Voicing};
use crate::numeric::{cut_quotient, Fixed, Numeric, FIXED_ONE};
use crate::phase::{kernel_bins, lemma_share_is_bounded, lemma_tone_is_a_share, share, ROOM};
use crate::tones::{sounded, tone, tones};

verus! {

/// The centres of the ten bands, in Hz.
pub open spec fn centre(band: int) -> int {
    seq![32, 64, 125, 250, 500, 1000, 2000, 4000, 8000, 16000int][band]
}

/// Whether `num / den` Hz lies above the centre of `band` and no higher than the
/// next.
pub open spec fn lies_above(num: int, den: int, band: int) -> bool {
    0 <= band < 9 && centre(band) * den < num <= centre(band + 1) * den
}

/// The one band that a frequency lies above.
pub open spec fn band_of(num: int, den: int) -> int {
    choose|band: int| lies_above(num, den, band)
}

/// The gain at `num / den` Hz.
pub open spec fn gain_at<N: Voicing>(num: int, den: int, gains: Seq<N::Sample>) -> N::Sample {
    if num <= 32 * den {
        gains[0]
    } else if num >= 16000 * den {
        gains[9]
    } else {
        let band = band_of(num, den);
        let way = N::log_share_value(
            num as nat,
            den as nat,
            centre(band) as nat,
            centre(band + 1) as nat,
        );
        N::sum(gains[band], N::product(way, N::difference(gains[band + 1], gains[band])))
    }
}

proof fn lemma_centres(den: int, i: int, j: int)
    requires
        den > 0,
        0 <= i <= j < 10,
    ensures
        centre(i) == crate::fireq::center_hz(i),
        0 < centre(i) <= centre(j),
        centre(i) * den <= centre(j) * den,
        i < j ==> centre(i) < centre(j),
{
    assert(centre(i) * den <= centre(j) * den) by (nonlinear_arith)
        requires
            centre(i) <= centre(j),
            den > 0,
    ;
}

proof fn lemma_one_band(num: int, den: int, a: int, b: int)
    requires
        den > 0,
        lies_above(num, den, a),
        lies_above(num, den, b),
    ensures
        a == b,
{
    if a < b {
        lemma_centres(den, a + 1, b);
    }
    if b < a {
        lemma_centres(den, b + 1, a);
    }
}

/// The gain of a frequency runs from that of the band whose centre it lies above
/// to that of the next, by how far it is on its way between the two centres. The
/// first band's gain holds below it all, and the last one's above.
pub proof fn the_gain_runs_from_centre_to_centre<N: Voicing>(
    num: nat,
    den: nat,
    gains: Seq<N::Sample>,
    band: int,
)
    requires
        den > 0,
        gains.len() == 10,
    ensures
        gain_db::<N>(num, den, gains) == gain_at::<N>(num as int, den as int, gains),
        lies_above(num as int, den as int, band) && band < 9 && num < 16000 * den
            ==> gain_at::<N>(num as int, den as int, gains) == N::sum(
            gains[band],
            N::product(
                N::log_share_value(num, den, centre(band) as nat, centre(band + 1) as nat),
                N::difference(gains[band + 1], gains[band]),
            ),
        ),
{
    let d = den as int;
    if 32 * den < num < 16000 * den {
        the_band_found_surrounds_the_frequency(num, den);
        let found = band_below(num, den, 0) as int;
        lemma_centres(d, found, found + 1);
        lemma_centres(d, found + 1, found + 1);
        assert(lies_above(num as int, d, found));
        lemma_one_band(num as int, d, found, band_of(num as int, d));
        if lies_above(num as int, d, band) {
            lemma_one_band(num as int, d, found, band);
        }
    } else if lies_above(num as int, d, band) {
        lemma_centres(d, 0, band);
    }
    assert(32 * den < 16000 * den);
}

proof fn lemma_two_to(k: nat)
    ensures
        vstd::arithmetic::power2::pow2(k) >= 1,
        k > 0 ==> vstd::arithmetic::power2::pow2(k) == 2 * vstd::arithmetic::power2::pow2(
            (k - 1) as nat,
        ),
{
    vstd::arithmetic::power2::lemma_pow2_pos(k);
    if k > 0 {
        vstd::arithmetic::power2::lemma_pow2_unfold(k);
    }
}

proof fn lemma_square(y: int, z: int)
    requires
        FIXED_ONE <= y <= z < 2 * FIXED_ONE,
    ensures
        FIXED_ONE <= y * y / FIXED_ONE as int <= z * z / FIXED_ONE as int,
        z * z / (FIXED_ONE as int) < 4 * FIXED_ONE,
{
    let one: int = FIXED_ONE as int;
    assert(one * one <= y * y <= z * z < 4 * one * one) by (nonlinear_arith)
        requires
            0 < one <= y <= z < 2 * one,
    ;
}

/// Logarithms grow with the number.
proof fn lemma_log_steps(y: int, z: int, k: nat, acc: int)
    requires
        FIXED_ONE <= y <= z < 2 * FIXED_ONE,
    ensures
        ({
            let scale = vstd::arithmetic::power2::pow2(k);
            &&& acc * scale <= log_steps(y, k, acc) <= log_steps(z, k, acc)
            &&& log_steps(z, k, acc) < (acc + 1) * scale
        }),
    decreases k,
{
    lemma_two_to(k);
    let scale = vstd::arithmetic::power2::pow2(k) as int;
    if k == 0 {
        vstd::arithmetic::power2::lemma2_to64();
    } else {
        lemma_square(y, z);
        let half = vstd::arithmetic::power2::pow2((k - 1) as nat) as int;
        let (a, b) = (y * y / FIXED_ONE as int, z * z / FIXED_ONE as int);
        let low = if a >= 2 * FIXED_ONE {
            a / 2
        } else {
            a
        };
        let high = if b >= 2 * FIXED_ONE {
            b / 2
        } else {
            b
        };
        let from = if a >= 2 * FIXED_ONE {
            2 * acc + 1
        } else {
            2 * acc
        };
        let to = if b >= 2 * FIXED_ONE {
            2 * acc + 1
        } else {
            2 * acc
        };
        assert(scale == 2 * half);
        assert(acc * scale == 2 * acc * half) by (nonlinear_arith)
            requires
                scale == 2 * half,
        ;
        assert((acc + 1) * scale == (2 * acc + 2) * half) by (nonlinear_arith)
            requires
                scale == 2 * half,
        ;
        assert((2 * acc + 1) * half == 2 * acc * half + half) by (nonlinear_arith);
        assert((2 * acc + 2) * half == 2 * acc * half + 2 * half) by (nonlinear_arith);
        assert((2 * acc + 1 + 1) * half == (2 * acc + 2) * half);
        if from == to {
            lemma_log_steps(low, high, (k - 1) as nat, from);
        } else {
            lemma_log_steps(low, low, (k - 1) as nat, from);
            lemma_log_steps(high, high, (k - 1) as nat, to);
        }
    }
}

proof fn lemma_logs(y: int, z: int)
    requires
        FIXED_ONE <= y <= z,
    ensures
        0 <= log_of_two(y) <= log_of_two(z),
        z >= 2 * FIXED_ONE ==> log_of_two(z) >= FIXED_ONE,
        z < 2 * FIXED_ONE ==> log_of_two(z) < FIXED_ONE,
    decreases z,
{
    vstd::arithmetic::power2::lemma2_to64();
    if z >= 2 * FIXED_ONE {
        if y >= 2 * FIXED_ONE {
            lemma_logs(y / 2, z / 2);
        } else {
            lemma_logs(z / 2, z / 2);
            lemma_log_steps(y, y, 32, 0);
        }
    } else {
        lemma_log_steps(y, z, 32, 0);
    }
}

/// How far a frequency is on its way between two centres: nowhere at the one,
/// all the way at the other, and never beyond either.
proof fn lemma_way(num: int, den: int, low: int, high: int)
    requires
        den > 0,
        0 < low < high,
        high <= 16000,
        2 * high >= 3 * low,
        low * den < num <= high * den,
    ensures
        0 <= Fixed::log_share_value(num as nat, den as nat, low as nat, high as nat) <= FIXED_ONE,
        num == high * den ==> Fixed::log_share_value(
            num as nat,
            den as nat,
            low as nat,
            high as nat,
        ) == FIXED_ONE,
{
    let one: int = FIXED_ONE as int;
    let least = low * den;
    assert(least > 0) by (nonlinear_arith)
        requires
            least == low * den,
            low > 0,
            den > 0,
    ;
    let (y, z) = (num * one / least, high * one / low);
    let most = high * den;
    assert(most * one == (high * one) * den) by (nonlinear_arith)
        requires
            most == high * den,
    ;
    vstd::arithmetic::div_mod::lemma_div_is_ordered(num * one, most * one, least);
    vstd::arithmetic::div_mod::lemma_div_is_ordered(least * one, num * one, least);
    vstd::arithmetic::div_mod::lemma_div_multiples_vanish(one, least);
    assert(least * one == one * least) by (nonlinear_arith);
    assert((most * one) / least == z) by {
        vstd::arithmetic::div_mod::lemma_div_denominator(most * one, den, low);
        assert(den * low == least) by (nonlinear_arith)
            requires
                least == low * den,
        ;
        vstd::arithmetic::div_mod::lemma_div_multiples_vanish(high * one, den);
        assert((high * one) * den == den * (high * one)) by (nonlinear_arith);
    }
    assert(one <= y <= z);
    lemma_logs(y, z);
    let (along, across) = (log_of_two(y), log_of_two(z));
    assert(2 * z >= 3 * one - 2) by (nonlinear_arith)
        requires
            z == high * one / low,
            2 * high >= 3 * low,
            0 < low,
            one > 0,
    {
        vstd::arithmetic::div_mod::lemma_fundamental_div_mod(high * one, low);
        vstd::arithmetic::div_mod::lemma_mod_bound(high * one, low);
        assert(low * z > high * one - low);
        assert(2 * (low * z) > 3 * (low * one) - 2 * low);
        assert(low * (2 * z) > low * (3 * one - 2));
    }
    lemma_log_is_some(z);
    lemma_log_is_small(high * one, low);
    assert(along * one <= across * one) by (nonlinear_arith)
        requires
            along <= across,
            one > 0,
    ;
    vstd::arithmetic::div_mod::lemma_div_is_ordered(along * one, across * one, across);
    vstd::arithmetic::div_mod::lemma_div_multiples_vanish(one, across);
    assert(across * one == one * across) by (nonlinear_arith);
    vstd::arithmetic::div_mod::lemma_div_pos_is_pos(along * one, across);
}

/// The logarithm of a number beyond one and a half is not nothing.
proof fn lemma_log_is_some(z: int)
    requires
        2 * z >= 3 * FIXED_ONE - 2,
    ensures
        log_of_two(z) > 0,
{
    let one: int = FIXED_ONE as int;
    if z >= 2 * FIXED_ONE {
        lemma_logs(z, z);
    } else {
        lemma_square(z, z);
        assert(z * z / one >= 2 * one) by {
            let w = 0x1_7fff_ffffint;
            assert(w * w <= z * z) by (nonlinear_arith)
                requires
                    0 < w <= z,
            ;
        }
        lemma_log_steps(z * z / one / 2, z * z / one / 2, 31, 1);
        lemma_two_to(31);
        assert(1 * vstd::arithmetic::power2::pow2(31) == vstd::arithmetic::power2::pow2(31));
        assert(log_of_two(z) == log_steps(z, 32, 0));
        assert(log_steps(z, 32, 0) == log_steps(z * z / one / 2, 31, 1));
    }
}

/// The logarithms of the centres' ratios are small.
proof fn lemma_log_is_small(num: int, den: int)
    requires
        FIXED_ONE * den <= num <= 16000 * FIXED_ONE,
        den > 0,
    ensures
        0 <= log_of_two(num / den) <= 20 * FIXED_ONE,
{
    let one: int = FIXED_ONE as int;
    assert(one <= num / den <= 16000 * one) by (nonlinear_arith)
        requires
            one * den <= num <= 16000 * one,
            den > 0,
            one > 0,
    {
        vstd::arithmetic::div_mod::lemma_fundamental_div_mod(num, den);
        vstd::arithmetic::div_mod::lemma_mod_bound(num, den);
        let q = num / den;
        if q < one {
            assert(den * q <= den * (one - 1));
        }
        if q > 16000 * one {
            assert(den * q >= q);
        }
    }
    lemma_logs(num / den, 16384 * one);
    reveal_with_fuel(log_of_two, 16);
    lemma_logs(one, one);
}

/// At the centre of a band the gain is the band's own.
pub proof fn a_band_has_its_own_gain(den: nat, gains: Seq<i64>, band: int)
    requires
        den > 0,
        gains.len() == 10,
        0 <= band < 10,
        forall|b: int|
            0 <= b < 10 ==> -0x1000_0000_0000_0000 <= #[trigger] gains[b] <= 0x1000_0000_0000_0000,
    ensures
        gain_db::<Fixed>((centre(band) * den) as nat, den, gains) == gains[band],
{
    let d = den as int;
    let num = centre(band) * d;
    if band > 0 {
        lemma_centres(d, band - 1, band);
        lemma_centres(d, 0, band);
        lemma_centres(d, band, 9);
        assert(centre(band - 1) * d < num) by (nonlinear_arith)
            requires
                centre(band - 1) < centre(band),
                num == centre(band) * d,
                d > 0,
        ;
        if band < 9 {
            assert(num < 16000 * d) by (nonlinear_arith)
                requires
                    centre(band) < 16000,
                    num == centre(band) * d,
                    d > 0,
            ;
            the_gain_runs_from_centre_to_centre::<Fixed>(num as nat, den, gains, band - 1);
            lemma_way(num, d, centre(band - 1), centre(band));
            let step = Fixed::difference(gains[band], gains[band - 1]);
            assert(step == gains[band] - gains[band - 1]);
            lemma_part_of(FIXED_ONE, step);
        } else {
            the_gain_runs_from_centre_to_centre::<Fixed>(num as nat, den, gains, band - 1);
            assert(num > 32 * d);
        }
    } else {
        the_gain_runs_from_centre_to_centre::<Fixed>(num as nat, den, gains, 0);
    }
}

/// A part of a number lies between nothing and all of it.
proof fn lemma_part_of(way: i64, step: i64)
    requires
        0 <= way <= FIXED_ONE,
    ensures
        step >= 0 ==> 0 <= Fixed::product(way, step) <= step,
        step <= 0 ==> step <= Fixed::product(way, step) <= 0,
        way == FIXED_ONE ==> Fixed::product(way, step) == step,
{
    let one: int = FIXED_ONE as int;
    let n = way * step;
    if step >= 0 {
        assert(0 <= n <= one * step) by (nonlinear_arith)
            requires
                n == way * step,
                0 <= way <= one,
                step >= 0,
        ;
    } else {
        assert(0 <= -n <= one * (-step)) by (nonlinear_arith)
            requires
                n == way * step,
                0 <= way <= one,
                step < 0,
        ;
    }
}

/// Between two centres the gain is never beyond those of the two bands.
pub proof fn a_gain_lies_between_its_neighbours(num: nat, den: nat, gains: Seq<i64>, band: int)
    requires
        den > 0,
        gains.len() == 10,
        lies_above(num as int, den as int, band),
        forall|b: int|
            0 <= b < 10 ==> -0x1000_0000_0000_0000 <= #[trigger] gains[b] <= 0x1000_0000_0000_0000,
    ensures
        ({
            let gain = gain_db::<Fixed>(num, den, gains);
            gains[band] <= gain <= gains[band + 1] || gains[band + 1] <= gain <= gains[band]
        }),
{
    let d = den as int;
    lemma_centres(d, band, band + 1);
    lemma_centres(d, band + 1, 9);
    lemma_centres(d, 0, band);
    the_gain_runs_from_centre_to_centre::<Fixed>(num, den, gains, band);
    if num < 16000 * den {
        lemma_way(num as int, d, centre(band), centre(band + 1));
        let way = Fixed::log_share_value(num, den, centre(band) as nat, centre(band + 1) as nat);
        let step = Fixed::difference(gains[band + 1], gains[band]);
        assert(step == gains[band + 1] - gains[band]);
        lemma_part_of(way, step);
    } else {
        if band < 8 {
            lemma_centres(d, band + 1, 8);
            assert(8000 * d < 16000 * d);
        }
    }
}

/// How strong the frequency of bin `k` is made.
pub open spec fn strength(rate: u32, gains: Seq<i64>, k: int) -> i64 {
    Fixed::amplitude_value(gain_at::<Fixed>(k * rate, 4096, gains))
}

/// What bin `k` adds to tap `t`.
#[verifier::opaque]
pub open spec fn wave(rate: u32, gains: Seq<i64>, t: int, k: int) -> int {
    let part = share(strength(rate, gains, k), t - 2048, k);
    if k == 0 || k == 2048 {
        part
    } else {
        2 * part
    }
}

/// Waves that all stand at their crest at tap 2048, the first `n` of them, each
/// as strong as its frequency is made. All but the slowest and the fastest count
/// twice.
pub open spec fn waves(rate: u32, gains: Seq<i64>, t: int, n: nat) -> int
    decreases n,
{
    if n == 0 {
        0
    } else {
        waves(rate, gains, t, (n - 1) as nat) + wave(rate, gains, t, n - 1)
    }
}

proof fn lemma_wave(rate: u32, gains: Seq<i64>, t: nat, k: int)
    requires
        t < 4096,
        0 <= k <= 2048,
        gains.len() == 10,
        0 <= strength(rate, gains, k) <= ROOM,
    ensures
        tone(kernel_bins(rate, gains)[k], k as nat, 4096, t) == wave(rate, gains, t as int, k),
        -0x4_0000_0000_0000 <= wave(rate, gains, t as int, k) <= 0x4_0000_0000_0000,
{
    reveal(wave);
    assert(k * rate >= 0) by (nonlinear_arith)
        requires
            k >= 0,
    ;
    the_gain_runs_from_centre_to_centre::<Fixed>((k * rate) as nat, 4096, gains, 0);
    assert(kernel_bins(rate, gains)[k] == kernel_bin::<Fixed>(rate, gains, k));
    assert(kernel_bin::<Fixed>(rate, gains, k).0 == strength(rate, gains, k));
    lemma_tone_is_a_share(rate, gains, k, t);
    lemma_share_is_bounded(strength(rate, gains, k), t - 2048, k);
}

proof fn lemma_waves(bins: Seq<(i64, i64)>, rate: u32, gains: Seq<i64>, t: nat, n: nat)
    requires
        t < 4096,
        n <= 2049,
        forall|k: int|
            0 <= k <= 2048 ==> {
                &&& tone(#[trigger] bins[k], k as nat, 4096, t) == wave(rate, gains, t as int, k)
                &&& -0x4_0000_0000_0000 <= wave(rate, gains, t as int, k) <= 0x4_0000_0000_0000
            },
    ensures
        tones(bins, 4096, n)[t as int] == waves(rate, gains, t as int, n),
        -0x4_0000_0000_0000 * n <= waves(rate, gains, t as int, n) <= 0x4_0000_0000_0000 * n,
    decreases n,
{
    if n > 0 {
        let m = (n - 1) as nat;
        lemma_waves(bins, rate, gains, t, m);
        let before = tones(bins, 4096, m)[t as int];
        let part = tone(bins[m as int], m, 4096, t);
        assert(part == wave(rate, gains, t as int, m as int));
        assert(tones(bins, 4096, n)[t as int] == Fixed::sum(before, part));
    }
}

/// The kernel makes every frequency as strong as its gain says, and delays all by
/// 2048 samples: its taps are waves of those strengths that all have their crest
/// there, a 4096th of their sum, under a window that is nothing at the start and
/// whole at the crest.
pub proof fn the_kernel_gives_every_frequency_its_gain(rate: u32, gains: Seq<i64>, t: int)
    requires
        0 <= t < 4096,
        gains.len() == 10,
        forall|k: int| 0 <= k <= 2048 ==> 0 <= #[trigger] strength(rate, gains, k) <= ROOM,
    ensures
        designed::<Fixed>(rate, gains).len() == 4096,
        designed::<Fixed>(rate, gains)[t] == Fixed::product(
            cut_quotient(waves(rate, gains, t, 2049), 4096) as i64,
            Fixed::difference(
                0x8000_0000,
                Fixed::product(0x8000_0000, Fixed::circle_point(t as nat, 4096).0),
            ),
        ),
{
    let bins = kernel_bins(rate, gains);
    let at = t as nat;
    assert forall|k: int| 0 <= k <= 2048 implies {
        &&& tone(#[trigger] bins[k], k as nat, 4096, at) == wave(rate, gains, at as int, k)
        &&& -0x4_0000_0000_0000 <= wave(rate, gains, at as int, k) <= 0x4_0000_0000_0000
    } by {
        assert(0 <= strength(rate, gains, k) <= ROOM);
        lemma_wave(rate, gains, at, k);
    }
    lemma_waves(bins, rate, gains, at, 2049);
    assert(bins.len() == 2049);
    assert(Fixed::fraction_value(1, 2) == 0x8000_0000);
    assert(sounded(bins, 4096)[t] == cut_quotient(waves(rate, gains, t, 2049), 4096) as i64);
}

} // verus!
