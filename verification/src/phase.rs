//! What the equaliser's kernel does to phase: nothing but delay.
//!
//! The bins of the kernel all have the phase of a delay by half of it, so that
//! its taps are the same on both sides of the centre; and where the gains are
//! level, all taps but the centre cancel. In [`Fixed`] both hold exactly.
use vstd::prelude::*;

use crate::curves::{lemma_power_of_nothing, octaves};
use crate::fireq::{designed, equal_gains_are_level, kernel_bin, Voicing, EQ_BAND_COUNT};
use crate::fireq::{KERNEL_LEN, LATENCY_FRAMES, OCTAVES_PER_DECIBEL};
use crate::frames::repeated;
use crate::numeric::{cut_quotient, Exact, Fixed, Numeric, FIXED_ONE};
use crate::numeric::{the_fixed_circle_is_round, the_fixed_circle_is_symmetric};
use crate::numeric::the_fixed_circle_turns_over;
use crate::pitch::Vocoding;
use crate::spectral::raised_cosine;
use crate::tones::{placed, sounded, tone, tones};

verus! {

/// The bins that the kernel is designed from.
pub open spec fn kernel_bins(rate: u32, gains: Seq<i64>) -> Seq<(i64, i64)> {
    Seq::new(
        Fixed::bin_count(KERNEL_LEN as nat),
        |k: int| kernel_bin::<Fixed>(rate, gains, k),
    )
}

/// Every other bin of the kernel points the other way, and none has an imaginary
/// part.
proof fn lemma_bins_point_along(rate: u32, gains: Seq<i64>, k: int)
    requires
        0 <= k,
    ensures
        ({
            let (a, turn) = kernel_bin::<Fixed>(rate, gains, k);
            placed(a, turn) == (
                if k % 2 == 0 {
                    Fixed::product(a, FIXED_ONE)
                } else {
                    Fixed::product(a, (-FIXED_ONE) as i64)
                },
                0i64,
            )
        }),
{
    let (a, turn) = kernel_bin::<Fixed>(rate, gains, k);
    assert((k * LATENCY_FRAMES) % (KERNEL_LEN as int) == if k % 2 == 0 {
        0int
    } else {
        2048
    });
    assert(Fixed::fraction_value(0, 4096) == 0 && Fixed::fraction_value(2048, 4096) == 0x8000_0000);
    assert(turn == if k % 2 == 0 {
        0
    } else {
        -0x8000_0000
    });
    Fixed::circle_starts_at_one(FIXED_ONE as nat);
    the_fixed_circle_turns_over(0, 0x8000_0000);
    assert(a * 0 == 0);
}

/// A tap as far behind the centre as another is before it has the same share of
/// a tone without an imaginary part.
proof fn lemma_tones_are_symmetric(bin: (i64, i64), k: nat, d: nat)
    requires
        placed(bin.0, bin.1).1 == 0,
        d < 2048,
    ensures
        tone(bin, k, 4096, 2048 + d) == tone(bin, k, 4096, (2048 - d) as nat),
{
    let m = k * (2048 + d);
    let n = k * (2048 - d) as nat;
    assert(n == 4096 * k - m) by (nonlinear_arith)
        requires
            m == k * (2048 + d),
            n == k * (2048 - d),
    ;
    lemma_turns_back(m as int, k as int);
    lemma_cosine((m % 4096) as int);
    lemma_level_tone(bin, k, 2048 + d);
    lemma_level_tone(bin, k, (2048 - d) as nat);
}

proof fn lemma_sums_are_symmetric(bins: Seq<(i64, i64)>, n: nat, d: nat)
    requires
        n <= bins.len(),
        forall|k: int| 0 <= k < bins.len() ==> placed((#[trigger] bins[k]).0, bins[k].1).1 == 0,
        d < 2048,
    ensures
        tones(bins, 4096, n)[2048int + d] == tones(bins, 4096, n)[2048 - d],
    decreases n,
{
    if n > 0 {
        lemma_sums_are_symmetric(bins, (n - 1) as nat, d);
        lemma_tones_are_symmetric(bins[n - 1], (n - 1) as nat, d);
    }
}

/// Linear phase: whatever the gains, the kernel is symmetric about its centre.
pub proof fn a_kernel_is_symmetric(rate: u32, gains: Seq<i64>, d: nat)
    requires
        d < LATENCY_FRAMES,
    ensures
        designed::<Fixed>(rate, gains)[LATENCY_FRAMES + d] == designed::<Fixed>(
            rate,
            gains,
        )[LATENCY_FRAMES - d],
{
    let bins = kernel_bins(rate, gains);
    assert forall|k: int| 0 <= k < bins.len() implies placed((#[trigger] bins[k]).0, bins[k].1).1
        == 0 by {
        lemma_bins_point_along(rate, gains, k);
    }
    lemma_sums_are_symmetric(bins, bins.len(), d);
    assert(sounded(bins, 4096)[2048int + d] == sounded(bins, 4096)[2048 - d]);
    the_fixed_circle_is_symmetric(2048 + d, 4096);
    assert(raised_cosine::<Fixed>(2048 + d, 4096) == raised_cosine::<Fixed>(
        (2048 - d) as nat,
        4096,
    ));
}

/// The cosine of point `i` of the 4096 that the kernel turns by.
#[verifier::opaque]
pub open spec fn cosine(i: int) -> i64 {
    Fixed::circle_point(i as nat, 4096).0
}

/// The cosine is bounded, the same from both ends of a turn, and the opposite one
/// half a turn on.
proof fn lemma_cosine(i: int)
    requires
        0 <= i < 4096,
    ensures
        -0x2_0000_0000 <= cosine(i) <= 0x2_0000_0000,
        i > 0 ==> cosine(4096 - i) == cosine(i),
        i < 2048 ==> cosine(i + 2048) == -cosine(i),
        i >= 2048 ==> cosine(i - 2048) == -cosine(i),
        cosine(0) == FIXED_ONE,
{
    reveal(cosine);
    the_fixed_circle_is_round(i as nat, 4096);
    the_fixed_circle_is_symmetric(i as nat, 4096);
    Fixed::circle_starts_at_one(4096);
    if i < 2048 {
        the_fixed_circle_turns_over(i as nat, 2048);
    } else {
        the_fixed_circle_turns_over((i - 2048) as nat, 2048);
    }
}

/// The share of bin `k` in the tap `j` behind the centre, where every bin is as
/// strong as `a`.
pub open spec fn share(a: i64, j: int, k: int) -> int {
    Fixed::product(a, cosine((k * j) % 4096)) as int
}

/// The shares of `n` bins from `from` on.
pub open spec fn shares(a: i64, j: int, from: int, n: nat) -> int
    decreases n,
{
    if n == 0 {
        0
    } else {
        shares(a, j, from, (n - 1) as nat) + share(a, j, from + n - 1)
    }
}

/// The loudest level that there is room for in the sum of all bins.
pub const ROOM: i64 = 0x1_0000_0000_0000;

/// A share is bounded, and that of the opposite point is the opposite.
proof fn lemma_product_turns_over(a: i64, c: i64)
    requires
        0 <= a <= ROOM,
        -0x2_0000_0000 <= c <= 0x2_0000_0000,
    ensures
        -2 * ROOM <= Fixed::product(a, c) <= 2 * ROOM,
        Fixed::product(a, (-c) as i64) == -Fixed::product(a, c),
        Fixed::product((-a) as i64, (-c) as i64) == Fixed::product(a, c),
{
    let n = a * c;
    assert(-0x2_0000_0000 * ROOM <= n <= 0x2_0000_0000 * ROOM) by (nonlinear_arith)
        requires
            n == a * c,
            0 <= a <= ROOM,
            -0x2_0000_0000 <= c <= 0x2_0000_0000,
    ;
    assert(a * (-c) == -n && (-a) * (-c) == n) by (nonlinear_arith)
        requires
            n == a * c,
    ;
}

/// One is neutral, and its opposite turns a number over.
proof fn lemma_one_is_neutral(a: i64)
    requires
        0 <= a,
    ensures
        Fixed::product(a, FIXED_ONE) == a,
        Fixed::product(a, (-FIXED_ONE) as i64) == -a,
{
    let one: int = FIXED_ONE as int;
    assert(a * (-one) == -(a * one)) by (nonlinear_arith);
    assert(cut_quotient(a * (-one), one) == -a);
}

pub proof fn lemma_share_is_bounded(a: i64, j: int, k: int)
    requires
        0 <= a <= ROOM,
    ensures
        -2 * ROOM <= share(a, j, k) <= 2 * ROOM,
{
    let i = (k * j) % 4096;
    lemma_cosine(i);
    lemma_product_turns_over(a, cosine(i));
}

/// Numbers that add up to whole turns come to points as far from both ends.
proof fn lemma_turns_back(m: int, whole: int)
    ensures
        (4096 * whole + m) % 4096 == m % 4096,
        m % 4096 == 0 ==> (4096 * whole - m) % 4096 == 0,
        m % 4096 != 0 ==> (4096 * whole - m) % 4096 == 4096 - m % 4096,
{
    let (q, r) = (m / 4096, m % 4096);
    vstd::arithmetic::div_mod::lemma_fundamental_div_mod_converse(
        4096 * whole + m,
        4096,
        whole + q,
        r,
    );
    if r == 0 {
        vstd::arithmetic::div_mod::lemma_fundamental_div_mod_converse(
            4096 * whole - m,
            4096,
            whole - q,
            0,
        );
    } else {
        vstd::arithmetic::div_mod::lemma_fundamental_div_mod_converse(
            4096 * whole - m,
            4096,
            whole - q - 1,
            4096 - r,
        );
    }
}

/// Bins a whole turn apart, or as far from both ends of it, have the same share.
proof fn lemma_share_repeats(a: i64, j: int, k: int)
    ensures
        share(a, j, k + 4096) == share(a, j, k),
        share(a, j, 4096 - k) == share(a, j, k),
{
    let m = k * j;
    assert((k + 4096) * j == 4096 * j + m && (4096 - k) * j == 4096 * j - m) by (nonlinear_arith)
        requires
            m == k * j,
    ;
    lemma_turns_back(m, j);
    lemma_cosine(m % 4096);
}

/// Half a turn behind a point is the opposite one.
proof fn lemma_turns_over(m: int, half: int)
    requires
        half % 4096 == 2048,
    ensures
        (m + half) % 4096 == if m % 4096 < 2048 {
            m % 4096 + 2048
        } else {
            m % 4096 - 2048
        },
{
    let (q, r) = (m / 4096, m % 4096);
    let p = half / 4096;
    if r < 2048 {
        vstd::arithmetic::div_mod::lemma_fundamental_div_mod_converse(
            m + half,
            4096,
            q + p,
            r + 2048,
        );
    } else {
        vstd::arithmetic::div_mod::lemma_fundamental_div_mod_converse(
            m + half,
            4096,
            q + p + 1,
            r - 2048,
        );
    }
}

/// Bins that are half a turn apart at tap `j` have opposite shares.
proof fn lemma_share_turns_over(a: i64, j: int, k: int, h: int)
    requires
        0 <= a <= ROOM,
        (h * j) % 4096 == 2048,
    ensures
        share(a, j, k + h) == -share(a, j, k),
{
    let m = k * j;
    assert((k + h) * j == m + h * j) by (nonlinear_arith)
        requires
            m == k * j,
    ;
    lemma_turns_over(m, h * j);
    lemma_cosine(m % 4096);
    lemma_product_turns_over(a, cosine(m % 4096));
}

/// How many bins apart the shares at tap `j` are opposite. `h` bins are `q` half
/// turns apart; where `q` is even, half as many bins are half as many.
proof fn lemma_half_a_turn(j: int, q: int, h: nat, e: nat) -> (bins: nat)
    requires
        h == vstd::arithmetic::power2::pow2(e),
        h * j == 2048 * q,
        q != 0,
        -h < q < h,
    ensures
        (bins * j) % 4096 == 2048,
    decreases e,
{
    vstd::arithmetic::power2::lemma2_to64();
    if q % 2 != 0 {
        h
    } else {
        assert(e > 0);
        vstd::arithmetic::power2::lemma_pow2_unfold(e);
        let less = vstd::arithmetic::power2::pow2((e - 1) as nat);
        assert(h * j == 2 * (less * j)) by (nonlinear_arith)
            requires
                h == 2 * less,
        ;
        lemma_half_a_turn(j, q / 2, less, (e - 1) as nat)
    }
}

/// Shares can be added up in two pieces.
proof fn lemma_shares_split(a: i64, j: int, from: int, n: nat, m: nat)
    ensures
        shares(a, j, from, n + m) == shares(a, j, from, n) + shares(a, j, from + n, m),
    decreases m,
{
    if m > 0 {
        lemma_shares_split(a, j, from, n, (m - 1) as nat);
    }
}

/// A whole turn on the shares are the same, and half a turn on they are opposite.
proof fn lemma_shares_move(a: i64, j: int, n: nat, h: int)
    requires
        0 <= a <= ROOM,
        (h * j) % 4096 == 2048,
    ensures
        shares(a, j, 4096, n) == shares(a, j, 0, n),
        shares(a, j, h, n) == -shares(a, j, 0, n),
    decreases n,
{
    if n > 0 {
        lemma_shares_move(a, j, (n - 1) as nat, h);
        lemma_share_repeats(a, j, n - 1);
        lemma_share_turns_over(a, j, n - 1, h);
    }
}

/// Over a whole turn all shares cancel, at every tap but the centre.
proof fn lemma_shares_cancel(a: i64, j: int)
    requires
        0 <= a <= ROOM,
        -2048 < j < 2048,
        j != 0,
    ensures
        shares(a, j, 0, 4096) == 0,
{
    vstd::arithmetic::power2::lemma2_to64();
    let h = lemma_half_a_turn(j, j, 2048, 11);
    lemma_shares_split(a, j, 0, 4096, h);
    lemma_shares_split(a, j, 0, h, 4096);
    lemma_shares_move(a, j, h, h as int);
    lemma_shares_move(a, j, 4096, h as int);
    assert(h + 4096 == 4096 + h);
}

/// The last `n` bins of a turn have the shares of the first but for the very
/// first.
proof fn lemma_shares_come_back(a: i64, j: int, n: nat)
    requires
        0 <= a <= ROOM,
        n < 4096,
    ensures
        shares(a, j, 4096 - n, n) == shares(a, j, 1, n),
    decreases n,
{
    if n > 0 {
        let m = (n - 1) as nat;
        lemma_shares_come_back(a, j, m);
        lemma_shares_split(a, j, 4096 - n, 1, m);
        lemma_share_repeats(a, j, n as int);
        assert(shares(a, j, 4096 - n, 1) == share(a, j, 4096 - n)) by {
            assert(shares(a, j, 4096 - n, 0) == 0);
        }
        assert(4096 - n + 1 == 4096 - m);
        assert(1 + m == n);
    }
}

/// The share of bin `k` in tap `t`, counted from the centre.
pub proof fn lemma_tone_is_a_share(rate: u32, gains: Seq<i64>, k: int, t: nat)
    requires
        0 <= k <= 2048,
        t < 4096,
        0 <= kernel_bin::<Fixed>(rate, gains, k).0 <= ROOM,
    ensures
        ({
            let bin = kernel_bin::<Fixed>(rate, gains, k);
            let part = share(bin.0, t - 2048, k);
            tone(bin, k as nat, 4096, t) == if k == 0 || k == 2048 {
                part
            } else {
                2 * part
            }
        }),
{
    let bin = kernel_bin::<Fixed>(rate, gains, k);
    let a = bin.0;
    lemma_bins_point_along(rate, gains, k);
    let j = t - 2048;
    let m = k * j;
    assert(k * t == m + 2048 * k) by (nonlinear_arith)
        requires
            m == k * j,
            j == t - 2048,
    ;
    let i = m % 4096;
    let at = (k * t) % 4096;
    if k % 2 == 0 {
        lemma_turns_back(m, k / 2);
    } else {
        assert((2048 * k) % 4096 == 2048);
        lemma_turns_over(m, 2048 * k);
    }
    lemma_cosine(i);
    lemma_cosine(at);
    lemma_product_turns_over(a, cosine(i));
    lemma_share_is_bounded(a, j, k);
    lemma_one_is_neutral(a);
    lemma_level_tone(bin, k as nat, t);
    let re = placed(a, bin.1).0;
    assert(Fixed::product(re, cosine(at)) == share(a, j, k));
}

/// A tone without an imaginary part, in terms of its cosine.
proof fn lemma_level_tone(bin: (i64, i64), k: nat, t: nat)
    requires
        placed(bin.0, bin.1).1 == 0,
    ensures
        ({
            let part = Fixed::product(placed(bin.0, bin.1).0, cosine(((k * t) % 4096) as int));
            tone(bin, k, 4096, t) == if k == 0 || k == 2048 {
                part
            } else {
                Fixed::sum(part, part)
            }
        }),
{
    reveal(cosine);
    let (c, s) = Fixed::circle_point((k * t) % 4096, 4096);
    assert(0 * s == 0);
}

/// What the first `n` bins come to in tap `t`, where all are as strong as `a`.
proof fn lemma_level_bins_add_up(bins: Seq<(i64, i64)>, a: i64, n: nat, t: nat)
    requires
        n <= 2049,
        t < 4096,
        0 <= a <= ROOM,
        forall|k: int|
            0 <= k <= 2048 ==> tone(#[trigger] bins[k], k as nat, 4096, t) == if k == 0 || k
                == 2048 {
                share(a, t - 2048, k)
            } else {
                2 * share(a, t - 2048, k)
            },
    ensures
        ({
            let all = shares(a, t - 2048, 0, n);
            let sum = tones(bins, 4096, n)[t as int];
            &&& -0x4_0000_0000_0000 * n <= sum <= 0x4_0000_0000_0000 * n
            &&& sum == if n == 0 {
                0
            } else if n <= 2048 {
                2 * all - share(a, t - 2048, 0)
            } else {
                2 * all - share(a, t - 2048, 0) - share(a, t - 2048, 2048)
            }
        }),
    decreases n,
{
    if n > 0 {
        let m = (n - 1) as nat;
        lemma_level_bins_add_up(bins, a, m, t);
        lemma_share_is_bounded(a, t - 2048, m as int);
        let bin = bins[m as int];
        let before = tones(bins, 4096, m)[t as int];
        let part = tone(bin, m, 4096, t);
        assert(-0x4_0000_0000_0000 <= part <= 0x4_0000_0000_0000);
        assert(tones(bins, 4096, n)[t as int] == Fixed::sum(before, part));
        assert(Fixed::sum(before, part) == before + part);
        assert(shares(a, t - 2048, 0, n) == shares(a, t - 2048, 0, m) + share(
            a,
            t - 2048,
            m as int,
        ));
        assert(shares(a, t - 2048, 0, 0) == 0);
    }
}

/// At the centre every bin has its whole strength.
proof fn lemma_shares_at_the_centre(a: i64, n: nat)
    requires
        0 <= a <= ROOM,
    ensures
        shares(a, 0, 0, n) == a * n,
    decreases n,
{
    if n == 0 {
        assert(a * 0 == 0);
    } else {
        let m = (n - 1) as nat;
        lemma_shares_at_the_centre(a, m);
        assert((m * 0) % 4096 == 0);
        lemma_cosine(0);
        lemma_one_is_neutral(a);
        assert(share(a, 0, m as int) == a);
        assert(a * n == a * m + a) by (nonlinear_arith)
            requires
                n == m + 1,
        ;
    }
}

/// The window of the kernel is zero at its start and one at its centre.
proof fn lemma_window_ends()
    ensures
        raised_cosine::<Fixed>(0, 4096) == 0,
        raised_cosine::<Fixed>(2048, 4096) == FIXED_ONE,
{
    Fixed::circle_starts_at_one(4096);
    the_fixed_circle_turns_over(0, 2048);
    assert(Fixed::fraction_value(1, 2) == FIXED_ONE / 2);
}

/// Level gains delay the audio by half the kernel and scale it by their
/// amplitude, and do nothing more: every tap but the one at the centre is zero.
/// It holds at every level that there is [`ROOM`] for, ninety-six decibels and
/// beyond all that sliders offer.
pub proof fn level_gains_only_delay(rate: u32, gain: i64, t: int)
    requires
        0 <= Fixed::amplitude_value(gain) <= ROOM,
        0 <= t < KERNEL_LEN,
    ensures
        designed::<Fixed>(rate, repeated(gain, EQ_BAND_COUNT as nat))[t] == if t
            == LATENCY_FRAMES {
            Fixed::amplitude_value(gain)
        } else {
            0
        },
{
    let gains = repeated(gain, EQ_BAND_COUNT as nat);
    let a = Fixed::amplitude_value(gain);
    let bins = kernel_bins(rate, gains);
    assert forall|k: int| 0 <= k <= 2048 implies (#[trigger] kernel_bin::<Fixed>(
        rate,
        gains,
        k,
    )).0 == a by {
        assert(k * rate >= 0) by (nonlinear_arith)
            requires
                k >= 0,
        ;
        equal_gains_are_level::<Fixed>((k * rate) as nat, KERNEL_LEN as nat, gain);
    }
    assert(bins.len() == 2049);
    assert forall|k: int| 0 <= k <= 2048 implies tone(
        #[trigger] bins[k],
        k as nat,
        4096,
        t as nat,
    ) == if k == 0 || k == 2048 {
        share(a, t - 2048, k)
    } else {
        2 * share(a, t - 2048, k)
    } by {
        assert(bins[k] == kernel_bin::<Fixed>(rate, gains, k));
        lemma_tone_is_a_share(rate, gains, k, t as nat);
    }
    lemma_level_bins_add_up(bins, a, 2049, t as nat);
    let j = t - 2048;
    let window = raised_cosine::<Fixed>(t as nat, 4096);
    let sum = tones(bins, 4096, 2049)[t];
    let tap = sounded(bins, 4096)[t];
    if t == 0 {
        lemma_window_ends();
        assert(tap * 0 == 0);
    } else {
        lemma_shares_split(a, j, 0, 1, 2048);
        lemma_shares_split(a, j, 0, 2049, 2047);
        lemma_shares_come_back(a, j, 2047);
        lemma_shares_split(a, j, 0, 1, 2047);
        lemma_shares_split(a, j, 0, 2048, 1);
        assert(shares(a, j, 0, 0) == 0 && shares(a, j, 2048, 0) == 0);
        assert(shares(a, j, 0, 1) == share(a, j, 0));
        assert(shares(a, j, 2048, 1) == share(a, j, 2048));
        assert(sum == shares(a, j, 0, 4096));
        if t == 2048 {
            lemma_shares_at_the_centre(a, 4096);
            lemma_window_ends();
            lemma_one_is_neutral(a);
            assert(sum == a * 4096);
            assert(cut_quotient(a * 4096, 4096) == a);
            assert(tap == a);
        } else {
            lemma_shares_cancel(a, j);
            assert(tap == 0);
            assert(0 * window == 0);
        }
    }
}

/// With all gains at zero decibels the kernel is a single one at its centre.
pub proof fn no_gain_is_a_pure_delay(rate: u32, t: int)
    requires
        0 <= t < KERNEL_LEN,
    ensures
        designed::<Fixed>(rate, repeated(0i64, EQ_BAND_COUNT as nat))[t] == if t
            == LATENCY_FRAMES {
            FIXED_ONE
        } else {
            0
        },
{
    lemma_power_of_nothing(1, FIXED_ONE as int);
    assert(Fixed::product(0, OCTAVES_PER_DECIBEL) == 0);
    assert(octaves(0) == FIXED_ONE);
    level_gains_only_delay(rate, 0, t);
}

} // verus!
