//! Tones and grains: what a window is made of, and how one grain becomes another.
use vstd::prelude::*;

use crate::curves::angle;
use crate::grains::{crossed, Granular};
use crate::numeric::{the_fixed_circle_falls_and_rises, Exact, Fixed, Numeric, FIXED_ONE};
use crate::pitch::Vocoding;
use crate::tones::{answer, resonance, spun};

verus! {

/// A window that is silent but for one sample at `at` answers to every tone with
/// the point that the tone has come to there, turned back.
pub proof fn a_click_answers_to_every_tone(size: nat, at: int, k: nat)
    requires
        0 <= at < size,
    ensures
        ({
            let window = Seq::new(
                size,
                |i: int|
                    if i == at {
                        FIXED_ONE
                    } else {
                        0
                    },
            );
            let (c, s) = spun(Fixed::circle_point(k, size), at as nat);
            answer(window, k) == (c, Fixed::difference(0, s))
        }),
{
    let window = Seq::new(
        size,
        |i: int|
            if i == at {
                FIXED_ONE
            } else {
                0
            },
    );
    lemma_click_answers(window, Fixed::circle_point(k, size), at, size);
}

proof fn lemma_click_answers(window: Seq<i64>, step: (i64, i64), at: int, n: nat)
    requires
        n <= window.len(),
        0 <= at < window.len(),
        forall|i: int|
            0 <= i < window.len() ==> #[trigger] window[i] == if i == at {
                FIXED_ONE
            } else {
                0
            },
    ensures
        resonance(window, step, n) == if at < n {
            (spun(step, at as nat).0, Fixed::difference(0, spun(step, at as nat).1))
        } else {
            (0i64, 0i64)
        },
    decreases n,
{
    if n > 0 {
        lemma_click_answers(window, step, at, (n - 1) as nat);
        let (c, s) = spun(step, (n - 1) as nat);
        assert(0 * c == 0 && 0 * s == 0);
        Fixed::one_is_neutral(c);
        Fixed::one_is_neutral(s);
    }
}

/// A window answers to standing still with the sum of its samples.
pub proof fn standing_still_adds_up(window: Seq<i64>, n: nat)
    requires
        window.len() > 0,
        n <= window.len(),
        n <= 0x1_0000,
        forall|i: int|
            0 <= i < window.len() ==> -0x4000_0000_0000 <= #[trigger] window[i] <= 0x4000_0000_0000,
    ensures
        resonance(window, Fixed::circle_point(0, window.len()), n) == (
            crate::laws::hearing::plain_sum(window, n) as i64,
            0i64,
        ),
        -n * 0x4000_0000_0000 <= crate::laws::hearing::plain_sum(window, n) <= n * 0x4000_0000_0000,
    decreases n,
{
    let step = Fixed::circle_point(0, window.len());
    Fixed::circle_starts_at_one(window.len());
    if n > 0 {
        standing_still_adds_up(window, (n - 1) as nat);
        lemma_standing(step, (n - 1) as nat);
        let x = window[n - 1];
        assert(x * FIXED_ONE / (FIXED_ONE as int) == x && (-x) * FIXED_ONE / (FIXED_ONE as int)
            == -x);
        assert(Fixed::product(x, FIXED_ONE) == x);
        assert(x * 0 == 0);
    }
}

proof fn lemma_standing(step: (i64, i64), n: nat)
    requires
        step == (FIXED_ONE, 0i64),
    ensures
        spun(step, n) == (FIXED_ONE, 0i64),
    decreases n,
{
    if n > 0 {
        lemma_standing(step, (n - 1) as nat);
    }
}

/// On the way from one grain to the next a sample starts as that of the old one, is
/// half way between the two in the middle, and never goes beyond either.
pub proof fn a_grain_becomes_the_next(old: i64, new: i64, step: nat)
    requires
        step < 512,
        -0x1000_0000_0000_0000 <= old <= 0x1000_0000_0000_0000,
        -0x1000_0000_0000_0000 <= new <= 0x1000_0000_0000_0000,
    ensures
        crossed(old, new, 0) == old,
        old <= crossed(old, new, step) <= new || new <= crossed(old, new, step) <= old,
        -1 <= 2 * crossed(old, new, 256) - old - new <= 1,
{
    lemma_way(0);
    lemma_way(step);
    lemma_way(256);
    let gap = Fixed::difference(new, old);
    assert(gap == new - old);
    lemma_part(crate::spectral::raised_cosine::<Fixed>(0, 1024), gap);
    lemma_part(crate::spectral::raised_cosine::<Fixed>(step, 1024), gap);
    lemma_part(crate::spectral::raised_cosine::<Fixed>(256, 1024), gap);
}

proof fn lemma_way(step: nat)
    requires
        step < 512,
    ensures
        0 <= crate::spectral::raised_cosine::<Fixed>(step, 1024) <= FIXED_ONE,
        step == 0 ==> crate::spectral::raised_cosine::<Fixed>(step, 1024) == 0,
        step == 256 ==> crate::spectral::raised_cosine::<Fixed>(step, 1024) == 0x8000_0000,
{
    assert(Fixed::fraction_value(1, 2) == 0x8000_0000);
    let (c, s) = Fixed::circle_point(step, 1024);
    assert(-FIXED_ONE <= c <= FIXED_ONE) by {
        if step <= 256 {
            the_fixed_circle_falls_and_rises(step, step, 256);
        } else {
            let back = (512 - step) as nat;
            the_fixed_circle_falls_and_rises(back, back, 256);
            crate::numeric::the_fixed_circle_turns_over(back, 512);
            crate::numeric::the_fixed_circle_is_symmetric(step, 1024);
            assert(back + 512 == 1024 - step);
        }
    }
    let n = 0x8000_0000 * c;
    assert(-0x8000_0000 <= Fixed::product(0x8000_0000, c) <= 0x8000_0000);
    if step == 0 {
        Fixed::circle_starts_at_one(1024);
    }
    if step == 256 {
        Fixed::circle_turns_to_zero(256);
    }
}

proof fn lemma_part(way: i64, gap: i64)
    requires
        0 <= way <= FIXED_ONE,
    ensures
        gap >= 0 ==> 0 <= Fixed::product(way, gap) <= gap,
        gap <= 0 ==> gap <= Fixed::product(way, gap) <= 0,
        way == 0 ==> Fixed::product(way, gap) == 0,
        way == 0x8000_0000 ==> -1 <= 2 * Fixed::product(way, gap) - gap <= 1,
{
    let one: int = FIXED_ONE as int;
    let n = way * gap;
    if gap >= 0 {
        assert(0 <= n <= one * gap) by (nonlinear_arith)
            requires
                n == way * gap,
                0 <= way <= one,
                gap >= 0,
        ;
    } else {
        assert(0 <= -n <= one * (-gap)) by (nonlinear_arith)
            requires
                n == way * gap,
                0 <= way <= one,
                gap < 0,
        ;
    }
    if way == 0 {
        assert(0 * gap == 0);
    }
    if way == 0x8000_0000 {
        assert(n == 0x8000_0000 * gap);
    }
}

/// What fades out behind a grain is the source going on where the grain broke off,
/// and the next grain begins as far on in the source as the tempo takes it.
pub proof fn a_grain_goes_on_while_it_fades(now: Granular, i: int, c: int)
    requires
        now.channels > 0,
        now.step == 511,
        0 <= i < 512,
        0 <= c < now.channels,
        now.phase < 0x1_0000_0000,
        (512 + i) * 0x1_0000_0000 < now.frames() * 0x1_0000_0000,
        now.phase + 512 * now.tempo <= now.frames() * 0x1_0000_0000,
    ensures
        ({
            let next = now.moved();
            let on = now.phase + 512 * now.tempo;
            let passed = now.frames() - next.frames();
            &&& next.step == 0
            &&& next.tail[i * now.channels + c] == now.queue[(512 + i) * now.channels + c]
            &&& passed * 0x1_0000_0000 + next.phase == on
            &&& next.phase < 0x1_0000_0000
            &&& next.queue == now.queue.skip(passed * now.channels)
        }),
{
    let ch = now.channels;
    let j = i * ch + c;
    assert(0 <= j < 512 * ch) by (nonlinear_arith)
        requires
            0 <= i < 512,
            0 <= c < ch,
            j == i * ch + c,
    ;
    vstd::arithmetic::div_mod::lemma_fundamental_div_mod_converse(j, ch as int, i, c);
    let over = (now.phase + 512 * now.tempo) / 0x1_0000_0000;
    crate::grains::lemma_frames_fit(now.queue.len(), ch, over as nat);
    crate::grains::lemma_frames_left(now.queue.len(), ch, over as nat);
}

/// Angles are counted from the right, half a turn either way: straight up is a
/// quarter turn, a point below the line has the angle of its mirror image above,
/// turned back, and a point to the left what is missing of its mirror image to the
/// right from half a turn.
pub proof fn angles_are_counted_from_the_right(re: int, im: int)
    requires
        re >= 0,
        im >= 0,
    ensures
        im > 0 ==> angle(0, im) == FIXED_ONE / 4,
        im > 0 ==> angle(re, -im) == -angle(re, im),
        re > 0 ==> angle(-re, im) == FIXED_ONE / 2 - angle(re, im),
        re > 0 && im > 0 ==> angle(-re, -im) == angle(re, im) - FIXED_ONE / 2,
        angle(0, 0) == 0,
{
}

/// A turn is told to within half a turn, and no more is left out than whole turns.
pub proof fn whole_turns_do_not_count(turn: i64)
    requires
        -0x4000_0000_0000_0000 <= turn <= 0x4000_0000_0000_0000,
    ensures
        -(FIXED_ONE / 2) < Fixed::wrapped(turn) <= FIXED_ONE / 2,
        (turn - Fixed::wrapped(turn)) % (FIXED_ONE as int) == 0,
{
}

/// How loud a tone is, is how far out its point lies: the square of it comes to the
/// squares of the two coordinates, to within the cut of three products.
pub proof fn a_tone_is_as_loud_as_its_point_is_far(window: Seq<i64>, k: int)
    requires
        ({
            let (re, im) = answer(window, k as nat);
            &&& -0x1000_0000_0000 <= re <= 0x1000_0000_0000
            &&& -0x1000_0000_0000 <= im <= 0x1000_0000_0000
        }),
    ensures
        ({
            let (re, im) = answer(window, k as nat);
            let loud = Fixed::polar_of(window, k).0 as int;
            &&& loud >= 0
            &&& loud * loud <= re * re + im * im
            &&& re * re + im * im < (loud + 1) * (loud + 1) + 2 * FIXED_ONE
        }),
{
    let (re, im) = answer(window, k as nat);
    let one: int = FIXED_ONE as int;
    let (x, y) = (re * re, im * im);
    assert(0 <= x <= 0x1000_0000_0000 * 0x1000_0000_0000 && 0 <= y <= 0x1000_0000_0000
        * 0x1000_0000_0000) by (nonlinear_arith)
        requires
            x == re * re,
            y == im * im,
            -0x1000_0000_0000 <= re <= 0x1000_0000_0000,
            -0x1000_0000_0000 <= im <= 0x1000_0000_0000,
    ;
    let (p, q) = (x / one, y / one);
    assert(Fixed::product(re, re) == p && Fixed::product(im, im) == q);
    let sum = Fixed::sum(p as i64, q as i64);
    assert(sum == p + q);
    assert(p * one <= x && q * one <= y);
    let r = crate::numeric::lemma_integer_root_exists(sum * one);
    assert(r <= 0x2000_0000_0000) by (nonlinear_arith)
        requires
            r * r <= sum * one,
            sum * one <= 2 * (0x1000_0000_0000 * 0x1000_0000_0000),
            r >= 0,
    ;
}

} // verus!
