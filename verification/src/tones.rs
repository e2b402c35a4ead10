//! The tones of a fixed-point window.
//!
//! A window of samples is a sum of tones that go round a whole number of times
//! in it. How strong a tone is, and where in its turn it starts, shows when the
//! window is laid along a point that goes round as often; and tones so measured
//! add up to the window again.
use vstd::prelude::*;

use crate::frames::{filled, repeated};
use crate::numeric::{circle_at, cut_divide, cut_quotient, Fixed, Numeric, FIXED_ONE};

verus! {

/// Where a point that starts at angle zero and is turned on by `step` each time
/// has come to after `n` times.
pub open spec fn spun(step: (i64, i64), n: nat) -> (i64, i64)
    decreases n,
{
    if n == 0 {
        (FIXED_ONE, 0)
    } else {
        let (c, s) = spun(step, (n - 1) as nat);
        (
            Fixed::difference(Fixed::product(c, step.0), Fixed::product(s, step.1)),
            Fixed::sum(Fixed::product(s, step.0), Fixed::product(c, step.1)),
        )
    }
}

/// The first `n` samples of `window`, each taken back by as far as the point
/// has gone round, added up.
pub open spec fn resonance(window: Seq<i64>, step: (i64, i64), n: nat) -> (i64, i64)
    decreases n,
{
    if n == 0 {
        (0, 0)
    } else {
        let (re, im) = resonance(window, step, (n - 1) as nat);
        let (c, s) = spun(step, (n - 1) as nat);
        (
            Fixed::sum(re, Fixed::product(window[n - 1], c)),
            Fixed::difference(im, Fixed::product(window[n - 1], s)),
        )
    }
}

/// How `window` answers to a point that goes round `k` times in it.
pub open spec fn answer(window: Seq<i64>, k: nat) -> (i64, i64) {
    resonance(window, Fixed::circle_point(k, window.len()), window.len())
}

/// The point at the angle `turn`, in parts of a turn, as far out as `far`.
pub open spec fn placed(far: i64, turn: i64) -> (i64, i64) {
    let (c, s) = Fixed::circle_point(
        (turn as int % FIXED_ONE as int) as nat,
        FIXED_ONE as nat,
    );
    (Fixed::product(far, c), Fixed::product(far, s))
}

/// What the tone that goes round `k` times in `size` samples, as strong and as
/// far on as `bin` says, adds to sample `t`. It comes with its mirror image;
/// the tone that stands still and the one that turns over with every sample
/// are their own, and keep their real part only.
pub open spec fn tone(bin: (i64, i64), k: nat, size: nat, t: nat) -> i64 {
    let (re, im) = placed(bin.0, bin.1);
    let (c, s) = Fixed::circle_point((k * t) % size, size);
    if k == 0 || 2 * k == size {
        Fixed::product(re, c)
    } else {
        let half = Fixed::difference(Fixed::product(re, c), Fixed::product(im, s));
        Fixed::sum(half, half)
    }
}

/// The first `n` tones added up, sample by sample.
pub open spec fn tones(bins: Seq<(i64, i64)>, size: nat, n: nat) -> Seq<i64>
    decreases n,
{
    if n == 0 {
        repeated(0i64, size)
    } else {
        Seq::new(
            size,
            |t: int|
                Fixed::sum(
                    tones(bins, size, (n - 1) as nat)[t],
                    tone(bins[n - 1], (n - 1) as nat, size, t as nat),
                ),
        )
    }
}

/// The window of `size` samples whose tones are `bins`.
pub open spec fn sounded(bins: Seq<(i64, i64)>, size: nat) -> Seq<i64> {
    Seq::new(
        size,
        |t: int| cut_quotient(tones(bins, size, bins.len())[t] as int, size as int) as i64,
    )
}

/// The point turned on by `step`.
fn spin(point: (i64, i64), step: (i64, i64)) -> (next: (i64, i64))
    ensures
        next.0 == Fixed::difference(
            Fixed::product(point.0, step.0),
            Fixed::product(point.1, step.1),
        ),
        next.1 == Fixed::sum(Fixed::product(point.1, step.0), Fixed::product(point.0, step.1)),
{
    (
        Fixed::minus(Fixed::times(point.0, step.0), Fixed::times(point.1, step.1)),
        Fixed::plus(Fixed::times(point.1, step.0), Fixed::times(point.0, step.1)),
    )
}

/// How `window` answers to a point that goes round `k` times in it.
pub fn answer_of(window: &Vec<i64>, k: usize) -> (point: (i64, i64))
    requires
        k <= window@.len(),
        window@.len() > 0,
    ensures
        point == answer(window@, k as nat),
{
    let step: (i64, i64) = circle_at(k as u64, window.len() as u64);
    let mut re: i64 = 0;
    let mut im: i64 = 0;
    let mut point: (i64, i64) = (FIXED_ONE, 0);
    let mut n: usize = 0;
    while n < window.len()
        invariant
            n <= window@.len(),
            point == spun(step, n as nat),
            (re, im) == resonance(window@, step, n as nat),
        decreases window@.len() - n,
    {
        re = Fixed::plus(re, Fixed::times(window[n], point.0));
        im = Fixed::minus(im, Fixed::times(window[n], point.1));
        point = spin(point, step);
        n += 1;
    }
    (re, im)
}

/// What is left of `turn` without its whole turns.
fn part_of_turn(turn: i64) -> (part: u64)
    ensures
        part == turn as int % FIXED_ONE as int,
        part < FIXED_ONE,
{
    if turn >= 0 {
        (turn % FIXED_ONE) as u64
    } else {
        (FIXED_ONE - 1 - (-(turn + 1)) % FIXED_ONE) as u64
    }
}

/// The point at the angle `turn`, as far out as `far`.
fn place(far: i64, turn: i64) -> (point: (i64, i64))
    ensures
        point == placed(far, turn),
{
    let part: u64 = part_of_turn(turn);
    let (c, s) = circle_at(part, 0x1_0000_0000);
    (Fixed::times(far, c), Fixed::times(far, s))
}

/// All points of the circle that divide a turn by `size`.
fn points(size: usize) -> (circle: Vec<(i64, i64)>)
    ensures
        circle@.len() == size,
        forall|i: int|
            0 <= i < size ==> #[trigger] circle@[i] == Fixed::circle_point(i as nat, size as nat),
{
    let mut circle: Vec<(i64, i64)> = Vec::with_capacity(size);
    let mut i: usize = 0;
    while i < size
        invariant
            i <= size,
            circle@.len() == i,
            forall|j: int|
                0 <= j < i ==> #[trigger] circle@[j] == Fixed::circle_point(
                    j as nat,
                    size as nat,
                ),
        decreases size - i,
    {
        circle.push(circle_at(i as u64, size as u64));
        i += 1;
    }
    circle
}

/// Adds the tone `k` to the samples of `sum`. `circle` are the points of it.
fn add_tone(sum: &mut Vec<i64>, circle: &Vec<(i64, i64)>, bin: (i64, i64), k: usize)
    requires
        k <= old(sum)@.len(),
        circle@.len() == old(sum)@.len(),
        forall|i: int|
            0 <= i < circle@.len() ==> #[trigger] circle@[i] == Fixed::circle_point(
                i as nat,
                circle@.len(),
            ),
    ensures
        final(sum)@ == Seq::new(
            old(sum)@.len(),
            |t: int| Fixed::sum(old(sum)@[t], tone(bin, k as nat, old(sum)@.len(), t as nat)),
        ),
{
    let ghost start = sum@;
    let size: usize = sum.len();
    let (re, im) = place(bin.0, bin.1);
    let alone: bool = k == 0 || k == size - k;
    let mut at: usize = 0;
    let mut t: usize = 0;
    proof {
        if size > 0 {
            vstd::arithmetic::div_mod::lemma_small_mod(0, size as nat);
        }
        assert(k * 0 == 0);
    }
    while t < size
        invariant
            t <= size,
            size == start.len(),
            sum@.len() == size,
            circle@.len() == size,
            k <= size,
            alone == (k == 0 || 2 * k == size),
            (re, im) == placed(bin.0, bin.1),
            size > 0 ==> at == (k * t) % size as int,
            forall|i: int|
                0 <= i < circle@.len() ==> #[trigger] circle@[i] == Fixed::circle_point(
                    i as nat,
                    size as nat,
                ),
            forall|i: int|
                0 <= i < t ==> sum@[i] == Fixed::sum(
                    start[i],
                    tone(bin, k as nat, size as nat, i as nat),
                ),
            forall|i: int| t <= i < size ==> sum@[i] == start[i],
        decreases size - t,
    {
        proof {
            vstd::arithmetic::div_mod::lemma_mod_bound(k * t, size as int);
        }
        let point: (i64, i64) = circle[at];
        let across: i64 = Fixed::times(re, point.0);
        let part: i64 = if alone {
            across
        } else {
            let half: i64 = Fixed::minus(across, Fixed::times(im, point.1));
            Fixed::plus(half, half)
        };
        let next: i64 = Fixed::plus(sum[t], part);
        sum.set(t, next);
        proof {
            lemma_next_step(k as int, t as int, size as int);
        }
        at = if at < size - k {
            at + k
        } else {
            at - (size - k)
        };
        t += 1;
    }
    assert(sum@ =~= Seq::new(
        start.len(),
        |t: int| Fixed::sum(start[t], tone(bin, k as nat, start.len(), t as nat)),
    ));
}

/// One step of `k` further round a circle of `n` points.
proof fn lemma_next_step(k: int, t: int, n: int)
    requires
        0 <= k <= n,
        0 <= t,
        n > 0,
    ensures
        ({
            let at = (k * t) % n;
            (k * (t + 1)) % n == if at + k < n {
                at + k
            } else {
                at + k - n
            }
        }),
{
    let (q, at) = ((k * t) / n, (k * t) % n);
    vstd::arithmetic::div_mod::lemma_fundamental_div_mod(k * t, n);
    assert(k * (t + 1) == k * t + k) by (nonlinear_arith);
    let (p, rest) = if at + k < n {
        (q, at + k)
    } else {
        (q + 1, at + k - n)
    };
    assert(k * t + k == p * n + rest) by (nonlinear_arith)
        requires
            k * t == n * q + at,
            at + k < n ==> p == q && rest == at + k,
            at + k >= n ==> p == q + 1 && rest == at + k - n,
    ;
    vstd::arithmetic::div_mod::lemma_fundamental_div_mod_converse(k * t + k, n, p, rest);
}

/// The window of `size` samples whose tones are `bins`.
pub fn sound(bins: &Vec<(i64, i64)>, size: usize) -> (window: Vec<i64>)
    requires
        bins@.len() <= size + 1,
    ensures
        window@ == sounded(bins@, size as nat),
{
    let mut window: Vec<i64> = filled(0i64, size);
    let circle: Vec<(i64, i64)> = points(size);
    let mut k: usize = 0;
    while k < bins.len()
        invariant
            k <= bins@.len() <= size + 1,
            circle@.len() == size,
            forall|i: int|
                0 <= i < circle@.len() ==> #[trigger] circle@[i] == Fixed::circle_point(
                    i as nat,
                    circle@.len(),
                ),
            window@.len() == size,
            window@ == tones(bins@, size as nat, k as nat),
        decreases bins@.len() - k,
    {
        add_tone(&mut window, &circle, bins[k], k);
        assert(window@ =~= tones(bins@, size as nat, (k + 1) as nat));
        k += 1;
    }
    let ghost whole = window@;
    let mut t: usize = 0;
    while t < size
        invariant
            t <= size,
            window@.len() == size,
            whole == tones(bins@, size as nat, bins@.len()),
            forall|i: int| 0 <= i < t ==> window@[i] == sounded(bins@, size as nat)[i],
            forall|i: int| t <= i < size ==> window@[i] == whole[i],
        decreases size - t,
    {
        let share: i64 = cut_divide(window[t] as i128, size as i128) as i64;
        window.set(t, share);
        t += 1;
    }
    assert(window@ =~= sounded(bins@, size as nat));
    window
}

} // verus!
