//! The arithmetic audio is computed in.
//!
//! Every stage of the library is written once, over a [`Numeric`] system: a
//! sample type and the handful of operations the signal path needs. A host
//! with a floating-point unit plugs in its own system; [`Fixed`] is the one
//! that ships with the library, in integers throughout.
//!
//! An operation is a function of its operands and nothing else, and each has
//! a specification counterpart that names its value. What a stage computes is
//! stated in those names, operation by operation, so the statement holds in
//! every system. What needs more, such as that the order of a sum does not
//! matter, is stated of an [`Exact`] system only.
use vstd::prelude::*;

use crate::curves::{lemma_octant_point, lemma_quarter_is_outside, octant_point, octant_point_of};
use crate::curves::quarter_turned;

verus! {

/// A sample type and its operations.
pub trait Numeric: Sized {
    /// One audio sample, or one gain.
    type Sample: Copy;

    /// The value of [`zero`](Self::zero).
    closed spec fn zero_value() -> Self::Sample {
        arbitrary()
    }

    /// The value of [`one`](Self::one).
    closed spec fn one_value() -> Self::Sample {
        arbitrary()
    }

    /// The value of [`fraction`](Self::fraction).
    closed spec fn fraction_value(num: nat, den: nat) -> Self::Sample {
        arbitrary()
    }

    /// The value of [`plus`](Self::plus).
    closed spec fn sum(a: Self::Sample, b: Self::Sample) -> Self::Sample {
        arbitrary()
    }

    /// The value of [`minus`](Self::minus).
    closed spec fn difference(a: Self::Sample, b: Self::Sample) -> Self::Sample {
        arbitrary()
    }

    /// The value of [`times`](Self::times).
    closed spec fn product(a: Self::Sample, b: Self::Sample) -> Self::Sample {
        arbitrary()
    }

    /// The value of [`over`](Self::over).
    closed spec fn quotient(a: Self::Sample, b: Self::Sample) -> Self::Sample {
        arbitrary()
    }

    /// The value of [`root`](Self::root).
    closed spec fn root_value(a: Self::Sample) -> Self::Sample {
        arbitrary()
    }

    /// The answer of [`below`](Self::below).
    closed spec fn precedes(a: Self::Sample, b: Self::Sample) -> bool {
        arbitrary()
    }

    /// The value of [`circle`](Self::circle).
    closed spec fn circle_point(i: nat, n: nat) -> (Self::Sample, Self::Sample) {
        arbitrary()
    }

    /// Silence.
    fn zero() -> (r: Self::Sample)
        ensures
            r == Self::zero_value(),
    ;

    /// Unity gain.
    fn one() -> (r: Self::Sample)
        ensures
            r == Self::one_value(),
    ;

    /// The number `num / den`.
    fn fraction(num: u64, den: u64) -> (r: Self::Sample)
        requires
            den > 0,
        ensures
            r == Self::fraction_value(num as nat, den as nat),
    ;

    /// `a` and `b` added.
    fn plus(a: Self::Sample, b: Self::Sample) -> (r: Self::Sample)
        ensures
            r == Self::sum(a, b),
    ;

    /// `a` less `b`.
    fn minus(a: Self::Sample, b: Self::Sample) -> (r: Self::Sample)
        ensures
            r == Self::difference(a, b),
    ;

    /// `a` multiplied by `b`.
    fn times(a: Self::Sample, b: Self::Sample) -> (r: Self::Sample)
        ensures
            r == Self::product(a, b),
    ;

    /// `a` divided by `b`.
    fn over(a: Self::Sample, b: Self::Sample) -> (r: Self::Sample)
        ensures
            r == Self::quotient(a, b),
    ;

    /// The square root.
    fn root(a: Self::Sample) -> (r: Self::Sample)
        ensures
            r == Self::root_value(a),
    ;

    /// Whether `a` is strictly below `b`.
    fn below(a: Self::Sample, b: Self::Sample) -> (r: bool)
        ensures
            r == Self::precedes(a, b),
    ;

    /// The cosine and the sine of `i / n` of a full turn.
    fn circle(i: u64, n: u64) -> (r: (Self::Sample, Self::Sample))
        requires
            i <= n,
            0 < n <= CIRCLE_STEPS,
        ensures
            r == Self::circle_point(i as nat, n as nat),
    ;
}

/// The finest division of a full turn.
pub const CIRCLE_STEPS: u64 = 0x1000_0000_0000_0000;

/// A system whose sums may be regrouped and in which zero and one are neutral.
pub trait Exact: Numeric {
    /// Sums may be regrouped.
    proof fn sum_associates(a: Self::Sample, b: Self::Sample, c: Self::Sample)
        ensures
            Self::sum(Self::sum(a, b), c) == Self::sum(a, Self::sum(b, c)),
    ;

    /// Zero adds nothing.
    proof fn zero_is_neutral(a: Self::Sample)
        ensures
            Self::sum(Self::zero_value(), a) == a,
            Self::sum(a, Self::zero_value()) == a,
    ;

    /// Zero times anything is zero.
    proof fn zero_absorbs(a: Self::Sample)
        ensures
            Self::product(Self::zero_value(), a) == Self::zero_value(),
            Self::product(a, Self::zero_value()) == Self::zero_value(),
    ;

    /// Anything less itself is zero.
    proof fn equals_cancel(a: Self::Sample)
        ensures
            Self::difference(a, a) == Self::zero_value(),
    ;

    /// One times anything is that.
    proof fn one_is_neutral(a: Self::Sample)
        ensures
            Self::product(Self::one_value(), a) == a,
    ;

    /// The circle starts at cosine one and sine zero.
    proof fn circle_starts_at_one(n: nat)
        requires
            n > 0,
        ensures
            Self::circle_point(0, n) == (Self::one_value(), Self::zero_value()),
    ;

    /// A quarter turn on, the cosine is zero and the sine one.
    proof fn circle_turns_to_zero(n: nat)
        requires
            n > 0,
        ensures
            Self::circle_point(n, 4 * n) == (Self::zero_value(), Self::one_value()),
    ;
}

/// Fixed-point arithmetic on `i64`, thirty-two bits of it behind the point.
///
/// Sums wrap around, and products and quotients are cut toward zero. The circle,
/// powers and logarithms are reckoned bit by bit ([`curves`](crate::curves)), to
/// within the rounding of that many cuts.
pub struct Fixed;

/// The number one in [`Fixed`].
pub const FIXED_ONE: i64 = 0x1_0000_0000;

/// `n` divided by the positive `d`, cut toward zero.
pub open spec fn cut_quotient(n: int, d: int) -> int {
    if n >= 0 {
        n / d
    } else {
        -((-n) / d)
    }
}

/// Whether `r` is the largest integer whose square is at most `n`.
pub open spec fn is_integer_root(n: int, r: int) -> bool {
    0 <= r && r * r <= n < (r + 1) * (r + 1)
}

/// The largest integer whose square is at most `n`.
pub open spec fn integer_root(n: int) -> int {
    choose|r: int| is_integer_root(n, r)
}

pub proof fn lemma_integer_root_unique(n: int, r: int)
    requires
        is_integer_root(n, r),
    ensures
        integer_root(n) == r,
{
    let q = integer_root(n);
    assert(is_integer_root(n, q));
    assert(q == r) by (nonlinear_arith)
        requires
            0 <= q,
            0 <= r,
            q * q <= n < (q + 1) * (q + 1),
            r * r <= n < (r + 1) * (r + 1),
    ;
}

/// The integer square root of `n`, found by bisection.
pub fn integer_root_of(n: u128) -> (r: u64)
    requires
        n < 0x1_0000_0000_0000_0000_0000_0000,
    ensures
        r == integer_root(n as int),
        r < 0x1_0000_0000_0000,
{
    let mut lo: u64 = 0;
    let mut hi: u64 = 0x1_0000_0000_0000;
    assert(n < hi * hi) by (nonlinear_arith)
        requires
            n < 0x1_0000_0000_0000_0000_0000_0000,
            hi == 0x1_0000_0000_0000,
    ;
    while lo + 1 < hi
        invariant
            lo < hi <= 0x1_0000_0000_0000,
            lo * lo <= n < hi * hi,
        decreases hi - lo,
    {
        let mid: u64 = lo + (hi - lo) / 2;
        assert(mid * mid <= 0x1_0000_0000_0000_0000_0000_0000) by (nonlinear_arith)
            requires
                0 <= mid <= 0x1_0000_0000_0000,
        ;
        if mid as u128 * mid as u128 <= n {
            lo = mid;
        } else {
            hi = mid;
        }
    }
    proof {
        assert(hi == lo + 1);
        lemma_integer_root_unique(n as int, lo as int);
    }
    lo
}

proof fn lemma_product_fits(a: i64, b: i64)
    ensures
        -0x4000_0000_0000_0000_0000_0000_0000_0000 <= a * b
            <= 0x4000_0000_0000_0000_0000_0000_0000_0000,
{
    assert(-0x4000_0000_0000_0000_0000_0000_0000_0000 <= a * b
        <= 0x4000_0000_0000_0000_0000_0000_0000_0000) by (nonlinear_arith)
        requires
            -0x8000_0000_0000_0000 <= a <= 0x7fff_ffff_ffff_ffff,
            -0x8000_0000_0000_0000 <= b <= 0x7fff_ffff_ffff_ffff,
    ;
}

/// `n` divided by the positive `d`, cut toward zero.
pub fn cut_divide(n: i128, d: i128) -> (q: i128)
    requires
        d > 0,
        n > i128::MIN,
    ensures
        q == cut_quotient(n as int, d as int),
{
    proof {
        vstd::arithmetic::div_mod::lemma_div_is_ordered_by_denominator(
            if n >= 0 {
                n as int
            } else {
                -n
            },
            1,
            d as int,
        );
    }
    if n >= 0 {
        n / d
    } else {
        -((-n) / d)
    }
}

/// The point `x` of the way through the first quarter of the circle.
pub open spec fn quarter_point(x: i64) -> (i64, i64) {
    (octant_point(x as int).0 as i64, octant_point(x as int).1 as i64)
}

/// The same point by another way: the one that turning comes to, brought back to
/// distance one from the centre.
pub open spec fn turned_quarter(x: i64) -> (i64, i64) {
    let (across, up) = (quarter_turned(x as int).0 as i64, quarter_turned(x as int).1 as i64);
    let far = Fixed::root_value(
        Fixed::sum(Fixed::product(across, across), Fixed::product(up, up)),
    );
    (Fixed::quotient(across, far), Fixed::quotient(up, far))
}

/// The point `i / n` of a turn round the circle of [`Fixed`], however fine the
/// turn is divided.
pub fn circle_at(i: u64, n: u64) -> (r: (i64, i64))
    requires
        i <= n,
        n > 0,
    ensures
        r == Fixed::circle_point(i as nat, n as nat),
{
    let quarter: u128 = (4 * i as u128) / n as u128;
    assert(quarter <= 4) by (nonlinear_arith)
        requires
            quarter == (4 * i) / (n as int),
            0 <= i <= n,
            n > 0,
    ;
    let part: u64 = ((4 * i as u128) % n as u128) as u64;
    let along: u64 = if quarter % 2 == 0 {
        part
    } else {
        n - part
    };
    let x: i64 = Fixed::fraction(along, n);
    proof {
        lemma_fraction_is_a_part(along as nat, n as nat);
        lemma_octant_point(x as int, x as int);
    }
    let (across, up) = octant_point_of(x as u64);
    if quarter == 0 || quarter == 4 {
        (across, up)
    } else if quarter == 1 {
        (Fixed::minus(0, across), up)
    } else if quarter == 2 {
        (Fixed::minus(0, across), Fixed::minus(0, up))
    } else {
        (across, Fixed::minus(0, up))
    }
}

impl Numeric for Fixed {
    type Sample = i64;

    open spec fn zero_value() -> i64 {
        0
    }

    open spec fn one_value() -> i64 {
        FIXED_ONE
    }

    open spec fn fraction_value(num: nat, den: nat) -> i64 {
        ((num * FIXED_ONE) / den as int) as i64
    }

    open spec fn sum(a: i64, b: i64) -> i64 {
        a.wrapping_add(b)
    }

    open spec fn difference(a: i64, b: i64) -> i64 {
        a.wrapping_sub(b)
    }

    open spec fn product(a: i64, b: i64) -> i64 {
        cut_quotient(a * b, FIXED_ONE as int) as i64
    }

    /// A quotient by zero is zero.
    open spec fn quotient(a: i64, b: i64) -> i64 {
        if b == 0 {
            0
        } else if b > 0 {
            cut_quotient(a * FIXED_ONE, b as int) as i64
        } else {
            cut_quotient(-(a * FIXED_ONE), -b) as i64
        }
    }

    /// The root of a negative number is zero.
    open spec fn root_value(a: i64) -> i64 {
        if a <= 0 {
            0
        } else {
            integer_root(a * FIXED_ONE) as i64
        }
    }

    open spec fn precedes(a: i64, b: i64) -> bool {
        a < b
    }

    /// The first quarter, mirrored into the others.
    open spec fn circle_point(i: nat, n: nat) -> (i64, i64) {
        let quarter = (4 * i) / n % 4;
        let part = (4 * i) % n;
        let (across, up) = quarter_point(
            Self::fraction_value(
                if quarter % 2 == 0 {
                    part
                } else {
                    (n - part) as nat
                },
                n,
            ),
        );
        (
            if quarter == 1 || quarter == 2 {
                Self::difference(0, across)
            } else {
                across
            },
            if quarter >= 2 {
                Self::difference(0, up)
            } else {
                up
            },
        )
    }

    fn zero() -> (r: i64) {
        0
    }

    fn one() -> (r: i64) {
        FIXED_ONE
    }

    fn fraction(num: u64, den: u64) -> (r: i64) {
        let scaled: u128 = num as u128 * 0x1_0000_0000u128;
        assert(scaled == num * FIXED_ONE);
        (scaled / den as u128) as i64
    }

    fn plus(a: i64, b: i64) -> (r: i64) {
        a.wrapping_add(b)
    }

    fn minus(a: i64, b: i64) -> (r: i64) {
        a.wrapping_sub(b)
    }

    fn times(a: i64, b: i64) -> (r: i64) {
        proof {
            lemma_product_fits(a, b);
        }
        cut_divide(a as i128 * b as i128, FIXED_ONE as i128) as i64
    }

    fn over(a: i64, b: i64) -> (r: i64) {
        let scaled: i128 = a as i128 * 0x1_0000_0000i128;
        if b == 0 {
            0
        } else if b > 0 {
            cut_divide(scaled, b as i128) as i64
        } else {
            cut_divide(-scaled, -(b as i128)) as i64
        }
    }

    fn root(a: i64) -> (r: i64) {
        if a <= 0 {
            0
        } else {
            integer_root_of(a as u128 * 0x1_0000_0000u128) as i64
        }
    }

    fn below(a: i64, b: i64) -> (r: bool) {
        a < b
    }

    fn circle(i: u64, n: u64) -> (r: (i64, i64)) {
        circle_at(i, n)
    }
}

impl Exact for Fixed {
    proof fn sum_associates(a: i64, b: i64, c: i64) {
    }

    proof fn zero_is_neutral(a: i64) {
    }

    proof fn zero_absorbs(a: i64) {
    }

    proof fn equals_cancel(a: i64) {
    }

    proof fn one_is_neutral(a: i64) {
    }

    proof fn circle_starts_at_one(n: nat) {
        assert((4 * 0nat) / n == 0 && (4 * 0nat) % n == 0) by (nonlinear_arith)
            requires
                n > 0,
        ;
        assert((0 * FIXED_ONE) / n as int == 0) by (nonlinear_arith)
            requires
                n > 0,
        ;
        lemma_quarter_ends();
    }

    proof fn circle_turns_to_zero(n: nat) {
        assert((4 * n) / (4 * n) == 1 && (4 * n) % (4 * n) == 0) by (nonlinear_arith)
            requires
                n > 0,
        ;
        assert(((4 * n) * FIXED_ONE) / (4 * n) as int == FIXED_ONE) by (nonlinear_arith)
            requires
                n > 0,
        ;
        lemma_quarter_ends();
    }
}

/// A quarter starts at cosine one and sine zero, and ends at cosine zero and
/// sine one.
proof fn lemma_quarter_ends()
    ensures
        quarter_point(0) == (FIXED_ONE, 0i64),
        quarter_point(FIXED_ONE) == (0i64, FIXED_ONE),
{
    lemma_octant_point(0, FIXED_ONE as int);
}

/// How far the square of a point of the circle may lie from one, in parts of
/// one squared: a hundred and thirty millionth of it.
pub const ROUNDNESS: i128 = 0x20_0000_0000;

/// Every number has an integer root.
pub proof fn lemma_integer_root_exists(n: int) -> (r: int)
    requires
        n >= 0,
    ensures
        is_integer_root(n, r),
        integer_root(n) == r,
    decreases n,
{
    let r = if n == 0 {
        0
    } else {
        let q = lemma_integer_root_exists(n - 1);
        assert((q + 2) * (q + 2) == (q + 1) * (q + 1) + 2 * q + 3) by (nonlinear_arith);
        if n < (q + 1) * (q + 1) {
            q
        } else {
            q + 1
        }
    };
    lemma_integer_root_unique(n, r);
    r
}

/// `a * b / d` times `d` falls short of `a * b` by less than `d`.
proof fn lemma_cut_short(n: int, d: int)
    requires
        n >= 0,
        d > 0,
    ensures
        0 <= n / d,
        n / d * d <= n < n / d * d + d,
{
    vstd::arithmetic::div_mod::lemma_fundamental_div_mod(n, d);
    vstd::arithmetic::div_mod::lemma_div_pos_is_pos(n, d);
    assert(n / d * d == d * (n / d)) by (nonlinear_arith);
}

/// A point that lies at least as far out as the chord from quarter to quarter,
/// divided by its distance, lies on the circle.
proof fn lemma_brought_onto_the_circle(f: int, r: int, q: int, m: int, c: int, s: int)
    requires
        0 <= f <= FIXED_ONE,
        0 <= r <= FIXED_ONE,
        f + r >= FIXED_ONE,
        q == f * f / (FIXED_ONE as int) + r * r / (FIXED_ONE as int),
        is_integer_root(q * FIXED_ONE, m),
        m > 0 ==> c == f * FIXED_ONE / m,
        m > 0 ==> s == r * FIXED_ONE / m,
    ensures
        m > 0,
        0 <= c <= 0x2_0000_0000,
        0 <= s <= 0x2_0000_0000,
        -ROUNDNESS <= c * c + s * s - FIXED_ONE * FIXED_ONE <= ROUNDNESS,
{
    let d: int = FIXED_ONE as int;
    let ff = f * f;
    let rr = r * r;
    assert(0 <= ff <= d * d && 0 <= rr <= d * d && 2 * (ff + rr) >= d * d) by (nonlinear_arith)
        requires
            ff == f * f,
            rr == r * r,
            0 <= f <= d,
            0 <= r <= d,
            f + r >= d,
    ;
    lemma_cut_short(ff, d);
    lemma_cut_short(rr, d);
    let dd = d * d;
    assert(dd == 0x1_0000_0000_0000_0000);
    let mm = m * m;
    assert(mm <= q * d <= ff + rr);
    assert(ff + rr < q * d + 2 * d);
    assert((m + 1) * (m + 1) == mm + 2 * m + 1) by (nonlinear_arith)
        requires
            mm == m * m,
    ;
    assert(m >= 0x8000_0000) by (nonlinear_arith)
        requires
            mm == m * m,
            mm + 2 * m + 1 > 0x8000_0000_0000_0000 - 0x2_0000_0000,
            m >= 0,
    ;
    let cm = c * m;
    let sm = s * m;
    assert(f * d >= 0 && r * d >= 0 && f * d <= dd && r * d <= dd) by (nonlinear_arith)
        requires
            0 <= f <= d,
            0 <= r <= d,
            dd == d * d,
    ;
    lemma_cut_short(f * d, m);
    lemma_cut_short(r * d, m);
    assert(c <= 0x2_0000_0000 && s <= 0x2_0000_0000) by (nonlinear_arith)
        requires
            c * m <= 0x1_0000_0000_0000_0000,
            s * m <= 0x1_0000_0000_0000_0000,
            m >= 0x8000_0000,
    ;
    let cc = c * c;
    let ss = s * s;
    // From above.
    assert(cc * mm <= ff * dd) by (nonlinear_arith)
        requires
            cc == c * c,
            mm == m * m,
            ff == f * f,
            dd == d * d,
            0 <= c * m <= f * d,
    ;
    assert(ss * mm <= rr * dd) by (nonlinear_arith)
        requires
            ss == s * s,
            mm == m * m,
            rr == r * r,
            dd == d * d,
            0 <= s * m <= r * d,
    ;
    assert((cc + ss) * mm <= (mm + 2 * m + 2 * d) * dd) by (nonlinear_arith)
        requires
            cc * mm <= ff * dd,
            ss * mm <= rr * dd,
            ff + rr <= mm + 2 * m + 2 * d,
            dd >= 0,
    ;
    assert(cc + ss <= dd + ROUNDNESS) by (nonlinear_arith)
        requires
            (cc + ss) * mm <= (mm + 2 * m + 2 * d) * dd,
            mm == m * m,
            m >= 0x8000_0000,
            d == 0x1_0000_0000,
            dd == 0x1_0000_0000_0000_0000,
            ROUNDNESS == 0x20_0000_0000,
    {
        if cc + ss > dd + ROUNDNESS {
            assert((dd + ROUNDNESS) * mm < (mm + 2 * m + 2 * d) * dd);
            assert(ROUNDNESS * mm < (2 * m + 2 * d) * dd);
            assert(ROUNDNESS * mm >= 0x20_0000_0000 * 0x8000_0000 * m);
            assert(0x2_0000_0000 <= 4 * m);
            assert((2 * m + 2 * d) * dd <= 6 * m * dd);
        }
    }
    // From below.
    assert((cc + 2 * c + 1) * mm >= ff * dd) by (nonlinear_arith)
        requires
            cc == c * c,
            mm == m * m,
            ff == f * f,
            dd == d * d,
            c * m + m >= f * d,
            f * d >= 0,
    ;
    assert((ss + 2 * s + 1) * mm >= rr * dd) by (nonlinear_arith)
        requires
            ss == s * s,
            mm == m * m,
            rr == r * r,
            dd == d * d,
            s * m + m >= r * d,
            r * d >= 0,
    ;
    assert(cc + ss + 2 * c + 2 * s + 2 >= dd) by (nonlinear_arith)
        requires
            (cc + 2 * c + 1) * mm >= ff * dd,
            (ss + 2 * s + 1) * mm >= rr * dd,
            ff + rr >= mm,
            mm == m * m,
            m > 0,
            dd >= 0,
    ;
}

/// A part of a whole lies between zero and one.
pub proof fn lemma_fraction_is_a_part(part: nat, whole: nat)
    requires
        part <= whole,
        whole > 0,
    ensures
        0 <= Fixed::fraction_value(part, whole) <= FIXED_ONE,
        Fixed::fraction_value(part, whole) == part * FIXED_ONE / whole as int,
{
    let d: int = FIXED_ONE as int;
    lemma_cut_short(part * d, whole as int);
    assert((part * d) / whole as int <= d) by (nonlinear_arith)
        requires
            (part * d) / whole as int * whole <= part * d,
            part <= whole,
            whole > 0,
            d > 0,
    ;
}

/// A point of the first quarter lies on the circle to within [`ROUNDNESS`].
proof fn lemma_the_quarter_is_round(x: i64)
    requires
        0 <= x <= FIXED_ONE,
    ensures
        ({
            let (c, s) = quarter_point(x);
            &&& 0 <= c <= FIXED_ONE
            &&& 0 <= s <= FIXED_ONE
            &&& -ROUNDNESS <= c * c + s * s - FIXED_ONE * FIXED_ONE <= ROUNDNESS
        }),
{
    lemma_octant_point(x as int, x as int);
}

/// Turning comes to the circle as well, to within [`ROUNDNESS`].
pub proof fn turning_comes_to_the_circle(x: i64)
    requires
        0 <= x <= FIXED_ONE,
    ensures
        ({
            let (c, s) = turned_quarter(x);
            &&& 0 <= c <= 0x2_0000_0000
            &&& 0 <= s <= 0x2_0000_0000
            &&& -ROUNDNESS <= c * c + s * s - FIXED_ONE * FIXED_ONE <= ROUNDNESS
        }),
{
    let d: int = FIXED_ONE as int;
    lemma_quarter_is_outside(x as int);
    let across = quarter_turned(x as int).0 as i64;
    let up = quarter_turned(x as int).1 as i64;
    assert(0 <= across * across <= d * d && 0 <= up * up <= d * d) by (nonlinear_arith)
        requires
            0 <= across <= d,
            0 <= up <= d,
    ;
    lemma_cut_short(across * across, d);
    lemma_cut_short(up * up, d);
    let q = across * across / d + up * up / d;
    assert(Fixed::sum(Fixed::product(across, across), Fixed::product(up, up)) == q);
    let m = lemma_integer_root_exists(q * d);
    let far = Fixed::root_value(q as i64);
    assert(m < 0x4_0000_0000) by (nonlinear_arith)
        requires
            m * m <= q * d,
            q <= 2 * d,
            d == 0x1_0000_0000,
            m >= 0,
    ;
    if q == 0 {
        assert(m == 0) by (nonlinear_arith)
            requires
                m * m <= q * d,
                q == 0,
                m >= 0,
        ;
    }
    assert(far == m);
    let c = across * d / m;
    let s = up * d / m;
    lemma_brought_onto_the_circle(across as int, up as int, q, m, c, s);
    assert(across * d >= 0 && up * d >= 0) by (nonlinear_arith)
        requires
            across >= 0,
            up >= 0,
            d > 0,
    ;
    let (falling, rising) = turned_quarter(x);
    assert(falling == c && rising == s);
}

/// How far along its quarter the point `i / n` of a turn is.
pub open spec fn along_quarter(i: nat, n: nat) -> i64 {
    let part = (4 * i) % n;
    Fixed::fraction_value(
        if (4 * i) / n % 4 % 2 == 0 {
            part
        } else {
            (n - part) as nat
        },
        n,
    )
}

/// Every point of the [`Fixed`] circle lies on the circle to within
/// [`ROUNDNESS`]: the powers of a fade, or of a mix, add up to one.
pub proof fn the_fixed_circle_is_round(i: nat, n: nat)
    requires
        n > 0,
    ensures
        ({
            let (c, s) = Fixed::circle_point(i, n);
            &&& -0x2_0000_0000 <= c <= 0x2_0000_0000
            &&& -0x2_0000_0000 <= s <= 0x2_0000_0000
            &&& -ROUNDNESS <= c * c + s * s - FIXED_ONE * FIXED_ONE <= ROUNDNESS
        }),
{
    let part = (4 * i) % n;
    vstd::arithmetic::div_mod::lemma_mod_bound((4 * i) as int, n as int);
    lemma_fraction_is_a_part(part, n);
    lemma_fraction_is_a_part((n - part) as nat, n);
    let x = along_quarter(i, n);
    lemma_the_quarter_is_round(x);
    let (c, s) = quarter_point(x);
    let (a, b) = Fixed::circle_point(i, n);
    assert((a == c || a == -c) && (b == s || b == -s));
    assert((-c) * (-c) == c * c && (-s) * (-s) == s * s) by (nonlinear_arith);
}

/// Half a turn on, a point of the [`Fixed`] circle is the opposite one, exactly.
pub proof fn the_fixed_circle_turns_over(i: nat, half: nat)
    requires
        half > 0,
    ensures
        ({
            let (c, s) = Fixed::circle_point(i, 2 * half);
            let (d, t) = Fixed::circle_point(i + half, 2 * half);
            d == -c && t == -s
        }),
{
    let n = 2 * half;
    let (q, part) = ((4 * i) / n, (4 * i) % n);
    vstd::arithmetic::div_mod::lemma_fundamental_div_mod((4 * i) as int, n as int);
    assert(4 * (i + half) == (q + 2) * n + part) by (nonlinear_arith)
        requires
            4 * i == n * q + part,
            n == 2 * half,
    ;
    vstd::arithmetic::div_mod::lemma_fundamental_div_mod_converse(
        (4 * (i + half)) as int,
        n as int,
        (q + 2) as int,
        part as int,
    );
    the_fixed_circle_is_round(i, n);
    the_fixed_circle_is_round(i + half, n);
}

/// The [`Fixed`] circle is symmetric: as far before a whole turn as behind its
/// start, the cosine is the same and the sine is the opposite one, exactly.
pub proof fn the_fixed_circle_is_symmetric(i: nat, n: nat)
    requires
        i <= n,
        n > 0,
    ensures
        ({
            let (c, s) = Fixed::circle_point(i, n);
            let (d, t) = Fixed::circle_point((n - i) as nat, n);
            d == c && t == -s
        }),
{
    let (q, part) = ((4 * i) / n, (4 * i) % n);
    let back = (n - i) as nat;
    vstd::arithmetic::div_mod::lemma_fundamental_div_mod((4 * i) as int, n as int);
    assert(q <= 4) by (nonlinear_arith)
        requires
            4 * i == n * q + part,
            part >= 0,
            i <= n,
            n > 0,
    ;
    let (p, rest): (int, int) = if part == 0 {
        (4 - q, 0)
    } else {
        (3 - q, n - part)
    };
    assert(4 * back == p * n + rest) by (nonlinear_arith)
        requires
            4 * i == n * q + part,
            back == n - i,
            part == 0 ==> p == 4 - q && rest == 0,
            part != 0 ==> p == 3 - q && rest == n - part,
    ;
    vstd::arithmetic::div_mod::lemma_fundamental_div_mod_converse(
        (4 * back) as int,
        n as int,
        p,
        rest,
    );
    assert(q == 4 ==> part == 0) by (nonlinear_arith)
        requires
            4 * i == n * q + part,
            part >= 0,
            i <= n,
    ;
    lemma_quarter_ends();
    assert(Fixed::fraction_value(0, n) == 0) by {
        lemma_fraction_is_a_part(0, n);
        assert((0 * FIXED_ONE) / n as int == 0) by (nonlinear_arith)
            requires
                n > 0,
        ;
    }
    assert(Fixed::fraction_value(n, n) == FIXED_ONE) by {
        lemma_fraction_is_a_part(n, n);
        assert((n * FIXED_ONE) / n as int == FIXED_ONE) by (nonlinear_arith)
            requires
                n > 0,
        ;
    }
    the_fixed_circle_is_round(i, n);
    the_fixed_circle_is_round(back, n);
}

/// Over the first quarter of the [`Fixed`] circle the cosine falls from one to
/// zero and the sine rises from zero to one, all the way.
pub proof fn the_fixed_circle_falls_and_rises(i: nat, j: nat, n: nat)
    requires
        i <= j <= n,
        n > 0,
    ensures
        ({
            let (c, s) = Fixed::circle_point(i, 4 * n);
            let (d, t) = Fixed::circle_point(j, 4 * n);
            &&& 0 <= d <= c <= FIXED_ONE
            &&& 0 <= s <= t <= FIXED_ONE
        }),
{
    lemma_first_quarter(i, n);
    lemma_first_quarter(j, n);
    let d: int = FIXED_ONE as int;
    let (x, y) = (i * d / n as int, j * d / n as int);
    assert(i * d <= j * d) by (nonlinear_arith)
        requires
            i <= j,
            d > 0,
    ;
    vstd::arithmetic::div_mod::lemma_div_is_ordered(i * d, j * d, n as int);
    lemma_octant_point(x, y);
}

/// Where the point `i / (4 * n)` of a turn lies in the first quarter.
pub proof fn lemma_first_quarter(i: nat, n: nat)
    requires
        i <= n,
        n > 0,
    ensures
        0 <= i * FIXED_ONE / n as int <= FIXED_ONE,
        Fixed::circle_point(i, 4 * n).0 == octant_point(i * FIXED_ONE / n as int).0,
        Fixed::circle_point(i, 4 * n).1 == octant_point(i * FIXED_ONE / n as int).1,
{
    let d: int = FIXED_ONE as int;
    let m = 4 * n;
    lemma_fraction_is_a_part(i, n);
    let x = i * d / n as int;
    lemma_octant_point(x, x);
    if i < n {
        vstd::arithmetic::div_mod::lemma_fundamental_div_mod_converse(
            (4 * i) as int,
            m as int,
            0,
            (4 * i) as int,
        );
        lemma_fraction_is_a_part(4 * i, m);
        assert((4 * i) * d / m as int == x) by {
            vstd::arithmetic::div_mod::lemma_div_denominator((4 * i) * d, 4, n as int);
            assert((4 * i) * d == 4 * (i * d)) by (nonlinear_arith);
            assert((4 * (i * d)) / 4 == i * d);
        }
    } else {
        Fixed::circle_turns_to_zero(n);
        lemma_octant_point(0, d);
        assert((n * d) / n as int == d) by (nonlinear_arith)
            requires
                n > 0,
        ;
    }
}

} // verus!
