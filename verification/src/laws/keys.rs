//! Key: the tonic and the mode whose profile the pitch classes follow best, by
//! name.
use vstd::prelude::*;

use crate::analysis::{best_fit, fit, key_of, mean_value, pearson_value, profile_of};
use crate::analysis::{covariance, total};
use crate::numeric::{lemma_integer_root_exists, Fixed, Numeric, FIXED_ONE};

verus! {

/// The names of the pitch classes, from C up.
pub open spec fn notes() -> Seq<Seq<char>> {
    seq![
        "C"@, "C#"@, "D"@, "D#"@, "E"@, "F"@, "F#"@, "G"@, "G#"@, "A"@, "A#"@, "B"@,
    ]
}

/// How much weight the notes of a key have, in hundredths, from its tonic up.
pub open spec fn weights(minor: bool) -> Seq<nat> {
    if minor {
        seq![633, 268, 352, 538, 260, 353, 254, 475, 398, 269, 334, 317]
    } else {
        seq![635, 223, 348, 233, 438, 409, 252, 519, 239, 366, 229, 288]
    }
}

/// What the pitch classes of a key look like: the weights, laid from its tonic
/// upwards.
pub open spec fn template<W: Numeric>(tonic: int, minor: bool) -> Seq<W::Sample> {
    Seq::new(12, |i: int| W::fraction_value(weights(minor)[(i - tonic) % 12], 100))
}

/// How well pitch classes follow a key.
pub open spec fn likeness<W: Numeric>(chroma: Seq<W::Sample>, tonic: int, minor: bool) -> W::Sample {
    pearson_value::<W>(chroma, template::<W>(tonic, minor))
}

/// Whether one key is followed better than any other.
pub open spec fn stands_out<W: Numeric>(chroma: Seq<W::Sample>, tonic: int, minor: bool) -> bool {
    forall|t: int, m: bool|
        0 <= t < 12 && (t != tonic || m != minor) ==> {
            &&& W::precedes(
                #[trigger] likeness::<W>(chroma, t, m),
                likeness::<W>(chroma, tonic, minor),
            )
            &&& !W::precedes(
                likeness::<W>(chroma, tonic, minor),
                likeness::<W>(chroma, t, m),
            )
        }
}

/// A candidate is the key on its tonic.
proof fn lemma_candidate<W: Numeric>(chroma: Seq<W::Sample>, tonic: int, minor: bool)
    requires
        0 <= tonic < 12,
    ensures
        ({
            let j = 2 * tonic + if minor {
                1int
            } else {
                0
            };
            fit::<W>(chroma, j) == likeness::<W>(chroma, tonic, minor)
        }),
{
    let j = 2 * tonic + if minor {
        1int
    } else {
        0
    };
    let profile = profile_of::<W>(j);
    assert forall|i: int| 0 <= i < 12 implies profile[i] == template::<W>(tonic, minor)[i] by {
        let above = (i + 12 - j / 2) % 12;
        assert(above == (i - tonic) % 12);
    }
    assert(profile =~= template::<W>(tonic, minor));
}

proof fn lemma_the_best_stands_out<W: Numeric>(
    chroma: Seq<W::Sample>,
    tonic: int,
    minor: bool,
    n: nat,
)
    requires
        0 <= tonic < 12,
        n <= 24,
        stands_out::<W>(chroma, tonic, minor),
    ensures
        ({
            let j = 2 * tonic + if minor {
                1int
            } else {
                0
            };
            let best = best_fit::<W>(chroma, n);
            &&& 0 <= best
            &&& n > 0 ==> best < n
            &&& n > j ==> best == j
        }),
    decreases n,
{
    let j = 2 * tonic + if minor {
        1int
    } else {
        0
    };
    if n > 1 {
        let m = (n - 1) as nat;
        lemma_the_best_stands_out::<W>(chroma, tonic, minor, m);
        let best = best_fit::<W>(chroma, m);
        let (t, other) = (best / 2, best % 2 == 1);
        let (u, last) = (m as int / 2, m % 2 == 1);
        lemma_candidate::<W>(chroma, tonic, minor);
        lemma_candidate::<W>(chroma, t, other);
        lemma_candidate::<W>(chroma, u, last);
        assert(fit::<W>(chroma, best) == likeness::<W>(chroma, t, other));
        assert(fit::<W>(chroma, m as int) == likeness::<W>(chroma, u, last));
    }
}

/// The key that is named is the one whose profile, laid from its tonic upwards,
/// the pitch classes follow best: the name of the tonic and of the mode. How well
/// they follow it is how sure it is, held between zero and one.
pub proof fn the_key_is_the_one_that_is_followed_best<W: Numeric>(
    chroma: Seq<W::Sample>,
    tonic: int,
    minor: bool,
)
    requires
        chroma.len() == 12,
        0 <= tonic < 12,
        key_of::<W>(chroma) is Some,
        stands_out::<W>(chroma, tonic, minor),
    ensures
        key_of::<W>(chroma) matches Some((name, sure)) && name == notes()[tonic] + if minor {
            " minor"@
        } else {
            " major"@
        } && sure == {
            let fits = likeness::<W>(chroma, tonic, minor);
            if W::precedes(fits, W::zero_value()) {
                W::zero_value()
            } else if W::precedes(W::one_value(), fits) {
                W::one_value()
            } else {
                fits
            }
        },
{
    lemma_the_best_stands_out::<W>(chroma, tonic, minor, 24);
    lemma_candidate::<W>(chroma, tonic, minor);
}

/// Twelve pitch classes that all sound one class higher.
pub open spec fn moved_up(chroma: Seq<i64>) -> Seq<i64> {
    Seq::new(12, |i: int| chroma[(i - 1) % 12])
}

/// Whether twelve numbers are small enough to be multiplied and added up.
pub open spec fn modest(values: Seq<i64>) -> bool {
    values.len() == 12 && forall|i: int|
        0 <= i < 12 ==> 0 <= #[trigger] values[i] <= 0x1000_0000_0000
}

/// The first `n` numbers added up.
pub open spec fn heap(values: Seq<i64>, n: nat) -> int
    decreases n,
{
    if n == 0 {
        0
    } else {
        heap(values, (n - 1) as nat) + values[n - 1]
    }
}

proof fn lemma_heap(values: Seq<i64>, n: nat)
    requires
        modest(values),
        n <= 12,
    ensures
        total::<Fixed>(values, n) == heap(values, n),
        0 <= heap(values, n) <= n * 0x1000_0000_0000,
    decreases n,
{
    if n > 0 {
        lemma_heap(values, (n - 1) as nat);
    }
}

/// The mean of modest numbers lies among them.
proof fn lemma_mean(values: Seq<i64>)
    requires
        modest(values),
    ensures
        0 <= mean_value::<Fixed>(values) <= 0x1000_0000_0000,
        mean_value::<Fixed>(values) == heap(values, 12) / 12,
{
    lemma_heap(values, 12);
    let s = heap(values, 12);
    let one: int = FIXED_ONE as int;
    assert(Fixed::fraction_value(12, 1) == 12 * one);
    assert((s * one) / (12 * one) == s / 12) by {
        vstd::arithmetic::div_mod::lemma_div_denominator(s * one, one, 12);
        vstd::arithmetic::div_mod::lemma_div_multiples_vanish(s, one);
        assert(s * one == one * s) by (nonlinear_arith);
        assert(one * 12 == 12 * one);
    }
}

/// How two numbers go together, each taken from its mean.
pub open spec fn pair(a: i64, am: i64, b: i64, bm: i64) -> i64 {
    Fixed::product(Fixed::difference(a, am), Fixed::difference(b, bm))
}

/// How the first `n` numbers go together.
pub open spec fn pairs(a: Seq<i64>, am: i64, b: Seq<i64>, bm: i64, n: nat) -> int
    decreases n,
{
    if n == 0 {
        0
    } else {
        pairs(a, am, b, bm, (n - 1) as nat) + pair(a[n - 1], am, b[n - 1], bm)
    }
}

proof fn lemma_pair(a: i64, am: i64, b: i64, bm: i64)
    requires
        0 <= a <= 0x1000_0000_0000,
        0 <= am <= 0x1000_0000_0000,
        0 <= b <= 0x1000_0000_0000,
        0 <= bm <= 0x1000_0000_0000,
    ensures
        -0x100_0000_0000_0000 <= pair(a, am, b, bm) <= 0x100_0000_0000_0000,
        pair(a, am, b, bm) == pair(b, bm, a, am),
        pair(a, am, a, am) >= 0,
{
    let (x, y) = (a - am, b - bm);
    assert(Fixed::difference(a, am) == x && Fixed::difference(b, bm) == y);
    let n = x * y;
    assert(-0x100_0000_0000_0000_0000_0000 <= n <= 0x100_0000_0000_0000_0000_0000 && n == y * x
        && x * x >= 0 && x * x <= 0x100_0000_0000_0000_0000_0000) by (nonlinear_arith)
        requires
            n == x * y,
            -0x1000_0000_0000 <= x <= 0x1000_0000_0000,
            -0x1000_0000_0000 <= y <= 0x1000_0000_0000,
    ;
}

proof fn lemma_pairs(a: Seq<i64>, am: i64, b: Seq<i64>, bm: i64, n: nat)
    requires
        modest(a),
        modest(b),
        0 <= am <= 0x1000_0000_0000,
        0 <= bm <= 0x1000_0000_0000,
        n <= 12,
    ensures
        covariance::<Fixed>(a, am, b, bm, n) == pairs(a, am, b, bm, n),
        covariance::<Fixed>(a, am, b, bm, n) == covariance::<Fixed>(b, bm, a, am, n),
        -0x100_0000_0000_0000 * n <= pairs(a, am, b, bm, n) <= 0x100_0000_0000_0000 * n,
    decreases n,
{
    if n > 0 {
        lemma_pairs(a, am, b, bm, (n - 1) as nat);
        assert(0 <= a[n - 1] <= 0x1000_0000_0000 && 0 <= b[n - 1] <= 0x1000_0000_0000);
        lemma_pair(a[n - 1], am, b[n - 1], bm);
    }
}

proof fn lemma_moved_heap(a: Seq<i64>)
    requires
        a.len() == 12,
    ensures
        heap(moved_up(a), 12) == heap(a, 12),
{
    reveal_with_fuel(heap, 13);
}

proof fn lemma_moved_pairs(a: Seq<i64>, am: i64, b: Seq<i64>, bm: i64)
    requires
        a.len() == 12,
        b.len() == 12,
    ensures
        pairs(moved_up(a), am, moved_up(b), bm, 12) == pairs(a, am, b, bm, 12),
{
    reveal_with_fuel(pairs, 13);
}

proof fn lemma_moved_is_modest(a: Seq<i64>)
    requires
        modest(a),
    ensures
        modest(moved_up(a)),
{
    assert forall|i: int| 0 <= i < 12 implies 0 <= #[trigger] moved_up(a)[i]
        <= 0x1000_0000_0000 by {
        assert(0 <= a[(i - 1) % 12] <= 0x1000_0000_0000);
    }
}

/// Two sets of pitch classes go together as well when both are moved up.
pub proof fn moved_together_they_fit_as_well(a: Seq<i64>, b: Seq<i64>)
    requires
        modest(a),
        modest(b),
    ensures
        pearson_value::<Fixed>(moved_up(a), moved_up(b)) == pearson_value::<Fixed>(a, b),
{
    lemma_moved_is_modest(a);
    lemma_moved_is_modest(b);
    lemma_moved_heap(a);
    lemma_moved_heap(b);
    lemma_mean(a);
    lemma_mean(b);
    lemma_mean(moved_up(a));
    lemma_mean(moved_up(b));
    let (am, bm) = (mean_value::<Fixed>(a), mean_value::<Fixed>(b));
    lemma_moved_pairs(a, am, b, bm);
    lemma_moved_pairs(a, am, a, am);
    lemma_moved_pairs(b, bm, b, bm);
    lemma_pairs(a, am, b, bm, 12);
    lemma_pairs(a, am, a, am, 12);
    lemma_pairs(b, bm, b, bm, 12);
    lemma_pairs(moved_up(a), am, moved_up(b), bm, 12);
    lemma_pairs(moved_up(a), am, moved_up(a), am, 12);
    lemma_pairs(moved_up(b), bm, moved_up(b), bm, 12);
}

/// How well two sets of pitch classes go together does not depend on which comes
/// first, nor on how much all of one set has in common: what is added to every
/// class alike changes nothing.
pub proof fn what_all_have_in_common_does_not_matter(a: Seq<i64>, b: Seq<i64>, more: i64)
    requires
        modest(a),
        modest(b),
        modest(Seq::new(12, |i: int| (a[i] + more) as i64)),
        0 <= more <= 0x1000_0000_0000,
    ensures
        pearson_value::<Fixed>(a, b) == pearson_value::<Fixed>(b, a),
        pearson_value::<Fixed>(Seq::new(12, |i: int| (a[i] + more) as i64), b) == pearson_value::<
            Fixed,
        >(a, b),
{
    let c = Seq::new(12, |i: int| (a[i] + more) as i64);
    assert forall|i: int| 0 <= i < 12 implies #[trigger] c[i] == a[i] + more by {
        assert(0 <= a[i] <= 0x1000_0000_0000);
    }
    lemma_mean(a);
    lemma_mean(b);
    lemma_mean(c);
    let (am, bm, cm) = (
        mean_value::<Fixed>(a),
        mean_value::<Fixed>(b),
        mean_value::<Fixed>(c),
    );
    assert(heap(c, 12) == heap(a, 12) + 12 * more) by {
        reveal_with_fuel(heap, 13);
    }
    assert(cm == am + more);
    lemma_pairs(a, am, b, bm, 12);
    lemma_pairs(a, am, a, am, 12);
    lemma_pairs(b, bm, b, bm, 12);
    lemma_pairs(c, cm, b, bm, 12);
    lemma_pairs(c, cm, c, cm, 12);
    lemma_common(a, am, c, cm, b, bm, 12);
    lemma_common(a, am, c, cm, a, am, 12);
    lemma_common(a, am, c, cm, c, cm, 12);
    lemma_pairs(a, am, c, cm, 12);
    lemma_pairs(c, cm, a, am, 12);
    let (va, vb) = (
        covariance::<Fixed>(a, am, a, am, 12),
        covariance::<Fixed>(b, bm, b, bm, 12),
    );
    assert(va * vb == vb * va) by (nonlinear_arith);
}

proof fn lemma_common(
    a: Seq<i64>,
    am: i64,
    c: Seq<i64>,
    cm: i64,
    b: Seq<i64>,
    bm: i64,
    n: nat,
)
    requires
        modest(a),
        modest(c),
        n <= 12,
        0 <= am <= 0x1000_0000_0000,
        0 <= cm <= 0x1000_0000_0000,
        forall|i: int| 0 <= i < 12 ==> #[trigger] c[i] - cm == a[i] - am,
    ensures
        pairs(c, cm, b, bm, n) == pairs(a, am, b, bm, n),
    decreases n,
{
    if n > 0 {
        lemma_common(a, am, c, cm, b, bm, (n - 1) as nat);
        assert(0 <= a[n - 1] <= 0x1000_0000_0000 && 0 <= c[n - 1] <= 0x1000_0000_0000);
        assert(c[n - 1] - cm == a[n - 1] - am);
        assert(Fixed::difference(c[n - 1], cm) == Fixed::difference(a[n - 1], am));
    }
}

/// A tune that is moved up one pitch class has the key on the next tonic: it follows
/// that as well as it followed the one before.
pub proof fn a_tune_moved_up_moves_its_key(chroma: Seq<i64>, tonic: int, minor: bool)
    requires
        modest(chroma),
        0 <= tonic < 12,
        key_of::<Fixed>(chroma) is Some,
        stands_out::<Fixed>(chroma, tonic, minor),
    ensures
        key_of::<Fixed>(moved_up(chroma)) matches Some((name, sure)) && name == notes()[(tonic + 1)
            % 12] + if minor {
            " minor"@
        } else {
            " major"@
        } && (key_of::<Fixed>(chroma) matches Some((_, was)) && sure == was),
{
    let up = moved_up(chroma);
    lemma_moved_is_modest(chroma);
    lemma_heap(chroma, 12);
    lemma_heap(up, 12);
    lemma_moved_heap(chroma);
    let next = (tonic + 1) % 12;
    lemma_moved_likeness(chroma, tonic, minor);
    assert forall|t: int, m: bool| 0 <= t < 12 && (t != next || m != minor) implies {
        &&& Fixed::precedes(
            #[trigger] likeness::<Fixed>(up, t, m),
            likeness::<Fixed>(up, next, minor),
        )
        &&& !Fixed::precedes(likeness::<Fixed>(up, next, minor), likeness::<Fixed>(up, t, m))
    } by {
        let last = (t + 11) % 12;
        assert((last + 1) % 12 == t);
        lemma_moved_likeness(chroma, last, m);
        assert(last != tonic || m != minor);
        assert(Fixed::precedes(
            likeness::<Fixed>(chroma, last, m),
            likeness::<Fixed>(chroma, tonic, minor),
        ));
    }
    assert(key_of::<Fixed>(up) is Some);
    the_key_is_the_one_that_is_followed_best::<Fixed>(up, next, minor);
    the_key_is_the_one_that_is_followed_best::<Fixed>(chroma, tonic, minor);
}

proof fn lemma_moved_likeness(chroma: Seq<i64>, tonic: int, minor: bool)
    requires
        modest(chroma),
        0 <= tonic < 12,
    ensures
        likeness::<Fixed>(moved_up(chroma), (tonic + 1) % 12, minor) == likeness::<Fixed>(
            chroma,
            tonic,
            minor,
        ),
{
    let profile = template::<Fixed>(tonic, minor);
    let next = template::<Fixed>((tonic + 1) % 12, minor);
    assert forall|i: int| 0 <= i < 12 implies #[trigger] next[i] == moved_up(profile)[i] by {
        let j = (i - 1) % 12;
        assert((j - tonic) % 12 == (i - (tonic + 1) % 12) % 12);
    }
    assert(next =~= moved_up(profile));
    assert forall|i: int| 0 <= i < 12 implies 0 <= #[trigger] profile[i] <= 0x1000_0000_0000 by {
        let w = weights(minor)[(i - tonic) % 12];
        assert(w <= 635);
        assert(0 <= w * FIXED_ONE / 100 <= 7 * FIXED_ONE);
    }
    moved_together_they_fit_as_well(chroma, profile);
}

/// What goes up and down by enough goes together with itself, fully.
pub proof fn a_set_fits_itself_fully(a: Seq<i64>)
    requires
        a.len() == 12,
        forall|i: int| 0 <= i < 12 ==> 0 <= #[trigger] a[i] <= 0x10_0000_0000,
        ({
            let mean = (heap(a, 12) / 12) as i64;
            pairs(a, mean, a, mean, 12) >= FIXED_ONE
        }),
    ensures
        FIXED_ONE <= pearson_value::<Fixed>(a, a) <= FIXED_ONE + 2,
{
    lemma_mean(a);
    let mean = mean_value::<Fixed>(a);
    assert(0 <= mean <= 0x10_0000_0000) by {
        reveal_with_fuel(heap, 13);
    }
    lemma_pairs(a, mean, a, mean, 12);
    lemma_small_pairs(a, mean, 12);
    let v = pairs(a, mean, a, mean, 12);
    let one: int = FIXED_ONE as int;
    assert(one * one <= v * v <= 0x1000_0000_0000 * 0x1000_0000_0000) by (nonlinear_arith)
        requires
            0 < one <= v <= 0x1000_0000_0000,
    ;
    let p = v * v / one;
    let r = lemma_integer_root_exists(p * one);
    assert(r <= v && r >= v - 1) by (nonlinear_arith)
        requires
            r * r <= p * one < (r + 1) * (r + 1),
            v * v - one < p * one <= v * v,
            0 <= r,
            v >= one,
            one >= 2,
    {
        if r > v {
            assert(r * r > v * v);
        }
        if r + 1 <= v - 1 {
            assert((r + 1) * (r + 1) <= (v - 1) * (v - 1));
            assert((v - 1) * (v - 1) == v * v - 2 * v + 1);
        }
    }
    let q = (v * one) / r;
    vstd::arithmetic::div_mod::lemma_fundamental_div_mod(v * one, r);
    vstd::arithmetic::div_mod::lemma_mod_bound(v * one, r);
    assert(one <= q <= one + 2) by (nonlinear_arith)
        requires
            v * one == r * q + (v * one) % r,
            0 <= (v * one) % r < r,
            v - 1 <= r <= v,
            v >= one,
            one >= 4,
    {
        if q < one {
            assert(r * q <= r * (one - 1));
        }
        if q > one + 2 {
            assert(r * q >= r * (one + 3));
            assert(r * (one + 3) >= (v - 1) * (one + 3));
            assert((v - 1) * (one + 3) == v * one + 3 * v - one - 3);
        }
    }
    assert(Fixed::fraction_value(1, 1_000_000_000_000) == 0);
}

proof fn lemma_small_pairs(a: Seq<i64>, mean: i64, n: nat)
    requires
        a.len() == 12,
        forall|i: int| 0 <= i < 12 ==> 0 <= #[trigger] a[i] <= 0x10_0000_0000,
        0 <= mean <= 0x10_0000_0000,
        n <= 12,
    ensures
        0 <= pairs(a, mean, a, mean, n) <= n * 0x100_0000_0000,
    decreases n,
{
    if n > 0 {
        lemma_small_pairs(a, mean, (n - 1) as nat);
        let x = a[n - 1] - mean;
        assert(Fixed::difference(a[n - 1], mean) == x);
        assert(0 <= x * x <= 0x10_0000_0000 * 0x10_0000_0000) by (nonlinear_arith)
            requires
                -0x10_0000_0000 <= x <= 0x10_0000_0000,
        ;
    }
}

/// A track has a key as soon as its pitch classes together are a millionth or more;
/// below that it is taken for silence.
pub proof fn only_silence_has_no_key(chroma: Seq<i64>)
    requires
        modest(chroma),
    ensures
        key_of::<Fixed>(chroma) is None <==> heap(chroma, 12) < 4294,
{
    lemma_heap(chroma, 12);
    assert(Fixed::fraction_value(1, 1_000_000) == 4294);
}

} // verus!
