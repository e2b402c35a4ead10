//! The frequency domain, as far as the library looks into it.
//!
//! A [`Spectral`] system can transform a window of samples, accumulate the
//! product of two spectra and transform back. The one property that fast
//! convolution rests on, that a product of spectra is a circular convolution
//! of the windows, is stated of a [`Convolving`] system.
use vstd::prelude::*;

use crate::frames::{filled, repeated};
use crate::numeric::{Exact, Fixed, Numeric};

verus! {

/// A number system with a transform of real windows.
pub trait Spectral: Numeric {
    /// What a transform of one size needs at hand.
    type Plan;

    /// The spectrum of one window.
    type Bins;

    /// What a spectrum says, apart from how it is stored.
    type Spectrum;

    /// The window size that a plan is for.
    closed spec fn plan_size(plan: Self::Plan) -> nat {
        arbitrary()
    }

    /// The window size that a spectrum belongs to.
    closed spec fn bins_size(bins: Self::Bins) -> nat {
        arbitrary()
    }

    /// What a stored spectrum says.
    closed spec fn model(bins: Self::Bins) -> Self::Spectrum {
        arbitrary()
    }

    /// The value of [`silence`](Self::silence).
    closed spec fn silent(size: nat) -> Self::Spectrum {
        arbitrary()
    }

    /// The value of [`forward`](Self::forward).
    closed spec fn spectrum(window: Seq<Self::Sample>) -> Self::Spectrum {
        arbitrary()
    }

    /// The value of [`accumulate`](Self::accumulate).
    closed spec fn blended(
        acc: Self::Spectrum,
        a: Self::Spectrum,
        b: Self::Spectrum,
    ) -> Self::Spectrum {
        arbitrary()
    }

    /// The value of [`inverse`](Self::inverse).
    closed spec fn signal(spectrum: Self::Spectrum, size: nat) -> Seq<Self::Sample> {
        arbitrary()
    }

    /// Prepares transforms of `size` samples.
    fn plan(size: usize) -> (plan: Self::Plan)
        requires
            size > 0,
            size % 2 == 0,
        ensures
            Self::plan_size(plan) == size,
    ;

    /// The spectrum of silence.
    fn silence(plan: &Self::Plan) -> (bins: Self::Bins)
        ensures
            Self::bins_size(bins) == Self::plan_size(*plan),
            Self::model(bins) == Self::silent(Self::plan_size(*plan)),
    ;

    /// The spectrum of `window`.
    fn forward(plan: &mut Self::Plan, window: &[Self::Sample]) -> (bins: Self::Bins)
        requires
            window@.len() == Self::plan_size(*old(plan)),
        ensures
            Self::plan_size(*final(plan)) == Self::plan_size(*old(plan)),
            Self::bins_size(bins) == Self::plan_size(*old(plan)),
            Self::model(bins) == Self::spectrum(window@),
    ;

    /// Adds the product of the spectra `a` and `b` to `acc`.
    fn accumulate(acc: &mut Self::Bins, a: &Self::Bins, b: &Self::Bins)
        requires
            Self::bins_size(*a) == Self::bins_size(*old(acc)),
            Self::bins_size(*b) == Self::bins_size(*old(acc)),
        ensures
            Self::bins_size(*final(acc)) == Self::bins_size(*old(acc)),
            Self::model(*final(acc)) == Self::blended(
                Self::model(*old(acc)),
                Self::model(*a),
                Self::model(*b),
            ),
    ;

    /// The window whose spectrum is `bins`.
    fn inverse(plan: &mut Self::Plan, bins: Self::Bins) -> (window: Vec<Self::Sample>)
        requires
            Self::bins_size(bins) == Self::plan_size(*old(plan)),
        ensures
            Self::plan_size(*final(plan)) == Self::plan_size(*old(plan)),
            window@.len() == Self::plan_size(*old(plan)),
            window@ == Self::signal(Self::model(bins), Self::plan_size(*old(plan))),
    ;
}

/// The sum of the first `n` products `a[j] * b[i - j]`, indices of `b` taken
/// round its length.
pub open spec fn circular_sum<N: Numeric>(
    a: Seq<N::Sample>,
    b: Seq<N::Sample>,
    i: int,
    n: nat,
) -> N::Sample
    decreases n,
{
    if n == 0 {
        N::zero_value()
    } else {
        N::sum(
            circular_sum::<N>(a, b, i, (n - 1) as nat),
            N::product(a[n - 1], b[(i - (n - 1)) % b.len() as int]),
        )
    }
}

/// Circular convolution of two windows of one length.
pub open spec fn circular<N: Numeric>(a: Seq<N::Sample>, b: Seq<N::Sample>) -> Seq<N::Sample> {
    Seq::new(b.len(), |i: int| circular_sum::<N>(a, b, i, b.len()))
}

/// Two windows of one length, added sample by sample.
pub open spec fn added<N: Numeric>(a: Seq<N::Sample>, b: Seq<N::Sample>) -> Seq<N::Sample> {
    Seq::new(a.len(), |i: int| N::sum(a[i], b[i]))
}

/// A system in which the transform turns products into circular convolutions.
pub trait Convolving: Spectral + Exact {
    /// The spectrum of silence transforms back to silence.
    proof fn silence_is_silent(size: nat)
        ensures
            Self::silent(size) == Self::spectrum(repeated(Self::zero_value(), size)),
            Self::signal(Self::silent(size), size) == repeated(Self::zero_value(), size),
    ;

    /// An accumulated product of spectra is an added circular convolution.
    proof fn product_convolves(
        acc: Self::Spectrum,
        a: Seq<Self::Sample>,
        b: Seq<Self::Sample>,
    )
        requires
            a.len() == b.len(),
            Self::signal(acc, b.len()).len() == b.len(),
        ensures
            Self::signal(
                Self::blended(acc, Self::spectrum(a), Self::spectrum(b)),
                b.len(),
            ) == added::<Self>(Self::signal(acc, b.len()), circular::<Self>(a, b)),
    ;
}

/// In [`Fixed`] a spectrum is kept as the window it belongs to, and a product
/// of spectra is the circular convolution itself.
impl Spectral for Fixed {
    type Plan = usize;

    type Bins = Vec<i64>;

    type Spectrum = Seq<i64>;

    open spec fn plan_size(plan: usize) -> nat {
        plan as nat
    }

    open spec fn bins_size(bins: Vec<i64>) -> nat {
        bins@.len()
    }

    open spec fn model(bins: Vec<i64>) -> Seq<i64> {
        bins@
    }

    open spec fn silent(size: nat) -> Seq<i64> {
        repeated(0i64, size)
    }

    open spec fn spectrum(window: Seq<i64>) -> Seq<i64> {
        window
    }

    open spec fn blended(acc: Seq<i64>, a: Seq<i64>, b: Seq<i64>) -> Seq<i64> {
        added::<Fixed>(acc, circular::<Fixed>(a, b))
    }

    open spec fn signal(spectrum: Seq<i64>, size: nat) -> Seq<i64> {
        spectrum
    }

    fn plan(size: usize) -> (plan: usize) {
        size
    }

    fn silence(plan: &usize) -> (bins: Vec<i64>) {
        filled(0i64, *plan)
    }

    fn forward(plan: &mut usize, window: &[i64]) -> (bins: Vec<i64>) {
        vstd::slice::slice_to_vec(window)
    }

    fn accumulate(acc: &mut Vec<i64>, a: &Vec<i64>, b: &Vec<i64>) {
        let ghost start = acc@;
        let n: usize = acc.len();
        let mut i: usize = 0;
        while i < n
            invariant
                i <= n,
                n == start.len(),
                acc@.len() == n,
                a@.len() == n,
                b@.len() == n,
                forall|k: int|
                    0 <= k < i ==> acc@[k] == Fixed::sum(start[k], circular::<Fixed>(a@, b@)[k]),
                forall|k: int| i <= k < n ==> acc@[k] == start[k],
            decreases n - i,
        {
            let mut total: i64 = 0;
            let mut j: usize = 0;
            while j < n
                invariant
                    j <= n,
                    i < n,
                    a@.len() == n,
                    b@.len() == n,
                    total == circular_sum::<Fixed>(a@, b@, i as int, j as nat),
                decreases n - j,
            {
                let at: usize = if j <= i {
                    i - j
                } else {
                    n - (j - i)
                };
                proof {
                    if j <= i {
                        vstd::arithmetic::div_mod::lemma_small_mod((i - j) as nat, n as nat);
                    } else {
                        vstd::arithmetic::div_mod::lemma_fundamental_div_mod_converse(
                            i - j,
                            n as int,
                            -1,
                            n - (j - i),
                        );
                    }
                }
                total = Fixed::plus(total, Fixed::times(a[j], b[at]));
                j += 1;
            }
            let sum: i64 = Fixed::plus(acc[i], total);
            acc.set(i, sum);
            i += 1;
        }
        assert(acc@ =~= added::<Fixed>(start, circular::<Fixed>(a@, b@)));
    }

    fn inverse(plan: &mut usize, bins: Vec<i64>) -> (window: Vec<i64>) {
        bins
    }
}

impl Convolving for Fixed {
    proof fn silence_is_silent(size: nat) {
    }

    proof fn product_convolves(acc: Seq<i64>, a: Seq<i64>, b: Seq<i64>) {
    }
}

} // verus!
