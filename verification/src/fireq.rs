//! Linear-phase equaliser: ten bands with no phase distortion between them, as
//! a chain effect.
//!
//! The kernel is symmetric, so it delays the signal by half its length: that
//! is the price of constant group delay. The band gains belong to someone
//! else; an epoch tells when they changed, and the next audio that comes by
//! gets a new kernel, faded in without a click.
//!
//! Off is structural: a disabled equaliser goes to a flat kernel, a pure
//! delay, and sheds its backend at the next reset.
use vstd::prelude::*;

use crate::chain::{Effect, UNITY};
use crate::curves::{log_of_two, log_of_two_of, octaves, octaves_of};
use crate::frames::{append_copy, channel_of, filled, repeated};
use crate::numeric::{Exact, Fixed, Numeric, FIXED_ONE};
use crate::pitch::{weight, weighted, Vocoding};
use crate::spectral::{blocks_for, convolved, hann_periodic, raised_cosine};
use crate::spectral::{output_follows_the_kernel, stereo_out, stereo_tail};
use crate::spectral::StereoConvolver;
use crate::transform::Convolving;

verus! {

/// How many bands there are.
pub const EQ_BAND_COUNT: usize = 10;

/// Taps of the kernel.
pub const KERNEL_LEN: usize = 4096;

/// Group delay of the kernel: half its length.
pub const LATENCY_FRAMES: usize = 2048;

/// Partition size of the convolver.
pub const BLOCK: usize = 512;

/// The centre of band `band`, in Hz.
pub open spec fn center_hz(band: int) -> nat {
    if band <= 0 {
        32
    } else if band == 1 {
        64
    } else if band == 2 {
        125
    } else if band == 3 {
        250
    } else if band == 4 {
        500
    } else if band == 5 {
        1000
    } else if band == 6 {
        2000
    } else if band == 7 {
        4000
    } else if band == 8 {
        8000
    } else {
        16000
    }
}

/// The centre of band `band`, in Hz.
pub fn center_freq(band: usize) -> (hz: u64)
    requires
        band < EQ_BAND_COUNT,
    ensures
        hz == center_hz(band as int),
{
    match band {
        0 => 32,
        1 => 64,
        2 => 125,
        3 => 250,
        4 => 500,
        5 => 1000,
        6 => 2000,
        7 => 4000,
        8 => 8000,
        _ => 16000,
    }
}

/// A system that knows decibels and octaves.
pub trait Voicing: Vocoding {
    /// The value of [`log_share`](Self::log_share).
    closed spec fn log_share_value(num: nat, den: nat, low: nat, high: nat) -> Self::Sample {
        arbitrary()
    }

    /// The value of [`amplitude`](Self::amplitude).
    closed spec fn amplitude_value(db: Self::Sample) -> Self::Sample {
        arbitrary()
    }

    /// How far `num / den` lies from `low` to `high` on a logarithmic scale:
    /// zero at the one, one at the other.
    fn log_share(num: u64, den: u64, low: u64, high: u64) -> (share: Self::Sample)
        requires
            den > 0,
            0 < low < high,
            low * den < num <= high * den <= u64::MAX,
        ensures
            share == Self::log_share_value(num as nat, den as nat, low as nat, high as nat),
    ;

    /// The amplitude of a gain of `db` decibels.
    fn amplitude(db: Self::Sample) -> (gain: Self::Sample)
        ensures
            gain == Self::amplitude_value(db),
            db == Self::zero_value() ==> gain == Self::one_value(),
    ;
}

/// How many octaves of amplitude there are in a decibel: a twentieth of the
/// logarithm of ten to base two, thirty-two bits of it behind the point.
pub const OCTAVES_PER_DECIBEL: i64 = 0x2a85_4b42;

impl Voicing for Fixed {
    open spec fn log_share_value(num: nat, den: nat, low: nat, high: nat) -> i64 {
        Self::quotient(
            log_of_two(num * FIXED_ONE / (low * den) as int) as i64,
            log_of_two(high * FIXED_ONE / low as int) as i64,
        )
    }

    open spec fn amplitude_value(db: i64) -> i64 {
        octaves(Self::product(db, OCTAVES_PER_DECIBEL) as int) as i64
    }

    fn log_share(num: u64, den: u64, low: u64, high: u64) -> (share: i64) {
        let ghost least = low * den;
        assert(least > 0) by (nonlinear_arith)
            requires
                least == low * den,
                low > 0,
                den > 0,
        ;
        proof {
            lemma_ratio_is_above_one(num as int, least as int);
            lemma_ratio_is_above_one(high as int, low as int);
        }
        let along: u64 = log_of_two_of(
            num as u128 * 0x1_0000_0000u128 / (low as u128 * den as u128),
        );
        let across: u64 = log_of_two_of(high as u128 * 0x1_0000_0000u128 / low as u128);
        Self::over(along as i64, across as i64)
    }

    fn amplitude(db: i64) -> (gain: i64)
        ensures
            gain >= 0,
    {
        octaves_of(Self::times(db, OCTAVES_PER_DECIBEL))
    }
}

proof fn lemma_ratio_is_above_one(num: int, den: int)
    requires
        0 < den <= num,
    ensures
        num * FIXED_ONE / den >= FIXED_ONE,
{
    vstd::arithmetic::div_mod::lemma_div_is_ordered(den * FIXED_ONE, num * FIXED_ONE, den);
    vstd::arithmetic::div_mod::lemma_div_multiples_vanish(FIXED_ONE as int, den);
}

/// The first band from `band` on whose successor's centre is not below
/// `num / den` Hz.
pub open spec fn band_below(num: nat, den: nat, band: nat) -> nat
    decreases EQ_BAND_COUNT - band,
{
    if band >= EQ_BAND_COUNT - 2 || num <= center_hz(band as int + 1) * den {
        band
    } else {
        band_below(num, den, band + 1)
    }
}

/// The gain at `num / den` Hz, in decibels: straight between the band centres
/// on a logarithmic scale, and level beyond the outermost.
pub open spec fn gain_db<N: Voicing>(num: nat, den: nat, gains: Seq<N::Sample>) -> N::Sample {
    if num <= center_hz(0) * den {
        gains[0]
    } else if num >= center_hz(EQ_BAND_COUNT - 1) * den {
        gains[EQ_BAND_COUNT - 1]
    } else {
        let band = band_below(num, den, 0) as int;
        let share = N::log_share_value(num, den, center_hz(band), center_hz(band + 1));
        N::sum(gains[band], N::product(share, N::difference(gains[band + 1], gains[band])))
    }
}

/// Magnitude and phase of bin `k` of the kernel: the gain there, and the phase
/// of a delay by half the kernel.
pub open spec fn kernel_bin<N: Voicing>(rate: u32, gains: Seq<N::Sample>, k: int) -> (
    N::Sample,
    N::Sample,
) {
    (
        N::amplitude_value(gain_db::<N>((k * rate) as nat, KERNEL_LEN as nat, gains)),
        N::difference(
            N::zero_value(),
            N::turn_value((k * LATENCY_FRAMES) as nat, KERNEL_LEN as nat),
        ),
    )
}

/// The taps of the kernel: the bins brought to the time domain and tapered by
/// a window that is symmetric about the centre.
pub open spec fn designed<N: Voicing>(rate: u32, gains: Seq<N::Sample>) -> Seq<N::Sample> {
    let bins = Seq::new(
        N::bin_count(KERNEL_LEN as nat),
        |k: int| kernel_bin::<N>(rate, gains, k),
    );
    weighted::<N>(
        N::signal(N::assembled(bins, KERNEL_LEN as nat), KERNEL_LEN as nat),
        Seq::new(KERNEL_LEN as nat, |i: int| raised_cosine::<N>(i as nat, KERNEL_LEN as nat)),
    )
}

fn interp_gain_db<N: Voicing>(num: u64, den: u64, gains: &[N::Sample]) -> (db: N::Sample)
    requires
        gains@.len() == EQ_BAND_COUNT,
        0 < den <= KERNEL_LEN,
    ensures
        db == gain_db::<N>(num as nat, den as nat, gains@),
{
    if num <= 32 * den {
        return gains[0];
    }
    if num >= 16000 * den {
        return gains[EQ_BAND_COUNT - 1];
    }
    let mut band: usize = 0;
    while band < EQ_BAND_COUNT - 2 && num > center_freq(band + 1) * den
        invariant
            band <= EQ_BAND_COUNT - 2,
            0 < den <= KERNEL_LEN,
            center_hz(band as int) * den < num < 16000 * den,
            band_below(num as nat, den as nat, 0) == band_below(
                num as nat,
                den as nat,
                band as nat,
            ),
        decreases EQ_BAND_COUNT - band,
    {
        band += 1;
    }
    let (low, high) = (center_freq(band), center_freq(band + 1));
    let share = N::log_share(num, den, low, high);
    N::plus(gains[band], N::times(share, N::minus(gains[band + 1], gains[band])))
}

/// Designs the kernel whose response follows the ten band gains.
pub fn design_kernel<N: Voicing>(rate: u32, gains: &[N::Sample]) -> (kernel: Vec<N::Sample>)
    requires
        gains@.len() == EQ_BAND_COUNT,
    ensures
        kernel@ == designed::<N>(rate, gains@),
        kernel@.len() == KERNEL_LEN,
{
    let count: usize = N::bins_of(KERNEL_LEN);
    let mut bins: Vec<(N::Sample, N::Sample)> = Vec::with_capacity(count);
    let mut k: usize = 0;
    while k < count
        invariant
            k <= count <= KERNEL_LEN,
            gains@.len() == EQ_BAND_COUNT,
            bins@ == Seq::new(k as nat, |k: int| kernel_bin::<N>(rate, gains@, k)),
        decreases count - k,
    {
        assert(k * rate <= 4096 * 0xffff_ffff) by (nonlinear_arith)
            requires
                k <= 4096,
                rate <= 0xffff_ffff,
        ;
        assert(k * LATENCY_FRAMES <= 4096 * 2048) by (nonlinear_arith)
            requires
                k <= 4096,
                LATENCY_FRAMES == 2048,
        ;
        let db = interp_gain_db::<N>(k as u64 * rate as u64, KERNEL_LEN as u64, gains);
        let angle = N::turn(k as u64 * LATENCY_FRAMES as u64, KERNEL_LEN as u64);
        bins.push((N::amplitude(db), N::minus(N::zero(), angle)));
        k += 1;
    }
    let mut plan = N::plan(KERNEL_LEN);
    let time: Vec<N::Sample> = N::inverse(&mut plan, N::assemble(bins, KERNEL_LEN));
    let window: Vec<N::Sample> = hann_periodic::<N>(KERNEL_LEN);
    weight::<N>(time.as_slice(), window.as_slice())
}

/// Whoever holds the band gains. They may change between any two calls, and
/// the epoch with them.
pub trait GainSource<N: Numeric>: Sized {
    /// A number that is another one whenever the gains have changed.
    fn epoch(&self) -> (epoch: u64)
    ;

    /// The ten gains, in decibels.
    fn gains(&self) -> (gains: Vec<N::Sample>)
        ensures
            gains@.len() == EQ_BAND_COUNT,
    ;

    /// Another handle on the same gains.
    fn share(&self) -> (other: Self)
    ;
}

/// `epoch` and then `gains` are answers that `source` can give.
pub open spec fn may_read<N: Numeric, G: GainSource<N>>(
    source: G,
    epoch: u64,
    gains: Vec<N::Sample>,
) -> bool {
    &&& call_ensures(G::epoch, (&source,), epoch)
    &&& call_ensures(G::gains, (&source,), gains)
}

/// `other` is a handle that `source` can share.
pub open spec fn may_share<N: Numeric, G: GainSource<N>>(source: G, other: G) -> bool {
    call_ensures(G::share, (&source,), other)
}

/// Gains that never change.
pub struct SetGains<N: Numeric> {
    gains: Vec<N::Sample>,
}

impl<N: Numeric> SetGains<N> {
    #[verifier::type_invariant]
    spec fn sound(&self) -> bool {
        self.gains@.len() == EQ_BAND_COUNT
    }

    /// The gains.
    pub closed spec fn view_of(&self) -> Seq<N::Sample> {
        self.gains@
    }

    /// These gains, for good.
    pub fn new(gains: Vec<N::Sample>) -> (source: Self)
        requires
            gains@.len() == EQ_BAND_COUNT,
        ensures
            source.view_of() == gains@,
    {
        SetGains { gains }
    }

    fn copy_of(&self) -> (gains: Vec<N::Sample>)
        ensures
            gains@ == self.view_of(),
            gains@.len() == EQ_BAND_COUNT,
    {
        proof {
            use_type_invariant(self);
        }
        let mut gains: Vec<N::Sample> = Vec::with_capacity(EQ_BAND_COUNT);
        append_copy(&mut gains, self.gains.as_slice());
        assert(gains@ =~= self.gains@);
        gains
    }
}

impl<N: Numeric> GainSource<N> for SetGains<N> {
    fn epoch(&self) -> (epoch: u64)
        ensures
            epoch == 0,
    {
        0
    }

    fn gains(&self) -> (gains: Vec<N::Sample>)
        ensures
            gains@ == self.view_of(),
    {
        self.copy_of()
    }

    fn share(&self) -> (other: Self)
        ensures
            other.view_of() == self.view_of(),
    {
        SetGains { gains: self.copy_of() }
    }
}

/// The equaliser effect. The convolver exists only while there is a device
/// shape to build it for.
pub struct FirEq<N: Voicing, G: GainSource<N>> {
    enabled: bool,
    rate: u32,
    channels: usize,
    params: G,
    /// The epoch of the gains that the kernel in use, or the one that waits,
    /// was designed from.
    design_epoch: Option<u64>,
    backend: Option<StereoConvolver<N>>,
}

/// A convolver for `channels` channels that has heard nothing.
pub open spec fn new_filter<N: Voicing>(
    filter: StereoConvolver<N>,
    channels: usize,
    taps: Seq<N::Sample>,
) -> bool {
    &&& filter.channels() == channels
    &&& filter.taps() == taps
    &&& filter.coming() is None
    &&& filter.frames() == 0
    &&& filter.floor() == 0
    &&& filter.depth() == blocks_for(KERNEL_LEN as nat, BLOCK as nat)
    &&& forall|c: int|
        0 <= c < channels ==> #[trigger] filter.fed(c) == Seq::<N::Sample>::empty()
}

/// Ten gains of nothing.
pub open spec fn flat_gains<N: Numeric>() -> Seq<N::Sample> {
    repeated(N::zero_value(), EQ_BAND_COUNT as nat)
}

/// A kernel that only delays.
fn flat_kernel<N: Voicing>(rate: u32) -> (kernel: Vec<N::Sample>)
    ensures
        kernel@ == designed::<N>(rate, flat_gains::<N>()),
        kernel@.len() == KERNEL_LEN,
{
    let flat: Vec<N::Sample> = filled(N::zero(), EQ_BAND_COUNT);
    design_kernel::<N>(rate, flat.as_slice())
}

/// The impulse response that a convolver uses, or fades over to in the next
/// block.
pub open spec fn heading<N: Voicing>(filter: StereoConvolver<N>) -> Seq<N::Sample> {
    match filter.coming() {
        Some(kernel) => kernel,
        None => filter.taps(),
    }
}

impl<N: Voicing, G: GainSource<N>> FirEq<N, G> {
    /// Whoever holds the gains.
    pub closed spec fn source(&self) -> G {
        self.params
    }

    /// Whether the setting is on.
    pub closed spec fn is_enabled(&self) -> bool {
        self.enabled
    }

    /// The sample rate.
    pub closed spec fn rate(&self) -> u32 {
        self.rate
    }

    /// The channel count.
    pub closed spec fn channels(&self) -> usize {
        self.channels
    }

    /// The epoch of the gains that the kernel follows.
    pub closed spec fn epoch(&self) -> Option<u64> {
        self.design_epoch
    }

    /// The convolver, while there is one.
    pub closed spec fn filter(&self) -> Option<StereoConvolver<N>> {
        self.backend
    }

    /// What holds between calls.
    pub closed spec fn wf(&self) -> bool {
        self.backend matches Some(backend) ==> {
            &&& backend.wf()
            &&& backend.block_size() == BLOCK
            &&& backend.channels() == self.channels
            &&& backend.floor() == 0
            &&& blocks_for(KERNEL_LEN as nat, BLOCK as nat) <= backend.depth()
            &&& self.rate > 0
        }
    }

    /// The convolver of a sound effect is sound, fits the device shape and
    /// remembers all that its kernels reach back to.
    pub proof fn the_filter_is_sound(&self)
        requires
            self.wf(),
        ensures
            self.filter() matches Some(filter) ==> {
                &&& filter.wf()
                &&& filter.block_size() == BLOCK
                &&& filter.channels() == self.channels()
                &&& filter.floor() == 0
                &&& self.rate() > 0
            },
    {
    }

    /// The same setting, device shape and source of gains.
    pub open spec fn set_as(&self, other: Self) -> bool {
        &&& self.source() == other.source()
        &&& self.is_enabled() == other.is_enabled()
        &&& self.rate() == other.rate()
        &&& self.channels() == other.channels()
    }

    /// A disabled effect that knows no device shape yet.
    pub open spec fn newly_off(&self) -> bool {
        &&& !self.is_enabled()
        &&& self.rate() == 0
        &&& self.channels() == 0
        &&& self.epoch() is None
        &&& self.filter() is None
    }

    /// `before` with another setting. Off, the convolver fades over to a flat
    /// kernel; on, it follows no epoch until audio comes by.
    pub open spec fn tuned(&self, before: Self, enabled: bool) -> bool {
        &&& self.is_enabled() == enabled
        &&& self.source() == before.source()
        &&& self.rate() == before.rate()
        &&& self.channels() == before.channels()
        &&& match before.filter() {
            None => self.filter() is None && self.epoch() == before.epoch(),
            Some(filter) => {
                &&& self.epoch() is None
                &&& self.filter() is Some
                &&& if enabled {
                    self.filter()->0 == filter
                } else {
                    self.filter()->0.awaits(
                        filter,
                        designed::<N>(before.rate(), flat_gains::<N>()),
                    )
                }
            },
        }
    }

    /// A fresh build for the device shape, from gains read at `epoch`.
    pub open spec fn built_from(&self, epoch: u64, gains: Seq<N::Sample>) -> bool {
        &&& gains.len() == EQ_BAND_COUNT
        &&& self.epoch() == Some(epoch)
        &&& self.filter() is Some
        &&& new_filter(self.filter()->0, self.channels(), designed::<N>(self.rate(), gains))
    }

    /// A fresh build from the gains that the source gave where there is a device
    /// shape, and none where there is not.
    pub open spec fn built(&self) -> bool {
        if self.is_enabled() && self.rate() > 0 && self.channels() > 0 {
            exists|epoch: u64, gains: Vec<N::Sample>|
                {
                    &&& #[trigger] may_read::<N, G>(self.source(), epoch, gains)
                    &&& self.built_from(epoch, gains@)
                }
        } else {
            self.filter() is None && self.epoch() is None
        }
    }

    /// A disabled effect that follows `params`.
    pub fn new(params: G) -> (effect: Self)
        ensures
            effect.wf(),
            effect.newly_off(),
            effect.source() == params,
    {
        FirEq {
            enabled: false,
            rate: 0,
            channels: 0,
            params,
            design_epoch: None,
            backend: None,
        }
    }

    /// Changes the setting. Disabling fades over to a flat kernel, which only
    /// delays, until the next reset retires the effect; enabling follows the
    /// gains from the next audio on.
    pub fn set(&mut self, enabled: bool)
        requires
            old(self).wf(),
        ensures
            final(self).wf(),
            final(self).tuned(*old(self), enabled),
    {
        self.enabled = enabled;
        let rate: u32 = self.rate;
        match &mut self.backend {
            Some(backend) => {
                if !enabled {
                    let kernel: Vec<N::Sample> = flat_kernel::<N>(rate);
                    backend.set_kernel(kernel.as_slice());
                }
                self.design_epoch = None;
            },
            None => {},
        }
    }

    /// Whether the effect is on.
    pub fn enabled(&self) -> (enabled: bool)
        ensures
            enabled == self.is_enabled(),
    {
        self.enabled
    }

    /// The delay at a device rate, in parts of [`UNITY`] of a second.
    pub open spec fn latency_at(&self, rate: u32) -> u64 {
        if self.is_enabled() && rate > 0 {
            (LATENCY_FRAMES as nat * UNITY as nat / rate as nat) as u64
        } else {
            0
        }
    }

    /// The constant delay that the effect adds while enabled, in parts of
    /// [`UNITY`] of a second, rounded down; zero while off.
    pub fn latency_secs(&self, rate: u32) -> (latency: u64)
        ensures
            latency == self.latency_at(rate),
    {
        if self.enabled && rate > 0 {
            LATENCY_FRAMES as u64 * UNITY / rate as u64
        } else {
            0
        }
    }

    /// Whether audio that comes by while the gains are at `epoch` calls for a
    /// new kernel.
    pub open spec fn outdated(&self, epoch: u64) -> bool {
        self.filter() is Some && self.is_enabled() && self.epoch() != Some(epoch)
    }

    /// What following `gains`, read at `epoch`, makes of `before`: where they are
    /// new to it, it fades over to a kernel for them; else it stays.
    pub open spec fn followed(&self, before: Self, epoch: u64, gains: Seq<N::Sample>) -> bool {
        &&& self.set_as(before)
        &&& if before.outdated(epoch) {
            &&& self.epoch() == Some(epoch)
            &&& self.filter() is Some
            &&& self.filter()->0.awaits(before.filter()->0, designed::<N>(before.rate(), gains))
        } else {
            &&& self.epoch() == before.epoch()
            &&& self.filter() == before.filter()
        }
    }

    /// Fades over to a kernel for `gains`, read at `epoch`, unless the effect is
    /// off or the kernel is already that of `epoch`.
    pub fn follow(&mut self, epoch: u64, gains: &[N::Sample])
        requires
            old(self).wf(),
            gains@.len() == EQ_BAND_COUNT,
        ensures
            final(self).wf(),
            final(self).followed(*old(self), epoch, gains@),
    {
        let current: bool = match self.design_epoch {
            Some(known) => known == epoch,
            None => false,
        };
        if current || !self.enabled {
            return ;
        }
        let rate: u32 = self.rate;
        match &mut self.backend {
            Some(backend) => {
                let kernel: Vec<N::Sample> = design_kernel::<N>(rate, gains);
                backend.set_kernel(kernel.as_slice());
                self.design_epoch = Some(epoch);
            },
            None => {},
        }
    }

    /// Builds a convolver for `gains`, read at `epoch`, and the device shape.
    pub fn build_from(&mut self, epoch: u64, gains: &[N::Sample])
        requires
            old(self).wf(),
            old(self).rate() > 0,
            old(self).channels() > 0,
            gains@.len() == EQ_BAND_COUNT,
        ensures
            final(self).wf(),
            final(self).set_as(*old(self)),
            final(self).built_from(epoch, gains@),
    {
        let kernel: Vec<N::Sample> = design_kernel::<N>(self.rate, gains);
        self.backend = Some(
            StereoConvolver::remembering(kernel.as_slice(), BLOCK, self.channels, KERNEL_LEN),
        );
        self.design_epoch = Some(epoch);
    }

    /// A build from the gains as they are now, where there is a device shape.
    fn build_backend(&mut self)
        requires
            old(self).wf(),
            old(self).filter() is None,
            old(self).epoch() is None,
        ensures
            final(self).wf(),
            final(self).set_as(*old(self)),
            final(self).built(),
    {
        if self.enabled && self.rate > 0 && self.channels > 0 {
            let epoch: u64 = self.params.epoch();
            let gains: Vec<N::Sample> = self.params.gains();
            self.build_from(epoch, gains.as_slice());
            assert(may_read::<N, G>(self.source(), epoch, gains));
        }
    }

    /// `after` is `before` with the kernel brought up to date: an effect that is
    /// on has followed the epoch and gains that its source gave.
    pub open spec fn brought_up_to_date(before: Self, after: Self) -> bool {
        if before.is_enabled() {
            exists|epoch: u64, gains: Vec<N::Sample>|
                {
                    &&& #[trigger] may_read::<N, G>(before.source(), epoch, gains)
                    &&& after.followed(before, epoch, gains@)
                }
        } else {
            &&& after.set_as(before)
            &&& after.epoch() == before.epoch()
            &&& after.filter() == before.filter()
        }
    }

    /// Where the kernel is known to be that of `epoch`, it is the one for
    /// `gains`.
    pub open spec fn tracks(&self, epoch: u64, gains: Seq<N::Sample>) -> bool {
        self.epoch() == Some(epoch) && self.filter() is Some ==> heading(self.filter()->0)
            == designed::<N>(self.rate(), gains)
    }
}

impl<N: Voicing, G: GainSource<N>> Effect for FirEq<N, G> {
    type Sample = N::Sample;

    open spec fn inv(&self) -> bool {
        self.wf()
    }

    open spec fn label(&self) -> Seq<char> {
        "fir-eq"@
    }

    /// It may stand in a chain any number of times.
    open spec fn place(&self) -> Option<int> {
        None
    }

    open spec fn active(&self) -> bool {
        self.is_enabled() || self.filter() is Some
    }

    /// A convolver at hand always delays, so it is never skipped.
    open spec fn bypassed(&self) -> bool {
        self.filter() is None
    }

    open spec fn ratio(&self) -> nat {
        UNITY as nat
    }

    /// The group delay, and the input that waits for the rest of its block.
    open spec fn pending(&self) -> nat {
        match self.filter() {
            Some(filter) => LATENCY_FRAMES as nat + filter.frames() % (BLOCK as nat),
            None => 0,
        }
    }

    open spec fn fits(&self, rate: u32, channels: usize) -> bool {
        &&& self.rate() == rate
        &&& self.channels() == channels
        &&& self.filter() is Some || !self.is_enabled()
    }

    open spec fn processed(
        before: Self,
        input: Seq<N::Sample>,
        after: Self,
        output: Seq<N::Sample>,
        result: Result<(), Seq<char>>,
    ) -> bool {
        &&& result is Ok
        &&& after.set_as(before)
        &&& match before.filter() {
            None => {
                &&& after.filter() is None
                &&& after.epoch() == before.epoch()
                &&& output == input
            },
            Some(_) => exists|between: Self|
                {
                    &&& #[trigger] FirEq::brought_up_to_date(before, between)
                    &&& between.wf()
                    &&& after.filter() is Some
                    &&& after.epoch() == between.epoch()
                    &&& after.filter()->0.took(between.filter()->0, input)
                    &&& output == stereo_out(between.filter()->0, after.filter()->0)
                },
        }
    }

    /// A kernel that waited is dropped, and its epoch with it, so that audio
    /// still to come follows the gains again. An effect that is off goes on
    /// fading over to the flat kernel.
    open spec fn flushed(
        before: Self,
        after: Self,
        output: Seq<N::Sample>,
        result: Result<(), Seq<char>>,
    ) -> bool {
        &&& result is Ok
        &&& after.set_as(before)
        &&& match before.filter() {
            None => {
                &&& after.filter() is None
                &&& after.epoch() == before.epoch()
                &&& output == Seq::<N::Sample>::empty()
            },
            Some(filter) => {
                &&& after.filter() is Some
                &&& after.epoch() == if filter.coming() is Some {
                    None
                } else {
                    before.epoch()
                }
                &&& if filter.coming() is Some && !before.is_enabled() {
                    exists|fresh: StereoConvolver<N>|
                        {
                            &&& #[trigger] fresh.fresh_after(filter)
                            &&& after.filter()->0.awaits(
                                fresh,
                                designed::<N>(before.rate(), flat_gains::<N>()),
                            )
                        }
                } else {
                    after.filter()->0.fresh_after(filter)
                }
                &&& output == stereo_tail(filter)
            },
        }
    }

    /// A kernel that waited is dropped, and its epoch with it, so that audio
    /// still to come follows the gains again.
    open spec fn restarted(before: Self, after: Self) -> bool {
        &&& after.set_as(before)
        &&& match before.filter() {
            Some(filter) if before.is_enabled() => {
                &&& after.filter() is Some
                &&& after.filter()->0.fresh_after(filter)
                &&& after.epoch() == if filter.coming() is Some {
                    None
                } else {
                    before.epoch()
                }
            },
            _ => after.filter() is None && after.epoch() == before.epoch(),
        }
    }

    open spec fn rebuilt(
        before: Self,
        rate: u32,
        channels: usize,
        after: Self,
        result: Result<(), Seq<char>>,
    ) -> bool {
        &&& result is Ok
        &&& after.is_enabled() == before.is_enabled()
        &&& after.source() == before.source()
        &&& after.rate() == rate
        &&& after.channels() == channels
        &&& after.built()
    }

    open spec fn mirrored(effect: Self, mirror: Self) -> bool {
        &&& mirror.is_enabled() == effect.is_enabled()
        &&& mirror.rate() == effect.rate()
        &&& mirror.channels() == effect.channels()
        &&& may_share::<N, G>(effect.source(), mirror.source())
        &&& mirror.built()
    }

    fn name(&self) -> (name: &'static str) {
        "fir-eq"
    }

    fn is_active(&self) -> (active: bool) {
        self.enabled || self.backend.is_some()
    }

    fn is_bypassed(&self) -> (bypassed: bool) {
        self.backend.is_none()
    }

    fn process(&mut self, input: &[N::Sample], output: &mut Vec<N::Sample>) -> (result: Result<
        (),
        String,
    >) {
        let ghost begun = output@;
        let ghost before = *self;
        if self.backend.is_none() {
            append_copy(output, input);
            assert(output@.skip(begun.len() as int) =~= input@);
            return Ok(());
        }
        if self.enabled {
            let epoch: u64 = self.params.epoch();
            let gains: Vec<N::Sample> = self.params.gains();
            self.follow(epoch, gains.as_slice());
            assert(may_read::<N, G>(before.source(), epoch, gains));
        }
        let ghost between = *self;
        assert(FirEq::brought_up_to_date(before, between));
        match &mut self.backend {
            Some(backend) => {
                backend.process(input, output);
            },
            None => {},
        }
        proof {
            assert(output@.skip(begun.len() as int) =~= stereo_out(
                between.filter()->0,
                self.filter()->0,
            ));
        }
        Ok(())
    }

    fn drain(&mut self, output: &mut Vec<N::Sample>) -> (result: Result<(), String>) {
        let ghost begun = output@;
        let rate: u32 = self.rate;
        match &mut self.backend {
            Some(backend) => {
                let waited: bool = backend.exchanging();
                backend.drain(output);
                if waited {
                    self.design_epoch = None;
                    if !self.enabled {
                        let kernel: Vec<N::Sample> = flat_kernel::<N>(rate);
                        backend.set_kernel(kernel.as_slice());
                    }
                }
            },
            None => {},
        }
        proof {
            let n = begun.len() as int;
            match old(self).filter() {
                None => {
                    assert(output@.skip(n) =~= Seq::<N::Sample>::empty());
                },
                Some(filter) => {
                    assert(output@.skip(n) =~= stereo_tail(filter));
                },
            }
        }
        Ok(())
    }

    fn reset(&mut self) {
        if !self.enabled {
            self.backend = None;
            return ;
        }
        match &mut self.backend {
            Some(backend) => {
                if backend.exchanging() {
                    self.design_epoch = None;
                }
                backend.reset();
            },
            None => {},
        }
    }

    fn time_ratio(&self) -> (ratio: u64) {
        UNITY
    }

    fn pending_output_frames(&self) -> (frames: u64) {
        match &self.backend {
            Some(backend) => {
                let staged: usize = backend.staged_frames();
                LATENCY_FRAMES as u64 + staged as u64
            },
            None => 0,
        }
    }

    fn matches(&self, rate: u32, channels: usize) -> (fits: bool) {
        self.rate == rate && self.channels == channels && (self.backend.is_some() || !self.enabled)
    }

    fn reconfigure(&mut self, rate: u32, channels: usize) -> (result: Result<(), String>) {
        self.rate = rate;
        self.channels = channels;
        self.backend = None;
        self.design_epoch = None;
        self.build_backend();
        Ok(())
    }

    fn spawn_mirror(&self) -> (mirror: Self) {
        let mut mirror = FirEq {
            enabled: self.enabled,
            rate: self.rate,
            channels: self.channels,
            params: self.params.share(),
            design_epoch: None,
            backend: None,
        };
        mirror.build_backend();
        mirror
    }
}

/// Beyond the outermost band centres the gain stays what it is there.
pub proof fn the_gain_is_level_outside_the_bands<N: Voicing>(
    num: nat,
    den: nat,
    gains: Seq<N::Sample>,
)
    requires
        den > 0,
        gains.len() == EQ_BAND_COUNT,
    ensures
        num <= 32 * den ==> gain_db::<N>(num, den, gains) == gains[0],
        num >= 16000 * den ==> gain_db::<N>(num, den, gains) == gains[9],
{
    if num <= 32 * den && num >= 16000 * den {
        assert(32 * den < 16000 * den);
    }
}

/// Ten equal gains give that gain at every frequency.
pub proof fn equal_gains_are_level<N: Voicing + Exact>(num: nat, den: nat, gain: N::Sample)
    ensures
        gain_db::<N>(num, den, repeated(gain, EQ_BAND_COUNT as nat)) == gain,
{
    let gains = repeated(gain, EQ_BAND_COUNT as nat);
    lemma_band_in_range(num, den, 0);
    let band = band_below(num, den, 0) as int;
    let share = N::log_share_value(num, den, center_hz(band), center_hz(band + 1));
    N::equals_cancel(gain);
    N::zero_absorbs(share);
    N::zero_is_neutral(gain);
}

proof fn lemma_band_in_range(num: nat, den: nat, band: nat)
    requires
        band <= EQ_BAND_COUNT - 2,
    ensures
        band_below(num, den, band) <= EQ_BAND_COUNT - 2,
    decreases EQ_BAND_COUNT - band,
{
    if band < EQ_BAND_COUNT - 2 && num > center_hz(band as int + 1) * den {
        lemma_band_in_range(num, den, band + 1);
    }
}

/// The frequency lies between the centres of the band found and of the next.
pub proof fn the_band_found_surrounds_the_frequency(num: nat, den: nat)
    requires
        center_hz(0) * den < num < center_hz(9) * den,
    ensures
        ({
            let band = band_below(num, den, 0) as int;
            &&& 0 <= band <= 8
            &&& center_hz(band) * den < num <= center_hz(band + 1) * den
        }),
{
    lemma_band_surrounds(num, den, 0);
}

proof fn lemma_band_surrounds(num: nat, den: nat, band: nat)
    requires
        band <= 8,
        center_hz(band as int) * den < num < center_hz(9) * den,
    ensures
        band_below(num, den, band) <= 8,
        center_hz(band_below(num, den, band) as int) * den < num <= center_hz(
            band_below(num, den, band) as int + 1,
        ) * den,
    decreases 9 - band,
{
    if band < 8 && num > center_hz(band as int + 1) * den {
        lemma_band_surrounds(num, den, band + 1);
    }
}

/// Audio that goes by brings the kernel to the gains that were read: from then
/// on it is the one for them, or fades over to it.
pub proof fn following_tracks_the_gains<N: Voicing, G: GainSource<N>>(
    before: FirEq<N, G>,
    epoch: u64,
    gains: Seq<N::Sample>,
    after: FirEq<N, G>,
)
    requires
        before.tracks(epoch, gains),
        after.followed(before, epoch, gains),
    ensures
        after.tracks(epoch, gains),
        before.is_enabled() && before.filter() is Some ==> {
            &&& after.epoch() == Some(epoch)
            &&& heading(after.filter()->0) == designed::<N>(after.rate(), gains)
        },
{
}

/// What comes out of an effect whose kernel is the one for `gains` is, frame by
/// frame, the audio convolved with that kernel; where the kernel still waited,
/// past the one block that fades over to it.
pub proof fn the_output_is_that_of_the_gains<N: Voicing + Convolving, G: GainSource<N>>(
    before: FirEq<N, G>,
    gains: Seq<N::Sample>,
    input: Seq<N::Sample>,
    after: StereoConvolver<N>,
    c: int,
    t: int,
)
    requires
        before.wf(),
        before.filter() is Some,
        heading(before.filter()->0) == designed::<N>(before.rate(), gains),
        after.took(before.filter()->0, input),
        0 <= c < before.channels(),
        before.filter()->0.frames() / BLOCK as nat * BLOCK as nat <= t < after.frames()
            / BLOCK as nat * BLOCK as nat,
        before.filter()->0.coming() is Some ==> t >= (before.filter()->0.frames() / BLOCK as nat
            + 1) * BLOCK as nat,
    ensures
        channel_of(
            stereo_out(before.filter()->0, after),
            before.channels() as nat,
            c,
        )[t - before.filter()->0.frames() / BLOCK as nat * BLOCK as nat] == convolved::<N>(
            designed::<N>(before.rate(), gains),
            after.fed(c),
            t,
            designed::<N>(before.rate(), gains).len(),
        ),
{
    before.the_filter_is_sound();
    let filter = before.filter()->0;
    output_follows_the_kernel(filter, input, after, c, t);
    let from = filter.frames() / BLOCK as nat;
    let to = after.frames() / BLOCK as nat;
    assert(from < to) by (nonlinear_arith)
        requires
            from * (BLOCK as nat) < to * (BLOCK as nat),
    ;
}

/// Audio that goes by while the effect is on comes out convolved with the
/// kernel for the gains that were read, past the first block, which may fade
/// over to it. `read` is the epoch and the gains that the source gave.
pub proof fn processed_audio_follows_the_gains<N: Voicing + Convolving, G: GainSource<N>>(
    before: FirEq<N, G>,
    input: Seq<N::Sample>,
    after: FirEq<N, G>,
    output: Seq<N::Sample>,
) -> (read: (u64, Vec<N::Sample>))
    requires
        before.wf(),
        before.is_enabled(),
        before.filter() is Some,
        FirEq::<N, G>::processed(before, input, after, output, Ok(())),
    ensures
        may_read::<N, G>(before.source(), read.0, read.1),
        after.epoch() == Some(read.0),
        after.filter() is Some,
        before.tracks(read.0, read.1@) ==> forall|c: int, t: int|
            0 <= c < before.channels() && (before.filter()->0.frames() / BLOCK as nat + 1)
                * BLOCK as nat <= t < after.filter()->0.frames() / BLOCK as nat * BLOCK as nat
                ==> channel_of(output, before.channels() as nat, c)[t
                - before.filter()->0.frames() / BLOCK as nat * BLOCK as nat]
                == #[trigger] convolved::<N>(
                designed::<N>(before.rate(), read.1@),
                after.filter()->0.fed(c),
                t,
                designed::<N>(before.rate(), read.1@).len(),
            ),
{
    let between = choose|between: FirEq<N, G>|
        {
            &&& #[trigger] FirEq::brought_up_to_date(before, between)
            &&& between.wf()
            &&& after.filter() is Some
            &&& after.epoch() == between.epoch()
            &&& after.filter()->0.took(between.filter()->0, input)
            &&& output == stereo_out(between.filter()->0, after.filter()->0)
        };
    let (epoch, gains) = choose|epoch: u64, gains: Vec<N::Sample>|
        {
            &&& #[trigger] may_read::<N, G>(before.source(), epoch, gains)
            &&& between.followed(before, epoch, gains@)
        };
    if before.tracks(epoch, gains@) {
        following_tracks_the_gains(before, epoch, gains@, between);
        let from = before.filter()->0.frames() / BLOCK as nat;
        assert(between.filter()->0.frames() == before.filter()->0.frames());
        assert forall|c: int, t: int|
            0 <= c < before.channels() && (from + 1) * BLOCK as nat <= t
                < after.filter()->0.frames() / BLOCK as nat * BLOCK as nat implies channel_of(
            output,
            before.channels() as nat,
            c,
        )[t - from * BLOCK as nat] == #[trigger] convolved::<N>(
            designed::<N>(before.rate(), gains@),
            after.filter()->0.fed(c),
            t,
            designed::<N>(before.rate(), gains@).len(),
        ) by {
            the_output_is_that_of_the_gains(
                between,
                gains@,
                input,
                after.filter()->0,
                c,
                t,
            );
        }
    }
    (epoch, gains)
}

/// Neither a reset nor a drain leaves the kernel behind the gains that its
/// epoch stands for: where a kernel that waited was dropped, the epoch is
/// forgotten, and the next audio asks for a new one.
pub proof fn a_new_stream_tracks_the_gains<N: Voicing, G: GainSource<N>>(
    before: FirEq<N, G>,
    after: FirEq<N, G>,
    output: Seq<N::Sample>,
    epoch: u64,
    gains: Seq<N::Sample>,
)
    requires
        before.tracks(epoch, gains),
        FirEq::<N, G>::restarted(before, after) || FirEq::<N, G>::flushed(
            before,
            after,
            output,
            Ok(()),
        ),
    ensures
        after.tracks(epoch, gains),
        before.filter() matches Some(filter) && filter.coming() is Some && before.is_enabled()
            ==> after.outdated(epoch),
{
}

/// Gains that never change are the ones that the kernel is built from and
/// follows.
pub proof fn set_gains_are_followed<N: Voicing>(
    source: SetGains<N>,
    epoch: u64,
    gains: Vec<N::Sample>,
)
    requires
        may_read::<N, SetGains<N>>(source, epoch, gains),
    ensures
        epoch == 0,
        gains@ == source.view_of(),
{
}

/// A reset retires a disabled equaliser: it holds nothing and drops out.
pub proof fn a_reset_retires_a_disabled_effect<N: Voicing, G: GainSource<N>>(
    before: FirEq<N, G>,
    after: FirEq<N, G>,
)
    requires
        !before.is_enabled(),
        FirEq::<N, G>::restarted(before, after),
    ensures
        !after.active(),
        after.bypassed(),
{
}

} // verus!
