//! Wet and dry: how loud the two are at every mix.
use vstd::prelude::*;

use crate::chain::UNITY;
use crate::convolution::{blended_lane, taps_for, Room, BLOCK};
use crate::curves::{arc, lemma_octant_point, lemma_sought, octant_point, quarter_angle, OCTANT};
use crate::frames::channel_of;
use crate::numeric::{lemma_first_quarter, Exact, Fixed, Numeric};
use crate::numeric::{FIXED_ONE, ROUNDNESS};
use crate::spectral::stream;
use crate::transform::Spectral;

verus! {

/// How loud a dry sample of one comes out at `mix`, with nothing wet.
pub open spec fn dry_heard(mix: u64) -> i64 {
    blended_lane::<Fixed>(seq![FIXED_ONE], seq![0i64], mix)[0]
}

/// How loud a wet sample of one comes out at `mix`, with nothing dry.
pub open spec fn wet_heard(mix: u64) -> i64 {
    blended_lane::<Fixed>(seq![0i64], seq![FIXED_ONE], mix)[0]
}

proof fn lemma_heard(mix: u64)
    requires
        mix <= UNITY,
    ensures
        dry_heard(mix) == octant_point(mix as int).0,
        wet_heard(mix) == octant_point(mix as int).1,
        0 <= dry_heard(mix) <= FIXED_ONE,
        0 <= wet_heard(mix) <= FIXED_ONE,
{
    lemma_first_quarter(mix as nat, UNITY as nat);
    lemma_octant_point(mix as int, mix as int);
    let (dry, wet) = Fixed::circle_point(mix as nat, 4 * UNITY as nat);
    assert(mix * FIXED_ONE / UNITY as int == mix);
    assert(dry * FIXED_ONE / (FIXED_ONE as int) == dry && wet * FIXED_ONE / (FIXED_ONE as int)
        == wet);
    assert(dry * 0 == 0 && wet * 0 == 0);
}

/// From dry to wet the dry signal falls and the wet one rises, all the way; at
/// the ends only one of them is heard, and half way both are equally loud.
pub proof fn more_mix_is_more_wet_and_less_dry(less: u64, more: u64)
    requires
        less <= more <= UNITY,
    ensures
        dry_heard(more) <= dry_heard(less),
        wet_heard(less) <= wet_heard(more),
        dry_heard(0) == FIXED_ONE && wet_heard(0) == 0,
        dry_heard(UNITY) == 0 && wet_heard(UNITY) == FIXED_ONE,
        2 * less <= UNITY ==> wet_heard(less) <= dry_heard(less),
        2 * less == UNITY ==> wet_heard(less) == dry_heard(less),
{
    lemma_heard(less);
    lemma_heard(more);
    lemma_heard(0);
    lemma_heard(UNITY);
    lemma_octant_point(less as int, more as int);
    lemma_octant_point(0, UNITY as int);
}

/// What the mix takes from the one it gives to the other: the dry signal is as
/// loud at any mix as the wet one is that far from fully wet, and their powers
/// add up to one.
pub proof fn dry_and_wet_trade_places(mix: u64)
    requires
        mix <= UNITY,
    ensures
        dry_heard(mix) == wet_heard((UNITY - mix) as u64),
        wet_heard(mix) == dry_heard((UNITY - mix) as u64),
        -ROUNDNESS <= dry_heard(mix) * dry_heard(mix) + wet_heard(mix) * wet_heard(mix) - FIXED_ONE
            * FIXED_ONE <= ROUNDNESS,
{
    lemma_heard(mix);
    lemma_heard((UNITY - mix) as u64);
    lemma_octant_point(mix as int, mix as int);
}

/// The two are the cosine and the sine of the mix, taken as a part of a quarter
/// turn: up to half way, the angle of the point that they make is not past the
/// mix, and with the next greater wet signal it would be. So no two mixes are as
/// loud that have the angle of a signal between them.
pub proof fn the_mix_is_the_angle(mix: u64)
    requires
        0 < mix,
        2 * mix < UNITY,
    ensures
        ({
            let (dry, wet) = (dry_heard(mix) as int, wet_heard(mix) as int);
            &&& wet == 0 || quarter_angle(dry, wet) <= mix
            &&& wet == OCTANT || arc(wet + 1) > mix
        }),
{
    lemma_heard(mix);
    lemma_sought(mix as int, 0, OCTANT + 1);
}

/// What comes out at a mix is the dry sample and the wet one, each as loud as it
/// is heard alone, added up.
pub proof fn a_mix_is_dry_and_wet_added_up(dry: Seq<i64>, wet: Seq<i64>, mix: u64, i: int)
    requires
        mix <= UNITY,
        0 <= i < wet.len(),
    ensures
        blended_lane::<Fixed>(dry, wet, mix).len() == wet.len(),
        blended_lane::<Fixed>(dry, wet, mix)[i] == Fixed::sum(
            Fixed::product(
                dry_heard(mix),
                if i < dry.len() {
                    dry[i]
                } else {
                    0
                },
            ),
            Fixed::product(wet_heard(mix), wet[i]),
        ),
{
    lemma_heard(mix);
    lemma_first_quarter(mix as nat, UNITY as nat);
    assert(mix * FIXED_ONE / UNITY as int == mix);
}

/// Every channel is mixed on its own: at frame `i` of what comes out, channel `c`
/// has the sample of channel `c` that went in at that frame as its dry part, and
/// the convolution of channel `c` with its own response as its wet part. A
/// response with fewer channels than the audio lends its last to the rest.
pub proof fn each_channel_is_mixed_on_its_own(
    room: Room<Fixed>,
    input: Seq<i64>,
    mix: u64,
    c: int,
    i: int,
)
    requires
        mix <= UNITY,
        room.kernels.len() > 0,
        0 <= c < room.fed.len(),
        0 <= i,
        (i + 1) * room.fed.len() <= room.output(input, mix).len(),
        room.lane(input, mix, c).len() >= room.blocks(input) * BLOCK,
    ensures
        ({
            let ch = room.fed.len();
            let response = room.kernels[if c < room.kernels.len() {
                c
            } else {
                room.kernels.len() - 1
            }];
            let before = room.fed[c];
            let heard = before + Seq::new(
                room.blocks(input) * BLOCK as nat,
                |k: int| (room.staged + input)[k * ch + c],
            );
            let wet = stream::<Fixed>(
                response,
                heard,
                0,
                BLOCK as nat,
                before.len() / BLOCK as nat,
                heard.len() / BLOCK as nat,
            );
            room.output(input, mix)[i * ch + c] == Fixed::sum(
                Fixed::product(dry_heard(mix), (room.staged + input)[i * ch + c]),
                Fixed::product(wet_heard(mix), wet[i]),
            )
        }),
{
    let ch = room.fed.len();
    let all = room.staged + input;
    let blocks = room.blocks(input);
    let front = room.front(input);
    let len = blocks * BLOCK as nat;
    vstd::arithmetic::div_mod::lemma_fundamental_div_mod(all.len() as int, ch as int);
    let frames = all.len() / ch;
    assert(len <= frames);
    assert(blocks * BLOCK * ch == len * ch);
    assert(len * ch <= all.len()) by (nonlinear_arith)
        requires
            len <= frames,
            ch * frames <= all.len(),
    ;
    vstd::arithmetic::div_mod::lemma_fundamental_div_mod_converse(
        (len * ch) as int,
        ch as int,
        len as int,
        0,
    );
    assert(front.len() == len * ch && front.len() / ch == len);
    let dry = channel_of(front, ch, c);
    let explicit = Seq::new(len, |k: int| all[k * ch + c]);
    assert forall|k: int| 0 <= k < len implies dry[k] == explicit[k] by {
        assert(0 <= k * ch + c < len * ch) by (nonlinear_arith)
            requires
                0 <= k < len,
                0 <= c < ch,
        ;
    }
    assert(dry =~= explicit);
    assert(i < len) by (nonlinear_arith)
        requires
            (i + 1) * ch <= len * ch,
            ch > 0,
    ;
    vstd::arithmetic::div_mod::lemma_fundamental_div_mod_converse(i * ch + c, ch as int, i, c);
    assert(0 <= i * ch + c < len * ch) by (nonlinear_arith)
        requires
            0 <= i < len,
            0 <= c < ch,
    ;
    let lanes = Seq::new(ch, |c: int| room.lane(input, mix, c));
    assert(room.output(input, mix)[i * ch + c] == lanes[c][i]);
    let before = room.fed[c];
    let heard = before + explicit;
    assert(room.given(input).fed[c] == heard);
    let wet = stream::<Fixed>(
        taps_for(room.kernels, c),
        heard,
        0,
        BLOCK as nat,
        before.len() / BLOCK as nat,
        heard.len() / BLOCK as nat,
    );
    assert(lanes[c] == blended_lane::<Fixed>(dry, wet, mix));
    a_mix_is_dry_and_wet_added_up(dry, wet, mix, i);
}

} // verus!
