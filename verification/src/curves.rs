//! The curves of fixed point: powers and logarithms of two, and the circle.
//!
//! All of them go bit by bit. A power of two is a product of roots of two, each
//! the square root of the one before; a logarithm is read off by squaring; a
//! point of the circle is reached by turning through halves of a quarter turn,
//! and an angle is measured by turning back. Numbers have thirty-two bits behind
//! the point.
use vstd::prelude::*;

use crate::numeric::{cut_divide, cut_quotient, integer_root, integer_root_of, is_integer_root};
use crate::numeric::{lemma_integer_root_exists, lemma_integer_root_unique, FIXED_ONE};

verus! {

/// Two to the power of `1 / 2^k`: two, and from there on the square root of the
/// one before.
pub open spec fn octave_root(k: nat) -> int
    decreases k,
{
    if k == 0 {
        2 * FIXED_ONE
    } else {
        integer_root(octave_root((k - 1) as nat) * FIXED_ONE)
    }
}

/// The cosine and the sine of a quarter turn, halved `k` times.
pub open spec fn half_angle(k: nat) -> (int, int)
    decreases k,
{
    if k == 0 {
        (0, FIXED_ONE as int)
    } else {
        let (c, s) = half_angle((k - 1) as nat);
        let halved = integer_root((FIXED_ONE + c) * FIXED_ONE / 2);
        (halved, s * FIXED_ONE / (2 * halved))
    }
}

proof fn lemma_octave_roots()
    ensures
        octave_root(0) == 0x2_0000_0000,
        octave_root(1) == 0x1_6a09_e667,
        octave_root(2) == 0x1_306f_e0a2,
        octave_root(3) == 0x1_172b_83c7,
        octave_root(4) == 0x1_0b55_86cf,
        octave_root(5) == 0x1_059b_0d31,
        octave_root(6) == 0x1_02c9_a3e7,
        octave_root(7) == 0x1_0163_da9f,
        octave_root(8) == 0x1_00b1_afa5,
        octave_root(9) == 0x1_0058_c86d,
        octave_root(10) == 0x1_002c_605d,
        octave_root(11) == 0x1_0016_2f38,
        octave_root(12) == 0x1_000b_175e,
        octave_root(13) == 0x1_0005_8b9f,
        octave_root(14) == 0x1_0002_c5cb,
        octave_root(15) == 0x1_0001_62e4,
        octave_root(16) == 0x1_0000_b171,
        octave_root(17) == 0x1_0000_58b8,
        octave_root(18) == 0x1_0000_2c5b,
        octave_root(19) == 0x1_0000_162d,
        octave_root(20) == 0x1_0000_0b16,
        octave_root(21) == 0x1_0000_058a,
        octave_root(22) == 0x1_0000_02c4,
        octave_root(23) == 0x1_0000_0161,
        octave_root(24) == 0x1_0000_00b0,
        octave_root(25) == 0x1_0000_0057,
        octave_root(26) == 0x1_0000_002b,
        octave_root(27) == 0x1_0000_0015,
        octave_root(28) == 0x1_0000_000a,
        octave_root(29) == 0x1_0000_0004,
        octave_root(30) == 0x1_0000_0001,
        octave_root(31) == 0x1_0000_0000,
        octave_root(32) == 0x1_0000_0000,
{
    assert(octave_root(0) == 0x2_0000_0000);
    assert(is_integer_root(0x2_0000_0000 * FIXED_ONE, 0x1_6a09_e667));
    lemma_integer_root_unique(0x2_0000_0000 * FIXED_ONE, 0x1_6a09_e667);
    assert(octave_root(1) == 0x1_6a09_e667);
    assert(is_integer_root(0x1_6a09_e667 * FIXED_ONE, 0x1_306f_e0a2));
    lemma_integer_root_unique(0x1_6a09_e667 * FIXED_ONE, 0x1_306f_e0a2);
    assert(octave_root(2) == 0x1_306f_e0a2);
    assert(is_integer_root(0x1_306f_e0a2 * FIXED_ONE, 0x1_172b_83c7));
    lemma_integer_root_unique(0x1_306f_e0a2 * FIXED_ONE, 0x1_172b_83c7);
    assert(octave_root(3) == 0x1_172b_83c7);
    assert(is_integer_root(0x1_172b_83c7 * FIXED_ONE, 0x1_0b55_86cf));
    lemma_integer_root_unique(0x1_172b_83c7 * FIXED_ONE, 0x1_0b55_86cf);
    assert(octave_root(4) == 0x1_0b55_86cf);
    assert(is_integer_root(0x1_0b55_86cf * FIXED_ONE, 0x1_059b_0d31));
    lemma_integer_root_unique(0x1_0b55_86cf * FIXED_ONE, 0x1_059b_0d31);
    assert(octave_root(5) == 0x1_059b_0d31);
    assert(is_integer_root(0x1_059b_0d31 * FIXED_ONE, 0x1_02c9_a3e7));
    lemma_integer_root_unique(0x1_059b_0d31 * FIXED_ONE, 0x1_02c9_a3e7);
    assert(octave_root(6) == 0x1_02c9_a3e7);
    assert(is_integer_root(0x1_02c9_a3e7 * FIXED_ONE, 0x1_0163_da9f));
    lemma_integer_root_unique(0x1_02c9_a3e7 * FIXED_ONE, 0x1_0163_da9f);
    assert(octave_root(7) == 0x1_0163_da9f);
    assert(is_integer_root(0x1_0163_da9f * FIXED_ONE, 0x1_00b1_afa5));
    lemma_integer_root_unique(0x1_0163_da9f * FIXED_ONE, 0x1_00b1_afa5);
    assert(octave_root(8) == 0x1_00b1_afa5);
    assert(is_integer_root(0x1_00b1_afa5 * FIXED_ONE, 0x1_0058_c86d));
    lemma_integer_root_unique(0x1_00b1_afa5 * FIXED_ONE, 0x1_0058_c86d);
    assert(octave_root(9) == 0x1_0058_c86d);
    assert(is_integer_root(0x1_0058_c86d * FIXED_ONE, 0x1_002c_605d));
    lemma_integer_root_unique(0x1_0058_c86d * FIXED_ONE, 0x1_002c_605d);
    assert(octave_root(10) == 0x1_002c_605d);
    assert(is_integer_root(0x1_002c_605d * FIXED_ONE, 0x1_0016_2f38));
    lemma_integer_root_unique(0x1_002c_605d * FIXED_ONE, 0x1_0016_2f38);
    assert(octave_root(11) == 0x1_0016_2f38);
    assert(is_integer_root(0x1_0016_2f38 * FIXED_ONE, 0x1_000b_175e));
    lemma_integer_root_unique(0x1_0016_2f38 * FIXED_ONE, 0x1_000b_175e);
    assert(octave_root(12) == 0x1_000b_175e);
    assert(is_integer_root(0x1_000b_175e * FIXED_ONE, 0x1_0005_8b9f));
    lemma_integer_root_unique(0x1_000b_175e * FIXED_ONE, 0x1_0005_8b9f);
    assert(octave_root(13) == 0x1_0005_8b9f);
    assert(is_integer_root(0x1_0005_8b9f * FIXED_ONE, 0x1_0002_c5cb));
    lemma_integer_root_unique(0x1_0005_8b9f * FIXED_ONE, 0x1_0002_c5cb);
    assert(octave_root(14) == 0x1_0002_c5cb);
    assert(is_integer_root(0x1_0002_c5cb * FIXED_ONE, 0x1_0001_62e4));
    lemma_integer_root_unique(0x1_0002_c5cb * FIXED_ONE, 0x1_0001_62e4);
    assert(octave_root(15) == 0x1_0001_62e4);
    assert(is_integer_root(0x1_0001_62e4 * FIXED_ONE, 0x1_0000_b171));
    lemma_integer_root_unique(0x1_0001_62e4 * FIXED_ONE, 0x1_0000_b171);
    assert(octave_root(16) == 0x1_0000_b171);
    assert(is_integer_root(0x1_0000_b171 * FIXED_ONE, 0x1_0000_58b8));
    lemma_integer_root_unique(0x1_0000_b171 * FIXED_ONE, 0x1_0000_58b8);
    assert(octave_root(17) == 0x1_0000_58b8);
    assert(is_integer_root(0x1_0000_58b8 * FIXED_ONE, 0x1_0000_2c5b));
    lemma_integer_root_unique(0x1_0000_58b8 * FIXED_ONE, 0x1_0000_2c5b);
    assert(octave_root(18) == 0x1_0000_2c5b);
    assert(is_integer_root(0x1_0000_2c5b * FIXED_ONE, 0x1_0000_162d));
    lemma_integer_root_unique(0x1_0000_2c5b * FIXED_ONE, 0x1_0000_162d);
    assert(octave_root(19) == 0x1_0000_162d);
    assert(is_integer_root(0x1_0000_162d * FIXED_ONE, 0x1_0000_0b16));
    lemma_integer_root_unique(0x1_0000_162d * FIXED_ONE, 0x1_0000_0b16);
    assert(octave_root(20) == 0x1_0000_0b16);
    assert(is_integer_root(0x1_0000_0b16 * FIXED_ONE, 0x1_0000_058a));
    lemma_integer_root_unique(0x1_0000_0b16 * FIXED_ONE, 0x1_0000_058a);
    assert(octave_root(21) == 0x1_0000_058a);
    assert(is_integer_root(0x1_0000_058a * FIXED_ONE, 0x1_0000_02c4));
    lemma_integer_root_unique(0x1_0000_058a * FIXED_ONE, 0x1_0000_02c4);
    assert(octave_root(22) == 0x1_0000_02c4);
    assert(is_integer_root(0x1_0000_02c4 * FIXED_ONE, 0x1_0000_0161));
    lemma_integer_root_unique(0x1_0000_02c4 * FIXED_ONE, 0x1_0000_0161);
    assert(octave_root(23) == 0x1_0000_0161);
    assert(is_integer_root(0x1_0000_0161 * FIXED_ONE, 0x1_0000_00b0));
    lemma_integer_root_unique(0x1_0000_0161 * FIXED_ONE, 0x1_0000_00b0);
    assert(octave_root(24) == 0x1_0000_00b0);
    assert(is_integer_root(0x1_0000_00b0 * FIXED_ONE, 0x1_0000_0057));
    lemma_integer_root_unique(0x1_0000_00b0 * FIXED_ONE, 0x1_0000_0057);
    assert(octave_root(25) == 0x1_0000_0057);
    assert(is_integer_root(0x1_0000_0057 * FIXED_ONE, 0x1_0000_002b));
    lemma_integer_root_unique(0x1_0000_0057 * FIXED_ONE, 0x1_0000_002b);
    assert(octave_root(26) == 0x1_0000_002b);
    assert(is_integer_root(0x1_0000_002b * FIXED_ONE, 0x1_0000_0015));
    lemma_integer_root_unique(0x1_0000_002b * FIXED_ONE, 0x1_0000_0015);
    assert(octave_root(27) == 0x1_0000_0015);
    assert(is_integer_root(0x1_0000_0015 * FIXED_ONE, 0x1_0000_000a));
    lemma_integer_root_unique(0x1_0000_0015 * FIXED_ONE, 0x1_0000_000a);
    assert(octave_root(28) == 0x1_0000_000a);
    assert(is_integer_root(0x1_0000_000a * FIXED_ONE, 0x1_0000_0004));
    lemma_integer_root_unique(0x1_0000_000a * FIXED_ONE, 0x1_0000_0004);
    assert(octave_root(29) == 0x1_0000_0004);
    assert(is_integer_root(0x1_0000_0004 * FIXED_ONE, 0x1_0000_0001));
    lemma_integer_root_unique(0x1_0000_0004 * FIXED_ONE, 0x1_0000_0001);
    assert(octave_root(30) == 0x1_0000_0001);
    assert(is_integer_root(0x1_0000_0001 * FIXED_ONE, 0x1_0000_0000));
    lemma_integer_root_unique(0x1_0000_0001 * FIXED_ONE, 0x1_0000_0000);
    assert(octave_root(31) == 0x1_0000_0000);
    assert(is_integer_root(0x1_0000_0000 * FIXED_ONE, 0x1_0000_0000));
    lemma_integer_root_unique(0x1_0000_0000 * FIXED_ONE, 0x1_0000_0000);
    assert(octave_root(32) == 0x1_0000_0000);
}

/// Two to the power of `1 / 2^k`.
fn octave_root_of(k: usize) -> (root: u64)
    requires
        k <= 32,
    ensures
        root == octave_root(k as nat),
{
    proof {
        lemma_octave_roots();
    }
    match k {
        0 => 0x2_0000_0000,
        1 => 0x1_6a09_e667,
        2 => 0x1_306f_e0a2,
        3 => 0x1_172b_83c7,
        4 => 0x1_0b55_86cf,
        5 => 0x1_059b_0d31,
        6 => 0x1_02c9_a3e7,
        7 => 0x1_0163_da9f,
        8 => 0x1_00b1_afa5,
        9 => 0x1_0058_c86d,
        10 => 0x1_002c_605d,
        11 => 0x1_0016_2f38,
        12 => 0x1_000b_175e,
        13 => 0x1_0005_8b9f,
        14 => 0x1_0002_c5cb,
        15 => 0x1_0001_62e4,
        16 => 0x1_0000_b171,
        17 => 0x1_0000_58b8,
        18 => 0x1_0000_2c5b,
        19 => 0x1_0000_162d,
        20 => 0x1_0000_0b16,
        21 => 0x1_0000_058a,
        22 => 0x1_0000_02c4,
        23 => 0x1_0000_0161,
        24 => 0x1_0000_00b0,
        25 => 0x1_0000_0057,
        26 => 0x1_0000_002b,
        27 => 0x1_0000_0015,
        28 => 0x1_0000_000a,
        29 => 0x1_0000_0004,
        30 => 0x1_0000_0001,
        31 => 0x1_0000_0000,
        _ => 0x1_0000_0000,
    }
}

/// One more halving, from the angle before it.
proof fn lemma_half_step(k: nat, c: int, s: int, cosine: int, sine: int)
    requires
        k > 0,
        half_angle((k - 1) as nat) == (c, s),
        is_integer_root((FIXED_ONE + c) * FIXED_ONE / 2, cosine),
        0 < cosine,
        sine * (2 * cosine) <= s * FIXED_ONE < sine * (2 * cosine) + 2 * cosine,
    ensures
        half_angle(k) == (cosine, sine),
{
    lemma_integer_root_unique((FIXED_ONE + c) * FIXED_ONE / 2, cosine);
    vstd::arithmetic::div_mod::lemma_fundamental_div_mod_converse(
        s * FIXED_ONE,
        2 * cosine,
        sine,
        s * FIXED_ONE - sine * (2 * cosine),
    );
}

proof fn lemma_half_angles()
    ensures
        half_angle(0) == (0x0int, 0x1_0000_0000int),
        half_angle(1) == (0xb504_f333int, 0xb504_f334int),
        half_angle(2) == (0xec83_5e79int, 0x61f7_8a9aint),
        half_angle(3) == (0xfb14_be7fint, 0x31f1_7078int),
        half_angle(4) == (0xfec4_6d1eint, 0x1917_a6bbint),
        half_angle(5) == (0xffb1_0f1bint, 0xc8f_b2f7int),
        half_angle(6) == (0xffec_4303int, 0x648_557dint),
        half_angle(7) == (0xfffb_10b4int, 0x324_3a3fint),
        half_angle(8) == (0xfffe_c42cint, 0x192_1f0fint),
        half_angle(9) == (0xffff_b10aint, 0xc9_0fc5int),
        half_angle(10) == (0xffff_ec42int, 0x64_87eaint),
        half_angle(11) == (0xffff_fb10int, 0x32_43f5int),
        half_angle(12) == (0xffff_fec3int, 0x19_21faint),
        half_angle(13) == (0xffff_ffb0int, 0xc_90fdint),
        half_angle(14) == (0xffff_ffebint, 0x6_487eint),
        half_angle(15) == (0xffff_fffaint, 0x3_243fint),
        half_angle(16) == (0xffff_fffeint, 0x1_921fint),
        half_angle(17) == (0xffff_ffffint, 0xc90fint),
        half_angle(18) == (0xffff_ffffint, 0x6487int),
        half_angle(19) == (0xffff_ffffint, 0x3243int),
        half_angle(20) == (0xffff_ffffint, 0x1921int),
        half_angle(21) == (0xffff_ffffint, 0xc90int),
        half_angle(22) == (0xffff_ffffint, 0x648int),
        half_angle(23) == (0xffff_ffffint, 0x324int),
        half_angle(24) == (0xffff_ffffint, 0x192int),
        half_angle(25) == (0xffff_ffffint, 0xc9int),
        half_angle(26) == (0xffff_ffffint, 0x64int),
        half_angle(27) == (0xffff_ffffint, 0x32int),
        half_angle(28) == (0xffff_ffffint, 0x19int),
        half_angle(29) == (0xffff_ffffint, 0xcint),
        half_angle(30) == (0xffff_ffffint, 0x6int),
        half_angle(31) == (0xffff_ffffint, 0x3int),
        half_angle(32) == (0xffff_ffffint, 0x1int),
{
    assert(half_angle(0) == (0x0int, 0x1_0000_0000int));
    lemma_half_step(1, 0x0, 0x1_0000_0000, 0xb504_f333, 0xb504_f334);
    lemma_half_step(2, 0xb504_f333, 0xb504_f334, 0xec83_5e79, 0x61f7_8a9a);
    lemma_half_step(3, 0xec83_5e79, 0x61f7_8a9a, 0xfb14_be7f, 0x31f1_7078);
    lemma_half_step(4, 0xfb14_be7f, 0x31f1_7078, 0xfec4_6d1e, 0x1917_a6bb);
    lemma_half_step(5, 0xfec4_6d1e, 0x1917_a6bb, 0xffb1_0f1b, 0xc8f_b2f7);
    lemma_half_step(6, 0xffb1_0f1b, 0xc8f_b2f7, 0xffec_4303, 0x648_557d);
    lemma_half_step(7, 0xffec_4303, 0x648_557d, 0xfffb_10b4, 0x324_3a3f);
    lemma_half_step(8, 0xfffb_10b4, 0x324_3a3f, 0xfffe_c42c, 0x192_1f0f);
    lemma_half_step(9, 0xfffe_c42c, 0x192_1f0f, 0xffff_b10a, 0xc9_0fc5);
    lemma_half_step(10, 0xffff_b10a, 0xc9_0fc5, 0xffff_ec42, 0x64_87ea);
    lemma_half_step(11, 0xffff_ec42, 0x64_87ea, 0xffff_fb10, 0x32_43f5);
    lemma_half_step(12, 0xffff_fb10, 0x32_43f5, 0xffff_fec3, 0x19_21fa);
    lemma_half_step(13, 0xffff_fec3, 0x19_21fa, 0xffff_ffb0, 0xc_90fd);
    lemma_half_step(14, 0xffff_ffb0, 0xc_90fd, 0xffff_ffeb, 0x6_487e);
    lemma_half_step(15, 0xffff_ffeb, 0x6_487e, 0xffff_fffa, 0x3_243f);
    lemma_half_step(16, 0xffff_fffa, 0x3_243f, 0xffff_fffe, 0x1_921f);
    lemma_half_step(17, 0xffff_fffe, 0x1_921f, 0xffff_ffff, 0xc90f);
    lemma_half_step(18, 0xffff_ffff, 0xc90f, 0xffff_ffff, 0x6487);
    lemma_half_step(19, 0xffff_ffff, 0x6487, 0xffff_ffff, 0x3243);
    lemma_half_step(20, 0xffff_ffff, 0x3243, 0xffff_ffff, 0x1921);
    lemma_half_step(21, 0xffff_ffff, 0x1921, 0xffff_ffff, 0xc90);
    lemma_half_step(22, 0xffff_ffff, 0xc90, 0xffff_ffff, 0x648);
    lemma_half_step(23, 0xffff_ffff, 0x648, 0xffff_ffff, 0x324);
    lemma_half_step(24, 0xffff_ffff, 0x324, 0xffff_ffff, 0x192);
    lemma_half_step(25, 0xffff_ffff, 0x192, 0xffff_ffff, 0xc9);
    lemma_half_step(26, 0xffff_ffff, 0xc9, 0xffff_ffff, 0x64);
    lemma_half_step(27, 0xffff_ffff, 0x64, 0xffff_ffff, 0x32);
    lemma_half_step(28, 0xffff_ffff, 0x32, 0xffff_ffff, 0x19);
    lemma_half_step(29, 0xffff_ffff, 0x19, 0xffff_ffff, 0xc);
    lemma_half_step(30, 0xffff_ffff, 0xc, 0xffff_ffff, 0x6);
    lemma_half_step(31, 0xffff_ffff, 0x6, 0xffff_ffff, 0x3);
    lemma_half_step(32, 0xffff_ffff, 0x3, 0xffff_ffff, 0x1);
}

/// The cosine and the sine of a quarter turn, halved `k` times.
fn half_angle_of(k: usize) -> (point: (u64, u64))
    requires
        k <= 32,
    ensures
        point.0 == half_angle(k as nat).0,
        point.1 == half_angle(k as nat).1,
        point.0 <= FIXED_ONE,
        point.1 <= FIXED_ONE,
{
    proof {
        lemma_half_angles();
    }
    match k {
        0 => (0x0, 0x1_0000_0000),
        1 => (0xb504_f333, 0xb504_f334),
        2 => (0xec83_5e79, 0x61f7_8a9a),
        3 => (0xfb14_be7f, 0x31f1_7078),
        4 => (0xfec4_6d1e, 0x1917_a6bb),
        5 => (0xffb1_0f1b, 0xc8f_b2f7),
        6 => (0xffec_4303, 0x648_557d),
        7 => (0xfffb_10b4, 0x324_3a3f),
        8 => (0xfffe_c42c, 0x192_1f0f),
        9 => (0xffff_b10a, 0xc9_0fc5),
        10 => (0xffff_ec42, 0x64_87ea),
        11 => (0xffff_fb10, 0x32_43f5),
        12 => (0xffff_fec3, 0x19_21fa),
        13 => (0xffff_ffb0, 0xc_90fd),
        14 => (0xffff_ffeb, 0x6_487e),
        15 => (0xffff_fffa, 0x3_243f),
        16 => (0xffff_fffe, 0x1_921f),
        17 => (0xffff_ffff, 0xc90f),
        18 => (0xffff_ffff, 0x6487),
        19 => (0xffff_ffff, 0x3243),
        20 => (0xffff_ffff, 0x1921),
        21 => (0xffff_ffff, 0xc90),
        22 => (0xffff_ffff, 0x648),
        23 => (0xffff_ffff, 0x324),
        24 => (0xffff_ffff, 0x192),
        25 => (0xffff_ffff, 0xc9),
        26 => (0xffff_ffff, 0x64),
        27 => (0xffff_ffff, 0x32),
        28 => (0xffff_ffff, 0x19),
        29 => (0xffff_ffff, 0xc),
        30 => (0xffff_ffff, 0x6),
        31 => (0xffff_ffff, 0x3),
        _ => (0xffff_ffff, 0x1),
    }
}

/// `acc` times two to the power of `f`, in the bits of `f` from the `k`th behind
/// the point on.
pub open spec fn powered(f: int, k: nat, acc: int) -> int
    decreases 33 - k,
{
    if k > 32 {
        acc
    } else if 2 * f >= FIXED_ONE {
        powered(2 * f - FIXED_ONE, k + 1, acc * octave_root(k) / FIXED_ONE as int)
    } else {
        powered(2 * f, k + 1, acc)
    }
}

/// Two to the power of `f`, which lies between zero and one.
pub open spec fn power_of_two(f: int) -> int {
    if f >= FIXED_ONE {
        2 * FIXED_ONE
    } else {
        powered(f, 1, FIXED_ONE as int)
    }
}

/// Two to the power of nothing is one.
pub proof fn lemma_power_of_nothing(k: nat, acc: int)
    ensures
        powered(0, k, acc) == acc,
    decreases 33 - k,
{
    if k <= 32 {
        lemma_power_of_nothing(k + 1, acc);
    }
}

/// Roots of two fall towards one.
pub proof fn lemma_octave_roots_fall(k: nat)
    ensures
        FIXED_ONE <= octave_root(k) <= 2 * FIXED_ONE,
        octave_root(k + 1) <= octave_root(k),
        octave_root(k + 1) * octave_root(k + 1) <= octave_root(k) * FIXED_ONE,
    decreases k,
{
    if k > 0 {
        lemma_octave_roots_fall((k - 1) as nat);
        lemma_root_is_above_one(octave_root((k - 1) as nat));
    }
    lemma_root_is_above_one(octave_root(k));
}

/// The root of a number above one lies between one and it.
proof fn lemma_root_is_above_one(a: int)
    requires
        a >= FIXED_ONE,
    ensures
        FIXED_ONE <= integer_root(a * FIXED_ONE) <= a,
        integer_root(a * FIXED_ONE) * integer_root(a * FIXED_ONE) <= a * FIXED_ONE,
{
    assert(a * FIXED_ONE >= FIXED_ONE * FIXED_ONE && a * FIXED_ONE <= a * a) by (nonlinear_arith)
        requires
            a >= FIXED_ONE,
            FIXED_ONE > 0,
    ;
    let r = lemma_integer_root_exists(a * FIXED_ONE);
    assert(FIXED_ONE <= r <= a) by (nonlinear_arith)
        requires
            r * r <= a * FIXED_ONE < (r + 1) * (r + 1),
            a * FIXED_ONE >= FIXED_ONE * FIXED_ONE,
            a * FIXED_ONE <= a * a,
            r >= 0,
            a >= 0,
            FIXED_ONE > 0,
    ;
}

/// Two to the power of `f`.
pub fn power_of_two_of(f: u64) -> (power: u64)
    requires
        f <= FIXED_ONE,
    ensures
        power == power_of_two(f as int),
        FIXED_ONE <= power <= 2 * FIXED_ONE,
        f == 0 ==> power == FIXED_ONE,
{
    if f >= 0x1_0000_0000 {
        return 0x2_0000_0000;
    }
    let mut rest: u64 = f;
    let mut acc: u64 = 0x1_0000_0000;
    let mut k: usize = 1;
    proof {
        lemma_octave_roots_fall(0);
    }
    while k <= 32
        invariant
            1 <= k <= 33,
            rest < FIXED_ONE,
            f == 0 ==> rest == 0 && acc == FIXED_ONE,
            FIXED_ONE <= acc <= 2 * FIXED_ONE,
            acc * octave_root((k - 1) as nat) <= 2 * FIXED_ONE * FIXED_ONE,
            powered(f as int, 1, FIXED_ONE as int) == powered(rest as int, k as nat, acc as int),
        decreases 33 - k,
    {
        let ghost was = octave_root((k - 1) as nat);
        let ghost here = octave_root(k as nat);
        proof {
            lemma_octave_roots_fall((k - 1) as nat);
            lemma_octave_roots_fall(k as nat);
        }
        if 2 * rest >= 0x1_0000_0000 {
            let root: u64 = octave_root_of(k);
            rest = 2 * rest - 0x1_0000_0000;
            assert(acc * root <= 4 * FIXED_ONE * FIXED_ONE) by (nonlinear_arith)
                requires
                    0 <= acc <= 2 * FIXED_ONE,
                    0 <= root <= 2 * FIXED_ONE,
            ;
            let product: u128 = acc as u128 * root as u128;
            proof {
                let next = product as int / (FIXED_ONE as int);
                assert(acc * root >= acc * FIXED_ONE) by (nonlinear_arith)
                    requires
                        root >= FIXED_ONE,
                ;
                assert(next * here <= acc * was) by (nonlinear_arith)
                    requires
                        next * FIXED_ONE <= acc * here,
                        here * here <= was * FIXED_ONE,
                        FIXED_ONE > 0,
                        here >= 0,
                        acc >= 0,
                        next >= 0,
                {
                    assert(next * FIXED_ONE * here <= acc * here * here);
                    assert(acc * here * here <= acc * was * FIXED_ONE);
                }
                assert(next <= 2 * FIXED_ONE) by (nonlinear_arith)
                    requires
                        next * here <= 2 * FIXED_ONE * FIXED_ONE,
                        here >= FIXED_ONE,
                        FIXED_ONE > 0,
                        next >= 0,
                ;
            }
            acc = (product / 0x1_0000_0000) as u64;
        } else {
            rest = 2 * rest;
            assert(acc * here <= acc * was) by (nonlinear_arith)
                requires
                    here <= was,
                    acc >= 0,
            ;
        }
        k += 1;
    }
    acc
}

/// `p` doubled `n` times, as far as there is room.
pub open spec fn raised(p: int, n: nat) -> int
    decreases n,
{
    if n == 0 {
        p
    } else if p > i64::MAX / 2 {
        i64::MAX as int
    } else {
        raised(2 * p, (n - 1) as nat)
    }
}

/// `p` halved `n` times.
pub open spec fn lowered(p: int, n: nat) -> int
    decreases n,
{
    if n == 0 || p == 0 {
        p
    } else {
        lowered(p / 2, (n - 1) as nat)
    }
}

/// Two to the power of any `e`: that of its part behind the point, doubled or
/// halved for every whole one.
pub open spec fn octaves(e: int) -> int {
    let (whole, part) = (e / FIXED_ONE as int, e % FIXED_ONE as int);
    if whole >= 0 {
        raised(power_of_two(part), whole as nat)
    } else {
        lowered(power_of_two(part), (-whole) as nat)
    }
}

/// Two to the power of any `e`.
pub fn octaves_of(e: i64) -> (power: i64)
    ensures
        power == octaves(e as int),
        power >= 0,
        e == 0 ==> power == FIXED_ONE,
{
    let mut left: u64 = 0;
    let part: u64 = if e >= 0 {
        (e % 0x1_0000_0000) as u64
    } else {
        0xffff_ffff - ((-(e + 1)) % 0x1_0000_0000) as u64
    };
    let mut power: i64 = power_of_two_of(part) as i64;
    let ghost start = power as int;
    if e >= 0 {
        left = (e / 0x1_0000_0000) as u64;
        let ghost whole = left as nat;
        while left > 0
            invariant
                0 <= power,
                raised(start, whole) == raised(power as int, left as nat),
                left <= whole,
                whole == 0 ==> power == start,
                start == power_of_two(part as int),
                part == e % FIXED_ONE,
                whole == e / FIXED_ONE,
                e >= 0,
            decreases left,
        {
            if power > 0x3fff_ffff_ffff_ffff {
                return 0x7fff_ffff_ffff_ffff;
            }
            power = 2 * power;
            left -= 1;
        }
    } else {
        left = ((-(e + 1)) / 0x1_0000_0000) as u64 + 1;
        let ghost whole = left as nat;
        while left > 0 && power > 0
            invariant
                0 <= power,
                lowered(start, whole) == lowered(power as int, left as nat),
            decreases left,
        {
            power = power / 2;
            left -= 1;
        }
    }
    power
}

/// The next `k` bits of the logarithm of `y`, which lies between one and two,
/// behind those in `acc`: squaring doubles a logarithm.
pub open spec fn log_steps(y: int, k: nat, acc: int) -> int
    decreases k,
{
    if k == 0 {
        acc
    } else {
        let square = y * y / FIXED_ONE as int;
        if square >= 2 * FIXED_ONE {
            log_steps(square / 2, (k - 1) as nat, 2 * acc + 1)
        } else {
            log_steps(square, (k - 1) as nat, 2 * acc)
        }
    }
}

/// The logarithm to base two of `y`, which is one or more.
pub open spec fn log_of_two(y: int) -> int
    decreases y,
{
    if y >= 2 * FIXED_ONE {
        FIXED_ONE + log_of_two(y / 2)
    } else {
        log_steps(y, 32, 0)
    }
}

/// The logarithm to base two of `y`.
pub fn log_of_two_of(y: u128) -> (log: u64)
    requires
        FIXED_ONE <= y,
    ensures
        log == log_of_two(y as int),
        log <= 97 * FIXED_ONE,
{
    let mut rest: u128 = y;
    let mut whole: u64 = 0;
    let mut bound: Ghost<nat> = Ghost(96nat);
    assert(y < 0x1_0000_0000 * vstd::arithmetic::power2::pow2(96)) by {
        vstd::arithmetic::power2::lemma2_to64_rest();
        vstd::arithmetic::power2::lemma_pow2_adds(32, 64);
        vstd::arithmetic::power2::lemma2_to64();
    }
    while rest >= 0x2_0000_0000
        invariant
            FIXED_ONE <= rest,
            rest < 0x1_0000_0000 * vstd::arithmetic::power2::pow2(bound@),
            whole + bound@ == 96,
            log_of_two(y as int) == whole * FIXED_ONE + log_of_two(rest as int),
        decreases rest,
    {
        proof {
            if bound@ == 0 {
                vstd::arithmetic::power2::lemma2_to64();
            } else {
                vstd::arithmetic::power2::lemma_pow2_unfold(bound@);
            }
        }
        rest = rest / 2;
        whole += 1;
        bound = Ghost((bound@ - 1) as nat);
    }
    let mut part: u64 = rest as u64;
    let mut acc: u64 = 0;
    let mut k: usize = 0;
    let mut limit: Ghost<int> = Ghost(1int);
    proof {
        vstd::arithmetic::power2::lemma2_to64();
    }
    while k < 32
        invariant
            k <= 32,
            FIXED_ONE <= part < 2 * FIXED_ONE,
            acc < limit@,
            limit@ == vstd::arithmetic::power2::pow2(k as nat),
            limit@ <= FIXED_ONE,
            log_steps(rest as int, 32, 0) == log_steps(part as int, (32 - k) as nat, acc as int),
        decreases 32 - k,
    {
        proof {
            vstd::arithmetic::power2::lemma_pow2_unfold((k + 1) as nat);
            vstd::arithmetic::power2::lemma2_to64();
            vstd::arithmetic::power2::lemma_pow2_strictly_increases(k as nat, 32);
            if k + 1 < 32 {
                vstd::arithmetic::power2::lemma_pow2_strictly_increases((k + 1) as nat, 32);
            }
            assert(FIXED_ONE * FIXED_ONE <= part * part < 4 * FIXED_ONE * FIXED_ONE)
                by (nonlinear_arith)
                requires
                    FIXED_ONE <= part < 2 * FIXED_ONE,
                    FIXED_ONE > 0,
            ;
        }
        let square: u64 = (part as u128 * part as u128 / 0x1_0000_0000) as u64;
        if square >= 0x2_0000_0000 {
            part = square / 2;
            acc = 2 * acc + 1;
        } else {
            part = square;
            acc = 2 * acc;
        }
        limit = Ghost(2 * limit@);
        k += 1;
    }
    whole * 0x1_0000_0000 + acc
}

/// `(c, s)` turned on by `x` of a quarter turn, in the bits of `x` from the
/// `k`th behind the point on.
pub open spec fn turned_by(x: int, k: nat, c: int, s: int) -> (int, int)
    decreases 33 - k,
{
    if k > 32 {
        (c, s)
    } else if 2 * x >= FIXED_ONE {
        let (cosine, sine) = half_angle(k);
        turned_by(
            2 * x - FIXED_ONE,
            k + 1,
            cut_quotient(c * cosine - s * sine, FIXED_ONE as int),
            cut_quotient(s * cosine + c * sine, FIXED_ONE as int),
        )
    } else {
        turned_by(2 * x, k + 1, c, s)
    }
}

/// `a` held between zero and one.
pub open spec fn held_part(a: int) -> int {
    if a < 0 {
        0
    } else if a > FIXED_ONE {
        FIXED_ONE as int
    } else {
        a
    }
}

/// The cosine and the sine of `x` of a quarter turn, held to the outside of the
/// chord from quarter to quarter, which rounding could otherwise take them
/// across. A whole quarter comes to its very end.
pub open spec fn quarter_turned(x: int) -> (int, int) {
    let (c, s) = turned_by(x, 1, FIXED_ONE as int, 0);
    let (across, up) = (held_part(c), held_part(s));
    if x >= FIXED_ONE {
        (0, FIXED_ONE as int)
    } else if across + up < FIXED_ONE {
        (FIXED_ONE - up, up)
    } else {
        (across, up)
    }
}

/// No turn leaves a point where it is.
pub proof fn lemma_no_turn(k: nat, c: int, s: int)
    ensures
        turned_by(0, k, c, s) == (c, s),
    decreases 33 - k,
{
    if k <= 32 {
        lemma_no_turn(k + 1, c, s);
    }
}

/// What a turn comes to stays on the outside of the chord.
pub proof fn lemma_quarter_is_outside(x: int)
    ensures
        0 <= quarter_turned(x).0 <= FIXED_ONE,
        0 <= quarter_turned(x).1 <= FIXED_ONE,
        quarter_turned(x).0 + quarter_turned(x).1 >= FIXED_ONE,
        quarter_turned(0) == (FIXED_ONE as int, 0int),
        quarter_turned(FIXED_ONE as int) == (0int, FIXED_ONE as int),
{
    lemma_no_turn(1, FIXED_ONE as int, 0);
}

/// Bounds on one turn.
proof fn lemma_turn_fits(c: int, s: int, cosine: int, sine: int, limit: int)
    requires
        -limit <= c <= limit,
        -limit <= s <= limit,
        0 <= cosine <= FIXED_ONE,
        0 <= sine <= FIXED_ONE,
        0 <= limit,
    ensures
        -2 * limit * FIXED_ONE <= c * cosine - s * sine <= 2 * limit * FIXED_ONE,
        -2 * limit * FIXED_ONE <= s * cosine + c * sine <= 2 * limit * FIXED_ONE,
        -2 * limit <= cut_quotient(c * cosine - s * sine, FIXED_ONE as int) <= 2 * limit,
        -2 * limit <= cut_quotient(s * cosine + c * sine, FIXED_ONE as int) <= 2 * limit,
{
    let one: int = FIXED_ONE as int;
    assert(-limit * one <= c * cosine <= limit * one && -limit * one <= s * sine <= limit * one
        && -limit * one <= s * cosine <= limit * one && -limit * one <= c * sine <= limit * one)
        by (nonlinear_arith)
        requires
            -limit <= c <= limit,
            -limit <= s <= limit,
            0 <= cosine <= one,
            0 <= sine <= one,
            0 <= limit,
    ;
}

/// The cosine and the sine of `x` of a quarter turn.
pub fn quarter_turned_of(x: u64) -> (point: (i64, i64))
    requires
        x <= FIXED_ONE,
    ensures
        point.0 == quarter_turned(x as int).0,
        point.1 == quarter_turned(x as int).1,
{
    if x >= 0x1_0000_0000 {
        return (0, 0x1_0000_0000);
    }
    let mut rest: u64 = x;
    let mut c: i128 = 0x1_0000_0000;
    let mut s: i128 = 0;
    let mut k: usize = 1;
    let mut limit: Ghost<int> = Ghost(FIXED_ONE as int);
    proof {
        vstd::arithmetic::power2::lemma2_to64();
    }
    while k <= 32
        invariant
            1 <= k <= 33,
            rest <= FIXED_ONE,
            -limit@ <= c <= limit@,
            -limit@ <= s <= limit@,
            limit@ == FIXED_ONE * vstd::arithmetic::power2::pow2((k - 1) as nat),
            turned_by(x as int, 1, FIXED_ONE as int, 0) == turned_by(
                rest as int,
                k as nat,
                c as int,
                s as int,
            ),
        decreases 33 - k,
    {
        proof {
            vstd::arithmetic::power2::lemma_pow2_unfold(k as nat);
            vstd::arithmetic::power2::lemma2_to64();
            if k < 33 {
                vstd::arithmetic::power2::lemma_pow2_strictly_increases((k - 1) as nat, 32);
            }
        }
        if 2 * rest >= 0x1_0000_0000 {
            let (cosine, sine) = half_angle_of(k);
            proof {
                lemma_turn_fits(c as int, s as int, cosine as int, sine as int, limit@);
                lemma_products_fit(c as int, s as int, cosine as int, sine as int, limit@);
            }
            let across: i128 = c * cosine as i128 - s * sine as i128;
            let up: i128 = s * cosine as i128 + c * sine as i128;
            c = cut_divide(across, 0x1_0000_0000);
            s = cut_divide(up, 0x1_0000_0000);
            rest = 2 * rest - 0x1_0000_0000;
        } else {
            rest = 2 * rest;
        }
        limit = Ghost(2 * limit@);
        k += 1;
    }
    let across: i64 = hold_part(c);
    let up: i64 = hold_part(s);
    if across + up < 0x1_0000_0000 {
        (0x1_0000_0000 - up, up)
    } else {
        (across, up)
    }
}

/// Each product of a turn fits.
proof fn lemma_products_fit(c: int, s: int, cosine: int, sine: int, limit: int)
    requires
        -limit <= c <= limit,
        -limit <= s <= limit,
        0 <= cosine <= FIXED_ONE,
        0 <= sine <= FIXED_ONE,
        0 <= limit,
    ensures
        -limit * FIXED_ONE <= c * cosine <= limit * FIXED_ONE,
        -limit * FIXED_ONE <= s * sine <= limit * FIXED_ONE,
        -limit * FIXED_ONE <= s * cosine <= limit * FIXED_ONE,
        -limit * FIXED_ONE <= c * sine <= limit * FIXED_ONE,
{
    assert(-limit * FIXED_ONE <= c * cosine <= limit * FIXED_ONE && -limit * FIXED_ONE <= s * sine
        <= limit * FIXED_ONE && -limit * FIXED_ONE <= s * cosine <= limit * FIXED_ONE && -limit
        * FIXED_ONE <= c * sine <= limit * FIXED_ONE) by (nonlinear_arith)
        requires
            -limit <= c <= limit,
            -limit <= s <= limit,
            0 <= cosine <= FIXED_ONE,
            0 <= sine <= FIXED_ONE,
            0 <= limit,
            FIXED_ONE > 0,
    ;
}

fn hold_part(a: i128) -> (held: i64)
    ensures
        held == held_part(a as int),
        0 <= held <= FIXED_ONE,
{
    if a < 0 {
        0
    } else if a > 0x1_0000_0000 {
        0x1_0000_0000
    } else {
        a as i64
    }
}

/// The bits of the angle of `(c, s)`, in parts of a quarter turn, from the `k`th
/// behind the point on, behind those in `acc`: what can be turned back is.
pub open spec fn measured(c: int, s: int, k: nat, acc: int) -> int
    decreases 33 - k,
{
    if k > 32 {
        acc
    } else {
        let (cosine, sine) = half_angle(k);
        let up = s * cosine - c * sine;
        if up >= 0 {
            measured(
                (c * cosine + s * sine) / FIXED_ONE as int,
                up / FIXED_ONE as int,
                k + 1,
                2 * acc + 1,
            )
        } else {
            measured(c, s, k + 1, 2 * acc)
        }
    }
}

/// The angle of the point `(c, s)` of the first quarter, in parts of a quarter
/// turn.
pub open spec fn quarter_angle(c: int, s: int) -> int {
    if c == 0 && s > 0 {
        FIXED_ONE as int
    } else {
        measured(c, s, 1, 0)
    }
}

/// The angle of the point `(re, im)`, in parts of a turn: within half a turn of
/// zero, and half a turn itself positive. That of the origin is zero.
pub open spec fn angle(re: int, im: int) -> int {
    let (c, s) = (
        if re < 0 {
            -re
        } else {
            re
        },
        if im < 0 {
            -im
        } else {
            im
        },
    );
    let part = if re == 0 && im == 0 {
        0
    } else {
        quarter_angle(c, s) / 4
    };
    let turn = if re < 0 {
        FIXED_ONE / 2 - part
    } else {
        part
    };
    if im < 0 {
        -turn
    } else {
        turn
    }
}

/// The angle of a point of the first quarter.
fn quarter_angle_of(across: u128, height: u128) -> (part: u64)
    requires
        across <= 0x8000_0000_0000_0000,
        height <= 0x8000_0000_0000_0000,
    ensures
        part == quarter_angle(across as int, height as int),
        part <= FIXED_ONE,
{
    if across == 0 && height > 0 {
        return 0x1_0000_0000;
    }
    let mut c: u128 = across;
    let mut s: u128 = height;
    let mut acc: u64 = 0;
    let mut k: usize = 1;
    let mut limit: Ghost<int> = Ghost(1int);
    proof {
        vstd::arithmetic::power2::lemma2_to64();
    }
    while k <= 32
        invariant
            1 <= k <= 33,
            c <= k * 0x8000_0000_0000_0000,
            s <= 0x8000_0000_0000_0000,
            acc < limit@,
            limit@ == vstd::arithmetic::power2::pow2((k - 1) as nat),
            limit@ <= FIXED_ONE,
            measured(across as int, height as int, 1, 0) == measured(
                c as int,
                s as int,
                k as nat,
                acc as int,
            ),
        decreases 33 - k,
    {
        proof {
            vstd::arithmetic::power2::lemma_pow2_unfold(k as nat);
            vstd::arithmetic::power2::lemma2_to64();
            vstd::arithmetic::power2::lemma_pow2_strictly_increases((k - 1) as nat, 32);
            if k < 32 {
                vstd::arithmetic::power2::lemma_pow2_strictly_increases(k as nat, 32);
            }
        }
        let (cosine, sine) = half_angle_of(k);
        proof {
            assert(s * cosine <= s * FIXED_ONE && c * sine <= c * FIXED_ONE && c * cosine <= c
                * FIXED_ONE && s * sine <= s * FIXED_ONE && 0 <= s * cosine && 0 <= c * sine && 0
                <= c * cosine && 0 <= s * sine) by (nonlinear_arith)
                requires
                    0 <= cosine <= FIXED_ONE,
                    0 <= sine <= FIXED_ONE,
                    0 <= s,
                    0 <= c,
            ;
        }
        let risen: u128 = s * cosine as u128;
        let fallen: u128 = c * sine as u128;
        if risen >= fallen {
            let next: u128 = (c * cosine as u128 + s * sine as u128) / 0x1_0000_0000;
            s = (risen - fallen) / 0x1_0000_0000;
            c = next;
            acc = 2 * acc + 1;
        } else {
            acc = 2 * acc;
        }
        limit = Ghost(2 * limit@);
        k += 1;
    }
    acc
}

/// The angle of the point `(re, im)`.
pub fn angle_of(re: i64, im: i64) -> (turn: i64)
    ensures
        turn == angle(re as int, im as int),
        -FIXED_ONE / 2 <= turn <= FIXED_ONE / 2,
{
    let c: u128 = if re < 0 {
        (-(re as i128)) as u128
    } else {
        re as u128
    };
    let s: u128 = if im < 0 {
        (-(im as i128)) as u128
    } else {
        im as u128
    };
    let part: i64 = if re == 0 && im == 0 {
        0
    } else {
        (quarter_angle_of(c, s) / 4) as i64
    };
    let turn: i64 = if re < 0 {
        0x8000_0000 - part
    } else {
        part
    };
    if im < 0 {
        -turn
    } else {
        turn
    }
}

/// The sine of half a quarter turn, which is its cosine too.
pub const OCTANT: u64 = 0xb504_f333;

/// The cosine that belongs to the sine `s`.
pub open spec fn cosine_for(s: int) -> int {
    integer_root(FIXED_ONE * FIXED_ONE - s * s)
}

/// The angle of the point of the circle whose sine is `s`, in parts of a quarter
/// turn.
pub open spec fn arc(s: int) -> int {
    quarter_angle(cosine_for(s), s)
}

/// The sine whose angle is `x`, sought between `lo` and `hi` by halves.
pub open spec fn sought(x: int, lo: int, hi: int) -> int
    decreases hi - lo,
{
    if hi - lo <= 1 {
        lo
    } else {
        let mid = (lo + hi) / 2;
        if arc(mid) <= x {
            sought(x, mid, hi)
        } else {
            sought(x, lo, mid)
        }
    }
}

/// The cosine and the sine of `x` of a quarter turn: sought in the first half of
/// the quarter, and mirrored into the second.
pub open spec fn octant_point(x: int) -> (int, int)
    decreases
            if 2 * x > FIXED_ONE {
                1int
            } else {
                0
            },
{
    if x <= 0 {
        (FIXED_ONE as int, 0)
    } else if 2 * x < FIXED_ONE {
        let s = sought(x, 0, OCTANT + 1);
        (cosine_for(s), s)
    } else if 2 * x == FIXED_ONE {
        (OCTANT as int, OCTANT as int)
    } else {
        let (c, s) = octant_point(FIXED_ONE - x);
        (s, c)
    }
}

/// What is sought lies between the bounds: its angle is not past `x`, and that of
/// the next one is.
pub proof fn lemma_sought(x: int, lo: int, hi: int)
    requires
        lo < hi,
    ensures
        lo <= sought(x, lo, hi) < hi,
        sought(x, lo, hi) == lo || arc(sought(x, lo, hi)) <= x,
        sought(x, lo, hi) + 1 == hi || arc(sought(x, lo, hi) + 1) > x,
    decreases hi - lo,
{
    if hi - lo > 1 {
        let mid = (lo + hi) / 2;
        if arc(mid) <= x {
            lemma_sought(x, mid, hi);
        } else {
            lemma_sought(x, lo, mid);
        }
    }
}

/// A greater angle has no smaller sine.
pub proof fn lemma_sought_rises(x: int, y: int, lo: int, hi: int)
    requires
        x <= y,
        lo < hi,
    ensures
        sought(x, lo, hi) <= sought(y, lo, hi),
    decreases hi - lo,
{
    if hi - lo > 1 {
        let mid = (lo + hi) / 2;
        if arc(mid) <= x {
            lemma_sought_rises(x, y, mid, hi);
        } else if arc(mid) <= y {
            lemma_sought(x, lo, mid);
            lemma_sought(y, mid, hi);
        } else {
            lemma_sought_rises(x, y, lo, mid);
        }
    }
}

/// A sine of the first half of a quarter has the greater cosine, together they
/// lie on the circle, and a greater sine has no greater cosine.
pub proof fn lemma_cosine_for(s: int, t: int)
    requires
        0 <= s <= t <= OCTANT,
    ensures
        OCTANT <= cosine_for(t) <= cosine_for(s) <= FIXED_ONE,
        0 <= FIXED_ONE * FIXED_ONE - cosine_for(s) * cosine_for(s) - s * s <= 0x2_0000_0001,
{
    let d: int = FIXED_ONE as int;
    assert(0 <= s * s <= t * t && t * t <= OCTANT * OCTANT) by (nonlinear_arith)
        requires
            0 <= s <= t <= OCTANT,
    ;
    assert(2 * (OCTANT * OCTANT) <= d * d);
    let c = lemma_integer_root_exists(d * d - s * s);
    let e = lemma_integer_root_exists(d * d - t * t);
    assert(e <= c && OCTANT <= e && c <= d) by (nonlinear_arith)
        requires
            c * c <= d * d - s * s < (c + 1) * (c + 1),
            e * e <= d * d - t * t < (e + 1) * (e + 1),
            0 <= s * s <= t * t,
            OCTANT * OCTANT <= d * d - t * t,
            0 <= c,
            0 <= e,
            d > 0,
    ;
    assert((c + 1) * (c + 1) == c * c + 2 * c + 1) by (nonlinear_arith);
}

/// The angle of the point whose sine is `s`.
fn arc_of(s: u64) -> (part: u64)
    requires
        s <= OCTANT,
    ensures
        part == arc(s as int),
{
    assert(s * s <= 0x8000_0000_0000_0000) by (nonlinear_arith)
        requires
            0 <= s <= 0xb504_f333,
    ;
    let rest: u128 = 0x1_0000_0000_0000_0000u128 - s as u128 * s as u128;
    let c: u64 = integer_root_of(rest);
    quarter_angle_of(c as u128, s as u128)
}

/// The cosine and the sine of `x` of a quarter turn.
pub fn octant_point_of(x: u64) -> (point: (i64, i64))
    requires
        x <= FIXED_ONE,
    ensures
        point.0 == octant_point(x as int).0,
        point.1 == octant_point(x as int).1,
{
    reveal_with_fuel(octant_point, 2);
    if x == 0 {
        return (0x1_0000_0000, 0);
    }
    if 2 * x == 0x1_0000_0000 {
        return (0xb504_f333, 0xb504_f333);
    }
    let near: u64 = if 2 * x < 0x1_0000_0000 {
        x
    } else {
        0x1_0000_0000 - x
    };
    if near == 0 {
        return (0, 0x1_0000_0000);
    }
    let mut lo: u64 = 0;
    let mut hi: u64 = 0xb504_f334;
    while hi - lo > 1
        invariant
            lo < hi <= OCTANT + 1,
            sought(near as int, 0, OCTANT + 1) == sought(near as int, lo as int, hi as int),
        decreases hi - lo,
    {
        let mid: u64 = (lo + hi) / 2;
        if arc_of(mid) <= near {
            lo = mid;
        } else {
            hi = mid;
        }
    }
    assert(lo * lo <= 0x8000_0000_0000_0000) by (nonlinear_arith)
        requires
            0 <= lo <= 0xb504_f333,
    ;
    let c: u64 = integer_root_of(0x1_0000_0000_0000_0000u128 - lo as u128 * lo as u128);
    if 2 * x < 0x1_0000_0000 {
        (c as i64, lo as i64)
    } else {
        (lo as i64, c as i64)
    }
}

/// The points of the quarter: on the circle, the second half the mirror image of
/// the first, and with a cosine that falls and a sine that rises all the way.
pub proof fn lemma_octant_point(x: int, y: int)
    requires
        0 <= x <= y <= FIXED_ONE,
    ensures
        0 <= octant_point(y).0 <= octant_point(x).0 <= FIXED_ONE,
        0 <= octant_point(x).1 <= octant_point(y).1 <= FIXED_ONE,
        octant_point(FIXED_ONE - x) == (octant_point(x).1, octant_point(x).0),
        2 * x <= FIXED_ONE ==> octant_point(x).1 <= octant_point(x).0,
        0 <= FIXED_ONE * FIXED_ONE - octant_point(x).0 * octant_point(x).0 - octant_point(x).1
            * octant_point(x).1 <= 0x10_0000_0000,
{
    reveal_with_fuel(octant_point, 2);
    lemma_near(x);
    lemma_near(y);
    lemma_near(FIXED_ONE - x);
    lemma_near(FIXED_ONE - y);
    if 2 * y < FIXED_ONE {
        lemma_near_falls(x, y);
    } else if 2 * x > FIXED_ONE {
        lemma_near_falls(FIXED_ONE - y, FIXED_ONE - x);
    }
}

/// A point of the first half of the quarter.
proof fn lemma_near(x: int)
    ensures
        0 <= x && 2 * x <= FIXED_ONE ==> {
            let (c, s) = octant_point(x);
            &&& 0 <= s <= OCTANT <= c <= FIXED_ONE
            &&& 0 <= FIXED_ONE * FIXED_ONE - c * c - s * s <= 0x10_0000_0000
        },
{
    if 0 < x && 2 * x < FIXED_ONE {
        lemma_sought(x, 0, OCTANT + 1);
        lemma_cosine_for(sought(x, 0, OCTANT + 1), OCTANT as int);
    }
}

proof fn lemma_near_falls(x: int, y: int)
    requires
        0 <= x <= y,
        2 * y < FIXED_ONE,
    ensures
        octant_point(y).0 <= octant_point(x).0,
        octant_point(x).1 <= octant_point(y).1,
{
    lemma_near(y);
    if x > 0 {
        lemma_sought(x, 0, OCTANT + 1);
        lemma_sought(y, 0, OCTANT + 1);
        lemma_sought_rises(x, y, 0, OCTANT + 1);
        lemma_cosine_for(sought(x, 0, OCTANT + 1), sought(y, 0, OCTANT + 1));
    }
}

} // verus!
