//! The colours of the rain.
use vstd::arithmetic::power2::*;
use vstd::prelude::*;

use crate::rounding;
use crate::single;
use crate::single::Single;
use crate::single_laws;

verus! {

/// A terminal colour, as far as the rain and its overlay use one.
#[derive(Clone, Copy, Debug, PartialEq, Eq, Structural)]
pub enum Ink {
    White,
    Cyan,
    Black,
    Rgb(u8, u8, u8),
    /// Any other colour.
    Other,
}

/// One.
pub const ONE: u32 = 0x3f80_0000;

/// The part of the green that stress takes on its way to one, 0.9.
pub const NINE_TENTHS: u32 = 0x3f66_6666;

/// The brightness that trails do not fall under, 0.04.
pub const FAINTEST: u32 = 0x3d23_d70a;

/// How stressed the system is, from none at 0 percent to one at 100.
pub open spec fn stress(ram_pct: Single) -> Single {
    single::clamped(
        single::quotient(ram_pct, single::from_whole(100)),
        Single { bits: 0 },
        Single { bits: ONE },
    )
}

/// The red of the colour before it is dimmed: none without stress, 220 at full
/// stress.
pub open spec fn base_red(t: Single) -> int {
    single::floor_between(single::product(t, single::from_whole(220)), 0, 255)
}

/// The green of the colour before it is dimmed: 255 without stress, nine tenths
/// less as stress approaches one, and none at full stress.
pub open spec fn base_green(t: Single) -> int {
    if single::at_most(Single { bits: ONE }, t) {
        0
    } else {
        single::floor_between(
            single::product(
                single::difference(
                    Single { bits: ONE },
                    single::product(t, Single { bits: NINE_TENTHS }),
                ),
                single::from_whole(255),
            ),
            0,
            255,
        )
    }
}

/// The least green of a dimmed colour: a faint ghost, but for the pure red of full
/// stress.
pub open spec fn least_green(t: Single) -> nat {
    if single::at_most(Single { bits: ONE }, t) {
        0
    } else {
        5
    }
}

/// The factor that a trail of the given brightness is dimmed by.
pub open spec fn dimming(brightness: Single) -> Single {
    single::clamped(brightness, Single { bits: FAINTEST }, Single { bits: ONE })
}

/// The colour of a cell.
pub open spec fn colour_of(brightness: Single, ram_pct: Single, is_head: bool) -> Ink {
    let t = stress(ram_pct);
    let b = dimming(brightness);
    if is_head {
        Ink::White
    } else {
        Ink::Rgb(
            single::floor_between(
                single::product(single::from_whole(base_red(t) as nat), b),
                0,
                255,
            ) as u8,
            single::floor_between(
                single::clamped(
                    single::product(single::from_whole(base_green(t) as nat), b),
                    single::from_whole(least_green(t)),
                    single::from_whole(255),
                ),
                0,
                255,
            ) as u8,
            0,
        )
    }
}

/// Maps brightness and RAM percentage to a colour. The head is white. A trail goes
/// from pure green at 0 percent, (0, 255, 0), over yellow-green at 50, (110, 140, 0),
/// to red at 100, (220, 0, 0), and is dimmed by its brightness, but never to black.
pub fn cell_color(brightness: Single, ram_pct: Single, is_head: bool) -> (ink: Ink)
    ensures
        ink == colour_of(brightness, ram_pct, is_head),
{
    if is_head {
        return Ink::White;
    }
    let one: Single = Single { bits: ONE };
    let t: Single = ram_pct.over(Single::from_u64(100)).clamp(Single { bits: 0 }, one);
    let red: u8 = t.times(Single::from_u64(220)).floor_u8();
    let full: bool = one.is_at_most(t);
    let green: u8 = if full {
        0
    } else {
        one.minus(t.times(Single { bits: NINE_TENTHS })).times(Single::from_u64(255)).floor_u8()
    };
    let least: u64 = if full {
        0
    } else {
        5
    };
    let b: Single = brightness.clamp(Single { bits: FAINTEST }, one);
    Ink::Rgb(
        Single::from_u64(red as u64).times(b).floor_u8(),
        Single::from_u64(green as u64).times(b).clamp(
            Single::from_u64(least),
            Single::from_u64(255),
        ).floor_u8(),
        0,
    )
}

pub open spec fn one() -> Single {
    Single { bits: ONE }
}

pub open spec fn nine_tenths() -> Single {
    Single { bits: NINE_TENTHS }
}

/// The numbers that the colours are computed with.
proof fn lemma_constants()
    ensures
        one().is_finite(),
        !one().negative(),
        one().value() == pow2(149),
        pow2(149) > 0,
        (Single { bits: 0 }).value() == 0,
        (Single { bits: FAINTEST }).is_finite(),
        !(Single { bits: FAINTEST }).negative(),
        220 * (Single { bits: FAINTEST }).value() >= 8 * pow2(149),
        (Single { bits: FAINTEST }).value() < pow2(149),
        nine_tenths().is_finite(),
        !nine_tenths().negative(),
        0 < nine_tenths().value() < pow2(149),
{
    let x = pow2(121);
    lemma_pow2_pos(121);
    lemma_pow2_adds(5, 121);
    lemma_pow2_adds(28, 121);
    lemma_pow2_pos(149);
    lemma2_to64();
    rounding::lemma_magnitude_parts(126, 0x80_0000);
    // 0.04 is 10737418 * 2^-28.
    rounding::lemma_magnitude_parts(121, 10737418);
    // 0.9 is 15099494 * 2^-24.
    rounding::lemma_magnitude_parts(125, 15099494);
    lemma_pow2_adds(4, 121);
    rounding::lemma_magnitude_small();
}

/// The floor of a number that is whole.
proof fn lemma_floor_of_whole(a: Single, n: int)
    requires
        !a.is_nan(),
        0 <= n <= 255,
        a.value() == n * pow2(149),
    ensures
        single::floor_between(a, 0, 255) == n,
{
    single_laws::law_floor_keeps_sides(a, n);
}

/// A factor of one changes no value.
proof fn lemma_times_one(a: Single)
    requires
        a.is_finite(),
        !a.negative(),
    ensures
        single::product(a, one()).value() == a.value(),
        !single::product(a, one()).is_nan(),
        single::product(one(), a).value() == a.value(),
        !single::product(one(), a).is_nan(),
{
    lemma_constants();
    let z = pow2(149);
    let v = a.value();
    assert(v * z == z * v) by (nonlinear_arith);
    single_laws::law_product_keeps_sides(a, one(), a);
    single_laws::law_product_keeps_sides(one(), a, a);
}

/// At full brightness nothing is dimmed.
proof fn lemma_full_brightness(brightness: Single)
    requires
        single::at_most(one(), brightness),
    ensures
        dimming(brightness) == one(),
{
    lemma_constants();
    if brightness.value() == one().value() {
        rounding::lemma_magnitude_ordered(brightness.pattern(), one().pattern());
    }
}

/// The stress of a percentage of 100 or more is one.
proof fn lemma_full_stress(ram_pct: Single)
    requires
        single::at_most(single::from_whole(100), ram_pct),
    ensures
        stress(ram_pct) == one(),
{
    lemma_constants();
    let z = pow2(149);
    let hundred = single::from_whole(100);
    single_laws::law_small_whole_is_exact(100);
    let q = single::quotient(ram_pct, hundred);
    rounding::lemma_magnitude_ordered(0, ram_pct.pattern());
    rounding::lemma_magnitude_ordered(0, hundred.pattern());
    assert(!ram_pct.negative());
    if ram_pct.is_finite() {
        let v = ram_pct.value();
        assert(v * z >= (100 * z) * z) by (nonlinear_arith)
            requires
                v >= 100 * z,
                z > 0,
        ;
        single_laws::law_quotient_keeps_sides(ram_pct, hundred, one());
    } else {
        rounding::lemma_magnitude_ordered(one().pattern(), rounding::INFINITY as nat);
        assert(q.pattern() == rounding::INFINITY && !q.negative());
    }
    if q.value() == one().value() {
        rounding::lemma_magnitude_ordered(q.pattern(), one().pattern());
    }
}

/// The stress of a percentage of zero or less is zero, with either sign.
proof fn lemma_no_stress(ram_pct: Single)
    requires
        single::at_most(ram_pct, (Single { bits: 0 })),
    ensures
        stress(ram_pct).pattern() == 0,
{
    lemma_constants();
    let hundred = single::from_whole(100);
    single_laws::law_small_whole_is_exact(100);
    rounding::lemma_magnitude_ordered(0, ram_pct.pattern());
    rounding::lemma_magnitude_ordered(0, hundred.pattern());
    let q = single::quotient(ram_pct, hundred);
    if ram_pct.is_finite() {
        let p = rounding::magnitude(ram_pct.pattern()) * pow2(149);
        let d = rounding::magnitude(hundred.pattern());
        rounding::lemma_nearest_rounds(p, d);
        if ram_pct.pattern() == 0 {
            assert(0 * pow2(149) == 0);
            assert(d * 0 == 0);
            rounding::lemma_rounding_exact(0, d, 0);
            rounding::lemma_nearest_is(0, d, 0);
        } else {
            assert(q.negative());
        }
    } else {
        assert(q.negative() && q.pattern() == rounding::INFINITY);
    }
    rounding::lemma_magnitude_ordered(0, q.pattern());
}

/// The head is white, whatever its brightness and however stressed the system.
pub proof fn law_heads_are_white(brightness: Single, ram_pct: Single)
    ensures
        colour_of(brightness, ram_pct, true) == Ink::White,
{
}

/// Without memory in use a trail at full brightness is pure green.
pub proof fn law_no_stress_is_green(brightness: Single, ram_pct: Single)
    requires
        single::at_most(ram_pct, (Single { bits: 0 })),
        single::at_most(one(), brightness),
    ensures
        colour_of(brightness, ram_pct, false) == Ink::Rgb(0, 255, 0),
{
    lemma_constants();
    lemma_no_stress(ram_pct);
    lemma_full_brightness(brightness);
    let z = pow2(149);
    let t = stress(ram_pct);
    single_laws::law_small_whole_is_exact(220);
    single_laws::law_small_whole_is_exact(255);
    single_laws::law_small_whole_is_exact(0);
    single_laws::law_small_whole_is_exact(5);
    let f255 = single::from_whole(255);
    lemma_green_base(t);
    lemma_times_one(f255);
    lemma_times_one(single::from_whole(0));
    lemma_floor_of_whole(single::product(single::from_whole(0), one()), 0);
    lemma_floor_of_whole(single::product(f255, one()), 255);
}

/// A factor of zero, with either sign, gives zero.
proof fn lemma_times_zero(a: Single, b: Single)
    requires
        a.pattern() == 0,
        b.is_finite(),
    ensures
        single::product(a, b).pattern() == 0,
{
    let z = pow2(149);
    lemma_pow2_pos(149);
    rounding::lemma_magnitude_small();
    assert(0 * rounding::magnitude(b.pattern()) == 0);
    assert(z * 0 == 0);
    rounding::lemma_rounding_exact(0, z, 0);
    rounding::lemma_nearest_is(0, z, 0);
}

/// The colour of no stress before it is dimmed.
proof fn lemma_green_base(t: Single)
    requires
        t.pattern() == 0,
    ensures
        base_red(t) == 0,
        base_green(t) == 255,
        least_green(t) == 5,
{
    lemma_constants();
    single_laws::law_small_whole_is_exact(220);
    single_laws::law_small_whole_is_exact(255);
    let (f220, f255) = (single::from_whole(220), single::from_whole(255));
    lemma_times_zero(t, f220);
    assert(single::product(t, f220).value() == 0);
    lemma_floor_of_whole(single::product(t, f220), 0);
    let taken = single::product(t, nine_tenths());
    lemma_times_zero(t, nine_tenths());
    assert(single::negation(taken).pattern() == 0);
    assert(single::difference(one(), taken) == one()) by {
        single_laws::law_numbers_round_to_themselves(one());
    }
    lemma_times_one(f255);
    lemma_floor_of_whole(single::product(one(), f255), 255);
}

/// With all memory in use a trail at full brightness is red.
pub proof fn law_full_stress_is_red(brightness: Single, ram_pct: Single)
    requires
        single::at_most(single::from_whole(100), ram_pct),
        single::at_most(one(), brightness),
    ensures
        colour_of(brightness, ram_pct, false) == Ink::Rgb(220, 0, 0),
{
    lemma_constants();
    lemma_full_stress(ram_pct);
    lemma_full_brightness(brightness);
    lemma_red_base();
    single_laws::law_small_whole_is_exact(220);
    single_laws::law_small_whole_is_exact(255);
    single_laws::law_small_whole_is_exact(0);
    lemma_times_one(single::from_whole(220));
    lemma_floor_of_whole(single::product(single::from_whole(220), one()), 220);
    lemma_times_one(single::from_whole(0));
    lemma_floor_of_whole(single::product(single::from_whole(0), one()), 0);
}

/// The colour of full stress before it is dimmed.
proof fn lemma_red_base()
    ensures
        base_red(one()) == 220,
        base_green(one()) == 0,
        least_green(one()) == 0,
{
    lemma_constants();
    single_laws::law_small_whole_is_exact(220);
    let f220 = single::from_whole(220);
    lemma_times_one(f220);
    lemma_floor_of_whole(single::product(one(), f220), 220);
}

/// What a trail is dimmed by lies between the faintest brightness and one.
proof fn lemma_dimming_bounds(brightness: Single)
    requires
        !brightness.is_nan(),
    ensures
        dimming(brightness).is_finite(),
        !dimming(brightness).negative(),
        (Single { bits: FAINTEST }).value() <= dimming(brightness).value() <= pow2(149),
{
    lemma_constants();
    let b = dimming(brightness);
    rounding::lemma_magnitude_ordered(one().pattern(), b.pattern());
    rounding::lemma_magnitude_ordered(b.pattern(), one().pattern());
    rounding::lemma_magnitude_ordered(one().pattern(), rounding::INFINITY as nat);
    rounding::lemma_magnitude_ordered(0, b.pattern());
}

/// No cell is painted black.
pub proof fn law_no_cell_is_black(brightness: Single, ram_pct: Single, is_head: bool)
    requires
        !brightness.is_nan(),
    ensures
        colour_of(brightness, ram_pct, is_head) != Ink::Rgb(0, 0, 0),
{
    if !is_head {
        lemma_constants();
        lemma_dimming_bounds(brightness);
        let z = pow2(149);
        let t = stress(ram_pct);
        let b = dimming(brightness);
        if single::at_most(one(), t) {
            assert(t == one()) by {
                if t.value() == one().value() {
                    rounding::lemma_magnitude_ordered(t.pattern(), one().pattern());
                }
            }
            lemma_red_base();
            single_laws::law_small_whole_is_exact(220);
            single_laws::law_small_whole_is_exact(8);
            let (f220, f8) = (single::from_whole(220), single::from_whole(8));
            let v = b.value();
            let w = (Single { bits: FAINTEST }).value();
            assert((220 * z) * v >= z * (8 * z)) by (nonlinear_arith)
                requires
                    v >= w,
                    220 * w >= 8 * z,
                    z > 0,
            ;
            single_laws::law_product_keeps_sides(f220, b, f8);
            single_laws::law_floor_keeps_sides(single::product(f220, b), 8);
        } else {
            single_laws::law_small_whole_is_exact(5);
            single_laws::law_small_whole_is_exact(255);
            let g = base_green(t);
            assert(0 <= g <= 255);
            single_laws::law_small_whole_is_exact(g as nat);
            let p = single::product(single::from_whole(g as nat), b);
            single_laws::law_product_keeps_sides(
                single::from_whole(g as nat),
                b,
                single::from_whole(5),
            );
            let c = single::clamped(p, single::from_whole(5), single::from_whole(255));
            assert(c.value() >= 5 * z);
            single_laws::law_floor_keeps_sides(c, 5);
        }
    }
}

/// Floors keep the order of numbers.
proof fn lemma_floor_ordered(a: Single, b: Single)
    requires
        !a.is_nan(),
        !b.is_nan(),
        a.value() <= b.value(),
    ensures
        single::floor_between(a, 0, 255) <= single::floor_between(b, 0, 255),
{
    lemma_pow2_pos(149);
    vstd::arithmetic::div_mod::lemma_div_is_ordered(a.value(), b.value(), pow2(149) as int);
}

/// Small whole numbers keep their order and are not negative.
proof fn lemma_small_whole_ordered(m: nat, n: nat)
    requires
        m <= n <= 255,
    ensures
        single::from_whole(m).is_finite(),
        single::from_whole(n).is_finite(),
        !single::from_whole(m).negative(),
        !single::from_whole(n).negative(),
        single::from_whole(m).value() <= single::from_whole(n).value(),
{
    single_laws::law_small_whole_is_exact(m);
    single_laws::law_small_whole_is_exact(n);
    let z = pow2(149);
    assert(m * z <= n * z) by (nonlinear_arith)
        requires
            m <= n,
    ;
}

/// Stress is between none and one, and grows with the percentage.
proof fn lemma_stress_ordered(ram1: Single, ram2: Single)
    requires
        single::at_most(ram1, ram2),
    ensures
        !stress(ram1).is_nan(),
        !stress(ram2).is_nan(),
        0 <= stress(ram1).value() <= stress(ram2).value() <= pow2(149),
{
    lemma_constants();
    let hundred = single::from_whole(100);
    single_laws::law_small_whole_is_exact(100);
    rounding::lemma_magnitude_ordered(0, ram1.pattern());
    rounding::lemma_magnitude_ordered(0, ram2.pattern());
    lemma_stress_is_a_number(ram1);
    lemma_stress_is_a_number(ram2);
    if single::at_most(hundred, ram2) {
        lemma_full_stress(ram2);
    } else if single::at_most(ram1, (Single { bits: 0 })) {
        lemma_no_stress(ram1);
    } else {
        rounding::lemma_magnitude_ordered(hundred.pattern(), rounding::INFINITY as nat);
        single_laws::law_quotient_keeps_order(ram1, hundred, ram2);
    }
}

proof fn lemma_stress_is_a_number(ram_pct: Single)
    requires
        !ram_pct.is_nan(),
    ensures
        !stress(ram_pct).is_nan(),
        0 <= stress(ram_pct).value() <= pow2(149),
{
    lemma_constants();
    single_laws::law_small_whole_is_exact(100);
    let hundred = single::from_whole(100);
    rounding::lemma_magnitude_ordered(0, hundred.pattern());
    let p = rounding::magnitude(ram_pct.pattern()) * pow2(149);
    let d = rounding::magnitude(hundred.pattern());
    rounding::lemma_nearest_rounds(p, d);
}

/// The more memory is in use, the redder and the less green a trail is.
pub proof fn law_stress_reddens(brightness: Single, ram1: Single, ram2: Single)
    requires
        !brightness.is_nan(),
        single::at_most(ram1, ram2),
    ensures
        colour_of(brightness, ram1, false)->Rgb_0 <= colour_of(brightness, ram2, false)->Rgb_0,
        colour_of(brightness, ram1, false)->Rgb_1 >= colour_of(brightness, ram2, false)->Rgb_1,
{
    lemma_constants();
    lemma_stress_ordered(ram1, ram2);
    lemma_dimming_bounds(brightness);
    let (t1, t2) = (stress(ram1), stress(ram2));
    let b = dimming(brightness);
    lemma_bases_ordered(t1, t2);
    let (r1, r2) = (base_red(t1), base_red(t2));
    let (g1, g2) = (base_green(t1), base_green(t2));
    lemma_small_whole_ordered(r1 as nat, r2 as nat);
    lemma_small_whole_ordered(g2 as nat, g1 as nat);
    lemma_small_whole_ordered(least_green(t2), least_green(t1));
    lemma_small_whole_ordered(least_green(t1), 255);
    let (fr1, fr2) = (single::from_whole(r1 as nat), single::from_whole(r2 as nat));
    let (fg1, fg2) = (single::from_whole(g1 as nat), single::from_whole(g2 as nat));
    single_laws::law_product_keeps_order(fr1, b, fr2, b);
    single_laws::law_product_keeps_order(fg2, b, fg1, b);
    single_laws::law_product_keeps_sides(fr1, b, one());
    single_laws::law_product_keeps_sides(fr2, b, one());
    single_laws::law_product_keeps_sides(fg1, b, one());
    single_laws::law_product_keeps_sides(fg2, b, one());
    lemma_floor_ordered(single::product(fr1, b), single::product(fr2, b));
    let most = single::from_whole(255);
    let c1 = single::clamped(
        single::product(fg1, b),
        single::from_whole(least_green(t1)),
        most,
    );
    let c2 = single::clamped(
        single::product(fg2, b),
        single::from_whole(least_green(t2)),
        most,
    );
    lemma_floor_ordered(c2, c1);
}

/// The colours before dimming go the same way.
proof fn lemma_bases_ordered(t1: Single, t2: Single)
    requires
        !t1.is_nan(),
        !t2.is_nan(),
        0 <= t1.value() <= t2.value() <= pow2(149),
    ensures
        0 <= base_red(t1) <= base_red(t2) <= 255,
        0 <= base_green(t2) <= base_green(t1) <= 255,
        least_green(t2) <= least_green(t1),
{
    lemma_constants();
    lemma_unit_parts(t1);
    lemma_unit_parts(t2);
    if t1.pattern() == 0 {
        lemma_green_base(t1);
    } else if t2.pattern() == 0 {
        rounding::lemma_magnitude_ordered(0, t1.pattern());
    } else {
        single_laws::law_small_whole_is_exact(220);
        single_laws::law_small_whole_is_exact(255);
        let (f220, f255) = (single::from_whole(220), single::from_whole(255));
        single_laws::law_product_keeps_order(t1, f220, t2, f220);
        single_laws::law_product_keeps_sides(t1, f220, one());
        single_laws::law_product_keeps_sides(t2, f220, one());
        lemma_floor_ordered(single::product(t1, f220), single::product(t2, f220));
        let (p1, p2) = (single::product(t1, nine_tenths()), single::product(t2, nine_tenths()));
        lemma_part_of_unit(t1);
        lemma_part_of_unit(t2);
        single_laws::law_product_keeps_order(t1, nine_tenths(), t2, nine_tenths());
        let (n1, n2) = (single::negation(p1), single::negation(p2));
        assert(n1.value() == -p1.value() && n2.value() == -p2.value());
        let (d1, d2) = (single::difference(one(), p1), single::difference(one(), p2));
        single_laws::law_sum_keeps_order(one(), n2, one(), n1);
        single_laws::law_sum_keeps_sides(one(), n1, one());
        single_laws::law_sum_keeps_sides(one(), n2, one());
        single_laws::law_sum_keeps_sides(one(), n1, (Single { bits: 0 }));
        single_laws::law_sum_keeps_sides(one(), n2, (Single { bits: 0 }));
        single_laws::law_sum_has_no_sign(one(), n1);
        single_laws::law_sum_has_no_sign(one(), n2);
        lemma_unit_parts(d1);
        lemma_unit_parts(d2);
        single_laws::law_product_keeps_order(d2, f255, d1, f255);
        single_laws::law_product_keeps_sides(d1, f255, one());
        single_laws::law_product_keeps_sides(d2, f255, one());
        lemma_floor_ordered(single::product(d2, f255), single::product(d1, f255));
    }
}

/// Nine tenths of a number from zero to one are such a number too.
proof fn lemma_part_of_unit(t: Single)
    requires
        t.is_finite(),
        !t.negative(),
        0 <= t.value() <= pow2(149),
    ensures
        single::product(t, nine_tenths()).is_finite(),
        !single::product(t, nine_tenths()).negative(),
        0 <= single::product(t, nine_tenths()).value() <= pow2(149),
{
    lemma_constants();
    let z = pow2(149);
    let (v, n) = (t.value(), nine_tenths().value());
    assert(0 <= v * n <= z * z) by (nonlinear_arith)
        requires
            0 <= v <= z,
            0 <= n <= z,
    ;
    single_laws::law_product_keeps_sides(t, nine_tenths(), one());
    lemma_unit_parts(single::product(t, nine_tenths()));
}

/// A number from zero to one is finite, and has a sign only if it is zero.
proof fn lemma_unit_parts(t: Single)
    requires
        !t.is_nan(),
        0 <= t.value() <= pow2(149),
    ensures
        t.is_finite(),
        t.negative() ==> t.pattern() == 0,
{
    lemma_constants();
    rounding::lemma_magnitude_ordered(0, t.pattern());
    rounding::lemma_magnitude_ordered(one().pattern(), rounding::INFINITY as nat);
}

/// The dimmer a cell of a trail, the darker its colour.
pub proof fn law_fading_darkens(dim: Single, bright: Single, ram_pct: Single)
    requires
        single::at_most(dim, bright),
    ensures
        colour_of(dim, ram_pct, false)->Rgb_0 <= colour_of(bright, ram_pct, false)->Rgb_0,
        colour_of(dim, ram_pct, false)->Rgb_1 <= colour_of(bright, ram_pct, false)->Rgb_1,
{
    lemma_constants();
    lemma_dimming_bounds(dim);
    lemma_dimming_bounds(bright);
    let t = stress(ram_pct);
    let (b1, b2) = (dimming(dim), dimming(bright));
    assert(b1.value() <= b2.value());
    let (r, g) = (base_red(t), base_green(t));
    lemma_small_whole_ordered(r as nat, r as nat);
    lemma_small_whole_ordered(g as nat, g as nat);
    lemma_small_whole_ordered(least_green(t), 255);
    let (fr, fg) = (single::from_whole(r as nat), single::from_whole(g as nat));
    single_laws::law_product_keeps_order(fr, b1, fr, b2);
    single_laws::law_product_keeps_order(fg, b1, fg, b2);
    single_laws::law_product_keeps_sides(fr, b1, one());
    single_laws::law_product_keeps_sides(fr, b2, one());
    single_laws::law_product_keeps_sides(fg, b1, one());
    single_laws::law_product_keeps_sides(fg, b2, one());
    lemma_floor_ordered(single::product(fr, b1), single::product(fr, b2));
    let (least, most) = (single::from_whole(least_green(t)), single::from_whole(255));
    lemma_floor_ordered(
        single::clamped(single::product(fg, b1), least, most),
        single::clamped(single::product(fg, b2), least, most),
    );
}

/// A trail has no blue, whatever its brightness and however stressed the system.
pub proof fn law_trails_have_no_blue(brightness: Single, ram_pct: Single)
    ensures
        colour_of(brightness, ram_pct, false) is Rgb,
        colour_of(brightness, ram_pct, false)->Rgb_2 == 0,
{
}

/// What is not a number counts for nothing: without a percentage a trail is as green
/// as a ghost, and without a brightness it is black.
pub proof fn law_colours_of_what_is_not_a_number(brightness: Single, ram_pct: Single)
    ensures
        ram_pct.is_nan() && !brightness.is_nan() ==> colour_of(brightness, ram_pct, false)
            == Ink::Rgb(0, 5, 0),
        brightness.is_nan() ==> colour_of(brightness, ram_pct, false) == Ink::Rgb(0, 0, 0),
{
    lemma_constants();
    single_laws::law_small_whole_is_exact(0);
    single_laws::law_small_whole_is_exact(5);
    single_laws::law_small_whole_is_exact(255);
    if ram_pct.is_nan() && !brightness.is_nan() {
        lemma_dimming_bounds(brightness);
        let t = stress(ram_pct);
        let b = dimming(brightness);
        assert(t.is_nan());
        let nothing = single::from_whole(0);
        rounding::lemma_magnitude_ordered(0, nothing.pattern());
        assert(0 * pow2(149) == 0);
        lemma_times_zero(nothing, b);
        assert(base_red(t) == 0 && base_green(t) == 0);
        let p = single::product(nothing, b);
        lemma_floor_of_whole(p, 0);
        lemma_floor_of_whole(single::from_whole(5), 5);
    }
}

/// The floor of a value from 0 to 255.
proof fn lemma_floor_window(d: int, v: int, z: int)
    requires
        z > 0,
        0 <= v <= 255 * z,
        d == 0 || d * z <= v,
        d == 255 || v < (d + 1) * z,
    ensures
        d * z <= v < (d + 1) * z,
        (d + 1) * z == d * z + z,
{
    assert((d + 1) * z == d * z + z) by (nonlinear_arith);
    if d == 0 {
        assert(d * z == 0) by (nonlinear_arith)
            requires
                d == 0,
        ;
    }
    if d == 255 {
        assert((d + 1) * z == 256 * z) by (nonlinear_arith)
            requires
                d == 255,
        ;
    }
}

/// A small whole number times a dimming, with its floor.
#[verifier::spinoff_prover]
proof fn lemma_dimmed(c: nat, b: Single)
    requires
        c <= 255,
        b.is_finite(),
        !b.negative(),
        (Single { bits: FAINTEST }).value() <= b.value() <= pow2(149),
    ensures
        ({
            let p = single::product(single::from_whole(c), b);
            let d = single::floor_between(p, 0, 255);
            &&& !p.is_nan()
            &&& 0 <= p.value() <= 255 * pow2(149)
            &&& 0 <= d <= c
            &&& d * pow2(149) <= p.value() < (d + 1) * pow2(149)
            &&& 0x1_0000 * single_laws::apart(p.value(), c * b.value()) < pow2(149)
        }),
{
    lemma_constants();
    let z = pow2(149) as int;
    single_laws::law_small_whole_is_exact(c);
    let f = single::from_whole(c);
    let p = single::product(f, b);
    let (bv, pv) = (b.value(), p.value());
    single_laws::law_product_keeps_sides(f, b, f);
    single_laws::law_product_keeps_sides(f, b, (Single { bits: 0 }));
    single_laws::law_product_value(f, b);
    assert(0 <= (c * z) * bv <= z * (c * z)) by (nonlinear_arith)
        requires
            0 <= bv <= z,
            c >= 0,
    ;
    assert(z * 0 == 0);
    assert(c * z <= 255 * z) by (nonlinear_arith)
        requires
            c <= 255,
            z > 0,
    ;
    single_laws::law_floor_is_the_whole_part(p, 0, 255);
    let d = single::floor_between(p, 0, 255);
    assert(0 <= pv <= c * z);
    lemma_floor_window(d, pv, z);
    assert(d <= c) by (nonlinear_arith)
        requires
            d * z <= pv,
            pv <= c * z,
            z > 0,
    ;
    lemma_pow2_adds(8, 149);
    lemma_pow2_strictly_increases(157, 277);
    lemma_pow2_strictly_increases(28, 149);
    lemma2_to64();
    let n = (c * z) * bv;
    let w = c * bv;
    assert(n == z * w) by (nonlinear_arith)
        requires
            n == (c * z) * bv,
            w == c * bv,
    ;
    assert(n <= z * pow2(277)) by (nonlinear_arith)
        requires
            n <= z * (c * z),
            c * z <= pow2(277),
            z > 0,
    ;
    single_laws::law_rounding_error(n, z as nat);
    assert(w <= 255 * z) by (nonlinear_arith)
        requires
            w == c * bv,
            0 <= bv <= z,
            c <= 255,
    ;
    assert(0x1_0000 * single_laws::apart(pv, w) < z) by (nonlinear_arith)
        requires
            0x100_0000 * single_laws::apart(z * pv, n) <= n || 2 * single_laws::apart(z * pv, n) <= z,
            single_laws::apart(z * pv, n) == if z * pv <= n { n - z * pv } else { z * pv - n },
            single_laws::apart(pv, w) == if pv <= w { w - pv } else { pv - w },
            n == z * w,
            0 <= w <= 255 * z,
            z >= 0x1000_0000,
    {
        let e = single_laws::apart(pv, w);
        assert(single_laws::apart(z * pv, n) == z * e) by {
            assert(pv <= w ==> z * pv <= z * w);
            assert(pv > w ==> z * pv >= z * w);
            assert(z * (w - pv) == z * w - z * pv);
            assert(z * (pv - w) == z * pv - z * w);
        }
        if 2 * (z * e) <= z {
            assert(e == 0) by {
                assert(e >= 1 ==> z * e >= z);
            }
        } else {
            assert(z * (0x100_0000 * e) <= z * w);
            assert(0x100_0000 * e <= w);
        }
    }
}

/// Brightness is a factor: the red of a dimmed trail is the red of a trail at full
/// brightness times its brightness, rounded down, and so is its green, which does not
/// fall under 5 but for the red of full stress. A brightness under 0.04 counts as 0.04,
/// one above one as one, and the product may be off by 2^-16 before it is rounded down.
#[verifier::spinoff_prover]
pub proof fn law_brightness_is_a_factor(brightness: Single, ram_pct: Single)
    requires
        !brightness.is_nan(),
    ensures
        ({
            let z = pow2(149) as int;
            let least = (Single { bits: 0x3d23_d70a }).value();
            let v = brightness.value();
            let b = if v < least { least } else if v > z { z } else { v };
            let full = colour_of((Single { bits: 0x3f80_0000 }), ram_pct, false);
            let dim = colour_of(brightness, ram_pct, false);
            &&& 0x1_0000 * (dim->Rgb_0 * z - full->Rgb_0 * b) < z
            &&& 0x1_0000 * (full->Rgb_0 * b - (dim->Rgb_0 + 1) * z) < z
            &&& single::at_most(single::from_whole(100), ram_pct) ==> dim->Rgb_1 == 0
            &&& !single::at_most(single::from_whole(100), ram_pct) ==> {
                &&& dim->Rgb_1 >= 5
                &&& dim->Rgb_1 == 5 || 0x1_0000 * (dim->Rgb_1 * z - full->Rgb_1 * b) < z
                &&& 0x1_0000 * (full->Rgb_1 * b - (dim->Rgb_1 + 1) * z) < z
            }
        }),
{
    lemma_constants();
    let z = pow2(149) as int;
    let one_ = one();
    let t = stress(ram_pct);
    let (b, u) = (dimming(brightness), dimming(one_));
    lemma_dimming_bounds(brightness);
    lemma_dimming_bounds(one_);
    lemma_full_brightness(one_);
    let (r, g) = (base_red(t) as nat, base_green(t) as nat);
    lemma_dimmed(r, b);
    lemma_dimmed(r, u);
    lemma_dimmed(g, b);
    lemma_dimmed(g, u);
    single_laws::law_small_whole_is_exact(r);
    single_laws::law_small_whole_is_exact(g);
    lemma_times_one(single::from_whole(r));
    lemma_times_one(single::from_whole(g));
    lemma_floor_of_whole(single::product(single::from_whole(r), one_), r as int);
    lemma_floor_of_whole(single::product(single::from_whole(g), one_), g as int);
    single_laws::law_small_whole_is_exact(0);
    single_laws::law_small_whole_is_exact(5);
    single_laws::law_small_whole_is_exact(255);
    single_laws::law_small_whole_is_exact(100);
    lemma_where_stress_is_full(ram_pct);
    let (p, q) = (single::product(single::from_whole(g), b), single::product(single::from_whole(g), one_));
    lemma_floor_of_whole(single::from_whole(5), 5);
    lemma_floor_of_whole(single::from_whole(0), 0);
    let bv = b.value();
    assert(5 * bv <= 5 * z);
    if single::at_most(one_, t) {
        assert(base_green(t) == 0);
        assert(g * bv == 0) by (nonlinear_arith)
            requires
                g == 0,
        ;
        assert(least_green(t) == 0);
    } else {
        let d = single::floor_between(p, 0, 255);
        assert(d >= 5 ==> p.value() >= 5 * z) by (nonlinear_arith)
            requires
                d * z <= p.value(),
                z > 0,
        ;
        assert(d < 5 ==> p.value() < 5 * z) by (nonlinear_arith)
            requires
                p.value() < (d + 1) * z,
                z > 0,
        ;
        if g < 5 {
            assert(g * bv <= 5 * bv) by (nonlinear_arith)
                requires
                    g <= 5,
                    bv >= 0,
            ;
            assert(g * z < 5 * z) by (nonlinear_arith)
                requires
                    g < 5,
                    z > 0,
            ;
        } else {
            assert(g * z >= 5 * z) by (nonlinear_arith)
                requires
                    g >= 5,
                    z > 0,
            ;
            assert((d + 1) * z <= 6 * z || d > 5) by (nonlinear_arith)
                requires
                    z > 0,
            ;
        }
    }
}

/// Stress is full exactly from 100 percent on.
proof fn lemma_where_stress_is_full(ram_pct: Single)
    ensures
        single::at_most(one(), stress(ram_pct)) <==> single::at_most(
            single::from_whole(100),
            ram_pct,
        ),
{
    lemma_constants();
    let z = pow2(149);
    let hundred = single::from_whole(100);
    single_laws::law_small_whole_is_exact(100);
    rounding::lemma_magnitude_ordered(0, hundred.pattern());
    if single::at_most(hundred, ram_pct) {
        lemma_full_stress(ram_pct);
    } else if ram_pct.is_nan() {
        assert(stress(ram_pct).is_nan());
    } else if single::at_most(ram_pct, (Single { bits: 0 })) {
        lemma_no_stress(ram_pct);
    } else {
        // The last number before 100 is 13107199 * 2^-17, and the one before 1 is
        // 16777215 * 2^-24.
        rounding::lemma_magnitude_ordered(0, ram_pct.pattern());
        rounding::lemma_magnitude_ordered(ram_pct.pattern(), rounding::INFINITY as nat);
        let x = pow2(125);
        lemma_pow2_pos(125);
        lemma_pow2_adds(7, 125);
        lemma_pow2_adds(24, 125);
        lemma2_to64();
        rounding::lemma_magnitude_parts(132, 13107200);
        rounding::lemma_magnitude_parts(132, 13107199);
        rounding::lemma_magnitude_parts(125, 16777215);
        let last = 132 * 0x80_0000 + 13107199nat;
        assert(rounding::magnitude(last + 1) == hundred.value());
        rounding::lemma_magnitude_ordered(last + 1, hundred.pattern());
        rounding::lemma_magnitude_ordered(ram_pct.pattern(), last + 1);
        rounding::lemma_magnitude_ordered(last + 1, ram_pct.pattern());
        rounding::lemma_magnitude_ordered(ram_pct.pattern(), last);
        rounding::lemma_magnitude_ordered(hundred.pattern(), rounding::INFINITY as nat);
        assert(ram_pct.pattern() <= last);
        let s = Single { bits: 0x3f7f_ffff };
        assert(s.pattern() == 125 * 0x80_0000 + 16777215);
        let v = ram_pct.value();
        assert(v <= 13107199 * (128 * x));
        assert(v * z <= (100 * z) * s.value()) by (nonlinear_arith)
            requires
                v <= 13107199 * (128 * x),
                s.value() == 16777215 * x,
                z > 0,
                x > 0,
        {
            assert(13107199 * (128 * x) <= 100 * (16777215 * x));
            assert(v <= 100 * s.value());
        }
        single_laws::law_quotient_keeps_sides(ram_pct, hundred, s);
        assert(s.value() < z);
    }
}

/// The colour of a trail at full brightness. Its red grows with the memory in use,
/// from none to 220 at 100 percent, and its green falls from 255 by nine tenths on the
/// way there; both are rounded down, after they may have been off by 1/256. From 100
/// percent on there is no green.
#[verifier::spinoff_prover]
pub proof fn law_colours_of_stress(brightness: Single, ram_pct: Single)
    requires
        single::at_most((Single { bits: 0x3f80_0000 }), brightness),
        !ram_pct.is_nan(),
    ensures
        ({
            let z = pow2(149) as int;
            let v = ram_pct.value();
            let p = if v < 0 { 0 } else if v > 100 * z { 100 * z } else { v };
            let c = colour_of(brightness, ram_pct, false);
            // 220 * p / 100
            &&& 256 * (100 * (c->Rgb_0 * z) - 220 * p) <= 100 * z
            &&& 256 * (220 * p - 100 * ((c->Rgb_0 + 1) * z)) < 100 * z
            &&& v >= 100 * z ==> c->Rgb_1 == 0
            // 255 - 255 * 0.9 * p / 100
            &&& v < 100 * z ==> {
                &&& 256 * (1000 * (c->Rgb_1 * z) - 255 * (1000 * z - 9 * p)) <= 1000 * z
                &&& 256 * (255 * (1000 * z - 9 * p) - 1000 * ((c->Rgb_1 + 1) * z)) < 1000 * z
            }
        }),
{
    lemma_constants();
    let z = pow2(149) as int;
    let hundred = single::from_whole(100);
    single_laws::law_small_whole_is_exact(100);
    let v = ram_pct.value();
    if v >= 100 * z {
        law_full_stress_is_red(brightness, ram_pct);
        let c = colour_of(brightness, ram_pct, false);
        assert(c->Rgb_0 * z == 220 * z && (c->Rgb_0 + 1) * z == 221 * z) by (nonlinear_arith)
            requires
                c->Rgb_0 == 220,
        ;
    } else if v <= 0 {
        law_no_stress_is_green(brightness, ram_pct);
        let c = colour_of(brightness, ram_pct, false);
        assert(c->Rgb_0 * z == 0 && (c->Rgb_0 + 1) * z == z) by (nonlinear_arith)
            requires
                c->Rgb_0 == 0,
        ;
        assert(c->Rgb_1 * z == 255 * z && (c->Rgb_1 + 1) * z == 256 * z) by (nonlinear_arith)
            requires
                c->Rgb_1 == 255,
        ;
    } else {
        lemma_colours_between(brightness, ram_pct);
    }
}

/// A finite number that is not negative times another one, in parts of one.
proof fn lemma_product_near(a: Single, b: Single)
    requires
        a.is_finite(),
        b.is_finite(),
        0 <= a.value() <= pow2(149),
        0 <= b.value() <= 255 * pow2(149),
    ensures
        ({
            let p = single::product(a, b).value();
            let e = a.value() * b.value() - p * pow2(149);
            &&& !single::product(a, b).is_nan()
            &&& 0x1_0000 * e <= pow2(149) * pow2(149)
            &&& -(pow2(149) * pow2(149)) <= 0x1_0000 * e
        }),
{
    let z = pow2(149) as int;
    lemma_pow2_pos(149);
    lemma_pow2_adds(8, 149);
    lemma_pow2_strictly_increases(157, 277);
    lemma_pow2_strictly_increases(17, 149);
    lemma2_to64();
    single_laws::law_product_value(a, b);
    let (av, bv) = (a.value(), b.value());
    let n = av * bv;
    assert(0 <= n <= 255 * (z * z)) by (nonlinear_arith)
        requires
            n == av * bv,
            0 <= av <= z,
            0 <= bv <= 255 * z,
    ;
    assert(255 * (z * z) <= z * pow2(277)) by (nonlinear_arith)
        requires
            255 * z <= pow2(277),
            z > 0,
    ;
    single_laws::law_rounding_error(n, z as nat);
    let p = single::product(a, b).value();
    assert(z * p == p * z) by (nonlinear_arith);
    assert(0x1_0000 * z <= z * z) by (nonlinear_arith)
        requires
            z >= 0x1_0000,
    ;
}

/// The same between the ends.
#[verifier::spinoff_prover]
proof fn lemma_colours_between(brightness: Single, ram_pct: Single)
    requires
        single::at_most((Single { bits: 0x3f80_0000 }), brightness),
        !ram_pct.is_nan(),
        0 < ram_pct.value() < 100 * pow2(149),
    ensures
        ({
            let z = pow2(149) as int;
            let p = ram_pct.value();
            let c = colour_of(brightness, ram_pct, false);
            &&& 256 * (100 * (c->Rgb_0 * z) - 220 * p) <= 100 * z
            &&& 256 * (220 * p - 100 * ((c->Rgb_0 + 1) * z)) < 100 * z
            &&& 256 * (1000 * (c->Rgb_1 * z) - 255 * (1000 * z - 9 * p)) <= 1000 * z
            &&& 256 * (255 * (1000 * z - 9 * p) - 1000 * ((c->Rgb_1 + 1) * z)) < 1000 * z
        }),
{
    lemma_constants();
    let z = pow2(149) as int;
    let hundred = single::from_whole(100);
    single_laws::law_small_whole_is_exact(100);
    single_laws::law_small_whole_is_exact(220);
    single_laws::law_small_whole_is_exact(255);
    single_laws::law_small_whole_is_exact(5);
    let v = ram_pct.value();
    rounding::lemma_magnitude_ordered(0, ram_pct.pattern());
    rounding::lemma_magnitude_ordered(ram_pct.pattern(), rounding::INFINITY as nat);
    rounding::lemma_magnitude_ordered(hundred.pattern(), rounding::INFINITY as nat);
    assert(ram_pct.is_finite() && !ram_pct.negative());
    lemma_full_brightness(brightness);
    lemma_where_stress_is_full(ram_pct);
    lemma_stress_is_a_number(ram_pct);
    let t = stress(ram_pct);
    lemma_stress_near(ram_pct);
    let tv = t.value();
    lemma_unit_parts(t);
    let (f220, f255) = (single::from_whole(220), single::from_whole(255));
    // Red.
    lemma_product_near(t, f220);
    let red = single::product(t, f220);
    let rv = red.value();
    assert(0x1_0000 * (220 * tv - rv) <= z && 0x1_0000 * (rv - 220 * tv) <= z) by (nonlinear_arith)
        requires
            0x1_0000 * (tv * (220 * z) - rv * z) <= z * z,
            -(z * z) <= 0x1_0000 * (tv * (220 * z) - rv * z),
            z > 0,
    {
        assert((0x1_0000 * (220 * tv - rv)) * z == 0x1_0000 * (tv * (220 * z) - rv * z));
    }
    single_laws::law_product_keeps_sides(t, f220, f255);
    single_laws::law_product_keeps_sides(t, f220, (Single { bits: 0 }));
    assert(0 <= tv * (220 * z) <= z * (255 * z)) by (nonlinear_arith)
        requires
            0 <= tv <= z,
    ;
    assert(z * 0 == 0);
    single_laws::law_floor_is_the_whole_part(red, 0, 255);
    let r = base_red(t);
    lemma_floor_window(r, rv, z);
    // Green.
    lemma_part_of_unit(t);
    lemma_nine_tenths_near(t);
    let c = single::product(t, nine_tenths());
    let cv = c.value();
    let m = single::negation(c);
    assert(m.value() == -cv && m.is_finite());
    single_laws::law_sum_keeps_sides(one(), m, one());
    single_laws::law_sum_keeps_sides(one(), m, (Single { bits: 0 }));
    single_laws::law_sum_value(one(), m);
    lemma_pow2_strictly_increases(149, 277);
    single_laws::law_rounding_error(z - cv, 1);
    let d = single::difference(one(), c);
    let dv = d.value();
    assert(0x100_0000 * (dv - (z - cv)) <= z && 0x100_0000 * ((z - cv) - dv) <= z);
    lemma_unit_parts(d);
    lemma_product_near(d, f255);
    let green = single::product(d, f255);
    let gv = green.value();
    assert(0x1_0000 * (255 * dv - gv) <= z && 0x1_0000 * (gv - 255 * dv) <= z) by (nonlinear_arith)
        requires
            0x1_0000 * (dv * (255 * z) - gv * z) <= z * z,
            -(z * z) <= 0x1_0000 * (dv * (255 * z) - gv * z),
            z > 0,
    {
        assert((0x1_0000 * (255 * dv - gv)) * z == 0x1_0000 * (dv * (255 * z) - gv * z));
    }
    single_laws::law_product_keeps_sides(d, f255, f255);
    single_laws::law_product_keeps_sides(d, f255, (Single { bits: 0 }));
    assert(0 <= dv * (255 * z) <= z * (255 * z)) by (nonlinear_arith)
        requires
            0 <= dv <= z,
    ;
    single_laws::law_floor_is_the_whole_part(green, 0, 255);
    let g = base_green(t);
    lemma_floor_window(g, gv, z);
    assert(!single::at_most(one(), t));
    single_laws::law_small_whole_is_exact(r as nat);
    single_laws::law_small_whole_is_exact(g as nat);
    lemma_times_one(single::from_whole(r as nat));
    lemma_times_one(single::from_whole(g as nat));
    lemma_floor_of_whole(single::product(single::from_whole(r as nat), one()), r);
    lemma_floor_of_whole(single::product(single::from_whole(g as nat), one()), g);
    assert(g >= 5) by (nonlinear_arith)
        requires
            gv < (g + 1) * z,
            gv >= 6 * z,
            z > 0,
    ;
    assert(5 * z <= g * z <= 255 * z) by (nonlinear_arith)
        requires
            5 <= g <= 255,
            z > 0,
    ;
    let ink = colour_of(brightness, ram_pct, false);
    assert(ink->Rgb_0 == r && ink->Rgb_1 == g);
    assert(ink->Rgb_0 * z == r * z && (ink->Rgb_0 + 1) * z == r * z + z);
    assert(ink->Rgb_1 * z == g * z && (ink->Rgb_1 + 1) * z == g * z + z);
}

/// Stress is a hundredth of the percentage.
proof fn lemma_stress_near(ram_pct: Single)
    requires
        ram_pct.is_finite(),
        !ram_pct.negative(),
        0 < ram_pct.value() < 100 * pow2(149),
    ensures
        !stress(ram_pct).negative(),
        0x10_0000 * single_laws::apart(100 * stress(ram_pct).value(), ram_pct.value()) <= 100
            * pow2(149),
{
    lemma_constants();
    let z = pow2(149) as int;
    let hundred = single::from_whole(100);
    single_laws::law_small_whole_is_exact(100);
    rounding::lemma_magnitude_ordered(0, hundred.pattern());
    let v = ram_pct.value();
    let q = single::quotient(ram_pct, hundred);
    assert(v * z <= (100 * z) * z && v * z >= 0) by (nonlinear_arith)
        requires
            0 < v < 100 * z,
            z > 0,
    ;
    assert((100 * z) * 0 == 0);
    single_laws::law_quotient_keeps_sides(ram_pct, hundred, one());
    single_laws::law_quotient_keeps_sides(ram_pct, hundred, (Single { bits: 0 }));
    single_laws::law_quotient_value(ram_pct, hundred);
    lemma_pow2_strictly_increases(149, 277);
    lemma_pow2_strictly_increases(30, 149);
    lemma2_to64();
    assert(v * z <= (100 * z) * pow2(277)) by (nonlinear_arith)
        requires
            v * z <= (100 * z) * z,
            z <= pow2(277),
            z > 0,
    ;
    single_laws::law_rounding_error(v * z, (100 * z) as nat);
    let t = q.value();
    assert(stress(ram_pct).value() == t);
    let e = single_laws::apart(100 * t, v);
    assert((100 * z) * t == (100 * t) * z) by (nonlinear_arith);
    assert(single_laws::apart((100 * t) * z, v * z) == e * z) by (nonlinear_arith)
        requires
            e == if 100 * t <= v { v - 100 * t } else { 100 * t - v },
            single_laws::apart((100 * t) * z, v * z) == if (100 * t) * z <= v * z {
                v * z - (100 * t) * z
            } else {
                (100 * t) * z - v * z
            },
            z > 0,
    ;
    assert(0x10_0000 * e <= 100 * z) by (nonlinear_arith)
        requires
            0x100_0000 * (e * z) <= v * z || 2 * (e * z) <= 100 * z,
            0 < v < 100 * z,
            z >= 0x4000_0000,
    {
        if 2 * (e * z) <= 100 * z {
            assert(e <= 50);
        } else {
            assert(0x100_0000 * e <= v);
        }
    }
}

/// Nine tenths of a number from zero to one.
proof fn lemma_nine_tenths_near(t: Single)
    requires
        t.is_finite(),
        !t.negative(),
        0 <= t.value() <= pow2(149),
    ensures
        0x10_0000 * single_laws::apart(
            10 * single::product(t, nine_tenths()).value(),
            9 * t.value(),
        ) <= pow2(149),
{
    lemma_constants();
    let z = pow2(149) as int;
    let x = pow2(125) as int;
    lemma_pow2_pos(125);
    lemma_pow2_adds(24, 125);
    lemma_pow2_strictly_increases(149, 277);
    lemma_pow2_strictly_increases(30, 149);
    lemma2_to64();
    rounding::lemma_magnitude_parts(125, 15099494);
    let (v, n) = (t.value(), nine_tenths().value());
    assert(n == 15099494 * x);
    single_laws::law_product_value(t, nine_tenths());
    let c = single::product(t, nine_tenths()).value();
    let p = v * n;
    assert(0 <= p <= z * z) by (nonlinear_arith)
        requires
            p == v * n,
            0 <= v <= z,
            0 <= n <= z,
    ;
    assert(z * z <= z * pow2(277)) by (nonlinear_arith)
        requires
            z <= pow2(277),
            z > 0,
    ;
    single_laws::law_rounding_error(p, z as nat);
    assert(10 * p == 9 * (v * z) - 4 * (v * x)) by (nonlinear_arith)
        requires
            p == v * n,
            n == 15099494 * x,
            z == 0x100_0000 * x,
    ;
    let e = 10 * c - 9 * v;
    assert(0x10_0000 * e <= z && -z <= 0x10_0000 * e) by (nonlinear_arith)
        requires
            e == 10 * c - 9 * v,
            10 * p == 9 * (v * z) - 4 * (v * x),
            z == 0x100_0000 * x,
            0 <= v <= z,
            0 <= p <= z * z,
            0x100_0000 * single_laws::apart(z * c, p) <= p || 2 * single_laws::apart(z * c, p) <= z,
            single_laws::apart(z * c, p) >= z * c - p,
            single_laws::apart(z * c, p) >= p - z * c,
            z >= 0x4000_0000,
            x > 0,
    {
        let d = single_laws::apart(z * c, p);
        assert(0x100_0000 * d <= z * z) by {
            if 2 * d <= z {
                assert(0x100_0000 * z <= z * z);
            }
        }
        assert(z * e == 10 * (z * c) - 9 * (v * z));
        assert(z * e == 10 * (z * c - p) - 4 * (v * x));
        assert(0 <= 0x100_0000 * (v * x) <= z * z) by {
            assert(0x100_0000 * (v * x) == v * z);
            assert(v * z <= z * z);
        }
        assert(0x100_0000 * (z * e) <= 10 * (z * z));
        assert(0x100_0000 * (z * e) >= -(14 * (z * z)));
        assert(z * (0x10_0000 * e) <= z * z);
        assert(z * (0x10_0000 * e) >= z * (-z));
    }
}

} // verus!
