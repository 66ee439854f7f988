//! What holds of the rain, frame after frame.
use vstd::arithmetic::power2::*;
use vstd::prelude::*;

use crate::draw;
use crate::rain;
use crate::rain::Column;
use crate::rain::DropDraws;
use crate::rain::RainDrop;
use crate::rain::RainState;
use crate::rain::RenderCell;
use crate::rain::Restart;
use crate::rounding;
use crate::single;
use crate::single::Single;
use crate::single_laws;

verus! {

/// The ends of the range of speeds, as values.
proof fn lemma_speed_values()
    ensures
        5 * (256 * draw::slowest().value() - pow2(149)) > 187 * pow2(149),
        0 < draw::slowest().value(),
        draw::fastest().value() < 2 * pow2(149),
{
    let x = pow2(123);
    lemma_pow2_pos(123);
    lemma_pow2_adds(23, 123);
    lemma_pow2_adds(3, 123);
    lemma_pow2_adds(3, 146);
    lemma2_to64();
    rounding::lemma_magnitude_parts(123, 10066330);
    rounding::lemma_magnitude_parts(126, 15099494);
}

/// A span of whole rows is an ordinary positive number.
pub proof fn lemma_whole_span(height: u16)
    requires
        height > 0,
    ensures
        ({
            let span = single::from_whole(height as nat);
            &&& !span.negative()
            &&& rounding::BINADE <= span.pattern() < rounding::INFINITY
            &&& span.value() == height * pow2(149)
        }),
{
    single_laws::law_small_whole_is_exact(height as nat);
    let span = single::from_whole(height as nat);
    lemma_pow2_strictly_increases(0, 149);
    lemma_pow2_strictly_increases(23, 149);
    lemma2_to64();
    assert(height * pow2(149) >= pow2(149)) by (nonlinear_arith)
        requires
            height >= 1,
    ;
    assert(rounding::magnitude(0x80_0000) == 0x80_0000) by {
        rounding::lemma_magnitude_parts(0, 0x80_0000);
    }
    rounding::lemma_magnitude_ordered(span.pattern(), 0x80_0000);
}

/// So is the span of a recycled drop, which is no higher than the screen.
pub proof fn lemma_recycle_span(height: u16)
    requires
        height > 0,
    ensures
        ({
            let span = rain::recycle_span(height);
            &&& !span.negative()
            &&& rounding::BINADE <= span.pattern() < rounding::INFINITY
            &&& span.value() <= height * pow2(149)
        }),
{
    lemma_whole_span(height);
    let h = single::from_whole(height as nat);
    let f = Single { bits: 0x3f19_999a };
    let z = pow2(149);
    let m = rounding::magnitude(f.pattern());
    lemma_pow2_pos(149);
    // 0.6 is under one.
    rounding::lemma_magnitude_parts(126, 0x80_0000);
    lemma_pow2_adds(23, 126);
    lemma2_to64();
    rounding::lemma_magnitude_ordered(f.pattern(), 0x3f80_0000);
    assert(m < z);
    let p = (height * z) * m;
    let c = rounding::nearest(p as nat, z);
    rounding::lemma_nearest_rounds(p as nat, z);
    rounding::lemma_rounding_exact(z * m, z, f.pattern());
    assert((z * m) * z <= p * z) by (nonlinear_arith)
        requires
            p == (height * z) * m,
            height >= 1,
            z > 0,
            m >= 0,
    ;
    rounding::lemma_rounding_monotone(z * m, z, f.pattern(), p as nat, z, c);
    let v = rounding::magnitude(h.pattern());
    rounding::lemma_rounding_exact(z * v, z, h.pattern());
    assert(p * z <= (z * v) * z) by (nonlinear_arith)
        requires
            p == (height * z) * m,
            v == height * z,
            m <= z,
            z > 0,
    ;
    rounding::lemma_rounding_monotone(p as nat, z, c, z * v, z, h.pattern());
    rounding::lemma_magnitude_ordered(c, h.pattern());
}

/// There are fresh drops only where there is a row: above a screen without rows there
/// is no room to start in.
pub(crate) proof fn lemma_fresh_drops_need_rows(drop: RainDrop, height: u16)
    requires
        drop.is_fresh(single::from_whole(height as nat)) || drop.is_fresh(
            rain::recycle_span(height),
        ),
    ensures
        height > 0,
{
    if height == 0 {
        let h = single::from_whole(0);
        let f = Single { bits: 0x3f19_999a };
        rounding::lemma_magnitude_small();
        single_laws::law_small_whole_is_exact(0);
        assert(h.value() == 0) by (nonlinear_arith)
            requires
                h.value() == 0 * pow2(149),
        ;
        assert(h.value() * f.value() == draw::zero().value() * pow2(149)) by (nonlinear_arith)
            requires
                h.value() == 0,
                draw::zero().value() == 0,
        ;
        single_laws::law_product_keeps_sides(h, f, draw::zero());
        let span = rain::recycle_span(0);
        assert(single::negation(h).value() == -h.value());
        assert(single::negation(span).value() == -span.value());
    }
}

/// A fresh drop is sound, and it starts above the screen.
pub proof fn law_fresh_drops_are_sound(drop: RainDrop, height: u16)
    requires
        drop.is_fresh(single::from_whole(height as nat)) || drop.is_fresh(
            rain::recycle_span(height),
        ),
    ensures
        drop.is_sound(),
        drop.head_row() < 0,
{
    lemma_fresh_drops_need_rows(drop, height);
    lemma_whole_span(height);
    lemma_recycle_span(height);
    if drop.is_fresh(rain::recycle_span(height)) {
        lemma_start_bounds(drop.head_y, rain::recycle_span(height), height);
    } else {
        lemma_start_bounds(drop.head_y, single::from_whole(height as nat), height);
    }
}

proof fn lemma_start_bounds(head_y: Single, span: Single, height: u16)
    requires
        !span.negative(),
        span.pattern() < rounding::INFINITY,
        span.value() <= height * pow2(149),
        single::at_most(single::negation(span), head_y),
        single::less(head_y, draw::zero()),
    ensures
        head_y.is_finite(),
        -(65535 * pow2(149)) <= head_y.value() <= 65600 * pow2(149),
        single::floor_between(head_y, i32::MIN as int, i32::MAX as int) < 0,
{
    let z = pow2(149);
    lemma_pow2_pos(149);
    rounding::lemma_magnitude_small();
    assert(height * z <= 65535 * z) by (nonlinear_arith)
        requires
            height <= 65535,
    ;
    assert(single::negation(span).value() == -span.value());
    lemma_infinity_is_far();
    assert(head_y.value() < 0 * z);
    single_laws::law_floor_keeps_sides(head_y, 0);
}

/// Infinity is beyond all rows.
proof fn lemma_infinity_is_far()
    ensures
        rounding::magnitude(rounding::INFINITY as nat) > 0x1_0000_0000 * pow2(149),
{
    rounding::lemma_magnitude_parts(254, 0x80_0000);
    lemma_pow2_adds(105, 149);
    lemma_pow2_strictly_increases(32, 105);
    lemma_pow2_pos(149);
    lemma2_to64();
    let z = pow2(149);
    let y = pow2(105);
    assert(0x80_0000 * (y * z) > 0x1_0000_0000 * z) by (nonlinear_arith)
        requires
            y >= 0x1_0000_0000,
            z > 0,
    ;
}

/// A drop that possible draws have made is fresh.
pub proof fn lemma_launch_is_fresh(drop: RainDrop, r: Restart, height: u16)
    requires
        height > 0,
        r.is_possible(),
        drop.is_launch_of(r, height),
    ensures
        drop.is_fresh(single::from_whole(height as nat)),
{
    lemma_whole_span(height);
    draw::law_points_below_zero(single::from_whole(height as nat), r.start as nat);
    draw::law_points_of_speed(r.speed as nat);
    assert forall|i: int| 0 <= i < drop.chars@.len() implies rain::is_glyph(
        #[trigger] drop.chars@[i],
    ) by {
        assert(drop.chars@[i] == rain::GLYPHS@[r.places@[i] as int]);
    }
}

/// A column that one to three possible launches have made is fresh.
pub proof fn law_launched_columns_are_fresh(column: Column, launches: Seq<Restart>, height: u16)
    requires
        height > 0,
        1 <= launches.len() <= 3,
        forall|i: int| 0 <= i < launches.len() ==> (#[trigger] launches[i]).is_possible(),
        column.is_launch_of(column.x, launches, height),
    ensures
        column.is_fresh(height),
{
    assert forall|i: int| 0 <= i < column.drops@.len() implies (
    #[trigger] column.drops@[i]).is_fresh(single::from_whole(height as nat)) by {
        assert(launches[i].is_possible());
        lemma_launch_is_fresh(column.drops@[i], launches[i], height);
    }
}

/// A drop that has started again with possible draws is fresh.
pub proof fn lemma_restart_is_fresh(drop: RainDrop, r: Restart, height: u16)
    requires
        height > 0,
        r.is_possible(),
        drop.head_y == rain::start_row(rain::recycle_span(height), r.start as nat),
        drop.speed == rain::drawn_speed(r.speed as nat),
        drop.trail_len == r.places@.len(),
        drop.chars@ == rain::glyphs_at(r.places@),
    ensures
        drop.is_fresh(rain::recycle_span(height)),
{
    lemma_recycle_span(height);
    draw::law_points_below_zero(rain::recycle_span(height), r.start as nat);
    draw::law_points_of_speed(r.speed as nat);
    assert forall|i: int| 0 <= i < drop.chars@.len() implies rain::is_glyph(
        #[trigger] drop.chars@[i],
    ) by {
        assert(drop.chars@[i] == rain::GLYPHS@[r.places@[i] as int]);
    }
}

/// A step with draws that may come is one frame of the drop: it falls and may
/// flicker, or it starts again.
pub proof fn law_steps_with_draws_are_frames(
    before: RainDrop,
    after: RainDrop,
    draws: DropDraws,
    height: u16,
)
    requires
        before.can_step(height),
        before.may_draw(draws, height),
        after.is_step_of(before, draws, height),
    ensures
        after.is_next_of(before, height),
{
    if rain::has_left(single::sum(before.head_y, before.speed), before.trail_len, height) {
        lemma_restart_is_fresh(after, draws.restart->0, height);
    } else if let Some(f) = draws.flicker {
        assert(rain::is_glyph(rain::GLYPHS@[f.1 as int]));
    }
}

/// A step keeps a drop sound.
pub proof fn law_steps_keep_drops_sound(before: RainDrop, after: RainDrop, height: u16)
    requires
        before.is_sound(),
        before.can_step(height),
        after.is_next_of(before, height),
    ensures
        after.is_sound(),
{
    let head_y = single::sum(before.head_y, before.speed);
    if rain::has_left(head_y, before.trail_len, height) {
        law_fresh_drops_are_sound(after, height);
    } else {
        lemma_head_stays_in_reach(before.head_y, before.speed, before.trail_len, height);
        lemma_flicker_keeps_shape(before, after);
    }
}

/// Whole rows decide: a trail has left the screen if and only if its head is further
/// down than the rows of the screen and the cells of the trail.
pub proof fn law_trails_leave_by_rows(head_y: Single, trail_len: usize, height: u16)
    requires
        !head_y.is_nan(),
        trail_len <= 0x80_0000,
    ensures
        rain::has_left(head_y, trail_len, height) <==> head_y.value() > (height + trail_len)
            * pow2(149),
{
    let z = pow2(149);
    lemma_pow2_pos(149);
    lemma_infinity_is_far();
    single_laws::law_small_whole_is_exact(height as nat);
    single_laws::law_small_whole_is_exact(trail_len as nat);
    let h = single::from_whole(height as nat);
    let n = single::from_whole(trail_len as nat);
    let minus_n = single::negation(n);
    assert(minus_n.value() == -n.value() && minus_n.is_finite());
    assert((height + trail_len) * z == height * z + trail_len * z) by (nonlinear_arith);
    assert(height * z <= 0xffff * z && trail_len * z <= 0x80_0000 * z && height * z >= 0 && trail_len
        * z >= 0) by (nonlinear_arith)
        requires
            height <= 0xffff,
            trail_len <= 0x80_0000,
            z > 0,
    ;
    if head_y.is_finite() {
        single_laws::law_sum_keeps_sides(head_y, minus_n, h);
        if head_y.value() > h.value() + n.value() {
            if head_y.value() >= 0x100_0000 * z {
                single_laws::law_small_whole_is_exact(0x80_0000);
                single_laws::law_sum_keeps_sides(
                    head_y,
                    minus_n,
                    single::from_whole(0x80_0000),
                );
            } else {
                let s = lemma_row_of_end(head_y, trail_len);
                single_laws::law_sum_keeps_sides(head_y, minus_n, s);
            }
        }
    }
}

/// The end of a trail that is not above the screen is at a number.
proof fn lemma_row_of_end(head_y: Single, trail_len: usize) -> (s: Single)
    requires
        head_y.is_finite(),
        trail_len * pow2(149) <= head_y.value() < 0x100_0000 * pow2(149),
    ensures
        s.is_finite(),
        s.value() == head_y.value() - trail_len * pow2(149),
{
    let z = pow2(149);
    let b = head_y.pattern();
    lemma_pow2_pos(149);
    rounding::lemma_magnitude_small();
    let exponent = b / 0x80_0000;
    let e: nat = if exponent == 0 { 0 } else { (exponent - 1) as nat };
    let m: nat = if exponent == 0 { b } else { b % 0x80_0000 + 0x80_0000 };
    assert(b == e * 0x80_0000 + m);
    rounding::lemma_magnitude_parts(e, m);
    rounding::lemma_magnitude_parts(149, 0x100_0000);
    rounding::lemma_magnitude_ordered(b, 149 * 0x80_0000 + 0x100_0000);
    assert(trail_len * z >= 0) by (nonlinear_arith)
        requires
            z > 0,
    ;
    if head_y.negative() {
        assert(head_y.value() == 0 && trail_len * z == 0);
        single_laws::law_short_multiple_is_a_number(0, 0)
    } else {
        assert(b < 151 * 0x80_0000);
        assert(e <= 149);
        let d = (149 - e) as nat;
        lemma_pow2_adds(d, e);
        lemma_pow2_pos(e);
        let (x, y) = (pow2(e), pow2(d));
        let k = m - trail_len * y;
        assert(m * x - trail_len * z == k * x) by (nonlinear_arith)
            requires
                k == m - trail_len * y,
                z == y * x,
        ;
        assert(0 <= k <= m) by (nonlinear_arith)
            requires
                k == m - trail_len * y,
                k * x >= 0,
                x > 0,
                y >= 0,
                trail_len >= 0,
        ;
        single_laws::law_short_multiple_is_a_number(k, e)
    }
}

/// A step down does not take the head up, and a head whose trail has not left the
/// screen is within the rows that drops get to.
proof fn lemma_head_stays_in_reach(head_y: Single, speed: Single, trail_len: usize, height: u16)
    requires
        head_y.is_finite(),
        -(65535 * pow2(149)) <= head_y.value() <= 65600 * pow2(149),
        single::at_most(draw::slowest(), speed),
        single::less(speed, draw::fastest()),
        trail_len < 30,
        !rain::has_left(single::sum(head_y, speed), trail_len, height),
    ensures
        single::sum(head_y, speed).is_finite(),
        -(65535 * pow2(149)) <= single::sum(head_y, speed).value() <= 65600 * pow2(149),
{
    let z = pow2(149);
    let next = single::sum(head_y, speed);
    lemma_pow2_pos(149);
    lemma_speed_values();
    lemma_infinity_is_far();
    assert(speed.is_finite());
    single_laws::law_sum_keeps_sides(head_y, speed, head_y);
    law_trails_leave_by_rows(next, trail_len, height);
    assert((height + trail_len) * z <= 65600 * z) by (nonlinear_arith)
        requires
            height + trail_len <= 65600,
    ;
}

proof fn lemma_flicker_keeps_shape(before: RainDrop, after: RainDrop)
    requires
        before.in_shape(),
        after.trail_len == before.trail_len,
        rain::flickered(before.chars@, after.chars@),
    ensures
        after.in_shape(),
{
    if after.chars@ != before.chars@ {
        let (i, c) = choose|i: int, c: char|
            0 <= i < before.chars@.len() && rain::is_glyph(c) && after.chars@
                == #[trigger] before.chars@.update(i, c);
        assert forall|j: int| 0 <= j < after.chars@.len() implies rain::is_glyph(
            #[trigger] after.chars@[j],
        ) by {
            if j != i {
                assert(after.chars@[j] == before.chars@[j]);
            }
        }
    }
}

/// A drop falls by its speed in every frame, give or take 1/256 of a cell.
pub proof fn law_drops_fall(drop: RainDrop)
    requires
        drop.moves_down(),
        drop.head_y.is_finite(),
        -(rain::TOP_ROW * pow2(149)) <= drop.head_y.value() <= rain::BOTTOM_ROW * pow2(149),
    ensures
        256 * single_laws::apart(
            single::sum(drop.head_y, drop.speed).value(),
            drop.head_y.value() + drop.speed.value(),
        ) <= pow2(149),
{
    // The multiples of 1/128 of a cell are numbers, and one of them is that near.
    let z = pow2(149) as int;
    let g = pow2(142) as int;
    lemma_speed_values();
    lemma_infinity_is_far();
    lemma_pow2_adds(7, 142);
    lemma_pow2_pos(142);
    lemma2_to64();
    assert(drop.speed.is_finite());
    let exact = drop.head_y.value() + drop.speed.value();
    let n = exact / g;
    vstd::arithmetic::div_mod::lemma_fundamental_div_mod(exact, g);
    assert(g * n == n * g && (n + 1) * g == n * g + g) by (nonlinear_arith);
    assert(-0x100_0000 <= n < 0x100_0000) by (nonlinear_arith)
        requires
            z == 128 * g,
            g > 0,
            exact == n * g + exact % g,
            0 <= exact % g < g,
            -(65535 * z) <= exact <= 65602 * z,
    ;
    let below = single_laws::law_short_multiple_is_a_number(n, 142);
    let above = single_laws::law_short_multiple_is_a_number(n + 1, 142);
    single_laws::law_sum_is_nearest(drop.head_y, drop.speed, below);
    single_laws::law_sum_is_nearest(drop.head_y, drop.speed, above);
}

/// The head of a drop after `n` frames of falling.
pub open spec fn fallen(drop: RainDrop, n: nat) -> Single
    decreases n,
{
    if n == 0 {
        drop.head_y
    } else {
        single::sum(fallen(drop, (n - 1) as nat), drop.speed)
    }
}

/// The drop is `before` after a frame of falling: further down by its speed, with
/// whatever characters.
pub open spec fn has_fallen(drop: RainDrop, before: RainDrop) -> bool {
    &&& drop.head_y == single::sum(before.head_y, before.speed)
    &&& drop.speed == before.speed
    &&& drop.trail_len == before.trail_len
}

/// What a drop becomes step by step, without a reset, is the fallen drop.
pub proof fn law_steps_add_up(drops: Seq<RainDrop>, n: nat)
    requires
        n < drops.len(),
        forall|i: int|
            0 <= i < drops.len() - 1 ==> has_fallen(#[trigger] drops[i + 1], drops[i]),
    ensures
        drops[n as int].head_y == fallen(drops[0], n),
        drops[n as int].speed == drops[0].speed,
        drops[n as int].trail_len == drops[0].trail_len,
    decreases n,
{
    if n > 0 {
        law_steps_add_up(drops, (n - 1) as nat);
        assert(has_fallen(drops[(n - 1) + 1], drops[n - 1]));
    }
}

/// A head further down, of a trail of the same length, has left the screen if the
/// other one has.
proof fn lemma_further_down_has_left(upper: Single, lower: Single, trail_len: usize, height: u16)
    requires
        single::at_most(upper, lower),
        rain::has_left(upper, trail_len, height),
    ensures
        rain::has_left(lower, trail_len, height),
{
    lemma_pow2_pos(149);
    lemma_infinity_is_far();
    single_laws::law_small_whole_is_exact(height as nat);
    single_laws::law_words_are_finite(trail_len as nat);
    let n = single::from_whole(trail_len as nat);
    let minus_n = single::negation(n);
    let z = pow2(149);
    assert(minus_n.is_finite());
    assert(height * z <= 0xffff * z) by (nonlinear_arith)
        requires
            height <= 0xffff,
    ;
    rounding::lemma_magnitude_ordered(upper.pattern(), rounding::INFINITY as nat);
    rounding::lemma_magnitude_ordered(lower.pattern(), rounding::INFINITY as nat);
    rounding::lemma_magnitude_small();
    if upper.is_finite() && lower.is_finite() {
        single_laws::law_sum_keeps_order(upper, minus_n, lower, minus_n);
        single_laws::law_sum_keeps_sides(lower, minus_n, lower);
    }
}

/// A drop that has left the screen stays left, however far it falls on.
pub proof fn law_departed_drops_stay_away(drop: RainDrop, height: u16, n: nat, m: nat)
    requires
        single::at_most(draw::zero(), drop.speed),
        rain::has_left(fallen(drop, n), drop.trail_len, height),
        n <= m,
    ensures
        rain::has_left(fallen(drop, m), drop.trail_len, height),
    decreases m,
{
    if n < m {
        let k = (m - 1) as nat;
        law_departed_drops_stay_away(drop, height, n, k);
        let here = fallen(drop, k);
        rounding::lemma_magnitude_small();
        rounding::lemma_magnitude_ordered(here.pattern(), rounding::INFINITY as nat);
        rounding::lemma_magnitude_ordered(drop.speed.pattern(), rounding::INFINITY as nat);
        if here.is_finite() && drop.speed.is_finite() {
            single_laws::law_sum_keeps_sides(here, drop.speed, here);
        } else {
            lemma_pow2_pos(149);
            lemma_infinity_is_far();
            single_laws::law_small_whole_is_exact(height as nat);
            single_laws::law_words_are_finite(drop.trail_len as nat);
            assert(single::from_whole(height as nat).value() >= 0);
        }
        lemma_further_down_has_left(here, fallen(drop, m), drop.trail_len, height);
    }
}

/// As long as the trail has not left the screen, the head is within the rows that
/// drops get to, and its speed less 1/256 of a cell further down for each frame.
proof fn lemma_fall(drop: RainDrop, height: u16, n: nat)
    requires
        drop.moves_down(),
        drop.head_y.is_finite(),
        -(rain::TOP_ROW * pow2(149)) <= drop.head_y.value() <= rain::BOTTOM_ROW * pow2(149),
        drop.trail_len < rain::TRAIL_END,
        !rain::has_left(fallen(drop, n), drop.trail_len, height),
    ensures
        ({
            let y = fallen(drop, n);
            &&& y.is_finite()
            &&& -(rain::TOP_ROW * pow2(149)) <= y.value() <= rain::BOTTOM_ROW * pow2(149)
            &&& 256 * y.value() >= 256 * drop.head_y.value() + n * (256 * drop.speed.value()
                - pow2(149))
        }),
    decreases n,
{
    let f = 256 * drop.speed.value() - pow2(149);
    if n == 0 {
        assert(0 * f == 0);
    } else {
        let k = (n - 1) as nat;
        lemma_speed_values();
        rounding::lemma_magnitude_small();
        if rain::has_left(fallen(drop, k), drop.trail_len, height) {
            law_departed_drops_stay_away(drop, height, k, n);
        }
        lemma_fall(drop, height, k);
        let here = RainDrop { head_y: fallen(drop, k), ..drop };
        law_drops_fall(here);
        lemma_head_stays_in_reach(here.head_y, drop.speed, drop.trail_len, height);
        assert(n * f == k * f + f) by (nonlinear_arith)
            requires
                n == k + 1,
        ;
    }
}

/// Every drop leaves the screen. It has left after any number of frames in which its
/// speed, less 1/256 of a cell, takes it from its start past the rows of the screen
/// and the cells of its trail.
pub proof fn law_drops_leave(drop: RainDrop, height: u16, n: nat)
    requires
        drop.moves_down(),
        drop.head_y.is_finite(),
        -(rain::TOP_ROW * pow2(149)) <= drop.head_y.value(),
        drop.trail_len < rain::TRAIL_END,
        n * (256 * drop.speed.value() - pow2(149)) > 256 * ((height + drop.trail_len) * pow2(149)
            - drop.head_y.value()),
    ensures
        rain::has_left(fallen(drop, n), drop.trail_len, height),
{
    let z = pow2(149);
    if !rain::has_left(fallen(drop, n), drop.trail_len, height) {
        lemma_pow2_pos(149);
        lemma_speed_values();
        rounding::lemma_magnitude_small();
        if rain::has_left(fallen(drop, 0), drop.trail_len, height) {
            law_departed_drops_stay_away(drop, height, 0, n);
        }
        law_trails_leave_by_rows(drop.head_y, drop.trail_len, height);
        assert((height + drop.trail_len) * z <= 65600 * z) by (nonlinear_arith)
            requires
                height + drop.trail_len <= 65600,
        ;
        lemma_fall(drop, height, n);
        law_trails_leave_by_rows(fallen(drop, n), drop.trail_len, height);
        assert(false);
    }
}

/// The same in whole rows and frames, for the slowest speed: a drop has left the
/// screen after any number of frames that is at least 1280/187, a little less than
/// seven, for each row between its start and the row in which its trail leaves.
pub proof fn law_drops_leave_in_time(drop: RainDrop, height: u16, n: nat)
    requires
        drop.moves_down(),
        drop.head_y.is_finite(),
        -(rain::TOP_ROW * pow2(149)) <= drop.head_y.value(),
        drop.trail_len < rain::TRAIL_END,
        n > 0,
        187 * n >= 1280 * (height + drop.trail_len - drop.head_row()),
    ensures
        rain::has_left(fallen(drop, n), drop.trail_len, height),
{
    let z = pow2(149) as int;
    let f = 256 * drop.speed.value() - z;
    let y = drop.head_y.value();
    let row = drop.head_row();
    let end = height + drop.trail_len;
    lemma_pow2_pos(149);
    lemma_speed_values();
    vstd::arithmetic::div_mod::lemma_fundamental_div_mod(y, z);
    single_laws::law_floor_keeps_sides(drop.head_y, -65535);
    assert(y >= row * z) by (nonlinear_arith)
        requires
            y == z * (y / z) + y % z,
            y % z >= 0,
            row <= y / z,
            z > 0,
    ;
    assert(5 * (n * f) > 187 * (n * z)) by (nonlinear_arith)
        requires
            5 * f > 187 * z,
            n > 0,
    ;
    assert(187 * (n * z) >= 1280 * ((end - row) * z)) by (nonlinear_arith)
        requires
            187 * n >= 1280 * (end - row),
            z > 0,
    ;
    assert((end - row) * z == end * z - row * z) by (nonlinear_arith);
    law_drops_leave(drop, height, n);
}

/// A drop none of whose cells are on the screen shows nothing.
proof fn lemma_nothing_lit(drop: RainDrop, x: u16, height: u16, n: nat)
    requires
        forall|t: nat| t < n ==> !rain::on_screen(#[trigger] drop.row_of(t), height),
    ensures
        drop.lit_cells(x, height, n) == Seq::<RenderCell>::empty(),
    decreases n,
{
    if n == 0 {
        assert(drop.lit_cells(x, height, 0) =~= Seq::<RenderCell>::empty());
    } else {
        lemma_nothing_lit(drop, x, height, (n - 1) as nat);
        drop.lemma_next_lit_cell(x, height, (n - 1) as nat);
        assert(!rain::on_screen(drop.row_of((n - 1) as nat), height));
        assert(drop.lit_cells(x, height, n) =~= Seq::<RenderCell>::empty());
    }
}

/// A fresh drop shows nothing: it has yet to fall onto the screen.
pub proof fn law_fresh_drops_show_nothing(drop: RainDrop, x: u16, height: u16)
    requires
        drop.is_fresh(single::from_whole(height as nat)) || drop.is_fresh(
            rain::recycle_span(height),
        ),
    ensures
        drop.cells(x, height) == Seq::<RenderCell>::empty(),
{
    law_fresh_drops_are_sound(drop, height);
    lemma_nothing_lit(drop, x, height, drop.cell_count());
}

/// A drop that is reported to have left shows nothing, on the screen that it left and
/// on any that is no higher: its whole trail is below.
pub proof fn law_departed_drops_show_nothing(drop: RainDrop, x: u16, height: u16, screen: u16)
    requires
        rain::has_left(drop.head_y, drop.trail_len, height),
        screen <= height,
        drop.trail_len <= 0x400_0000 || drop.head_y.value() <= 0x400_0000 * pow2(149),
    ensures
        drop.cells(x, screen) == Seq::<RenderCell>::empty(),
{
    lemma_departed_row(drop.head_y, drop.trail_len, height);
    lemma_nothing_lit(drop, x, screen, drop.cell_count());
}

/// The row of a head whose trail has left the screen.
proof fn lemma_departed_row(head_y: Single, trail_len: usize, height: u16)
    requires
        rain::has_left(head_y, trail_len, height),
        trail_len <= 0x400_0000 || head_y.value() <= 0x400_0000 * pow2(149),
    ensures
        trail_len <= 0x400_0000,
        single::floor_between(head_y, i32::MIN as int, i32::MAX as int) >= height,
        single::floor_between(head_y, i32::MIN as int, i32::MAX as int) >= height + trail_len - 1,
{
    let z = pow2(149);
    let n = single::from_whole(trail_len as nat);
    let h = single::from_whole(height as nat);
    let minus_n = single::negation(n);
    lemma_pow2_pos(149);
    lemma_infinity_is_far();
    rounding::lemma_magnitude_small();
    single_laws::law_small_whole_is_exact(height as nat);
    single_laws::law_words_are_finite(trail_len as nat);
    assert(minus_n.value() == -n.value() && minus_n.is_finite());
    assert(0 <= height * z <= 0xffff * z) by (nonlinear_arith)
        requires
            height <= 0xffff,
            z > 0,
    ;
    if head_y.is_finite() {
        single_laws::law_sum_keeps_sides(head_y, minus_n, h);
        assert(head_y.value() > h.value() + n.value());
    } else {
        assert(!head_y.negative());
    }
    if trail_len > 0x400_0000 {
        lemma_long_trail(0x400_0000);
        single_laws::law_whole_numbers_keep_order(0x400_0000, trail_len as nat);
        assert(false);
    }
    if trail_len <= 0x100_0000 {
        single_laws::law_small_whole_is_exact(trail_len as nat);
        let end = height + trail_len;
        assert(end * z == height * z + trail_len * z) by (nonlinear_arith)
            requires
                end == height + trail_len,
        ;
        assert(end * z <= 0x1_0000_0000 * z) by (nonlinear_arith)
            requires
                end <= 0x1_0000_0000,
        ;
        assert(head_y.value() > end * z);
        single_laws::law_floor_keeps_sides(head_y, end);
    } else {
        lemma_long_trail(trail_len as nat);
        single_laws::law_small_whole_is_exact(0x100_0000);
        single_laws::law_whole_numbers_keep_order(0x100_0000, trail_len as nat);
        let t = single_laws::law_large_numbers_are_whole(n);
        if !head_y.is_finite() {
            assert((0x400_0002 + height) * z <= 0x1_0000_0000 * z) by (nonlinear_arith)
                requires
                    height <= 0xffff,
                    z > 0,
            ;
            assert((trail_len + 2) * z <= 0x400_0002 * z) by (nonlinear_arith)
                requires
                    trail_len <= 0x400_0000,
                    z > 0,
            ;
            assert((0x400_0002 + height) * z == 0x400_0002 * z + height * z) by (nonlinear_arith);
        }
        let y = single_laws::law_large_numbers_are_whole(head_y);
        assert(y > height + t && t >= trail_len - 2) by (nonlinear_arith)
            requires
                y * z > height * z + t * z,
                t * z >= (trail_len - 2) * z,
                z > 0,
        ;
        single_laws::law_floor_keeps_sides(head_y, y);
    }
}

/// The length of a trail of up to 2^26 cells is rounded by at most two cells.
proof fn lemma_long_trail(n: nat)
    requires
        n <= 0x400_0000,
    ensures
        (n - 2) * pow2(149) <= single::from_whole(n).value() <= (n + 2) * pow2(149),
        n == 0x400_0000 ==> single::from_whole(n).value() == n * pow2(149),
{
    let z = pow2(149) as int;
    let k = n as int / 4;
    let r = n as int % 4;
    lemma_pow2_pos(149);
    lemma_pow2_adds(2, 149);
    lemma2_to64();
    let v = single::from_whole(n).value();
    let exact = n * z;
    assert(exact == (4 * k + r) * z);
    let below = single_laws::law_short_multiple_is_a_number(k, 151);
    single_laws::law_rounding_is_nearest(exact, 1, below);
    rounding::lemma_nearest_rounds(exact as nat, 1);
    assert(v == single::rounded(exact, 1).value());
    assert(k * (4 * z) == exact - r * z) by (nonlinear_arith)
        requires
            exact == (4 * k + r) * z,
    ;
    assert((n - 2) * z == exact - 2 * z && (n + 2) * z == exact + 2 * z) by (nonlinear_arith)
        requires
            exact == n * z,
    ;
    assert(0 * z == 0);
    if r == 3 {
        let above = single_laws::law_short_multiple_is_a_number(k + 1, 151);
        single_laws::law_rounding_is_nearest(exact, 1, above);
        assert((k + 1) * (4 * z) == k * (4 * z) + 4 * z) by (nonlinear_arith);
        assert(r * z == 3 * z);
    } else {
        assert(0 <= r * z <= 2 * z) by (nonlinear_arith)
            requires
                0 <= r <= 2,
                z > 0,
        ;
    }
}

/// Every cell that a drop shows is one of its cells, on the screen.
proof fn lemma_lit_cell_source(drop: RainDrop, x: u16, height: u16, n: nat, i: int) -> (t: nat)
    requires
        0 <= i < drop.lit_cells(x, height, n).len(),
    ensures
        t < n,
        rain::on_screen(drop.row_of(t), height),
        drop.lit_cells(x, height, n)[i] == drop.cell_of(x, t),
    decreases n,
{
    if n == 0 {
        assert(drop.lit_cells(x, height, 0) =~= Seq::<RenderCell>::empty());
        0
    } else {
        let k = (n - 1) as nat;
        drop.lemma_next_lit_cell(x, height, k);
        if i < drop.lit_cells(x, height, k).len() {
            lemma_lit_cell_source(drop, x, height, k, i)
        } else {
            k
        }
    }
}

/// A cell that can be painted: on the screen, a glyph, and between dark and bright.
pub open spec fn is_paintable(cell: RenderCell, height: u16) -> bool {
    &&& cell.y < height
    &&& rain::is_glyph(cell.ch)
    &&& single::at_most(draw::zero(), cell.brightness)
    &&& single::at_most(cell.brightness, (Single { bits: 0x3f80_0000 }))
    &&& cell.is_head ==> cell.brightness == (Single { bits: 0x3f80_0000 })
}

/// The brightness of a trail stays between dark and bright and does not grow
/// towards its end.
pub proof fn law_trails_fade(t: nat, u: nat, n: nat)
    requires
        1 <= t <= u <= n,
        n <= 0x100_0000,
    ensures
        rain::trail_brightness(t, n).is_finite(),
        single::at_most(draw::zero(), rain::trail_brightness(u, n)),
        single::at_most(rain::trail_brightness(u, n), rain::trail_brightness(t, n)),
        single::at_most(rain::trail_brightness(t, n), (Single { bits: 0x3f80_0000 })),
{
    let one = Single { bits: 0x3f80_0000 };
    let z = pow2(149);
    lemma_pow2_pos(149);
    lemma_one();
    lemma_infinity_is_far();
    rounding::lemma_magnitude_small();
    single_laws::law_small_whole_is_exact(t);
    single_laws::law_small_whole_is_exact(u);
    single_laws::law_small_whole_is_exact(n);
    let (ft, fu, fn_) = (single::from_whole(t), single::from_whole(u), single::from_whole(n));
    assert(t * z <= u * z && u * z <= n * z && n * z > 0) by (nonlinear_arith)
        requires
            t <= u <= n,
            n >= 1,
            z > 0,
    ;
    assert((u * z) * z <= (n * z) * z) by (nonlinear_arith)
        requires
            u * z <= n * z,
    ;
    assert((t * z) * z <= (n * z) * z) by (nonlinear_arith)
        requires
            t * z <= n * z,
    ;
    let qt = single::quotient(ft, fn_);
    let qu = single::quotient(fu, fn_);
    single_laws::law_quotient_keeps_sides(ft, fn_, one);
    single_laws::law_quotient_keeps_sides(fu, fn_, one);
    single_laws::law_quotient_keeps_order(ft, fn_, fu);
    let (mt, mu) = (single::negation(qt), single::negation(qu));
    assert(mt.value() == -qt.value() && mu.value() == -qu.value());
    let lt = single::difference(one, qt);
    let lu = single::difference(one, qu);
    single_laws::law_sum_keeps_sides(one, mt, one);
    single_laws::law_sum_keeps_sides(one, mt, draw::zero());
    single_laws::law_sum_keeps_sides(one, mu, draw::zero());
    single_laws::law_sum_keeps_sides(one, mu, one);
    single_laws::law_sum_keeps_order(one, mu, one, mt);
    single_laws::law_sum_has_no_sign(one, mt);
    single_laws::law_sum_has_no_sign(one, mu);
    let (bt, bu) = (lt.value(), lu.value());
    assert(bt * bt <= z * z) by (nonlinear_arith)
        requires
            0 <= bt <= z,
    ;
    assert(bu * bu <= z * z) by (nonlinear_arith)
        requires
            0 <= bu <= z,
    ;
    assert(bu * bu >= 0) by (nonlinear_arith);
    assert(z * 0 == 0);
    single_laws::law_product_keeps_sides(lt, lt, one);
    single_laws::law_product_keeps_sides(lu, lu, one);
    single_laws::law_product_keeps_sides(lu, lu, draw::zero());
    single_laws::law_product_keeps_order(lu, lu, lt, lt);
}

/// A rounded value from 0 to 1 is off by at most 2^-20.
proof fn lemma_rounded_near(n: int, q: nat)
    requires
        q > 0,
        0 <= n <= q * pow2(149),
    ensures
        n - q * pow2(129) <= q * single::rounded(n, q).value() <= n + q * pow2(129),
{
    let g = pow2(129) as int;
    let w = q * g;
    lemma_pow2_pos(129);
    lemma_pow2_adds(20, 129);
    lemma2_to64();
    assert(w > 0) by (nonlinear_arith)
        requires
            w == q * g,
            q > 0,
            g > 0,
    ;
    let k = n / w;
    vstd::arithmetic::div_mod::lemma_fundamental_div_mod(n, w);
    assert(0 <= k <= 0x10_0000) by (nonlinear_arith)
        requires
            n == w * k + n % w,
            0 <= n % w < w,
            0 <= n <= q * (0x10_0000 * g),
            w == q * g,
            w > 0,
    ;
    let below = single_laws::law_short_multiple_is_a_number(k, 129);
    let above = single_laws::law_short_multiple_is_a_number(k + 1, 129);
    assert(q * (k * g) == w * k && q * ((k + 1) * g) == w * k + w) by (nonlinear_arith)
        requires
            w == q * g,
    ;
    single_laws::law_rounding_keeps_sides(n, q, below);
    single_laws::law_rounding_keeps_sides(n, q, above);
    let r = single::rounded(n, q).value();
    assert(q * (k * g) <= q * r && q * r <= q * ((k + 1) * g)) by (nonlinear_arith)
        requires
            k * g <= r <= (k + 1) * g,
            q > 0,
    ;
}

/// The part of a trail of up to 512 cells that is still to come, as it is computed,
/// is off by at most 2^-19.
proof fn lemma_linear_near(t: nat, n: nat) -> (l: Single)
    requires
        t <= n,
        1 <= n <= 512,
    ensures
        l == single::difference(
            (Single { bits: 0x3f80_0000 }),
            single::quotient(single::from_whole(t), single::from_whole(n)),
        ),
        l.is_finite(),
        !l.negative(),
        0 <= l.value() <= pow2(149),
        (n - t) * pow2(149) - 2 * n * pow2(129) <= n * l.value() <= (n - t) * pow2(149) + 2 * n
            * pow2(129),
{
    let one = Single { bits: 0x3f80_0000 };
    let z = pow2(149);
    let g = pow2(129);
    lemma_pow2_pos(149);
    lemma_one();
    lemma_infinity_is_far();
    rounding::lemma_magnitude_small();
    single_laws::law_small_whole_is_exact(t);
    single_laws::law_small_whole_is_exact(n);
    let (a, b) = (single::from_whole(t), single::from_whole(n));
    assert(n * z > 0 && t * z <= n * z && (t * z) * z <= (n * z) * z && (t * z) * z >= 0)
        by (nonlinear_arith)
        requires
            t <= n,
            n >= 1,
            z > 0,
    ;
    let q = single::quotient(a, b);
    single_laws::law_quotient_keeps_sides(a, b, one);
    lemma_rounded_near((t * z * z) as int, n * z);
    let qv = q.value();
    assert(q.value() == single::rounded((t * z * z) as int, n * z).value()) by {
        rounding::lemma_nearest_rounds((t * z) * z, n * z);
    }
    assert(t * z - n * g <= n * qv && n * qv <= t * z + n * g) by (nonlinear_arith)
        requires
            (t * z) * z - (n * z) * g <= (n * z) * qv,
            (n * z) * qv <= (t * z) * z + (n * z) * g,
            z > 0,
    ;
    let m = single::negation(q);
    assert(m.value() == -qv && m.is_finite());
    let l = single::difference(one, q);
    single_laws::law_sum_keeps_sides(one, m, one);
    single_laws::law_sum_keeps_sides(one, m, draw::zero());
    single_laws::law_sum_has_no_sign(one, m);
    single_laws::law_sum_value(one, m);
    assert(1 * z == z && 1 * g == g);
    lemma_rounded_near(z - qv, 1);
    let lv = l.value();
    assert((n - t) * z - 2 * n * g <= n * lv && n * lv <= (n - t) * z + 2 * n * g)
        by (nonlinear_arith)
        requires
            t * z - n * g <= n * qv,
            n * qv <= t * z + n * g,
            z - qv - g <= lv <= z - qv + g,
            n >= 1,
    ;
    l
}

/// In a trail of up to 512 cells every cell is darker than the one before it; the
/// head is as bright as can be.
pub proof fn law_short_trails_fade_strictly(t: nat, u: nat, n: nat)
    requires
        t < u <= n,
        n <= 512,
    ensures
        rain::trail_brightness(0, n) == (Single { bits: 0x3f80_0000 }),
        single::less(rain::trail_brightness(u, n), rain::trail_brightness(t, n)),
{
    let z = pow2(149) as int;
    let g = pow2(129) as int;
    let one = Single { bits: 0x3f80_0000 };
    lemma_pow2_pos(129);
    lemma_pow2_adds(20, 129);
    lemma2_to64();
    lemma_one();
    let lt = lemma_linear_near(t, n);
    let lu = lemma_linear_near(u, n);
    let (a, b) = (lt.value(), lu.value());
    assert(a - b >= 2044 * g) by (nonlinear_arith)
        requires
            n * a >= (n - t) * z - 2 * n * g,
            n * b <= (n - u) * z + 2 * n * g,
            z == 0x10_0000 * g,
            g > 0,
            t < u,
            1 <= n <= 512,
    {
        assert((n - t) * z - (n - u) * z == (u - t) * z);
        assert((u - t) * z >= z);
        assert(n * (a - b) >= z - 4 * n * g);
        assert(z - 4 * n * g >= n * (2044 * g)) by {
            assert(n * g <= 512 * g);
        }
    }
    assert(a * a >= b * b + 4177936 * (g * g)) by (nonlinear_arith)
        requires
            a - b >= 2044 * g,
            b >= 0,
            g > 0,
    {
        assert(a * a == b * b + (a - b) * (a - b) + 2 * b * (a - b));
        assert((a - b) * (a - b) >= (2044 * g) * (2044 * g));
    }
    assert(0 <= a * a <= z * z && 0 <= b * b <= z * z) by (nonlinear_arith)
        requires
            0 <= a <= z,
            0 <= b <= z,
    ;
    lemma_rounded_near(a * a, z as nat);
    lemma_rounded_near(b * b, z as nat);
    let (bt, bu) = (rain::trail_brightness(t, n), rain::trail_brightness(u, n));
    single_laws::law_product_keeps_sides(lt, lt, one);
    single_laws::law_product_keeps_sides(lu, lu, one);
    rounding::lemma_nearest_rounds((a * a) as nat, z as nat);
    rounding::lemma_nearest_rounds((b * b) as nat, z as nat);
    let (x, y) = (bt.value(), bu.value());
    assert(x > y) by (nonlinear_arith)
        requires
            z * x >= a * a - z * g,
            z * y <= b * b + z * g,
            a * a >= b * b + 4177936 * (g * g),
            z == 0x10_0000 * g,
            g > 0,
    {
        assert(z * g == 0x10_0000 * (g * g));
        assert(g * g > 0);
        assert(z * x > z * y);
    }
    lemma_head_brightness(n);
}

/// No step behind the head, a trail is as bright as can be.
proof fn lemma_head_brightness(n: nat)
    requires
        1 <= n <= 512,
    ensures
        rain::trail_brightness(0, n) == (Single { bits: 0x3f80_0000 }),
{
    let one = Single { bits: 0x3f80_0000 };
    let z = pow2(149);
    lemma_pow2_pos(149);
    lemma_one();
    rounding::lemma_magnitude_small();
    single_laws::law_small_whole_is_exact(0);
    single_laws::law_small_whole_is_exact(n);
    let (a, b) = (single::from_whole(0), single::from_whole(n));
    assert(n * z > 0) by (nonlinear_arith)
        requires
            n >= 1,
            z > 0,
    ;
    assert(0 * z == 0 && a.value() * z == 0 && b.value() * 0 == 0) by (nonlinear_arith)
        requires
            a.value() == 0 * z,
    ;
    let q = single::quotient(a, b);
    single_laws::law_quotient_keeps_sides(a, b, draw::zero());
    let m = single::negation(q);
    assert(q.value() == 0 && m.value() == 0);
    let l = single::difference(one, q);
    single_laws::law_numbers_round_to_themselves(one);
    rounding::lemma_magnitude_ordered(q.pattern(), 0);
    assert(l == one);
    rounding::lemma_rounding_exact(z * z, z, one.pattern());
    rounding::lemma_nearest_is(z * z, z, one.pattern());
    assert(single::product(one, one) == one);
}

/// The value of one.
proof fn lemma_one()
    ensures
        (Single { bits: 0x3f80_0000 }).value() == pow2(149),
        (Single { bits: 0x3f80_0000 }).is_finite(),
{
    rounding::lemma_magnitude_parts(126, 0x80_0000);
    lemma_pow2_adds(23, 126);
    lemma2_to64();
}

/// Every cell that a sound drop shows can be painted, and is in the drop's column.
pub proof fn law_drops_show_paintable_cells(drop: RainDrop, x: u16, height: u16, i: int)
    requires
        drop.is_sound(),
        0 <= i < drop.cells(x, height).len(),
    ensures
        is_paintable(drop.cells(x, height)[i], height),
        drop.cells(x, height)[i].x == x,
{
    let t = lemma_lit_cell_source(drop, x, height, drop.cell_count(), i);
    lemma_one();
    lemma_pow2_pos(149);
    rounding::lemma_magnitude_small();
    if t > 0 {
        law_trails_fade(t, t, drop.trail_len as nat);
        assert(drop.chars@[t as int % drop.chars@.len() as int] == drop.cell_of(x, t).ch);
    } else {
        let k = drop.head_row() % drop.chars@.len() as int;
        assert(0 <= k < drop.chars@.len());
        assert(drop.chars@[k] == drop.cell_of(x, t).ch);
    }
}

/// A drop shows its cells from the bottom up, no two in one row, and only the
/// first of them can be its head.
pub proof fn law_drops_show_cells_upwards(drop: RainDrop, x: u16, height: u16, i: int, j: int)
    requires
        drop.can_draw(height),
        drop.trail_len + height <= 0x2_0000_0000,
        0 <= i < j < drop.cells(x, height).len(),
    ensures
        drop.cells(x, height)[i].y > drop.cells(x, height)[j].y,
        !drop.cells(x, height)[j].is_head,
{
    lemma_upwards(drop, x, height, drop.cell_count(), i, j);
}

proof fn lemma_upwards(drop: RainDrop, x: u16, height: u16, n: nat, i: int, j: int)
    requires
        drop.can_draw(height),
        drop.trail_len + height <= 0x2_0000_0000,
        n <= drop.cell_count(),
        0 <= i < j < drop.lit_cells(x, height, n).len(),
    ensures
        drop.lit_cells(x, height, n)[i].y > drop.lit_cells(x, height, n)[j].y,
        !drop.lit_cells(x, height, n)[j].is_head,
    decreases n,
{
    if n == 0 {
        assert(drop.lit_cells(x, height, 0) =~= Seq::<RenderCell>::empty());
    } else {
        let k = (n - 1) as nat;
        drop.lemma_next_lit_cell(x, height, k);
        let before = drop.lit_cells(x, height, k);
        if j < before.len() {
            lemma_upwards(drop, x, height, k, i, j);
        } else {
            let t = lemma_lit_cell_source(drop, x, height, k, i);
            assert(drop.lit_cells(x, height, n)[i] == before[i]);
            lemma_rows_go_up(drop, height, t, k);
        }
    }
}

/// A drop of up to 512 cells shows its cells from bright to dark.
pub proof fn law_drops_show_fading_cells(drop: RainDrop, x: u16, height: u16, i: int, j: int)
    requires
        drop.trail_len <= 512,
        0 <= i < j < drop.cells(x, height).len(),
    ensures
        single::less(drop.cells(x, height)[j].brightness, drop.cells(x, height)[i].brightness),
{
    lemma_fading(drop, x, height, drop.cell_count(), i, j);
}

proof fn lemma_fading(drop: RainDrop, x: u16, height: u16, n: nat, i: int, j: int)
    requires
        drop.trail_len <= 512,
        n <= drop.cell_count(),
        0 <= i < j < drop.lit_cells(x, height, n).len(),
    ensures
        single::less(
            drop.lit_cells(x, height, n)[j].brightness,
            drop.lit_cells(x, height, n)[i].brightness,
        ),
    decreases n,
{
    if n == 0 {
        assert(drop.lit_cells(x, height, 0) =~= Seq::<RenderCell>::empty());
    } else {
        let k = (n - 1) as nat;
        drop.lemma_next_lit_cell(x, height, k);
        let before = drop.lit_cells(x, height, k);
        if j < before.len() {
            lemma_fading(drop, x, height, k, i, j);
        } else {
            let t = lemma_lit_cell_source(drop, x, height, k, i);
            assert(drop.lit_cells(x, height, n)[i] == before[i]);
            law_short_trails_fade_strictly(t, k, drop.trail_len as nat);
        }
    }
}

/// Of two cells of a drop on the screen, the one further behind is further up, also
/// where the distance from the head is beyond the range of row numbers.
proof fn lemma_rows_go_up(drop: RainDrop, height: u16, t: nat, u: nat)
    requires
        drop.can_draw(height),
        drop.trail_len + height <= 0x2_0000_0000,
        t < u < drop.cell_count(),
        rain::on_screen(drop.row_of(t), height),
        rain::on_screen(drop.row_of(u), height),
    ensures
        drop.row_of(t) > drop.row_of(u),
{
    if u >= 0x8000_0000 {
        // Only a head just above the screen has that many rows behind it.
        let (a, b): (u64, u64) = (0x7fff_ffff, 0x8000_0000);
        assert(a as i32 == 0x7fff_ffff && b as i32 == -0x8000_0000) by (bit_vector)
            requires
                a == 0x7fff_ffff,
                b == 0x8000_0000,
        ;
        assert(i32::MIN <= drop.row_of(a as nat) <= i32::MAX);
        assert(i32::MIN <= drop.row_of(b as nat) <= i32::MAX);
        assert(drop.head_row() == -1);
        lemma_far_row(t as u64, height);
        lemma_far_row(u as u64, height);
    }
}

/// The distances that wrap around to the rows of the screen.
proof fn lemma_far_row(t: u64, height: u16)
    requires
        t + height < 0x2_0000_0000,
        -height <= t as i32 <= -1,
    ensures
        t as i32 == t - 0x1_0000_0000,
{
    assert(t as i32 == t - 0x1_0000_0000) by (bit_vector)
        requires
            t + height < 0x2_0000_0000,
            -height <= t as i32 <= -1,
    ;
}

/// A sound drop can be drawn, and it can take a step if the screen has a row.
pub proof fn law_sound_drops_can_go_on(drop: RainDrop, height: u16)
    requires
        drop.is_sound(),
    ensures
        drop.can_draw(height),
        height > 0 ==> drop.can_step(height),
{
    lemma_pow2_pos(149);
    single_laws::law_floor_keeps_sides(drop.head_y, -65535);
    single_laws::law_floor_keeps_sides(drop.head_y, 65600);
}

/// A field of sound drops can be drawn, and it can take a step if the screen has a
/// row.
pub proof fn law_sound_fields_can_go_on(rain: RainState)
    requires
        rain.is_sound(),
    ensures
        rain.can_draw(),
        rain.height > 0 ==> rain.can_step(),
{
    assert forall|i: int| 0 <= i < rain.columns@.len() implies (
    #[trigger] rain.columns@[i]).can_draw(rain.height) by {
        let c = rain.columns@[i];
        assert(c.is_sound());
        assert forall|k: int| 0 <= k < c.drops@.len() implies (#[trigger] c.drops@[k]).can_draw(
            rain.height,
        ) by {
            law_sound_drops_can_go_on(c.drops@[k], rain.height);
        }
    }
    if rain.height > 0 {
        assert forall|i: int| 0 <= i < rain.columns@.len() implies (
        #[trigger] rain.columns@[i]).can_step(rain.height) by {
            let c = rain.columns@[i];
            assert(c.is_sound());
            assert forall|k: int| 0 <= k < c.drops@.len() implies (
            #[trigger] c.drops@[k]).can_step(rain.height) by {
                law_sound_drops_can_go_on(c.drops@[k], rain.height);
            }
        }
    }
}

/// A fresh column is sound.
pub proof fn law_fresh_columns_are_sound(column: Column, height: u16)
    requires
        column.is_fresh(height),
    ensures
        column.is_sound(),
{
    assert forall|i: int| 0 <= i < column.drops@.len() implies (
    #[trigger] column.drops@[i]).is_sound() by {
        law_fresh_drops_are_sound(column.drops@[i], height);
    }
}

/// A frame keeps a column sound.
pub proof fn law_frames_keep_columns_sound(before: Column, after: Column, height: u16)
    requires
        before.is_sound(),
        before.can_step(height),
        after.is_next_of(before, height),
    ensures
        after.is_sound(),
{
    let draws = choose|draws: Seq<DropDraws>|
        before.may_draw(draws, height) && #[trigger] after.is_step_of(before, draws, height);
    assert forall|k: int| 0 <= k < after.drops@.len() implies (
    #[trigger] after.drops@[k]).is_sound() by {
        let (b, a) = (before.drops@[k], after.drops@[k]);
        assert(b.is_sound() && b.can_step(height) && b.may_draw(draws[k], height));
        law_steps_with_draws_are_frames(b, a, draws[k], height);
        law_steps_keep_drops_sound(b, a, height);
    }
}

/// A frame keeps a field sound.
pub proof fn law_frames_keep_fields_sound(before: RainState, after: RainState)
    requires
        before.is_sound(),
        before.can_step(),
        after.is_next_of(before),
    ensures
        after.is_sound(),
{
    assert forall|i: int| 0 <= i < after.columns@.len() implies (
    #[trigger] after.columns@[i]).x == i && after.columns@[i].is_sound() by {
        let (b, a) = (before.columns@[i], after.columns@[i]);
        assert(a.is_next_of(b, before.height));
        assert(b.is_sound() && b.can_step(before.height) && b.x == i);
        law_frames_keep_columns_sound(b, a, before.height);
    }
}

/// Equal columns and equal draws give equal columns.
pub proof fn law_equal_draws_give_equal_columns(
    before1: Column,
    before2: Column,
    after1: Column,
    after2: Column,
    draws: Seq<DropDraws>,
    height: u16,
)
    requires
        before1.same_as(before2),
        after1.is_step_of(before1, draws, height),
        after2.is_step_of(before2, draws, height),
    ensures
        after1.same_as(after2),
{
    assert forall|i: int| 0 <= i < after1.drops@.len() implies (
    #[trigger] after1.drops@[i]).same_as(after2.drops@[i]) by {
        assert(before1.drops@[i].same_as(before2.drops@[i]));
        assert(after2.drops@[i].is_step_of(before2.drops@[i], draws[i], height));
    }
}

/// Columns are independent: what a frame makes of a column is the same in any two
/// fields of the same height that have the column and its draws in common, however
/// their other columns differ. In each frame there are draws for it that make it.
pub proof fn law_columns_are_independent(
    before1: RainState,
    before2: RainState,
    after1: RainState,
    after2: RainState,
    i: int,
)
    requires
        before1.height == before2.height,
        after1.is_next_of(before1),
        after2.is_next_of(before2),
        0 <= i < before1.columns@.len(),
        0 <= i < before2.columns@.len(),
        before1.columns@[i].same_as(before2.columns@[i]),
    ensures
        exists|draws: Seq<DropDraws>|
            before1.columns@[i].may_draw(draws, before1.height)
                && #[trigger] after1.columns@[i].is_step_of(
                before1.columns@[i],
                draws,
                before1.height,
            ),
        forall|draws: Seq<DropDraws>| #[trigger]
            after1.columns@[i].is_step_of(before1.columns@[i], draws, before1.height)
                && after2.columns@[i].is_step_of(before2.columns@[i], draws, before2.height)
                ==> after1.columns@[i].same_as(after2.columns@[i]),
{
    assert(after1.columns@[i].is_next_of(before1.columns@[i], before1.height));
    assert forall|draws: Seq<DropDraws>| #[trigger]
        after1.columns@[i].is_step_of(before1.columns@[i], draws, before1.height)
            && after2.columns@[i].is_step_of(before2.columns@[i], draws, before2.height) implies
        after1.columns@[i].same_as(after2.columns@[i]) by {
        law_equal_draws_give_equal_columns(
            before1.columns@[i],
            before2.columns@[i],
            after1.columns@[i],
            after2.columns@[i],
            draws,
            before1.height,
        );
    }
}

/// A resize keeps a field sound.
pub proof fn law_resizes_keep_fields_sound(
    before: RainState,
    after: RainState,
    width: u16,
    height: u16,
)
    requires
        before.is_sound(),
        after.is_resized_from(before, width, height),
    ensures
        after.is_sound(),
{
    assert forall|i: int| 0 <= i < after.columns@.len() implies (
    #[trigger] after.columns@[i]).x == i && after.columns@[i].is_sound() by {
        if i < before.columns@.len() {
            assert(before.columns@[i].is_sound());
        } else {
            law_fresh_columns_are_sound(after.columns@[i], height);
        }
    }
}

/// A resize that keeps the width leaves the columns of a sound field as they are.
pub proof fn law_resizes_in_height_keep_columns(before: RainState, after: RainState, height: u16)
    requires
        before.is_sound(),
        after.is_resized_from(before, before.width, height),
    ensures
        after.columns@ == before.columns@,
{
    assert forall|i: int| 0 <= i < after.columns@.len() implies after.columns@[i]
        == before.columns@[i] by {
        assert(before.columns@[i].x == i);
        assert(after.columns@[i].x == i);
    }
    assert(after.columns@ =~= before.columns@);
}

/// An item of a flat map comes from one of its parts.
proof fn lemma_flat_map_source<A, B>(s: Seq<A>, f: spec_fn(A) -> Seq<B>, i: int) -> (r: (int, int))
    requires
        0 <= i < s.flat_map(f).len(),
    ensures
        0 <= r.0 < s.len(),
        0 <= r.1 < f(s[r.0]).len(),
        s.flat_map(f)[i] == f(s[r.0])[r.1],
    decreases s.len(),
{
    if s.len() == 0 {
        assert(s.flat_map(f) =~= Seq::<B>::empty());
        (0, 0)
    } else {
        let k = s.len() - 1;
        s.lemma_flat_map_take_append(f, k);
        assert(s.take(k + 1) =~= s);
        let rest = s.take(k);
        if i < rest.flat_map(f).len() {
            let r = lemma_flat_map_source(rest, f, i);
            assert(rest[r.0] == s[r.0]);
            r
        } else {
            (k, i - rest.flat_map(f).len())
        }
    }
}

/// The flat map of joined sequences is the joined flat maps.
proof fn lemma_flat_map_of_joined<A, B>(s: Seq<A>, t: Seq<A>, f: spec_fn(A) -> Seq<B>)
    ensures
        (s + t).flat_map(f) == s.flat_map(f) + t.flat_map(f),
{
    assert((s + t).map_values(f) =~= s.map_values(f) + t.map_values(f));
    vstd::seq_lib::lemma_flatten_concat(s.map_values(f), t.map_values(f));
}

/// The cells of a column whose drops are those of two columns in its place, one after
/// the other, are the cells of the first and then those of the second.
pub proof fn law_joined_drops_show_joined_cells(
    whole: Column,
    first: Column,
    second: Column,
    height: u16,
)
    requires
        whole.x == first.x == second.x,
        whole.drops@ == first.drops@ + second.drops@,
    ensures
        whole.cells(height) == first.cells(height) + second.cells(height),
{
    let f = |d: RainDrop| d.cells(whole.x, height);
    lemma_flat_map_of_joined(first.drops@, second.drops@, f);
    assert(f =~= |d: RainDrop| d.cells(first.x, height));
    assert(f =~= |d: RainDrop| d.cells(second.x, height));
}

/// The cells of a field whose columns are those of two fields of its height, one after
/// the other, are the cells of the first and then those of the second.
pub proof fn law_joined_columns_show_joined_cells(
    whole: RainState,
    first: RainState,
    second: RainState,
)
    requires
        whole.height == first.height == second.height,
        whole.columns@ == first.columns@ + second.columns@,
    ensures
        whole.cells() == first.cells() + second.cells(),
{
    let f = |c: Column| c.cells(whole.height);
    lemma_flat_map_of_joined(first.columns@, second.columns@, f);
    assert(f =~= |c: Column| c.cells(first.height));
    assert(f =~= |c: Column| c.cells(second.height));
}

/// Every cell that a sound field shows can be painted, and is on the screen.
pub proof fn law_fields_show_paintable_cells(rain: RainState, i: int)
    requires
        rain.is_sound(),
        0 <= i < rain.cells().len(),
    ensures
        is_paintable(rain.cells()[i], rain.height),
        rain.cells()[i].x < rain.width,
{
    let f = |c: Column| c.cells(rain.height);
    let (c, k) = lemma_flat_map_source(rain.columns@, f, i);
    let column = rain.columns@[c];
    assert(column.x == c && column.is_sound());
    let g = |d: RainDrop| d.cells(column.x, rain.height);
    let (d, m) = lemma_flat_map_source(column.drops@, g, k);
    assert(column.drops@[d].is_sound());
    law_drops_show_paintable_cells(column.drops@[d], column.x, rain.height, m);
}

/// A field of fresh columns shows nothing: the rain has yet to fall onto the screen.
pub proof fn law_fresh_fields_show_nothing(rain: RainState)
    requires
        forall|i: int|
            0 <= i < rain.columns@.len() ==> (#[trigger] rain.columns@[i]).is_fresh(rain.height),
    ensures
        rain.cells() == Seq::<RenderCell>::empty(),
{
    if rain.cells().len() > 0 {
        let f = |c: Column| c.cells(rain.height);
        let (c, k) = lemma_flat_map_source(rain.columns@, f, 0);
        let column = rain.columns@[c];
        assert(column.is_fresh(rain.height));
        let g = |d: RainDrop| d.cells(column.x, rain.height);
        let (d, m) = lemma_flat_map_source(column.drops@, g, k);
        law_fresh_drops_show_nothing(column.drops@[d], column.x, rain.height);
        assert(false);
    }
    assert(rain.cells() =~= Seq::<RenderCell>::empty());
}

} // verus!
