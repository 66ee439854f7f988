//! What a frame, a launch and a resize do to the rain, drop by drop.
use vstd::arithmetic::power2::*;
use vstd::prelude::*;

use crate::draw;
use crate::rain;
use crate::rain::Column;
use crate::rain::DropDraws;
use crate::rain::RainDrop;
use crate::rain::RainState;
use crate::rain::Restart;
use crate::rain_laws;
use crate::rounding;
use crate::single;
use crate::single::Single;
use crate::single_laws;

verus! {

/// The head is below the rows of the screen and the cells of the trail.
pub open spec fn is_gone(head_y: Single, trail_len: usize, height: u16) -> bool {
    !head_y.is_nan() && head_y.value() > (height + trail_len) * pow2(149)
}

/// A new start above a screen of that height: a trail of 6 to 29 cells, a glyph for
/// each, a head above the screen by no more than so many millionths of its height, and
/// a speed of at least 0.15 and less than 1.8 cells.
pub open spec fn starts_above(drop: RainDrop, height: u16, millionths: int) -> bool {
    &&& 6 <= drop.trail_len < 30
    &&& drop.chars@.len() == drop.trail_len
    &&& forall|i: int|
        0 <= i < drop.chars@.len() ==> rain::GLYPHS@.contains(#[trigger] drop.chars@[i])
    &&& drop.head_y.is_finite()
    &&& drop.head_y.value() < 0
    &&& 1_000_000 * drop.head_y.value() >= -(millionths * (height * pow2(149)))
    &&& drop.speed.is_finite()
    &&& 20 * drop.speed.value() >= 3 * pow2(149)
    &&& 5 * drop.speed.value() < 9 * pow2(149)
}

/// A screen's height times 0.6.
#[verifier::spinoff_prover]
proof fn lemma_recycle_span_near(height: u16)
    requires
        height > 0,
    ensures
        ({
            let s = rain::recycle_span(height).value();
            let w = height * pow2(149);
            &&& rain::recycle_span(height).is_finite()
            &&& !rain::recycle_span(height).negative()
            &&& 0x20_0000 * single_laws::apart(5 * s, 3 * w) <= w
        }),
{
    rain_laws::lemma_recycle_span(height);
    let z = pow2(149) as int;
    let x = pow2(125) as int;
    lemma_pow2_pos(125);
    lemma_pow2_adds(24, 125);
    lemma_pow2_adds(16, 149);
    lemma_pow2_strictly_increases(165, 277);
    lemma_pow2_strictly_increases(30, 149);
    lemma2_to64();
    single_laws::law_small_whole_is_exact(height as nat);
    rounding::lemma_magnitude_parts(125, 10066330);
    let h = single::from_whole(height as nat);
    let f = Single { bits: 0x3f19_999a };
    assert(f.value() == 10066330 * x && f.is_finite());
    single_laws::law_product_value(h, f);
    let w = height * z;
    let p = w * (10066330 * x);
    assert(w >= z && w <= 0x1_0000 * z) by (nonlinear_arith)
        requires
            w == height * z,
            1 <= height <= 0xffff,
            z > 0,
    ;
    assert(0 <= p <= z * pow2(277)) by (nonlinear_arith)
        requires
            p == w * (10066330 * x),
            z == 0x100_0000 * x,
            0 <= w <= pow2(277),
            x > 0,
    ;
    assert(p >= z * 0x80_0000) by (nonlinear_arith)
        requires
            p == w * (10066330 * x),
            z == 0x100_0000 * x,
            w >= 0x4000_0000,
            x > 0,
    ;
    single_laws::law_rounding_error(p, z as nat);
    let s = rain::recycle_span(height).value();
    assert(5 * p == 3 * (w * z) + 2 * (w * x)) by (nonlinear_arith)
        requires
            p == w * (10066330 * x),
            z == 0x100_0000 * x,
    ;
    let e = 5 * s - 3 * w;
    assert(0x20_0000 * e <= w && -w <= 0x20_0000 * e) by (nonlinear_arith)
        requires
            e == 5 * s - 3 * w,
            5 * p == 3 * (w * z) + 2 * (w * x),
            z == 0x100_0000 * x,
            0x100_0000 * (z * s - p) <= p,
            0x100_0000 * (p - z * s) <= p,
            w >= 0,
            x > 0,
    {
        assert(z * e == 5 * (z * s - p) + 2 * (w * x));
        assert(0x100_0000 * (w * x) == w * z);
        assert(0x100_0000 * (z * e) <= 5 * p + 2 * (w * z));
        assert(0x100_0000 * (z * e) >= -(5 * p));
        assert(5 * p <= 4 * (w * z));
        assert(z * (0x20_0000 * e) <= z * w);
        assert(z * (0x20_0000 * e) >= z * (-w));
    }
}

/// The ends of the range of speeds.
proof fn lemma_speeds()
    ensures
        draw::slowest().is_finite(),
        !draw::slowest().negative(),
        20 * draw::slowest().value() >= 3 * pow2(149),
        0x40_0000 * (20 * draw::slowest().value() - 3 * pow2(149)) <= 20 * pow2(149),
        draw::fastest().is_finite(),
        5 * draw::fastest().value() < 9 * pow2(149),
        0 < draw::slowest().value() < draw::fastest().value(),
{
    let x = pow2(123);
    lemma_pow2_pos(123);
    lemma_pow2_adds(26, 123);
    lemma_pow2_adds(3, 123);
    lemma2_to64();
    rounding::lemma_magnitude_parts(123, 10066330);
    rounding::lemma_magnitude_parts(126, 15099494);
}

/// A fresh drop starts above the screen, by no more than its height, and a recycled one
/// by no more than six tenths of it.
pub proof fn law_fresh_drops_start_above(drop: RainDrop, height: u16)
    ensures
        drop.is_fresh(single::from_whole(height as nat)) ==> height > 0 && starts_above(
            drop,
            height,
            1_000_000,
        ),
        drop.is_fresh(rain::recycle_span(height)) ==> height > 0 && starts_above(
            drop,
            height,
            600_001,
        ),
{
    let z = pow2(149) as int;
    lemma_pow2_pos(149);
    rounding::lemma_magnitude_small();
    lemma_speeds();
    if drop.is_fresh(single::from_whole(height as nat)) || drop.is_fresh(
        rain::recycle_span(height),
    ) {
        rain_laws::lemma_fresh_drops_need_rows(drop, height);
        rain_laws::law_fresh_drops_are_sound(drop, height);
        rounding::lemma_magnitude_ordered(drop.speed.pattern(), draw::fastest().pattern());
        rounding::lemma_magnitude_ordered(drop.speed.pattern(), rounding::INFINITY as nat);
        rounding::lemma_magnitude_ordered(draw::fastest().pattern(), rounding::INFINITY as nat);
        single_laws::law_small_whole_is_exact(height as nat);
        lemma_recycle_span_near(height);
        let (h, s) = (single::from_whole(height as nat), rain::recycle_span(height));
        assert(single::negation(h).value() == -h.value());
        assert(single::negation(s).value() == -s.value());
        let w = height * z;
        assert(w >= 0) by (nonlinear_arith)
            requires
                w == height * z,
                z > 0,
        ;
    }
}

/// The `k`-th point of a range whose span is exact to the last.
#[verifier::spinoff_prover]
proof fn lemma_point_near(low: Single, high: Single, k: nat)
    requires
        k < draw::POINTS,
        low.is_finite(),
        single::difference(high, low).is_finite(),
        !single::difference(high, low).negative(),
        single_laws::size(low.value()) <= 0x1_0000 * pow2(149),
        0 <= single::difference(high, low).value() <= 0x1_0000 * pow2(149),
    ensures
        ({
            let d = single::difference(high, low).value();
            let r = draw::point(low, high, k).value();
            let top = d + single_laws::size(low.value());
            0x40_0000 * single_laws::apart(
                0x80_0000 * r,
                0x80_0000 * low.value() + k * d,
            ) <= 0x80_0000 * top + 0x40_0000 * 0x80_0000
        }),
{
    reveal(draw::point);
    let z = pow2(149) as int;
    let y = pow2(126) as int;
    lemma_pow2_pos(126);
    lemma_pow2_pos(149);
    lemma_pow2_adds(23, 126);
    lemma_pow2_adds(17, 149);
    lemma_pow2_strictly_increases(166, 277);
    lemma2_to64();
    let q = draw::lemma_share(k);
    let span = single::difference(high, low);
    let (qv, d, lv) = (q.value(), span.value(), low.value());
    single_laws::law_product_value(q, span);
    let n = qv * d;
    assert(0 <= qv <= z) by (nonlinear_arith)
        requires
            qv == k * y,
            k < 0x80_0000,
            z == 0x80_0000 * y,
            y > 0,
    ;
    assert(0 <= n <= z * d) by (nonlinear_arith)
        requires
            n == qv * d,
            0 <= qv <= z,
            d >= 0,
    ;
    assert(z * d <= z * pow2(277)) by (nonlinear_arith)
        requires
            d <= pow2(277),
            z > 0,
    ;
    single_laws::law_rounding_error(n, z as nat);
    let p = single::product(q, span);
    let pv = p.value();
    single_laws::law_product_keeps_sides(q, span, span);
    single_laws::law_product_keeps_sides(q, span, draw::zero());
    rounding::lemma_magnitude_small();
    rounding::lemma_magnitude_ordered(p.pattern(), span.pattern());
    rounding::lemma_magnitude_ordered(span.pattern(), p.pattern());
    assert(p.is_finite());
    // Its distance from k parts.
    let e = 0x80_0000 * pv - k * d;
    assert(0x100_0000 * e <= 0x80_0000 * d + 0x100_0000 * 0x40_0000 && -(0x80_0000 * d + 0x100_0000
        * 0x40_0000) <= 0x100_0000 * e) by (nonlinear_arith)
        requires
            e == 0x80_0000 * pv - k * d,
            n == qv * d,
            qv == k * y,
            z == 0x80_0000 * y,
            0 <= n <= z * d,
            0x100_0000 * single_laws::apart(z * pv, n) <= n || 2 * single_laws::apart(z * pv, n) <= z,
            single_laws::apart(z * pv, n) >= z * pv - n,
            single_laws::apart(z * pv, n) >= n - z * pv,
            y > 0,
            d >= 0,
    {
        let c = single_laws::apart(z * pv, n);
        assert(y * e == z * pv - n) by {
            assert(y * (0x80_0000 * pv) == z * pv);
            assert(y * (k * d) == (k * y) * d);
        }
        assert(0x100_0000 * c <= z * d + 0x80_0000 * z) by {
            if 2 * c <= z {
                assert(z * d >= 0);
            }
        }
        assert(0x80_0000 * z == y * (0x80_0000 * 0x80_0000));
        assert(z * d == y * (0x80_0000 * d));
        assert(y * (0x100_0000 * e) <= y * (0x80_0000 * d + 0x80_0000 * 0x80_0000));
        assert(y * (0x100_0000 * e) >= y * (-(0x80_0000 * d + 0x80_0000 * 0x80_0000)));
    }
    single_laws::law_sum_value(p, low);
    single_laws::law_rounding_error(pv + lv, 1);
    let r = draw::point(low, high, k).value();
    assert(0x100_0000 * (r - (pv + lv)) <= d + single_laws::size(lv));
    assert(0x100_0000 * ((pv + lv) - r) <= d + single_laws::size(lv));
}

/// Where a drop starts: the `k`-th of 2^23 points between its height above the screen
/// and the screen, off by at most a 2^20th part of the height.
#[verifier::spinoff_prover]
pub proof fn law_starts_are_points(height: u16, k: nat)
    requires
        height > 0,
        k < 0x80_0000,
    ensures
        ({
            let w = height * pow2(149);
            let new = rain::start_row(single::from_whole(height as nat), k).value();
            let again = rain::start_row(rain::recycle_span(height), k).value();
            &&& 0x10_0000 * single_laws::apart(0x80_0000 * new, -((0x80_0000 - k) * w)) <= 0x80_0000
                * w
            &&& 0x10_0000 * single_laws::apart(
                0x80_0000 * (5 * again),
                -((0x80_0000 - k) * (3 * w)),
            ) <= 0x80_0000 * (5 * w)
        }),
{
    let z = pow2(149) as int;
    lemma_pow2_pos(149);
    lemma_pow2_strictly_increases(60, 149);
    lemma2_to64();
    lemma2_to64_rest();
    rain_laws::lemma_whole_span(height);
    rain_laws::lemma_recycle_span(height);
    lemma_recycle_span_near(height);
    let (h, s) = (single::from_whole(height as nat), rain::recycle_span(height));
    let w = height * z;
    assert(z <= w && w <= 0xffff * z) by (nonlinear_arith)
        requires
            w == height * z,
            1 <= height <= 0xffff,
            z > 0,
    ;
    lemma_span_to_zero(h);
    lemma_span_to_zero(s);
    lemma_point_near(single::negation(h), draw::zero(), k);
    lemma_point_near(single::negation(s), draw::zero(), k);
    let sv = s.value();
    assert((0x80_0000 - k) * w == 0x80_0000 * w - k * w) by (nonlinear_arith);
    assert((0x80_0000 - k) * (3 * w) == 0x80_0000 * (3 * w) - k * (3 * w)) by (nonlinear_arith);
    assert(k * (3 * w) == 3 * (k * w)) by (nonlinear_arith);
    // The six tenths are near, too.
    let c = 5 * sv - 3 * w;
    let m = 0x80_0000 - k;
    assert(0x20_0000 * (m * c) <= 0x80_0000 * w && -(0x80_0000 * w) <= 0x20_0000 * (m * c))
        by (nonlinear_arith)
        requires
            0x20_0000 * c <= w,
            -w <= 0x20_0000 * c,
            0 <= m <= 0x80_0000,
            w >= 0,
    ;
    assert(m * c == 0x80_0000 * (5 * sv) - 5 * (k * sv) - 0x80_0000 * (3 * w) + 3 * (k * w))
        by (nonlinear_arith)
        requires
            c == 5 * sv - 3 * w,
            m == 0x80_0000 - k,
    ;
}

/// The span of a range that ends at zero.
proof fn lemma_span_to_zero(top: Single)
    requires
        !top.negative(),
        rounding::BINADE <= top.pattern() < rounding::INFINITY,
    ensures
        single::difference(draw::zero(), single::negation(top)) == top,
        single::negation(top).value() == -top.value(),
        single::negation(top).is_finite(),
        top.value() > 0,
{
    rounding::lemma_magnitude_small();
    rounding::lemma_magnitude_ordered(0, top.pattern());
    assert(single::negation(single::negation(top)) == top);
    single_laws::law_numbers_round_to_themselves(top);
}

/// How fast a drop is: the `k`-th of 2^23 points between 0.15 and 1.8 cells, off by at
/// most 2^-18.
#[verifier::spinoff_prover]
pub proof fn law_speeds_are_points(k: nat)
    requires
        k < 0x80_0000,
    ensures
        0x4_0000 * single_laws::apart(
            0x80_0000 * (20 * rain::drawn_speed(k).value()),
            (3 * 0x80_0000 + 33 * k) * (pow2(149) as int),
        ) <= 0x80_0000 * (20 * pow2(149)),
{
    let z = pow2(149) as int;
    let x = pow2(123) as int;
    lemma_pow2_pos(123);
    lemma_pow2_pos(149);
    lemma_pow2_adds(26, 123);
    lemma_pow2_adds(3, 123);
    lemma_pow2_strictly_increases(60, 149);
    lemma2_to64();
    lemma2_to64_rest();
    lemma_speeds();
    rounding::lemma_magnitude_small();
    rounding::lemma_magnitude_parts(123, 10066330);
    rounding::lemma_magnitude_parts(126, 15099494);
    let (low, high) = (draw::slowest(), draw::fastest());
    assert(low.value() == 10066330 * x && high.value() == 120795952 * x);
    let m = single::negation(low);
    assert(m.value() == -low.value() && m.is_finite());
    single_laws::law_sum_value(high, m);
    lemma_pow2_unfold(150);
    lemma_pow2_strictly_increases(150, 277);
    single_laws::law_rounding_error(110729622 * x, 1);
    let span = single::difference(high, low);
    let d = span.value();
    assert(0x100_0000 * single_laws::apart(d, 110729622 * x) <= 110729622 * x || d == 110729622 * x);
    single_laws::law_sum_keeps_sides(high, m, high);
    single_laws::law_sum_keeps_sides(high, m, draw::zero());
    single_laws::law_sum_has_no_sign(high, m);
    rounding::lemma_magnitude_ordered(span.pattern(), high.pattern());
    rounding::lemma_magnitude_ordered(high.pattern(), span.pattern());
    lemma_point_near(low, high, k);
    // 20 spans are 33 cells, nearly.
    let c = 20 * d - 33 * z;
    assert(z == 0x400_0000 * x);
    assert(0x10_0000 * c <= 33 * z && -(33 * z) <= 0x10_0000 * c);
    assert(0x10_0000 * (k * c) <= 0x80_0000 * (33 * z) && -(0x80_0000 * (33 * z)) <= 0x10_0000 * (k
        * c)) by (nonlinear_arith)
        requires
            0x10_0000 * c <= 33 * z,
            -(33 * z) <= 0x10_0000 * c,
            0 <= k <= 0x80_0000,
            z > 0,
    ;
    assert(k * c == 20 * (k * d) - 33 * (k * z)) by (nonlinear_arith)
        requires
            c == 20 * d - 33 * z,
    ;
    assert((3 * 0x80_0000 + 33 * k) * z == 0x80_0000 * (3 * z) + 33 * (k * z)) by (nonlinear_arith);
}

/// What a launch makes: as many cells as there are places, with the glyphs of the
/// places, and the drawn start and speed.
pub proof fn law_launches_follow_their_draws(drop: RainDrop, r: Restart, height: u16)
    requires
        drop.is_launch_of(r, height),
    ensures
        drop.trail_len == r.places@.len(),
        drop.chars@.len() == r.places@.len(),
        forall|j: int|
            0 <= j < r.places@.len() ==> #[trigger] drop.chars@[j]
                == rain::GLYPHS@[r.places@[j] as int],
        drop.head_y == rain::start_row(single::from_whole(height as nat), r.start as nat),
        drop.speed == rain::drawn_speed(r.speed as nat),
{
}

/// A column is launched with one drop for each launch, in order, in its place.
pub proof fn law_columns_follow_their_launches(
    column: Column,
    x: u16,
    launches: Seq<Restart>,
    height: u16,
)
    requires
        column.is_launch_of(x, launches, height),
    ensures
        column.x == x,
        column.drops@.len() == launches.len(),
        forall|i: int|
            0 <= i < launches.len() ==> {
                let d = #[trigger] column.drops@[i];
                &&& d.trail_len == launches[i].places@.len()
                &&& d.chars@.len() == launches[i].places@.len()
                &&& forall|j: int|
                    0 <= j < launches[i].places@.len() ==> #[trigger] d.chars@[j]
                        == rain::GLYPHS@[launches[i].places@[j] as int]
                &&& d.head_y == rain::start_row(
                    single::from_whole(height as nat),
                    launches[i].start as nat,
                )
                &&& d.speed == rain::drawn_speed(launches[i].speed as nat)
            },
{
    assert forall|i: int| 0 <= i < launches.len() implies {
        let d = #[trigger] column.drops@[i];
        &&& d.trail_len == launches[i].places@.len()
        &&& d.chars@.len() == launches[i].places@.len()
        &&& forall|j: int|
            0 <= j < launches[i].places@.len() ==> #[trigger] d.chars@[j]
                == rain::GLYPHS@[launches[i].places@[j] as int]
        &&& d.head_y == rain::start_row(
            single::from_whole(height as nat),
            launches[i].start as nat,
        )
        &&& d.speed == rain::drawn_speed(launches[i].speed as nat)
    } by {
        law_launches_follow_their_draws(column.drops@[i], launches[i], height);
    }
}

/// What a step with given draws does: a drop that is not gone after its fall keeps its
/// speed and its trail, and its characters but for the one that is replaced; one that
/// is gone starts again with its draws.
pub open spec fn steps(before: RainDrop, after: RainDrop, draws: DropDraws, height: u16) -> bool {
    let y = single::sum(before.head_y, before.speed);
    if is_gone(y, before.trail_len, height) {
        let r = draws.restart->0;
        &&& after.trail_len == r.places@.len()
        &&& after.chars@.len() == r.places@.len()
        &&& forall|j: int|
            0 <= j < r.places@.len() ==> #[trigger] after.chars@[j]
                == rain::GLYPHS@[r.places@[j] as int]
        &&& after.head_y == rain::start_row(rain::recycle_span(height), r.start as nat)
        &&& after.speed == rain::drawn_speed(r.speed as nat)
    } else {
        &&& after.head_y == y
        &&& after.speed == before.speed
        &&& after.trail_len == before.trail_len
        &&& after.chars@.len() == before.chars@.len()
        &&& forall|j: int|
            0 <= j < before.chars@.len() ==> #[trigger] after.chars@[j] == if draws.flicker is Some
                && (draws.flicker->0).0 == j {
                rain::GLYPHS@[(draws.flicker->0).1 as int]
            } else {
                before.chars@[j]
            }
    }
}

/// Steps with draws do that.
pub proof fn law_steps_follow_their_draws(
    before: RainDrop,
    after: RainDrop,
    draws: DropDraws,
    height: u16,
)
    requires
        before.can_step_with(draws, height),
        after.is_step_of(before, draws, height),
        before.trail_len <= 0x80_0000,
    ensures
        steps(before, after, draws, height),
{
    let y = single::sum(before.head_y, before.speed);
    if !y.is_nan() {
        rain_laws::law_trails_leave_by_rows(y, before.trail_len, height);
    } else {
        let n = single::from_whole(before.trail_len as nat);
        single_laws::law_results_that_are_not_numbers(y, single::negation(n));
    }
}

/// A column steps each of its drops, with the draws for it, and stays in its place.
pub proof fn law_columns_step_each_drop(
    before: Column,
    after: Column,
    draws: Seq<DropDraws>,
    height: u16,
)
    requires
        before.can_step_with(draws, height),
        after.is_step_of(before, draws, height),
    ensures
        after.x == before.x,
        after.drops@.len() == before.drops@.len(),
        forall|i: int|
            0 <= i < before.drops@.len() && before.drops@[i].trail_len <= 0x80_0000 ==> steps(
                before.drops@[i],
                #[trigger] after.drops@[i],
                draws[i],
                height,
            ),
{
    assert forall|i: int|
        0 <= i < before.drops@.len() && before.drops@[i].trail_len <= 0x80_0000 implies steps(
        before.drops@[i],
        #[trigger] after.drops@[i],
        draws[i],
        height,
    ) by {
        assert(before.drops@[i].can_step_with(draws[i], height));
        law_steps_follow_their_draws(before.drops@[i], after.drops@[i], draws[i], height);
    }
}

/// What a frame makes of a drop, whatever was drawn: it falls by its speed and at most
/// one of its characters is replaced, by a glyph; or, if it is gone, it starts again
/// above the screen.
pub open spec fn goes_on(before: RainDrop, after: RainDrop, height: u16) -> bool {
    let y = single::sum(before.head_y, before.speed);
    if is_gone(y, before.trail_len, height) {
        starts_above(after, height, 600_001)
    } else {
        &&& after.head_y == y
        &&& after.speed == before.speed
        &&& after.trail_len == before.trail_len
        &&& after.chars@.len() == before.chars@.len()
        &&& forall|j: int|
            0 <= j < before.chars@.len() ==> #[trigger] after.chars@[j] == before.chars@[j]
                || rain::GLYPHS@.contains(after.chars@[j])
        &&& forall|j: int, k: int|
            0 <= j < k < before.chars@.len() ==> #[trigger] after.chars@[j] == before.chars@[j]
                || #[trigger] after.chars@[k] == before.chars@[k]
    }
}

/// A frame does that to each drop of a column.
pub proof fn law_frames_step_each_drop(before: Column, after: Column, height: u16)
    requires
        before.can_step(height),
        after.is_next_of(before, height),
    ensures
        after.x == before.x,
        after.drops@.len() == before.drops@.len(),
        forall|i: int|
            0 <= i < before.drops@.len() && before.drops@[i].trail_len <= 0x80_0000 ==> goes_on(
                before.drops@[i],
                #[trigger] after.drops@[i],
                height,
            ),
{
    let draws = choose|draws: Seq<DropDraws>|
        before.may_draw(draws, height) && #[trigger] after.is_step_of(before, draws, height);
    assert forall|i: int| 0 <= i < before.drops@.len() implies (
    #[trigger] before.drops@[i]).can_step_with(draws[i], height) by {
        assert(before.drops@[i].may_draw(draws[i], height));
    }
    law_columns_step_each_drop(before, after, draws, height);
    assert forall|i: int|
        0 <= i < before.drops@.len() && before.drops@[i].trail_len <= 0x80_0000 implies goes_on(
        before.drops@[i],
        #[trigger] after.drops@[i],
        height,
    ) by {
        let (b, a) = (before.drops@[i], after.drops@[i]);
        let y = single::sum(b.head_y, b.speed);
        assert(b.can_step(height) && b.may_draw(draws[i], height));
        assert(a.is_step_of(b, draws[i], height));
        assert(steps(b, a, draws[i], height));
        if is_gone(y, b.trail_len, height) {
            rain_laws::law_trails_leave_by_rows(y, b.trail_len, height);
            rain_laws::lemma_restart_is_fresh(a, draws[i].restart->0, height);
            law_fresh_drops_start_above(a, height);
        } else if let Some(f) = draws[i].flicker {
            assert(rain::GLYPHS@.contains(rain::GLYPHS@[f.1 as int]));
        }
    }
}

/// A frame steps every column of a field, leaves each in its place, and does not change
/// the size of the field.
pub proof fn law_frames_step_each_column(before: RainState, after: RainState)
    requires
        before.can_step(),
        after.is_next_of(before),
    ensures
        after.width == before.width,
        after.height == before.height,
        after.columns@.len() == before.columns@.len(),
        forall|c: int|
            0 <= c < before.columns@.len() ==> {
                &&& (#[trigger] after.columns@[c]).x == before.columns@[c].x
                &&& after.columns@[c].drops@.len() == before.columns@[c].drops@.len()
                &&& forall|i: int|
                    0 <= i < before.columns@[c].drops@.len() && before.columns@[c].drops@[i].trail_len
                        <= 0x80_0000 ==> goes_on(
                        before.columns@[c].drops@[i],
                        #[trigger] after.columns@[c].drops@[i],
                        before.height,
                    )
            },
{
    assert forall|c: int| 0 <= c < before.columns@.len() implies {
        &&& (#[trigger] after.columns@[c]).x == before.columns@[c].x
        &&& after.columns@[c].drops@.len() == before.columns@[c].drops@.len()
        &&& forall|i: int|
            0 <= i < before.columns@[c].drops@.len() && before.columns@[c].drops@[i].trail_len
                <= 0x80_0000 ==> goes_on(
                before.columns@[c].drops@[i],
                #[trigger] after.columns@[c].drops@[i],
                before.height,
            )
    } by {
        assert(before.columns@[c].can_step(before.height));
        assert(after.columns@[c].is_next_of(before.columns@[c], before.height));
        law_frames_step_each_drop(before.columns@[c], after.columns@[c], before.height);
    }
}

/// A fresh column has one to three drops, and each starts above the screen.
pub proof fn law_fresh_columns_start_above(column: Column, height: u16)
    requires
        column.is_fresh(height),
    ensures
        1 <= column.drops@.len() <= 3,
        forall|i: int|
            0 <= i < column.drops@.len() ==> starts_above(
                #[trigger] column.drops@[i],
                height,
                1_000_000,
            ),
{
    assert forall|i: int| 0 <= i < column.drops@.len() implies starts_above(
        #[trigger] column.drops@[i],
        height,
        1_000_000,
    ) by {
        assert(column.drops@[i].is_fresh(single::from_whole(height as nat)));
        law_fresh_drops_start_above(column.drops@[i], height);
    }
}

/// A resized field has the new size and a column for each column of the screen, each in
/// its place. Those that were there keep their drops, and those that are new have one
/// to three drops above the screen.
pub proof fn law_resizes_keep_what_stays(
    before: RainState,
    after: RainState,
    width: u16,
    height: u16,
)
    requires
        after.is_resized_from(before, width, height),
    ensures
        after.width == width,
        after.height == height,
        after.columns@.len() == width,
        forall|c: int|
            0 <= c < width ==> {
                &&& (#[trigger] after.columns@[c]).x == c
                &&& c < before.columns@.len() ==> after.columns@[c].drops@
                    == before.columns@[c].drops@
                &&& c >= before.columns@.len() ==> {
                    &&& 1 <= after.columns@[c].drops@.len() <= 3
                    &&& forall|i: int|
                        0 <= i < after.columns@[c].drops@.len() ==> starts_above(
                            #[trigger] after.columns@[c].drops@[i],
                            height,
                            1_000_000,
                        )
                }
            },
{
    assert forall|c: int| before.columns@.len() <= c < width implies {
        &&& 1 <= (#[trigger] after.columns@[c]).drops@.len() <= 3
        &&& forall|i: int|
            0 <= i < after.columns@[c].drops@.len() ==> starts_above(
                #[trigger] after.columns@[c].drops@[i],
                height,
                1_000_000,
            )
    } by {
        law_fresh_columns_start_above(after.columns@[c], height);
    }
}

/// A sound drop has a trail of 6 to 29 cells with a glyph for each, a speed of at least
/// 0.15 and less than 1.8 cells, and a head no further than 65535 rows above the screen
/// and 65600 below its top.
pub proof fn law_what_sound_drops_are(drop: RainDrop)
    requires
        drop.is_sound(),
    ensures
        6 <= drop.trail_len < 30,
        drop.chars@.len() == drop.trail_len,
        forall|i: int|
            0 <= i < drop.chars@.len() ==> rain::GLYPHS@.contains(#[trigger] drop.chars@[i]),
        20 * drop.speed.value() >= 3 * pow2(149),
        5 * drop.speed.value() < 9 * pow2(149),
        drop.head_y.is_finite(),
        -(65535 * pow2(149)) <= drop.head_y.value() <= 65600 * pow2(149),
{
    lemma_speeds();
}

/// A field can take a step if and only if each of its drops can.
pub proof fn law_which_fields_can_step(rain: RainState)
    ensures
        rain.can_step() <==> forall|c: int, i: int|
            0 <= c < rain.columns@.len() && 0 <= i < rain.columns@[c].drops@.len() ==> (
            #[trigger] rain.columns@[c].drops@[i]).can_step(rain.height),
{
    if rain.can_step() {
        assert forall|c: int, i: int|
            0 <= c < rain.columns@.len() && 0 <= i < rain.columns@[c].drops@.len() implies (
        #[trigger] rain.columns@[c].drops@[i]).can_step(rain.height) by {
            assert(rain.columns@[c].can_step(rain.height));
        }
    }
    if forall|c: int, i: int|
        0 <= c < rain.columns@.len() && 0 <= i < rain.columns@[c].drops@.len() ==> (
        #[trigger] rain.columns@[c].drops@[i]).can_step(rain.height) {
        assert forall|c: int| 0 <= c < rain.columns@.len() implies (
        #[trigger] rain.columns@[c]).can_step(rain.height) by {
            assert forall|i: int| 0 <= i < rain.columns@[c].drops@.len() implies (
            #[trigger] rain.columns@[c].drops@[i]).can_step(rain.height) by {}
        }
    }
}

/// A flicker replaces at most one character, by a glyph.
pub proof fn law_flickers_replace_one(before: Seq<char>, after: Seq<char>)
    requires
        rain::flickered(before, after),
    ensures
        after.len() == before.len(),
        forall|j: int|
            0 <= j < before.len() ==> #[trigger] after[j] == before[j] || rain::GLYPHS@.contains(
                after[j],
            ),
        forall|j: int, k: int|
            0 <= j < k < before.len() ==> #[trigger] after[j] == before[j] || #[trigger] after[k]
                == before[k],
{
}

/// A drop can take a step if and only if it has a character, and there is a row above
/// which it could start again or it is not gone after its fall.
pub proof fn law_who_can_step(drop: RainDrop, height: u16)
    requires
        drop.trail_len <= 0x80_0000,
    ensures
        drop.can_step(height) <==> drop.chars@.len() > 0 && (height > 0 || !is_gone(
            single::sum(drop.head_y, drop.speed),
            drop.trail_len,
            height,
        )),
{
    let y = single::sum(drop.head_y, drop.speed);
    if !y.is_nan() {
        rain_laws::law_trails_leave_by_rows(y, drop.trail_len, height);
    } else {
        let n = single::from_whole(drop.trail_len as nat);
        single_laws::law_results_that_are_not_numbers(y, single::negation(n));
    }
}

} // verus!
