//! Random draws.
//!
//! The generator is `rand`'s per-thread one. It deals in whole numbers here; a
//! point of a single-precision range is computed from a whole draw.
use rand::rngs::ThreadRng;
use rand::Rng;
use vstd::arithmetic::power2::*;
use vstd::prelude::*;

use crate::rounding;
use crate::single;
use crate::single::Single;
use crate::single_laws;

verus! {

/// `rand`'s handle to the generator of the current thread.
#[verifier::external_type_specification]
#[verifier::external_body]
pub struct ExThreadRng(ThreadRng);

/// `rand::thread_rng`: a handle to the generator of the current thread, about
/// which nothing is claimed.
pub assume_specification[ rand::thread_rng ]() -> ThreadRng;

/// `rand::Rng::gen_range` on a half-open range of `usize`: a number of the range.
/// The range must not be empty. Which number comes is left to chance.
#[verifier::external_body]
pub(crate) fn draw_range(rng: &mut ThreadRng, low: usize, high: usize) -> (n: usize)
    requires
        low < high,
    ensures
        low <= n < high,
{
    rng.gen_range(low..high)
}

/// `rand::Rng::gen_ratio`: true with probability `numerator / denominator`, so
/// surely at one and never at zero. The ratio must lie between the two. Otherwise
/// the outcome is left to chance.
#[verifier::external_body]
pub(crate) fn draw_ratio(rng: &mut ThreadRng, numerator: u32, denominator: u32) -> (hit: bool)
    requires
        denominator > 0,
        numerator <= denominator,
    ensures
        numerator == denominator ==> hit,
        numerator == 0 ==> !hit,
{
    rng.gen_ratio(numerator, denominator)
}

/// How many points a single-precision range is divided into.
pub const POINTS: usize = 0x80_0000;

/// The `k`-th of the equidistant points of the range from `low` to `high`,
/// computed in single precision.
#[verifier::opaque]
pub open spec fn point(low: Single, high: Single, k: nat) -> Single {
    single::sum(
        single::product(
            single::quotient(single::from_whole(k), single::from_whole(POINTS as nat)),
            single::difference(high, low),
        ),
        low,
    )
}

/// The `k`-th point of a range.
pub fn point_between(low: Single, high: Single, k: usize) -> (r: Single)
    ensures
        r == point(low, high, k as nat),
{
    proof {
        reveal(point);
    }
    Single::from_u64(k as u64).over(Single::from_u64(POINTS as u64)).times(high.minus(low)).plus(
        low,
    )
}

/// The step of a draw is exact: `k` parts of the range, out of [`POINTS`].
pub(crate) proof fn lemma_share(k: nat) -> (u: Single)
    requires
        k < POINTS,
    ensures
        u == single::quotient(single::from_whole(k), single::from_whole(POINTS as nat)),
        u.is_finite(),
        !u.negative(),
        u.value() == k * pow2(126),
{
    single_laws::law_small_whole_is_exact(k);
    single_laws::law_small_whole_is_exact(POINTS as nat);
    let a = single::from_whole(k);
    let b = single::from_whole(POINTS as nat);
    let z = pow2(149);
    let y = pow2(126);
    lemma_pow2_pos(149);
    lemma_pow2_adds(23, 126);
    lemma2_to64();
    rounding::lemma_magnitude_ordered(b.pattern(), 0);
    rounding::lemma_magnitude_small();
    let c = single_laws::law_short_mantissa_is_a_number(k, 126);
    single_laws::lemma_finite_below(k, 126, c);
    assert((k * z) * z == (0x80_0000 * z) * (k * y)) by (nonlinear_arith)
        requires
            z == 0x80_0000 * y,
    ;
    rounding::lemma_rounding_exact((k * z) * z, 0x80_0000 * z, c);
    rounding::lemma_nearest_is((k * z) * z, 0x80_0000 * z, c);
    single::quotient(a, b)
}

/// A share of a span falls short of the span: it is at most the number before it.
proof fn lemma_share_of_span(span: Single, k: nat) -> (p: Single)
    requires
        k < POINTS,
        !span.negative(),
        rounding::BINADE <= span.pattern() < rounding::INFINITY,
    ensures
        p == single::product(
            single::quotient(single::from_whole(k), single::from_whole(POINTS as nat)),
            span,
        ),
        p.is_finite(),
        !p.negative(),
        p.pattern() <= span.pattern() - 1,
        0 <= p.value() < span.value(),
{
    let u = lemma_share(k);
    let b = span.pattern();
    let v = rounding::magnitude(b);
    let e = (b / 0x80_0000 - 1) as nat;
    let m = b % 0x80_0000 + 0x80_0000;
    let x = pow2(e);
    assert(b == e * 0x80_0000 + m);
    rounding::lemma_magnitude_parts(e, m);
    let below = rounding::magnitude((b - 1) as nat);
    lemma_pow2_pos(e);
    assert(below >= (m - 1) * x) by {
        if m > 0x80_0000 {
            rounding::lemma_magnitude_parts(e, (m - 1) as nat);
        } else if e == 0 {
            rounding::lemma_magnitude_parts(0, (m - 1) as nat);
        } else {
            rounding::lemma_magnitude_parts((e - 1) as nat, 0xff_ffff);
            lemma_pow2_unfold(e);
            lemma_pow2_pos((e - 1) as nat);
            let h = pow2((e - 1) as nat);
            assert(0xff_ffff * h >= 0x7f_ffff * (2 * h)) by (nonlinear_arith)
                requires
                    h > 0,
            ;
        }
    }
    let y = pow2(126);
    let z = pow2(149);
    lemma_pow2_pos(126);
    lemma_pow2_pos(149);
    lemma_pow2_adds(23, 126);
    lemma2_to64();
    let p = (k * y) * v;
    assert(p <= z * below) by (nonlinear_arith)
        requires
            p == (k * y) * v,
            v == m * x,
            z == 0x80_0000 * y,
            below >= (m - 1) * x,
            k <= 0x7f_ffff,
            m >= 0x80_0000,
            x > 0,
            y > 0,
    {
        assert(k * m <= 0x80_0000 * (m - 1));
        assert(k * m * x <= 0x80_0000 * ((m - 1) * x));
        assert((k * y) * (m * x) == y * (k * m * x));
        assert(y * (k * m * x) <= y * (0x80_0000 * below));
        assert(y * (0x80_0000 * below) == (0x80_0000 * y) * below);
    }
    let c = rounding::nearest(p, z);
    rounding::lemma_nearest_rounds(p, z);
    rounding::lemma_rounding_exact(z * below, z, (b - 1) as nat);
    assert(p * z <= (z * below) * z) by (nonlinear_arith)
        requires
            p <= z * below,
    ;
    rounding::lemma_rounding_monotone(p, z, c, z * below, z, (b - 1) as nat);
    rounding::lemma_magnitude_ordered(c, b);
    single::product(u, span)
}

/// Every point of a range that ends at zero lies in it: not under its start, and
/// under zero.
pub proof fn law_points_below_zero(top: Single, k: nat)
    requires
        k < POINTS,
        !top.negative(),
        rounding::BINADE <= top.pattern() < rounding::INFINITY,
    ensures
        single::at_most(single::negation(top), point(single::negation(top), zero(), k)),
        single::less(point(single::negation(top), zero(), k), zero()),
        point(single::negation(top), zero(), k).is_finite(),
{
    reveal(point);
    let low = single::negation(top);
    let z = zero();
    rounding::lemma_magnitude_small();
    rounding::lemma_magnitude_ordered(0, top.pattern());
    assert(single::negation(low) == top);
    single_laws::law_numbers_round_to_themselves(top);
    assert(single::difference(z, low) == top);
    let p = lemma_share_of_span(top, k);
    let r = single::sum(p, low);
    let n = p.value() + low.value();
    assert(n < 0);
    single_laws::law_sum_keeps_sides(p, low, low);
    single_laws::law_sum_keeps_sides(p, low, z);
    let tiny = single::with_sign(true, 1);
    single_laws::law_sum_keeps_sides(p, low, tiny);
    rounding::lemma_magnitude_ordered(r.pattern(), top.pattern());
    rounding::lemma_magnitude_ordered(top.pattern(), r.pattern());
}

/// Positive zero.
pub open spec fn zero() -> Single {
    Single { bits: 0 }
}

/// The slowest speed, 0.15 cells per frame.
pub const SLOWEST: u32 = 0x3e19_999a;

/// The speed that stays out of reach, 1.8 cells per frame.
pub const FASTEST: u32 = 0x3fe6_6666;

pub open spec fn slowest() -> Single {
    Single { bits: SLOWEST }
}

pub open spec fn fastest() -> Single {
    Single { bits: FASTEST }
}

/// Every speed that can be drawn lies between the slowest and the fastest.
pub proof fn law_points_of_speed(k: nat)
    requires
        k < POINTS,
    ensures
        single::at_most(slowest(), point(slowest(), fastest(), k)),
        single::less(point(slowest(), fastest(), k), fastest()),
        point(slowest(), fastest(), k).is_finite(),
{
    reveal(point);
    let low = slowest();
    let high = fastest();
    let span = Single { bits: 0x3fd3_3333 };
    let x = pow2(123);
    lemma_pow2_pos(123);
    lemma_pow2_unfold(124);
    lemma_pow2_unfold(125);
    lemma_pow2_unfold(126);
    assert(pow2(126) == 8 * x);
    rounding::lemma_magnitude_parts(123, 10066330);
    rounding::lemma_magnitude_parts(126, 15099493);
    rounding::lemma_magnitude_parts(126, 15099494);
    rounding::lemma_magnitude_parts(126, 13841202);
    rounding::lemma_magnitude_parts(126, 13841203);
    rounding::lemma_magnitude_parts(126, 13841204);
    assert(low.value() == 10066330 * x);
    assert(high.value() == 120795952 * x);
    assert(single::difference(high, low) == span) by {
        let n = (110729622 * x) as nat;
        let b = span.pattern();
        assert(rounding::midpoint((b - 1) as nat) == 221459240 * x);
        assert(rounding::midpoint(b) == 221459256 * x);
        assert(rounding::rounds_to(n, 1, b));
        rounding::lemma_nearest_is(n, 1, b);
        assert(single::negation(low).value() == -low.value());
    }
    let p = lemma_share_of_span(span, k);
    let r = single::sum(p, low);
    single_laws::law_sum_keeps_sides(p, low, low);
    single_laws::law_sum_keeps_sides(p, low, high);
    rounding::lemma_magnitude_ordered(p.pattern(), (span.pattern() - 1) as nat);
    let n = (p.value() + low.value()) as nat;
    assert(n <= 120795946 * x);
    let last = (FASTEST - 1) as nat;
    assert(rounding::midpoint(last) == 241591896 * x);
    let b = rounding::nearest(n, 1);
    rounding::lemma_nearest_rounds(n, 1);
    if b > last {
        rounding::lemma_magnitude_ordered(last, (b - 1) as nat);
        rounding::lemma_magnitude_ordered(last + 1, b);
        assert(false);
    }
    rounding::lemma_magnitude_ordered(b, FASTEST as nat);
}

} // verus!
