//! What holds of single-precision results, whatever the numbers.
use vstd::arithmetic::power2::*;
use vstd::prelude::*;

use crate::rounding;
use crate::single;
use crate::single::Single;

verus! {

/// A rounded value is a number, and it lies on the same side of any
/// single-precision number as the exact value.
pub proof fn law_rounding_keeps_sides(n: int, q: nat, s: Single)
    requires
        q > 0,
        !s.is_nan(),
    ensures
        !single::rounded(n, q).is_nan(),
        n <= q * s.value() ==> single::rounded(n, q).value() <= s.value(),
        n >= q * s.value() ==> single::rounded(n, q).value() >= s.value(),
{
    let p: nat = if n < 0 { (-n) as nat } else { n as nat };
    let b = rounding::nearest(p, q);
    let r = single::rounded(n, q);
    rounding::lemma_nearest_rounds(p, q);
    assert(r.pattern() == b && r.negative() == (n < 0));
    let c = s.pattern();
    let m = rounding::magnitude(c);
    rounding::lemma_rounding_exact(q * m, q, c);
    rounding::lemma_magnitude_ordered(b, c);
    rounding::lemma_magnitude_ordered(c, b);
    rounding::lemma_magnitude_ordered(0, b);
    rounding::lemma_magnitude_small();
    assert(q * s.value() == single::signed(s.negative(), q * m)) by (nonlinear_arith)
        requires
            s.value() == single::signed(s.negative(), m),
            single::signed(s.negative(), m) == if s.negative() { -(m as int) } else { m as int },
            single::signed(s.negative(), q * m) == if s.negative() { -((q * m) as int) } else { (q * m) as int },
    ;
    assert(q * m >= 0);
    if p <= q * m {
        assert(p * q <= (q * m) * q) by (nonlinear_arith)
            requires
                p <= q * m,
        ;
        rounding::lemma_rounding_monotone(p, q, b, q * m, q, c);
    }
    if p >= q * m {
        assert((q * m) * q <= p * q) by (nonlinear_arith)
            requires
                p >= q * m,
        ;
        rounding::lemma_rounding_monotone(q * m, q, c, p, q, b);
    }
    if m == 0 {
        assert(q * 0 == 0);
    } else {
        assert(q * m > 0) by (nonlinear_arith)
            requires
                q > 0,
                m > 0,
        ;
    }
}

/// A sum of finite numbers is a number, and it lies on the same side of any
/// single-precision number as the exact sum.
pub proof fn law_sum_keeps_sides(a: Single, b: Single, s: Single)
    requires
        a.is_finite(),
        b.is_finite(),
        !s.is_nan(),
    ensures
        !single::sum(a, b).is_nan(),
        a.value() + b.value() <= s.value() ==> single::sum(a, b).value() <= s.value(),
        a.value() + b.value() >= s.value() ==> single::sum(a, b).value() >= s.value(),
{
    let n = a.value() + b.value();
    law_rounding_keeps_sides(n, 1, s);
    if n == 0 {
        let r = single::sum(a, b);
        assert(r.pattern() == 0);
        rounding::lemma_magnitude_small();
    }
}

/// How far two values are apart.
pub open spec fn apart(a: int, b: int) -> int {
    if a <= b {
        b - a
    } else {
        a - b
    }
}

/// No single-precision number is nearer to a value than the one it rounds to.
pub proof fn law_rounding_is_nearest(n: int, q: nat, s: Single)
    requires
        q > 0,
        !s.is_nan(),
    ensures
        apart(q * single::rounded(n, q).value(), n) <= apart(q * s.value(), n),
{
    let p: nat = if n < 0 { (-n) as nat } else { n as nat };
    let b = rounding::nearest(p, q);
    let r = single::rounded(n, q);
    rounding::lemma_nearest_rounds(p, q);
    assert(r.pattern() == b && r.negative() == (n < 0));
    let v = rounding::magnitude(b);
    let m = rounding::magnitude(s.pattern());
    lemma_pattern_is_nearest(p, q, b, s.pattern());
    rounding::lemma_magnitude_small();
    lemma_pattern_is_nearest(p, q, b, 0);
    assert(q * 0 == 0);
    assert(q * m >= 0 && q * v >= 0) by (nonlinear_arith)
        requires
            m >= 0,
            v >= 0,
    ;
    assert(q * r.value() == if n < 0 { -((q * v) as int) } else { (q * v) as int }) by (nonlinear_arith)
        requires
            r.value() == if n < 0 { -(v as int) } else { v as int },
    ;
    assert(q * s.value() == if s.negative() { -((q * m) as int) } else { (q * m) as int }) by (nonlinear_arith)
        requires
            s.value() == if s.negative() { -(m as int) } else { m as int },
    ;
}

proof fn lemma_pattern_is_nearest(p: nat, q: nat, b: nat, c: nat)
    requires
        q > 0,
        c <= rounding::INFINITY,
        rounding::rounds_to(p, q, b),
    ensures
        apart((q * rounding::magnitude(b)) as int, p as int) <= apart(
            (q * rounding::magnitude(c)) as int,
            p as int,
        ),
{
    let v = rounding::magnitude(b);
    let m = rounding::magnitude(c);
    if c < b {
        let u = rounding::magnitude((b - 1) as nat);
        rounding::lemma_magnitude_ordered(c, (b - 1) as nat);
        rounding::lemma_magnitude_ordered(c, b);
        assert(q * m <= q * u && q * m <= q * v && q * (u + v) == q * u + q * v) by (nonlinear_arith)
            requires
                m <= u,
                m <= v,
        ;
    } else if c > b {
        let w = rounding::magnitude(b + 1);
        rounding::lemma_magnitude_ordered(b + 1, c);
        rounding::lemma_magnitude_ordered(b, c);
        assert(q * m >= q * w && q * m >= q * v && q * (v + w) == q * v + q * w) by (nonlinear_arith)
            requires
                m >= w,
                m >= v,
        ;
    }
}

/// No single-precision number is nearer to the exact sum of two numbers than their
/// sum.
pub proof fn law_sum_is_nearest(a: Single, b: Single, s: Single)
    requires
        a.is_finite(),
        b.is_finite(),
        !s.is_nan(),
    ensures
        apart(single::sum(a, b).value(), a.value() + b.value()) <= apart(
            s.value(),
            a.value() + b.value(),
        ),
{
    law_sum_value(a, b);
    law_rounding_is_nearest(a.value() + b.value(), 1, s);
}

/// A multiple of a power of two, with up to 24 digits, as a number.
pub proof fn law_short_multiple_is_a_number(n: int, e: nat) -> (s: Single)
    requires
        -0x100_0000 <= n <= 0x100_0000,
        e <= 252,
    ensures
        s.is_finite(),
        s.value() == n * pow2(e),
{
    let m: nat = if n < 0 { (-n) as nat } else { n as nat };
    let b = law_short_mantissa_is_a_number(m, e);
    lemma_finite_below(m, e, b);
    let s = single::with_sign(n < 0, b);
    let x = pow2(e);
    assert(s.pattern() == b && s.negative() == (n < 0));
    assert(s.value() == n * x) by (nonlinear_arith)
        requires
            s.value() == if n < 0 { -((m * x) as int) } else { (m * x) as int },
            m == if n < 0 { -n } else { n },
    ;
    s
}

/// Numbers from 2^23 on are whole.
pub proof fn law_large_numbers_are_whole(s: Single) -> (w: int)
    requires
        !s.is_nan(),
        s.value() >= 0x80_0000 * pow2(149),
    ensures
        s.value() == w * pow2(149),
{
    let b = s.pattern();
    let z = pow2(149);
    lemma_pow2_pos(149);
    rounding::lemma_magnitude_small();
    let e = (b / 0x80_0000 - 1) as nat;
    let m = b % 0x80_0000 + 0x80_0000;
    rounding::lemma_magnitude_parts(149, 0x80_0000);
    rounding::lemma_magnitude_ordered(b, 150 * 0x80_0000);
    assert(b >= 150 * 0x80_0000);
    assert(b == e * 0x80_0000 + m && e >= 149);
    rounding::lemma_magnitude_parts(e, m);
    lemma_pow2_adds((e - 149) as nat, 149);
    let x = pow2((e - 149) as nat);
    assert(m * (x * z) == (m * x) * z) by (nonlinear_arith);
    (m * x) as int
}

/// The numbers of up to 64 digits are finite.
pub proof fn law_words_are_finite(n: nat)
    requires
        n <= u64::MAX,
    ensures
        single::from_whole(n).is_finite(),
        !single::from_whole(n).negative(),
{
    let z = pow2(149);
    let p = n * z;
    let s = law_short_multiple_is_a_number(1, 213);
    lemma_pow2_adds(64, 149);
    lemma2_to64();
    lemma_pow2_pos(149);
    assert(p <= pow2(64) * z) by (nonlinear_arith)
        requires
            p == n * z,
            n <= pow2(64),
    ;
    rounding::lemma_nearest_rounds(p, 1);
    law_rounding_keeps_sides(p as int, 1, s);
    rounding::lemma_magnitude_ordered(single::from_whole(n).pattern(), s.pattern());
    rounding::lemma_magnitude_ordered(s.pattern(), single::from_whole(n).pattern());
}

/// A value midway between two patterns, one after the other, rounds to the even one.
pub proof fn law_ties_go_to_even(p: nat, q: nat, b: nat)
    requires
        q > 0,
        b < rounding::INFINITY,
        2 * p == q * (rounding::magnitude(b) + rounding::magnitude(b + 1)),
    ensures
        rounding::nearest(p, q) == if b % 2 == 0 { b } else { b + 1 },
{
    let r = rounding::nearest(p, q);
    rounding::lemma_nearest_rounds(p, q);
    let v = rounding::magnitude(b) + rounding::magnitude(b + 1);
    if r < b {
        let w = rounding::magnitude(r) + rounding::magnitude(r + 1);
        rounding::lemma_magnitude_ordered(r, b);
        rounding::lemma_magnitude_ordered(r + 1, b + 1);
        assert(q * w < q * v) by (nonlinear_arith)
            requires
                w < v,
                q > 0,
        ;
    } else if r > b + 1 {
        let w = rounding::magnitude((r - 1) as nat) + rounding::magnitude(r);
        rounding::lemma_magnitude_ordered(b, (r - 1) as nat);
        rounding::lemma_magnitude_ordered(b + 1, r);
        assert(q * v < q * w) by (nonlinear_arith)
            requires
                v < w,
                q > 0,
        ;
    }
}

/// The size of a value, without its sign.
pub open spec fn size(n: int) -> int {
    if n < 0 {
        -n
    } else {
        n
    }
}

/// How near a rounded value is: within a 2^24th part of an ordinary value, and within
/// half a unit of one too small for that.
pub proof fn law_rounding_error(n: int, q: nat)
    requires
        q > 0,
        size(n) <= q * pow2(277),
    ensures
        size(n) >= q * 0x80_0000 ==> 0x100_0000 * apart(q * single::rounded(n, q).value(), n)
            <= size(n),
        size(n) < q * 0x80_0000 ==> 2 * apart(q * single::rounded(n, q).value(), n) <= q,
{
    lemma_rounding_error_from(n, q, 253);
}

#[verifier::spinoff_prover]
proof fn lemma_rounding_error_from(n: int, q: nat, e: nat)
    requires
        q > 0,
        e <= 253,
        size(n) <= q * pow2(24 + e),
    ensures
        size(n) >= q * 0x80_0000 ==> 0x100_0000 * apart(q * single::rounded(n, q).value(), n)
            <= size(n),
        size(n) < q * 0x80_0000 ==> 2 * apart(q * single::rounded(n, q).value(), n) <= q,
    decreases e,
{
    let p = size(n);
    if e > 0 && p <= q * pow2(24 + (e - 1) as nat) {
        lemma_rounding_error_from(n, q, (e - 1) as nat);
    } else {
        let x = pow2(e) as int;
        let w = q * x;
        lemma_pow2_pos(e);
        lemma_pow2_adds(24, e);
        lemma2_to64();
        if e > 0 {
            lemma_pow2_adds(24, (e - 1) as nat);
            lemma_pow2_unfold(e);
        }
        assert(w > 0) by (nonlinear_arith)
            requires
                w == q * x,
                q > 0,
                x > 0,
        ;
        let k = p / w;
        vstd::arithmetic::div_mod::lemma_fundamental_div_mod(p, w);
        assert(0 <= k <= 0x100_0000) by (nonlinear_arith)
            requires
                p == w * k + p % w,
                0 <= p % w < w,
                0 <= p <= q * (0x100_0000 * x),
                w == q * x,
                w > 0,
        ;
        assert(k == 0x100_0000 ==> p == w * k) by (nonlinear_arith)
            requires
                p == w * k + p % w,
                0 <= p % w,
                p <= q * (0x100_0000 * x),
                w == q * x,
        ;
        let below = lemma_grid_number(if n < 0 { -k } else { k }, e);
        law_rounding_is_nearest(n, q, below);
        assert(q * (k * x) == w * k && q * ((-k) * x) == -(w * k)) by (nonlinear_arith)
            requires
                w == q * x,
        ;
        if k < 0x100_0000 {
            let j = k + 1;
            let above = lemma_grid_number(if n < 0 { -j } else { j }, e);
            law_rounding_is_nearest(n, q, above);
            assert(q * (j * x) == w * k + w && q * ((-j) * x) == -(w * k + w)) by (nonlinear_arith)
                requires
                    w == q * x,
                    j == k + 1,
            ;
        }
        assert(2 * apart(q * single::rounded(n, q).value(), n) <= w);
        if e > 0 {
            assert(p >= 0x80_0000 * w) by (nonlinear_arith)
                requires
                    p > q * (0x100_0000 * pow2((e - 1) as nat)),
                    x == 2 * pow2((e - 1) as nat),
                    w == q * x,
            ;
            assert(p >= q * 0x80_0000) by (nonlinear_arith)
                requires
                    p >= 0x80_0000 * w,
                    w == q * x,
                    x >= 1,
                    q > 0,
            ;
        } else {
            assert(w == q) by (nonlinear_arith)
                requires
                    w == q * x,
                    x == 1,
            ;
        }
    }
}

proof fn lemma_grid_number(n: int, e: nat) -> (s: Single)
    requires
        -0x100_0000 <= n <= 0x100_0000,
        e <= 253,
    ensures
        !s.is_nan(),
        s.value() == n * pow2(e),
{
    let m: nat = if n < 0 { (-n) as nat } else { n as nat };
    let b = law_short_mantissa_is_a_number(m, e);
    let s = single::with_sign(n < 0, b);
    let x = pow2(e);
    assert(s.pattern() == b && s.negative() == (n < 0));
    assert(s.value() == n * x) by (nonlinear_arith)
        requires
            s.value() == if n < 0 { -((m * x) as int) } else { (m * x) as int },
            m == if n < 0 { -n } else { n },
    ;
    s
}

/// The value of a product is the rounded exact product, whatever the signs.
pub proof fn law_product_value(a: Single, b: Single)
    requires
        a.is_finite(),
        b.is_finite(),
    ensures
        !single::product(a, b).is_nan(),
        single::product(a, b).value() == single::rounded(a.value() * b.value(), pow2(149)).value(),
{
    let z = pow2(149);
    lemma_pow2_pos(149);
    rounding::lemma_magnitude_small();
    let (m, n) = (rounding::magnitude(a.pattern()), rounding::magnitude(b.pattern()));
    let p = m * n;
    rounding::lemma_nearest_rounds(p, z);
    let v = a.value() * b.value();
    assert(v == if a.negative() != b.negative() { -(p as int) } else { p as int }) by (nonlinear_arith)
        requires
            v == a.value() * b.value(),
            p == m * n,
            a.value() == if a.negative() { -(m as int) } else { m as int },
            b.value() == if b.negative() { -(n as int) } else { n as int },
    ;
    if p == 0 {
        assert(z * 0 == 0);
        rounding::lemma_rounding_exact(0, z, 0);
        rounding::lemma_nearest_is(0, z, 0);
    } else {
        assert(p > 0) by (nonlinear_arith)
            requires
                p == m * n,
                p != 0,
                m >= 0,
                n >= 0,
        ;
    }
}

/// The value of a quotient is the rounded exact quotient, whatever the signs.
pub proof fn law_quotient_value(a: Single, b: Single)
    requires
        a.is_finite(),
        b.is_finite(),
        b.value() != 0,
    ensures
        !single::quotient(a, b).is_nan(),
        b.value() > 0 ==> single::quotient(a, b).value() == single::rounded(
            a.value() * pow2(149),
            b.value() as nat,
        ).value(),
        b.value() < 0 ==> single::quotient(a, b).value() == single::rounded(
            -(a.value() * pow2(149)),
            (-b.value()) as nat,
        ).value(),
{
    let z = pow2(149);
    lemma_pow2_pos(149);
    rounding::lemma_magnitude_small();
    let (m, q) = (rounding::magnitude(a.pattern()), rounding::magnitude(b.pattern()));
    let p = m * z;
    rounding::lemma_nearest_rounds(p, q);
    let v = a.value() * z;
    assert(v == if a.negative() { -(p as int) } else { p as int }) by (nonlinear_arith)
        requires
            v == a.value() * z,
            p == m * z,
            a.value() == if a.negative() { -(m as int) } else { m as int },
    ;
    if p == 0 {
        assert(q * 0 == 0);
        rounding::lemma_rounding_exact(0, q, 0);
        rounding::lemma_nearest_is(0, q, 0);
    }
}

/// When a result is not a number: for a sum, if a term is not, or for infinities
/// against each other; for a product, if a factor is not, or for infinity times zero;
/// for a quotient, if an operand is not, or for two infinities or two zeros.
pub proof fn law_results_that_are_not_numbers(a: Single, b: Single)
    ensures
        single::sum(a, b).is_nan() <==> a.is_nan() || b.is_nan() || (a.is_infinite()
            && b.is_infinite() && a.negative() != b.negative()),
        single::product(a, b).is_nan() <==> a.is_nan() || b.is_nan() || (a.is_infinite()
            && b.pattern() == 0) || (b.is_infinite() && a.pattern() == 0),
        single::quotient(a, b).is_nan() <==> a.is_nan() || b.is_nan() || (a.is_infinite()
            && b.is_infinite()) || (a.pattern() == 0 && b.pattern() == 0),
{
    lemma_pow2_pos(149);
    rounding::lemma_magnitude_small();
    if a.is_finite() && b.is_finite() {
        law_rounding_keeps_sides(a.value() + b.value(), 1, a);
        law_product_value(a, b);
        if b.pattern() != 0 {
            rounding::lemma_magnitude_ordered(0, b.pattern());
            law_quotient_value(a, b);
        }
    }
}

/// Infinity stays infinite: in a sum with a number, in a product with anything but
/// zero, and divided by a number; a number divided by infinity is zero, and a number
/// divided by zero infinite. The sign of a product or a quotient is that of its
/// operands' signs taken together.
pub proof fn law_infinite_results(a: Single, b: Single)
    requires
        !a.is_nan(),
        !b.is_nan(),
    ensures
        a.is_infinite() && b.is_finite() ==> single::sum(a, b) == a && single::sum(b, a) == a,
        a.is_infinite() && b.is_infinite() && a.negative() == b.negative() ==> single::sum(a, b)
            == a,
        a.is_infinite() && b.pattern() != 0 ==> single::product(a, b).is_infinite()
            && single::product(b, a).is_infinite(),
        a.is_infinite() && b.is_finite() ==> single::quotient(a, b).is_infinite(),
        a.is_finite() && b.is_infinite() ==> single::quotient(a, b).pattern() == 0,
        a.is_finite() && a.pattern() != 0 && b.pattern() == 0 ==> single::quotient(
            a,
            b,
        ).is_infinite(),
        !single::product(a, b).is_nan() ==> single::product(a, b).negative() == (a.negative()
            != b.negative()),
        !single::quotient(a, b).is_nan() ==> single::quotient(a, b).negative() == (a.negative()
            != b.negative()),
{
    lemma_pow2_pos(149);
    rounding::lemma_magnitude_small();
    if a.is_finite() && b.is_finite() {
        rounding::lemma_nearest_rounds(
            rounding::magnitude(a.pattern()) * rounding::magnitude(b.pattern()),
            pow2(149),
        );
        if b.pattern() != 0 {
            rounding::lemma_magnitude_ordered(0, b.pattern());
            rounding::lemma_nearest_rounds(
                rounding::magnitude(a.pattern()) * pow2(149),
                rounding::magnitude(b.pattern()),
            );
        }
    }
}

/// The floor of a number, between two whole numbers: not above the number, and less
/// than one under it, unless the ends of the range are in the way.
pub proof fn law_floor_is_the_whole_part(a: Single, lo: int, hi: int)
    requires
        !a.is_nan(),
        lo <= hi,
    ensures
        ({
            let f = single::floor_between(a, lo, hi);
            &&& lo <= f <= hi
            &&& f == lo || f * pow2(149) <= a.value()
            &&& f == hi || a.value() < (f + 1) * pow2(149)
        }),
{
    let z = pow2(149) as int;
    lemma_pow2_pos(149);
    let v = a.value();
    let f = v / z;
    vstd::arithmetic::div_mod::lemma_fundamental_div_mod(v, z);
    assert(f * z <= v && v < (f + 1) * z) by (nonlinear_arith)
        requires
            v == z * f + v % z,
            0 <= v % z < z,
    ;
    let g = single::floor_between(a, lo, hi);
    assert(g < f ==> (g + 1) * z <= f * z && g * z <= f * z) by (nonlinear_arith)
        requires
            z > 0,
    ;
    assert(g > f ==> (f + 1) * z <= (g + 1) * z) by (nonlinear_arith)
        requires
            z > 0,
    ;
}

/// A number brought between two others is in between, and is either the number itself
/// or the end of the range on its side. What is not a number stays as it is, and has no
/// floor but zero.
pub proof fn law_clamping_keeps_to_the_range(a: Single, lo: Single, hi: Single)
    requires
        single::at_most(lo, hi),
    ensures
        !a.is_nan() ==> {
            let c = single::clamped(a, lo, hi);
            &&& single::at_most(lo, c) && single::at_most(c, hi)
            &&& c == a || (c == lo && single::less(a, lo)) || (c == hi && single::less(hi, a))
        },
        a.is_nan() ==> single::clamped(a, lo, hi) == a,
        a.is_nan() ==> forall|l: int, h: int| #[trigger] single::floor_between(a, l, h) == 0,
{
}

/// Numbers are compared by their values, and only numbers.
pub proof fn law_comparisons_are_by_value(a: Single, b: Single)
    ensures
        single::less(a, b) <==> !a.is_nan() && !b.is_nan() && a.value() < b.value(),
        single::at_most(a, b) <==> !a.is_nan() && !b.is_nan() && a.value() <= b.value(),
        single::less(a, b) ==> single::at_most(a, b) && !single::at_most(b, a),
{
}

/// Whole numbers are off by at most a 2^24th part.
pub proof fn law_whole_numbers_are_near(n: nat)
    requires
        n <= u64::MAX,
    ensures
        0x100_0000 * apart(single::from_whole(n).value(), (n * pow2(149)) as int) <= n * pow2(149),
{
    let z = pow2(149);
    lemma_pow2_pos(149);
    lemma_word_is_in_range(n);
    lemma_pow2_strictly_increases(23, 149);
    lemma2_to64();
    law_rounding_error((n * z) as int, 1);
    rounding::lemma_nearest_rounds(n * z, 1);
    if n > 0 {
        assert(n * z >= z) by (nonlinear_arith)
            requires
                n >= 1,
        ;
    } else {
        assert(n * z == 0);
    }
}

proof fn lemma_word_is_in_range(n: nat)
    requires
        n <= u64::MAX,
    ensures
        0 <= n * pow2(149) <= pow2(213),
        pow2(213) <= pow2(277),
{
    lemma_pow2_adds(64, 149);
    lemma2_to64();
    lemma_pow2_pos(149);
    lemma_pow2_strictly_increases(213, 277);
    let z = pow2(149);
    assert(0 <= n * z <= 0x1_0000_0000_0000_0000 * z) by (nonlinear_arith)
        requires
            n <= 0x1_0000_0000_0000_0000,
    ;
}

/// The quotient of two whole numbers is off by at most a 2^22nd part.
#[verifier::spinoff_prover]
pub proof fn law_ratios_are_near(t: nat, n: nat)
    requires
        n > 0,
        t <= u64::MAX,
        n <= u64::MAX,
    ensures
        ({
            let q = single::quotient(single::from_whole(t), single::from_whole(n));
            &&& q.is_finite()
            &&& !q.negative()
            &&& 0x40_0000 * apart(n * q.value(), (t * pow2(149)) as int) <= t * pow2(149)
        }),
{
    let z = pow2(149) as int;
    lemma_pow2_pos(149);
    lemma_pow2_adds(64, 213);
    lemma_pow2_adds(149, 149);
    lemma_pow2_adds(85, 213);
    lemma_pow2_strictly_increases(26, 85);
    lemma2_to64();
    assert(pow2(298) >= pow2(213) * 0x400_0000) by (nonlinear_arith)
        requires
            pow2(298) == pow2(85) * pow2(213),
            pow2(85) >= 0x400_0000,
    ;
    lemma_word_is_in_range(t);
    lemma_word_is_in_range(n);
    law_whole_numbers_are_near(t);
    law_whole_numbers_are_near(n);
    law_words_are_finite(t);
    law_words_are_finite(n);
    rounding::lemma_magnitude_small();
    let (a, b) = (single::from_whole(t), single::from_whole(n));
    let (av, bv) = (a.value(), b.value());
    let (y, w) = (t * z, n * z);
    assert(w >= z) by (nonlinear_arith)
        requires
            w == n * z,
            n >= 1,
            z > 0,
    ;
    assert(bv > 0);
    law_quotient_value(a, b);
    let q = single::quotient(a, b);
    let qv = q.value();
    let p = av * z;
    let top = law_short_multiple_is_a_number(1, 214);
    lemma_pow2_unfold(214);
    assert(2 * bv >= w && bv <= 2 * w && av <= 2 * y);
    assert(0 <= p <= bv * pow2(277)) by (nonlinear_arith)
        requires
            p == av * z,
            0 <= av <= 2 * y,
            y <= pow2(213),
            2 * bv >= z,
            z > 0,
            pow2(277) >= 4 * pow2(213),
    {
        assert(av <= 2 * pow2(213));
        assert(p <= (2 * pow2(213)) * z);
        assert((2 * pow2(213)) * z <= (2 * pow2(213)) * (2 * bv));
        assert((2 * pow2(213)) * (2 * bv) == bv * (4 * pow2(213)));
        assert(bv * (4 * pow2(213)) <= bv * pow2(277));
    }
    law_rounding_error(p, bv as nat);
    law_infinite_results(a, b);
    if t == 0 {
        assert(y == 0 && av == 0 && p == 0) by (nonlinear_arith)
            requires
                y == t * z,
                t == 0,
                p == av * z,
                0x100_0000 * apart(av, y) <= y,
        ;
        lemma_zero_quotient(b);
        assert(a.pattern() == 0) by {
            rounding::lemma_magnitude_ordered(0, a.pattern());
        }
        assert(n * 0 == 0);
    } else {
        assert(y >= z) by (nonlinear_arith)
            requires
                y == t * z,
                t >= 1,
                z > 0,
        ;
        // An ordinary quotient: the dividend is not that much smaller.
        assert(p >= bv * 0x80_0000) by (nonlinear_arith)
            requires
                p == av * z,
                2 * av >= z,
                bv <= 2 * w,
                w <= pow2(213),
                z > 0,
                z * z >= pow2(213) * 0x400_0000,
        {
            assert(2 * p >= z * z);
            assert(bv <= 2 * pow2(213));
        }
        lemma_ratio(av, bv, qv, y, w, n as int, z);
        // So it is finite.
        assert(qv < pow2(214)) by (nonlinear_arith)
            requires
                0x40_0000 * apart(n * qv, y) <= y,
                apart(n * qv, y) >= n * qv - y,
                y <= pow2(213),
                n >= 1,
                pow2(214) == 2 * pow2(213),
                qv >= 0,
                y > 0,
        ;
        rounding::lemma_magnitude_ordered(q.pattern(), top.pattern());
    }
}

proof fn lemma_zero_quotient(b: Single)
    requires
        b.is_finite(),
        b.value() > 0,
    ensures
        forall|a: Single| a.pattern() == 0 ==> (#[trigger] single::quotient(a, b)).pattern() == 0,
{
    let q = rounding::magnitude(b.pattern());
    rounding::lemma_magnitude_small();
    assert(0 * pow2(149) == 0);
    assert(q * 0 == 0);
    rounding::lemma_rounding_exact(0, q, 0);
    rounding::lemma_nearest_is(0, q, 0);
}

proof fn lemma_ratio(av: int, bv: int, qv: int, y: int, w: int, n: int, z: int)
    requires
        z > 0,
        n >= 1,
        y > 0,
        w == n * z,
        qv >= 0,
        0x100_0000 * apart(av, y) <= y,
        0x100_0000 * apart(bv, w) <= w,
        0x100_0000 * apart(bv * qv, av * z) <= av * z,
    ensures
        0x40_0000 * apart(n * qv, y) <= y,
{
    let x = n * qv;
    // Everything over z.
    let d = w - bv;
    assert(bv * qv == x * z - d * qv) by (nonlinear_arith)
        requires
            d == w - bv,
            w == n * z,
            x == n * qv,
    ;
    assert(0x100_0000 * (d * qv) <= x * z && 0x100_0000 * (-(d * qv)) <= x * z) by (nonlinear_arith)
        requires
            0x100_0000 * d <= w,
            0x100_0000 * (-d) <= w,
            w == n * z,
            x == n * qv,
            qv >= 0,
    ;
    assert(0x100_0000 * (x - av) <= x + av && 0x100_0000 * (av - x) <= x + av) by (nonlinear_arith)
        requires
            bv * qv == x * z - d * qv,
            0x100_0000 * (d * qv) <= x * z,
            0x100_0000 * (-(d * qv)) <= x * z,
            0x100_0000 * (bv * qv - av * z) <= av * z,
            0x100_0000 * (av * z - bv * qv) <= av * z,
            z > 0,
    {
        assert((0x100_0000 * (x - av)) * z <= (x + av) * z);
        assert((0x100_0000 * (av - x)) * z <= (x + av) * z);
    }
}

/// Every product of a 24-digit mantissa and a power of two within range is a
/// single-precision number.
pub proof fn law_short_mantissa_is_a_number(m: nat, e: nat) -> (b: nat)
    requires
        m <= 0x100_0000,
        e <= 253,
    ensures
        b <= rounding::INFINITY,
        rounding::magnitude(b) == m * pow2(e),
    decreases e,
{
    if e == 0 || m >= 0x80_0000 {
        rounding::lemma_magnitude_parts(e, m);
        e * 0x80_0000 + m
    } else {
        lemma_pow2_unfold(e);
        let h = pow2((e - 1) as nat);
        assert((2 * m) * h == m * (2 * h)) by (nonlinear_arith);
        law_short_mantissa_is_a_number(2 * m, (e - 1) as nat)
    }
}

/// A value that is a number is its own rounding.
pub proof fn law_numbers_round_to_themselves(s: Single)
    requires
        !s.is_nan(),
    ensures
        s.value() != 0 ==> single::rounded(s.value(), 1) == s,
        single::rounded(s.value(), 1).value() == s.value(),
{
    let m = rounding::magnitude(s.pattern());
    assert(1 * m == m);
    rounding::lemma_rounding_exact(m, 1, s.pattern());
    rounding::lemma_nearest_is(m, 1, s.pattern());
}

/// Whole numbers of up to 24 digits are exact.
pub proof fn law_small_whole_is_exact(n: nat)
    requires
        n <= 0x100_0000,
    ensures
        single::from_whole(n).is_finite(),
        !single::from_whole(n).negative(),
        single::from_whole(n).value() == n * pow2(149),
{
    let b = law_short_mantissa_is_a_number(n, 149);
    let p = n * pow2(149);
    assert(1 * p == p);
    rounding::lemma_rounding_exact(p, 1, b);
    rounding::lemma_nearest_is(p, 1, b);
    lemma_finite_below(n, 149, b);
}

pub(crate) proof fn lemma_finite_below(m: nat, e: nat, b: nat)
    requires
        m <= 0x100_0000,
        e <= 252,
        b <= rounding::INFINITY,
        rounding::magnitude(b) == m * pow2(e),
    ensures
        b < rounding::INFINITY,
{
    if b == rounding::INFINITY {
        rounding::lemma_magnitude_parts(254, 0x80_0000);
        lemma_pow2_unfold(254);
        lemma_pow2_unfold(253);
        lemma_pow2_pos(252);
        if e < 252 {
            lemma_pow2_strictly_increases(e, 252);
        }
        let h = pow2(252);
        let x = pow2(e);
        assert(m * x <= 0x100_0000 * h) by (nonlinear_arith)
            requires
                m <= 0x100_0000,
                x <= h,
        ;
        assert(false);
    }
}

/// A product of finite numbers that are not negative lies on the same side of any
/// single-precision number as the exact product.
pub proof fn law_product_keeps_sides(a: Single, b: Single, s: Single)
    requires
        a.is_finite(),
        b.is_finite(),
        !a.negative(),
        !b.negative(),
        !s.is_nan(),
    ensures
        !single::product(a, b).is_nan(),
        !single::product(a, b).negative(),
        a.value() * b.value() <= pow2(149) * s.value() ==> single::product(a, b).value()
            <= s.value(),
        a.value() * b.value() >= pow2(149) * s.value() ==> single::product(a, b).value()
            >= s.value(),
{
    lemma_pow2_pos(149);
    let p = rounding::magnitude(a.pattern()) * rounding::magnitude(b.pattern());
    rounding::lemma_nearest_rounds(p, pow2(149));
    law_rounding_keeps_sides(p as int, pow2(149), s);
}

/// A quotient of finite numbers that are not negative lies on the same side of any
/// single-precision number as the exact quotient.
pub proof fn law_quotient_keeps_sides(a: Single, b: Single, s: Single)
    requires
        a.is_finite(),
        b.is_finite(),
        !a.negative(),
        !b.negative(),
        b.value() > 0,
        !s.is_nan(),
    ensures
        !single::quotient(a, b).is_nan(),
        !single::quotient(a, b).negative(),
        a.value() * pow2(149) <= b.value() * s.value() ==> single::quotient(a, b).value()
            <= s.value(),
        a.value() * pow2(149) >= b.value() * s.value() ==> single::quotient(a, b).value()
            >= s.value(),
{
    rounding::lemma_magnitude_small();
    let p = rounding::magnitude(a.pattern()) * pow2(149);
    let q = rounding::magnitude(b.pattern());
    rounding::lemma_nearest_rounds(p, q);
    law_rounding_keeps_sides(p as int, q, s);
}

/// Rounding keeps the order of fractions.
pub proof fn law_rounding_keeps_order(n1: int, q1: nat, n2: int, q2: nat)
    requires
        q1 > 0,
        q2 > 0,
        n1 * q2 <= n2 * q1,
    ensures
        single::rounded(n1, q1).value() <= single::rounded(n2, q2).value(),
{
    let p1: nat = if n1 < 0 { (-n1) as nat } else { n1 as nat };
    let p2: nat = if n2 < 0 { (-n2) as nat } else { n2 as nat };
    let b1 = rounding::nearest(p1, q1);
    let b2 = rounding::nearest(p2, q2);
    rounding::lemma_nearest_rounds(p1, q1);
    rounding::lemma_nearest_rounds(p2, q2);
    rounding::lemma_magnitude_ordered(b1, b2);
    rounding::lemma_magnitude_ordered(b2, b1);
    let r1 = single::rounded(n1, q1);
    let r2 = single::rounded(n2, q2);
    assert(r1.pattern() == b1 && r1.negative() == (n1 < 0));
    assert(r2.pattern() == b2 && r2.negative() == (n2 < 0));
    if n1 >= 0 && n2 < 0 {
        assert(n2 * q1 < 0) by (nonlinear_arith)
            requires
                n2 < 0,
                q1 > 0,
        ;
        assert(n1 * q2 >= 0) by (nonlinear_arith)
            requires
                n1 >= 0,
                q2 > 0,
        ;
    } else if n1 < 0 && n2 < 0 {
        assert(p2 * q1 <= p1 * q2) by (nonlinear_arith)
            requires
                n1 * q2 <= n2 * q1,
                p1 == -n1,
                p2 == -n2,
        ;
        rounding::lemma_rounding_monotone(p2, q2, b2, p1, q1, b1);
    } else if n1 >= 0 {
        rounding::lemma_rounding_monotone(p1, q1, b1, p2, q2, b2);
    }
}

/// Whole numbers keep their order when they are rounded.
pub proof fn law_whole_numbers_keep_order(m: nat, n: nat)
    requires
        m <= n,
    ensures
        single::from_whole(m).value() <= single::from_whole(n).value(),
{
    let z = pow2(149);
    assert(m * z <= n * z) by (nonlinear_arith)
        requires
            m <= n,
    ;
    assert((m * z) * 1 <= (n * z) * 1);
    law_rounding_keeps_order((m * z) as int, 1, (n * z) as int, 1);
}

/// Sums keep the order of their terms.
pub proof fn law_sum_keeps_order(a: Single, b: Single, c: Single, d: Single)
    requires
        a.is_finite(),
        b.is_finite(),
        c.is_finite(),
        d.is_finite(),
        a.value() + b.value() <= c.value() + d.value(),
    ensures
        single::sum(a, b).value() <= single::sum(c, d).value(),
{
    let n = a.value() + b.value();
    let m = c.value() + d.value();
    law_rounding_keeps_order(n, 1, m, 1);
    law_sum_value(a, b);
    law_sum_value(c, d);
}

/// The value of a sum is the rounded exact sum.
pub proof fn law_sum_value(a: Single, b: Single)
    requires
        a.is_finite(),
        b.is_finite(),
    ensures
        single::sum(a, b).value() == single::rounded(a.value() + b.value(), 1).value(),
{
    let n = a.value() + b.value();
    if n == 0 {
        rounding::lemma_magnitude_small();
        assert(1 * rounding::magnitude(0) == 0);
        rounding::lemma_rounding_exact(0, 1, 0);
        rounding::lemma_nearest_is(0, 1, 0);
        assert(single::sum(a, b).pattern() == 0);
    }
}

/// Products of numbers that are not negative keep the order of their factors.
pub proof fn law_product_keeps_order(a: Single, b: Single, c: Single, d: Single)
    requires
        a.is_finite(),
        b.is_finite(),
        c.is_finite(),
        d.is_finite(),
        !a.negative(),
        !b.negative(),
        !c.negative(),
        !d.negative(),
        a.value() <= c.value(),
        b.value() <= d.value(),
    ensures
        single::product(a, b).value() <= single::product(c, d).value(),
{
    let z = pow2(149);
    lemma_pow2_pos(149);
    let (av, bv, cv, dv) = (a.value(), b.value(), c.value(), d.value());
    assert(av * bv <= cv * dv) by (nonlinear_arith)
        requires
            0 <= av <= cv,
            0 <= bv <= dv,
    ;
    assert((av * bv) * z <= (cv * dv) * z) by (nonlinear_arith)
        requires
            av * bv <= cv * dv,
            z > 0,
    ;
    law_rounding_keeps_order(av * bv, z, cv * dv, z);
}

/// Quotients of numbers that are not negative keep the order of their dividends.
pub proof fn law_quotient_keeps_order(a: Single, b: Single, c: Single)
    requires
        a.is_finite(),
        b.is_finite(),
        c.is_finite(),
        !a.negative(),
        !b.negative(),
        !c.negative(),
        b.value() > 0,
        a.value() <= c.value(),
    ensures
        single::quotient(a, b).value() <= single::quotient(c, b).value(),
{
    let z = pow2(149);
    lemma_pow2_pos(149);
    rounding::lemma_magnitude_small();
    let (av, bv, cv) = (a.value(), b.value(), c.value());
    assert((av * z) * bv <= (cv * z) * bv) by (nonlinear_arith)
        requires
            av <= cv,
            z > 0,
            bv > 0,
    ;
    law_rounding_keeps_order(av * z, bv as nat, cv * z, bv as nat);
}

/// A number that does not exceed a whole number has a floor that does not, and one
/// that is under it has a floor under it.
pub proof fn law_floor_keeps_sides(a: Single, n: int)
    ensures
        a.value() <= n * pow2(149) ==> a.value() / pow2(149) as int <= n,
        a.value() < n * pow2(149) ==> a.value() / (pow2(149) as int) < n,
        a.value() >= n * pow2(149) ==> a.value() / pow2(149) as int >= n,
{
    lemma_pow2_pos(149);
    let z = pow2(149) as int;
    let v = a.value();
    let f = v / z;
    vstd::arithmetic::div_mod::lemma_fundamental_div_mod(v, z);
    assert(v <= n * z ==> f <= n) by (nonlinear_arith)
        requires
            v == z * f + v % z,
            0 <= v % z,
            z > 0,
    ;
    assert(v < n * z ==> f < n) by (nonlinear_arith)
        requires
            v == z * f + v % z,
            0 <= v % z,
            z > 0,
    ;
    assert(v >= n * z ==> f >= n) by (nonlinear_arith)
        requires
            v == z * f + v % z,
            v % z < z,
            z > 0,
    ;
}

/// A sum that is not under zero has no sign, unless its first term had one.
pub proof fn law_sum_has_no_sign(a: Single, b: Single)
    requires
        a.is_finite(),
        b.is_finite(),
        !a.negative(),
        a.value() + b.value() >= 0,
    ensures
        !single::sum(a, b).negative(),
{
    let n = a.value() + b.value();
    if n != 0 {
        rounding::lemma_nearest_rounds(n as nat, 1);
    }
}

} // verus!
