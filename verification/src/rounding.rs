//! Rounding of exact rational magnitudes to IEEE 754 single precision.
//!
//! A magnitude is the pattern of a single-precision number without its sign
//! bit. Patterns are ordered as the values they stand for, so "the nearest
//! number" can be said of patterns: a value rounds to a pattern when it lies
//! between the midpoints to the neighbouring patterns, and a value that is
//! itself such a midpoint goes to the even pattern of the two.
//!
//! Values are counted in units of the smallest positive number, 2^-149.
use vstd::arithmetic::power2::*;
use vstd::prelude::*;

verus! {

/// The pattern of infinity, the largest one that is a number.
pub const INFINITY: u32 = 0x7f80_0000;

/// Patterns per binade: a pattern is an exponent times this, plus a fraction.
pub const BINADE: u32 = 0x80_0000;

/// The value of a magnitude pattern in units of 2^-149. The pattern of infinity
/// counts as the power of two that follows the largest finite number.
#[verifier::opaque]
pub open spec fn magnitude(b: nat) -> nat {
    let exponent = b / BINADE as nat;
    let fraction = b % BINADE as nat;
    if exponent == 0 {
        fraction
    } else {
        (fraction + BINADE as nat) * pow2((exponent - 1) as nat)
    }
}

/// Twice the midpoint between a pattern and the one after it.
pub open spec fn midpoint(b: nat) -> nat {
    magnitude(b) + magnitude(b + 1)
}

/// `p / q` rounds to the pattern `b`: to nearest, ties to even.
pub open spec fn rounds_to(p: nat, q: nat, b: nat) -> bool {
    &&& b <= INFINITY
    &&& b > 0 ==> {
        &&& q * midpoint((b - 1) as nat) <= 2 * p
        &&& q * midpoint((b - 1) as nat) == 2 * p ==> b % 2 == 0
    }
    &&& b < INFINITY ==> {
        &&& 2 * p <= q * midpoint(b)
        &&& 2 * p == q * midpoint(b) ==> b % 2 == 0
    }
}

/// The pattern that `p / q` rounds to.
#[verifier::opaque]
pub open spec fn nearest(p: nat, q: nat) -> nat {
    choose|b: nat| rounds_to(p, q, b)
}

/// A pattern split into a mantissa and the exponent of its last place.
pub proof fn lemma_magnitude_parts(e: nat, m: nat)
    requires
        m <= 0x100_0000,
        e == 0 || m >= 0x80_0000,
    ensures
        magnitude(e * 0x80_0000 + m) == m * pow2(e),
{
    reveal(magnitude);
    lemma_pow2_unfold(1);
    lemma2_to64();
    let b = e * 0x80_0000 + m;
    if m < 0x80_0000 {
        assert(b / 0x80_0000 == 0);
        assert(m * pow2(0) == m) by (nonlinear_arith)
            requires
                pow2(0) == 1,
        ;
    } else if m < 0x100_0000 {
        assert(b / 0x80_0000 == e + 1);
        assert(b % 0x80_0000 == m - 0x80_0000);
        assert(magnitude(b) == m * pow2(e));
    } else {
        assert(b / 0x80_0000 == e + 2);
        assert(b % 0x80_0000 == 0);
        lemma_pow2_unfold(e + 1);
        assert(0x80_0000 * pow2(e + 1) == 0x100_0000 * pow2(e));
    }
}

/// The values of the first two patterns.
pub proof fn lemma_magnitude_small()
    ensures
        magnitude(0) == 0,
        magnitude(1) == 1,
{
    lemma2_to64();
    lemma_magnitude_parts(0, 0);
    lemma_magnitude_parts(0, 1);
}

/// The step from a pattern to the next one.
pub proof fn lemma_magnitude_step(b: nat)
    ensures
        magnitude(b) < magnitude(b + 1),
{
    let exponent = b / 0x80_0000;
    let fraction = b % 0x80_0000;
    let e = if exponent == 0 { 0nat } else { (exponent - 1) as nat };
    let m = if exponent == 0 { fraction } else { fraction + 0x80_0000 };
    assert(b == e * 0x80_0000 + m);
    lemma_magnitude_parts(e, m);
    lemma_magnitude_parts(e, m + 1);
    lemma_pow2_pos(e);
    assert(m * pow2(e) < (m + 1) * pow2(e)) by (nonlinear_arith)
        requires
            pow2(e) > 0,
    ;
}

/// Patterns are ordered as their values.
pub proof fn lemma_magnitude_ordered(a: nat, b: nat)
    ensures
        a < b ==> magnitude(a) < magnitude(b),
        a <= b ==> magnitude(a) <= magnitude(b),
        magnitude(a) < magnitude(b) ==> a < b,
        magnitude(a) == magnitude(b) ==> a == b,
    decreases a + b,
{
    if a < b {
        lemma_magnitude_ordered(a, (b - 1) as nat);
        lemma_magnitude_step((b - 1) as nat);
    } else if b < a {
        lemma_magnitude_ordered((a - 1) as nat, b);
        lemma_magnitude_step((a - 1) as nat);
    }
}

proof fn lemma_midpoint_ordered(a: nat, b: nat)
    ensures
        a < b ==> midpoint(a) < midpoint(b),
{
    if a < b {
        lemma_magnitude_ordered(a, b);
        lemma_magnitude_ordered(a + 1, b + 1);
    }
}

/// Rounding keeps the order of the rounded values.
pub proof fn lemma_rounding_monotone(p1: nat, q1: nat, b1: nat, p2: nat, q2: nat, b2: nat)
    requires
        q1 > 0,
        q2 > 0,
        p1 * q2 <= p2 * q1,
        rounds_to(p1, q1, b1),
        rounds_to(p2, q2, b2),
    ensures
        b1 <= b2,
{
    if b1 > b2 {
        let lo = midpoint(b2);
        let hi = midpoint((b1 - 1) as nat);
        lemma_midpoint_ordered(b2, (b1 - 1) as nat);
        assert(lo <= hi);
        assert(2 * p2 <= q2 * lo);
        assert(q1 * hi <= 2 * p1);
        assert(lo == hi && 2 * p2 == q2 * lo && q1 * hi == 2 * p1) by (nonlinear_arith)
            requires
                q1 > 0,
                q2 > 0,
                p1 * q2 <= p2 * q1,
                2 * p2 <= q2 * lo,
                q1 * hi <= 2 * p1,
                lo <= hi,
        ;
        lemma_midpoint_ordered((b1 - 1) as nat, b2);
        assert(b1 - 1 == b2);
        assert(false);
    }
}

/// The pattern that a value rounds to is unique.
pub proof fn lemma_nearest_is(p: nat, q: nat, b: nat)
    requires
        q > 0,
        rounds_to(p, q, b),
    ensures
        nearest(p, q) == b,
{
    reveal(nearest);
    let c = nearest(p, q);
    assert(rounds_to(p, q, c));
    lemma_rounding_monotone(p, q, b, p, q, c);
    lemma_rounding_monotone(p, q, c, p, q, b);
}

/// A common factor of numerator and denominator does not matter.
pub proof fn lemma_rounding_scaled(p: nat, q: nat, c: nat, b: nat)
    requires
        c > 0,
        rounds_to(c * p, c * q, b),
    ensures
        rounds_to(p, q, b),
{
    let below = midpoint((b - 1) as nat);
    let above = midpoint(b);
    assert((c * q) * below <= 2 * (c * p) ==> q * below <= 2 * p) by (nonlinear_arith)
        requires
            c > 0,
    ;
    assert(q * below == 2 * p ==> (c * q) * below == 2 * (c * p)) by (nonlinear_arith);
    assert(2 * (c * p) <= (c * q) * above ==> 2 * p <= q * above) by (nonlinear_arith)
        requires
            c > 0,
    ;
    assert(2 * p == q * above ==> 2 * (c * p) == (c * q) * above) by (nonlinear_arith);
}

/// A value that is a single-precision number rounds to itself.
pub proof fn lemma_rounding_exact(p: nat, q: nat, b: nat)
    requires
        q > 0,
        b <= INFINITY,
        p == q * magnitude(b),
    ensures
        rounds_to(p, q, b),
{
    let v = magnitude(b);
    if b > 0 {
        lemma_magnitude_step((b - 1) as nat);
        let u = magnitude((b - 1) as nat);
        assert(q * (u + v) < 2 * p) by (nonlinear_arith)
            requires
                q > 0,
                u < v,
                p == q * v,
        ;
    }
    lemma_magnitude_step(b);
    let w = magnitude(b + 1);
    assert(2 * p < q * (v + w)) by (nonlinear_arith)
        requires
            q > 0,
            v < w,
            p == q * v,
    ;
}

proof fn lemma_rounding_exists_from(p: nat, q: nat, b: nat) -> (r: nat)
    requires
        q > 0,
        b <= INFINITY,
        q * magnitude(b) <= p,
    ensures
        rounds_to(p, q, r),
    decreases INFINITY - b,
{
    let v = magnitude(b);
    if b > 0 {
        lemma_magnitude_step((b - 1) as nat);
        let u = magnitude((b - 1) as nat);
        assert(q * (u + v) < 2 * p) by (nonlinear_arith)
            requires
                q > 0,
                u < v,
                q * v <= p,
        ;
    }
    if b == INFINITY {
        b
    } else if q * magnitude(b + 1) <= p {
        lemma_rounding_exists_from(p, q, b + 1)
    } else {
        let w = magnitude(b + 1);
        if 2 * p < q * midpoint(b) || (2 * p == q * midpoint(b) && b % 2 == 0) {
            b
        } else {
            lemma_magnitude_step(b + 1);
            let x = magnitude(b + 2);
            assert(2 * p < q * (w + x)) by (nonlinear_arith)
                requires
                    q > 0,
                    w < x,
                    p < q * w,
            ;
            assert(midpoint(b + 1) == w + x);
            b + 1
        }
    }
}

/// Every value rounds to some pattern.
pub proof fn lemma_nearest_rounds(p: nat, q: nat)
    requires
        q > 0,
    ensures
        rounds_to(p, q, nearest(p, q)),
{
    lemma_magnitude_small();
    assert(q * 0 == 0);
    reveal(nearest);
    let b = lemma_rounding_exists_from(p, q, 0);
    assert(rounds_to(p, q, b));
}

/// `2^s`, for a power that 128 bits hold.
pub(crate) fn power(s: u32) -> (d: u128)
    requires
        s <= 127,
    ensures
        d == pow2(s as nat),
{
    let mut d: u128 = 1;
    let mut i: u32 = 0;
    proof {
        lemma2_to64();
    }
    while i < s
        invariant
            i <= s <= 127,
            d == pow2(i as nat),
        decreases s - i,
    {
        proof {
            lemma_pow2_unfold((i + 1) as nat);
            lemma_pow2_below_128((i + 1) as nat);
        }
        d = d * 2;
        i = i + 1;
    }
    d
}

pub(crate) proof fn lemma_pow2_below_128(s: nat)
    requires
        s <= 127,
    ensures
        pow2(s) <= u128::MAX,
{
    lemma2_to64_rest();
    lemma_pow2_adds(63, 64);
    if s < 127 {
        lemma_pow2_strictly_increases(s, 127);
    }
}

/// The number of binary digits of `m`.
fn digits(m: u128) -> (l: u32)
    requires
        m > 0,
    ensures
        1 <= l <= 128,
        pow2((l - 1) as nat) <= m < pow2(l as nat),
{
    let mut rest: u128 = m / 2;
    let mut l: u32 = 1;
    proof {
        lemma2_to64();
        lemma_pow2_unfold(1);
        if rest == 0 {
            assert(m == 1);
        }
    }
    while rest > 0
        invariant
            1 <= l,
            m > 0,
            rest * pow2(l as nat) <= m < (rest + 1) * pow2(l as nat),
            pow2((l - 1) as nat) <= m,
            l <= 128,
        decreases rest,
    {
        let next: u128 = rest / 2;
        proof {
            let d = pow2(l as nat) as int;
            lemma_pow2_unfold((l + 1) as nat);
            lemma_pow2_pos(l as nat);
            let r = rest as int;
            let n = next as int;
            let v = m as int;
            assert(n * (2 * d) <= v && v < (n + 1) * (2 * d) && d <= v) by (nonlinear_arith)
                requires
                    d > 0,
                    r > 0,
                    r * d <= v,
                    v < (r + 1) * d,
                    2 * n <= r <= 2 * n + 1,
            ;
            if l == 128 {
                lemma2_to64_rest();
                lemma_pow2_adds(64, 64);
                assert(pow2(128) == 0x1_0000_0000_0000_0000 * 0x1_0000_0000_0000_0000);
            }
        }
        rest = next;
        l = l + 1;
    }
    proof {
        let d = pow2(l as nat);
        assert((rest + 1) * d == d) by (nonlinear_arith)
            requires
                rest == 0,
        ;
    }
    l
}

/// The case distinction of rounding: a value `p` in `[m * w, (m + 1) * w)`, where
/// `m` is `mant * d + rem`, against the halfway point `(2 * mant + 1) * d * w`.
proof fn lemma_halfway(p: int, w: int, m: int, mant: int, rem: int, d: int, half: int)
    requires
        w > 0,
        d == 2 * half,
        half > 0,
        m == mant * d + rem,
        0 <= rem < d,
        m * w <= p < (m + 1) * w,
    ensures
        mant * (d * w) <= p < (mant + 1) * (d * w),
        rem < half ==> 2 * p < (2 * mant + 1) * (d * w),
        rem > half ==> 2 * p > (2 * mant + 1) * (d * w),
        rem == half && p == m * w ==> 2 * p == (2 * mant + 1) * (d * w),
        rem == half && p > m * w ==> 2 * p > (2 * mant + 1) * (d * w),
{
    assert((mant * d + rem) * w == mant * (d * w) + rem * w) by (nonlinear_arith);
    assert((m + 1) * w == m * w + w) by (nonlinear_arith);
    assert((mant + 1) * (d * w) == mant * (d * w) + d * w) by (nonlinear_arith);
    assert((2 * mant + 1) * (d * w) == 2 * (mant * (d * w)) + d * w) by (nonlinear_arith);
    assert(d * w == 2 * (half * w)) by (nonlinear_arith)
        requires
            d == 2 * half,
    ;
    assert(rem * w >= 0) by (nonlinear_arith)
        requires
            rem >= 0,
            w > 0,
    ;
    assert((rem + 1) * w <= d * w) by (nonlinear_arith)
        requires
            rem + 1 <= d,
            w > 0,
    ;
    assert((rem + 1) * w == rem * w + w) by (nonlinear_arith);
    if rem < half {
        assert((rem + 1) * w <= half * w) by (nonlinear_arith)
            requires
                rem + 1 <= half,
                w > 0,
        ;
    } else if rem > half {
        assert((half + 1) * w <= rem * w) by (nonlinear_arith)
            requires
                half + 1 <= rem,
                w > 0,
        ;
        assert((half + 1) * w == half * w + w) by (nonlinear_arith);
    }
}

/// A value between two neighbouring patterns rounds to one of them, by its place
/// against their midpoint.
proof fn lemma_round_between(p: nat, q: nat, base: nat, up: bool)
    requires
        q > 0,
        base < INFINITY,
        q * magnitude(base) <= p < q * magnitude(base + 1),
        up ==> 2 * p >= q * midpoint(base),
        up && 2 * p == q * midpoint(base) ==> base % 2 == 1,
        !up ==> 2 * p <= q * midpoint(base),
        !up && 2 * p == q * midpoint(base) ==> base % 2 == 0,
    ensures
        rounds_to(p, q, if up { base + 1 } else { base }),
{
    let v = magnitude(base);
    let w = magnitude(base + 1);
    if up {
        lemma_magnitude_step(base + 1);
        let x = magnitude(base + 2);
        assert(2 * p < q * (w + x)) by (nonlinear_arith)
            requires
                q > 0,
                w < x,
                p < q * w,
        ;
        assert(midpoint(base + 1) == w + x);
    } else if base > 0 {
        lemma_magnitude_step((base - 1) as nat);
        let u = magnitude((base - 1) as nat);
        assert(q * (u + v) < 2 * p) by (nonlinear_arith)
            requires
                q > 0,
                u < v,
                q * v <= p,
        ;
    }
}

proof fn lemma_overflow(p: nat, q: nat, m: nat, e: nat, k: nat, l: nat)
    requires
        q > 0,
        l >= 1,
        pow2((l - 1) as nat) <= m,
        m * (pow2(e) * q) <= p,
        e + l >= k + 278,
    ensures
        rounds_to(p, q * pow2(k), INFINITY as nat),
{
    let x = (l - 1) as nat;
    lemma_pow2_adds(x, e);
    lemma_pow2_adds(23, 254);
    lemma_pow2_adds(277, k);
    if 277 + k < x + e {
        lemma_pow2_strictly_increases(277 + k, x + e);
    }
    lemma2_to64();
    assert(magnitude(INFINITY as nat) == pow2(277)) by {
        lemma_magnitude_parts(254, 0x80_0000);
    }
    lemma_magnitude_step((INFINITY - 1) as nat);
    let (a, b, c, d) = (pow2(x), pow2(e), pow2(277), pow2(k));
    let u = magnitude((INFINITY - 1) as nat);
    lemma_pow2_pos(k);
    lemma_pow2_pos(e);
    assert((q * d) * c <= p) by (nonlinear_arith)
        requires
            c * d <= a * b,
            a <= m,
            m * (b * q) <= p,
            q > 0,
            b > 0,
    ;
    assert((q * d) * (u + c) < 2 * p) by (nonlinear_arith)
        requires
            (q * d) * c <= p,
            u < c,
            q > 0,
            d > 0,
    ;
}

proof fn lemma_underflow(p: nat, q: nat, m: nat, e: nat, k: nat, s: nat)
    requires
        q > 0,
        m < pow2(126),
        p < (m + 1) * (pow2(e) * q),
        s > 127,
        k == s + e,
    ensures
        rounds_to(p, q * pow2(k), 0),
{
    lemma_pow2_adds(s, e);
    lemma_pow2_pos(e);
    lemma_pow2_unfold(127);
    lemma_pow2_strictly_increases(127, s);
    lemma_magnitude_small();
    let (a, b, c) = (pow2(s), pow2(e), pow2(k));
    assert(2 * (m + 1) <= a);
    assert(2 * p < q * c) by (nonlinear_arith)
        requires
            c == a * b,
            2 * (m + 1) <= a,
            p < (m + 1) * (b * q),
            q > 0,
            b > 0,
    ;
    assert(midpoint(0) == 1);
    assert((q * c) * 1 == q * c);
}

/// Shifted left to full width, a short mantissa still fits.
proof fn lemma_mantissa_bound(m: nat, l: nat, z: nat)
    requires
        m < pow2(l),
        l >= 1,
        pow2((l - 1) as nat) <= m,
        l + z <= 24,
    ensures
        m * pow2(z) < 0x100_0000,
        l + z == 24 ==> m * pow2(z) >= 0x80_0000,
        m < 0x100_0000,
{
    lemma_pow2_adds(l, z);
    lemma_pow2_adds((l - 1) as nat, z);
    lemma_pow2_pos(z);
    lemma2_to64();
    if l + z < 24 {
        lemma_pow2_strictly_increases(l + z, 24);
    }
    if l < 24 {
        lemma_pow2_strictly_increases(l, 24);
    }
    let (a, b, c) = (pow2(l), pow2(z), pow2((l - 1) as nat));
    assert(m * b < a * b && c * b <= m * b) by (nonlinear_arith)
        requires
            m < a,
            c <= m,
            b > 0,
    ;
}

/// Shifted right, a long mantissa keeps the digits that fit.
proof fn lemma_quotient_bound(m: nat, l: nat, s: nat, t: nat)
    requires
        m < pow2(l),
        l >= 1,
        pow2((l - 1) as nat) <= m,
        s > 0,
        l <= s + 24,
        t > 0 ==> l == s + 24,
    ensures
        m / pow2(s) < 0x100_0000,
        t > 0 ==> m / pow2(s) >= 0x80_0000,
{
    lemma_pow2_adds(24, s);
    lemma_pow2_adds(23, s);
    lemma_pow2_pos(s);
    lemma2_to64();
    if l < s + 24 {
        lemma_pow2_strictly_increases(l, s + 24);
    }
    let d = pow2(s) as int;
    let n = m as int;
    let r = n / d;
    vstd::arithmetic::div_mod::lemma_fundamental_div_mod(n, d);
    assert(r < 0x100_0000) by (nonlinear_arith)
        requires
            n == d * r + n % d,
            n % d >= 0,
            n < 0x100_0000 * d,
            d > 0,
    ;
    if t > 0 {
        assert(r >= 0x80_0000) by (nonlinear_arith)
            requires
                n == d * r + n % d,
                n % d < d,
                n >= 0x80_0000 * d,
                d > 0,
        ;
    }
}

/// Rounds a value that is known by its leading digits: `p / (q * 2^k)`, where `p`
/// lies at `m * 2^e * q` or, if `sticky`, between that and `(m + 1) * 2^e * q`.
pub(crate) fn round(
    m: u128,
    e: u32,
    k: u32,
    sticky: bool,
    Ghost(p): Ghost<nat>,
    Ghost(q): Ghost<nat>,
) -> (b: u32)
    requires
        q > 0,
        e <= 1000,
        k <= 1000,
        m < pow2(126),
        m * (pow2(e as nat) * q) <= p < (m + 1) * (pow2(e as nat) * q),
        sticky <==> p != m * (pow2(e as nat) * q),
        sticky ==> m >= 0x400_0000,
    ensures
        rounds_to(p, q * pow2(k as nat), b as nat),
{
    let ghost w = pow2(e as nat) * q;
    let ghost qk = q * pow2(k as nat);
    proof {
        lemma_pow2_pos(e as nat);
        lemma_pow2_pos(k as nat);
        assert(w > 0 && qk > 0) by (nonlinear_arith)
            requires
                w == pow2(e as nat) * q,
                qk == q * pow2(k as nat),
                pow2(e as nat) > 0,
                pow2(k as nat) > 0,
                q > 0,
        ;
    }
    if m == 0 {
        proof {
            assert(0 * w == 0);
            assert(p == 0);
            lemma_magnitude_small();
            assert(qk * 0 == 0);
            lemma_rounding_exact(p, qk, 0);
        }
        return 0;
    }
    let l: u32 = digits(m);
    let top: i64 = e as i64 - k as i64 + l as i64 - 24;
    // The exponent of the last place of the result.
    let t: i64 = if top > 0 { top } else { 0 };
    if t >= 254 {
        proof {
            lemma_overflow(p, q, m as nat, e as nat, k as nat, l as nat);
        }
        return INFINITY;
    }
    let s: i64 = t + k as i64 - e as i64;
    proof {
        // The last place of the result, in the scale of `p`.
        if s > 0 {
            lemma_pow2_adds(t as nat, k as nat);
            lemma_pow2_adds(s as nat, e as nat);
            let (a, b, c, d) = (pow2(t as nat), pow2(k as nat), pow2(s as nat), pow2(e as nat));
            assert((q * b) * a == c * (d * q)) by (nonlinear_arith)
                requires
                    a * b == c * d,
            ;
        } else {
            lemma_pow2_adds((-s) as nat, t as nat);
            lemma_pow2_adds(((-s) + t) as nat, k as nat);
            let (a, b, c, d) = (pow2(t as nat), pow2(k as nat), pow2((-s) as nat), pow2(e as nat));
            assert(d == (c * a) * b);
            assert((q * b) * (a * c) == d * q) by (nonlinear_arith)
                requires
                    d == (c * a) * b,
            ;
        }
    }
    if s <= 0 {
        let f: u128 = power((-s) as u32);
        proof {
            lemma_mantissa_bound(m as nat, l as nat, (-s) as nat);
        }
        let mant: u128 = m * f;
        let b: u32 = t as u32 * BINADE + mant as u32;
        proof {
            lemma_magnitude_parts(t as nat, mant as nat);
            let a = pow2(t as nat);
            assert(m < 0x400_0000);
            assert(p == qk * (mant * a)) by (nonlinear_arith)
                requires
                    p == m * w,
                    mant == m * f,
                    qk * (a * f) == w,
            ;
            lemma_rounding_exact(p, qk, b as nat);
        }
        return b;
    }
    if s > 127 {
        proof {
            lemma_underflow(p, q, m as nat, e as nat, k as nat, s as nat);
        }
        return 0;
    }
    let d: u128 = power(s as u32);
    let half: u128 = power((s - 1) as u32);
    proof {
        lemma_pow2_pos(s as nat);
    }
    let mant: u128 = m / d;
    let rem: u128 = m % d;
    proof {
        lemma_pow2_unfold(s as nat);
        lemma_quotient_bound(m as nat, l as nat, s as nat, t as nat);
        vstd::arithmetic::div_mod::lemma_fundamental_div_mod(m as int, d as int);
        assert(m == mant * d + rem) by (nonlinear_arith)
            requires
                m == d * mant + rem,
        ;
        lemma_halfway(p as int, w as int, m as int, mant as int, rem as int, d as int, half as int);
    }
    let base: u32 = t as u32 * BINADE + mant as u32;
    let up: bool = rem > half || (rem == half && (sticky || mant % 2 == 1));
    proof {
        let a = pow2(t as nat);
        let mn = mant as nat;
        lemma_magnitude_parts(t as nat, mn);
        lemma_magnitude_parts(t as nat, mn + 1);
        let dw = d * w;
        assert(qk * (mn * a) == mn * dw && qk * ((mn + 1) * a) == (mn + 1) * dw) by (nonlinear_arith)
            requires
                qk * a == dw,
        ;
        assert(qk * (mn * a + (mn + 1) * a) == (2 * mn + 1) * dw) by (nonlinear_arith)
            requires
                qk * a == dw,
        ;
        assert(midpoint(base as nat) == mn * a + (mn + 1) * a);
        lemma_round_between(p, qk, base as nat, up);
    }
    if up {
        base + 1
    } else {
        base
    }
}

} // verus!
