//! Single-precision numbers, computed on their bit patterns.
//!
//! [`Single`] holds the 32 bits of an IEEE 754 binary32 number. The operations
//! give the number nearest to the exact result, ties to even, as the hardware
//! does; a result that is not a number is the one quiet pattern [`NAN`].
use vstd::arithmetic::power2::*;
use vstd::prelude::*;

use crate::rounding;

verus! {

/// The pattern of every "not a number" that an operation gives.
pub const NAN: u32 = 0x7fc0_0000;

/// The weight of the sign bit.
pub const SIGN: u32 = 0x8000_0000;

/// A single-precision number, by its bits.
#[derive(Clone, Copy, Debug)]
pub struct Single {
    pub bits: u32,
}

/// `v` with a sign.
pub open spec fn signed(negative: bool, v: nat) -> int {
    if negative {
        -(v as int)
    } else {
        v as int
    }
}

impl Single {
    /// The sign bit.
    pub open spec fn negative(self) -> bool {
        self.bits >= SIGN
    }

    /// The bits without the sign.
    pub open spec fn pattern(self) -> nat {
        self.bits as nat % SIGN as nat
    }

    pub open spec fn is_nan(self) -> bool {
        self.pattern() > rounding::INFINITY
    }

    pub open spec fn is_infinite(self) -> bool {
        self.pattern() == rounding::INFINITY
    }

    pub open spec fn is_finite(self) -> bool {
        self.pattern() < rounding::INFINITY
    }

    /// The value in units of 2^-149. Infinity counts as the power of two that
    /// follows the largest finite number.
    pub open spec fn value(self) -> int {
        signed(self.negative(), rounding::magnitude(self.pattern()))
    }
}

/// The number with the given sign and the given bits below it.
pub open spec fn with_sign(negative: bool, pattern: nat) -> Single {
    Single { bits: (if negative { SIGN as nat } else { 0 } + pattern) as u32 }
}

/// The number nearest to `n / q` units.
pub open spec fn rounded(n: int, q: nat) -> Single {
    if n < 0 {
        with_sign(true, rounding::nearest((-n) as nat, q))
    } else {
        with_sign(false, rounding::nearest(n as nat, q))
    }
}

pub open spec fn nan() -> Single {
    Single { bits: NAN }
}

/// The nearest number to a sum of `n` units. A sum of zero is negative only if
/// both terms were.
pub open spec fn rounded_sum(n: int, both_negative: bool) -> Single {
    if n == 0 {
        with_sign(both_negative, 0)
    } else {
        rounded(n, 1)
    }
}

/// `-a`: the sign bit flipped.
pub open spec fn negation(a: Single) -> Single {
    with_sign(!a.negative(), a.pattern())
}

/// `a + b`.
pub open spec fn sum(a: Single, b: Single) -> Single {
    if a.is_nan() || b.is_nan() {
        nan()
    } else if a.is_infinite() {
        if b.is_infinite() && a.negative() != b.negative() {
            nan()
        } else {
            a
        }
    } else if b.is_infinite() {
        b
    } else {
        rounded_sum(a.value() + b.value(), a.negative() && b.negative())
    }
}

/// `a - b`.
pub open spec fn difference(a: Single, b: Single) -> Single {
    sum(a, negation(b))
}

/// `a * b`.
pub open spec fn product(a: Single, b: Single) -> Single {
    let negative = a.negative() != b.negative();
    if a.is_nan() || b.is_nan() {
        nan()
    } else if a.is_infinite() || b.is_infinite() {
        if a.pattern() == 0 || b.pattern() == 0 {
            nan()
        } else {
            with_sign(negative, rounding::INFINITY as nat)
        }
    } else {
        with_sign(
            negative,
            rounding::nearest(
                rounding::magnitude(a.pattern()) * rounding::magnitude(b.pattern()),
                pow2(149),
            ),
        )
    }
}

/// `a / b`.
pub open spec fn quotient(a: Single, b: Single) -> Single {
    let negative = a.negative() != b.negative();
    if a.is_nan() || b.is_nan() {
        nan()
    } else if a.is_infinite() {
        if b.is_infinite() {
            nan()
        } else {
            with_sign(negative, rounding::INFINITY as nat)
        }
    } else if b.is_infinite() {
        with_sign(negative, 0)
    } else if b.pattern() == 0 {
        if a.pattern() == 0 {
            nan()
        } else {
            with_sign(negative, rounding::INFINITY as nat)
        }
    } else {
        with_sign(
            negative,
            rounding::nearest(
                rounding::magnitude(a.pattern()) * pow2(149),
                rounding::magnitude(b.pattern()),
            ),
        )
    }
}

/// The number nearest to the whole number `n`.
pub open spec fn from_whole(n: nat) -> Single {
    with_sign(false, rounding::nearest(n * pow2(149), 1))
}

/// `a < b`; false if either is not a number.
pub open spec fn less(a: Single, b: Single) -> bool {
    !a.is_nan() && !b.is_nan() && a.value() < b.value()
}

/// `a <= b`; false if either is not a number.
pub open spec fn at_most(a: Single, b: Single) -> bool {
    !a.is_nan() && !b.is_nan() && a.value() <= b.value()
}

/// `a` brought between `lo` and `hi`. What is not a number stays so.
pub open spec fn clamped(a: Single, lo: Single, hi: Single) -> Single {
    if less(a, lo) {
        lo
    } else if less(hi, a) {
        hi
    } else {
        a
    }
}

/// `n`, or the end of the range that it lies beyond.
pub open spec fn bounded(n: int, lo: int, hi: int) -> int {
    if n < lo {
        lo
    } else if n > hi {
        hi
    } else {
        n
    }
}

/// The largest whole number that is not above `a`, bounded by the range; zero for
/// what is not a number.
pub open spec fn floor_between(a: Single, lo: int, hi: int) -> int {
    if a.is_nan() {
        0
    } else {
        bounded(a.value() / pow2(149) as int, lo, hi)
    }
}

/// The whole number nearest to `v` units, ties to even.
pub open spec fn nearest_whole(v: nat) -> nat {
    let whole = v / pow2(149);
    let rest = v % pow2(149);
    if 2 * rest < pow2(149) || (2 * rest == pow2(149) && whole % 2 == 0) {
        whole
    } else {
        whole + 1
    }
}

/// A finite magnitude as a mantissa times a power of two.
fn parts(pattern: u32) -> (r: (u32, u32))
    requires
        pattern < rounding::INFINITY,
    ensures
        r.0 < 0x100_0000,
        r.1 <= 253,
        r.1 == 0 || r.0 >= 0x80_0000,
        rounding::magnitude(pattern as nat) == r.0 * pow2(r.1 as nat),
        r.0 == 0 <==> pattern == 0,
        r.1 > 0 ==> r.1 == pattern / rounding::BINADE - 1,
{
    let exponent: u32 = pattern / rounding::BINADE;
    let fraction: u32 = pattern % rounding::BINADE;
    proof {
        if exponent == 0 {
            rounding::lemma_magnitude_parts(0, fraction as nat);
        } else {
            rounding::lemma_magnitude_parts(
                (exponent - 1) as nat,
                (fraction + rounding::BINADE) as nat,
            );
        }
    }
    if exponent == 0 {
        (fraction, 0)
    } else {
        (fraction + rounding::BINADE, exponent - 1)
    }
}

impl Single {
    pub fn from_bits(bits: u32) -> (r: Single)
        ensures
            r.bits == bits,
    {
        Single { bits }
    }

    /// The sign bit.
    pub fn sign_bit(self) -> (r: bool)
        ensures
            r == self.negative(),
    {
        self.bits >= SIGN
    }

    fn low_bits(self) -> (r: u32)
        ensures
            r == self.pattern(),
            r < SIGN,
    {
        self.bits % SIGN
    }

    fn signed_bits(negative: bool, pattern: u32) -> (r: Single)
        requires
            pattern < SIGN,
        ensures
            r == with_sign(negative, pattern as nat),
            r.negative() == negative,
            r.pattern() == pattern,
    {
        if negative {
            Single { bits: SIGN + pattern }
        } else {
            Single { bits: pattern }
        }
    }

    /// `-self`.
    pub fn negated(self) -> (r: Single)
        ensures
            r == negation(self),
    {
        Self::signed_bits(!self.sign_bit(), self.low_bits())
    }

    /// The number nearest to a whole number.
    pub fn from_u64(n: u64) -> (r: Single)
        ensures
            r == from_whole(n as nat),
    {
        let ghost w = pow2(149);
        proof {
            lemma_pow2_pos(149);
            lemma2_to64();
            lemma2_to64_rest();
            lemma_pow2_strictly_increases(64, 126);
            assert(w * 1 == w);
            assert((n + 1) * w == n * w + w) by (nonlinear_arith);
            assert(1 * pow2(0) == 1);
        }
        let b: u32 = rounding::round(
            n as u128,
            149,
            0,
            false,
            Ghost(n as nat * w),
            Ghost(1nat),
        );
        proof {
            rounding::lemma_nearest_is(n as nat * w, 1, b as nat);
        }
        Self::signed_bits(false, b)
    }

    /// `self * other`.
    pub fn times(self, other: Single) -> (r: Single)
        ensures
            r == product(self, other),
    {
        let a: u32 = self.low_bits();
        let b: u32 = other.low_bits();
        let negative: bool = self.sign_bit() != other.sign_bit();
        if a > rounding::INFINITY || b > rounding::INFINITY {
            return Single { bits: NAN };
        }
        if a == rounding::INFINITY || b == rounding::INFINITY {
            if a == 0 || b == 0 {
                return Single { bits: NAN };
            }
            return Self::signed_bits(negative, rounding::INFINITY);
        }
        let (ma, ea): (u32, u32) = parts(a);
        let (mb, eb): (u32, u32) = parts(b);
        proof {
            assert(0 <= ma * mb < 0x1_0000_0000_0000) by (nonlinear_arith)
                requires
                    ma < 0x100_0000,
                    mb < 0x100_0000,
            ;
        }
        let m: u128 = ma as u128 * mb as u128;
        let ghost p = rounding::magnitude(a as nat) * rounding::magnitude(b as nat);
        proof {
            let (x, y) = (pow2(ea as nat), pow2(eb as nat));
            lemma_pow2_adds(ea as nat, eb as nat);
            lemma_pow2_pos((ea + eb) as nat);
            let w = pow2((ea + eb) as nat);
            assert((ma * x) * (mb * y) == (ma * mb) * (w * 1)) by (nonlinear_arith)
                requires
                    w == x * y,
            ;
            assert((m + 1) * (w * 1) == m * (w * 1) + w) by (nonlinear_arith);
            lemma2_to64_rest();
            lemma_pow2_strictly_increases(48, 126);
            lemma_pow2_pos(149);
            assert(1 * pow2(149) == pow2(149));
        }
        let c: u32 = rounding::round(m, ea + eb, 149, false, Ghost(p), Ghost(1nat));
        proof {
            rounding::lemma_nearest_is(p, pow2(149), c as nat);
        }
        Self::signed_bits(negative, c)
    }

    /// `self / other`.
    pub fn over(self, other: Single) -> (r: Single)
        ensures
            r == quotient(self, other),
    {
        let a: u32 = self.low_bits();
        let b: u32 = other.low_bits();
        let negative: bool = self.sign_bit() != other.sign_bit();
        if a > rounding::INFINITY || b > rounding::INFINITY {
            return Single { bits: NAN };
        }
        if a == rounding::INFINITY {
            if b == rounding::INFINITY {
                return Single { bits: NAN };
            }
            return Self::signed_bits(negative, rounding::INFINITY);
        }
        if b == rounding::INFINITY {
            return Self::signed_bits(negative, 0);
        }
        if b == 0 {
            if a == 0 {
                return Single { bits: NAN };
            }
            return Self::signed_bits(negative, rounding::INFINITY);
        }
        let (ma, ea): (u32, u32) = parts(a);
        let (mb, eb): (u32, u32) = parts(b);
        let wide: u128 = ma as u128 * 0x1000_0000_0000_0000;
        let m: u128 = wide / mb as u128;
        let rem: u128 = wide % mb as u128;
        let ghost c = pow2(60);
        let ghost pa = rounding::magnitude(a as nat) * pow2(149);
        let ghost pb = rounding::magnitude(b as nat);
        proof {
            lemma2_to64_rest();
            lemma_division_digits(ma as nat, ea as nat, mb as nat, eb as nat, m as nat, rem as nat);
        }
        let d: u32 = rounding::round(
            m,
            ea + 149,
            eb + 60,
            rem != 0,
            Ghost(c * pa),
            Ghost(mb as nat),
        );
        proof {
            lemma_pow2_adds(eb as nat, 60);
            let y = pow2(eb as nat);
            assert(mb * (y * c) == c * (mb * y)) by (nonlinear_arith);
            lemma_pow2_pos(eb as nat);
            assert(mb * y > 0) by (nonlinear_arith)
                requires
                    mb > 0,
                    y > 0,
            ;
            rounding::lemma_rounding_scaled(pa, pb, c, d as nat);
            rounding::lemma_nearest_is(pa, pb, d as nat);
        }
        Self::signed_bits(negative, d)
    }
}

/// Long division of the mantissas, carried far enough to round.
proof fn lemma_division_digits(ma: nat, ea: nat, mb: nat, eb: nat, m: nat, rem: nat)
    requires
        ma < 0x100_0000,
        0 < mb < 0x100_0000,
        m == (ma * 0x1000_0000_0000_0000) / mb,
        rem == (ma * 0x1000_0000_0000_0000) % mb,
    ensures
        ({
            let p = 0x1000_0000_0000_0000 * ((ma * pow2(ea)) * pow2(149));
            let w = pow2(ea + 149) * mb;
            &&& m * w <= p < (m + 1) * w
            &&& rem != 0 <==> p != m * w
        }),
        rem != 0 ==> m >= 0x400_0000,
        m < pow2(126),
{
    let wide = ma * 0x1000_0000_0000_0000;
    let x = pow2(ea);
    let z = pow2(149);
    let xz = pow2(ea + 149);
    lemma_pow2_adds(ea, 149);
    lemma_pow2_pos(ea + 149);
    vstd::arithmetic::div_mod::lemma_fundamental_div_mod(wide as int, mb as int);
    assert(0x1000_0000_0000_0000 * ((ma * x) * z) == wide * xz) by (nonlinear_arith)
        requires
            xz == x * z,
            wide == ma * 0x1000_0000_0000_0000,
    ;
    assert(wide * xz == m * (xz * mb) + rem * xz) by (nonlinear_arith)
        requires
            wide == mb * m + rem,
    ;
    assert((m + 1) * (xz * mb) == m * (xz * mb) + mb * xz) by (nonlinear_arith);
    assert(rem * xz < mb * xz) by (nonlinear_arith)
        requires
            rem < mb,
            xz > 0,
    ;
    assert(rem != 0 ==> rem * xz > 0) by (nonlinear_arith)
        requires
            xz > 0,
    ;
    assert(rem == 0 ==> rem * xz == 0) by (nonlinear_arith);
    if rem != 0 {
        assert(ma >= 1);
        assert(m >= 0x400_0000) by (nonlinear_arith)
            requires
                wide == mb * m + rem,
                rem < mb,
                mb < 0x100_0000,
                wide >= 0x1000_0000_0000_0000,
        ;
    }
    assert(m <= wide) by (nonlinear_arith)
        requires
            wide == mb * m + rem,
            mb >= 1,
    ;
    lemma2_to64();
    lemma2_to64_rest();
    lemma_pow2_adds(24, 60);
    lemma_pow2_strictly_increases(84, 126);
}

/// The sum of two finite numbers that are given by their parts, the one with the
/// larger exponent first.
fn sum_of_parts(an: bool, ma: u32, ea: u32, bn: bool, mb: u32, eb: u32) -> (r: Single)
    requires
        ma < 0x100_0000,
        mb < 0x100_0000,
        eb <= ea <= 253,
        ea == 0 || ma >= 0x80_0000,
    ensures
        r == rounded_sum(
            signed(an, ma as nat * pow2(ea as nat)) + signed(bn, mb as nat * pow2(eb as nat)),
            an && bn,
        ),
{
    let d: u32 = ea - eb;
    let ghost va = ma as nat * pow2(ea as nat);
    let ghost vb = mb as nat * pow2(eb as nat);
    let ghost n = signed(an, va) + signed(bn, vb);
    proof {
        lemma_pow2_pos(ea as nat);
        lemma_pow2_pos(eb as nat);
        lemma_pow2_adds(d as nat, eb as nat);
        lemma2_to64();
    }
    if d <= 100 {
        let f: u128 = rounding::power(d);
        proof {
            lemma_aligned(ma as nat, d as nat);
            rounding::lemma_pow2_below_128(125);
        }
        let x: u128 = ma as u128 * f;
        let y: u128 = mb as u128;
        let ghost w = pow2(eb as nat);
        proof {
            assert(ma * (f * w) == x * w) by (nonlinear_arith)
                requires
                    x == ma * f,
            ;
        }
        let negative: bool;
        let m: u128;
        if an == bn {
            negative = an;
            m = x + y;
        } else if x > y {
            negative = an;
            m = x - y;
        } else {
            negative = bn;
            m = y - x;
        }
        proof {
            lemma_signed_combination(an, x as nat, bn, y as nat, w, m as nat, negative);
            lemma_pow2_strictly_increases(125, 126);
            lemma_pow2_pos(125);
            assert((m + 1) * (w * 1) == m * (w * 1) + w) by (nonlinear_arith);
        }
        if m == 0 {
            return Single::signed_bits(an && bn, 0);
        }
        let ghost p = m as nat * (w * 1);
        let b: u32 = rounding::round(m, eb, 0, false, Ghost(p), Ghost(1nat));
        proof {
            rounding::lemma_nearest_is(p, 1, b as nat);
        }
        Single::signed_bits(negative, b)
    } else {
        let wide: u128 = ma as u128 * 0x1_0000_0000_0000_0000;
        let sticky: bool = mb != 0;
        let m: u128 = if sticky && an != bn { wide - 1 } else { wide };
        let ghost w = pow2((ea - 64) as nat);
        let ghost p = if an == bn { va + vb } else { (va - vb) as nat };
        proof {
            lemma_far_apart(ma as nat, ea as nat, mb as nat, eb as nat);
            lemma_pow2_adds(24, 64);
            lemma_pow2_strictly_increases(88, 126);
            assert(w * 1 == w);
            assert((wide + 1) * w == wide * w + w) by (nonlinear_arith);
            assert((wide - 1) * w == wide * w - w) by (nonlinear_arith);
        }
        let b: u32 = rounding::round(m, ea - 64, 0, sticky, Ghost(p), Ghost(1nat));
        proof {
            rounding::lemma_nearest_is(p, 1, b as nat);
            assert(n == signed(an, p));
            assert(n != 0);
        }
        Single::signed_bits(an, b)
    }
}

proof fn lemma_aligned(m: nat, d: nat)
    requires
        m < 0x100_0000,
        d <= 100,
    ensures
        m * pow2(d) + 0x100_0000 < pow2(125),
{
    lemma2_to64();
    lemma_pow2_pos(d);
    lemma_pow2_adds(24, d);
    if d < 100 {
        lemma_pow2_strictly_increases(d + 24, 124);
    }
    let f = pow2(d);
    assert(m * f < 0x100_0000 * f) by (nonlinear_arith)
        requires
            m < 0x100_0000,
            f > 0,
    ;
    lemma_pow2_unfold(125);
    lemma_pow2_strictly_increases(24, 124);
}

proof fn lemma_signed_combination(
    an: bool,
    x: nat,
    bn: bool,
    y: nat,
    w: nat,
    m: nat,
    negative: bool,
)
    requires
        w > 0,
        an == bn ==> m == x + y && negative == an,
        an != bn && x > y ==> m == x - y && negative == an,
        an != bn && x <= y ==> m == y - x && negative == bn,
    ensures
        signed(an, x * w) + signed(bn, y * w) == signed(negative, m * w),
        m == 0 <==> m * w == 0,
{
    assert((x + y) * w == x * w + y * w) by (nonlinear_arith);
    assert((x - y) * w == x * w - y * w) by (nonlinear_arith);
    assert((y - x) * w == y * w - x * w) by (nonlinear_arith);
    assert(m == 0 <==> m * w == 0) by (nonlinear_arith)
        requires
            w > 0,
    ;
}

/// A term that is too small to reach the digits that matter.
proof fn lemma_far_apart(ma: nat, ea: nat, mb: nat, eb: nat)
    requires
        0x80_0000 <= ma < 0x100_0000,
        mb < 0x100_0000,
        ea > eb + 100,
    ensures
        pow2((ea - 64) as nat) > 0,
        mb * pow2(eb) < pow2((ea - 64) as nat),
        mb != 0 ==> mb * pow2(eb) > 0,
        mb == 0 ==> mb * pow2(eb) == 0,
        ma * pow2(ea) == (ma * 0x1_0000_0000_0000_0000) * pow2((ea - 64) as nat),
        ma * pow2(ea) >= pow2((ea - 64) as nat),
{
    let w = pow2((ea - 64) as nat);
    let y = pow2(eb);
    let x = pow2(ea);
    lemma_pow2_pos((ea - 64) as nat);
    lemma_pow2_pos(eb);
    lemma_pow2_adds(24, eb);
    lemma_pow2_adds(64, (ea - 64) as nat);
    lemma_pow2_strictly_increases(24 + eb, (ea - 64) as nat);
    lemma2_to64();
    assert(mb * y < 0x100_0000 * y) by (nonlinear_arith)
        requires
            mb < 0x100_0000,
            y > 0,
    ;
    assert(mb != 0 ==> mb * y > 0) by (nonlinear_arith)
        requires
            y > 0,
    ;
    assert(mb == 0 ==> mb * y == 0) by (nonlinear_arith);
    assert(ma * (0x1_0000_0000_0000_0000 * w) == (ma * 0x1_0000_0000_0000_0000) * w)
        by (nonlinear_arith);
    assert(ma * x >= w) by (nonlinear_arith)
        requires
            ma >= 1,
            x == 0x1_0000_0000_0000_0000 * w,
    ;
}

impl Single {
    /// `self + other`.
    pub fn plus(self, other: Single) -> (r: Single)
        ensures
            r == sum(self, other),
    {
        let a: u32 = self.low_bits();
        let b: u32 = other.low_bits();
        let an: bool = self.sign_bit();
        let bn: bool = other.sign_bit();
        if a > rounding::INFINITY || b > rounding::INFINITY {
            return Single { bits: NAN };
        }
        if a == rounding::INFINITY {
            if b == rounding::INFINITY && an != bn {
                return Single { bits: NAN };
            }
            return self;
        }
        if b == rounding::INFINITY {
            return other;
        }
        let (ma, ea): (u32, u32) = parts(a);
        let (mb, eb): (u32, u32) = parts(b);
        if eb <= ea {
            sum_of_parts(an, ma, ea, bn, mb, eb)
        } else {
            sum_of_parts(bn, mb, eb, an, ma, ea)
        }
    }

    /// `self - other`.
    pub fn minus(self, other: Single) -> (r: Single)
        ensures
            r == difference(self, other),
    {
        self.plus(other.negated())
    }

    /// `self < other`.
    pub fn is_less(self, other: Single) -> (r: bool)
        ensures
            r == less(self, other),
    {
        let a: u32 = self.low_bits();
        let b: u32 = other.low_bits();
        if a > rounding::INFINITY || b > rounding::INFINITY {
            return false;
        }
        let an: bool = self.sign_bit();
        let bn: bool = other.sign_bit();
        proof {
            rounding::lemma_magnitude_ordered(a as nat, b as nat);
            rounding::lemma_magnitude_ordered(b as nat, a as nat);
            rounding::lemma_magnitude_ordered(0, a as nat);
            rounding::lemma_magnitude_ordered(0, b as nat);
            rounding::lemma_magnitude_small();
        }
        if an {
            if bn {
                b < a
            } else {
                a != 0 || b != 0
            }
        } else {
            !bn && a < b
        }
    }

    /// `self <= other`.
    pub fn is_at_most(self, other: Single) -> (r: bool)
        ensures
            r == at_most(self, other),
    {
        let a: u32 = self.low_bits();
        let b: u32 = other.low_bits();
        if a > rounding::INFINITY || b > rounding::INFINITY {
            return false;
        }
        !other.is_less(self)
    }

    /// `self`, brought between `lo` and `hi`.
    pub fn clamp(self, lo: Single, hi: Single) -> (r: Single)
        ensures
            r == clamped(self, lo, hi),
    {
        if self.is_less(lo) {
            lo
        } else if hi.is_less(self) {
            hi
        } else {
            self
        }
    }
}

/// The limit within which [`Single::floor_wide`] is exact.
const FLOOR_LIMIT: i64 = 0x100_0000_0000;

/// The whole part of `m * 2^e` units and whether anything is left over, for a
/// whole part that cannot exceed 63 bits.
fn whole_part(m: u32, e: u32) -> (r: (u64, bool))
    requires
        m < 0x100_0000,
        e < 149 + 39,
    ensures
        r.0 < 0x8000_0000_0000_0000,
        r.0 * pow2(149) <= m * pow2(e as nat) < (r.0 + 1) * pow2(149),
        r.1 <==> m * pow2(e as nat) != r.0 * pow2(149),
{
    let ghost x = pow2(e as nat);
    let ghost z = pow2(149);
    proof {
        lemma2_to64();
        lemma_pow2_pos(e as nat);
        lemma_pow2_pos(149);
    }
    if e >= 149 {
        let f: u128 = rounding::power(e - 149);
        proof {
            lemma2_to64_rest();
            lemma_pow2_adds((e - 149) as nat, 149);
            if e - 149 < 38 {
                lemma_pow2_strictly_increases((e - 149) as nat, 38);
            }
            assert(m * f < 0x8000_0000_0000_0000) by (nonlinear_arith)
                requires
                    m < 0x100_0000,
                    f <= 0x40_0000_0000,
            ;
            assert(m * (f * z) == (m * f) * z) by (nonlinear_arith);
            assert((m * f + 1) * z == (m * f) * z + z) by (nonlinear_arith);
        }
        ((m as u128 * f) as u64, false)
    } else {
        let s: u32 = 149 - e;
        proof {
            lemma_pow2_adds(s as nat, e as nat);
        }
        if s > 63 {
            proof {
                lemma_pow2_strictly_increases(24, s as nat);
                assert(m * x < pow2(s as nat) * x) by (nonlinear_arith)
                    requires
                        m < pow2(s as nat),
                        x > 0,
                ;
                assert(m != 0 <==> m * x != 0) by (nonlinear_arith)
                    requires
                        x > 0,
                ;
                assert(0 * z == 0);
                assert((0 + 1) * z == z) by (nonlinear_arith);
            }
            (0, m != 0)
        } else {
            let d: u128 = rounding::power(s);
            proof {
                lemma_pow2_pos(s as nat);
            }
            let w: u128 = m as u128 / d;
            let rem: u128 = m as u128 % d;
            proof {
                vstd::arithmetic::div_mod::lemma_fundamental_div_mod(m as int, d as int);
                assert(w <= m) by (nonlinear_arith)
                    requires
                        m == d * w + rem,
                        d >= 1,
                ;
                assert(m * x == w * (d * x) + rem * x) by (nonlinear_arith)
                    requires
                        m == d * w + rem,
                ;
                assert((w + 1) * (d * x) == w * (d * x) + d * x) by (nonlinear_arith);
                assert(rem * x < d * x) by (nonlinear_arith)
                    requires
                        rem < d,
                        x > 0,
                ;
                assert(rem != 0 <==> rem * x != 0) by (nonlinear_arith)
                    requires
                        x > 0,
                ;
                assert(rem * x >= 0);
            }
            (w as u64, rem != 0)
        }
    }
}

/// Beyond 2^39 the bound decides.
proof fn lemma_huge_floor(b: nat, negative: bool)
    requires
        b >= 189 * 0x80_0000,
    ensures
        ({
            let f = signed(negative, rounding::magnitude(b)) / pow2(149) as int;
            if negative {
                f <= -0x100_0000_0000
            } else {
                f >= 0x100_0000_0000
            }
        }),
{
    rounding::lemma_magnitude_ordered((189 * 0x80_0000) as nat, b);
    lemma_pow2_pos(149);
    lemma_pow2_adds(39, 149);
    lemma2_to64_rest();
    let z = pow2(149) as int;
    let v = rounding::magnitude(b) as int;
    rounding::lemma_magnitude_parts(188, 0x80_0000);
    assert(v >= 0x100_0000_0000 * z) by (nonlinear_arith)
        requires
            v >= 0x80_0000 * (0x80_0000_0000 * z),
            z > 0,
    ;
    if negative {
        vstd::arithmetic::div_mod::lemma_div_is_ordered(-v, -0x100_0000_0000 * z, z);
        vstd::arithmetic::div_mod::lemma_fundamental_div_mod_converse(
            -0x100_0000_0000 * z,
            z,
            -0x100_0000_0000,
            0,
        );
    } else {
        vstd::arithmetic::div_mod::lemma_div_is_ordered(0x100_0000_0000 * z, v, z);
        vstd::arithmetic::div_mod::lemma_div_by_multiple(0x100_0000_0000, z);
    }
}

/// The floor of a signed value, from its whole part.
proof fn lemma_floor(negative: bool, v: nat, w: nat, left_over: bool, z: nat)
    requires
        z > 0,
        w * z <= v < (w + 1) * z,
        left_over <==> v != w * z,
    ensures
        signed(negative, v) / z as int == if negative {
            -(w + if left_over { 1int } else { 0 })
        } else {
            w as int
        },
{
    let n = signed(negative, v);
    let q = if negative {
        -(w + if left_over { 1int } else { 0 })
    } else {
        w as int
    };
    let zi = z as int;
    let r = n - q * zi;
    assert((w + 1) * zi == w * zi + zi) by (nonlinear_arith);
    assert((-(w as int)) * zi == -(w * zi)) by (nonlinear_arith);
    assert((-(w + 1)) * zi == -((w + 1) * zi)) by (nonlinear_arith);
    assert(0 <= r < zi);
    vstd::arithmetic::div_mod::lemma_fundamental_div_mod_converse(n, zi, q, r);
}

impl Single {
    /// The largest whole number not above `self`, bounded by the limit.
    fn floor_wide(self) -> (r: i64)
        ensures
            r == floor_between(self, -(FLOOR_LIMIT as int), FLOOR_LIMIT as int),
    {
        let a: u32 = self.low_bits();
        let negative: bool = self.sign_bit();
        if a > rounding::INFINITY {
            return 0;
        }
        let ghost v = rounding::magnitude(a as nat);
        let ghost z = pow2(149);
        proof {
            lemma_pow2_pos(149);
        }
        let huge: bool = a >= 189 * rounding::BINADE;
        if huge {
            proof {
                lemma_huge_floor(a as nat, negative);
            }
            return if negative {
                -FLOOR_LIMIT
            } else {
                FLOOR_LIMIT
            };
        }
        let (m, e): (u32, u32) = parts(a);
        let (w, left_over): (u64, bool) = whole_part(m, e);
        proof {
            lemma_floor(negative, v, w as nat, left_over, z);
        }
        let f: i64 = if negative {
            if left_over {
                -(w as i64) - 1
            } else {
                -(w as i64)
            }
        } else {
            w as i64
        };
        if f < -FLOOR_LIMIT {
            -FLOOR_LIMIT
        } else if f > FLOOR_LIMIT {
            FLOOR_LIMIT
        } else {
            f
        }
    }

    /// The floor of `self` as an `i32`: bounded by its range, zero for what is not
    /// a number.
    pub fn floor_i32(self) -> (r: i32)
        ensures
            r == floor_between(self, i32::MIN as int, i32::MAX as int),
    {
        let f: i64 = self.floor_wide();
        if f < i32::MIN as i64 {
            i32::MIN
        } else if f > i32::MAX as i64 {
            i32::MAX
        } else {
            f as i32
        }
    }

    /// The whole part of `self` as a `u8`: bounded by its range, zero for what is
    /// not a number.
    pub fn floor_u8(self) -> (r: u8)
        ensures
            r == floor_between(self, 0, 255),
    {
        let f: i64 = self.floor_wide();
        if f < 0 {
            0
        } else if f > 255 {
            255
        } else {
            f as u8
        }
    }
}

impl Single {
    pub fn is_not_a_number(self) -> (r: bool)
        ensures
            r == self.is_nan(),
    {
        self.low_bits() > rounding::INFINITY
    }

    pub fn is_infinity(self) -> (r: bool)
        ensures
            r == self.is_infinite(),
    {
        self.low_bits() == rounding::INFINITY
    }

    /// The whole number nearest to the magnitude of `self`, ties to even.
    pub fn nearest_whole_magnitude(self) -> (n: u128)
        requires
            self.is_finite(),
        ensures
            n == nearest_whole(rounding::magnitude(self.pattern())),
    {
        let (m, e): (u32, u32) = parts(self.low_bits());
        let ghost x = pow2(e as nat);
        let ghost z = pow2(149);
        let ghost v = m as nat * x;
        proof {
            lemma2_to64();
            lemma_pow2_pos(e as nat);
            lemma_pow2_pos(149);
        }
        if e >= 149 {
            let f: u128 = rounding::power(e - 149);
            proof {
                lemma_pow2_adds((e - 149) as nat, 149);
                lemma_pow2_pos((e - 149) as nat);
                if e < 253 {
                    lemma_pow2_strictly_increases((e - 149) as nat, 104);
                }
                lemma_pow2_adds(24, 104);
                lemma_pow2_adds(64, 64);
                assert(m * f < 0x100_0000 * pow2(104)) by (nonlinear_arith)
                    requires
                        m < 0x100_0000,
                        0 < f <= pow2(104),
                ;
                assert(v == (m * f) * z) by (nonlinear_arith)
                    requires
                        v == m * x,
                        x == f * z,
                ;
                vstd::arithmetic::div_mod::lemma_fundamental_div_mod_converse(
                    v as int,
                    z as int,
                    (m * f) as int,
                    0,
                );
            }
            return m as u128 * f;
        }
        let s: u32 = 149 - e;
        proof {
            lemma_pow2_adds(s as nat, e as nat);
        }
        if s > 60 {
            proof {
                lemma_pow2_strictly_increases(25, s as nat);
                assert(2 * v < z) by (nonlinear_arith)
                    requires
                        v == m * x,
                        m < 0x100_0000,
                        x > 0,
                        z == pow2(s as nat) * x,
                        pow2(s as nat) > 0x200_0000,
                ;
                vstd::arithmetic::div_mod::lemma_fundamental_div_mod_converse(
                    v as int,
                    z as int,
                    0,
                    v as int,
                );
            }
            return 0;
        }
        let d: u128 = rounding::power(s);
        proof {
            lemma_pow2_pos(s as nat);
            lemma_pow2_strictly_increases(s as nat, 64);
        }
        let w: u128 = m as u128 / d;
        let rem: u128 = m as u128 % d;
        proof {
            vstd::arithmetic::div_mod::lemma_fundamental_div_mod(m as int, d as int);
            assert(w <= m) by (nonlinear_arith)
                requires
                    m == d * w + rem,
                    d >= 1,
            ;
            assert(v == w * z + rem * x) by (nonlinear_arith)
                requires
                    v == m * x,
                    m == d * w + rem,
                    z == d * x,
            ;
            assert(rem * x < z) by (nonlinear_arith)
                requires
                    rem < d,
                    x > 0,
                    z == d * x,
            ;
            vstd::arithmetic::div_mod::lemma_fundamental_div_mod_converse(
                v as int,
                z as int,
                w as int,
                (rem * x) as int,
            );
            assert(2 * rem < d <==> 2 * (rem * x) < z) by (nonlinear_arith)
                requires
                    x > 0,
                    z == d * x,
            ;
            assert(2 * rem == d <==> 2 * (rem * x) == z) by (nonlinear_arith)
                requires
                    x > 0,
                    z == d * x,
            ;
        }
        if 2 * rem < d || (2 * rem == d && w % 2 == 0) {
            w
        } else {
            w + 1
        }
    }
}

} // verus!
