//! System telemetry: percentages of memory and processor use.
use vstd::arithmetic::power2::*;
use vstd::prelude::*;

use crate::rounding;
use crate::single;
use crate::single::Single;
use crate::single_laws;

verus! {

/// The share of memory in use, in percent; zero of no memory.
pub open spec fn ram_share(total: u64, used: u64) -> Single {
    if total == 0 {
        Single { bits: 0 }
    } else {
        single::product(
            single::quotient(single::from_whole(used as nat), single::from_whole(total as nat)),
            single::from_whole(100),
        )
    }
}

/// The sum of the first `n` numbers, added one after the other.
pub open spec fn running_sum(usages: Seq<Single>, n: nat) -> Single
    decreases n,
{
    if n == 0 {
        Single { bits: single::SIGN }
    } else {
        single::sum(running_sum(usages, (n - 1) as nat), usages[n - 1])
    }
}

/// The average use of the processors; zero without any.
pub open spec fn cpu_average(usages: Seq<Single>) -> Single {
    if usages.len() == 0 {
        Single { bits: 0 }
    } else {
        single::quotient(running_sum(usages, usages.len()), single::from_whole(usages.len()))
    }
}

/// The last reading of the system.
#[derive(Clone, Copy, Debug)]
pub struct SystemStats {
    /// The memory in use, in percent.
    pub ram_percent: Single,
    /// The average use of the processors, in percent.
    pub cpu_percent: Single,
    /// The temperature of the processor in degrees Celsius, if the system tells it.
    pub cpu_temperature: Option<Single>,
}

impl SystemStats {
    /// The statistics of a reading: the bytes of memory in all and in use, the use
    /// of each logical core in percent, and the temperature of the processor.
    pub fn new(
        total: u64,
        used: u64,
        usages: &Vec<Single>,
        temperature: Option<Single>,
    ) -> (stats: SystemStats)
        ensures
            stats.ram_percent == ram_share(total, used),
            stats.cpu_percent == cpu_average(usages@),
            stats.cpu_temperature == temperature,
    {
        SystemStats {
            ram_percent: Self::calc_ram(total, used),
            cpu_percent: Self::calc_cpu(usages),
            cpu_temperature: temperature,
        }
    }

    /// Replaces the statistics by those of a later reading.
    pub fn refresh(
        &mut self,
        total: u64,
        used: u64,
        usages: &Vec<Single>,
        temperature: Option<Single>,
    )
        ensures
            final(self).ram_percent == ram_share(total, used),
            final(self).cpu_percent == cpu_average(usages@),
            final(self).cpu_temperature == temperature,
    {
        self.ram_percent = Self::calc_ram(total, used);
        self.cpu_percent = Self::calc_cpu(usages);
        self.cpu_temperature = temperature;
    }

    fn calc_ram(total: u64, used: u64) -> (percent: Single)
        ensures
            percent == ram_share(total, used),
    {
        if total == 0 {
            return Single { bits: 0 };
        }
        Single::from_u64(used).over(Single::from_u64(total)).times(Single::from_u64(100))
    }

    fn calc_cpu(usages: &Vec<Single>) -> (percent: Single)
        ensures
            percent == cpu_average(usages@),
    {
        if usages.len() == 0 {
            return Single { bits: 0 };
        }
        let mut total: Single = Single { bits: single::SIGN };
        let mut i: usize = 0;
        while i < usages.len()
            invariant
                i <= usages@.len(),
                total == running_sum(usages@, i as nat),
            decreases usages@.len() - i,
        {
            total = total.plus(usages[i]);
            i = i + 1;
        }
        total.over(Single::from_u64(usages.len() as u64))
    }
}

/// A whole number of a machine word is an ordinary number when it is rounded.
proof fn lemma_word_is_finite(n: u64)
    ensures
        single::from_whole(n as nat).is_finite(),
        !single::from_whole(n as nat).negative(),
        n > 0 ==> single::from_whole(n as nat).value() >= pow2(149),
{
    let z = pow2(149);
    single_laws::law_words_are_finite(n as nat);
    single_laws::law_small_whole_is_exact(1);
    assert(1 * z == z);
    if n > 0 {
        single_laws::law_whole_numbers_keep_order(1, n as nat);
    }
}

/// Memory in use that is no more than there is gives a share from 0 to 100
/// percent, and zero of no memory.
pub proof fn law_ram_share_is_a_percentage(total: u64, used: u64)
    requires
        used <= total,
    ensures
        single::at_most((Single { bits: 0 }), ram_share(total, used)),
        single::at_most(ram_share(total, used), single::from_whole(100)),
        total == 0 ==> ram_share(total, used) == (Single { bits: 0 }),
{
    let z = pow2(149);
    lemma_pow2_pos(149);
    rounding::lemma_magnitude_small();
    single_laws::law_small_whole_is_exact(100);
    single_laws::law_small_whole_is_exact(1);
    assert(1 * z == z);
    if total > 0 {
        let one = single::from_whole(1);
        let hundred = single::from_whole(100);
        let zero = Single { bits: 0 };
        lemma_word_is_finite(used);
        lemma_word_is_finite(total);
        single_laws::law_whole_numbers_keep_order(used as nat, total as nat);
        let a = single::from_whole(used as nat);
        let b = single::from_whole(total as nat);
        let (av, bv) = (a.value(), b.value());
        assert(av * z <= bv * z) by (nonlinear_arith)
            requires
                av <= bv,
                z > 0,
        ;
        single_laws::law_quotient_keeps_sides(a, b, one);
        let q = single::quotient(a, b);
        let v = q.value();
        rounding::lemma_magnitude_ordered(q.pattern(), one.pattern());
        rounding::lemma_magnitude_ordered(one.pattern(), q.pattern());
        assert(q.is_finite());
        assert(v * (100 * z) <= z * (100 * z)) by (nonlinear_arith)
            requires
                v <= z,
                z > 0,
        ;
        assert(v * (100 * z) >= z * 0) by (nonlinear_arith)
            requires
                v >= 0,
                z > 0,
        ;
        single_laws::law_product_keeps_sides(q, hundred, hundred);
        single_laws::law_product_keeps_sides(q, hundred, zero);
    }
}

/// All memory in use is 100 percent, exactly.
pub proof fn law_all_ram_in_use_is_all(total: u64)
    requires
        total > 0,
    ensures
        ram_share(total, total) == single::from_whole(100),
{
    let z = pow2(149);
    lemma_pow2_pos(149);
    lemma_word_is_finite(total);
    single_laws::law_small_whole_is_exact(1);
    single_laws::law_small_whole_is_exact(100);
    assert(1 * z == z);
    rounding::lemma_magnitude_small();
    let a = single::from_whole(total as nat);
    let one = single::from_whole(1);
    let hundred = single::from_whole(100);
    let v = rounding::magnitude(a.pattern());
    rounding::lemma_rounding_exact(v * z, v, one.pattern());
    rounding::lemma_nearest_is(v * z, v, one.pattern());
    assert(single::quotient(a, a) == one);
    rounding::lemma_rounding_exact(z * (100 * z), z, hundred.pattern());
    rounding::lemma_nearest_is(z * (100 * z), z, hundred.pattern());
}

/// Of the same memory, more in use gives no smaller a share.
pub proof fn law_ram_share_grows_with_use(total: u64, used: u64, more: u64)
    requires
        used <= more,
    ensures
        single::at_most(ram_share(total, used), ram_share(total, more)),
{
    rounding::lemma_magnitude_small();
    if total > 0 {
        lemma_word_is_finite(total);
        lemma_word_is_finite(used);
        lemma_word_is_finite(more);
        single_laws::law_whole_numbers_keep_order(used as nat, more as nat);
        single_laws::law_small_whole_is_exact(100);
        lemma_pow2_pos(149);
        let (u, m, d) = (
            single::from_whole(used as nat),
            single::from_whole(more as nat),
            single::from_whole(total as nat),
        );
        let hundred = single::from_whole(100);
        lemma_quotient_of_words(used, total);
        lemma_quotient_of_words(more, total);
        single_laws::law_quotient_keeps_order(u, d, m);
        let (qu, qm) = (single::quotient(u, d), single::quotient(m, d));
        single_laws::law_product_keeps_order(qu, hundred, qm, hundred);
        single_laws::law_product_keeps_sides(qu, hundred, hundred);
        single_laws::law_product_keeps_sides(qm, hundred, hundred);
    }
}

/// The share is the ratio of the memory in use to the memory there is, in percent, and
/// off by at most a 2^21st part of it.
#[verifier::spinoff_prover]
pub proof fn law_ram_share_is_the_ratio(total: u64, used: u64)
    requires
        total > 0,
    ensures
        ram_share(total, used).is_finite(),
        0x20_0000 * single_laws::apart(
            total * ram_share(total, used).value(),
            100 * (used * pow2(149)),
        ) <= 100 * (used * pow2(149)),
{
    let z = pow2(149) as int;
    lemma_pow2_pos(149);
    lemma_pow2_adds(23, 126);
    lemma_pow2_adds(64, 149);
    lemma_pow2_adds(64, 213);
    lemma2_to64();
    rounding::lemma_magnitude_small();
    single_laws::law_small_whole_is_exact(100);
    single_laws::law_ratios_are_near(used as nat, total as nat);
    let q = single::quotient(single::from_whole(used as nat), single::from_whole(total as nat));
    let hundred = single::from_whole(100);
    single_laws::law_product_value(q, hundred);
    let s = ram_share(total, used);
    let (n, y) = (total as int, used * z);
    let (qv, sv) = (q.value(), s.value());
    let x = n * qv;
    assert(0 <= y <= pow2(213)) by (nonlinear_arith)
        requires
            y == used * z,
            used <= 0x1_0000_0000_0000_0000,
            pow2(213) == 0x1_0000_0000_0000_0000 * z,
    ;
    assert(0 <= qv <= x) by (nonlinear_arith)
        requires
            x == n * qv,
            n >= 1,
            qv >= 0,
    ;
    let p = qv * (100 * z);
    assert(0 <= p <= z * pow2(277)) by (nonlinear_arith)
        requires
            p == qv * (100 * z),
            0 <= qv <= 2 * pow2(213),
            pow2(277) == 0x1_0000_0000_0000_0000 * pow2(213),
            z > 0,
    ;
    single_laws::law_rounding_error(p, z as nat);
    if used == 0 {
        assert(y == 0 && p == 0 && qv == 0) by (nonlinear_arith)
            requires
                y == used * z,
                used == 0,
                0 <= qv <= x,
                x <= y,
                p == qv * (100 * z),
        ;
        assert(sv == 0) by (nonlinear_arith)
            requires
                2 * single_laws::apart(z * sv, 0) <= z,
                single_laws::apart(z * sv, 0) >= z * sv,
                single_laws::apart(z * sv, 0) >= -(z * sv),
                z > 0,
        ;
        assert(n * 0 == 0);
    } else {
        assert(y >= z) by (nonlinear_arith)
            requires
                y == used * z,
                used >= 1,
                z > 0,
        ;
        // An ordinary share: it is not that small.
        lemma_pow2_adds(64, 25);
        lemma_pow2_strictly_increases(89, 149);
        assert(qv >= 0x80_0000) by (nonlinear_arith)
            requires
                x == n * qv,
                0 < n <= 0x1_0000_0000_0000_0000,
                2 * x >= z,
                z >= 4 * (0x1_0000_0000_0000_0000 * 0x80_0000),
        ;
        assert(p >= z * 0x80_0000) by (nonlinear_arith)
            requires
                p == qv * (100 * z),
                100 * qv >= 0x80_0000,
                z > 0,
        ;
        assert(0x100_0000 * (sv - 100 * qv) <= 100 * qv && 0x100_0000 * (100 * qv - sv) <= 100 * qv)
            by (nonlinear_arith)
            requires
                0x100_0000 * (z * sv - p) <= p,
                0x100_0000 * (p - z * sv) <= p,
                p == qv * (100 * z),
                z > 0,
        ;
        let r = n * sv;
        assert(0x100_0000 * (r - 100 * x) <= 100 * x && 0x100_0000 * (100 * x - r) <= 100 * x)
            by (nonlinear_arith)
            requires
                0x100_0000 * (sv - 100 * qv) <= 100 * qv,
                0x100_0000 * (100 * qv - sv) <= 100 * qv,
                r == n * sv,
                x == n * qv,
                n >= 1,
        ;
    }
    // So it is finite.
    let top = single_laws::law_short_multiple_is_a_number(1, 221);
    lemma_pow2_adds(8, 213);
    assert(sv <= n * sv) by (nonlinear_arith)
        requires
            n >= 1,
            sv >= 0,
    ;
    rounding::lemma_magnitude_ordered(s.pattern(), top.pattern());
    rounding::lemma_magnitude_ordered(top.pattern(), s.pattern());
}

/// A quotient of machine words is an ordinary number.
proof fn lemma_quotient_of_words(n: u64, d: u64)
    requires
        d > 0,
    ensures
        ({
            let q = single::quotient(single::from_whole(n as nat), single::from_whole(d as nat));
            q.is_finite() && !q.negative()
        }),
{
    let z = pow2(149);
    lemma_pow2_pos(149);
    lemma_word_is_finite(n);
    lemma_word_is_finite(d);
    single_laws::law_whole_numbers_keep_order(n as nat, u64::MAX as nat);
    lemma_word_is_finite(u64::MAX);
    let (a, b, top) = (
        single::from_whole(n as nat),
        single::from_whole(d as nat),
        single::from_whole(u64::MAX as nat),
    );
    let (av, bv, tv) = (a.value(), b.value(), top.value());
    assert(av * z <= bv * tv) by (nonlinear_arith)
        requires
            0 <= av <= tv,
            bv >= z,
            z > 0,
    ;
    single_laws::law_quotient_keeps_sides(a, b, top);
    let q = single::quotient(a, b);
    rounding::lemma_magnitude_ordered(q.pattern(), top.pattern());
    rounding::lemma_magnitude_ordered(top.pattern(), q.pattern());
}

/// The most cores whose percentages are sure to average to a percentage.
pub const CORES_MAX: u32 = 671_088;

/// A running sum of percentages stays within as many times 100.
proof fn lemma_running_sum_bounds(usages: Seq<Single>, n: nat)
    requires
        n <= usages.len() <= CORES_MAX,
        forall|i: int|
            0 <= i < usages.len() ==> single::at_most((Single { bits: 0 }), #[trigger] usages[i])
                && single::at_most(usages[i], single::from_whole(100)),
    ensures
        running_sum(usages, n).is_finite(),
        0 <= running_sum(usages, n).value() <= (100 * n) * pow2(149),
    decreases n,
{
    let z = pow2(149);
    lemma_pow2_pos(149);
    rounding::lemma_magnitude_small();
    if n == 0 {
        assert((100 * n) * z == 0) by (nonlinear_arith)
            requires
                n == 0,
        ;
    } else {
        let k = (n - 1) as nat;
        lemma_running_sum_bounds(usages, k);
        single_laws::law_small_whole_is_exact(100);
        let u = usages[n - 1];
        let zero = Single { bits: 0 };
        let b = single_laws::law_short_mantissa_is_a_number(25 * n, 151);
        single_laws::lemma_finite_below(25 * n, 151, b);
        let bound = single::with_sign(false, b);
        lemma_pow2_adds(2, 149);
        lemma2_to64();
        assert((25 * n) * (4 * z) == (100 * n) * z) by (nonlinear_arith);
        assert(bound.pattern() == b && !bound.negative());
        let s = running_sum(usages, k);
        rounding::lemma_magnitude_ordered(u.pattern(), single::from_whole(100).pattern());
        rounding::lemma_magnitude_ordered(single::from_whole(100).pattern(), u.pattern());
        assert(u.is_finite()) by {
            if u.is_infinite() {
                assert(u.negative());
                rounding::lemma_magnitude_ordered(0, u.pattern());
            }
        }
        assert((100 * n) * z == (100 * k) * z + 100 * z) by (nonlinear_arith)
            requires
                n == k + 1,
        ;
        single_laws::law_sum_keeps_sides(s, u, bound);
        single_laws::law_sum_keeps_sides(s, u, zero);
        let r = running_sum(usages, n);
        rounding::lemma_magnitude_ordered(r.pattern(), bound.pattern());
        rounding::lemma_magnitude_ordered(bound.pattern(), r.pattern());
        if r.is_infinite() {
            assert(r.negative());
            rounding::lemma_magnitude_ordered(0, r.pattern());
        }
    }
}

/// The sum of the first `n` numbers, in units of 2^-149, without any rounding.
pub open spec fn exact_sum(usages: Seq<Single>, n: nat) -> int
    decreases n,
{
    if n == 0 {
        0
    } else {
        exact_sum(usages, (n - 1) as nat) + usages[n - 1].value()
    }
}

/// Sums of numbers that are not negative grow.
proof fn lemma_exact_sum_grows(usages: Seq<Single>, k: nat, n: nat)
    requires
        k <= n <= usages.len(),
        forall|i: int| 0 <= i < usages.len() ==> (#[trigger] usages[i]).value() >= 0,
    ensures
        0 <= exact_sum(usages, k) <= exact_sum(usages, n),
    decreases n,
{
    if n > 0 {
        assert(usages[n - 1].value() >= 0);
        if k < n {
            lemma_exact_sum_grows(usages, k, (n - 1) as nat);
        } else {
            lemma_exact_sum_grows(usages, (n - 1) as nat, (n - 1) as nat);
        }
    }
}

/// A running sum is off by at most a 2^23rd part for each number that was added.
#[verifier::spinoff_prover]
proof fn lemma_running_sum_is_near(usages: Seq<Single>, n: nat)
    requires
        n <= usages.len() <= 0x80_0000,
        forall|i: int|
            0 <= i < usages.len() ==> (#[trigger] usages[i]).is_finite() && usages[i].value() >= 0,
        exact_sum(usages, usages.len()) <= pow2(270),
    ensures
        running_sum(usages, n).is_finite(),
        running_sum(usages, n).value() >= 0,
        0x80_0000 * single_laws::apart(running_sum(usages, n).value(), exact_sum(usages, n)) <= n
            * exact_sum(usages, n),
    decreases n,
{
    rounding::lemma_magnitude_small();
    if n == 0 {
        assert(n * exact_sum(usages, 0) == 0);
    } else {
        let k = (n - 1) as nat;
        lemma_running_sum_is_near(usages, k);
        lemma_exact_sum_grows(usages, k, n);
        lemma_exact_sum_grows(usages, n, usages.len());
        let (s, u) = (running_sum(usages, k), usages[n - 1]);
        let (c, d) = (exact_sum(usages, k), exact_sum(usages, n));
        let e = single_laws::apart(s.value(), c);
        single_laws::law_sum_value(s, u);
        let m = s.value() + u.value();
        assert(k * c <= k * d && n * d == k * d + d && k * d <= 0x80_0000 * d) by (nonlinear_arith)
            requires
                0 <= c <= d,
                n == k + 1,
                0 <= k < 0x80_0000,
        ;
        assert(m <= 2 * d);
        lemma_pow2_unfold(271);
        lemma_pow2_unfold(272);
        lemma_pow2_strictly_increases(272, 277);
        lemma_pow2_pos(270);
        single_laws::law_rounding_error(m, 1);
        let r = running_sum(usages, n);
        let top = single_laws::law_short_multiple_is_a_number(0x80_0000, 249);
        lemma_pow2_adds(23, 249);
        lemma2_to64();
        single_laws::law_sum_keeps_sides(s, u, top);
        single_laws::law_sum_keeps_sides(s, u, (Single { bits: 0 }));
        rounding::lemma_magnitude_ordered(r.pattern(), top.pattern());
        rounding::lemma_magnitude_ordered(top.pattern(), r.pattern());
        rounding::lemma_magnitude_ordered(0, r.pattern());
    }
}

/// The average of uses that are not negative is their mean: times the number of cores
/// it is their sum, off by at most a 2^23rd part of it for each core and one more, and
/// by half a unit for each core.
#[verifier::spinoff_prover]
pub proof fn law_cpu_average_is_the_mean(usages: Seq<Single>)
    requires
        0 < usages.len() <= 0x80_0000,
        forall|i: int|
            0 <= i < usages.len() ==> (#[trigger] usages[i]).is_finite() && usages[i].value() >= 0,
        exact_sum(usages, usages.len()) <= pow2(270),
    ensures
        ({
            let n = usages.len();
            0x80_0000 * single_laws::apart(
                n * cpu_average(usages).value(),
                exact_sum(usages, n),
            ) <= (n + 1) * exact_sum(usages, n) + 0x80_0000 * n
        }),
{
    let z = pow2(149) as int;
    let n = usages.len();
    lemma_pow2_pos(149);
    rounding::lemma_magnitude_small();
    lemma_running_sum_is_near(usages, n);
    lemma_exact_sum_grows(usages, n, n);
    single_laws::law_small_whole_is_exact(n);
    let (s, d) = (running_sum(usages, n), single::from_whole(n));
    let total = exact_sum(usages, n);
    let w = n * z;
    assert(w >= z) by (nonlinear_arith)
        requires
            w == n * z,
            n >= 1,
            z > 0,
    ;
    single_laws::law_quotient_value(s, d);
    let a = cpu_average(usages).value();
    let sv = s.value();
    let p = sv * z;
    assert(n * total <= 0x80_0000 * total && (n + 1) * total == n * total + total)
        by (nonlinear_arith)
        requires
            n <= 0x80_0000,
            total >= 0,
    ;
    assert(sv <= 2 * total);
    lemma_pow2_unfold(271);
    lemma_pow2_strictly_increases(271, 277);
    lemma_pow2_pos(270);
    assert(0 <= p <= w * pow2(277)) by (nonlinear_arith)
        requires
            p == sv * z,
            0 <= sv <= pow2(277),
            w >= z,
            z > 0,
    ;
    single_laws::law_rounding_error(p, w as nat);
    let x = n * a;
    assert(w * a == x * z) by (nonlinear_arith)
        requires
            w == n * z,
            x == n * a,
    ;
    let e = single_laws::apart(x, sv);
    assert(single_laws::apart(x * z, p) == e * z) by (nonlinear_arith)
        requires
            single_laws::apart(x * z, p) == if x * z <= p { p - x * z } else { x * z - p },
            e == if x <= sv { sv - x } else { x - sv },
            p == sv * z,
            z > 0,
    ;
    assert(0x100_0000 * e <= sv || 2 * e <= n) by (nonlinear_arith)
        requires
            0x100_0000 * (e * z) <= p || 2 * (e * z) <= w,
            p == sv * z,
            w == n * z,
            z > 0,
    ;
}

/// The average of one core is its use, whatever it is.
pub proof fn law_one_core_is_its_own_average(usage: Single)
    ensures
        usage.is_nan() ==> cpu_average(seq![usage]).is_nan(),
        !usage.is_nan() ==> cpu_average(seq![usage]).value() == usage.value(),
        usage.is_infinite() ==> cpu_average(seq![usage]) == usage,
{
    let z = pow2(149);
    let usages = seq![usage];
    let start = Single { bits: single::SIGN };
    let d = single::from_whole(1);
    lemma_pow2_pos(149);
    rounding::lemma_magnitude_small();
    single_laws::law_small_whole_is_exact(1);
    assert(1 * z == z);
    reveal_with_fuel(running_sum, 2);
    let s = running_sum(usages, 1);
    assert(s == single::sum(start, usage));
    single_laws::law_results_that_are_not_numbers(start, usage);
    single_laws::law_results_that_are_not_numbers(s, d);
    if usage.is_finite() {
        single_laws::law_sum_value(start, usage);
        single_laws::law_numbers_round_to_themselves(usage);
        rounding::lemma_magnitude_ordered(s.pattern(), usage.pattern());
        assert(s.pattern() == usage.pattern());
        single_laws::law_quotient_value(s, d);
        let v = usage.value();
        single_laws::law_rounding_is_nearest(v * z, z, usage);
        let r = single::rounded(v * z, z).value();
        assert(z * v == v * z) by (nonlinear_arith);
        assert(r == v) by (nonlinear_arith)
            requires
                z * r == v * z,
                z > 0,
        ;
    }
}

/// A core whose use is not a number leaves the average without one.
pub proof fn law_averages_do_not_hide_what_is_not_a_number(usages: Seq<Single>, i: int)
    requires
        0 <= i < usages.len(),
        usages[i].is_nan(),
    ensures
        cpu_average(usages).is_nan(),
{
    lemma_sum_stays_no_number(usages, usages.len(), i);
}

proof fn lemma_sum_stays_no_number(usages: Seq<Single>, n: nat, i: int)
    requires
        0 <= i < n <= usages.len(),
        usages[i].is_nan(),
    ensures
        running_sum(usages, n).is_nan(),
    decreases n,
{
    if i < n - 1 {
        lemma_sum_stays_no_number(usages, (n - 1) as nat, i);
    }
}

/// Percentages of up to [`CORES_MAX`] cores average to a percentage, and none to zero.
pub proof fn law_cpu_average_is_a_percentage(usages: Seq<Single>)
    requires
        usages.len() <= CORES_MAX,
        forall|i: int|
            0 <= i < usages.len() ==> single::at_most((Single { bits: 0 }), #[trigger] usages[i])
                && single::at_most(usages[i], single::from_whole(100)),
    ensures
        single::at_most((Single { bits: 0 }), cpu_average(usages)),
        single::at_most(cpu_average(usages), single::from_whole(100)),
        usages.len() == 0 ==> cpu_average(usages) == (Single { bits: 0 }),
{
    let z = pow2(149);
    lemma_pow2_pos(149);
    rounding::lemma_magnitude_small();
    single_laws::law_small_whole_is_exact(100);
    let n = usages.len();
    if n > 0 {
        lemma_running_sum_bounds(usages, n);
        single_laws::law_small_whole_is_exact(n);
        let s = running_sum(usages, n);
        let d = single::from_whole(n);
        let zero = Single { bits: 0 };
        let hundred = single::from_whole(100);
        let v = s.value();
        assert(n * z > 0) by (nonlinear_arith)
            requires
                n > 0,
                z > 0,
        ;
        if s.negative() {
            rounding::lemma_magnitude_ordered(0, s.pattern());
            assert(s.pattern() == 0);
            let q = (n * z) as nat;
            assert(0 * z == 0);
            assert(q * 0 == 0);
            rounding::lemma_rounding_exact(0, q, 0);
            rounding::lemma_nearest_is(0, q, 0);
        } else {
            assert(v * z <= (n * z) * (100 * z)) by (nonlinear_arith)
                requires
                    v <= (100 * n) * z,
                    z > 0,
            {
                assert(v * z <= ((100 * n) * z) * z);
                assert(((100 * n) * z) * z == (n * z) * (100 * z));
            }
            assert(v * z >= (n * z) * 0) by (nonlinear_arith)
                requires
                    v >= 0,
                    z > 0,
            ;
            single_laws::law_quotient_keeps_sides(s, d, hundred);
            single_laws::law_quotient_keeps_sides(s, d, zero);
        }
    }
}

} // verus!
