//! The logarithmic part of the compact histogram layout.
//!
//! Above one second a latency is placed by its binary logarithm, seventeen steps
//! to the octave, counted from 1024 milliseconds. A latency has passed `k` whole
//! steps when `17 * log2(lat / 1024) >= k`, that is when `lat^17 >= 2^(170 + k)`,
//! so the number of steps is a floored logarithm of an integer power and needs no
//! fractions.

use vstd::prelude::*;

use vstd::arithmetic::logarithm::log;
use vstd::arithmetic::power::pow;
use vstd::arithmetic::power2::pow2;

verus! {

/// Whole steps of a seventeenth of an octave from 1024 up to `lat`; negative
/// below 1024.
pub open spec fn log_steps(lat: int) -> int {
    log(2, pow(lat, 17)) - 170
}

/// The first latency that has passed `k` steps, for each `k` up to the last one
/// below five seconds, and then the end of the range.
pub const LOG_STARTS: [u64; 40] = [
    1024, 1067, 1112, 1158, 1206, 1256, 1308, 1363,
    1419, 1478, 1540, 1604, 1671, 1740, 1813, 1888,
    1967, 2048, 2134, 2223, 2315, 2411, 2512, 2616,
    2725, 2838, 2956, 3079, 3208, 3341, 3480, 3625,
    3776, 3933, 4096, 4267, 4445, 4629, 4822, 5000,
];

/// `2^170`.
spec fn two_to_170() -> int {
    1496577676626844588240573268701473812127674924007424int
}

/// The seventeenth power, by repeated squaring.
spec fn power17(x: int) -> int {
    let x2 = x * x;
    let x4 = x2 * x2;
    let x8 = x4 * x4;
    x * (x8 * x8)
}

proof fn lemma_power17(x: int)
    ensures
        pow(x, 17) == power17(x),
{
    broadcast use vstd::arithmetic::power::lemma_pow1;

    vstd::arithmetic::power::lemma_pow_adds(x, 1, 1);
    vstd::arithmetic::power::lemma_pow_adds(x, 2, 2);
    vstd::arithmetic::power::lemma_pow_adds(x, 4, 4);
    vstd::arithmetic::power::lemma_pow_adds(x, 8, 8);
    vstd::arithmetic::power::lemma_pow_adds(x, 1, 16);
}

proof fn lemma_two_to(k: nat)
    ensures
        pow(2, 170 + k) == two_to_170() * pow2(k),
{
    assert(pow(2, 10) == 1024) by {
        vstd::arithmetic::power2::lemma2_to64();
        vstd::arithmetic::power2::lemma_pow2(10);
    }
    vstd::arithmetic::power::lemma_pow_multiplies(2, 10, 17);
    lemma_power17(1024);
    assert(power17(1024) == two_to_170()) by (nonlinear_arith);
    vstd::arithmetic::power2::lemma_pow2(k);
    vstd::arithmetic::power::lemma_pow_adds(2, 170, k);
}

proof fn lemma_base_monotone(a: int, b: int, e: nat)
    requires
        0 <= a <= b,
    ensures
        0 <= pow(a, e) <= pow(b, e),
    decreases e,
{
    reveal(pow);
    if e > 0 {
        let (x, y) = (pow(a, (e - 1) as nat), pow(b, (e - 1) as nat));
        lemma_base_monotone(a, b, (e - 1) as nat);
        assert(0 <= a * x <= b * y) by (nonlinear_arith)
            requires
                0 <= a <= b,
                0 <= x <= y,
        ;
    }
}

proof fn lemma_log2(x: int, e: nat)
    requires
        pow(2, e) <= x < pow(2, e + 1),
    ensures
        log(2, x) == e,
    decreases e,
{
    reveal(pow);
    if e == 0 {
        assert(pow(2, 1) == 2 * pow(2, 0));
        vstd::arithmetic::logarithm::lemma_log0(2, x);
    } else {
        assert(pow(2, e + 1) == 2 * pow(2, e));
        assert(pow(2, e) == 2 * pow(2, (e - 1) as nat));
        vstd::arithmetic::power::lemma_pow_positive(2, (e - 1) as nat);
        vstd::arithmetic::logarithm::lemma_log_s(2, x);
        lemma_log2(x / 2, (e - 1) as nat);
    }
}

/// Each entry of the table is the first latency that has passed its number of
/// steps; the end of the range has not passed the next one.
proof fn lemma_table(k: int)
    requires
        0 <= k <= 39,
    ensures
        k < 39 ==> two_to_170() * pow2(k as nat) <= power17(LOG_STARTS[k] as int),
        power17(LOG_STARTS[k] - 1) < two_to_170() * pow2(k as nat),
{
    vstd::arithmetic::power2::lemma2_to64();
    vstd::arithmetic::power2::lemma2_to64_rest();
    if k == 0 {
        assert(power17(1023) < two_to_170() * 0x1 <= power17(1024)) by (nonlinear_arith);
    } else if k == 1 {
        assert(power17(1066) < two_to_170() * 0x2 <= power17(1067)) by (nonlinear_arith);
    } else if k == 2 {
        assert(power17(1111) < two_to_170() * 0x4 <= power17(1112)) by (nonlinear_arith);
    } else if k == 3 {
        assert(power17(1157) < two_to_170() * 0x8 <= power17(1158)) by (nonlinear_arith);
    } else if k == 4 {
        assert(power17(1205) < two_to_170() * 0x10 <= power17(1206)) by (nonlinear_arith);
    } else if k == 5 {
        assert(power17(1255) < two_to_170() * 0x20 <= power17(1256)) by (nonlinear_arith);
    } else if k == 6 {
        assert(power17(1307) < two_to_170() * 0x40 <= power17(1308)) by (nonlinear_arith);
    } else if k == 7 {
        assert(power17(1362) < two_to_170() * 0x80 <= power17(1363)) by (nonlinear_arith);
    } else if k == 8 {
        assert(power17(1418) < two_to_170() * 0x100 <= power17(1419)) by (nonlinear_arith);
    } else if k == 9 {
        assert(power17(1477) < two_to_170() * 0x200 <= power17(1478)) by (nonlinear_arith);
    } else if k == 10 {
        assert(power17(1539) < two_to_170() * 0x400 <= power17(1540)) by (nonlinear_arith);
    } else if k == 11 {
        assert(power17(1603) < two_to_170() * 0x800 <= power17(1604)) by (nonlinear_arith);
    } else if k == 12 {
        assert(power17(1670) < two_to_170() * 0x1000 <= power17(1671)) by (nonlinear_arith);
    } else if k == 13 {
        assert(power17(1739) < two_to_170() * 0x2000 <= power17(1740)) by (nonlinear_arith);
    } else if k == 14 {
        assert(power17(1812) < two_to_170() * 0x4000 <= power17(1813)) by (nonlinear_arith);
    } else if k == 15 {
        assert(power17(1887) < two_to_170() * 0x8000 <= power17(1888)) by (nonlinear_arith);
    } else if k == 16 {
        assert(power17(1966) < two_to_170() * 0x10000 <= power17(1967)) by (nonlinear_arith);
    } else if k == 17 {
        assert(power17(2047) < two_to_170() * 0x20000 <= power17(2048)) by (nonlinear_arith);
    } else if k == 18 {
        assert(power17(2133) < two_to_170() * 0x40000 <= power17(2134)) by (nonlinear_arith);
    } else if k == 19 {
        assert(power17(2222) < two_to_170() * 0x80000 <= power17(2223)) by (nonlinear_arith);
    } else if k == 20 {
        assert(power17(2314) < two_to_170() * 0x100000 <= power17(2315)) by (nonlinear_arith);
    } else if k == 21 {
        assert(power17(2410) < two_to_170() * 0x200000 <= power17(2411)) by (nonlinear_arith);
    } else if k == 22 {
        assert(power17(2511) < two_to_170() * 0x400000 <= power17(2512)) by (nonlinear_arith);
    } else if k == 23 {
        assert(power17(2615) < two_to_170() * 0x800000 <= power17(2616)) by (nonlinear_arith);
    } else if k == 24 {
        assert(power17(2724) < two_to_170() * 0x1000000 <= power17(2725)) by (nonlinear_arith);
    } else if k == 25 {
        assert(power17(2837) < two_to_170() * 0x2000000 <= power17(2838)) by (nonlinear_arith);
    } else if k == 26 {
        assert(power17(2955) < two_to_170() * 0x4000000 <= power17(2956)) by (nonlinear_arith);
    } else if k == 27 {
        assert(power17(3078) < two_to_170() * 0x8000000 <= power17(3079)) by (nonlinear_arith);
    } else if k == 28 {
        assert(power17(3207) < two_to_170() * 0x10000000 <= power17(3208)) by (nonlinear_arith);
    } else if k == 29 {
        assert(power17(3340) < two_to_170() * 0x20000000 <= power17(3341)) by (nonlinear_arith);
    } else if k == 30 {
        assert(power17(3479) < two_to_170() * 0x40000000 <= power17(3480)) by (nonlinear_arith);
    } else if k == 31 {
        assert(power17(3624) < two_to_170() * 0x80000000 <= power17(3625)) by (nonlinear_arith);
    } else if k == 32 {
        assert(power17(3775) < two_to_170() * 0x100000000 <= power17(3776)) by (nonlinear_arith);
    } else if k == 33 {
        assert(power17(3932) < two_to_170() * 0x200000000 <= power17(3933)) by (nonlinear_arith);
    } else if k == 34 {
        assert(power17(4095) < two_to_170() * 0x400000000 <= power17(4096)) by (nonlinear_arith);
    } else if k == 35 {
        assert(power17(4266) < two_to_170() * 0x800000000 <= power17(4267)) by (nonlinear_arith);
    } else if k == 36 {
        assert(power17(4444) < two_to_170() * 0x1000000000 <= power17(4445)) by (nonlinear_arith);
    } else if k == 37 {
        assert(power17(4628) < two_to_170() * 0x2000000000 <= power17(4629)) by (nonlinear_arith);
    } else if k == 38 {
        assert(power17(4821) < two_to_170() * 0x4000000000 <= power17(4822)) by (nonlinear_arith);
    } else if k == 39 {
        assert(power17(4999) < two_to_170() * 0x8000000000) by (nonlinear_arith);
    }
}

/// A latency between two entries of the table has passed as many steps as the
/// first one.
proof fn lemma_log_steps(lat: int, k: int)
    requires
        0 <= k < 39,
        LOG_STARTS[k] <= lat < LOG_STARTS[k + 1],
    ensures
        log_steps(lat) == k,
{
    lemma_table(k);
    lemma_table(k + 1);
    lemma_two_to(k as nat);
    lemma_two_to((k + 1) as nat);
    lemma_power17(LOG_STARTS[k] as int);
    lemma_power17(LOG_STARTS[k + 1] - 1);
    lemma_base_monotone(LOG_STARTS[k] as int, lat, 17);
    lemma_base_monotone(lat, LOG_STARTS[k + 1] - 1, 17);
    lemma_log2(pow(lat, 17), (170 + k) as nat);
}

/// Steps never decrease with the latency.
pub proof fn lemma_log_steps_monotone(a: int, b: int)
    requires
        0 <= a <= b,
    ensures
        log_steps(a) <= log_steps(b),
{
    lemma_base_monotone(a, b, 17);
    vstd::arithmetic::logarithm::lemma_log_is_ordered(2, pow(a, 17), pow(b, 17));
}

/// The steps at both ends of each octave of the range.
pub proof fn lemma_log_steps_ends()
    ensures
        log_steps(1024) == 0,
        log_steps(2047) == 16,
        log_steps(2048) == 17,
        log_steps(4095) == 33,
        log_steps(4096) == 34,
        log_steps(4999) == 38,
{
    lemma_log_steps(1024, 0);
    lemma_log_steps(2047, 16);
    lemma_log_steps(2048, 17);
    lemma_log_steps(4095, 33);
    lemma_log_steps(4096, 34);
    lemma_log_steps(4999, 38);
}

/// Counts the whole steps that a latency below five seconds has passed, none
/// below 1024.
pub fn count_log_steps(lat: u64) -> (k: usize)
    requires
        lat < 5000,
    ensures
        k == if lat < 1024 { 0 } else { log_steps(lat as int) },
        k <= 38,
{
    let mut k: usize = 0;
    while k < 38 && lat >= LOG_STARTS[k + 1]
        invariant
            k <= 38,
            k > 0 ==> lat >= LOG_STARTS[k as int],
        decreases 38 - k,
    {
        k = k + 1;
    }
    proof {
        if lat >= 1024 {
            lemma_log_steps(lat as int, k as int);
        }
    }
    k
}

proof fn lemma_log2_bounds(x: int)
    requires
        x > 0,
    ensures
        log(2, x) >= 0,
        pow(2, log(2, x) as nat) <= x < pow(2, (log(2, x) + 1) as nat),
    decreases x,
{
    reveal(pow);
    if x == 1 {
        vstd::arithmetic::logarithm::lemma_log0(2, x);
        assert(pow(2, 0) == 1);
        assert(pow(2, 1) == 2 * pow(2, 0));
    } else {
        vstd::arithmetic::logarithm::lemma_log_s(2, x);
        lemma_log2_bounds(x / 2);
        let e = log(2, x / 2) as nat;
        assert(pow(2, e + 1) == 2 * pow(2, e));
        assert(pow(2, e + 2) == 2 * pow(2, e + 1));
    }
}

/// A latency from 1024 on has passed `k` steps if and only if its seventeenth power lies
/// between `2^(170 + k)` and twice that: seventeen steps double it.
pub proof fn law_steps_are_seventeenths_of_an_octave(lat: int, k: int)
    requires
        lat >= 1024,
        k >= 0,
    ensures
        log_steps(lat) == k <==> pow(2, (170 + k) as nat) <= pow(lat, 17) < pow(
            2,
            (171 + k) as nat,
        ),
{
    let x = pow(lat, 17);
    vstd::arithmetic::power::lemma_pow_positive(lat, 17);
    lemma_log2_bounds(x);
    if pow(2, (170 + k) as nat) <= x < pow(2, (171 + k) as nat) {
        lemma_log2(x, (170 + k) as nat);
    }
}

} // verus!
