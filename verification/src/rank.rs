//! The rank of a percentile, computed as double-precision arithmetic computes
//! it.
//!
//! The rank of percentile `p` among `total` observations is
//! `total * (p / 100) + 1`, cut to an integer, where the conversion of `total`,
//! the quotient and the product each are rounded to the nearest number with a
//! mantissa of 53 bits, ties to even. The functions below do that arithmetic on
//! integers, so the rank is the same on every machine and can be reasoned about.

use vstd::prelude::*;

use vstd::arithmetic::power2::pow2;

verus! {

/// Two to the fifty-third: the first number whose binary form needs more than
/// 53 bits.
pub const MANTISSA_LIMIT: u128 = 0x20_0000_0000_0000;

/// `n / d` rounded to the nearest integer, ties to the even one.
pub open spec fn div_half_even(n: nat, d: nat) -> nat {
    let q = n / d;
    let r = n % d;
    if 2 * r < d || (2 * r == d && q % 2 == 0) {
        q
    } else {
        q + 1
    }
}

/// The smallest power of two whose multiples tell numbers of the size of `n`
/// apart with a mantissa of 53 bits.
pub open spec fn ulp(n: nat) -> nat
    decreases n,
{
    if n < MANTISSA_LIMIT {
        1
    } else {
        2 * ulp(n / 2)
    }
}

/// `n` rounded to a mantissa of 53 bits.
pub open spec fn round53(n: nat) -> nat {
    div_half_even(n, ulp(n)) * ulp(n)
}

/// Binary places of the quotient `p / 100` when it is written with a mantissa of
/// 53 bits.
pub open spec fn fraction_places(p: nat) -> nat {
    if p >= 50 {
        53
    } else if p >= 25 {
        54
    } else if p >= 13 {
        55
    } else if p >= 7 {
        56
    } else if p >= 4 {
        57
    } else if p >= 2 {
        58
    } else {
        59
    }
}

/// The mantissa of `p / 100`: the rounded quotient is this over
/// `2^fraction_places(p)`.
pub open spec fn fraction_mantissa(p: nat) -> nat {
    div_half_even(p * pow2(fraction_places(p)), 100)
}

/// The rank of percentile `p` among `total` observations, counted from one.
pub open spec fn percentile_rank(total: nat, p: nat) -> nat {
    round53(round53(total) * fraction_mantissa(p)) / pow2(fraction_places(p)) + 1
}

fn exec_div_half_even(q: u128, r: u128, d: u128) -> (m: u128)
    requires
        r < d,
        d <= 0x40_0000_0000_0000_0000_0000_0000_0000,
        q < u128::MAX,
    ensures
        forall|n: nat| #![trigger div_half_even(n, d as nat)]
            n == q * d + r ==> m == div_half_even(n, d as nat),
{
    proof {
        assert forall|n: nat| #![trigger div_half_even(n, d as nat)] n == q * d + r implies n / (d as nat) == q && n % (d as nat) == r by {
            vstd::arithmetic::div_mod::lemma_fundamental_div_mod_converse(n as int, d as int, q as int, r as int);
        }
    }
    if 2 * r < d || (2 * r == d && q % 2 == 0) {
        q
    } else {
        q + 1
    }
}

/// Bounds of the unit in the last place and of the mantissa it leaves.
proof fn lemma_ulp(n: nat)
    ensures
        ulp(n) >= 1,
        n / ulp(n) < MANTISSA_LIMIT,
        n >= MANTISSA_LIMIT ==> 2 * (n / ulp(n)) >= MANTISSA_LIMIT,
    decreases n,
{
    if n >= MANTISSA_LIMIT {
        lemma_ulp(n / 2);
        vstd::arithmetic::div_mod::lemma_div_denominator(n as int, 2, ulp(n / 2) as int);
    }
}

/// Rounds to a mantissa of 53 bits.
fn exec_round53(n: u128) -> (m: u128)
    requires
        n <= 0x40_0000_0000_0000_0000_0000_0000_0000,
    ensures
        m == round53(n as nat),
        m <= 2 * n,
{
    let mut mantissa: u128 = n;
    let mut unit: u128 = 1;
    while mantissa >= MANTISSA_LIMIT
        invariant
            unit >= 1,
            unit == 1 || unit <= n,
            mantissa == n as nat / unit as nat,
            mantissa * unit <= n,
            ulp(n as nat) == unit * ulp(mantissa as nat),
            n <= 0x40_0000_0000_0000_0000_0000_0000_0000,
        decreases mantissa,
    {
        proof {
            vstd::arithmetic::div_mod::lemma_div_denominator(n as int, unit as int, 2);
            assert((mantissa / 2) * (unit * 2) <= mantissa * unit) by (nonlinear_arith);
            assert(unit * (2 * ulp((mantissa / 2) as nat)) == (unit * 2) * ulp((mantissa / 2) as nat)) by (nonlinear_arith);
            assert((mantissa / 2) * (unit * 2) >= unit * 2) by (nonlinear_arith)
                requires
                    mantissa >= 2,
            ;
            assert(unit * MANTISSA_LIMIT <= mantissa * unit) by (nonlinear_arith)
                requires
                    mantissa >= MANTISSA_LIMIT,
            ;
        }
        mantissa = mantissa / 2;
        unit = unit * 2;
    }
    proof {
        vstd::arithmetic::div_mod::lemma_fundamental_div_mod(n as int, unit as int);
        assert(unit * 1 == unit);
        assert(mantissa * unit == unit * mantissa) by (nonlinear_arith);
    }
    let rest: u128 = n - mantissa * unit;
    let rounded: u128 = exec_div_half_even(mantissa, rest, unit);
    proof {
        assert(rounded == div_half_even(n as nat, unit as nat));
        assert(rounded * unit <= mantissa * unit + unit) by (nonlinear_arith)
            requires
                rounded <= mantissa + 1,
        ;
    }
    rounded * unit
}

/// Rounding moves a number by at most one part in `2^53`.
proof fn lemma_round53_near(n: nat)
    ensures
        MANTISSA_LIMIT * round53(n) <= n * (MANTISSA_LIMIT + 1),
        n * (MANTISSA_LIMIT - 1) <= MANTISSA_LIMIT * round53(n),
{
    let u = ulp(n);
    let q = n / u;
    let r = n % u;
    let d = div_half_even(n, u);
    lemma_ulp(n);
    vstd::arithmetic::div_mod::lemma_fundamental_div_mod(n as int, u as int);
    assert(n == q * u + r) by (nonlinear_arith)
        requires
            n == u * q + r,
    ;
    if n < MANTISSA_LIMIT {
        assert(u == 1);
        assert(n % 1 == 0 && n / 1 == n);
        assert(round53(n) == n) by (nonlinear_arith)
            requires
                round53(n) == d * u,
                u == 1,
                d == n,
        ;
    } else {
        assert(MANTISSA_LIMIT * u <= 2 * (q * u)) by (nonlinear_arith)
            requires
                MANTISSA_LIMIT <= 2 * q,
        ;
        if d == q {
            assert(round53(n) == q * u);
        } else {
            assert(round53(n) == q * u + u) by (nonlinear_arith)
                requires
                    round53(n) == d * u,
                    d == q + 1,
            ;
        }
    }
}

/// Every percentile up to the ninety-ninth ranks at one of the observations.
pub proof fn law_rank_in_range(total: nat, p: nat)
    requires
        p <= 99,
    ensures
        percentile_rank(total, p) >= 1,
        total > 0 ==> percentile_rank(total, p) <= total,
{
    let t = round53(total);
    let q = fraction_mantissa(p);
    let unit = pow2(fraction_places(p));
    let limit = MANTISSA_LIMIT as int;
    lemma_places();
    lemma_fraction(p);
    lemma_round53_near(total);
    lemma_round53_near(t * q);
    vstd::arithmetic::div_mod::lemma_div_pos_is_pos(round53(t * q) as int, unit as int);
    if total > 0 {
        let product = round53(t * q);
        assert(100 * q <= 99 * unit + 50) by {
            vstd::arithmetic::div_mod::lemma_fundamental_div_mod((p * unit) as int, 100);
            assert(p * unit <= 99 * unit) by (nonlinear_arith)
                requires
                    p <= 99,
            ;
        }
        assert(limit * limit * product <= total * q * ((limit + 1) * (limit + 1))) by {
            assert(limit * (limit * product) <= limit * ((t * q) * (limit + 1))) by (nonlinear_arith)
                requires
                    limit * product <= (t * q) * (limit + 1),
                    limit > 0,
            ;
            assert(limit * ((t * q) * (limit + 1)) == (limit * t) * (q * (limit + 1))) by (nonlinear_arith);
            assert((limit * t) * (q * (limit + 1)) <= (total * (limit + 1)) * (q * (limit + 1))) by (nonlinear_arith)
                requires
                    limit * t <= total * (limit + 1),
                    0 <= q * (limit + 1),
            ;
            assert((total * (limit + 1)) * (q * (limit + 1)) == total * q * ((limit + 1) * (limit + 1))) by (nonlinear_arith);
            assert(limit * (limit * product) == limit * limit * product) by (nonlinear_arith);
        }
        assert(q * ((limit + 1) * (limit + 1)) < unit * (limit * limit)) by (nonlinear_arith)
            requires
                limit == 0x20_0000_0000_0000,
                100 * q <= 99 * unit + 50,
                unit >= limit,
        ;
        assert(total * q * ((limit + 1) * (limit + 1)) < total * unit * (limit * limit)) by (nonlinear_arith)
            requires
                total > 0,
                q * ((limit + 1) * (limit + 1)) < unit * (limit * limit),
        ;
        assert(product < total * unit) by (nonlinear_arith)
            requires
                limit > 0,
                limit * limit * product < total * unit * (limit * limit),
        ;
        assert(product / unit < total) by (nonlinear_arith)
            requires
                product < total * unit,
                unit > 0,
        ;
    }
}

/// The powers of two that the quotients use.
proof fn lemma_places()
    ensures
        pow2(53) == 0x20_0000_0000_0000,
        pow2(54) == 0x40_0000_0000_0000,
        pow2(55) == 0x80_0000_0000_0000,
        pow2(56) == 0x100_0000_0000_0000,
        pow2(57) == 0x200_0000_0000_0000,
        pow2(58) == 0x400_0000_0000_0000,
        pow2(59) == 0x800_0000_0000_0000,
{
    vstd::arithmetic::power2::lemma2_to64_rest();
}

/// The mantissa of every quotient but zero fills its 53 bits.
proof fn lemma_fraction(p: nat)
    requires
        p <= 99,
    ensures
        fraction_mantissa(p) <= MANTISSA_LIMIT,
        p > 0 ==> 2 * fraction_mantissa(p) >= MANTISSA_LIMIT,
        p == 0 ==> fraction_mantissa(p) == 0,
        pow2(fraction_places(p)) > 0,
{
    lemma_places();
    let unit = pow2(fraction_places(p));
    vstd::arithmetic::div_mod::lemma_fundamental_div_mod((p * unit) as int, 100);
    if p >= 50 {
        lemma_between(p, unit, 50, 99);
    } else if p >= 25 {
        lemma_between(p, unit, 25, 49);
    } else if p >= 13 {
        lemma_between(p, unit, 13, 24);
    } else if p >= 7 {
        lemma_between(p, unit, 7, 12);
    } else if p >= 4 {
        lemma_between(p, unit, 4, 6);
    } else if p >= 2 {
        lemma_between(p, unit, 2, 3);
    } else if p == 1 {
        lemma_between(p, unit, 1, 1);
    } else {
        lemma_between(p, unit, 0, 0);
    }
}

proof fn lemma_between(p: nat, unit: nat, lo: nat, hi: nat)
    requires
        lo <= p <= hi,
    ensures
        lo * unit <= p * unit <= hi * unit,
{
    vstd::arithmetic::mul::lemma_mul_inequality(lo as int, p as int, unit as int);
    vstd::arithmetic::mul::lemma_mul_inequality(p as int, hi as int, unit as int);
}

proof fn lemma_div_half_even_monotone(a: nat, b: nat, d: nat)
    requires
        a <= b,
        d > 0,
    ensures
        div_half_even(a, d) <= div_half_even(b, d),
{
    vstd::arithmetic::div_mod::lemma_div_is_ordered(a as int, b as int, d as int);
    vstd::arithmetic::div_mod::lemma_fundamental_div_mod(a as int, d as int);
    vstd::arithmetic::div_mod::lemma_fundamental_div_mod(b as int, d as int);
}

/// Units in the last place are powers of two: a larger one is at least twice as
/// large.
proof fn lemma_ulp_monotone(a: nat, b: nat)
    requires
        a <= b,
    ensures
        ulp(a) == ulp(b) || 2 * ulp(a) <= ulp(b),
    decreases b,
{
    if a >= MANTISSA_LIMIT {
        lemma_ulp_monotone(a / 2, b / 2);
    } else if b >= MANTISSA_LIMIT {
        lemma_ulp(b / 2);
    }
}

proof fn lemma_round53_monotone(a: nat, b: nat)
    requires
        a <= b,
    ensures
        round53(a) <= round53(b),
{
    let (u, v) = (ulp(a), ulp(b));
    lemma_ulp(a);
    lemma_ulp(b);
    lemma_ulp_monotone(a, b);
    if u == v {
        lemma_div_half_even_monotone(a, b, u);
        vstd::arithmetic::mul::lemma_mul_inequality(
            div_half_even(a, u) as int,
            div_half_even(b, u) as int,
            u as int,
        );
    } else {
        let da = div_half_even(a, u) as int;
        let db = div_half_even(b, v) as int;
        let limit = MANTISSA_LIMIT as int;
        assert(da <= limit);
        assert(2 * db >= limit);
        assert(da * u <= db * v) by (nonlinear_arith)
            requires
                0 <= da <= limit,
                limit <= 2 * db,
                0 < 2 * u <= v,
        ;
    }
}

proof fn lemma_round53_double(n: nat)
    ensures
        round53(2 * n) == 2 * round53(n),
{
    let u = ulp(n);
    lemma_ulp(n);
    if 2 * n < MANTISSA_LIMIT {
        assert(n % 1 == 0 && n / 1 == n);
        assert((2 * n) % 1 == 0 && (2 * n) / 1 == 2 * n);
        assert(round53(n) == n && round53(2 * n) == 2 * n) by (nonlinear_arith)
            requires
                round53(n) == n * 1,
                round53(2 * n) == (2 * n) * 1,
        ;
    } else {
        assert((2 * n) / 2 == n);
        assert(ulp(2 * n) == 2 * u);
        vstd::arithmetic::div_mod::lemma_fundamental_div_mod(n as int, u as int);
        let q = n / u;
        let r = n % u;
        assert(2 * n == q * (2 * u) + 2 * r) by (nonlinear_arith)
            requires
                n == u * q + r,
        ;
        vstd::arithmetic::div_mod::lemma_fundamental_div_mod_converse(
            (2 * n) as int,
            (2 * u) as int,
            q as int,
            (2 * r) as int,
        );
        let d = div_half_even(n, u);
        assert(div_half_even(2 * n, 2 * u) == d);
        assert(d * (2 * u) == 2 * (d * u)) by (nonlinear_arith);
    }
}

/// Rounding to a mantissa does not depend on the exponent.
proof fn lemma_round53_scale(n: nat, e: nat)
    ensures
        round53(n * pow2(e)) == round53(n) * pow2(e),
    decreases e,
{
    if e == 0 {
        vstd::arithmetic::power2::lemma2_to64();
        assert(n * 1 == n && round53(n) * 1 == round53(n));
    } else {
        let half = pow2((e - 1) as nat);
        vstd::arithmetic::power2::lemma_pow2_unfold(e);
        lemma_round53_scale(n, (e - 1) as nat);
        lemma_round53_double(n * half);
        assert(n * pow2(e) == 2 * (n * half)) by (nonlinear_arith)
            requires
                pow2(e) == 2 * half,
        ;
        assert(round53(n) * pow2(e) == 2 * (round53(n) * half)) by (nonlinear_arith)
            requires
                pow2(e) == 2 * half,
        ;
    }
}

/// A higher percentile never has a lower rank.
pub proof fn law_rank_monotone(total: nat, p: nat, higher: nat)
    requires
        p <= higher <= 99,
    ensures
        percentile_rank(total, p) <= percentile_rank(total, higher),
{
    let t = round53(total);
    let (m1, m2) = (fraction_mantissa(p), fraction_mantissa(higher));
    let (s1, s2) = (fraction_places(p), fraction_places(higher));
    let e = (s1 - s2) as nat;
    let (u1, u2) = (pow2(s1), pow2(s2));
    lemma_places();
    lemma_fraction(p);
    lemma_fraction(higher);
    vstd::arithmetic::power2::lemma_pow2_adds(s2, e);
    vstd::arithmetic::power2::lemma_pow2_pos(e);
    assert(m1 <= m2 * pow2(e)) by {
        if e == 0 {
            vstd::arithmetic::power2::lemma2_to64();
            assert(p * u1 <= higher * u1) by (nonlinear_arith)
                requires
                    p <= higher,
            ;
            lemma_div_half_even_monotone(p * u1, higher * u2, 100);
            assert(m2 * 1 == m2);
        } else {
            vstd::arithmetic::power2::lemma_pow2_unfold(e);
            vstd::arithmetic::power2::lemma_pow2_pos((e - 1) as nat);
            assert(m2 * pow2(e) >= 2 * m2) by (nonlinear_arith)
                requires
                    pow2(e) >= 2,
            ;
        }
    }
    assert(t * m1 <= (t * m2) * pow2(e)) by (nonlinear_arith)
        requires
            m1 <= m2 * pow2(e),
    ;
    lemma_round53_monotone(t * m1, (t * m2) * pow2(e));
    lemma_round53_scale(t * m2, e);
    let (a, b) = (round53(t * m1), round53(t * m2));
    assert(a / u1 <= (b * pow2(e)) / u1) by {
        vstd::arithmetic::div_mod::lemma_div_is_ordered(a as int, (b * pow2(e)) as int, u1 as int);
    }
    assert((b * pow2(e)) / u1 == b / u2) by {
        vstd::arithmetic::div_mod::lemma_div_denominator(
            (b * pow2(e)) as int,
            pow2(e) as int,
            u2 as int,
        );
        vstd::arithmetic::div_mod::lemma_div_by_multiple(b as int, pow2(e) as int);
        assert(pow2(e) * u2 == u1) by (nonlinear_arith)
            requires
                u2 * pow2(e) == u1,
        ;
    }
}

/// For up to `2^52` observations the rank is within one of the exact
/// `total * p / 100 + 1`, cut to an integer.
pub proof fn law_rank_near_exact(total: nat, p: nat)
    requires
        total <= 0x10_0000_0000_0000,
        p <= 99,
    ensures
        total * p / 100 <= percentile_rank(total, p) <= total * p / 100 + 2,
{
    let limit = MANTISSA_LIMIT as int;
    let unit = pow2(fraction_places(p)) as int;
    let q = fraction_mantissa(p) as int;
    let exact = (total * p / 100) as int;
    lemma_places();
    lemma_fraction(p);
    assert(round53(total) == total) by {
        assert(total % 1 == 0 && total / 1 == total);
        assert(round53(total) == total * 1);
    }
    let n = (total * fraction_mantissa(p)) as int;
    let r = round53(total * fraction_mantissa(p)) as int;
    lemma_round53_near(total * fraction_mantissa(p));
    vstd::arithmetic::div_mod::lemma_fundamental_div_mod((p * pow2(fraction_places(p))) as int, 100);
    assert(p * unit - 50 <= 100 * q <= p * unit + 50);
    let a = exact * unit;
    assert(total * (p * unit) - 50 * total <= 100 * n <= total * (p * unit) + 50 * total) by (nonlinear_arith)
        requires
            p * unit - 50 <= 100 * q <= p * unit + 50,
            n == total * q,
    ;
    assert(100 * a <= total * (p * unit) <= 100 * a + 99 * unit) by (nonlinear_arith)
        requires
            100 * exact <= total * p <= 100 * exact + 99,
            a == exact * unit,
            unit > 0,
    ;
    assert(total * (p * unit) <= 99 * (total * unit)) by (nonlinear_arith)
        requires
            p <= 99,
            unit > 0,
    ;
    assert(2 * (total * unit) <= limit * unit) by (nonlinear_arith)
        requires
            2 * total <= limit,
            unit > 0,
    ;
    assert(limit == 0x20_0000_0000_0000);
    assert(n * (limit + 1) == n * 0x20_0000_0000_0001 && n * (limit - 1) == n * 0x1f_ffff_ffff_ffff);
    assert(r < a + 2 * unit);
    assert(a - unit <= r);
    assert(exact - 1 <= r / unit < exact + 2) by (nonlinear_arith)
        requires
            exact * unit - unit <= r < exact * unit + 2 * unit,
            unit > 0,
    ;
}

/// `x` is `n` in double precision: a multiple of `2^e`, where `e` is the place from which
/// on 53 bits hold `n`, at most half of that away, and with an even mantissa if there are
/// two such.
pub open spec fn is_double_of(x: nat, n: nat, e: nat) -> bool {
    &&& n < 0x20_0000_0000_0000 * pow2(e)
    &&& e > 0 ==> n >= 0x10_0000_0000_0000 * pow2(e)
    &&& x % pow2(e) == 0
    &&& 2 * n - pow2(e) <= 2 * x <= 2 * n + pow2(e)
    &&& 2 * x == 2 * n - pow2(e) || 2 * x == 2 * n + pow2(e) ==> x / pow2(e) % 2 == 0
}

proof fn lemma_ulp_is(n: nat, e: nat)
    requires
        n < MANTISSA_LIMIT * pow2(e),
        e > 0 ==> n >= 0x10_0000_0000_0000 * pow2(e),
    ensures
        ulp(n) == pow2(e),
    decreases e,
{
    vstd::arithmetic::power2::lemma2_to64();
    if e > 0 {
        vstd::arithmetic::power2::lemma_pow2_unfold(e);
        vstd::arithmetic::power2::lemma_pow2_pos((e - 1) as nat);
        lemma_ulp_is(n / 2, (e - 1) as nat);
    }
}

proof fn lemma_double_of(x: nat, n: nat, e: nat)
    requires
        is_double_of(x, n, e),
    ensures
        round53(n) == x,
{
    lemma_ulp_is(n, e);
    lemma_ulp(n);
    let u = pow2(e) as int;
    let (m, q, r) = (x as int / u, n as int / u, n as int % u);
    vstd::arithmetic::div_mod::lemma_fundamental_div_mod(x as int, u);
    vstd::arithmetic::div_mod::lemma_fundamental_div_mod(n as int, u);
    vstd::arithmetic::div_mod::lemma_mod_bound(n as int, u);
    let d = m - q;
    assert(u * m - u * q == u * d) by (nonlinear_arith)
        requires
            d == m - q,
    ;
    assert(0 <= d <= 1) by (nonlinear_arith)
        requires
            2 * r - u <= 2 * (u * d) <= 2 * r + u,
            0 <= r < u,
    ;
    assert(d == 0 ==> u * d == 0) by (nonlinear_arith);
    assert(d == 1 ==> u * d == u) by (nonlinear_arith);
    assert(m * u == u * m) by (nonlinear_arith);
}

/// The rank is what double-precision arithmetic makes of `total * (p / 100)`, cut to an
/// integer, and one: `t` is `total`, `q / 2^k` the quotient `p / 100` and `x / 2^k` their
/// product, each the nearest number with a mantissa of 53 bits.
pub proof fn law_rank_is_double_precision(
    total: nat,
    p: nat,
    t: nat,
    t_place: nat,
    q: nat,
    k: nat,
    x: nat,
    x_place: nat,
)
    requires
        1 <= p <= 99,
        is_double_of(t, total, t_place),
        0x10_0000_0000_0000 <= q < 0x20_0000_0000_0000,
        p * pow2(k) - 50 < 100 * q < p * pow2(k) + 50,
        is_double_of(x, t * q, x_place),
    ensures
        percentile_rank(total, p) == x / pow2(k) + 1,
{
    lemma_places();
    lemma_double_of(t, total, t_place);
    lemma_double_of(x, t * q, x_place);
    lemma_quotient_is(p, q, k);
}

/// The zeroth percentile ranks first.
pub proof fn law_rank_of_the_shortest(total: nat)
    ensures
        percentile_rank(total, 0) == 1,
{
    lemma_places();
    lemma_fraction(0);
    let t = round53(total);
    assert(t * 0 == 0);
    let zero: nat = 0;
    assert(ulp(zero) == 1);
    assert(zero % 1 == 0 && zero / 1 == 0);
    assert(round53(zero) == zero * 1);
    assert(zero / pow2(59) == 0);
}

/// A quotient has one mantissa of 53 bits.
proof fn lemma_quotient_is(p: nat, q: nat, k: nat)
    requires
        1 <= p <= 99,
        0x10_0000_0000_0000 <= q < 0x20_0000_0000_0000,
        p * pow2(k) - 50 < 100 * q < p * pow2(k) + 50,
    ensures
        k == fraction_places(p),
        q == fraction_mantissa(p),
{
    let places = fraction_places(p);
    lemma_places();
    lemma_fraction_range(p);
    if k > places {
        vstd::arithmetic::power2::lemma_pow2_unfold((places + 1) as nat);
        if k > places + 1 {
            vstd::arithmetic::power2::lemma_pow2_strictly_increases((places + 1) as nat, k);
        }
        assert(p * pow2(k) >= 2 * (p * pow2(places))) by (nonlinear_arith)
            requires
                pow2(k) >= 2 * pow2(places),
        ;
    } else if k < places {
        vstd::arithmetic::power2::lemma_pow2_unfold(places);
        if k < places - 1 {
            vstd::arithmetic::power2::lemma_pow2_strictly_increases(k, (places - 1) as nat);
        }
        assert(2 * (p * pow2(k)) <= p * pow2(places)) by (nonlinear_arith)
            requires
                2 * pow2(k) <= pow2(places),
        ;
    }
}

proof fn lemma_fraction_range(p: nat)
    requires
        1 <= p <= 99,
    ensures
        50 * MANTISSA_LIMIT <= p * pow2(fraction_places(p)),
        p * pow2(fraction_places(p)) <= 99 * MANTISSA_LIMIT,
{
    lemma_places();
    let unit = pow2(fraction_places(p));
    if p >= 50 {
        assert(unit == 0x20_0000_0000_0000);
        lemma_between(p, unit, 50, 99);
        assert(50 * MANTISSA_LIMIT <= p * unit <= 99 * MANTISSA_LIMIT);
    } else if p >= 25 {
        assert(unit == 0x40_0000_0000_0000);
        lemma_between(p, unit, 25, 49);
        assert(50 * MANTISSA_LIMIT <= p * unit <= 99 * MANTISSA_LIMIT);
    } else if p >= 13 {
        assert(unit == 0x80_0000_0000_0000);
        lemma_between(p, unit, 13, 24);
        assert(50 * MANTISSA_LIMIT <= p * unit <= 99 * MANTISSA_LIMIT);
    } else if p >= 7 {
        assert(unit == 0x100_0000_0000_0000);
        lemma_between(p, unit, 7, 12);
        assert(50 * MANTISSA_LIMIT <= p * unit <= 99 * MANTISSA_LIMIT);
    } else if p >= 4 {
        assert(unit == 0x200_0000_0000_0000);
        lemma_between(p, unit, 4, 6);
        assert(50 * MANTISSA_LIMIT <= p * unit <= 99 * MANTISSA_LIMIT);
    } else if p >= 2 {
        assert(unit == 0x400_0000_0000_0000);
        lemma_between(p, unit, 2, 3);
        assert(50 * MANTISSA_LIMIT <= p * unit <= 99 * MANTISSA_LIMIT);
    } else {
        assert(unit == 0x800_0000_0000_0000);
        lemma_between(p, unit, 1, 1);
        assert(50 * MANTISSA_LIMIT <= p * unit <= 99 * MANTISSA_LIMIT);
    }
}

/// The unit in the last place of a number below `2^(53 + k)` divides `2^k`.
proof fn lemma_ulp_divides(n: nat, k: nat) -> (c: nat)
    requires
        n < MANTISSA_LIMIT * pow2(k),
    ensures
        pow2(k) == c * ulp(n),
    decreases k,
{
    if n < MANTISSA_LIMIT {
        assert(pow2(k) == pow2(k) * 1);
        pow2(k)
    } else if k == 0 {
        vstd::arithmetic::power2::lemma2_to64();
        0
    } else {
        vstd::arithmetic::power2::lemma_pow2_unfold(k);
        let c = lemma_ulp_divides(n / 2, (k - 1) as nat);
        assert(2 * (c * ulp(n / 2)) == c * (2 * ulp(n / 2))) by (nonlinear_arith);
        c
    }
}

/// A number at most half a unit below a multiple of its unit is rounded up to it, or
/// down to the multiple before if it is halfway and that one is even.
proof fn lemma_round53_up(n: nat, m: nat)
    requires
        n < m * ulp(n),
        2 * (m * ulp(n) - n) <= ulp(n),
    ensures
        round53(n) == if 2 * (m * ulp(n) - n) < ulp(n) || m % 2 == 0 {
            (m * ulp(n)) as int
        } else {
            m * ulp(n) - ulp(n)
        },
{
    let u = ulp(n) as int;
    let rest = u - (m * u - n);
    lemma_ulp(n);
    assert(m >= 1) by (nonlinear_arith)
        requires
            n < m * u,
            u >= 1,
            n >= 0,
    ;
    assert((m - 1) * u == m * u - u) by (nonlinear_arith);
    vstd::arithmetic::div_mod::lemma_fundamental_div_mod_converse(n as int, u, m - 1, rest);
}

/// Rounding moves a number by at most half a unit.
proof fn lemma_round53_half_unit(n: nat)
    ensures
        2 * n - ulp(n) <= 2 * round53(n) <= 2 * n + ulp(n),
{
    let u = ulp(n) as int;
    let k = (n / ulp(n)) as int;
    lemma_ulp(n);
    vstd::arithmetic::div_mod::lemma_fundamental_div_mod(n as int, u);
    assert(u * k == k * u) by (nonlinear_arith);
    assert((k + 1) * u == k * u + u) by (nonlinear_arith);
}

/// A number at or above a whole multiple of `2^53` is not rounded below it.
proof fn lemma_round53_reaches(n: nat, whole: nat)
    requires
        whole < MANTISSA_LIMIT,
        n >= whole * MANTISSA_LIMIT,
    ensures
        round53(n) >= whole * MANTISSA_LIMIT,
{
    lemma_places();
    lemma_round53_monotone((whole * MANTISSA_LIMIT) as nat, n);
    lemma_round53_scale(whole, 53);
    assert(round53(whole) == whole) by {
        assert(whole % 1 == 0 && whole / 1 == whole);
        assert(round53(whole) == whole * 1);
    }
}

/// A whole multiple of `2^53` is a multiple of the unit of a number below `2^106`.
proof fn lemma_whole_in_units(n: nat, whole: nat) -> (m: nat)
    requires
        n < MANTISSA_LIMIT * MANTISSA_LIMIT,
    ensures
        whole * MANTISSA_LIMIT == m * ulp(n),
        (whole * MANTISSA_LIMIT) as nat / ulp(n) == m,
{
    lemma_places();
    lemma_ulp(n);
    let c = lemma_ulp_divides(n, 53);
    let m = whole * c;
    assert(whole * (c * ulp(n)) == m * ulp(n)) by (nonlinear_arith)
        requires
            m == whole * c,
    ;
    vstd::arithmetic::div_mod::lemma_div_by_multiple(m as int, ulp(n) as int);
    m
}

/// The percentiles that are most asked for.
pub open spec fn is_common_percentile(p: nat) -> bool {
    p == 50 || p == 90 || p == 95 || p == 99
}

/// The product of `total` and the mantissa of `p / 100` is rounded up to the whole
/// number after `total * p / 100`, or lies above it already.
pub open spec fn rounds_to_next(total: nat, p: nat) -> bool {
    let product = total * fraction_mantissa(p);
    let next = ((total * p / 100 + 1) * MANTISSA_LIMIT) as nat;
    let unit = ulp(product);
    ||| 2 * (next - product) < unit
    ||| 2 * (next - product) == unit && next / unit % 2 == 0
}

/// Below this index a common percentile is never rounded to the next one.
pub open spec fn exact_below(p: nat) -> nat {
    if p == 50 {
        0x20_0000_0000_0000
    } else if p == 99 {
        0x8000_0000_0000
    } else {
        0x4_0000_0000_0000
    }
}

/// The arithmetic ranks a common percentile exactly. It does so for every index
/// below `2^47`, and for P90 and P95 below `2^50`; P50 is exact throughout. Beyond
/// that it depends on the total.
pub open spec fn ranks_exactly(total: nat, p: nat) -> bool {
    &&& is_common_percentile(p)
    &&& total < MANTISSA_LIMIT
    &&& total * p / 100 < exact_below(p) || !rounds_to_next(total, p)
}

/// How much a hundred times the mantissa of a common percentile is off.
spec fn common_error(p: nat) -> int {
    if p == 50 {
        0
    } else if p == 90 {
        20
    } else if p == 95 {
        -40
    } else {
        -8
    }
}

proof fn lemma_common_fraction(p: nat)
    requires
        is_common_percentile(p),
    ensures
        fraction_places(p) == 53,
        pow2(53) == MANTISSA_LIMIT,
        100 * fraction_mantissa(p) == p * MANTISSA_LIMIT + common_error(p),
{
    lemma_places();
    assert(div_half_even(50 * 0x20_0000_0000_0000, 100) == 0x10_0000_0000_0000);
    assert(100 * div_half_even(90 * 0x20_0000_0000_0000, 100) == 90 * 0x20_0000_0000_0000 + 20);
    assert(100 * div_half_even(95 * 0x20_0000_0000_0000, 100) == 95 * 0x20_0000_0000_0000 - 40);
    assert(100 * div_half_even(99 * 0x20_0000_0000_0000, 100) == 99 * 0x20_0000_0000_0000 - 8);
}

/// The rank of P50, P90, P95 and P99 among fewer than `2^53` observations is exact,
/// `total * p / 100 + 1` cut to an integer, if and only if `ranks_exactly` says so,
/// and otherwise the next one.
pub proof fn law_common_rank(total: nat, p: nat)
    requires
        is_common_percentile(p),
        total < MANTISSA_LIMIT,
    ensures
        percentile_rank(total, p) == if ranks_exactly(total, p) {
            total * p / 100 + 1
        } else {
            total * p / 100 + 2
        },
{
    let unit = MANTISSA_LIMIT as int;
    let exact = total * p / 100;
    let n = total * fraction_mantissa(p);
    let rounded = round53(n) as int;
    lemma_common_fraction(p);
    assert(round53(total) == total) by {
        assert(total % 1 == 0 && total / 1 == total);
        assert(round53(total) == total * 1);
    }
    if total == 0 {
        assert(n == 0 && rounded == 0) by {
            assert(0nat % 1 == 0 && 0nat / 1 == 0);
        }
    } else {
        lemma_common_product(total, p);
        lemma_common_lower(total, p);
        lemma_round53_half_unit(n);
        let m = lemma_whole_in_units(n, exact + 1);
        let gap = (exact + 1) * unit - n;
        if exact < exact_below(p) {
            lemma_common_gap(total, p);
        }
        if rounds_to_next(total, p) {
            if gap <= 0 {
                lemma_round53_reaches(n, exact + 1);
            } else {
                lemma_round53_up(n, m);
            }
            vstd::arithmetic::div_mod::lemma_fundamental_div_mod_converse(
                rounded,
                unit,
                (exact + 1) as int,
                rounded - (exact + 1) * unit,
            );
        } else {
            if 2 * gap == ulp(n) {
                lemma_round53_up(n, m);
            }
            vstd::arithmetic::div_mod::lemma_fundamental_div_mod_converse(
                rounded,
                unit,
                exact as int,
                rounded - exact * unit,
            );
        }
    }
}

/// The rank of P50, P90, P95 and P99 is exact for every total below the bound of the
/// percentile.
pub proof fn law_common_rank_is_exact(total: nat, p: nat)
    requires
        is_common_percentile(p),
        total < exact_below(p),
    ensures
        ranks_exactly(total, p),
        percentile_rank(total, p) == total * p / 100 + 1,
{
    assert(total * p <= 99 * total) by (nonlinear_arith)
        requires
            p <= 99,
    ;
    law_common_rank(total, p);
}

/// The product before it is rounded: how it lies to the whole numbers around it, and
/// how large its unit can be.
proof fn lemma_common_product(total: nat, p: nat)
    requires
        is_common_percentile(p),
        0 < total < MANTISSA_LIMIT,
    ensures
        ({
            let n = total * fraction_mantissa(p);
            let exact = total * p / 100;
            let r = total * p % 100;
            &&& 100 * n == 100 * (exact * MANTISSA_LIMIT) + r * MANTISSA_LIMIT + common_error(p)
                * total
            &&& total * p == 100 * exact + r
            &&& exact + 1 < MANTISSA_LIMIT
            &&& n < MANTISSA_LIMIT * MANTISSA_LIMIT
            &&& (exact + 1) * MANTISSA_LIMIT == exact * MANTISSA_LIMIT + MANTISSA_LIMIT
            &&& ulp(n) <= MANTISSA_LIMIT
            &&& ulp(n) <= 2 * total
            &&& n < MANTISSA_LIMIT * ulp(n)
            &&& p == 50 ==> r == 0 || (r == 50 && total % 2 == 1)
            &&& p == 90 ==> r <= 90
            &&& p == 95 ==> r <= 95
            &&& common_error(p) * total <= if p == 90 {
                20 * total as int
            } else {
                0
            }
        }),
{
    let unit = MANTISSA_LIMIT as int;
    let q = fraction_mantissa(p) as int;
    let err = common_error(p);
    let exact = total * p / 100;
    let r = total * p % 100;
    let n = total * fraction_mantissa(p);
    lemma_common_fraction(p);
    assert(total * p == 100 * exact + r);
    assert(p == 50 ==> total * p == 50 * total);
    assert(p == 90 ==> total * p == 90 * total);
    assert(p == 95 ==> total * p == 95 * total);
    assert(p == 99 ==> total * p == 99 * total);
    assert(100 * n == 100 * (exact * unit) + r * unit + err * total) by (nonlinear_arith)
        requires
            n == total * q,
            100 * q == p * unit + err,
            total * p == 100 * exact + r,
    ;
    assert(n < unit * total) by (nonlinear_arith)
        requires
            n == total * q,
            q < unit,
            total > 0,
    ;
    assert(err <= 0 ==> err * total <= 0) by (nonlinear_arith)
        requires
            total > 0,
    ;
    lemma_ulp(n);
    let u = ulp(n) as int;
    let k = (n / ulp(n)) as int;
    vstd::arithmetic::div_mod::lemma_fundamental_div_mod(n as int, u);
    assert(n < unit * u) by (nonlinear_arith)
        requires
            n == u * k + n as int % u,
            n as int % u < u,
            k < unit,
            u >= 1,
    ;
    if n >= MANTISSA_LIMIT {
        assert(unit * u <= 2 * (u * k)) by (nonlinear_arith)
            requires
                unit <= 2 * k,
                u >= 1,
        ;
    }
    let c = lemma_ulp_divides(n, 53);
    assert(u <= unit) by (nonlinear_arith)
        requires
            unit == c * u,
            unit > 0,
            u >= 1,
            c >= 0,
    ;
}

/// Rounding does not fall below a whole observation.
proof fn lemma_common_lower(total: nat, p: nat)
    requires
        is_common_percentile(p),
        0 < total < MANTISSA_LIMIT,
    ensures
        total * p / 100 * MANTISSA_LIMIT <= round53(total * fraction_mantissa(p)),
{
    let exact = total * p / 100;
    let n = total * fraction_mantissa(p);
    let floor = exact * MANTISSA_LIMIT;
    lemma_common_product(total, p);
    if n >= floor {
        lemma_round53_reaches(n, exact);
    } else {
        let m = lemma_whole_in_units(n, exact);
        assert(p == 95 || p == 99);
        assert(p == 95 ==> total * p == 95 * total);
        assert(p == 99 ==> total * p == 99 * total);
        assert(2 * (floor - n) < ulp(n));
        lemma_round53_up(n, m);
    }
}

/// Below the bound of a percentile the product lies more than half a unit below the
/// next whole number.
proof fn lemma_common_gap(total: nat, p: nat)
    requires
        is_common_percentile(p),
        0 < total < MANTISSA_LIMIT,
        total * p / 100 < exact_below(p),
    ensures
        !rounds_to_next(total, p),
        2 * ((total * p / 100 + 1) * MANTISSA_LIMIT - total * fraction_mantissa(p)) > ulp(
            total * fraction_mantissa(p),
        ),
{
    let n = total * fraction_mantissa(p);
    let u = ulp(n) as int;
    let k: nat = if p == 50 {
        52
    } else if p == 99 {
        47
    } else {
        50
    };
    lemma_common_product(total, p);
    vstd::arithmetic::power2::lemma2_to64_rest();
    assert(p == 50 ==> total * p == 50 * total);
    assert(p == 90 ==> total * p == 90 * total);
    assert(p == 95 ==> total * p == 95 * total);
    assert(p == 99 ==> total * p == 99 * total);
    assert(n < MANTISSA_LIMIT * pow2(k));
    let c = lemma_ulp_divides(n, k);
    assert(u <= pow2(k)) by (nonlinear_arith)
        requires
            pow2(k) == c * u,
            pow2(k) > 0,
            u >= 1,
            c >= 0,
    ;
}

/// The denominator `2^fraction_places(p)`.
fn exec_fraction_unit(p: u8) -> (u: u128)
    ensures
        u == pow2(fraction_places(p as nat)),
        0 < u <= 0x800_0000_0000_0000,
{
    proof {
        lemma_places();
    }
    if p >= 50 {
        0x20_0000_0000_0000
    } else if p >= 25 {
        0x40_0000_0000_0000
    } else if p >= 13 {
        0x80_0000_0000_0000
    } else if p >= 7 {
        0x100_0000_0000_0000
    } else if p >= 4 {
        0x200_0000_0000_0000
    } else if p >= 2 {
        0x400_0000_0000_0000
    } else {
        0x800_0000_0000_0000
    }
}

/// The rank of percentile `p` among `total` observations, counted from one.
pub fn rank_of_percentile(total: u64, p: u8) -> (rank: u64)
    requires
        p <= 99,
    ensures
        rank == percentile_rank(total as nat, p as nat),
        rank > 0,
        total > 0 ==> rank <= total,
{
    let unit: u128 = exec_fraction_unit(p);
    proof {
        lemma_between(p as nat, unit as nat, 0, 99);
    }
    let scaled: u128 = p as u128 * unit;
    let mantissa: u128 = exec_div_half_even(scaled / 100, scaled % 100, 100);
    let count: u128 = exec_round53(total as u128);
    proof {
        assert(mantissa == fraction_mantissa(p as nat));
        lemma_fraction(p as nat);
        lemma_round53_near(total as nat);
        assert(count * mantissa <= 0x40_0000_0000_0000_0000_0000_0000_0000) by (nonlinear_arith)
            requires
                count <= 0x2_0000_0000_0000_0000,
                mantissa <= MANTISSA_LIMIT,
        ;
    }
    let product: u128 = exec_round53(count * mantissa);
    proof {
        assert(total == 0 ==> count * mantissa == 0) by (nonlinear_arith)
            requires
                count <= 2 * total,
        ;
        law_rank_in_range(total as nat, p as nat);
    }
    (product / unit) as u64 + 1
}

} // verus!
