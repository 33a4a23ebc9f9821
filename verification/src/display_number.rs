//! Quotients with one decimal place, as double-precision arithmetic gives them.
//!
//! A size in bytes is shown in megabytes or gigabytes. The size is taken to the nearest number
//! with 53 significant bits, so is its quotient by the unit, and that quotient is shown to the
//! nearest tenth. Halfway cases go to the even neighbor each time.

use crate::text::{decimal, law_decimals_end_with_their_last_digit, push_decimal};
use vstd::arithmetic::div_mod::lemma_fundamental_div_mod;
use vstd::prelude::*;
use vstd::string::*;

verus! {

/// Bytes in a megabyte.
pub const MEGA: u64 = 1_000_000;

/// Bytes in a gigabyte.
pub const GIGA: u64 = 1_000_000_000;

/// Two to the 52: the least number with 53 bits.
pub const FULL: u64 = 0x10_0000_0000_0000;

/// The integer nearest to a quotient; of two that are as near, the even one.
pub open spec fn nearest_even(a: int, b: int) -> int {
    let q = a / b;
    let r = a % b;
    if 2 * r < b || (2 * r == b && q % 2 == 0) {
        q
    } else {
        q + 1
    }
}

/// How often a number must be doubled to reach a bound.
pub open spec fn doublings(a: int, least: int) -> nat
    decreases
            if a < least {
                least - a
            } else {
                0
            },
{
    if a >= least || a <= 0 {
        0
    } else {
        1 + doublings(2 * a, least)
    }
}

/// How often a number must be halved to fall below a bound.
pub open spec fn halvings(a: int, bound: int) -> nat
    decreases a,
{
    if a < bound || a <= 0 {
        0
    } else {
        1 + halvings(a / 2, bound)
    }
}

/// A power of two.
pub open spec fn two_to(e: nat) -> int
    decreases e,
{
    if e == 0 {
        1
    } else {
        2 * two_to((e - 1) as nat)
    }
}

/// A number to 53 significant bits.
pub open spec fn to_53_bits(n: int) -> int {
    let scale = two_to(halvings(n, 2 * FULL));
    nearest_even(n, scale) * scale
}

/// The quotient of two numbers to 53 significant bits, as a fraction: its numerator, and the
/// exponent of its denominator, which is a power of two.
pub open spec fn quotient_53(n: int, unit: int) -> (int, nat) {
    let e = doublings(n, unit * FULL);
    (nearest_even(n * two_to(e), unit), e)
}

/// A size in some unit, in tenths.
pub open spec fn tenths(n: u64, unit: u64) -> int {
    let (m, e) = quotient_53(to_53_bits(n as int), unit as int);
    nearest_even(10 * m, two_to(e))
}

/// Tenths as a text: the whole part, a point, and one digit.
pub open spec fn one_decimal(tenths: int) -> Seq<char> {
    decimal((tenths / 10) as nat) + "."@ + decimal((tenths % 10) as nat)
}

/// A power of two is positive.
proof fn lemma_two_to(e: nat)
    ensures
        two_to(e) >= 1,
    decreases e,
{
    if e > 0 {
        lemma_two_to((e - 1) as nat);
    }
}

/// Computes the integer nearest to a quotient.
fn round_even(a: u128, b: u128) -> (q: u128)
    requires
        0 < b <= u128::MAX / 2,
        a < u128::MAX,
    ensures
        q == nearest_even(a as int, b as int),
        q <= a as int / b as int + 1,
{
    let q: u128 = a / b;
    let r: u128 = a % b;
    proof {
        assert(0 <= a as int / b as int <= a) by (nonlinear_arith)
            requires
                b > 0,
                a >= 0,
        ;
    }
    if 2 * r < b || (2 * r == b && q % 2 == 0) {
        q
    } else {
        q + 1
    }
}

/// Halving keeps count of the power of two.
proof fn lemma_halvings(n: int, bound: int)
    requires
        0 <= n < bound * 2048,
        bound > 0,
    ensures
        halvings(n, bound) <= 11,
        n / two_to(halvings(n, bound)) < bound,
        two_to(halvings(n, bound)) <= 2048,
{
    reveal_with_fuel(halvings, 13);
    reveal_with_fuel(two_to, 13);
    lemma_halvings_div(n, bound);
}

/// As many halvings as are counted bring a number below the bound.
proof fn lemma_halvings_div(n: int, bound: int)
    requires
        n >= 0,
        bound > 0,
    ensures
        n / two_to(halvings(n, bound)) < bound,
    decreases n,
{
    if n >= bound {
        lemma_halvings_div(n / 2, bound);
        let p = two_to(halvings(n / 2, bound));
        lemma_two_to(halvings(n / 2, bound));
        vstd::arithmetic::div_mod::lemma_div_denominator(n, 2, p);
    }
}

/// Computes a number to 53 significant bits.
fn keep_53_bits(n: u64) -> (kept: u128)
    ensures
        kept == to_53_bits(n as int),
        kept <= 0x1_0000_0000_0000_0000,
        n > 0 ==> kept > 0,
{
    let mut scale: u128 = 1;
    let mut rest: u64 = n;
    let bound: u64 = 2 * FULL;
    proof {
        lemma_halvings(n as int, bound as int);
    }
    let ghost total = halvings(n as int, bound as int);
    let ghost mut done: nat = 0;
    while rest >= bound
        invariant
            bound == 2 * FULL,
            total == done + halvings(rest as int, bound as int),
            total <= 11,
            scale == two_to(done),
            scale <= 2048,
            rest <= n,
            two_to(total) <= 2048,
        decreases rest,
    {
        proof {
            lemma_two_to_grows(done + 1, total);
            done = done + 1;
        }
        scale = 2 * scale;
        rest = rest / 2;
    }
    proof {
        assert(done == total);
        lemma_two_to(total);
    }
    let rounded: u128 = round_even(n as u128, scale);
    proof {
        let q = n as int / scale as int;
        assert(q * scale <= n && q <= n) by (nonlinear_arith)
            requires
                q == n as int / scale as int,
                scale > 0,
                n >= 0,
        ;
        lemma_53_bound(n as int, scale as int, rounded as int);
    }
    rounded * scale
}

/// Powers of two grow.
proof fn lemma_two_to_grows(a: nat, b: nat)
    requires
        a <= b,
    ensures
        two_to(a) <= two_to(b),
    decreases b,
{
    if a < b {
        lemma_two_to_grows(a, (b - 1) as nat);
        lemma_two_to((b - 1) as nat);
    }
}

/// A number to 53 bits does not exceed two to the 64, nor does it vanish.
proof fn lemma_53_bound(n: int, scale: int, rounded: int)
    requires
        0 <= n < 0x1_0000_0000_0000_0000,
        scale == two_to(halvings(n, 2 * FULL)),
        rounded == nearest_even(n, scale),
    ensures
        0 <= rounded * scale <= 0x1_0000_0000_0000_0000,
        n > 0 ==> rounded * scale > 0,
{
    lemma_halvings(n, 2 * FULL);
    lemma_two_to(halvings(n, 2 * FULL));
    let q = n / scale;
    let r = n % scale;
    vstd::arithmetic::div_mod::lemma_fundamental_div_mod(n, scale);
    if scale == 1 {
        assert(n / 1 == n && n % 1 == 0);
        assert(rounded * scale == n) by (nonlinear_arith)
            requires
                rounded == n,
                scale == 1,
        ;
    } else {
        lemma_halvings_reach(n, 2 * FULL);
        assert(q >= FULL);
        assert(q < 2 * FULL);
        lemma_scale_is_power(halvings(n, 2 * FULL));
        assert(rounded * scale <= 0x1_0000_0000_0000_0000 && rounded * scale > 0)
            by (nonlinear_arith)
            requires
                0 < rounded <= 0x20_0000_0000_0000,
                0 < scale <= 2048,
        ;
    }
}

/// A scale of at least two leaves at least 53 bits.
proof fn lemma_halvings_reach(n: int, bound: int)
    requires
        n >= bound,
        bound > 1,
        bound % 2 == 0,
    ensures
        n / two_to(halvings(n, bound)) >= bound / 2,
    decreases n,
{
    let p = two_to(halvings(n / 2, bound));
    lemma_two_to(halvings(n / 2, bound));
    vstd::arithmetic::div_mod::lemma_div_denominator(n, 2, p);
    if n / 2 >= bound {
        lemma_halvings_reach(n / 2, bound);
    } else {
        assert(halvings(n / 2, bound) == 0);
        assert(two_to(0) == 1);
    }
}

/// A power of two is one, or at least two.
proof fn lemma_scale_is_power(e: nat)
    ensures
        e == 0 ==> two_to(e) == 1,
        e > 0 ==> two_to(e) >= 2,
{
    if e > 0 {
        lemma_two_to((e - 1) as nat);
    }
}

/// Computes a size in some unit, in tenths.
pub fn tenths_of(n: u64, unit: u64) -> (t: u64)
    requires
        unit == MEGA || unit == GIGA,
    ensures
        t == tenths(n, unit),
{
    let kept: u128 = keep_53_bits(n);
    let least: u128 = (unit as u128) * (FULL as u128);
    assert(least == unit * FULL);
    if kept == 0 {
        proof {
            assert(n == 0);
            assert(doublings(0, unit * FULL) == 0);
            assert(two_to(0) == 1);
            assert(nearest_even(0, unit as int) == 0);
            assert(nearest_even(0, 1) == 0);
            assert(0 * two_to(0) == 0);
        }
        return 0;
    }
    let mut scaled: u128 = kept;
    let mut power: u128 = 1;
    let ghost total = doublings(kept as int, least as int);
    let ghost mut done: nat = 0;
    while scaled < least
        invariant
            least <= 1_000_000_000 * 0x10_0000_0000_0000,
            0 < scaled,
            kept >= 1,
            scaled == kept * power,
            power == two_to(done),
            power >= 1,
            scaled < 2 * least || done == 0,
            kept <= 0x1_0000_0000_0000_0000,
            total == done + doublings(scaled as int, least as int),
            power <= scaled,
        decreases
            if scaled < least {
                least - scaled
            } else {
                0
            },
    {
        proof {
            assert(2 * scaled == kept * (2 * power)) by (nonlinear_arith)
                requires
                    scaled == kept * power,
            ;
            done = done + 1;
        }
        scaled = 2 * scaled;
        power = 2 * power;
    }
    proof {
        assert(done == total);
        assert(scaled == kept * two_to(total));
    }
    let m: u128 = round_even(scaled, unit as u128);
    proof {
        lemma_quotient_small(scaled as int, unit as int);
        lemma_nearest_bound(scaled as int, unit as int);
    }
    let t: u128 = round_even(10 * m, power);
    proof {
        lemma_nearest_bound(10 * m, power as int);
        lemma_tenths_fit(kept as int, power as int, unit as int, m as int, t as int);
    }
    t as u64
}

/// A quotient is no larger than its numerator.
proof fn lemma_quotient_small(a: int, b: int)
    requires
        a >= 0,
        b >= 1,
    ensures
        0 <= a / b <= a,
{
    assert(0 <= a / b <= a) by (nonlinear_arith)
        requires
            a >= 0,
            b >= 1,
    ;
}

/// Rounding stays close.
proof fn lemma_nearest_bound(a: int, b: int)
    requires
        a >= 0,
        b >= 1,
    ensures
        0 <= nearest_even(a, b),
        nearest_even(a, b) * b <= a + b,
{
    vstd::arithmetic::div_mod::lemma_fundamental_div_mod(a, b);
    let q = a / b;
    assert(q * b <= a && q >= 0 && (q + 1) * b <= a + b) by (nonlinear_arith)
        requires
            a == b * q + a % b,
            0 <= a % b < b,
            a >= 0,
            q == a / b,
            b >= 1,
    ;
}

/// The tenths of a 64-bit size in a large unit fit 64 bits.
proof fn lemma_tenths_fit(kept: int, power: int, unit: int, m: int, t: int)
    requires
        1 <= kept <= 0x1_0000_0000_0000_0000,
        power >= 1,
        unit >= 1_000_000,
        m >= 0,
        m * unit <= kept * power + unit,
        t >= 0,
        t * power <= 10 * m + power,
    ensures
        t < 0x1_0000_0000_0000_0000,
{
    assert(t * power * unit <= 10 * kept * power + 10 * unit + power * unit) by (nonlinear_arith)
        requires
            t * power <= 10 * m + power,
            m * unit <= kept * power + unit,
            unit >= 1,
    ;
    if t >= 0x1_0000_0000_0000_0000 {
        assert(t * power * unit >= 0x1_0000_0000_0000_0000 * (power * unit)) by (nonlinear_arith)
            requires
                t >= 0x1_0000_0000_0000_0000,
                power >= 1,
                unit >= 1,
        ;
        assert(10 * kept * power + 10 * unit + power * unit < 0x1_0000_0000_0000_0000 * (power
            * unit)) by (nonlinear_arith)
            requires
                1 <= kept <= 0x1_0000_0000_0000_0000,
                power >= 1,
                unit >= 1_000_000,
        ;
    }
}

/// Appends a size in some unit, with one decimal place.
pub fn push_one_decimal(out: &mut String, n: u64, unit: u64)
    requires
        unit == MEGA || unit == GIGA,
    ensures
        final(out)@ == old(out)@ + one_decimal(tenths(n, unit)),
{
    let t: u64 = tenths_of(n, unit);
    push_decimal(out, t / 10);
    out.append(".");
    push_decimal(out, t % 10);
    assert(out@ =~= old(out)@ + one_decimal(tenths(n, unit)));
}

/// Rounding gives a nearest integer, and of two that are equally near the even one.
pub proof fn law_rounding_is_to_the_nearest(a: int, b: int)
    requires
        b > 0,
    ensures
        2 * (nearest_even(a, b) * b - a) <= b,
        2 * (a - nearest_even(a, b) * b) <= b,
        2 * (nearest_even(a, b) * b - a) == b ==> nearest_even(a, b) % 2 == 0,
        2 * (a - nearest_even(a, b) * b) == b ==> nearest_even(a, b) % 2 == 0,
{
    lemma_fundamental_div_mod(a, b);
    let q = a / b;
    assert(q * b == b * q && (q + 1) * b == b * q + b) by (nonlinear_arith);
}

/// What is shown is the size to the nearest tenth: the tenths differ from ten times the quotient
/// by no more than one half, but for what the 53 bits of the numbers leave open.
pub proof fn law_shown_tenths_are_close(n: u64, unit: u64)
    requires
        unit == 1_000_000 || unit == 1_000_000_000,
    ensures
        tenths(n, unit) >= 0,
        n < 0x20_0000_0000_0000 ==> 2 * (tenths(n, unit) * unit - 10 * n) <= unit + 20,
        n < 0x20_0000_0000_0000 ==> 2 * (10 * n - tenths(n, unit) * unit) <= unit + 20,
        2 * (tenths(n, unit) * unit - 10 * n) <= unit + 200_000,
        2 * (10 * n - tenths(n, unit) * unit) <= unit + 200_000,
{
    let a = to_53_bits(n as int);
    let u = unit as int;
    lemma_kept_is_close(n as int);
    let e = doublings(a, u * FULL);
    let p = two_to(e);
    lemma_two_to(e);
    let m = nearest_even(a * p, u);
    let t = tenths(n, unit);
    assert(t == nearest_even(10 * m, p));
    law_rounding_is_to_the_nearest(a * p, u);
    law_rounding_is_to_the_nearest(10 * m, p);
    if a == 0 {
        assert(n == 0);
        assert(e == 0 && p == 1);
        assert(a * p == 0);
        assert(m == 0) by {
            assert(0int / u == 0 && 0int % u == 0);
        }
        assert(t == 0);
    } else {
        lemma_doublings_reach(a, u * FULL);
        assert(a * p >= u * FULL);
        if n < 0x20_0000_0000_0000 {
            lemma_close(a, p, u, m, t, 2);
        }
        lemma_close(a, p, u, m, t, 0x1000);
    }
}

/// To 53 bits a number of 64 bits changes by little, and a number of 53 bits not at all.
proof fn lemma_kept_is_close(n: int)
    requires
        0 <= n < 0x1_0000_0000_0000_0000,
    ensures
        n < 0x20_0000_0000_0000 ==> to_53_bits(n) == n,
        0 <= to_53_bits(n) <= 0x1_0000_0000_0000_0000,
        n > 0 ==> to_53_bits(n) > 0,
        -1024 <= to_53_bits(n) - n <= 1024,
{
    let scale = two_to(halvings(n, 2 * FULL));
    lemma_halvings(n, 2 * FULL);
    lemma_two_to(halvings(n, 2 * FULL));
    lemma_53_bound(n, scale, nearest_even(n, scale));
    law_rounding_is_to_the_nearest(n, scale);
    if n < 0x20_0000_0000_0000 {
        assert(halvings(n, 2 * FULL) == 0);
        assert(two_to(0) == 1);
        law_rounding_is_to_the_nearest(n, 1);
    }
}

/// As many doublings as are counted reach the bound.
proof fn lemma_doublings_reach(a: int, least: int)
    requires
        a > 0,
    ensures
        a * two_to(doublings(a, least)) >= least,
    decreases
            if a < least {
                least - a
            } else {
                0
            },
{
    if a < least {
        lemma_doublings_reach(2 * a, least);
        let d = doublings(2 * a, least);
        assert(doublings(a, least) == d + 1);
        assert(two_to(d + 1) == 2 * two_to(d));
        assert(a * (2 * two_to(d)) == (2 * a) * two_to(d)) by (nonlinear_arith);
    } else {
        assert(two_to(0) == 1);
    }
}

/// Two roundings stay close.
proof fn lemma_close(a: int, p: int, u: int, m: int, t: int, slack: int)
    requires
        0 < a <= slack * 0x10_0000_0000_0000,
        p >= 1,
        u > 0,
        slack >= 1,
        a * p >= u * 0x10_0000_0000_0000,
        2 * (m * u - a * p) <= u,
        2 * (a * p - m * u) <= u,
        2 * (t * p - 10 * m) <= p,
        2 * (10 * m - t * p) <= p,
    ensures
        2 * (t * u - 10 * a) <= u + 10 * slack,
        2 * (10 * a - t * u) <= u + 10 * slack,
        t >= 0,
{
    // With both roundings, 2 * (t * p * u - 10 * a * p) is at most p * u + 10 * u; and u is at
    // most slack * p, as a * p is at least 2^52 * u.
    assert(u <= slack * p) by (nonlinear_arith)
        requires
            0 < a <= slack * 0x10_0000_0000_0000,
            a * p >= u * 0x10_0000_0000_0000,
            p >= 1,
    ;
    let x = t * u - 10 * a;
    assert(x * p == (t * p - 10 * m) * u + 10 * (m * u - a * p)) by (nonlinear_arith)
        requires
            x == t * u - 10 * a,
    ;
    assert(2 * ((t * p - 10 * m) * u) <= p * u && -(p * u) <= 2 * ((t * p - 10 * m) * u))
        by (nonlinear_arith)
        requires
            2 * (t * p - 10 * m) <= p,
            2 * (10 * m - t * p) <= p,
            u > 0,
    ;
    assert(2 * (x * p) <= p * u + 10 * u && -(p * u + 10 * u) <= 2 * (x * p));
    let y = u + 10 * slack;
    assert(y * p == p * u + 10 * (slack * p)) by (nonlinear_arith)
        requires
            y == u + 10 * slack,
    ;
    assert(2 * (x * p) <= y * p && -(y * p) <= 2 * (x * p));
    assert(2 * x <= y && -y <= 2 * x) by (nonlinear_arith)
        requires
            2 * (x * p) <= y * p,
            -(y * p) <= 2 * (x * p),
            p >= 1,
    ;
    assert(m >= 0) by (nonlinear_arith)
        requires
            2 * (a * p - m * u) <= u,
            a * p >= u * 0x10_0000_0000_0000,
            u > 0,
    ;
    assert(t >= 0) by (nonlinear_arith)
        requires
            2 * (10 * m - t * p) <= p,
            m >= 0,
            p >= 1,
    ;
}

/// A size of so many tenths of a unit is shown as just these: the whole units, a point, and the
/// tenths that are left.
pub proof fn law_whole_tenths_are_shown_exactly(n: u64, unit: u64, t: int)
    requires
        unit == 1_000_000 || unit == 1_000_000_000,
        n < 0x20_0000_0000_0000,
        10 * n == t * unit,
    ensures
        tenths(n, unit) == t,
{
    law_shown_tenths_are_close(n, unit);
    let s = tenths(n, unit);
    assert(s == t) by (nonlinear_arith)
        requires
            2 * (s * unit - t * unit) <= unit + 20,
            2 * (t * unit - s * unit) <= unit + 20,
            unit > 20,
    ;
}

/// Tenths are written as the whole part, a point, and a single digit.
pub proof fn law_tenths_are_written_in_two_parts(t: int)
    requires
        t >= 0,
    ensures
        one_decimal(t) == decimal((t / 10) as nat) + "."@ + decimal((t % 10) as nat),
        one_decimal(t).last() as u32 == 48 + t % 10,
{
    law_decimals_end_with_their_last_digit((t % 10) as nat);
    assert(one_decimal(t).last() == decimal((t % 10) as nat).last());
}

/// Numbers of more than 53 bits are taken to 53: the change is at most half of the scale, which is
/// a power of two that leaves 53 bits.
pub proof fn law_large_numbers_keep_53_bits(n: int)
    requires
        0x20_0000_0000_0000 <= n < 0x1_0000_0000_0000_0000,
    ensures
        exists|scale: int| #[trigger]
            keeps_53_bits(n, scale) && 2 * (to_53_bits(n) - n) <= scale && 2 * (n - to_53_bits(n))
                <= scale && to_53_bits(n) % scale == 0,
{
    let scale = two_to(halvings(n, 2 * FULL));
    lemma_two_to(halvings(n, 2 * FULL));
    lemma_halvings_div(n, 2 * FULL);
    lemma_halvings_reach(n, 2 * FULL);
    assert(keeps_53_bits(n, scale));
    law_rounding_is_to_the_nearest(n, scale);
    vstd::arithmetic::div_mod::lemma_mod_multiples_basic(nearest_even(n, scale), scale);
}

/// Whether a scale leaves 53 bits of a number.
pub open spec fn keeps_53_bits(n: int, scale: int) -> bool {
    &&& scale > 0
    &&& 0x10_0000_0000_0000 <= n / scale < 0x20_0000_0000_0000
}

} // verus!
