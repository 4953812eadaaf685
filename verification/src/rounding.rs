//! Arithmetic as binary64 numbers do it, on whole numbers: a quantity is kept
//! to its 53 leading binary digits, and what lies halfway goes to the even
//! neighbour.

use vstd::arithmetic::div_mod::{
    lemma_fundamental_div_mod, lemma_fundamental_div_mod_converse,
};
use vstd::arithmetic::power2::{
    lemma_pow2_adds, lemma_pow2_pos, lemma_pow2_strictly_increases, lemma_pow2_unfold, pow2,
};
use vstd::prelude::*;

verus! {

/// How many binary digits `n` has.
pub open spec fn bits(n: nat) -> nat
    decreases n,
{
    if n == 0 {
        0
    } else {
        1 + bits(n / 2)
    }
}

/// How many of the binary digits of `n` lie beyond the 53 leading ones.
pub open spec fn excess(n: nat) -> nat {
    if bits(n) > 53 {
        (bits(n) - 53) as nat
    } else {
        0
    }
}

/// The whole number nearest to `p / q`; of two equally near ones the even one.
pub open spec fn nearest_even(p: nat, q: nat) -> nat {
    let below = p / q;
    let rest = p % q;
    if 2 * rest < q || (2 * rest == q && below % 2 == 0) {
        below
    } else {
        below + 1
    }
}

/// `p / q` kept to its 53 leading binary digits, for a quotient that is whole
/// or has that many digits before the point.
pub open spec fn round53(p: nat, q: nat) -> nat {
    let unit = pow2(excess(p / q));
    nearest_even(p, q * unit) * unit
}

/// The whole number `n` as a binary64 number.
pub open spec fn double_of(n: nat) -> nat {
    round53(n, 1)
}

/// A number with `d` binary digits lies between two powers of two.
proof fn lemma_bits_bounds(n: nat)
    ensures
        n < pow2(bits(n)),
        n > 0 ==> bits(n) > 0 && pow2((bits(n) - 1) as nat) <= n,
    decreases n,
{
    if n == 0 {
        lemma_pow2_pos(0);
    } else {
        lemma_bits_bounds(n / 2);
        lemma_pow2_unfold(bits(n));
        if n / 2 > 0 {
            lemma_pow2_unfold((bits(n) - 1) as nat);
        } else {
            assert(n == 1);
            assert(bits(n / 2) == 0);
            vstd::arithmetic::power2::lemma2_to64();
        }
    }
}

proof fn lemma_pow2_monotone(a: nat, b: nat)
    requires
        a <= b,
    ensures
        pow2(a) <= pow2(b),
{
    if a < b {
        lemma_pow2_strictly_increases(a, b);
    }
}

/// The powers of two around a number fix how many binary digits it has.
proof fn lemma_bits_is(n: nat, d: nat)
    requires
        pow2(d) <= n < pow2(d + 1),
    ensures
        bits(n) == d + 1,
{
    lemma_pow2_pos(d);
    lemma_bits_bounds(n);
    if bits(n) <= d {
        lemma_pow2_monotone(bits(n), d);
    }
    if bits(n) > d + 1 {
        lemma_pow2_monotone(d + 1, (bits(n) - 1) as nat);
    }
}

/// `p / q` lies in `f..f + 1`.
proof fn lemma_floor(p: nat, q: nat)
    requires
        q > 0,
    ensures
        (p / q) * q <= p < (p / q + 1) * q,
        p == (p / q) * q + p % q,
        p % q < q,
{
    lemma_fundamental_div_mod(p as int, q as int);
    assert((p / q) * q <= p < (p / q + 1) * q) by (nonlinear_arith)
        requires
            p == q * (p / q) + p % q,
            0 <= p % q < q,
    ;
    assert((p / q) * q == q * (p / q)) by (nonlinear_arith);
}

proof fn lemma_floor_is(p: nat, q: nat, f: nat)
    requires
        q > 0,
        f * q <= p < (f + 1) * q,
    ensures
        p / q == f,
        p % q == p - f * q,
{
    let r = p - f * q;
    assert((f + 1) * q == f * q + q) by (nonlinear_arith);
    assert(f * q == q * f) by (nonlinear_arith);
    lemma_fundamental_div_mod_converse(p as int, q as int, f as int, r as int);
}

/// Rounding depends on the quotient alone.
proof fn lemma_nearest_even_ratio(x: nat, y: nat, p: nat, q: nat)
    requires
        y > 0,
        q > 0,
        x * q == p * y,
    ensures
        nearest_even(x, y) == nearest_even(p, q),
        x / y == p / q,
{
    let f = p / q;
    let r = p % q;
    lemma_floor(p, q);
    assert(f * y <= x < (f + 1) * y) by (nonlinear_arith)
        requires
            f * q <= p < (f + 1) * q,
            x * q == p * y,
            y > 0,
            q > 0,
    ;
    lemma_floor_is(x, y, f);
    let s = x % y;
    assert(s * q == r * y) by (nonlinear_arith)
        requires
            s == x - f * y,
            p == f * q + r,
            x * q == p * y,
    ;
    assert((2 * s < y) == (2 * r < q) && (2 * s == y) == (2 * r == q)) by (nonlinear_arith)
        requires
            s * q == r * y,
            y > 0,
            q > 0,
    ;
}

proof fn lemma_powers()
    ensures
        pow2(0) == 1,
        pow2(1) == 2,
        pow2(6) == 64,
        pow2(7) == 128,
        pow2(11) == 0x800,
        pow2(20) == 0x10_0000,
        pow2(31) == 0x8000_0000,
        pow2(30) == 0x4000_0000,
        pow2(52) == 0x10_0000_0000_0000,
        pow2(53) == 0x20_0000_0000_0000,
        pow2(58) == 0x400_0000_0000_0000,
        pow2(59) == 0x800_0000_0000_0000,
        pow2(60) == 0x1000_0000_0000_0000,
        pow2(64) == 0x1_0000_0000_0000_0000,
{
    vstd::arithmetic::power2::lemma2_to64();
    vstd::arithmetic::power2::lemma2_to64_rest();
}

/// The whole number nearest to `p / q`; of two equally near ones the even one.
pub fn round_half_even(p: u128, q: u128) -> (res: u128)
    requires
        0 < q <= 0x4000_0000_0000_0000_0000_0000_0000_0000,
        p <= 0x4000_0000_0000_0000_0000_0000_0000_0000,
    ensures
        res == nearest_even(p as nat, q as nat),
{
    let below: u128 = p / q;
    let rest: u128 = p % q;
    proof {
        lemma_floor(p as nat, q as nat);
        assert(below <= p) by (nonlinear_arith)
            requires
                below * q <= p,
                q > 0,
        ;
    }
    if 2 * rest < q || (2 * rest == q && below % 2 == 0) {
        below
    } else {
        below + 1
    }
}

proof fn lemma_excess_is(n: nat, m: nat, k: nat)
    requires
        bits(n) == bits(m) + k,
        m < pow2(53),
        k > 0 ==> m >= pow2(52),
    ensures
        excess(n) == k,
{
    lemma_bits_bounds(m);
    if bits(m) > 53 {
        lemma_pow2_monotone(53, (bits(m) - 1) as nat);
    }
    if k > 0 {
        lemma_bits_is(m, 52);
    }
}

/// A number as a binary64 number.
pub fn to_double(n: u128) -> (res: u128)
    requires
        n < 0x10_0000_0000_0000_0000_0000,
    ensures
        res == double_of(n as nat),
        res <= 0x10_0000_0000_0000_0000_0000,
        n < 0x1_0000_0000_0000_0000 ==> res <= 0x1_0000_0000_0000_0000,
        n > 0 ==> res > 0,
{
    let mut m: u128 = n;
    let mut unit: u128 = 1;
    let ghost mut k: nat = 0;
    proof {
        lemma_powers();
    }
    while m >= 0x20_0000_0000_0000
        invariant
            bits(n as nat) == bits(m as nat) + k,
            unit == pow2(k),
            k > 0 ==> m >= 0x10_0000_0000_0000,
            unit * m <= n,
            n < 0x10_0000_0000_0000_0000_0000,
        decreases m,
    {
        proof {
            lemma_pow2_unfold(k + 1);
            assert(2 * unit * (m / 2) <= n) by (nonlinear_arith)
                requires
                    unit * m <= n,
                    2 * (m / 2) <= m,
                    unit >= 0,
            ;
            assert(unit <= n) by (nonlinear_arith)
                requires
                    unit * m <= n,
                    m >= 1,
            ;
        }
        m = m / 2;
        unit = 2 * unit;
        proof {
            k = k + 1;
        }
    }
    proof {
        lemma_powers();
        lemma_excess_is(n as nat, m as nat, k);
        assert(n as nat / 1 == n);
        lemma_pow2_pos(k);
        lemma_pow2_adds(20, 64);
        lemma_double_bound(n as nat, k, 84);
        if n < 0x1_0000_0000_0000_0000 {
            lemma_double_bound(n as nat, k, 64);
        }
        lemma_double_positive(n as nat);
    }
    let whole: u128 = round_half_even(n, unit);
    assert(1 * unit == unit);
    whole * unit
}

/// A number of at most `digits` binary digits is at most two to the power of
/// `digits` as a binary64 number.
proof fn lemma_double_bound(n: nat, k: nat, digits: nat)
    requires
        53 <= digits,
        n < pow2(digits),
        k == excess(n),
    ensures
        double_of(n) <= pow2(digits),
        nearest_even(n, pow2(k)) * pow2(k) == double_of(n),
        pow2(k) <= pow2((digits - 53) as nat),
{
    assert(n / 1 == n);
    assert(1 * pow2(k) == pow2(k));
    lemma_pow2_pos(k);
    lemma_bits_bounds(n);
    if bits(n) > digits {
        lemma_pow2_monotone(digits, (bits(n) - 1) as nat);
    }
    lemma_pow2_monotone(k, (digits - 53) as nat);
    let c = pow2((digits - k) as nat);
    lemma_pow2_adds((digits - k) as nat, k);
    lemma_floor(n, pow2(k));
    let f = n / pow2(k);
    assert(f + 1 <= c) by (nonlinear_arith)
        requires
            f * pow2(k) <= n,
            n < c * pow2(k),
            pow2(k) > 0,
    ;
    assert((f + 1) * pow2(k) <= c * pow2(k)) by (nonlinear_arith)
        requires
            f + 1 <= c,
    ;
    assert(f * pow2(k) <= (f + 1) * pow2(k)) by (nonlinear_arith);
}

proof fn lemma_double_positive(n: nat)
    ensures
        n > 0 ==> double_of(n) > 0,
{
    let k = excess(n);
    assert(n / 1 == n);
    assert(1 * pow2(k) == pow2(k));
    lemma_pow2_pos(k);
    if n > 0 {
        lemma_bits_bounds(n);
        lemma_floor(n, pow2(k));
        if k > 0 {
            lemma_pow2_monotone(k, (bits(n) - 1) as nat);
        } else {
            lemma_powers();
        }
        let f = n / pow2(k);
        assert(f >= 1) by (nonlinear_arith)
            requires
                pow2(k) <= n,
                n < (f + 1) * pow2(k),
        ;
        assert(nearest_even(n, pow2(k)) * pow2(k) > 0) by (nonlinear_arith)
            requires
                nearest_even(n, pow2(k)) >= 1,
                pow2(k) > 0,
        ;
    }
}

/// Fractions are counted in units of two to the minus 128th.
pub open spec fn one() -> nat {
    pow2(128)
}

/// The quotient of two whole numbers as a binary64 number, in units of
/// `1 / one()`.
pub open spec fn quotient(a: nat, b: nat) -> nat {
    round53(a * one(), b)
}

/// A hundred times a binary64 number, as a binary64 number.
pub open spec fn times_hundred(x: nat) -> nat {
    round53(x * 100, 1)
}

/// The whole number nearest to `x`; of two equally near ones the larger.
pub open spec fn whole(x: nat) -> nat {
    (2 * x + one()) / (2 * one())
}

/// A binary64 number above zero: `digits` times two to the `shift`, in units
/// of `1 / one()`.
struct Double {
    digits: u64,
    shift: u32,
}

impl Double {
    spec fn value(self) -> nat {
        self.digits as nat * pow2(self.shift as nat)
    }

    /// All 53 leading digits are in use.
    spec fn is_full(self) -> bool {
        0x10_0000_0000_0000 <= self.digits <= 0x20_0000_0000_0000
    }
}

/// The rounded quotient of two numbers, once both are scaled so that it has
/// 53 binary digits before the point.
proof fn lemma_quotient(a: nat, b: nat, p: nat, q: nat, k: nat)
    requires
        b > 0,
        q > 0,
        a * one() * q == p * (b * pow2(k)),
        q * pow2(52) <= p < q * pow2(53),
    ensures
        quotient(a, b) == nearest_even(p, q) * pow2(k),
        pow2(52) <= nearest_even(p, q) <= pow2(53),
{
    let x = a * one();
    let unit = pow2(k);
    lemma_pow2_pos(k);
    let low = pow2(52 + k);
    let high = pow2(53 + k);
    lemma_pow2_adds(52, k);
    lemma_pow2_adds(53, k);
    assert(low * b <= x < high * b) by (nonlinear_arith)
        requires
            x * q == p * (b * unit),
            q * pow2(52) <= p < q * pow2(53),
            low == pow2(52) * unit,
            high == pow2(53) * unit,
            unit > 0,
            b > 0,
            q > 0,
    ;
    lemma_floor(x, b);
    let f = x / b;
    assert(low <= f < high) by (nonlinear_arith)
        requires
            low * b <= x < high * b,
            f * b <= x < (f + 1) * b,
            b > 0,
    ;
    assert(53 + k == 52 + k + 1);
    lemma_bits_is(f, 52 + k);
    assert(excess(f) == k);
    assert(b * unit > 0) by (nonlinear_arith)
        requires
            b > 0,
            unit > 0,
    ;
    lemma_nearest_even_ratio(x, b * unit, p, q);
    lemma_floor(p, q);
    let g = p / q;
    assert(pow2(52) <= g < pow2(53)) by (nonlinear_arith)
        requires
            q * pow2(52) <= p < q * pow2(53),
            g * q <= p < (g + 1) * q,
            q > 0,
    ;
}

/// Divides two binary64 numbers that are whole.
fn divide(a: u128, b: u128) -> (res: Double)
    requires
        0 < a <= 0x1_0000_0000_0000_0000,
        0 < b <= 0x1_0000_0000_0000_0000,
    ensures
        res.value() == quotient(a as nat, b as nat),
        res.is_full(),
        12 <= res.shift <= 140,
{
    let mut p: u128 = a;
    let mut q: u128 = b;
    let mut shift: u32 = 128;
    proof {
        lemma_powers();
        assert(a * one() * b == a * (b * one())) by (nonlinear_arith);
    }
    while p >= q * 0x20_0000_0000_0000
        invariant
            a * one() * q == p * (b * pow2(shift as nat)),
            p == a <= 0x1_0000_0000_0000_0000,
            0 < q <= 0x1_0000_0000_0000_0000,
            pow2((shift - 128) as nat) <= q,
            128 <= shift <= 140,
            pow2(11) == 0x800,
        decreases 140 - shift,
    {
        proof {
            let s = shift as nat;
            lemma_pow2_unfold(s + 1);
            lemma_pow2_unfold((shift - 128 + 1) as nat);
            if shift == 140 {
                lemma_pow2_unfold(12);
            }
            assert(a * one() * (2 * q) == p * (b * (2 * pow2(s)))) by (nonlinear_arith)
                requires
                    a * one() * q == p * (b * pow2(s)),
            ;
        }
        q = 2 * q;
        shift += 1;
    }
    let ghost start = shift;
    let ghost doubled: nat = 0;
    assert(pow2(0) == 1) by {
        lemma_powers();
    }
    while p < q * 0x10_0000_0000_0000
        invariant
            a * one() * q == p * (b * pow2(shift as nat)),
            0 < q <= 0x1_0000_0000_0000_0000,
            p < q * 0x20_0000_0000_0000,
            p >= pow2(doubled),
            128 <= start <= 140,
            shift == start - doubled,
            doubled <= 116,
        decreases shift,
    {
        proof {
            lemma_pow2_unfold(doubled + 1);
            lemma_pow2_unfold(shift as nat);
            if doubled == 116 {
                lemma_powers();
                lemma_pow2_adds(64, 52);
            }
            let s = (shift - 1) as nat;
            assert(a * one() * q == (2 * p) * (b * pow2(s))) by (nonlinear_arith)
                requires
                    a * one() * q == p * (b * pow2(s + 1)),
                    pow2(s + 1) == 2 * pow2(s),
            ;
            doubled = doubled + 1;
        }
        p = 2 * p;
        shift -= 1;
    }
    proof {
        lemma_powers();
        lemma_quotient(a as nat, b as nat, p as nat, q as nat, shift as nat);
    }
    let digits: u128 = round_half_even(p, q);
    Double { digits: digits as u64, shift }
}

/// A hundred times a number whose digits are `m`, and what they are then.
proof fn lemma_times_hundred(m: nat, k: nat, j: nat)
    requires
        pow2(52 + j) <= m * 100 < pow2(53 + j),
        j > 0,
    ensures
        times_hundred(m * pow2(k)) == nearest_even(m * 100, pow2(j)) * pow2(k + j),
        pow2(52) <= nearest_even(m * 100, pow2(j)) <= pow2(53),
{
    let n = m * 100;
    let unit = pow2(k);
    let x = m * unit * 100;
    assert(x == n * unit) by (nonlinear_arith)
        requires
            x == m * unit * 100,
            n == m * 100,
    ;
    lemma_pow2_pos(k);
    lemma_pow2_pos(j);
    lemma_pow2_pos(k + j);
    lemma_pow2_adds(52 + j, k);
    lemma_pow2_adds(53 + j, k);
    assert(pow2(52 + j) * unit <= x < pow2(53 + j) * unit) by (nonlinear_arith)
        requires
            pow2(52 + j) <= n < pow2(53 + j),
            x == n * unit,
            unit > 0,
    ;
    assert(52 + j + k + 1 == 53 + j + k);
    lemma_bits_is(x, 52 + j + k);
    assert(x / 1 == x);
    assert(excess(x) == k + j);
    assert(1 * pow2(k + j) == pow2(k + j));
    lemma_pow2_adds(k, j);
    assert(x * pow2(j) == n * pow2(k + j)) by (nonlinear_arith)
        requires
            x == n * unit,
            pow2(k + j) == unit * pow2(j),
    ;
    lemma_nearest_even_ratio(x, pow2(k + j), n, pow2(j));
    lemma_pow2_adds(52, j);
    lemma_pow2_adds(53, j);
    lemma_floor(n, pow2(j));
    let f = n / pow2(j);
    assert(pow2(52) <= f < pow2(53)) by (nonlinear_arith)
        requires
            pow2(52) * pow2(j) <= n < pow2(53) * pow2(j),
            f * pow2(j) <= n < (f + 1) * pow2(j),
            pow2(j) > 0,
    ;
}

impl Double {
    /// A hundred times the number.
    fn hundredfold(&self) -> (res: Double)
        requires
            self.is_full(),
            self.shift <= 240,
        ensures
            res.value() == times_hundred(self.value()),
            res.is_full(),
            self.shift <= res.shift <= self.shift + 7,
    {
        let n: u64 = self.digits * 100;
        proof {
            lemma_powers();
        }
        if n >= 0x800_0000_0000_0000 {
            proof {
                lemma_times_hundred(self.digits as nat, self.shift as nat, 7);
            }
            let digits: u128 = round_half_even(n as u128, 128);
            Double { digits: digits as u64, shift: self.shift + 7 }
        } else {
            proof {
                lemma_times_hundred(self.digits as nat, self.shift as nat, 6);
            }
            let digits: u128 = round_half_even(n as u128, 64);
            Double { digits: digits as u64, shift: self.shift + 6 }
        }
    }
}

/// Two to the `e`th.
fn power_of_two(e: u32) -> (res: u128)
    requires
        e <= 126,
    ensures
        res == pow2(e as nat),
{
    let mut res: u128 = 1;
    let mut i: u32 = 0;
    proof {
        lemma_powers();
    }
    while i < e
        invariant
            i <= e <= 126,
            res == pow2(i as nat),
        decreases e - i,
    {
        proof {
            lemma_pow2_unfold((i + 1) as nat);
            lemma_pow2_monotone((i + 1) as nat, 126);
            lemma_pow2_adds(64, 62);
            lemma_pow2_adds(60, 2);
            lemma_pow2_adds(1, 1);
            lemma_powers();
        }
        res = 2 * res;
        i += 1;
    }
    res
}

impl Double {
    /// The whole number nearest to the number, away from zero at half.
    fn to_whole(&self) -> (res: u128)
        requires
            self.is_full(),
            12 <= self.shift <= 160,
        ensures
            res == whole(self.value()),
    {
        proof {
            lemma_powers();
            lemma_pow2_pos(128);
        }
        let ghost m = self.digits as nat;
        let ghost k = self.shift as nat;
        let ghost top = 2 * self.value() + one();
        if self.shift >= 128 {
            let e: u32 = self.shift - 128;
            let unit: u128 = power_of_two(e);
            proof {
                lemma_pow2_monotone(e as nat, 60);
                lemma_pow2_adds(e as nat, 128);
                let u = unit as nat;
                assert(m * u <= 0x20_0000_0000_0000 * 0x1000_0000_0000_0000) by (nonlinear_arith)
                    requires
                        m <= 0x20_0000_0000_0000,
                        u <= 0x1000_0000_0000_0000,
                ;
                assert((m * u) * (2 * one()) <= top < (m * u + 1) * (2 * one())) by (nonlinear_arith)
                    requires
                        top == 2 * (m * (u * one())) + one(),
                        one() > 0,
                ;
                lemma_floor_is(top, 2 * one(), m * u);
            }
            self.digits as u128 * unit
        } else {
            let t: u32 = 128 - self.shift;
            let unit: u128 = power_of_two(t);
            let half: u128 = power_of_two(t - 1);
            proof {
                lemma_pow2_adds(k, t as nat);
                lemma_pow2_unfold(t as nat);
                lemma_pow2_monotone((t - 1) as nat, 115);
                lemma_pow2_pos(t as nat);
                lemma_pow2_adds(64, 51);
                lemma_pow2_pos(51);
                lemma_pow2_monotone(51, 52);
                let u = unit as nat;
                let h = half as nat;
                assert(top * u == (m + h) * (2 * one())) by (nonlinear_arith)
                    requires
                        top == 2 * (m * pow2(k)) + one(),
                        one() == pow2(k) * u,
                        u == 2 * h,
                ;
                lemma_nearest_even_ratio(top, 2 * one(), m + h, u);
            }
            (self.digits as u128 + half) / unit
        }
    }

    /// A thousand times the number, to the nearest whole number, even at
    /// half.
    fn to_thousandths(&self) -> (res: u128)
        requires
            self.is_full(),
            12 <= self.shift <= 140,
        ensures
            res == nearest_even(self.value() * 1000, one()),
    {
        proof {
            lemma_powers();
            lemma_pow2_pos(128);
        }
        let ghost m = self.digits as nat;
        let ghost k = self.shift as nat;
        let ghost top = self.value() * 1000;
        let n: u128 = self.digits as u128 * 1000;
        if self.shift >= 128 {
            let e: u32 = self.shift - 128;
            let unit: u128 = power_of_two(e);
            proof {
                lemma_pow2_monotone(e as nat, 30);
                lemma_pow2_adds(e as nat, 128);
                let u = unit as nat;
                let c = n as nat;
                assert(c * u <= 0x20_0000_0000_0000 * 1000 * 0x4000_0000) by (nonlinear_arith)
                    requires
                        c <= 0x20_0000_0000_0000 * 1000,
                        u <= 0x4000_0000,
                ;
                assert(top == (c * u) * one()) by (nonlinear_arith)
                    requires
                        top == m * (u * one()) * 1000,
                        c == m * 1000,
                ;
                assert((c * u) * one() < (c * u + 1) * one()) by (nonlinear_arith)
                    requires
                        one() > 0,
                ;
                lemma_floor_is(top, one(), c * u);
            }
            n * unit
        } else {
            let t: u32 = 128 - self.shift;
            let unit: u128 = power_of_two(t);
            proof {
                lemma_pow2_adds(k, t as nat);
                lemma_pow2_pos(t as nat);
                lemma_pow2_monotone(t as nat, 116);
                lemma_pow2_adds(64, 52);
                let u = unit as nat;
                let c = n as nat;
                assert(top * u == c * one()) by (nonlinear_arith)
                    requires
                        top == m * pow2(k) * 1000,
                        one() == pow2(k) * u,
                        c == m * 1000,
                ;
                lemma_nearest_even_ratio(top, one(), c, u);
            }
            round_half_even(n, unit)
        }
    }
}

/// What part of `total` is `used`, in hundredths of a percent: the quotient
/// as a binary64 number, a hundred times that, and again, then to the
/// nearest whole number.
pub open spec fn percent_hundredths_spec(used: nat, total: nat) -> nat {
    whole(times_hundred(times_hundred(quotient(double_of(used), double_of(total)))))
}

/// `bytes` in hundredths of a gigabyte.
pub open spec fn gb_hundredths_spec(bytes: nat) -> nat {
    whole(times_hundred(quotient(double_of(bytes), 0x4000_0000)))
}

/// `n` thousandths, to three decimals, in thousandths.
pub open spec fn thousandths_spec(n: nat) -> nat {
    nearest_even(quotient(double_of(n), 1000) * 1000, one())
}

/// `bytes` in hundredths of `unit`, to the nearest, even at half.
pub open spec fn size_hundredths_spec(bytes: nat, unit: nat) -> nat {
    nearest_even(double_of(bytes) * 100, unit)
}

proof fn lemma_zero_over(q: nat)
    requires
        q > 0,
    ensures
        0nat / q == 0,
        nearest_even(0, q) == 0,
{
    assert(0 * q == 0 && (0 + 1) * q == q) by (nonlinear_arith);
    lemma_floor_is(0, q, 0);
}

proof fn lemma_zero(b: nat)
    requires
        b > 0,
    ensures
        double_of(0) == 0,
        quotient(0, b) == 0,
        times_hundred(0) == 0,
        whole(0) == 0,
{
    lemma_pow2_pos(128);
    assert forall|q: nat| q > 0 implies #[trigger] round53(0, q) == 0 by {
        lemma_zero_over(q);
        let unit = pow2(excess(0));
        lemma_pow2_pos(excess(0));
        assert(q * unit > 0) by (nonlinear_arith)
            requires
                q > 0,
                unit > 0,
        ;
        lemma_zero_over(q * unit);
        assert(0 * unit == 0) by (nonlinear_arith);
    }
    assert(0 * one() == 0) by (nonlinear_arith);
    assert(0 * (2 * one()) == 0 && (0 + 1) * (2 * one()) == 2 * one()) by (nonlinear_arith);
    lemma_floor_is(2 * 0 + one(), 2 * one(), 0);
}

/// What part of `total` is `used`, in hundredths of a percent.
pub fn percent_hundredths(used: u64, total: u64) -> (res: u128)
    requires
        total > 0,
    ensures
        res == percent_hundredths_spec(used as nat, total as nat),
{
    let a: u128 = to_double(used as u128);
    let b: u128 = to_double(total as u128);
    if used == 0 {
        proof {
            lemma_zero(b as nat);
        }
        return 0;
    }
    let share = divide(a, b);
    let percent = share.hundredfold();
    percent.hundredfold().to_whole()
}

/// `bytes` in hundredths of a gigabyte.
pub fn gb_hundredths(bytes: u64) -> (res: u128)
    ensures
        res == gb_hundredths_spec(bytes as nat),
{
    if bytes == 0 {
        proof {
            lemma_zero(0x4000_0000);
        }
        return 0;
    }
    divide(to_double(bytes as u128), 0x4000_0000).hundredfold().to_whole()
}

/// `n` thousandths, to three decimals, in thousandths.
pub fn thousandths(n: u64) -> (res: u128)
    ensures
        res == thousandths_spec(n as nat),
{
    if n == 0 {
        proof {
            lemma_zero(1000);
            lemma_pow2_pos(128);
            lemma_zero_over(one());
        }
        return 0;
    }
    divide(to_double(n as u128), 1000).to_thousandths()
}

/// `bytes` in hundredths of `unit`.
pub fn size_hundredths(bytes: u128, unit: u64) -> (res: u128)
    requires
        bytes < 0x10_0000_0000_0000_0000_0000,
        unit > 0,
    ensures
        res == size_hundredths_spec(bytes as nat, unit as nat),
{
    round_half_even(to_double(bytes) * 100, unit as u128)
}

proof fn lemma_nearest_even_monotone(p1: nat, q1: nat, p2: nat, q2: nat)
    requires
        q1 > 0,
        q2 > 0,
        p1 * q2 <= p2 * q1,
    ensures
        nearest_even(p1, q1) <= nearest_even(p2, q2),
        p1 / q1 <= p2 / q2,
{
    lemma_floor(p1, q1);
    lemma_floor(p2, q2);
    let f1 = p1 / q1;
    let f2 = p2 / q2;
    let r1 = p1 % q1;
    let r2 = p2 % q2;
    assert(f1 < f2 + 1) by (nonlinear_arith)
        requires
            p1 * q2 <= p2 * q1,
            f1 * q1 <= p1,
            p2 < (f2 + 1) * q2,
            q1 > 0,
            q2 > 0,
    ;
    if f1 == f2 {
        assert(r1 * q2 <= r2 * q1) by (nonlinear_arith)
            requires
                p1 * q2 <= p2 * q1,
                p1 == f1 * q1 + r1,
                p2 == f1 * q2 + r2,
        ;
        assert(2 * r1 > q1 ==> 2 * r2 > q2) by (nonlinear_arith)
            requires
                r1 * q2 <= r2 * q1,
                q1 > 0,
                q2 > 0,
        ;
        assert(2 * r1 == q1 ==> 2 * r2 >= q2) by (nonlinear_arith)
            requires
                r1 * q2 <= r2 * q1,
                q1 > 0,
                q2 > 0,
        ;
    }
}

proof fn lemma_bits_monotone(a: nat, b: nat)
    requires
        a <= b,
    ensures
        bits(a) <= bits(b),
    decreases b,
{
    if a > 0 {
        lemma_bits_monotone(a / 2, b / 2);
    }
}

/// Rounding keeps order.
proof fn lemma_round53_monotone(p1: nat, q1: nat, p2: nat, q2: nat)
    requires
        q1 > 0,
        q2 > 0,
        p1 * q2 <= p2 * q1,
    ensures
        round53(p1, q1) <= round53(p2, q2),
{
    lemma_nearest_even_monotone(p1, q1, p2, q2);
    lemma_bits_monotone(p1 / q1, p2 / q2);
    let k1 = excess(p1 / q1);
    let k2 = excess(p2 / q2);
    let u1 = pow2(k1);
    let u2 = pow2(k2);
    lemma_pow2_pos(k1);
    lemma_pow2_pos(k2);
    assert(q1 * u1 > 0 && q2 * u2 > 0) by (nonlinear_arith)
        requires
            q1 > 0,
            q2 > 0,
            u1 > 0,
            u2 > 0,
    ;
    let n1 = nearest_even(p1, q1 * u1);
    let n2 = nearest_even(p2, q2 * u2);
    if k1 == k2 {
        assert(p1 * (q2 * u2) <= p2 * (q1 * u1)) by (nonlinear_arith)
            requires
                p1 * q2 <= p2 * q1,
                u1 == u2,
        ;
        lemma_nearest_even_monotone(p1, q1 * u1, p2, q2 * u2);
        assert(n1 * u1 <= n2 * u2) by (nonlinear_arith)
            requires
                n1 <= n2,
                u1 == u2,
        ;
    } else {
        let f1 = p1 / q1;
        let f2 = p2 / q2;
        lemma_bits_bounds(f1);
        lemma_bits_bounds(f2);
        lemma_pow2_monotone(bits(f1), 53 + k1);
        lemma_pow2_adds(53, k1);
        lemma_pow2_adds(52, k2);
        lemma_floor(p1, q1);
        lemma_floor(p2, q2);
        lemma_floor(p1, q1 * u1);
        lemma_floor(p2, q2 * u2);
        let g1 = p1 / (q1 * u1);
        let g2 = p2 / (q2 * u2);
        let c = pow2(53);
        let d = pow2(52);
        assert(g1 < c) by (nonlinear_arith)
            requires
                g1 * (q1 * u1) <= p1,
                p1 < (f1 + 1) * q1,
                f1 + 1 <= c * u1,
                q1 > 0,
                u1 > 0,
        ;
        assert(d <= g2) by (nonlinear_arith)
            requires
                p2 < (g2 + 1) * (q2 * u2),
                f2 * q2 <= p2,
                d * u2 <= f2,
                q2 > 0,
                u2 > 0,
        ;
        lemma_pow2_monotone(53 + k1, 52 + k2);
        assert(n1 * u1 <= c * u1) by (nonlinear_arith)
            requires
                n1 <= c,
        ;
        assert(d * u2 <= n2 * u2) by (nonlinear_arith)
            requires
                d <= n2,
        ;
    }
}

/// A whole number of at most 53 binary digits is kept as it is.
proof fn lemma_small_whole_kept(c: nat)
    requires
        0 < c < pow2(53),
    ensures
        round53(c * one(), 1) == c * one(),
{
    let x = c * one();
    let d = (bits(c) - 1) as nat;
    lemma_bits_bounds(c);
    if bits(c) > 53 {
        lemma_pow2_monotone(53, d);
    }
    lemma_pow2_pos(128);
    lemma_pow2_adds(d, 128);
    lemma_pow2_adds(bits(c), 128);
    assert(pow2(d) * one() <= x < pow2(bits(c)) * one()) by (nonlinear_arith)
        requires
            pow2(d) <= c < pow2(bits(c)),
            x == c * one(),
            one() > 0,
    ;
    assert(bits(c) + 128 == d + 128 + 1);
    lemma_bits_is(x, d + 128);
    assert(x / 1 == x);
    let k = excess(x);
    lemma_pow2_pos(k);
    lemma_pow2_adds(k, (128 - k) as nat);
    let unit = pow2(k);
    let rest = pow2((128 - k) as nat);
    assert(1 * unit == unit);
    assert(x == (c * rest) * unit) by (nonlinear_arith)
        requires
            x == c * one(),
            one() == unit * rest,
    ;
    assert((c * rest) * unit < (c * rest + 1) * unit) by (nonlinear_arith)
        requires
            unit > 0,
    ;
    lemma_floor_is(x, unit, c * rest);
}

/// A part is never more than the whole: where `used` is at most `total`, the
/// share lies between nothing and a hundred percent, and it is a hundred
/// percent where the two are equal.
pub proof fn share_is_at_most_whole(used: nat, total: nat)
    requires
        0 < total,
        used <= total,
    ensures
        percent_hundredths_spec(used, total) <= 10000,
        used == total ==> percent_hundredths_spec(used, total) == 10000,
{
    let a = double_of(used);
    let b = double_of(total);
    lemma_round53_monotone(used, 1, total, 1);
    lemma_double_positive(total);
    lemma_powers();
    lemma_pow2_pos(128);
    lemma_small_whole_kept(1);
    lemma_small_whole_kept(100);
    lemma_small_whole_kept(10000);
    let c = quotient(a, b);
    assert(1 * one() == one());
    assert(a * one() * 1 <= one() * b) by (nonlinear_arith)
        requires
            a <= b,
    ;
    lemma_round53_monotone(a * one(), b, one(), 1);
    assert(c <= one());
    lemma_round53_monotone(c * 100, 1, one() * 100, 1);
    assert(one() * 100 == 100 * one());
    let d = times_hundred(c);
    lemma_round53_monotone(d * 100, 1, 100 * one() * 100, 1);
    assert(100 * one() * 100 == 10000 * one());
    let e = times_hundred(d);
    assert(e <= 10000 * one());
    lemma_floor(2 * e + one(), 2 * one());
    let h = whole(e);
    assert(h <= 10000) by (nonlinear_arith)
        requires
            h * (2 * one()) <= 2 * e + one(),
            e <= 10000 * one(),
            one() > 0,
    ;
    if used == total {
        assert(one() * b <= a * one() * 1) by (nonlinear_arith)
            requires
                a == b,
        ;
        lemma_round53_monotone(one(), 1, a * one(), b);
        assert(c == one());
        assert(d == 100 * one());
        assert(e == 10000 * one());
        assert(h >= 10000) by (nonlinear_arith)
            requires
                2 * e + one() < (h + 1) * (2 * one()),
                e == 10000 * one(),
                one() > 0,
        ;
    }
}

// ─── What holds of rounding ──────────────────────────────────────────────────

/// Rounding goes to the nearest whole number, and to an even one where two are
/// equally near.
pub proof fn rounding_goes_to_the_nearest(p: nat, q: nat)
    requires
        q > 0,
    ensures
        ({
            let n = nearest_even(p, q);
            &&& 2 * p - q <= 2 * (n * q) <= 2 * p + q
            &&& 2 * (n * q) == 2 * p + q || 2 * (n * q) == 2 * p - q ==> n % 2 == 0
        }),
{
    lemma_floor(p, q);
    let f = p / q;
    assert((f + 1) * q == f * q + q) by (nonlinear_arith);
}

/// Whether `r` is `p / q`, kept to 53 binary digits: a multiple of a power of
/// two below which the quotient has that many, the nearest one, and of two
/// equally near ones the even one.
pub open spec fn keeps_53_digits(r: nat, p: nat, q: nat) -> bool {
    exists|m: nat, k: nat|
        {
            let step = q * #[trigger] pow2(k);
            &&& r == #[trigger] (m * pow2(k))
            &&& 2 * p - step <= 2 * (m * step) <= 2 * p + step
            &&& 2 * (m * step) == 2 * p + step || 2 * (m * step) == 2 * p - step ==> m % 2 == 0
            &&& p < q * pow2(53 + k)
            &&& k > 0 ==> q * pow2(52 + k) <= p
        }
}

proof fn lemma_keeps_53_digits(p: nat, q: nat)
    requires
        q > 0,
    ensures
        keeps_53_digits(round53(p, q), p, q),
{
    let f = p / q;
    let k = excess(f);
    let step = q * pow2(k);
    let m = nearest_even(p, step);
    lemma_pow2_pos(k);
    assert(step > 0) by (nonlinear_arith)
        requires
            q > 0,
            pow2(k) > 0,
            step == q * pow2(k),
    ;
    rounding_goes_to_the_nearest(p, step);
    lemma_floor(p, q);
    lemma_bits_bounds(f);
    lemma_pow2_monotone(bits(f), 53 + k);
    let (low, high) = (pow2(52 + k), pow2(53 + k));
    assert(p < q * high) by (nonlinear_arith)
        requires
            p < (f + 1) * q,
            f + 1 <= high,
            q > 0,
    ;
    if k > 0 {
        assert(q * low <= p) by (nonlinear_arith)
            requires
                f * q <= p,
                low <= f,
        ;
    }
    assert(round53(p, q) == m * pow2(k));
}

/// A whole number of at most 53 binary digits is a binary64 number.
pub proof fn small_numbers_are_exact(n: nat)
    requires
        n < 0x20_0000_0000_0000,
    ensures
        double_of(n) == n,
{
    lemma_powers();
    lemma_bits_bounds(n);
    if bits(n) > 53 {
        lemma_pow2_monotone(53, (bits(n) - 1) as nat);
    }
    assert(n / 1 == n);
    assert(excess(n) == 0);
    lemma_floor_is(n, 1, n);
    assert(nearest_even(n, 1) == n);
    assert(n * 1 == n);
}

/// What a number of 53 binary digits or more loses is at most its 2 to the 53rd
/// part.
proof fn lemma_relative_error(p: nat, q: nat)
    requires
        q > 0,
        p >= q * pow2(53),
    ensures
        ({
            let r = round53(p, q) * q;
            p * pow2(53) - p <= r * pow2(53) <= p * pow2(53) + p
        }),
{
    let f = p / q;
    let k = excess(f);
    let unit = pow2(k);
    let step = q * unit;
    let m = nearest_even(p, step);
    lemma_pow2_pos(k);
    lemma_floor(p, q);
    lemma_bits_bounds(f);
    assert(f >= pow2(53)) by (nonlinear_arith)
        requires
            p >= q * pow2(53),
            p < (f + 1) * q,
            q > 0,
    ;
    if bits(f) <= 53 {
        lemma_pow2_monotone(bits(f), 53);
    }
    assert(step > 0) by (nonlinear_arith)
        requires
            q > 0,
            unit > 0,
            step == q * unit,
    ;
    rounding_goes_to_the_nearest(p, step);
    lemma_pow2_adds(52, k);
    lemma_pow2_unfold(53);
    lemma_pow2_pos(52);
    let half = pow2(52);
    assert(step * half <= p) by (nonlinear_arith)
        requires
            half * unit <= f,
            f * q <= p,
            step == q * unit,
    ;
    let r = (m * unit) * q;
    assert(r == m * step) by (nonlinear_arith)
        requires
            r == (m * unit) * q,
            step == q * unit,
    ;
    assert(p * (2 * half) - p <= r * (2 * half) <= p * (2 * half) + p) by (nonlinear_arith)
        requires
            2 * p - step <= 2 * r <= 2 * p + step,
            step * half <= p,
            half > 0,
    ;
}

/// The share of a total, twice a hundredfold, before it is rounded.
proof fn lemma_share_error(used: nat, total: nat)
    requires
        0 < used,
        0 < total <= 0x1_0000_0000_0000_0000,
    ensures
        ({
            let e = times_hundred(times_hundred(quotient(used, total)));
            let n = used * one();
            0x100_0000 * (10000 * n) - n <= 0x100_0000 * (e * total) <= 0x100_0000 * (10000 * n) + n
        }),
{
    lemma_powers();
    lemma_pow2_adds(64, 64);
    lemma_pow2_pos(128);
    let n = used * one();
    let c = quotient(used, total);
    let d = times_hundred(c);
    let e = times_hundred(d);
    let big = pow2(53);
    assert(n >= total * big) by (nonlinear_arith)
        requires
            n == used * one(),
            used >= 1,
            one() == 0x1_0000_0000_0000_0000 * 0x1_0000_0000_0000_0000,
            total <= 0x1_0000_0000_0000_0000,
            big == 0x20_0000_0000_0000,
    ;
    lemma_relative_error(n, total);
    let ct = c * total;
    assert(c >= big) by (nonlinear_arith)
        requires
            n * big - n <= (c * total) * big,
            n == used * one(),
            used >= 1,
            one() == 0x1_0000_0000_0000_0000 * 0x1_0000_0000_0000_0000,
            0 < total <= 0x1_0000_0000_0000_0000,
            big == 0x20_0000_0000_0000,
    ;
    assert(1 * big == big);
    lemma_relative_error(c * 100, 1);
    assert(d * 1 == d);
    assert(d >= big) by (nonlinear_arith)
        requires
            (c * 100) * big - c * 100 <= d * big,
            c >= big,
            big == 0x20_0000_0000_0000,
    ;
    lemma_relative_error(d * 100, 1);
    assert(e * 1 == e);
    let dt = d * total;
    let et = e * total;
    assert((100 * ct) * big - 100 * ct <= dt * big <= (100 * ct) * big + 100 * ct)
        by (nonlinear_arith)
        requires
            (c * 100) * big - c * 100 <= d * big <= (c * 100) * big + c * 100,
            ct == c * total,
            dt == d * total,
    ;
    assert((100 * dt) * big - 100 * dt <= et * big <= (100 * dt) * big + 100 * dt)
        by (nonlinear_arith)
        requires
            (d * 100) * big - d * 100 <= e * big <= (d * 100) * big + d * 100,
            dt == d * total,
            et == e * total,
    ;
}

/// A 64-bit number is at most two to the 64th as a binary64 number, and is
/// itself if it has at most 53 binary digits.
proof fn lemma_double_of_u64(n: u64)
    ensures
        double_of(n as nat) <= 0x1_0000_0000_0000_0000,
        n > 0 ==> double_of(n as nat) > 0,
        n < 0x20_0000_0000_0000 ==> double_of(n as nat) == n,
{
    lemma_powers();
    lemma_double_bound(n as nat, excess(n as nat), 64);
    lemma_double_positive(n as nat);
    if n < 0x20_0000_0000_0000 {
        small_numbers_are_exact(n as nat);
    }
}

/// A share is the nearest number of hundredths of a percent, but for what
/// binary64 numbers lose on the way, which is less than a millionth part. It is
/// more than the whole where more is in use than there is.
pub proof fn percentage_is_the_share(used: u64, total: u64)
    requires
        total > 0,
    ensures
        ({
            let a = double_of(used as nat);
            let b = double_of(total as nat);
            let h = percent_hundredths_spec(used as nat, total as nat);
            &&& used < 0x20_0000_0000_0000 ==> a == used
            &&& total < 0x20_0000_0000_0000 ==> b == total
            &&& 1_000_000 * (20000 * a - b) - a <= 2_000_000 * (h * b) <= 1_000_000 * (20000 * a
                + b) + a
        }),
{
    lemma_pow2_pos(128);
    lemma_double_of_u64(used);
    lemma_double_of_u64(total);
    let a = double_of(used as nat);
    let b = double_of(total as nat);
    let h = percent_hundredths_spec(used as nat, total as nat);
    if used == 0 {
        lemma_zero(b);
        assert(h * b == 0) by (nonlinear_arith)
            requires
                h == 0,
        ;
    } else {
        let e = times_hundred(times_hundred(quotient(a, b)));
        lemma_share_error(a, b);
        lemma_floor(2 * e + one(), 2 * one());
        let eb = e * b;
        let n = a * one();
        let t = b * one();
        let hb = h * b;
        assert(2 * eb - t <= 2 * (hb * one()) <= 2 * eb + t) by (nonlinear_arith)
            requires
                h * (2 * one()) <= 2 * e + one(),
                2 * e + one() < (h + 1) * (2 * one()),
                hb == h * b,
                eb == e * b,
                t == b * one(),
                one() > 0,
        ;
        assert(2_000_000 * (hb * one()) <= 1_000_000 * (20000 * n + t) + n);
        assert(2_000_000 * (hb * one()) >= 1_000_000 * (20000 * n - t) - n);
        assert(2_000_000 * hb <= 1_000_000 * (20000 * a + b) + a) by (nonlinear_arith)
            requires
                2_000_000 * (hb * one()) <= 1_000_000 * (20000 * n + t) + n,
                n == a * one(),
                t == b * one(),
                one() > 0,
        ;
        assert(2_000_000 * hb >= 1_000_000 * (20000 * a - b) - a) by (nonlinear_arith)
            requires
                2_000_000 * (hb * one()) >= 1_000_000 * (20000 * n - t) - n,
                n == a * one(),
                t == b * one(),
                one() > 0,
        ;
    }
}

/// Gigabytes are the bytes over two to the 30th, to the nearest hundredth, but
/// for what binary64 numbers lose on the way.
pub proof fn gigabytes_are_the_bytes(bytes: u64)
    ensures
        ({
            let n = double_of(bytes as nat);
            let h = gb_hundredths_spec(bytes as nat);
            &&& bytes < 0x20_0000_0000_0000 ==> n == bytes
            &&& 200 * n - 0x4020_0000 <= 2 * (h * 0x4000_0000) <= 200 * n + 0x4020_0000
        }),
{
    lemma_powers();
    lemma_pow2_adds(64, 64);
    lemma_pow2_pos(128);
    lemma_double_of_u64(bytes);
    let a = double_of(bytes as nat);
    let h = gb_hundredths_spec(bytes as nat);
    let gb: nat = 0x4000_0000;
    let big = pow2(53);
    if bytes == 0 {
        lemma_zero(gb);
    } else {
        let n = a * one();
        let c = quotient(a, gb);
        let d = times_hundred(c);
        assert(n >= gb * big) by (nonlinear_arith)
            requires
                n == a * one(),
                a >= 1,
                one() == 0x1_0000_0000_0000_0000 * 0x1_0000_0000_0000_0000,
                gb == 0x4000_0000,
                big == 0x20_0000_0000_0000,
        ;
        assert(n <= 0x1_0000_0000_0000_0000 * one()) by (nonlinear_arith)
            requires
                n == a * one(),
                a <= 0x1_0000_0000_0000_0000,
        ;
        lemma_relative_error(n, gb);
        assert(c >= big) by (nonlinear_arith)
            requires
                n * big - n <= (c * gb) * big,
                n == a * one(),
                a >= 1,
                one() == 0x1_0000_0000_0000_0000 * 0x1_0000_0000_0000_0000,
                gb == 0x4000_0000,
                big == 0x20_0000_0000_0000,
        ;
        assert(1 * big == big);
        lemma_relative_error(c * 100, 1);
        assert(d * 1 == d);
        let cg = c * gb;
        let dg = d * gb;
        assert((100 * cg) * big - 100 * cg <= dg * big <= (100 * cg) * big + 100 * cg)
            by (nonlinear_arith)
            requires
                (c * 100) * big - c * 100 <= d * big <= (c * 100) * big + c * 100,
                cg == c * gb,
                dg == d * gb,
        ;
        assert(100 * n - 0x10_0000 * one() <= dg <= 100 * n + 0x10_0000 * one());
        lemma_floor(2 * d + one(), 2 * one());
        let hg = h * gb;
        let t = gb * one();
        assert(2 * dg - t <= 2 * (hg * one()) <= 2 * dg + t) by (nonlinear_arith)
            requires
                h * (2 * one()) <= 2 * d + one(),
                2 * d + one() < (h + 1) * (2 * one()),
                hg == h * gb,
                dg == d * gb,
                t == gb * one(),
                one() > 0,
        ;
        assert(2 * hg <= 200 * a + gb + 0x20_0000) by (nonlinear_arith)
            requires
                2 * (hg * one()) <= 200 * n + 0x20_0000 * one() + t,
                n == a * one(),
                t == gb * one(),
                one() > 0,
        ;
        assert(2 * hg >= 200 * a - gb - 0x20_0000) by (nonlinear_arith)
            requires
                2 * (hg * one()) >= 200 * n - 0x20_0000 * one() - t,
                n == a * one(),
                t == gb * one(),
                one() > 0,
        ;
    }
}

/// Thousandths that are taken as a fraction and written to three decimals are
/// as many as they were.
pub proof fn thousandths_are_kept(n: nat)
    requires
        n < 0x8_0000_0000_0000,
    ensures
        thousandths_spec(n) == n,
{
    lemma_powers();
    lemma_pow2_adds(64, 64);
    lemma_pow2_pos(128);
    small_numbers_are_exact(n);
    let big = pow2(53);
    let x = n * one();
    if n == 0 {
        lemma_zero(1000);
        lemma_zero_over(one());
    } else {
        let c = quotient(n, 1000);
        assert(x >= 1000 * big) by (nonlinear_arith)
            requires
                x == n * one(),
                n >= 1,
                one() == 0x1_0000_0000_0000_0000 * 0x1_0000_0000_0000_0000,
                big == 0x20_0000_0000_0000,
        ;
        assert(4 * x <= big * one()) by (nonlinear_arith)
            requires
                x == n * one(),
                4 * n <= big,
        ;
        lemma_relative_error(x, 1000);
        let p = c * 1000;
        assert(4 * x - one() <= 4 * p <= 4 * x + one());
        rounding_goes_to_the_nearest(p, one());
        let m = nearest_even(p, one());
        assert(m == n) by (nonlinear_arith)
            requires
                2 * p - one() <= 2 * (m * one()) <= 2 * p + one(),
                4 * x - one() <= 4 * p <= 4 * x + one(),
                x == n * one(),
                one() > 0,
        ;
    }
}

/// A size in hundredths of a unit is the nearest to it.
pub proof fn size_is_the_nearest_in_its_unit(bytes: nat, unit: nat)
    requires
        unit > 0,
    ensures
        ({
            let d = double_of(bytes);
            let n = size_hundredths_spec(bytes, unit);
            &&& bytes < 0x20_0000_0000_0000 ==> d == bytes
            &&& 200 * d - unit <= 2 * (n * unit) <= 200 * d + unit
            &&& 2 * (n * unit) == 200 * d + unit || 2 * (n * unit) == 200 * d - unit ==> n % 2 == 0
        }),
{
    if bytes < 0x20_0000_0000_0000 {
        small_numbers_are_exact(bytes);
    }
    rounding_goes_to_the_nearest(double_of(bytes) * 100, unit);
}

/// More in use is no smaller share, and more bytes are no smaller size.
pub proof fn rounding_keeps_order(few: nat, many: nat, total: nat, unit: nat)
    requires
        few <= many,
        total > 0,
        unit > 0,
    ensures
        percent_hundredths_spec(few, total) <= percent_hundredths_spec(many, total),
        gb_hundredths_spec(few) <= gb_hundredths_spec(many),
        size_hundredths_spec(few, unit) <= size_hundredths_spec(many, unit),
        thousandths_spec(few) <= thousandths_spec(many),
{
    lemma_pow2_pos(128);
    lemma_double_positive(total);
    lemma_round53_monotone(few, 1, many, 1);
    let (a, b, t) = (double_of(few), double_of(many), double_of(total));
    lemma_quotient_order(a, b, t);
    lemma_quotient_order(a, b, 0x4000_0000);
    lemma_quotient_order(a, b, 1000);
    assert((a * 100) * unit <= (b * 100) * unit) by (nonlinear_arith)
        requires
            a <= b,
    ;
    lemma_nearest_even_monotone(a * 100, unit, b * 100, unit);
    let (c, d) = (quotient(a, t), quotient(b, t));
    lemma_hundredfold_order(c, d);
    lemma_hundredfold_order(times_hundred(c), times_hundred(d));
    lemma_hundredfold_order(quotient(a, 0x4000_0000), quotient(b, 0x4000_0000));
    let (x, y) = (quotient(a, 1000) * 1000, quotient(b, 1000) * 1000);
    assert(x * one() <= y * one()) by (nonlinear_arith)
        requires
            x <= y,
    ;
    lemma_nearest_even_monotone(x, one(), y, one());
}

proof fn lemma_quotient_order(a: nat, b: nat, t: nat)
    requires
        a <= b,
        t > 0,
    ensures
        quotient(a, t) <= quotient(b, t),
{
    assert((a * one()) * t <= (b * one()) * t) by (nonlinear_arith)
        requires
            a <= b,
    ;
    lemma_round53_monotone(a * one(), t, b * one(), t);
}

proof fn lemma_hundredfold_order(x: nat, y: nat)
    requires
        x <= y,
    ensures
        times_hundred(x) <= times_hundred(y),
        whole(x) <= whole(y),
        whole(times_hundred(x)) <= whole(times_hundred(y)),
{
    lemma_round53_monotone(x * 100, 1, y * 100, 1);
    lemma_whole_order(x, y);
    lemma_whole_order(times_hundred(x), times_hundred(y));
}

proof fn lemma_whole_order(x: nat, y: nat)
    requires
        x <= y,
    ensures
        whole(x) <= whole(y),
{
    lemma_pow2_pos(128);
    let q = 2 * one();
    let (p1, p2) = (2 * x + one(), 2 * y + one());
    assert(p1 * q <= p2 * q) by (nonlinear_arith)
        requires
            p1 <= p2,
    ;
    lemma_nearest_even_monotone(p1, q, p2, q);
}

/// Each operation on binary64 numbers keeps 53 binary digits of its result: the
/// conversion of a whole number, the quotient, and the hundredfold. The last
/// step goes to the nearest whole number, and up at half.
pub proof fn each_operation_rounds_once(n: nat, a: nat, b: nat, x: nat)
    requires
        b > 0,
    ensures
        keeps_53_digits(double_of(n), n, 1),
        keeps_53_digits(quotient(a, b), a * pow2(128), b),
        keeps_53_digits(times_hundred(x), 100 * x, 1),
        2 * x < 2 * (whole(x) * pow2(128)) + pow2(128),
        2 * (whole(x) * pow2(128)) <= 2 * x + pow2(128),
{
    lemma_keeps_53_digits(n, 1);
    lemma_keeps_53_digits(a * one(), b);
    lemma_keeps_53_digits(x * 100, 1);
    lemma_pow2_pos(128);
    lemma_floor(2 * x + one(), 2 * one());
    let h = whole(x);
    assert(h * (2 * one()) == 2 * (h * one()) && (h + 1) * (2 * one()) == 2 * (h * one()) + 2
        * one()) by (nonlinear_arith);
}

/// A number of at most 53 binary digits, followed by zeros, is kept as it is.
proof fn lemma_shifted_kept(m: nat, k: nat)
    requires
        0 < m < pow2(53),
    ensures
        double_of(m * pow2(k)) == m * pow2(k),
{
    let x = m * pow2(k);
    let d = (bits(m) - 1) as nat;
    lemma_bits_bounds(m);
    if bits(m) > 53 {
        lemma_pow2_monotone(53, d);
    }
    lemma_pow2_pos(k);
    lemma_pow2_adds(d, k);
    lemma_pow2_adds(bits(m), k);
    let unit = pow2(k);
    assert(pow2(d) * unit <= x < pow2(bits(m)) * unit) by (nonlinear_arith)
        requires
            pow2(d) <= m < pow2(bits(m)),
            x == m * unit,
            unit > 0,
    ;
    assert(bits(m) + k == d + k + 1);
    lemma_bits_is(x, d + k);
    assert(x / 1 == x);
    let j = excess(x);
    assert(j <= k);
    lemma_pow2_pos(j);
    lemma_pow2_adds(j, (k - j) as nat);
    let (low, rest) = (pow2(j), pow2((k - j) as nat));
    assert(1 * low == low);
    assert(x == (m * rest) * low) by (nonlinear_arith)
        requires
            x == m * unit,
            unit == low * rest,
    ;
    assert((m * rest) * low < (m * rest + 1) * low) by (nonlinear_arith)
        requires
            low > 0,
    ;
    lemma_floor_is(x, low, m * rest);
}

/// A number that has become a binary64 number stays what it is, so that a
/// share and a size depend on nothing but the binary64 numbers.
pub proof fn only_binary64_numbers_count(n: nat, total: nat, unit: nat)
    ensures
        double_of(double_of(n)) == double_of(n),
        percent_hundredths_spec(double_of(n), double_of(total)) == percent_hundredths_spec(n, total),
        gb_hundredths_spec(double_of(n)) == gb_hundredths_spec(n),
        size_hundredths_spec(double_of(n), unit) == size_hundredths_spec(n, unit),
        thousandths_spec(double_of(n)) == thousandths_spec(n),
{
    lemma_double_again(n);
    lemma_double_again(total);
}

proof fn lemma_double_again(n: nat)
    ensures
        double_of(double_of(n)) == double_of(n),
{
    let k = excess(n);
    let m = nearest_even(n, pow2(k));
    assert(n / 1 == n);
    assert(1 * pow2(k) == pow2(k));
    if n == 0 {
        lemma_zero(1);
    } else {
        lemma_bits_bounds(n);
        lemma_pow2_monotone(bits(n), 53 + k);
        lemma_pow2_adds(53, k);
        lemma_pow2_pos(k);
        lemma_floor(n, pow2(k));
        let (f, c, unit) = (n / pow2(k), pow2(53), pow2(k));
        assert(f + 1 <= c) by (nonlinear_arith)
            requires
                f * unit <= n,
                n < c * unit,
                unit > 0,
        ;
        lemma_double_positive(n);
        assert(m > 0) by (nonlinear_arith)
            requires
                m * unit > 0,
                unit > 0,
        ;
        if m < c {
            lemma_shifted_kept(m, k);
        } else {
            lemma_powers();
            lemma_pow2_unfold(k + 1);
            assert(m * unit == pow2(52) * pow2(k + 1)) by (nonlinear_arith)
                requires
                    m == 2 * pow2(52),
                    pow2(k + 1) == 2 * unit,
            ;
            lemma_shifted_kept(pow2(52), k + 1);
        }
    }
}

} // verus!
