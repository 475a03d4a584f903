//! Double-precision numbers on integers, as IEEE 754 has them: every result is
//! the double closest to the exact one, of two the one whose last bit is zero.
//!
//! The finite doubles are the multiples of a grain, the smallest of them above
//! zero, that have at most 53 significant bits. What a double is worth is told
//! in grains throughout. The sign of a zero is not kept.

use vstd::arithmetic::div_mod::{lemma_fundamental_div_mod, lemma_fundamental_div_mod_converse};
use vstd::arithmetic::power2::{
    lemma2_to64, lemma_pow2_adds, lemma_pow2_pos, lemma_pow2_unfold, pow2,
};
use vstd::prelude::*;

use self::rounding::{
    ceiling, closest, distance, down, half_even, is_between, is_finite, is_root, lemma_binary,
    lemma_closest_equal, lemma_distance_is_not_negative, lemma_doubled, lemma_halved,
    lemma_integer_stays, lemma_near_at, lemma_near_between, lemma_near_equal,
    lemma_near_is_positive, lemma_near_scales, lemma_near_zero, lemma_one_is_large,
    lemma_pow2_grows, lemma_pow2_known, lemma_root_between, lemma_root_is_unique, lemma_rounded,
    lemma_whole_is_large, near_binary, near_root, one, root, rounded, up, within,
};

pub mod rounding;

verus! {

fn power(e: u32) -> (power: u128)
    requires
        e <= 127,
    ensures
        power == pow2(e as nat),
        power > 0,
{
    proof {
        lemma_pow2_known();
        lemma2_to64();
    }
    let mut power: u128 = 1;
    let mut i: u32 = 0;
    while i < e
        invariant
            i <= e <= 127,
            power == pow2(i as nat),
            power > 0,
            pow2(127) == 0x8000_0000_0000_0000_0000_0000_0000_0000,
        decreases e - i,
    {
        proof {
            lemma_pow2_unfold((i + 1) as nat);
            lemma_pow2_grows((i + 1) as nat, 127);
        }
        power = 2 * power;
        i = i + 1;
    }
    power
}

/// A size in grains: 53 bits and where they stand.
spec fn is_packed(m: u64, x: u32) -> bool {
    m < 0x20_0000_0000_0000 && (x > 0 ==> m >= 0x10_0000_0000_0000)
}

/// Rounds `n` times `2^f` grains.
fn pack(n: u128, f: i32) -> (packed: (u64, u32))
    requires
        n < 0x8000_0000_0000_0000_0000_0000_0000_0000,
        -0x1000_0000 <= f <= 0x1000_0000,
    ensures
        is_packed(packed.0, packed.1),
        packed.0 * pow2(packed.1 as nat) == near_binary(n as int, f as int),
        packed.1 <= up(f as int) + 76,
{
    let mut n: u128 = n;
    let mut f: i32 = f;
    proof {
        lemma_pow2_known();
        lemma2_to64();
    }
    if n == 0 {
        proof {
            lemma_pow2_pos(up(f as int));
            lemma_pow2_pos(down(f as int));
            let q = pow2(down(f as int)) as int;
            assert(0 * pow2(up(f as int)) == 0);
            assert(q * pow2(53) > 0) by (nonlinear_arith)
                requires
                    q > 0,
                    pow2(53) > 0,
            ;
            lemma_near_at(0, q, 0);
            lemma_fundamental_div_mod_converse(0, q * pow2(0), 0, 0);
        }
        return (0, 0);
    }
    let ghost (whole, first) = (n as int, f as int);
    while n < 0x10_0000_0000_0000 && f > 0
        invariant
            0 < n < 0x8000_0000_0000_0000_0000_0000_0000_0000,
            -0x1000_0000 <= f <= first <= 0x1000_0000,
            f >= 0 || f == first,
            near_binary(n as int, f as int) == near_binary(whole, first),
        decreases f,
    {
        proof {
            lemma_doubled(n as int, f as int);
        }
        n = 2 * n;
        f = f - 1;
    }
    let mut d: u32 = if f < 0 {
        (-f) as u32
    } else {
        0
    };
    if d >= 128 {
        proof {
            lemma_pow2_grows(128, d as nat);
            lemma_pow2_grows(128, (53 + d) as nat);
            lemma_binary(n as int, f as int, d as nat);
            let t = pow2(d as nat) as int;
            lemma_fundamental_div_mod_converse(n as int, t, 0, n as int);
        }
        return (0, 0);
    }
    proof {
        if d >= 75 {
            lemma_pow2_grows(127, (53 + d) as nat);
        }
    }
    while d < 75 && n >= power(53 + d)
        invariant
            d >= 75 ==> n < pow2((53 + d) as nat),
            0 < n < 0x8000_0000_0000_0000_0000_0000_0000_0000,
            -0x1000_0000 <= f <= 0x1000_0000,
            d <= 127,
            f + d >= 0,
            d <= 74 || f + d == 0,
            f + d == 0 || d > 0 && n >= pow2((52 + d) as nat) || d == 0 && n >= pow2(52),
            pow2(127) == 0x8000_0000_0000_0000_0000_0000_0000_0000,
        ensures
            n < pow2((53 + d) as nat),
            d <= 127,
            f + d >= 0,
            d <= 74 || f + d == 0,
            f + d == 0 || d > 0 && n >= pow2((52 + d) as nat) || d == 0 && n >= pow2(52),
        decreases 75 - d,
    {
        proof {
            if d == 74 {
                assert(n < pow2(127));
            }
        }
        d = d + 1;
    }
    proof {
        lemma_binary(n as int, f as int, d as nat);
        lemma_pow2_adds(53, d as nat);
    }
    let unit: u128 = power(d);
    let whole_units: u128 = n / unit;
    let rest: u128 = n % unit;
    let ghost bound = pow2(53) as int;
    assert(whole_units < bound) by {
        lemma_fundamental_div_mod(n as int, unit as int);
        let (n, u, q, r) = (n as int, unit as int, whole_units as int, rest as int);
        assert(q < bound) by (nonlinear_arith)
            requires
                n == u * q + r,
                r >= 0,
                n < bound * u,
                u > 0,
        ;
    }
    let x: u32 = (f + d as i32) as u32;
    let m: u128 = if rest < unit - rest || (rest == unit - rest && whole_units % 2 == 0) {
        whole_units
    } else {
        whole_units + 1
    };
    assert(m == half_even(n as int, unit as int));
    assert(x > 0 ==> m >= 0x10_0000_0000_0000) by {
        if x > 0 {
            lemma_pow2_adds(52, d as nat);
            lemma_fundamental_div_mod(n as int, unit as int);
            let (n, u, q, r, low) = (
                n as int,
                unit as int,
                whole_units as int,
                rest as int,
                pow2(52) as int,
            );
            assert(q >= low) by (nonlinear_arith)
                requires
                    n == u * q + r,
                    0 <= r < u,
                    n >= low * u,
                    u > 0,
            ;
        }
    }
    if m == 0x20_0000_0000_0000 {
        proof {
            lemma_pow2_unfold((x + 1) as nat);
            let (p, t) = (pow2(x as nat) as int, pow2((x + 1) as nat) as int);
            assert(0x10_0000_0000_0000 * t == 0x20_0000_0000_0000 * p);
        }
        (0x10_0000_0000_0000, x + 1)
    } else {
        (m as u64, x)
    }
}

/// A finite double.
#[derive(Debug, Clone, Copy, PartialEq, Eq, Structural)]
pub struct Double {
    negative: bool,
    mantissa: u64,
    exponent: u32,
}

impl View for Double {
    type V = int;

    closed spec fn view(&self) -> int {
        signed(self.negative, self.mantissa * pow2(self.exponent as nat))
    }
}

spec fn signed(negative: bool, size: int) -> int {
    if negative {
        -size
    } else {
        size
    }
}

/// How high the bits of a double that arithmetic takes may stand.
pub const EXPONENT_LIMIT: u32 = 0x100_0000;

impl Double {
    pub closed spec fn is_valid(self) -> bool {
        is_packed(self.mantissa, self.exponent) && (self.mantissa == 0 ==> !self.negative)
    }

    /// How high the bits stand.
    pub closed spec fn reach(self) -> nat {
        self.exponent as nat
    }

    spec fn size(self) -> int {
        self.mantissa * pow2(self.exponent as nat)
    }

    proof fn lemma_sign(self)
        requires
            self.is_valid(),
        ensures
            self.size() >= 0,
            self.size() == 0 <==> self.mantissa == 0,
            self@ == signed(self.negative, self.size()),
            self@ < 0 <==> self.negative,
    {
        lemma_pow2_pos(self.exponent as nat);
        let (m, p) = (self.mantissa as int, pow2(self.exponent as nat) as int);
        assert(m > 0 ==> m * p > 0) by (nonlinear_arith)
            requires
                p > 0,
        ;
        assert(0 * p == 0);
    }

    fn of(negative: bool, packed: (u64, u32)) -> (double: Double)
        requires
            is_packed(packed.0, packed.1),
        ensures
            double.is_valid(),
            double@ == signed(negative, packed.0 * pow2(packed.1 as nat)),
            double.reach() == packed.1,
    {
        proof {
            assert(0 * pow2(packed.1 as nat) == 0);
        }
        Double { negative: negative && packed.0 != 0, mantissa: packed.0, exponent: packed.1 }
    }

    pub fn zero() -> (double: Double)
        ensures
            double.is_valid(),
            double@ == 0,
            double.reach() == 0,
    {
        proof {
            assert(0 * pow2(0) == 0);
        }
        Double::of(false, (0, 0))
    }

    /// The double closest to an integer.
    pub fn from_int(value: i128) -> (double: Double)
        requires
            i128::MIN < value,
        ensures
            double.is_valid(),
            double@ == closest(value * one(), 1),
            double.reach() <= 1200,
    {
        let negative = value < 0;
        let n: u128 = if negative {
            (-value) as u128
        } else {
            value as u128
        };
        proof {
            lemma2_to64();
            lemma_pow2_pos(1074);
            assert(n * one() >= 0) by (nonlinear_arith)
                requires
                    n >= 0,
                    one() > 0,
            ;
            assert((-n) * one() == -(n * one())) by (nonlinear_arith);
            assert(n > 0 ==> n * one() > 0) by (nonlinear_arith)
                requires
                    one() > 0,
            ;
        }
        Double::of(negative, pack(n, 1074))
    }

    pub fn negated(&self) -> (double: Double)
        requires
            self.is_valid(),
        ensures
            double.is_valid(),
            double@ == -self@,
            double.reach() == self.reach(),
    {
        proof {
            self.lemma_sign();
        }
        Double {
            negative: !self.negative && self.mantissa != 0,
            mantissa: self.mantissa,
            exponent: self.exponent,
        }
    }

    pub fn times(&self, other: &Double) -> (product: Double)
        requires
            self.is_valid(),
            other.is_valid(),
            self.reach() + other.reach() <= EXPONENT_LIMIT,
        ensures
            product.is_valid(),
            product@ == closest(self@ * other@, one()),
            product.reach() <= self.reach() + other.reach() + 1200,
    {
        let (m1, m2): (u64, u64) = (self.mantissa, other.mantissa);
        proof {
            assert(m1 * m2 < 0x8000_0000_0000_0000_0000_0000_0000_0000) by (nonlinear_arith)
                requires
                    0 <= m1 < 0x20_0000_0000_0000,
                    0 <= m2 < 0x20_0000_0000_0000,
            ;
            assert(0 <= m1 * m2) by (nonlinear_arith);
        }
        let n: u128 = m1 as u128 * m2 as u128;
        let f: i32 = self.exponent as i32 + other.exponent as i32 - 1074;
        proof {
            lemma_pow2_pos(1074);
            self.lemma_sign();
            other.lemma_sign();
            let (x, y) = (self.size(), other.size());
            let (p, q) = (pow2(self.exponent as nat) as int, pow2(other.exponent as nat) as int);
            lemma_pow2_adds(self.exponent as nat, other.exponent as nat);
            let e = (self.exponent + other.exponent) as nat;
            assert(x * y == n * pow2(e)) by (nonlinear_arith)
                requires
                    x == m1 * p,
                    y == m2 * q,
                    n == m1 * m2,
                    pow2(e) == p * q,
            ;
            assert(x * y >= 0) by (nonlinear_arith)
                requires
                    x >= 0,
                    y >= 0,
            ;
            assert((-x) * y == -(x * y) && x * (-y) == -(x * y) && (-x) * (-y) == x * y)
                by (nonlinear_arith);
            assert(x * y == 0 ==> x == 0 || y == 0) by (nonlinear_arith);
            assert(0 * y == 0 && x * 0 == 0);
            let (u, d) = (pow2(up(f as int)) as int, pow2(down(f as int)) as int);
            lemma_pow2_pos(up(f as int));
            lemma_pow2_pos(down(f as int));
            lemma_pow2_adds(e, down(f as int));
            lemma_pow2_adds(1074, up(f as int));
            assert(e + down(f as int) == 1074 + up(f as int));
            let (pe, w) = (pow2(e) as int, one());
            assert((x * y) * d == (n * u) * w) by (nonlinear_arith)
                requires
                    x * y == n * pe,
                    pe * d == w * u,
            ;
            assert(n * u >= 0) by (nonlinear_arith)
                requires
                    n >= 0,
                    u > 0,
            ;
            lemma_near_equal(x * y, w, n * u, d);
            lemma_near_zero(w);
        }
        Double::of(self.negative != other.negative, pack(n, f))
    }
}

impl Double {
    /// The sum with a double whose bits all stand far below those of this one.
    fn plus_tiny(&self, tiny: &Double) -> (sum: Double)
        requires
            self.is_valid(),
            tiny.is_valid(),
            tiny.mantissa > 0,
            tiny.exponent + 64 < self.exponent <= EXPONENT_LIMIT,
        ensures
            sum.is_valid(),
            sum@ == closest(self@ + tiny@, 1),
            sum.reach() <= self.reach() + 1200,
    {
        let n: u128 = self.mantissa as u128 * 1024;
        let f: i32 = self.exponent as i32 - 10;
        let same = self.negative == tiny.negative;
        let middle: u128 = if same {
            2 * n + 1
        } else {
            2 * n - 1
        };
        proof {
            self.lemma_sign();
            tiny.lemma_sign();
            lemma_pow2_known();
            lemma2_to64();
            let (big, small) = (self.size(), tiny.size());
            let a = f as nat;
            let p = pow2(a) as int;
            lemma_pow2_pos(a);
            lemma_pow2_adds(10, a);
            assert(big == n * p) by (nonlinear_arith)
                requires
                    big == self.mantissa * (1024 * p),
                    n == self.mantissa * 1024,
            ;
            let q = pow2(tiny.exponent as nat) as int;
            lemma_pow2_pos(tiny.exponent as nat);
            lemma_pow2_adds(53, tiny.exponent as nat);
            lemma_pow2_grows((53 + tiny.exponent) as nat, a);
            let (m, high) = (tiny.mantissa as int, pow2(53) as int);
            assert(0 < small < p) by (nonlinear_arith)
                requires
                    small == m * q,
                    0 < m < high,
                    high * q <= p,
                    q > 0,
            ;
            let total = if same {
                big + small
            } else {
                big - small
            };
            let low = if same {
                n as int
            } else {
                n - 1
            };
            assert(p * low < total < p * (low + 1)) by (nonlinear_arith)
                requires
                    big == n * p,
                    0 < small < p,
                    total == big + small && low == n || total == big - small && low == n - 1,
            ;
            assert(1 * p == p && total * 1 == total);
            assert(is_between(total, 1, low, a, 0));
            assert(total > 0) by (nonlinear_arith)
                requires
                    p * low < total,
                    low >= 0,
                    p > 0,
            ;
            lemma_near_between(total, 1, low, a, 0);
            lemma_halved(2 * low + 1, a, 0);
        }
        Double::of(self.negative, pack(middle, f - 1))
    }

    /// The sum with a double whose bits do not stand above those of this one.
    fn plus_lower(&self, other: &Double) -> (sum: Double)
        requires
            self.is_valid(),
            other.is_valid(),
            other.exponent <= self.exponent <= EXPONENT_LIMIT,
        ensures
            sum.is_valid(),
            sum@ == closest(self@ + other@, 1),
            sum.reach() <= self.reach() + 1200,
    {
        let gap: u32 = self.exponent - other.exponent;
        if gap > 64 && other.mantissa > 0 {
            return self.plus_tiny(other);
        }
        proof {
            self.lemma_sign();
            other.lemma_sign();
            lemma_pow2_known();
            lemma2_to64();
        }
        if gap > 64 {
            proof {
                assert(self.mantissa * pow2(self.exponent as nat) == self.size());
            }
            return Double::of(self.negative, pack(self.mantissa as u128, self.exponent as i32));
        }
        let shift: u128 = power(gap);
        let (m1, m2): (u64, u64) = (self.mantissa, other.mantissa);
        let ghost p = pow2(other.exponent as nat) as int;
        proof {
            lemma_pow2_pos(other.exponent as nat);
            lemma_pow2_adds(gap as nat, other.exponent as nat);
            lemma_pow2_grows(gap as nat, 64);
            assert(0 <= m1 * shift <= 0x20_0000_0000_0000_0000_0000_0000_0000) by (nonlinear_arith)
                requires
                    0 <= m1 < 0x20_0000_0000_0000,
                    0 <= shift <= 0x1_0000_0000_0000_0000,
            ;
            let (big, small) = (self.size(), other.size());
            assert(big == (m1 * shift) * p) by (nonlinear_arith)
                requires
                    big == m1 * (shift * p),
            ;
        }
        let big: u128 = m1 as u128 * shift;
        let small: u128 = m2 as u128;
        let (negative, n): (bool, u128) = if self.negative == other.negative {
            (self.negative, big + small)
        } else if big >= small {
            (self.negative, big - small)
        } else {
            (other.negative, small - big)
        };
        proof {
            let (x, y, total) = (self.size(), other.size(), n * p);
            assert(total >= 0) by (nonlinear_arith)
                requires
                    total == n * p,
                    n >= 0,
                    p > 0,
            ;
            assert(total == 0 <==> n == 0) by (nonlinear_arith)
                requires
                    total == n * p,
                    n >= 0,
                    p > 0,
            ;
            assert((big + small) * p == x + y) by (nonlinear_arith)
                requires
                    x == big * p,
                    y == small * p,
            ;
            assert((big - small) * p == x - y) by (nonlinear_arith)
                requires
                    x == big * p,
                    y == small * p,
            ;
            assert((small - big) * p == y - x) by (nonlinear_arith)
                requires
                    x == big * p,
                    y == small * p,
            ;
            assert(self@ + other@ == signed(negative, total));
            lemma_near_zero(1);
        }
        Double::of(negative, pack(n, other.exponent as i32))
    }

    pub fn plus(&self, other: &Double) -> (sum: Double)
        requires
            self.is_valid(),
            other.is_valid(),
            self.reach() + other.reach() <= EXPONENT_LIMIT,
        ensures
            sum.is_valid(),
            sum@ == closest(self@ + other@, 1),
            sum.reach() <= self.reach() + other.reach() + 1200,
    {
        if self.exponent >= other.exponent {
            self.plus_lower(other)
        } else {
            other.plus_lower(self)
        }
    }

    pub fn minus(&self, other: &Double) -> (difference: Double)
        requires
            self.is_valid(),
            other.is_valid(),
            self.reach() + other.reach() <= EXPONENT_LIMIT,
        ensures
            difference.is_valid(),
            difference@ == closest(self@ - other@, 1),
            difference.reach() <= self.reach() + other.reach() + 1200,
    {
        self.plus(&other.negated())
    }

    /// The bits of a size above zero, moved up as far as they go, and by how
    /// much.
    fn top(&self) -> (top: (u64, u32))
        requires
            self.is_valid(),
            self.mantissa > 0,
        ensures
            0x10_0000_0000_0000 <= top.0 < 0x20_0000_0000_0000,
            top.0 == self.mantissa * pow2(top.1 as nat),
            top.1 <= 52,
    {
        let mut m: u64 = self.mantissa;
        let mut k: u32 = 0;
        proof {
            lemma_pow2_known();
            lemma2_to64();
        }
        while m < 0x10_0000_0000_0000
            invariant
                0 < m < 0x20_0000_0000_0000,
                k <= 52,
                m == self.mantissa * pow2(k as nat),
                m >= pow2(k as nat),
                pow2(52) == 0x10_0000_0000_0000,
            decreases 0x20_0000_0000_0000 - m,
        {
            proof {
                lemma_pow2_unfold((k + 1) as nat);
                let (m0, p) = (self.mantissa as int, pow2(k as nat) as int);
                assert(2 * (m0 * p) == m0 * (2 * p)) by (nonlinear_arith);
                if k == 52 {
                    assert(m >= pow2(52));
                }
            }
            m = 2 * m;
            k = k + 1;
        }
        (m, k)
    }

    /// The quotient by a double above zero.
    pub fn over(&self, other: &Double) -> (quotient: Double)
        requires
            self.is_valid(),
            other.is_valid(),
            other@ > 0,
            self.reach() + other.reach() <= EXPONENT_LIMIT,
        ensures
            quotient.is_valid(),
            quotient@ == closest(self@ * one(), other@),
            quotient.reach() <= self.reach() + other.reach() + 1200,
    {
        proof {
            self.lemma_sign();
            other.lemma_sign();
            lemma_pow2_known();
            lemma2_to64();
            lemma_pow2_pos(1074);
        }
        if self.mantissa == 0 {
            proof {
                assert(0 * one() == 0);
                lemma_near_zero(other@);
            }
            return Double::of(false, (0, 0));
        }
        let (m, k): (u64, u32) = self.top();
        let divisor: u128 = other.mantissa as u128;
        let shift: u128 = power(70);
        proof {
            lemma_pow2_adds(16, 54);
            assert(shift == 0x40_0000_0000_0000_0000);
        }
        let wide: u128 = m as u128 * shift;
        let n: u128 = wide / divisor;
        let rest: u128 = wide % divisor;
        let f: i32 = self.exponent as i32 - k as i32 - 70 - other.exponent as i32 + 1074;
        proof {
            lemma_fundamental_div_mod(wide as int, divisor as int);
            let (w, v, q, r) = (wide as int, divisor as int, n as int, rest as int);
            assert(0 <= q <= w) by (nonlinear_arith)
                requires
                    w == v * q + r,
                    0 <= r < v,
                    w >= 0,
                    v >= 1,
            ;
            assert(q >= 0x40_0000_0000_0000) by (nonlinear_arith)
                requires
                    w == v * q + r,
                    0 <= r < v,
                    v < 0x20_0000_0000_0000,
                    w >= 0x10_0000_0000_0000 * 0x40_0000_0000_0000_0000,
            ;
            let (num, den) = (self.size() * one(), other@);
            let (a, b) = (up(f as int), down(f as int));
            let (pa, pb) = (pow2(a) as int, pow2(b) as int);
            lemma_pow2_pos(a);
            lemma_pow2_pos(b);
            lemma_quotient(
                self.mantissa as int,
                self.exponent as nat,
                w,
                k as nat,
                v,
                other.exponent as nat,
                a,
                b,
            );
            let unit = pow2((other.exponent + a) as nat) as int;
            lemma_pow2_pos((other.exponent + a) as nat);
            lemma_pow2_adds(other.exponent as nat, a);
            assert(num * pb == w * unit);
            assert(den * pa == v * unit) by (nonlinear_arith)
                requires
                    den == v * pow2(other.exponent as nat),
                    unit == pow2(other.exponent as nat) * pa,
            ;
            assert(num > 0) by (nonlinear_arith)
                requires
                    num == self.size() * one(),
                    self.size() > 0,
                    one() > 0,
            ;
            assert((-self.size()) * one() == -num) by (nonlinear_arith)
                requires
                    num == self.size() * one(),
            ;
            if r == 0 {
                assert(num * pb == (q * pa) * den) by (nonlinear_arith)
                    requires
                        num * pb == w * unit,
                        den * pa == v * unit,
                        w == v * q + r,
                        r == 0,
                ;
                assert(q * pa >= 0) by (nonlinear_arith)
                    requires
                        q >= 0,
                        pa > 0,
                ;
                lemma_near_equal(num, den, q * pa, pb);
            } else {
                assert((den * pa) * q < num * pb < (den * pa) * (q + 1)) by (nonlinear_arith)
                    requires
                        num * pb == w * unit,
                        den * pa == v * unit,
                        w == v * q + r,
                        0 < r < v,
                        unit > 0,
                ;
                assert(is_between(num, den, q, a, b));
                lemma_near_between(num, den, q, a, b);
                lemma_halved(2 * q + 1, a, b);
            }
        }
        if rest == 0 {
            Double::of(self.negative, pack(n, f))
        } else {
            Double::of(self.negative, pack(2 * n + 1, f - 1))
        }
    }
}

proof fn lemma_quotient(
    m: int,
    e: nat,
    wide: int,
    k: nat,
    divisor: int,
    g: nat,
    a: nat,
    b: nat,
)
    requires
        wide == (m * pow2(k)) * pow2(70),
        a - b == e - k - 70 - g + 1074,
    ensures
        ((m * pow2(e)) * one()) * pow2(b) == wide * pow2((g + a) as nat),
{
    lemma_pow2_adds(e, 1074);
    lemma_pow2_adds(e + 1074, b);
    lemma_pow2_adds(k, 70);
    lemma_pow2_adds(k + 70, (g + a) as nat);
    assert(e + 1074 + b == k + 70 + g + a);
    let (pe, w, pb) = (pow2(e) as int, one(), pow2(b) as int);
    let (pk, p70, pg) = (pow2(k) as int, pow2(70) as int, pow2((g + a) as nat) as int);
    assert((pe * w) * pb == (pk * p70) * pg);
    assert(((m * pe) * w) * pb == m * ((pe * w) * pb)) by (nonlinear_arith);
    assert(((m * pk) * p70) * pg == m * ((pk * p70) * pg)) by (nonlinear_arith);
}

fn whole_root(x: u128) -> (s: u128)
    requires
        x < 0x8000_0000_0000_0000_0000_0000_0000_0000,
    ensures
        is_root(s as int, x as int),
        s < 0x1_0000_0000_0000_0000,
{
    let mut low: u128 = 0;
    let mut high: u128 = 0x1_0000_0000_0000_0000;
    while high - low > 1
        invariant
            x < 0x8000_0000_0000_0000_0000_0000_0000_0000,
            low < high <= 0x1_0000_0000_0000_0000,
            low * low <= x < high * high,
        decreases high - low,
    {
        let middle: u128 = (low + high) / 2;
        proof {
            assert(0 <= middle * middle <= 0xffff_ffff_ffff_ffff_ffff_ffff_ffff_ffff)
                by (nonlinear_arith)
                requires
                    0 <= middle <= 0xffff_ffff_ffff_ffff,
            ;
        }
        if middle * middle <= x {
            low = middle;
        } else {
            high = middle;
        }
    }
    low
}

impl Double {
    /// The square root of a double that is not negative.
    pub fn square_root(&self) -> (root: Double)
        requires
            self.is_valid(),
            self@ >= 0,
            self.reach() <= EXPONENT_LIMIT,
        ensures
            root.is_valid(),
            root@ == near_root(self@),
            root.reach() <= self.reach() + 1200,
    {
        proof {
            self.lemma_sign();
            lemma_pow2_known();
            lemma2_to64();
            lemma_pow2_pos(1074);
        }
        if self.mantissa == 0 {
            proof {
                assert(4 * (0 * one()) == 0);
                assert(is_root(0, 0));
                lemma_root_is_unique(0, 0);
                lemma_near_zero(4);
            }
            return Double::of(false, (0, 0));
        }
        let (m, k): (u64, u32) = self.top();
        let odd: u32 = (self.exponent + k) % 2;
        let lift: u32 = 72 + odd;
        let shift: u128 = power(lift);
        proof {
            lemma_pow2_adds(9, 63);
            lemma_pow2_adds(10, 63);
            assert(0x100_0000_0000_0000_0000 <= shift <= 0x200_0000_0000_0000_0000);
            assert(0 <= m * shift < 0x4000_0000_0000_0000_0000_0000_0000_0000) by (nonlinear_arith)
                requires
                    0 <= m < 0x20_0000_0000_0000,
                    0 <= shift <= 0x200_0000_0000_0000_0000,
            ;
            assert(m * shift >= 0x1000_0000_0000_0000_0000_0000_0000_0000) by (nonlinear_arith)
                requires
                    m >= 0x10_0000_0000_0000,
                    shift >= 0x100_0000_0000_0000_0000,
            ;
        }
        let wide: u128 = m as u128 * shift;
        let n: u128 = whole_root(wide);
        let f: i32 = (self.exponent as i32 - k as i32 - lift as i32 + 1074) / 2;
        proof {
            let x = f as nat;
            let p = pow2(x) as int;
            assert(2 * x == self.exponent - k - lift + 1074);
            lemma_pow2_adds(x, x);
            lemma_pow2_adds(self.exponent as nat, 1074);
            lemma_pow2_adds(k as nat, lift as nat);
            lemma_pow2_adds((k + lift) as nat, (2 * x) as nat);
            assert(self.exponent + 1074 == k + lift + 2 * x);
            let (m0, pe, w, pk) = (
                self.mantissa as int,
                pow2(self.exponent as nat) as int,
                one(),
                pow2(k as nat) as int,
            );
            assert(pe * w == (pk * shift) * (p * p));
            assert((m0 * pe) * w == wide * (p * p)) by (nonlinear_arith)
                requires
                    pe * w == (pk * shift) * (p * p),
                    wide == (m0 * pk) * shift,
            ;
            assert(n >= 0x40_0000_0000_0000) by (nonlinear_arith)
                requires
                    wide < (n + 1) * (n + 1),
                    wide >= 0x1000_0000_0000_0000_0000_0000_0000_0000,
                    n >= 0,
            ;
            lemma_root_between(n as int, wide as int, x);
            lemma_pow2_pos(x);
            let total = 4 * (self@ * w);
            let s = root(total);
            assert(4 * p * n == 2 * (n * (2 * p))) by (nonlinear_arith);
            assert(4 * p * (n + 1) == 2 * ((n + 1) * (2 * p))) by (nonlinear_arith);
            assert(n * p >= 0) by (nonlinear_arith)
                requires
                    n >= 0,
                    p > 0,
            ;
            if n * n == wide {
                assert(2 * s == (n * p) * 4) by (nonlinear_arith)
                    requires
                        s == n * (2 * p),
                ;
                lemma_near_scales(n * p, 1, 4);
            } else {
                let num = 2 * s + if s * s < total {
                    1int
                } else {
                    0
                };
                assert(num * pow2(0) == num);
                assert(is_between(num, 4, n as int, x, 0));
                lemma_near_between(num, 4, n as int, x, 0);
                lemma_halved(2 * n + 1, x, 0);
            }
        }
        assert(n * n <= wide);
        if n * n == wide {
            Double::of(false, pack(n, f))
        } else {
            Double::of(false, pack(2 * n + 1, f - 1))
        }
    }

    pub fn is_negative(&self) -> (answer: bool)
        requires
            self.is_valid(),
        ensures
            answer == (self@ < 0),
    {
        proof {
            self.lemma_sign();
        }
        self.negative
    }

    pub fn is_zero(&self) -> (answer: bool)
        requires
            self.is_valid(),
        ensures
            answer == (self@ == 0),
    {
        proof {
            self.lemma_sign();
        }
        self.mantissa == 0
    }

    /// Whether this double is less than another.
    pub fn is_below(&self, other: &Double) -> (answer: bool)
        requires
            self.is_valid(),
            other.is_valid(),
            self.reach() + other.reach() <= EXPONENT_LIMIT,
        ensures
            answer == (self@ < other@),
    {
        let difference = self.minus(other);
        proof {
            difference.lemma_sign();
            if self@ != other@ {
                lemma_near_is_positive(if self@ > other@ {
                    self@ - other@
                } else {
                    other@ - self@
                });
            } else {
                lemma_near_zero(1);
            }
        }
        difference.negative
    }
}

/// Where a number stands between two integers.
#[derive(Debug, Clone, Copy, PartialEq, Eq, Structural)]
enum Part {
    Nothing,
    BelowHalf,
    Half,
    AboveHalf,
}

spec fn part_of(rest: int, unit: int) -> Part {
    if rest == 0 {
        Part::Nothing
    } else if 2 * rest < unit {
        Part::BelowHalf
    } else if 2 * rest == unit {
        Part::Half
    } else {
        Part::AboveHalf
    }
}

proof fn lemma_part_scales(a: int, b: int, k: int)
    requires
        a >= 0,
        b > 0,
        k > 0,
    ensures
        (a * k) / (b * k) == a / b,
        part_of((a * k) % (b * k), b * k) == part_of(a % b, b),
{
    let (q, r) = (a / b, a % b);
    lemma_fundamental_div_mod(a, b);
    assert(0 <= r * k < b * k) by (nonlinear_arith)
        requires
            0 <= r < b,
            k > 0,
    ;
    assert(a * k == q * (b * k) + r * k) by (nonlinear_arith)
        requires
            a == b * q + r,
    ;
    lemma_fundamental_div_mod_converse(a * k, b * k, q, r * k);
    assert(r * k == 0 <==> r == 0) by (nonlinear_arith)
        requires
            k > 0,
    ;
    assert(2 * (r * k) < b * k <==> 2 * r < b) by (nonlinear_arith)
        requires
            k > 0,
    ;
    assert(2 * (r * k) == b * k <==> 2 * r == b) by (nonlinear_arith)
        requires
            k > 0,
    ;
}

/// What the 64 bits of a double are worth; none where they are an infinity or
/// no number.
pub open spec fn bits_value(bits: u64) -> Option<int> {
    let negative = bits >= 0x8000_0000_0000_0000;
    let rest = bits % 0x8000_0000_0000_0000;
    let exponent = rest / 0x10_0000_0000_0000;
    let fraction = rest % 0x10_0000_0000_0000;
    let size = if exponent == 0 {
        fraction as int
    } else {
        (0x10_0000_0000_0000 + fraction) * pow2((exponent - 1) as nat)
    };
    if exponent == 0x7ff {
        None
    } else if negative {
        Some(-size)
    } else {
        Some(size)
    }
}

impl Double {
    /// The whole part of the size, up to what a `u64` holds, and what is left.
    fn split(&self) -> (parts: (u128, Part))
        requires
            self.is_valid(),
        ensures
            parts.0 < 0x1_0000_0000_0000_0000 ==> parts.0 == self.size() / one() && parts.1
                == part_of(self.size() % one(), one()),
            parts.0 >= 0x1_0000_0000_0000_0000 ==> self.size() >= 0x1_0000_0000_0000_0000 * one(),
            parts.0 < 0x100_0000_0000_0000_0000,
    {
        let m: u128 = self.mantissa as u128;
        proof {
            lemma_pow2_known();
            lemma2_to64();
            lemma_pow2_pos(1074);
            lemma_pow2_pos(self.exponent as nat);
        }
        let ghost w = one();
        if self.exponent >= 1074 {
            let s: u32 = self.exponent - 1074;
            proof {
                lemma_pow2_adds(s as nat, 1074);
            }
            let ghost ps = pow2(s as nat) as int;
            let ghost pe = pow2(self.exponent as nat) as int;
            assert(m * pe == (m * ps) * w) by (nonlinear_arith)
                requires
                    pe == ps * w,
            ;
            if s > 11 {
                proof {
                    lemma_pow2_adds(52, 12);
                    lemma_pow2_grows(12, s as nat);
                    assert(m * ps >= 0x1_0000_0000_0000_0000) by (nonlinear_arith)
                        requires
                            m >= 0x10_0000_0000_0000,
                            ps >= 0x1000,
                    ;
                    assert((m * ps) * w >= 0x1_0000_0000_0000_0000 * w) by (nonlinear_arith)
                        requires
                            m * ps >= 0x1_0000_0000_0000_0000,
                            w > 0,
                    ;
                }
                return (0x1_0000_0000_0000_0000, Part::Nothing);
            }
            let shift: u128 = power(s);
            proof {
                lemma_pow2_grows(s as nat, 11);
                assert(0 <= m * shift < 0x100_0000_0000_0000_0000) by (nonlinear_arith)
                    requires
                        0 <= m < 0x20_0000_0000_0000,
                        0 <= shift <= 0x800,
                ;
                lemma_fundamental_div_mod_converse((m * ps) * w, w, m * ps, 0);
                assert(m * ps >= 0x1_0000_0000_0000_0000 ==> (m * ps) * w >= 0x1_0000_0000_0000_0000
                    * w) by (nonlinear_arith)
                    requires
                        w > 0,
                ;
            }
            return (m * shift, Part::Nothing);
        }
        let d: u32 = 1074 - self.exponent;
        let ghost pd = pow2(d as nat) as int;
        let ghost pe = pow2(self.exponent as nat) as int;
        proof {
            lemma_pow2_adds(d as nat, self.exponent as nat);
            lemma_pow2_pos(d as nat);
            lemma_part_scales(m as int, pd, pe);
        }
        if d > 64 {
            proof {
                lemma_pow2_grows(64, d as nat);
                lemma_fundamental_div_mod_converse(m as int, pd, 0, m as int);
            }
            return (0, if m == 0 {
                Part::Nothing
            } else {
                Part::BelowHalf
            });
        }
        let unit: u128 = power(d);
        let whole: u128 = m / unit;
        let rest: u128 = m % unit;
        proof {
            lemma_fundamental_div_mod(m as int, unit as int);
            let (n, u, q, r) = (m as int, unit as int, whole as int, rest as int);
            assert(q <= n) by (nonlinear_arith)
                requires
                    n == u * q + r,
                    r >= 0,
                    u >= 1,
                    n >= 0,
            ;
        }
        let part = if rest == 0 {
            Part::Nothing
        } else if rest < unit - rest {
            Part::BelowHalf
        } else if rest == unit - rest {
            Part::Half
        } else {
            Part::AboveHalf
        };
        (whole, part)
    }

    /// The closest integer, of two the one further from zero, or the end of
    /// the range that it lies beyond.
    pub fn round(&self) -> (closest: i64)
        requires
            self.is_valid(),
        ensures
            closest == within(rounded(self@, one()), i64::MIN as int, i64::MAX as int),
    {
        let (whole, part): (u128, Part) = self.split();
        proof {
            self.lemma_sign();
            lemma_pow2_pos(1074);
            lemma_rounded(self.size(), one());
            if whole >= 0x1_0000_0000_0000_0000 {
                lemma_whole_is_large(self.size(), one());
            }
        }
        let size: u128 = if part == Part::Half || part == Part::AboveHalf {
            whole + 1
        } else {
            whole
        };
        if self.negative {
            if size >= 0x8000_0000_0000_0000 {
                i64::MIN
            } else {
                -(size as i64)
            }
        } else if size > 0x7fff_ffff_ffff_ffff {
            i64::MAX
        } else {
            size as i64
        }
    }

    /// The closest integer to a double that is not negative, of two the even
    /// one, or the end of the range that it lies beyond.
    pub fn round_to_even(&self) -> (closest: i64)
        requires
            self.is_valid(),
            self@ >= 0,
        ensures
            closest == within(half_even(self@, one()), 0, i64::MAX as int),
    {
        let (whole, part): (u128, Part) = self.split();
        proof {
            self.lemma_sign();
            lemma_pow2_pos(1074);
            if whole >= 0x1_0000_0000_0000_0000 {
                lemma_whole_is_large(self.size(), one());
            }
        }
        let size: u128 = if part == Part::AboveHalf || (part == Part::Half && whole % 2 == 1) {
            whole + 1
        } else {
            whole
        };
        if size > 0x7fff_ffff_ffff_ffff {
            i64::MAX
        } else {
            size as i64
        }
    }

    /// The next integer upwards, or the end of the range that it lies beyond.
    pub fn ceil(&self) -> (next: u32)
        requires
            self.is_valid(),
            self@ >= 0,
        ensures
            next == within(ceiling(self@, one()), 0, u32::MAX as int),
    {
        let (whole, part): (u128, Part) = self.split();
        proof {
            self.lemma_sign();
            lemma_pow2_pos(1074);
            if whole >= 0x1_0000_0000_0000_0000 {
                lemma_whole_is_large(self.size(), one());
            }
        }
        let size: u128 = if part == Part::Nothing {
            whole
        } else {
            whole + 1
        };
        if size > 0xffff_ffff {
            u32::MAX
        } else {
            size as u32
        }
    }

    /// A double is finite where its bits do not stand too high.
    pub proof fn lemma_reach(self)
        requires
            self.is_valid(),
        ensures
            is_finite(self@) <==> self.reach() <= 2045,
    {
        self.lemma_sign();
        lemma_pow2_known();
        let (m, p) = (self.mantissa as int, pow2(self.exponent as nat) as int);
        lemma_pow2_pos(self.exponent as nat);
        if self.exponent <= 2045 {
            lemma_pow2_grows(self.exponent as nat, 2045);
            lemma_pow2_adds(53, 2045);
            let top = pow2(2045) as int;
            assert(m * p < 0x20_0000_0000_0000 * top) by (nonlinear_arith)
                requires
                    0 <= m < 0x20_0000_0000_0000,
                    0 < p <= top,
            ;
        } else {
            lemma_pow2_grows(2046, self.exponent as nat);
            lemma_pow2_adds(52, 2046);
            let top = pow2(2046) as int;
            assert(m * p >= 0x10_0000_0000_0000 * top) by (nonlinear_arith)
                requires
                    m >= 0x10_0000_0000_0000,
                    p >= top,
                    top >= 0,
            ;
        }
    }

    /// Whether the double is not too large to be one.
    pub fn fits(&self) -> (answer: bool)
        requires
            self.is_valid(),
        ensures
            answer == is_finite(self@),
            answer ==> self.reach() <= 2045,
    {
        proof {
            self.lemma_reach();
        }
        self.exponent <= 2045
    }

    /// The double with these bits, where they are a number.
    pub fn from_bits(bits: u64) -> (double: Option<Double>)
        ensures
            match double {
                Some(double) => bits_value(bits) == Some(double@) && double.is_valid()
                    && double.reach() <= 2045,
                None => bits_value(bits) is None,
            },
    {
        let negative = bits >= 0x8000_0000_0000_0000;
        let rest: u64 = bits % 0x8000_0000_0000_0000;
        let exponent: u64 = rest / 0x10_0000_0000_0000;
        let fraction: u64 = rest % 0x10_0000_0000_0000;
        if exponent == 0x7ff {
            return None;
        }
        proof {
            lemma2_to64();
            assert(rest < 0x8000_0000_0000_0000);
            assert(exponent < 0x7ff);
            assert(fraction * 1 == fraction);
        }
        if exponent == 0 {
            Some(Double::of(negative, (fraction, 0)))
        } else {
            Some(Double::of(negative, (0x10_0000_0000_0000 + fraction, (exponent - 1) as u32)))
        }
    }

    /// The bits of a double, or of an infinity where it is too large.
    pub fn to_bits(&self) -> (bits: u64)
        requires
            self.is_valid(),
        ensures
            if is_finite(self@) {
                bits_value(bits) == Some(self@)
            } else if self@ > 0 {
                bits == 0x7ff0_0000_0000_0000
            } else {
                bits == 0xfff0_0000_0000_0000
            },
    {
        proof {
            self.lemma_sign();
            self.lemma_reach();
            lemma2_to64();
        }
        if self.exponent > 2045 {
            return if self.negative {
                0xfff0_0000_0000_0000
            } else {
                0x7ff0_0000_0000_0000
            };
        }
        let size: u64 = self.exponent as u64 * 0x10_0000_0000_0000 + self.mantissa;
        proof {
            let (e, m) = (self.exponent as int, self.mantissa as int);
            if m >= 0x10_0000_0000_0000 {
                lemma_fundamental_div_mod_converse(
                    size as int,
                    0x10_0000_0000_0000,
                    e + 1,
                    m - 0x10_0000_0000_0000,
                );
            } else {
                lemma_fundamental_div_mod_converse(size as int, 0x10_0000_0000_0000, 0, m);
            }
            assert(m * 1 == m);
            assert(size < 0x8000_0000_0000_0000);
        }
        if self.negative {
            size + 0x8000_0000_0000_0000
        } else {
            size
        }
    }
}

impl Double {
    /// The double closest to a quotient of integers.
    pub fn ratio(a: u32, b: u32) -> (ratio: Double)
        requires
            b > 0,
        ensures
            ratio.is_valid(),
            ratio@ == closest(a * one(), b as int),
            ratio.reach() <= 3600,
    {
        let top = Double::from_int(a as i128);
        let bottom = Double::from_int(b as i128);
        proof {
            lemma_integer_stays(a as int);
            lemma_integer_stays(b as int);
            lemma_one_is_large();
            let w = one();
            assert(b * w > 0) by (nonlinear_arith)
                requires
                    b > 0,
                    w > 0,
            ;
            assert(((a * w) * w) * b == (a * w) * (b * w)) by (nonlinear_arith);
            lemma_closest_equal((a * w) * w, b * w, a * w, b as int);
        }
        top.over(&bottom)
    }

    /// The double closest to this one so many times.
    pub fn times_int(&self, n: u32) -> (product: Double)
        requires
            self.is_valid(),
            self.reach() + 1200 <= EXPONENT_LIMIT,
        ensures
            product.is_valid(),
            product@ == closest(self@ * n, 1),
            product.reach() <= self.reach() + 2400,
    {
        let factor = Double::from_int(n as i128);
        proof {
            lemma_integer_stays(n as int);
            lemma_one_is_large();
            let (v, w) = (self@, one());
            assert((v * (n * w)) * 1 == (v * n) * w) by (nonlinear_arith);
            lemma_closest_equal(v * (n * w), w, v * n, 1);
        }
        self.times(&factor)
    }

    /// The double closest to a part of this one.
    pub fn over_int(&self, n: u32) -> (quotient: Double)
        requires
            self.is_valid(),
            n > 0,
            self.reach() + 1200 <= EXPONENT_LIMIT,
        ensures
            quotient.is_valid(),
            quotient@ == closest(self@, n as int),
            quotient.reach() <= self.reach() + 2400,
    {
        let divisor = Double::from_int(n as i128);
        proof {
            lemma_integer_stays(n as int);
            lemma_one_is_large();
            let (v, w) = (self@, one());
            assert(n * w > 0) by (nonlinear_arith)
                requires
                    n > 0,
                    w > 0,
            ;
            assert((v * w) * n == v * (n * w)) by (nonlinear_arith);
            lemma_closest_equal(v * w, n * w, v, n as int);
        }
        self.over(&divisor)
    }
}

impl Double {
    pub fn length(dx: &Double, dy: &Double) -> (length: Double)
        requires
            dx.is_valid(),
            dy.is_valid(),
            dx.reach() + dy.reach() <= 300_000,
        ensures
            length.is_valid(),
            length@ == distance(dx@, dy@),
            length@ >= 0,
            length.reach() <= 2 * (dx.reach() + dy.reach()) + 6_000,
    {
        proof {
            lemma_distance_is_not_negative(dx@, dy@);
        }
        dx.times(dx).plus(&dy.times(dy)).square_root()
    }
}

/// Bits without the sign are in the order of what they are worth, and the sign
/// bit makes of a number its opposite.
pub proof fn lemma_bits_are_in_order(a: u64, b: u64)
    requires
        a < b < 0x7ff0_0000_0000_0000,
    ensures
        bits_value(a) matches Some(x) && bits_value(b) matches Some(y) && 0 <= x < y,
        bits_value((a + 0x8000_0000_0000_0000) as u64) matches Some(x) && x == -bits_value(a)->0,
{
    let unit: int = 0x10_0000_0000_0000;
    let (ea, eb) = (a as int / unit, b as int / unit);
    let (fa, fb) = (a as int % unit, b as int % unit);
    lemma_fundamental_div_mod(a as int, unit);
    lemma_fundamental_div_mod(b as int, unit);
    assert(a % 0x8000_0000_0000_0000 == a && b % 0x8000_0000_0000_0000 == b);
    let x = bits_value(a)->0;
    let y = bits_value(b)->0;
    if ea > 0 {
        lemma_pow2_pos((ea - 1) as nat);
        let p = pow2((ea - 1) as nat) as int;
        assert(0 <= x && x < (2 * unit) * p) by (nonlinear_arith)
            requires
                x == (unit + fa) * p,
                0 <= fa < unit,
                p > 0,
                unit > 0,
        ;
    }
    if eb > 0 {
        lemma_pow2_pos((eb - 1) as nat);
        let q = pow2((eb - 1) as nat) as int;
        assert(y >= unit * q) by (nonlinear_arith)
            requires
                y == (unit + fb) * q,
                fb >= 0,
                q > 0,
        ;
        if ea == eb {
            assert(x < y) by (nonlinear_arith)
                requires
                    x == (unit + fa) * q,
                    y == (unit + fb) * q,
                    fa < fb,
                    q > 0,
            ;
        } else if ea > 0 {
            let p = pow2((ea - 1) as nat) as int;
            lemma_pow2_unfold(ea as nat);
            lemma_pow2_grows(ea as nat, (eb - 1) as nat);
            assert((2 * unit) * p <= unit * q) by (nonlinear_arith)
                requires
                    2 * p <= q,
                    unit > 0,
            ;
        } else {
            assert(unit * q >= unit) by (nonlinear_arith)
                requires
                    q >= 1,
                    unit > 0,
            ;
        }
    }
    let s = (a + 0x8000_0000_0000_0000) as u64;
    assert(s == a + 0x8000_0000_0000_0000);
    assert(s % 0x8000_0000_0000_0000 == a);
}

} // verus!
