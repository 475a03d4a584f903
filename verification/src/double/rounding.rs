//! What it means to round: to an integer, and to the double closest to an
//! exact result.

use vstd::arithmetic::div_mod::{
    lemma_div_is_ordered, lemma_fundamental_div_mod, lemma_fundamental_div_mod_converse,
};
use vstd::arithmetic::power2::{
    lemma2_to64, lemma2_to64_rest, lemma_pow2_adds, lemma_pow2_pos, lemma_pow2_strictly_increases,
    lemma_pow2_unfold, pow2,
};
use vstd::prelude::*;

verus! {

/// The grains of one.
pub open spec fn one() -> int {
    pow2(1074) as int
}

/// The integer closest to `value / unit`; of two, the one further from zero.
pub open spec fn rounded(value: int, unit: int) -> int {
    if value >= 0 {
        (2 * value + unit) / (2 * unit)
    } else {
        -((2 * (-value) + unit) / (2 * unit))
    }
}

/// The integer closest to `a / b`; of two, the even one.
pub open spec fn half_even(a: int, b: int) -> int {
    let whole = a / b;
    let rest = a % b;
    if 2 * rest < b || (2 * rest == b && whole % 2 == 0) {
        whole
    } else {
        whole + 1
    }
}

/// `num / den` grains have 53 bits before the point in units of `2^e` grains,
/// or fewer in single grains.
pub open spec fn is_scale(num: int, den: int, e: nat) -> bool {
    num < den * pow2(53 + e) && (e == 0 || num >= den * pow2((52 + e) as nat))
}

pub open spec fn scale(num: int, den: int) -> nat {
    choose|e: nat| is_scale(num, den, e)
}

/// The double closest to `num / den` grains, where that is not negative.
pub open spec fn near(num: int, den: int) -> int {
    let unit = pow2(scale(num, den)) as int;
    half_even(num, den * unit) * unit
}

/// The double closest to `num / den` grains.
pub open spec fn closest(num: int, den: int) -> int {
    if num >= 0 {
        near(num, den)
    } else {
        -near(-num, den)
    }
}

pub(crate) proof fn lemma_scale_is_unique(num: int, den: int, e: nat, f: nat)
    requires
        den > 0,
        is_scale(num, den, e),
        is_scale(num, den, f),
    ensures
        e == f,
{
    if e < f {
        if 53 + e < 52 + f {
            lemma_pow2_strictly_increases(53 + e, (52 + f) as nat);
        }
        let (a, b) = (pow2(53 + e) as int, pow2((52 + f) as nat) as int);
        assert(den * a <= den * b) by (nonlinear_arith)
            requires
                den > 0,
                a <= b,
        ;
    } else if f < e {
        if 53 + f < 52 + e {
            lemma_pow2_strictly_increases(53 + f, (52 + e) as nat);
        }
        let (a, b) = (pow2(53 + f) as int, pow2((52 + e) as nat) as int);
        assert(den * a <= den * b) by (nonlinear_arith)
            requires
                den > 0,
                a <= b,
        ;
    }
}

pub(crate) proof fn lemma_near_at(num: int, den: int, e: nat)
    requires
        den > 0,
        is_scale(num, den, e),
    ensures
        scale(num, den) == e,
        near(num, den) == half_even(num, den * pow2(e)) * pow2(e),
{
    lemma_scale_is_unique(num, den, e, scale(num, den));
}

/// Fractions that are equal have equal quotients.
pub(crate) proof fn lemma_half_even_scales(a: int, b: int, k: int)
    requires
        b > 0,
        k > 0,
    ensures
        half_even(a * k, b * k) == half_even(a, b),
{
    let (q, r) = (a / b, a % b);
    lemma_fundamental_div_mod(a, b);
    assert(0 <= r * k < b * k) by (nonlinear_arith)
        requires
            0 <= r < b,
            k > 0,
    ;
    assert(a * k == q * (b * k) + r * k) by (nonlinear_arith)
        requires
            a == b * q + r,
    ;
    lemma_fundamental_div_mod_converse(a * k, b * k, q, r * k);
    assert(2 * (r * k) < b * k <==> 2 * r < b) by (nonlinear_arith)
        requires
            k > 0,
    ;
    assert(2 * (r * k) == b * k <==> 2 * r == b) by (nonlinear_arith)
        requires
            k > 0,
    ;
}

/// The double closest to a fraction depends on what the fraction is worth.
pub(crate) proof fn lemma_near_scales(num: int, den: int, k: int)
    requires
        den > 0,
        k > 0,
        num >= 0,
    ensures
        near(num * k, den * k) == near(num, den),
{
    lemma_scale_exists(num, den);
    let e = scale(num, den);
    let (high, low, unit) = (
        pow2(53 + e) as int,
        pow2((52 + e) as nat) as int,
        pow2(e) as int,
    );
    lemma_pow2_pos(e);
    assert(den * k > 0) by (nonlinear_arith)
        requires
            den > 0,
            k > 0,
    ;
    assert(num * k < (den * k) * high) by (nonlinear_arith)
        requires
            num < den * high,
            k > 0,
    ;
    assert(num >= den * low ==> num * k >= (den * k) * low) by (nonlinear_arith)
        requires
            k > 0,
    ;
    lemma_near_at(num * k, den * k, e);
    assert((den * k) * unit == (den * unit) * k) by (nonlinear_arith);
    assert(den * unit > 0) by (nonlinear_arith)
        requires
            den > 0,
            unit > 0,
    ;
    lemma_half_even_scales(num, den * unit, k);
}

pub(crate) proof fn lemma_scale_up_to(num: int, den: int, e: nat)
    requires
        den > 0,
        num < den * pow2(53 + e),
    ensures
        exists|f: nat| f <= e && is_scale(num, den, f),
    decreases e,
{
    if e == 0 || num >= den * pow2((52 + e) as nat) {
        assert(is_scale(num, den, e));
    } else {
        let f = (e - 1) as nat;
        assert(53 + f == 52 + e);
        lemma_scale_up_to(num, den, f);
    }
}

pub(crate) proof fn lemma_pow2_exceeds(e: nat)
    ensures
        pow2(e) > e,
    decreases e,
{
    lemma_pow2_pos(e);
    if e > 0 {
        lemma_pow2_unfold(e);
        lemma_pow2_exceeds((e - 1) as nat);
    }
}

pub(crate) proof fn lemma_scale_exists(num: int, den: int)
    requires
        den > 0,
        num >= 0,
    ensures
        is_scale(num, den, scale(num, den)),
{
    let e = num as nat;
    lemma_pow2_exceeds(53 + e);
    let high = pow2(53 + e) as int;
    assert(num < den * high) by (nonlinear_arith)
        requires
            den > 0,
            num < high,
            num >= 0,
    ;
    lemma_scale_up_to(num, den, e);
    let f = choose|f: nat| f <= e && is_scale(num, den, f);
    lemma_scale_is_unique(num, den, f, scale(num, den));
}

/// Where a fraction lies strictly between two neighbours of a fine grid, the
/// rounding to a coarser one is decided by the lower neighbour.
pub(crate) proof fn lemma_half_even_between(a: int, b: int, n: int, t: int)
    requires
        b > 0,
        t >= 2,
        t % 2 == 0,
        n >= 0,
        b * n < a < b * (n + 1),
    ensures
        half_even(a, b * t) == if 2 * (n % t) < t {
            n / t
        } else {
            n / t + 1
        },
{
    let (q, r) = (n / t, n % t);
    lemma_fundamental_div_mod(n, t);
    let rest = a - b * (t * q);
    assert(b * r < rest < b * (r + 1)) by (nonlinear_arith)
        requires
            rest == a - b * (t * q),
            b * n < a < b * (n + 1),
            n == t * q + r,
    ;
    assert(0 <= b * r) by (nonlinear_arith)
        requires
            b > 0,
            r >= 0,
    ;
    assert(b * (r + 1) <= b * t) by (nonlinear_arith)
        requires
            b > 0,
            r + 1 <= t,
    ;
    assert(b * (t * q) == q * (b * t)) by (nonlinear_arith);
    lemma_fundamental_div_mod_converse(a, b * t, q, rest);
    let half = t / 2;
    assert(b * t == 2 * (b * half)) by (nonlinear_arith)
        requires
            t == 2 * half,
    ;
    if r < half {
        assert(b * (r + 1) <= b * half) by (nonlinear_arith)
            requires
                b > 0,
                r + 1 <= half,
        ;
    } else {
        assert(b * half <= b * r) by (nonlinear_arith)
            requires
                b > 0,
                half <= r,
        ;
    }
}

/// `num / den` lies strictly between `n` and `n + 1` units of `2^(a - b)`.
pub open spec fn is_between(num: int, den: int, n: int, a: nat, b: nat) -> bool {
    &&& den > 0
    &&& n >= pow2(54)
    &&& (den * pow2(a)) * n < num * pow2(b) < (den * pow2(a)) * (n + 1)
}

pub(crate) proof fn lemma_scale_between(num: int, den: int, n: int, a: nat, b: nat, e: nat)
    requires
        is_between(num, den, n, a, b),
        is_scale(num, den, e),
    ensures
        e + b >= a + 2,
        n + 1 <= pow2((53 + e + b - a) as nat),
        e > 0 ==> n >= pow2((52 + e + b - a) as nat),
{
    let unit = den * pow2(a);
    let shift = pow2(b) as int;
    lemma_pow2_pos(a);
    lemma_pow2_pos(b);
    assert(unit > 0) by (nonlinear_arith)
        requires
            den > 0,
            pow2(a) > 0,
            unit == den * pow2(a),
    ;
    let high = pow2(53 + e) as int;
    assert(num * shift < (den * high) * shift) by (nonlinear_arith)
        requires
            num < den * high,
            shift > 0,
    ;
    lemma_pow2_adds(53 + e, b);
    assert((den * high) * shift == den * (high * shift)) by (nonlinear_arith);
    let top = pow2(53 + e + b) as int;
    if 53 + e + b < 55 + a {
        lemma_pow2_adds(54, a);
        if 53 + e + b < 54 + a {
            lemma_pow2_strictly_increases(53 + e + b, 54 + a);
        }
        let (p54, pa) = (pow2(54) as int, pow2(a) as int);
        assert(unit * n >= den * (p54 * pa)) by (nonlinear_arith)
            requires
                unit == den * pa,
                n >= p54,
                den > 0,
                pa > 0,
        ;
        assert(den * top <= den * (p54 * pa)) by (nonlinear_arith)
            requires
                den > 0,
                top <= p54 * pa,
        ;
    }
    let d = (e + b - a) as nat;
    lemma_pow2_adds(53 + d, a);
    let bound = pow2(53 + d) as int;
    let pa = pow2(a) as int;
    assert(den * top == unit * bound) by (nonlinear_arith)
        requires
            top == bound * pa,
            unit == den * pa,
    ;
    assert(n < bound) by (nonlinear_arith)
        requires
            unit * n < unit * bound,
            unit > 0,
    ;
    if e > 0 {
        let low = pow2((52 + e) as nat) as int;
        let floor = pow2((52 + d) as nat) as int;
        lemma_pow2_adds((52 + e) as nat, b);
        lemma_pow2_adds((52 + d) as nat, a);
        assert(52 + e + b == 52 + d + a);
        assert(low * shift == floor * pa);
        assert(num * shift >= unit * floor) by (nonlinear_arith)
            requires
                num >= den * low,
                shift > 0,
                low * shift == floor * pa,
                unit == den * pa,
        ;
        assert(n + 1 > floor) by (nonlinear_arith)
            requires
                unit * floor < unit * (n + 1),
                unit > 0,
        ;
    }
}

pub(crate) proof fn lemma_between_has_scale(num: int, den: int, n: int, a: nat, b: nat, e: nat)
    requires
        is_between(num, den, n, a, b),
        e + b >= a + 2,
        n + 1 <= pow2((53 + e + b - a) as nat),
        e > 0 ==> n >= pow2((52 + e + b - a) as nat),
    ensures
        is_scale(num, den, e),
        near(num, den) == if 2 * (n % (pow2((e + b - a) as nat) as int)) < pow2(
            (e + b - a) as nat,
        ) {
            (n / (pow2((e + b - a) as nat) as int)) * pow2(e)
        } else {
            (n / (pow2((e + b - a) as nat) as int) + 1) * pow2(e)
        },
{
    let unit = den * pow2(a);
    let shift = pow2(b) as int;
    let pa = pow2(a) as int;
    let d = (e + b - a) as nat;
    lemma_pow2_pos(a);
    lemma_pow2_pos(b);
    lemma_pow2_pos(e);
    assert(unit > 0) by (nonlinear_arith)
        requires
            den > 0,
            pa > 0,
            unit == den * pa,
    ;
    let high = pow2(53 + e) as int;
    let bound = pow2(53 + d) as int;
    lemma_pow2_adds(53 + e, b);
    lemma_pow2_adds(53 + d, a);
    assert(53 + e + b == 53 + d + a);
    assert(num < den * high) by (nonlinear_arith)
        requires
            num * shift < unit * (n + 1),
            n + 1 <= bound,
            unit > 0,
            unit == den * pa,
            high * shift == bound * pa,
            shift > 0,
    ;
    if e > 0 {
        let low = pow2((52 + e) as nat) as int;
        let floor = pow2((52 + d) as nat) as int;
        lemma_pow2_adds((52 + e) as nat, b);
        lemma_pow2_adds((52 + d) as nat, a);
        assert(52 + e + b == 52 + d + a);
        assert(num >= den * low) by (nonlinear_arith)
            requires
                num * shift > unit * n,
                n >= floor,
                unit > 0,
                unit == den * pa,
                low * shift == floor * pa,
                shift > 0,
        ;
    }
    lemma_near_at(num, den, e);
    let pe = pow2(e) as int;
    let t = pow2(d) as int;
    lemma_pow2_adds(e, b);
    lemma_pow2_adds(d, a);
    assert(e + b == d + a);
    assert((den * pe) * shift == unit * t) by (nonlinear_arith)
        requires
            pe * shift == t * pa,
            unit == den * pa,
    ;
    assert(den * pe > 0) by (nonlinear_arith)
        requires
            den > 0,
            pe > 0,
    ;
    lemma_half_even_scales(num, den * pe, shift);
    lemma_pow2_unfold(d);
    lemma_pow2_unfold((d - 1) as nat);
    lemma_pow2_pos((d - 2) as nat);
    lemma_half_even_between(num * shift, unit, n, t);
}

/// What lies strictly between two neighbours of a fine enough grid is rounded
/// as their middle is.
pub(crate) proof fn lemma_near_between(num: int, den: int, n: int, a: nat, b: nat)
    requires
        is_between(num, den, n, a, b),
        num >= 0,
    ensures
        near(num, den) == near((2 * n + 1) * pow2(a), 2 * pow2(b) as int),
{
    lemma_scale_exists(num, den);
    let e = scale(num, den);
    lemma_scale_between(num, den, n, a, b, e);
    lemma_between_has_scale(num, den, n, a, b, e);
    lemma_pow2_pos(a);
    lemma_pow2_pos(b);
    let (pa, pb) = (pow2(a) as int, pow2(b) as int);
    let (other, below) = ((2 * n + 1) * pa, 2 * pb);
    assert((below * pa) * n < other * pb < (below * pa) * (n + 1)) by (nonlinear_arith)
        requires
            other == (2 * n + 1) * pa,
            below == 2 * pb,
            pa > 0,
            pb > 0,
    ;
    lemma_between_has_scale(other, below, n, a, b, e);
}

pub(crate) proof fn lemma_pow2_known()
    ensures
        pow2(52) == 0x10_0000_0000_0000,
        pow2(53) == 0x20_0000_0000_0000,
        pow2(54) == 0x40_0000_0000_0000,
        pow2(63) == 0x8000_0000_0000_0000,
        pow2(64) == 0x1_0000_0000_0000_0000,
        pow2(127) == 0x8000_0000_0000_0000_0000_0000_0000_0000,
        pow2(128) == 0x1_0000_0000_0000_0000_0000_0000_0000_0000,
{
    lemma2_to64();
    lemma2_to64_rest();
    lemma_pow2_adds(63, 64);
    lemma_pow2_adds(64, 64);
}

pub(crate) proof fn lemma_pow2_grows(a: nat, b: nat)
    requires
        a <= b,
    ensures
        pow2(a) <= pow2(b),
{
    if a < b {
        lemma_pow2_strictly_increases(a, b);
    }
}

pub open spec fn up(f: int) -> nat {
    if f > 0 {
        f as nat
    } else {
        0
    }
}

pub open spec fn down(f: int) -> nat {
    up(-f)
}

/// The double closest to `n` times `2^f` grains.
pub open spec fn near_binary(n: int, f: int) -> int {
    near(n * pow2(up(f)), pow2(down(f)) as int)
}

pub(crate) proof fn lemma_binary(n: int, f: int, d: nat)
    requires
        n >= 0,
        f + d >= 0,
        n < pow2(53 + d),
        f + d > 0 ==> d > 0 && n >= pow2((52 + d) as nat) || d == 0 && n >= pow2(52),
    ensures
        near_binary(n, f) == half_even(n, pow2(d) as int) * pow2((f + d) as nat),
{
    let e = (f + d) as nat;
    let (p, q) = (pow2(up(f)) as int, pow2(down(f)) as int);
    lemma_pow2_pos(up(f));
    lemma_pow2_pos(down(f));
    lemma_pow2_pos(d);
    // 2^e q == 2^d p
    lemma_pow2_adds(e, down(f));
    lemma_pow2_adds(d, up(f));
    assert(e + down(f) == d + up(f));
    lemma_pow2_adds(53, e);
    lemma_pow2_adds(53, d);
    lemma_pow2_adds(52, e);
    lemma_pow2_adds(52, d);
    let (pe, pd) = (pow2(e) as int, pow2(d) as int);
    let (high, low) = (pow2(53) as int, pow2(52) as int);
    assert(n * p < q * (high * pe)) by (nonlinear_arith)
        requires
            n < high * pd,
            pe * q == pd * p,
            p > 0,
    ;
    if e > 0 {
        assert(n >= low * pd) by {
            lemma2_to64();
        }
        assert(n * p >= q * (low * pe)) by (nonlinear_arith)
            requires
                n >= low * pd,
                pe * q == pd * p,
                p > 0,
        ;
    }
    lemma_near_at(n * p, q, e);
    assert(q * pe == pd * p) by (nonlinear_arith)
        requires
            pe * q == pd * p,
    ;
    lemma_half_even_scales(n, pd, p);
}

pub(crate) proof fn lemma_doubled(n: int, f: int)
    requires
        n >= 0,
        f > 0,
    ensures
        near_binary(2 * n, f - 1) == near_binary(n, f),
{
    lemma_pow2_unfold(f as nat);
    let (p, h) = (pow2(f as nat) as int, pow2((f - 1) as nat) as int);
    assert(n * p == (2 * n) * h) by (nonlinear_arith)
        requires
            p == 2 * h,
    ;
}

/// Equal fractions are closest to the same double.
pub proof fn lemma_near_equal(a: int, b: int, c: int, d: int)
    requires
        b > 0,
        d > 0,
        a >= 0,
        c >= 0,
        a * d == c * b,
    ensures
        near(a, b) == near(c, d),
{
    lemma_near_scales(a, b, d);
    lemma_near_scales(c, d, b);
    assert(b * d == d * b) by (nonlinear_arith);
}

pub(crate) proof fn lemma_near_zero(den: int)
    requires
        den > 0,
    ensures
        near(0, den) == 0,
{
    lemma_pow2_pos(53);
    lemma2_to64();
    let high = pow2(53) as int;
    assert(den * high > 0) by (nonlinear_arith)
        requires
            den > 0,
            high > 0,
    ;
    lemma_near_at(0, den, 0);
    lemma_fundamental_div_mod_converse(0, den * pow2(0), 0, 0);
}

pub(crate) proof fn lemma_halved(n: int, a: nat, b: nat)
    requires
        n >= 0,
        a == 0 || b == 0,
    ensures
        near_binary(n, a - b - 1) == near(n * pow2(a), 2 * pow2(b) as int),
{
    lemma_pow2_pos(a);
    lemma_pow2_pos(b);
    lemma2_to64();
    if a > 0 {
        lemma_pow2_unfold(a);
        let h = pow2((a - 1) as nat) as int;
        assert(n * pow2(a) == (n * h) * 2) by (nonlinear_arith)
            requires
                pow2(a) == 2 * h,
        ;
        assert(n * h >= 0) by (nonlinear_arith)
            requires
                n >= 0,
                pow2(a) == 2 * h,
                pow2(a) > 0,
        ;
        lemma_near_scales(n * h, 1, 2);
    } else {
        lemma_pow2_unfold((b + 1) as nat);
        assert(n * pow2(0) == n);
    }
}

/// The whole part of a square root.
pub open spec fn root(x: int) -> int {
    choose|s: int| is_root(s, x)
}

pub open spec fn is_root(s: int, x: int) -> bool {
    s >= 0 && s * s <= x < (s + 1) * (s + 1)
}

/// The double closest to the square root of a double that is not negative: its
/// halves of a grain decide, and whether anything is left beyond them.
pub open spec fn near_root(value: int) -> int {
    let x = 4 * (value * one());
    let halves = root(x);
    near(
        2 * halves + if halves * halves < x {
            1int
        } else {
            0
        },
        4,
    )
}

pub(crate) proof fn lemma_root_is_unique(s: int, x: int)
    requires
        is_root(s, x),
    ensures
        root(x) == s,
{
    let t = root(x);
    assert(is_root(t, x));
    assert(s == t) by (nonlinear_arith)
        requires
            s >= 0,
            t >= 0,
            s * s <= x < (s + 1) * (s + 1),
            t * t <= x < (t + 1) * (t + 1),
    ;
}

pub(crate) proof fn lemma_root_between(n: int, wide: int, x: nat)
    requires
        is_root(n, wide),
    ensures
        ({
            let p = pow2(x) as int;
            let total = 4 * (wide * (p * p));
            let s = root(total);
            &&& is_root(s, total)
            &&& n * (2 * p) <= s < (n + 1) * (2 * p)
            &&& (n * n == wide ==> s == n * (2 * p) && s * s == total)
            &&& (n * n < wide ==> s > n * (2 * p) || s * s < total)
        }),
{
    let p = pow2(x) as int;
    lemma_pow2_pos(x);
    let q = 2 * p;
    let total = 4 * (wide * (p * p));
    assert(total == wide * (q * q)) by (nonlinear_arith)
        requires
            total == 4 * (wide * (p * p)),
            q == 2 * p,
    ;
    assert(total >= 0) by (nonlinear_arith)
        requires
            total == wide * (q * q),
            wide >= 0,
    ;
    lemma_root_exists(total);
    let s = root(total);
    assert(n * q < s + 1) by (nonlinear_arith)
        requires
            n * n <= wide,
            total == wide * (q * q),
            total < (s + 1) * (s + 1),
            q > 0,
            n >= 0,
            s >= 0,
    ;
    assert(s < (n + 1) * q) by (nonlinear_arith)
        requires
            wide < (n + 1) * (n + 1),
            total == wide * (q * q),
            s * s <= total,
            q > 0,
            n >= 0,
            s >= 0,
    ;
    let base = n * q;
    assert(base * base == (n * n) * (q * q)) by (nonlinear_arith)
        requires
            base == n * q,
    ;
    if n * n == wide {
        assert(s <= base) by (nonlinear_arith)
            requires
                s * s <= total,
                base * base == total,
                base >= 0,
                s >= 0,
        ;
    } else {
        assert(base * base < total) by (nonlinear_arith)
            requires
                base * base == (n * n) * (q * q),
                total == wide * (q * q),
                n * n < wide,
                q > 0,
        ;
    }
}

pub(crate) proof fn lemma_root_exists(x: int)
    requires
        x >= 0,
    ensures
        is_root(root(x), x),
{
    assert(x < (x + 1) * (x + 1)) by (nonlinear_arith)
        requires
            x >= 0,
    ;
    lemma_root_up_to(x, x + 1);
}

pub(crate) proof fn lemma_root_up_to(x: int, s: int)
    requires
        x >= 0,
        s > 0,
        x < s * s,
    ensures
        exists|t: int| is_root(t, x),
    decreases s,
{
    let t = s - 1;
    if t * t <= x {
        assert(is_root(t, x));
    } else {
        assert(t > 0) by (nonlinear_arith)
            requires
                t * t > x,
                x >= 0,
                t >= 0,
        ;
        lemma_root_up_to(x, t);
    }
}

pub(crate) proof fn lemma_near_is_positive(value: int)
    requires
        value > 0,
    ensures
        near(value, 1) > 0,
{
    lemma_scale_exists(value, 1);
    let e = scale(value, 1);
    lemma_pow2_pos(e);
    lemma2_to64();
    let unit = pow2(e) as int;
    let q = half_even(value, unit);
    assert(1 * unit == unit);
    if e == 0 {
        lemma_fundamental_div_mod_converse(value, 1, value, 0);
    } else {
        lemma_pow2_adds(52, e);
        lemma_pow2_known();
        lemma_fundamental_div_mod(value, unit);
        let (w, r) = (value / unit, value % unit);
        assert(w > 0) by (nonlinear_arith)
            requires
                value == unit * w + r,
                r < unit,
                value >= 0x10_0000_0000_0000 * unit,
                unit > 0,
        ;
    }
    assert(q * unit > 0) by (nonlinear_arith)
        requires
            q > 0,
            unit > 0,
    ;
}

/// The integer next to `a / b`, upwards.
pub open spec fn ceiling(a: int, b: int) -> int {
    if a % b == 0 {
        a / b
    } else {
        a / b + 1
    }
}

/// An integer, or the end of the range that it lies beyond.
pub open spec fn within(value: int, low: int, high: int) -> int {
    if value < low {
        low
    } else if value > high {
        high
    } else {
        value
    }
}

/// A double that is not too large to be one.
pub open spec fn is_finite(value: int) -> bool {
    -pow2(2098) < value < pow2(2098)
}

pub proof fn lemma_rounded(value: int, unit: int)
    requires
        value >= 0,
        unit > 0,
    ensures
        rounded(value, unit) == if 2 * (value % unit) >= unit {
            value / unit + 1
        } else {
            value / unit
        },
        rounded(-value, unit) == -rounded(value, unit),
{
    let (q, r) = (value / unit, value % unit);
    lemma_fundamental_div_mod(value, unit);
    let top = 2 * value + unit;
    assert(unit * q == q * unit) by (nonlinear_arith);
    if 2 * r >= unit {
        assert((q + 1) * (2 * unit) == 2 * (q * unit) + 2 * unit) by (nonlinear_arith);
        lemma_fundamental_div_mod_converse(top, 2 * unit, q + 1, 2 * r - unit);
    } else {
        assert(q * (2 * unit) == 2 * (q * unit)) by (nonlinear_arith);
        lemma_fundamental_div_mod_converse(top, 2 * unit, q, 2 * r + unit);
    }
    if value == 0 {
        lemma_fundamental_div_mod_converse(unit, 2 * unit, 0, unit);
    }
}

pub(crate) proof fn lemma_whole_is_large(value: int, unit: int)
    requires
        unit > 0,
        value >= 0x1_0000_0000_0000_0000 * unit,
    ensures
        value / unit >= 0x1_0000_0000_0000_0000,
{
    lemma_fundamental_div_mod(value, unit);
    let (q, r) = (value / unit, value % unit);
    assert(q >= 0x1_0000_0000_0000_0000) by (nonlinear_arith)
        requires
            value == unit * q + r,
            0 <= r < unit,
            value >= 0x1_0000_0000_0000_0000 * unit,
            unit > 0,
    ;
}

pub(crate) proof fn lemma_half_even_bounds(a: int, b: int)
    requires
        b > 0,
    ensures
        -b <= 2 * (half_even(a, b) * b - a) <= b,
{
    let (q, r) = (a / b, a % b);
    lemma_fundamental_div_mod(a, b);
    assert(q * b == b * q && (q + 1) * b == b * q + b) by (nonlinear_arith);
}

pub(crate) proof fn lemma_half_even_is_monotone(a: int, c: int, b: int)
    requires
        b > 0,
        a <= c,
    ensures
        half_even(a, b) <= half_even(c, b),
{
    let (q, r) = (a / b, a % b);
    let (s, t) = (c / b, c % b);
    lemma_fundamental_div_mod(a, b);
    lemma_fundamental_div_mod(c, b);
    assert(q <= s) by (nonlinear_arith)
        requires
            a == b * q + r,
            c == b * s + t,
            a <= c,
            0 <= r < b,
            0 <= t < b,
    ;
    if q == s {
        assert(b * q == b * s);
    }
}

/// Rounding is off by half of the last bit at most.
pub proof fn lemma_near_error(num: int, den: int)
    requires
        num >= 0,
        den > 0,
    ensures
        (near(num, den) * den - num) * 0x20_0000_0000_0000 <= num + den * 0x10_0000_0000_0000,
        (num - near(num, den) * den) * 0x20_0000_0000_0000 <= num + den * 0x10_0000_0000_0000,
{
    lemma_scale_exists(num, den);
    lemma_pow2_known();
    lemma2_to64();
    let e = scale(num, den);
    let unit = pow2(e) as int;
    lemma_pow2_pos(e);
    let whole = half_even(num, den * unit);
    assert(den * unit > 0) by (nonlinear_arith)
        requires
            den > 0,
            unit > 0,
    ;
    lemma_half_even_bounds(num, den * unit);
    let off = near(num, den) * den - num;
    assert(whole * (den * unit) == (whole * unit) * den) by (nonlinear_arith);
    assert(-(den * unit) <= 2 * off <= den * unit);
    if e == 0 {
        assert(unit == 1 && den * 1 == den);
    } else {
        lemma_pow2_adds(52, e);
        assert(den * (0x10_0000_0000_0000 * unit) == 0x10_0000_0000_0000 * (den * unit))
            by (nonlinear_arith);
    }
}

pub(crate) proof fn lemma_near_bounds(num: int, den: int)
    requires
        num >= 0,
        den > 0,
    ensures
        near(num, den) <= pow2((53 + scale(num, den)) as nat),
        scale(num, den) > 0 ==> near(num, den) >= pow2((52 + scale(num, den)) as nat),
        near(num, den) >= 0,
        exists|m: int|
            0 <= m <= pow2(53) && near(num, den) == #[trigger] (m * pow2(scale(num, den))),
{
    lemma_scale_exists(num, den);
    let e = scale(num, den);
    let unit = pow2(e) as int;
    lemma_pow2_pos(e);
    lemma_pow2_pos(53);
    lemma_pow2_adds(53, e);
    lemma_pow2_adds(52, e);
    let step = den * unit;
    assert(step > 0) by (nonlinear_arith)
        requires
            den > 0,
            unit > 0,
            step == den * unit,
    ;
    let m = half_even(num, step);
    let (high, low) = (pow2(53) as int, pow2(52) as int);
    lemma_half_even_is_monotone(0, num, step);
    lemma_fundamental_div_mod_converse(0, step, 0, 0);
    assert(num <= high * step) by (nonlinear_arith)
        requires
            num < den * (high * unit),
            step == den * unit,
    ;
    lemma_half_even_is_monotone(num, high * step, step);
    lemma_fundamental_div_mod_converse(high * step, step, high, 0);
    assert(m * unit <= high * unit) by (nonlinear_arith)
        requires
            m <= high,
            unit > 0,
    ;
    assert(m * unit >= 0) by (nonlinear_arith)
        requires
            m >= 0,
            unit > 0,
    ;
    if e > 0 {
        assert(low * step <= num) by (nonlinear_arith)
            requires
                num >= den * (low * unit),
                step == den * unit,
        ;
        lemma_half_even_is_monotone(low * step, num, step);
        lemma_fundamental_div_mod_converse(low * step, step, low, 0);
        assert(m * unit >= low * unit) by (nonlinear_arith)
            requires
                m >= low,
                unit > 0,
        ;
    }
    assert(near(num, den) == m * pow2(e));
}

pub(crate) proof fn lemma_near_is_monotone(a: int, b: int, c: int, d: int)
    requires
        0 <= a,
        0 <= c,
        b > 0,
        d > 0,
        a * d <= c * b,
    ensures
        0 <= near(a, b) <= near(c, d),
{
    lemma_near_scales(a, b, d);
    lemma_near_scales(c, d, b);
    let den = b * d;
    assert(d * b == den) by (nonlinear_arith)
        requires
            den == b * d,
    ;
    assert(den > 0 && a * d >= 0 && c * b >= 0) by (nonlinear_arith)
        requires
            den == b * d,
            b > 0,
            d > 0,
            a >= 0,
            c >= 0,
    ;
    let (x, y) = (a * d, c * b);
    lemma_scale_exists(x, den);
    lemma_scale_exists(y, den);
    lemma_near_bounds(x, den);
    lemma_near_bounds(y, den);
    let (e, f) = (scale(x, den), scale(y, den));
    if e == f {
        let unit = pow2(e) as int;
        lemma_pow2_pos(e);
        assert(den * unit > 0) by (nonlinear_arith)
            requires
                den > 0,
                unit > 0,
        ;
        lemma_half_even_is_monotone(x, y, den * unit);
        let (m, n) = (half_even(x, den * unit), half_even(y, den * unit));
        assert(m * unit <= n * unit) by (nonlinear_arith)
            requires
                m <= n,
                unit > 0,
        ;
    } else if e < f {
        lemma_pow2_grows(53 + e, (52 + f) as nat);
    } else {
        lemma_pow2_grows(53 + f, (52 + e) as nat);
        let (high, low) = (pow2(53 + f) as int, pow2((52 + e) as nat) as int);
        assert(den * high <= den * low) by (nonlinear_arith)
            requires
                den > 0,
                high <= low,
        ;
    }
}

/// Rounding keeps the order.
pub proof fn lemma_closest_is_monotone(a: int, b: int, c: int, d: int)
    requires
        b > 0,
        d > 0,
        a * d <= c * b,
    ensures
        closest(a, b) <= closest(c, d),
        a >= 0 ==> closest(a, b) >= 0,
        c <= 0 ==> closest(c, d) <= 0,
{
    if a >= 0 {
        assert(c >= 0) by (nonlinear_arith)
            requires
                a * d <= c * b,
                a >= 0,
                b > 0,
                d > 0,
        ;
        lemma_near_is_monotone(a, b, c, d);
        if c == 0 {
            lemma_near_zero(d);
        }
    } else if c < 0 {
        assert((-c) * b <= (-a) * d) by (nonlinear_arith)
            requires
                a * d <= c * b,
        ;
        lemma_near_is_monotone(-c, d, -a, b);
    } else {
        lemma_near_bounds(-a, b);
        lemma_near_bounds(c, d);
        if c == 0 {
            lemma_near_zero(d);
        }
    }
}

/// So many grains are a double: they have at most 53 significant bits.
pub open spec fn is_double(value: int) -> bool {
    exists|m: int, e: nat|
        -pow2(53) <= m <= pow2(53) && value == #[trigger] (m * pow2(e))
}

/// What is rounded is a double.
pub proof fn lemma_closest_is_a_double(num: int, den: int)
    requires
        den > 0,
    ensures
        is_double(closest(num, den)),
{
    let size = if num >= 0 {
        num
    } else {
        -num
    };
    lemma_near_bounds(size, den);
    let e = scale(size, den);
    let m = choose|m: int| 0 <= m <= pow2(53) && near(size, den) == #[trigger] (m * pow2(e));
    if num >= 0 {
        assert(closest(num, den) == m * pow2(e));
    } else {
        assert((-m) * pow2(e) == -(m * pow2(e))) by (nonlinear_arith);
        assert(closest(num, den) == (-m) * pow2(e));
    }
}

/// A double is rounded to itself.
pub proof fn lemma_double_stays(value: int)
    requires
        is_double(value),
    ensures
        closest(value, 1) == value,
{
    let (m, e) = choose|m: int, e: nat|
        -pow2(53) <= m <= pow2(53) && value == #[trigger] (m * pow2(e));
    let size = if m >= 0 {
        m
    } else {
        -m
    };
    assert((-m) * pow2(e) == -(m * pow2(e))) by (nonlinear_arith);
    lemma_near_of_double(size, e);
    lemma_pow2_pos(e);
    let p = pow2(e) as int;
    assert(m >= 0 <==> m * p >= 0) by (nonlinear_arith)
        requires
            p > 0,
    ;
}

pub(crate) proof fn lemma_near_of_double(m: int, e: nat)
    requires
        0 <= m <= pow2(53),
    ensures
        near(m * pow2(e), 1) == m * pow2(e),
    decreases e,
{
    let p = pow2(e) as int;
    lemma_pow2_pos(e);
    lemma_pow2_known();
    lemma2_to64();
    if m == 0 {
        assert(0 * p == 0);
        lemma_near_zero(1);
    } else if m == pow2(53) {
        lemma_pow2_adds(53, e);
        lemma_pow2_adds(52, (e + 1) as nat);
        lemma_pow2_adds(1, e);
        assert(m * p == pow2(52) * pow2((e + 1) as nat));
        let low = pow2(52) as int;
        lemma_binary(low, (e + 1) as int, 0);
        lemma_fundamental_div_mod_converse(low, 1, low, 0);
    } else if m >= pow2(52) || e == 0 {
        assert(m * p >= 0) by (nonlinear_arith)
            requires
                m >= 0,
                p > 0,
        ;
        assert(near_binary(m, e as int) == near(m * p, 1)) by {
            assert(up(e as int) == e);
        }
        lemma_binary(m, e as int, 0);
        lemma_fundamental_div_mod_converse(m, 1, m, 0);
    } else {
        lemma_pow2_unfold(e);
        let h = pow2((e - 1) as nat) as int;
        assert(m * p == (2 * m) * h) by (nonlinear_arith)
            requires
                p == 2 * h,
        ;
        lemma_near_of_double(2 * m, (e - 1) as nat);
    }
}

/// Rounding goes to the closest integer: it is off by half a unit at most.
pub proof fn lemma_rounding_is_closest(value: int, unit: int)
    requires
        unit > 0,
    ensures
        -unit <= 2 * (rounded(value, unit) * unit - value) <= unit,
{
    let size = if value >= 0 {
        value
    } else {
        -value
    };
    let q = (2 * size + unit) / (2 * unit);
    lemma_fundamental_div_mod(2 * size + unit, 2 * unit);
    assert(2 * unit * q == 2 * (q * unit)) by (nonlinear_arith);
    assert((-q) * unit == -(q * unit)) by (nonlinear_arith);
}

/// Rounding keeps the order, on both sides of zero.
pub proof fn lemma_rounding_is_monotone(a: int, b: int, unit: int)
    requires
        unit > 0,
        a <= b,
    ensures
        rounded(a, unit) <= rounded(b, unit),
        a >= 0 ==> rounded(a, unit) >= 0,
{
    if a >= 0 {
        lemma_div_is_ordered(0, 2 * a + unit, 2 * unit);
        lemma_div_is_ordered(2 * a + unit, 2 * b + unit, 2 * unit);
    } else if b < 0 {
        lemma_div_is_ordered(2 * (-b) + unit, 2 * (-a) + unit, 2 * unit);
    } else {
        lemma_div_is_ordered(0, 2 * (-a) + unit, 2 * unit);
        lemma_div_is_ordered(0, 2 * b + unit, 2 * unit);
    }
}

/// One is many grains.
pub proof fn lemma_one_is_large()
    ensures
        one() >= 0x100_0000_0000_0000_0000_0000_0000_0000,
        one() * 0x1_0000_0000 < pow2(2098),
{
    lemma_pow2_known();
    lemma2_to64();
    lemma_pow2_adds(56, 64);
    lemma2_to64_rest();
    lemma_pow2_grows(120, 1074);
    lemma_pow2_adds(1074, 32);
    lemma_pow2_strictly_increases(1106, 2098);
}

/// Integers of 53 bits are doubles.
pub proof fn lemma_integer_is_a_double(n: int)
    requires
        -0x20_0000_0000_0000 <= n <= 0x20_0000_0000_0000,
    ensures
        is_double(n * one()),
{
    lemma_pow2_known();
    assert(n * one() == n * pow2(1074));
}

/// Integers of 53 bits are rounded to themselves.
pub proof fn lemma_integer_stays(n: int)
    requires
        -0x20_0000_0000_0000 <= n <= 0x20_0000_0000_0000,
    ensures
        closest(n * one(), 1) == n * one(),
{
    lemma_integer_is_a_double(n);
    lemma_double_stays(n * one());
}

pub(crate) proof fn lemma_half_even_is_closest(a: int, b: int, k: int)
    requires
        b > 0,
    ensures
        ({
            let off = half_even(a, b) * b - a;
            let other = k * b - a;
            (if off < 0 { -off } else { off }) <= (if other < 0 { -other } else { other })
        }),
{
    lemma_half_even_bounds(a, b);
    let n = half_even(a, b);
    assert(k < n ==> k * b <= n * b - b) by (nonlinear_arith)
        requires
            b > 0,
    ;
    assert(k > n ==> k * b >= n * b + b) by (nonlinear_arith)
        requires
            b > 0,
    ;
}

pub(crate) proof fn lemma_near_is_closest(num: int, den: int, other: int)
    requires
        num >= 0,
        den > 0,
        is_double(other),
    ensures
        ({
            let off = near(num, den) * den - num;
            let gap = other * den - num;
            (if off < 0 { -off } else { off }) <= (if gap < 0 { -gap } else { gap })
        }),
{
    lemma_scale_exists(num, den);
    lemma_pow2_known();
    let e = scale(num, den);
    let unit = pow2(e) as int;
    lemma_pow2_pos(e);
    let step = den * unit;
    assert(step > 0) by (nonlinear_arith)
        requires
            den > 0,
            unit > 0,
            step == den * unit,
    ;
    let whole = half_even(num, step);
    assert(whole * step == (whole * unit) * den) by (nonlinear_arith)
        requires
            step == den * unit,
    ;
    let (m, f) = choose|m: int, f: nat|
        -pow2(53) <= m <= pow2(53) && other == #[trigger] (m * pow2(f));
    if f >= e {
        let k = m * pow2((f - e) as nat);
        lemma_pow2_adds((f - e) as nat, e);
        assert(other * den == k * step) by (nonlinear_arith)
            requires
                other == m * (pow2((f - e) as nat) * unit),
                k == m * pow2((f - e) as nat),
                step == den * unit,
        ;
        lemma_half_even_is_closest(num, step, k);
    } else {
        let low = pow2(52) as int;
        lemma_pow2_adds(52, e);
        lemma_pow2_adds(53, f);
        lemma_pow2_grows((53 + f) as nat, (52 + e) as nat);
        let p = pow2(f) as int;
        lemma_pow2_pos(f);
        assert(other <= low * unit) by (nonlinear_arith)
            requires
                other == m * p,
                m <= pow2(53),
                p > 0,
                pow2(53) * p <= low * unit,
        ;
        assert(other * den <= low * step) by (nonlinear_arith)
            requires
                other <= low * unit,
                step == den * unit,
                den > 0,
        ;
        assert(low * step == den * pow2((52 + e) as nat)) by (nonlinear_arith)
            requires
                pow2((52 + e) as nat) == low * unit,
                step == den * unit,
        ;
        lemma_half_even_is_closest(num, step, low);
    }
}

/// No other double is closer.
pub proof fn lemma_closest_is_closest(num: int, den: int, other: int)
    requires
        den > 0,
        is_double(other),
    ensures
        ({
            let off = closest(num, den) * den - num;
            let gap = other * den - num;
            (if off < 0 { -off } else { off }) <= (if gap < 0 { -gap } else { gap })
        }),
{
    if num >= 0 {
        lemma_near_is_closest(num, den, other);
    } else {
        let (m, f) = choose|m: int, f: nat|
            -pow2(53) <= m <= pow2(53) && other == #[trigger] (m * pow2(f));
        assert((-m) * pow2(f) == -(m * pow2(f))) by (nonlinear_arith);
        assert(-other == (-m) * pow2(f));
        assert(is_double(-other));
        lemma_near_is_closest(-num, den, -other);
        let r = near(-num, den);
        assert((-r) * den == -(r * den) && (-other) * den == -(other * den)) by (nonlinear_arith);
    }
}

/// Equal fractions are closest to the same double.
pub proof fn lemma_closest_equal(a: int, b: int, c: int, d: int)
    requires
        b > 0,
        d > 0,
        a * d == c * b,
    ensures
        closest(a, b) == closest(c, d),
{
    lemma_closest_is_monotone(a, b, c, d);
    lemma_closest_is_monotone(c, d, a, b);
}

/// Rounding is off by half of the last bit at most, on both sides of zero.
pub proof fn lemma_closest_error(num: int, den: int, size: int)
    requires
        den > 0,
        -size <= num <= size,
    ensures
        (closest(num, den) * den - num) * 0x20_0000_0000_0000 <= size + den * 0x10_0000_0000_0000,
        (num - closest(num, den) * den) * 0x20_0000_0000_0000 <= size + den * 0x10_0000_0000_0000,
{
    if num >= 0 {
        lemma_near_error(num, den);
    } else {
        lemma_near_error(-num, den);
        let r = near(-num, den);
        assert((-r) * den == -(r * den)) by (nonlinear_arith);
    }
}

/// What lies between integers of 53 bits is rounded to what does.
pub proof fn lemma_closest_is_within(num: int, den: int, low: int, high: int)
    requires
        den > 0,
        low * one() * den <= num <= high * one() * den,
        -0x20_0000_0000_0000 <= low,
        high <= 0x20_0000_0000_0000,
    ensures
        low * one() <= closest(num, den) <= high * one(),
{
    lemma_one_is_large();
    let w = one();
    assert(low <= high) by (nonlinear_arith)
        requires
            low * w * den <= high * w * den,
            w > 0,
            den > 0,
    ;
    lemma_integer_stays(low);
    lemma_integer_stays(high);
    assert((low * w) * den <= num * 1 && num * 1 <= (high * w) * den);
    lemma_closest_is_monotone(low * w, 1, num, den);
    lemma_closest_is_monotone(num, den, high * w, 1);
}

/// The square root of what is at most two is less than three.
pub proof fn lemma_root_is_small(value: int)
    requires
        0 <= value <= 2 * one(),
    ensures
        0 <= near_root(value) < 3 * one(),
{
    lemma_one_is_large();
    let w = one();
    let x = 4 * (value * w);
    assert(0 <= x <= 8 * (w * w)) by (nonlinear_arith)
        requires
            x == 4 * (value * w),
            0 <= value <= 2 * w,
            w > 0,
    ;
    lemma_root_exists(x);
    let s = root(x);
    assert(s < 3 * w) by (nonlinear_arith)
        requires
            s * s <= x,
            x <= 8 * (w * w),
            s >= 0,
            w > 0,
    ;
    let num = 2 * s + if s * s < x {
        1int
    } else {
        0
    };
    assert(0 * w * 4 <= num <= 2 * w * 4);
    lemma_closest_is_within(num, 4, 0, 2);
}

/// The length of a way across and along.
pub open spec fn distance(dx: int, dy: int) -> int {
    near_root(closest(closest(dx * dx, one()) + closest(dy * dy, one()), 1))
}

/// A length is not negative.
pub proof fn lemma_distance_is_not_negative(dx: int, dy: int)
    ensures
        closest(dx * dx, one()) >= 0,
        closest(dy * dy, one()) >= 0,
        closest(closest(dx * dx, one()) + closest(dy * dy, one()), 1) >= 0,
        distance(dx, dy) >= 0,
{
    lemma_one_is_large();
    let w = one();
    assert(dx * dx >= 0 && dy * dy >= 0) by (nonlinear_arith);
    lemma_closest_is_monotone(0, 1, dx * dx, w);
    lemma_closest_is_monotone(0, 1, dy * dy, w);
    let sum = closest(dx * dx, w) + closest(dy * dy, w);
    lemma_closest_is_monotone(0, 1, sum, 1);
    let value = closest(sum, 1);
    assert(value * w >= 0) by (nonlinear_arith)
        requires
            value >= 0,
            w > 0,
    ;
    let x = 4 * (value * w);
    lemma_root_exists(x);
    lemma_near_bounds(
        2 * root(x) + if root(x) * root(x) < x {
            1int
        } else {
            0
        },
        4,
    );
}

/// A larger number has no smaller square root.
pub proof fn lemma_root_is_monotone(a: int, b: int)
    requires
        0 <= a <= b,
    ensures
        0 <= near_root(a) <= near_root(b),
{
    lemma_one_is_large();
    let w = one();
    assert(0 <= a * w <= b * w) by (nonlinear_arith)
        requires
            0 <= a <= b,
            w > 0,
    ;
    let (x, y) = (4 * (a * w), 4 * (b * w));
    lemma_root_exists(x);
    lemma_root_exists(y);
    let (s, t) = (root(x), root(y));
    assert(s <= t) by (nonlinear_arith)
        requires
            s * s <= x,
            x <= y,
            y < (t + 1) * (t + 1),
            s >= 0,
            t >= 0,
    ;
    let low = 2 * s + if s * s < x {
        1int
    } else {
        0
    };
    let high = 2 * t + if t * t < y {
        1int
    } else {
        0
    };
    lemma_near_is_monotone(low, 4, high, 4);
    lemma_near_bounds(low, 4);
}

/// The square root of a square is what was squared, among small integers.
pub proof fn lemma_root_of_square(k: int)
    requires
        0 <= k <= 0x400_0000,
    ensures
        near_root(k * k * one()) == k * one(),
{
    lemma_one_is_large();
    let w = one();
    let x = 4 * (k * k * w * w);
    let s = 2 * (k * w);
    assert(s * s == x && x < (s + 1) * (s + 1) && s >= 0) by (nonlinear_arith)
        requires
            x == 4 * (k * k * w * w),
            s == 2 * (k * w),
            k >= 0,
            w > 0,
    ;
    lemma_root_exists(x);
    lemma_root_is_unique(s, x);
    lemma_root_is_unique(root(x), x);
    assert(is_root(s, x));
    assert(root(x) == s);
    assert((4 * (k * w)) * 1 == (k * w) * 4);
    assert(k * w >= 0) by (nonlinear_arith)
        requires
            k >= 0,
            w > 0,
    ;
    lemma_closest_equal(4 * (k * w), 4, k * w, 1);
    lemma_integer_stays(k);
}

/// A way that goes further along both axes is no shorter.
pub proof fn lemma_distance_is_monotone(dx: int, dy: int, ex: int, ey: int)
    requires
        -ex <= dx <= ex,
        -ey <= dy <= ey,
    ensures
        distance(dx, dy) <= distance(ex, ey),
{
    lemma_one_is_large();
    let w = one();
    assert(0 <= dx * dx <= ex * ex) by (nonlinear_arith)
        requires
            -ex <= dx <= ex,
    ;
    assert(0 <= dy * dy <= ey * ey) by (nonlinear_arith)
        requires
            -ey <= dy <= ey,
    ;
    assert((dx * dx) * w <= (ex * ex) * w && (dy * dy) * w <= (ey * ey) * w) by (nonlinear_arith)
        requires
            dx * dx <= ex * ex,
            dy * dy <= ey * ey,
            w > 0,
    ;
    lemma_closest_is_monotone(dx * dx, w, ex * ex, w);
    lemma_closest_is_monotone(dy * dy, w, ey * ey, w);
    let sum = closest(dx * dx, w) + closest(dy * dy, w);
    let more = closest(ex * ex, w) + closest(ey * ey, w);
    assert(sum * 1 <= more * 1);
    lemma_closest_is_monotone(sum, 1, more, 1);
    lemma_distance_is_not_negative(dx, dy);
    lemma_root_is_monotone(closest(sum, 1), closest(more, 1));
}

/// A way along one axis is as long as it goes, in whole numbers.
pub proof fn lemma_distance_along_an_axis(k: int)
    requires
        0 <= k <= 0x400_0000,
    ensures
        distance(k * one(), 0) == k * one(),
        distance(0, k * one()) == k * one(),
        distance(-k * one(), 0) == k * one(),
        distance(0, -k * one()) == k * one(),
{
    lemma_one_is_large();
    let w = one();
    let square = (k * w) * (k * w);
    assert(square * 1 == (k * k * w) * w && (-k * w) * (-k * w) == square) by (nonlinear_arith)
        requires
            square == (k * w) * (k * w),
    ;
    lemma_closest_equal(square, w, k * k * w, 1);
    assert(0 <= k * k <= 0x10_0000_0000_0000) by (nonlinear_arith)
        requires
            0 <= k <= 0x400_0000,
    ;
    lemma_integer_stays(k * k);
    lemma_integer_stays(0);
    assert(0 * w == 0 && 0 * 0 == 0);
    assert(0 * 1 == 0 * w);
    lemma_closest_equal(0, w, 0, 1);
    lemma_root_of_square(k);
}

/// A way is as long as the one that goes the other way along either axis.
pub proof fn lemma_distance_has_no_sign(dx: int, dy: int)
    ensures
        ({
            let ex = if dx < 0 { -dx } else { dx };
            let ey = if dy < 0 { -dy } else { dy };
            distance(ex, ey) == distance(dx, dy)
        }),
{
    assert((-dx) * (-dx) == dx * dx && (-dy) * (-dy) == dy * dy) by (nonlinear_arith);
}

} // verus!
