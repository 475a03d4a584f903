//! Doubles together with what arithmetic on them can run into: the infinities,
//! and results that are no numbers.

use vstd::arithmetic::power2::{lemma_pow2_adds, lemma_pow2_strictly_increases, pow2};
use vstd::prelude::*;

use crate::double::rounding::{
    closest, is_finite, lemma_closest_equal, lemma_closest_is_monotone, lemma_integer_stays,
    lemma_one_is_large, lemma_pow2_known, near_root, one,
};
use crate::double::{bits_value, Double};

verus! {

#[derive(Debug, Clone, Copy)]
pub enum Number {
    NotANumber,
    Infinite { negative: bool },
    Finite(Double),
}

pub enum Real {
    NotANumber,
    Infinite { negative: bool },
    /// So many grains.
    Finite(int),
}

impl View for Number {
    type V = Real;

    open spec fn view(&self) -> Real {
        match *self {
            Number::NotANumber => Real::NotANumber,
            Number::Infinite { negative } => Real::Infinite { negative },
            Number::Finite(double) => Real::Finite(double@),
        }
    }
}

/// A rounded result, or the infinity beyond the largest double.
pub open spec fn settled(value: int) -> Real {
    if is_finite(value) {
        Real::Finite(value)
    } else {
        Real::Infinite { negative: value < 0 }
    }
}

impl Real {
    pub open spec fn zero() -> Real {
        Real::Finite(0)
    }

    pub open spec fn of_int(n: int) -> Real {
        Real::Finite(n * one())
    }

    pub open spec fn negated(self) -> Real {
        match self {
            Real::NotANumber => self,
            Real::Infinite { negative } => Real::Infinite { negative: !negative },
            Real::Finite(value) => Real::Finite(-value),
        }
    }

    pub open spec fn size(self) -> Real {
        match self {
            Real::NotANumber => self,
            Real::Infinite { .. } => Real::Infinite { negative: false },
            Real::Finite(value) => if value < 0 {
                Real::Finite(-value)
            } else {
                self
            },
        }
    }

    pub open spec fn plus(self, other: Real) -> Real {
        match (self, other) {
            (Real::NotANumber, _) => Real::NotANumber,
            (_, Real::NotANumber) => Real::NotANumber,
            (Real::Infinite { negative }, Real::Infinite { negative: also }) => if negative
                == also {
                self
            } else {
                Real::NotANumber
            },
            (Real::Infinite { .. }, Real::Finite(_)) => self,
            (Real::Finite(_), Real::Infinite { .. }) => other,
            (Real::Finite(a), Real::Finite(b)) => settled(closest(a + b, 1)),
        }
    }

    pub open spec fn minus(self, other: Real) -> Real {
        self.plus(other.negated())
    }

    pub open spec fn times(self, other: Real) -> Real {
        match (self, other) {
            (Real::NotANumber, _) => Real::NotANumber,
            (_, Real::NotANumber) => Real::NotANumber,
            (Real::Infinite { negative }, Real::Infinite { negative: also }) => Real::Infinite {
                negative: negative != also,
            },
            (Real::Infinite { negative }, Real::Finite(value)) => if value == 0 {
                Real::NotANumber
            } else {
                Real::Infinite { negative: negative != (value < 0) }
            },
            (Real::Finite(value), Real::Infinite { negative }) => if value == 0 {
                Real::NotANumber
            } else {
                Real::Infinite { negative: negative != (value < 0) }
            },
            (Real::Finite(a), Real::Finite(b)) => settled(closest(a * b, one())),
        }
    }

    /// The quotient by what is not zero.
    pub open spec fn over(self, other: Real) -> Real {
        match (self, other) {
            (Real::NotANumber, _) => Real::NotANumber,
            (_, Real::NotANumber) => Real::NotANumber,
            (Real::Infinite { .. }, Real::Infinite { .. }) => Real::NotANumber,
            (Real::Infinite { negative }, Real::Finite(value)) => Real::Infinite {
                negative: negative != (value < 0),
            },
            (Real::Finite(_), Real::Infinite { .. }) => Real::zero(),
            (Real::Finite(a), Real::Finite(b)) => if b < 0 {
                settled(closest((-a) * one(), -b))
            } else {
                settled(closest(a * one(), b))
            },
        }
    }

    /// The square root of what is not negative.
    pub open spec fn root(self) -> Real {
        match self {
            Real::Finite(value) => settled(near_root(value)),
            _ => self,
        }
    }

    pub open spec fn is_below(self, other: Real) -> bool {
        match (self, other) {
            (Real::NotANumber, _) => false,
            (_, Real::NotANumber) => false,
            (Real::Infinite { negative }, Real::Infinite { negative: also }) => negative && !also,
            (Real::Infinite { negative }, Real::Finite(_)) => negative,
            (Real::Finite(_), Real::Infinite { negative }) => !negative,
            (Real::Finite(a), Real::Finite(b)) => a < b,
        }
    }

    /// What is no finite number has no worth.
    pub open spec fn worth(self) -> Option<int> {
        match self {
            Real::Finite(value) => Some(value),
            _ => None,
        }
    }
}

/// What the 64 bits of a number stand for.
pub open spec fn bits_number(bits: u64) -> Real {
    match bits_value(bits) {
        Some(value) => Real::Finite(value),
        None => if bits == 0x7ff0_0000_0000_0000 {
            Real::Infinite { negative: false }
        } else if bits == 0xfff0_0000_0000_0000 {
            Real::Infinite { negative: true }
        } else {
            Real::NotANumber
        },
    }
}

/// A double as a number.
pub fn settle(double: Double) -> (number: Number)
    requires
        double.is_valid(),
    ensures
        number.is_valid(),
        number@ == settled(double@),
{
    if double.fits() {
        Number::Finite(double)
    } else {
        Number::Infinite { negative: double.is_negative() }
    }
}

impl Number {
    pub open spec fn is_valid(self) -> bool {
        self matches Number::Finite(double) ==> double.is_valid() && double.reach() <= 2045
    }

    pub fn zero() -> (number: Number)
        ensures
            number.is_valid(),
            number@ == Real::zero(),
    {
        Number::Finite(Double::zero())
    }

    pub fn from_bits(bits: u64) -> (number: Number)
        ensures
            number.is_valid(),
            number@ == bits_number(bits),
    {
        match Double::from_bits(bits) {
            Some(double) => Number::Finite(double),
            None => if bits == 0x7ff0_0000_0000_0000 {
                Number::Infinite { negative: false }
            } else if bits == 0xfff0_0000_0000_0000 {
                Number::Infinite { negative: true }
            } else {
                Number::NotANumber
            },
        }
    }

    /// Bits that stand for the number.
    pub fn to_bits(&self) -> (bits: u64)
        requires
            self.is_valid(),
        ensures
            bits_number(bits) == self@,
    {
        match *self {
            Number::NotANumber => 0x7ff8_0000_0000_0000,
            Number::Infinite { negative } => if negative {
                0xfff0_0000_0000_0000
            } else {
                0x7ff0_0000_0000_0000
            },
            Number::Finite(double) => {
                proof {
                    double.lemma_reach();
                }
                double.to_bits()
            },
        }
    }

    pub fn negated(&self) -> (number: Number)
        requires
            self.is_valid(),
        ensures
            number.is_valid(),
            number@ == self@.negated(),
    {
        match *self {
            Number::NotANumber => Number::NotANumber,
            Number::Infinite { negative } => Number::Infinite { negative: !negative },
            Number::Finite(double) => Number::Finite(double.negated()),
        }
    }

    pub fn size(&self) -> (number: Number)
        requires
            self.is_valid(),
        ensures
            number.is_valid(),
            number@ == self@.size(),
    {
        match *self {
            Number::NotANumber => Number::NotANumber,
            Number::Infinite { .. } => Number::Infinite { negative: false },
            Number::Finite(double) => if double.is_negative() {
                Number::Finite(double.negated())
            } else {
                Number::Finite(double)
            },
        }
    }

    pub fn plus(&self, other: &Number) -> (sum: Number)
        requires
            self.is_valid(),
            other.is_valid(),
        ensures
            sum.is_valid(),
            sum@ == self@.plus(other@),
    {
        match (*self, *other) {
            (Number::NotANumber, _) => Number::NotANumber,
            (_, Number::NotANumber) => Number::NotANumber,
            (Number::Infinite { negative }, Number::Infinite { negative: also }) => if negative
                == also {
                Number::Infinite { negative }
            } else {
                Number::NotANumber
            },
            (Number::Infinite { negative }, Number::Finite(_)) => Number::Infinite { negative },
            (Number::Finite(_), Number::Infinite { negative }) => Number::Infinite { negative },
            (Number::Finite(a), Number::Finite(b)) => settle(a.plus(&b)),
        }
    }

    pub fn minus(&self, other: &Number) -> (difference: Number)
        requires
            self.is_valid(),
            other.is_valid(),
        ensures
            difference.is_valid(),
            difference@ == self@.minus(other@),
    {
        self.plus(&other.negated())
    }

    pub fn times(&self, other: &Number) -> (product: Number)
        requires
            self.is_valid(),
            other.is_valid(),
        ensures
            product.is_valid(),
            product@ == self@.times(other@),
    {
        match (*self, *other) {
            (Number::NotANumber, _) => Number::NotANumber,
            (_, Number::NotANumber) => Number::NotANumber,
            (Number::Infinite { negative }, Number::Infinite { negative: also }) => {
                Number::Infinite { negative: negative != also }
            },
            (Number::Infinite { negative }, Number::Finite(double)) => if double.is_zero() {
                Number::NotANumber
            } else {
                Number::Infinite { negative: negative != double.is_negative() }
            },
            (Number::Finite(double), Number::Infinite { negative }) => if double.is_zero() {
                Number::NotANumber
            } else {
                Number::Infinite { negative: negative != double.is_negative() }
            },
            (Number::Finite(a), Number::Finite(b)) => settle(a.times(&b)),
        }
    }

    /// The quotient by a number that is not zero.
    pub fn over(&self, other: &Number) -> (quotient: Number)
        requires
            self.is_valid(),
            other.is_valid(),
            other@ != Real::zero(),
        ensures
            quotient.is_valid(),
            quotient@ == self@.over(other@),
    {
        match (*self, *other) {
            (Number::NotANumber, _) => Number::NotANumber,
            (_, Number::NotANumber) => Number::NotANumber,
            (Number::Infinite { .. }, Number::Infinite { .. }) => Number::NotANumber,
            (Number::Infinite { negative }, Number::Finite(double)) => Number::Infinite {
                negative: negative != double.is_negative(),
            },
            (Number::Finite(_), Number::Infinite { .. }) => Number::zero(),
            (Number::Finite(a), Number::Finite(b)) => if b.is_negative() {
                settle(a.negated().over(&b.negated()))
            } else {
                settle(a.over(&b))
            },
        }
    }

    /// The square root of a number that is not negative.
    pub fn root(&self) -> (root: Number)
        requires
            self.is_valid(),
            !self@.is_below(Real::zero()),
        ensures
            root.is_valid(),
            root@ == self@.root(),
    {
        match *self {
            Number::Finite(double) => settle(double.square_root()),
            other => other,
        }
    }

    pub fn is_below(&self, other: &Number) -> (answer: bool)
        requires
            self.is_valid(),
            other.is_valid(),
        ensures
            answer == self@.is_below(other@),
    {
        match (*self, *other) {
            (Number::NotANumber, _) => false,
            (_, Number::NotANumber) => false,
            (Number::Infinite { negative }, Number::Infinite { negative: also }) => negative
                && !also,
            (Number::Infinite { negative }, Number::Finite(_)) => negative,
            (Number::Finite(_), Number::Infinite { negative }) => !negative,
            (Number::Finite(a), Number::Finite(b)) => a.is_below(&b),
        }
    }
}

/// The square of a number is not negative, and neither is the sum of two.
pub proof fn lemma_squares_are_not_negative(a: Real, b: Real)
    ensures
        !a.times(a).is_below(Real::zero()),
        !a.times(a).plus(b.times(b)).is_below(Real::zero()),
{
    lemma_one_is_large();
    lemma_square(a);
    lemma_square(b);
    if let (Real::Finite(x), Real::Finite(y)) = (a.times(a), b.times(b)) {
        lemma_closest_is_monotone(0, 1, x + y, 1);
    }
}

proof fn lemma_square(a: Real)
    ensures
        match a.times(a) {
            Real::NotANumber => true,
            Real::Infinite { negative } => !negative,
            Real::Finite(value) => value >= 0,
        },
{
    lemma_one_is_large();
    if let Real::Finite(x) = a {
        assert(x * x >= 0) by (nonlinear_arith);
        lemma_closest_is_monotone(0, 1, x * x, one());
    }
}

/// Arithmetic on integers is exact while the results have 53 bits.
pub proof fn lemma_integer_arithmetic(a: int, b: int)
    ensures
        -0x20_0000_0000_0000 <= a + b <= 0x20_0000_0000_0000 ==> Real::of_int(a).plus(
            Real::of_int(b),
        ) == Real::of_int(a + b),
        -0x20_0000_0000_0000 <= a - b <= 0x20_0000_0000_0000 ==> Real::of_int(a).minus(
            Real::of_int(b),
        ) == Real::of_int(a - b),
        -0x20_0000_0000_0000 <= a * b <= 0x20_0000_0000_0000 ==> Real::of_int(a).times(
            Real::of_int(b),
        ) == Real::of_int(a * b),
        b != 0 && -0x20_0000_0000_0000 <= a <= 0x20_0000_0000_0000 ==> Real::of_int(a * b).over(
            Real::of_int(b),
        ) == Real::of_int(a),
        Real::of_int(a).negated() == Real::of_int(-a),
        Real::of_int(a).is_below(Real::of_int(b)) <==> a < b,
{
    lemma_one_is_large();
    let w = one();
    assert(a * w + b * w == (a + b) * w && a * w + -(b * w) == (a - b) * w && (-a) * w == -(a * w))
        by (nonlinear_arith);
    assert(a * w < b * w <==> a < b) by (nonlinear_arith)
        requires
            w > 0,
    ;
    if -0x20_0000_0000_0000 <= a + b <= 0x20_0000_0000_0000 {
        lemma_integer_is_finite(a + b);
    }
    if -0x20_0000_0000_0000 <= a - b <= 0x20_0000_0000_0000 {
        lemma_integer_is_finite(a - b);
    }
    if -0x20_0000_0000_0000 <= a * b <= 0x20_0000_0000_0000 {
        assert(((a * w) * (b * w)) * 1 == ((a * b) * w) * w) by (nonlinear_arith);
        lemma_closest_equal((a * w) * (b * w), w, (a * b) * w, 1);
        lemma_integer_is_finite(a * b);
    }
    if b != 0 && -0x20_0000_0000_0000 <= a <= 0x20_0000_0000_0000 {
        lemma_integer_is_finite(a);
        let (num, den) = ((a * b) * w, b * w);
        if b > 0 {
            assert(den > 0 && (num * w) * 1 == (a * w) * den) by (nonlinear_arith)
                requires
                    num == (a * b) * w,
                    den == b * w,
                    b > 0,
                    w > 0,
            ;
            lemma_closest_equal(num * w, den, a * w, 1);
        } else {
            assert(-den > 0 && ((-num) * w) * 1 == (a * w) * (-den)) by (nonlinear_arith)
                requires
                    num == (a * b) * w,
                    den == b * w,
                    b < 0,
                    w > 0,
            ;
            lemma_closest_equal((-num) * w, -den, a * w, 1);
        }
    }
}

proof fn lemma_integer_is_finite(n: int)
    requires
        -0x20_0000_0000_0000 <= n <= 0x20_0000_0000_0000,
    ensures
        settled(closest(n * one(), 1)) == Real::of_int(n),
{
    lemma_integer_stays(n);
    lemma_many_ones_are_finite();
    let w = one();
    assert(-(0x20_0000_0000_0000 * w) <= n * w <= 0x20_0000_0000_0000 * w) by (nonlinear_arith)
        requires
            -0x20_0000_0000_0000 <= n <= 0x20_0000_0000_0000,
            w > 0,
    ;
}

proof fn lemma_many_ones_are_finite()
    ensures
        0x20_0000_0000_0000 * one() < pow2(2098),
        one() > 0,
{
    lemma_one_is_large();
    lemma_pow2_known();
    lemma_pow2_adds(53, 1074);
    lemma_pow2_strictly_increases(1127, 2098);
}

} // verus!
