//! From screenshot pixels to the absolute axes of the pointer device.

use vstd::arithmetic::div_mod::{lemma_fundamental_div_mod, lemma_fundamental_div_mod_converse};
use vstd::prelude::*;
use vstd::string::*;

use crate::double::rounding::{
    closest, is_finite, lemma_closest_error, lemma_closest_is_a_double, lemma_closest_is_monotone,
    lemma_double_stays, lemma_integer_stays, lemma_near_equal, lemma_near_error,
    lemma_one_is_large, lemma_rounded, lemma_rounding_is_closest, lemma_rounding_is_monotone, one,
    rounded,
};
use crate::double::{bits_value, Double};
use crate::text::{decimal, push_decimal};

verus! {

pub const ABSOLUTE_MAX: u16 = 65_535;

#[derive(Debug, Clone, Copy, PartialEq, Eq, Structural)]
pub enum CoordError {
    InvalidScreenSize,
    XOutOfRange { x: i64, width: u32 },
    YOutOfRange { y: i64, height: u32 },
    TransformOutOfRange,
}

impl CoordError {
    pub open spec fn text(self) -> Seq<char> {
        match self {
            CoordError::InvalidScreenSize => "screen width and height must be positive"@,
            CoordError::XOutOfRange { x, width } => "x="@ + decimal(x as int)
                + " is outside screenshot width 0.."@ + decimal(width - 1),
            CoordError::YOutOfRange { y, height } => "y="@ + decimal(y as int)
                + " is outside screenshot height 0.."@ + decimal(height - 1),
            CoordError::TransformOutOfRange => "coordinate transform produced an invalid ABS value"@,
        }
    }

    pub fn message(&self) -> (message: String)
        ensures
            message@ == self.text(),
    {
        match *self {
            CoordError::InvalidScreenSize => "screen width and height must be positive".to_owned(),
            CoordError::XOutOfRange { x, width } => {
                let mut message = "x=".to_owned();
                push_decimal(&mut message, x);
                message.append(" is outside screenshot width 0..");
                push_decimal(&mut message, width as i64 - 1);
                message
            },
            CoordError::YOutOfRange { y, height } => {
                let mut message = "y=".to_owned();
                push_decimal(&mut message, y);
                message.append(" is outside screenshot height 0..");
                push_decimal(&mut message, height as i64 - 1);
                message
            },
            CoordError::TransformOutOfRange => {
                "coordinate transform produced an invalid ABS value".to_owned()
            },
        }
    }
}

/// An affine map from pixels to the absolute axes: `m11 x + m12 y + m13` and
/// `m21 x + m22 y + m23`, with the bits of doubles as coefficients.
#[derive(Debug, Clone, Copy, PartialEq, Eq, Structural)]
pub struct Transform {
    pub m11: u64,
    pub m12: u64,
    pub m13: u64,
    pub m21: u64,
    pub m22: u64,
    pub m23: u64,
}

/// What the coefficients are worth; none where one is no finite number.
pub struct TransformModel {
    pub m11: Option<int>,
    pub m12: Option<int>,
    pub m13: Option<int>,
    pub m21: Option<int>,
    pub m22: Option<int>,
    pub m23: Option<int>,
}

impl View for Transform {
    type V = TransformModel;

    open spec fn view(&self) -> TransformModel {
        TransformModel {
            m11: bits_value(self.m11),
            m12: bits_value(self.m12),
            m13: bits_value(self.m13),
            m21: bits_value(self.m21),
            m22: bits_value(self.m22),
            m23: bits_value(self.m23),
        }
    }
}

#[derive(Debug, Clone, Copy, PartialEq, Eq, Structural)]
pub struct AbsolutePoint {
    pub x: u16,
    pub y: u16,
}

pub open spec fn finite(value: int) -> Option<int> {
    if is_finite(value) {
        Some(value)
    } else {
        None
    }
}

/// A coefficient times an integer, as doubles.
pub open spec fn scaled(m: Option<int>, n: int) -> Option<int> {
    match m {
        Some(m) => finite(closest(m * n, 1)),
        None => None,
    }
}

/// A sum of doubles.
pub open spec fn added(a: Option<int>, b: Option<int>) -> Option<int> {
    match (a, b) {
        (Some(a), Some(b)) => finite(closest(a + b, 1)),
        _ => None,
    }
}

/// Along one axis, the coefficient that spreads so many pixels over it.
pub open spec fn spread(pixels: u32) -> int {
    if pixels == 1 {
        0
    } else {
        closest(ABSOLUTE_MAX * one(), pixels - 1)
    }
}

impl TransformModel {
    /// The image of a pixel.
    pub open spec fn image(self, x: int, y: int) -> (Option<int>, Option<int>) {
        (
            added(added(scaled(self.m11, x), scaled(self.m12, y)), self.m13),
            added(added(scaled(self.m21, x), scaled(self.m22, y)), self.m23),
        )
    }

    /// The closest device units to the image of a pixel.
    pub open spec fn units(self, x: int, y: int) -> (Option<int>, Option<int>) {
        (closest_unit(self.image(x, y).0), closest_unit(self.image(x, y).1))
    }

    /// The map that spreads a screen over the axes: the first pixel goes to
    /// the start and the last to the end.
    pub open spec fn linear(width: u32, height: u32) -> TransformModel {
        TransformModel {
            m11: Some(spread(width)),
            m12: Some(0),
            m13: Some(0),
            m21: Some(0),
            m22: Some(spread(height)),
            m23: Some(0),
        }
    }

    /// Where a pixel of a screenshot goes.
    pub open spec fn mapped(self, x: i64, y: i64, width: u32, height: u32) -> Result<
        AbsolutePoint,
        CoordError,
    > {
        if width == 0 || height == 0 {
            Err(CoordError::InvalidScreenSize)
        } else if !(0 <= x < width) {
            Err(CoordError::XOutOfRange { x, width })
        } else if !(0 <= y < height) {
            Err(CoordError::YOutOfRange { y, height })
        } else {
            match self.units(x as int, y as int) {
                (Some(u), Some(v)) if 0 <= u <= ABSOLUTE_MAX && 0 <= v <= ABSOLUTE_MAX => Ok(
                    AbsolutePoint { x: u as u16, y: v as u16 },
                ),
                _ => Err(CoordError::TransformOutOfRange),
            }
        }
    }
}

pub open spec fn closest_unit(image: Option<int>) -> Option<int> {
    match image {
        Some(value) => Some(rounded(value, one())),
        None => None,
    }
}

/// What a double is worth that may be missing.
pub open spec fn worth(double: Option<Double>) -> Option<int> {
    match double {
        Some(double) => Some(double@),
        None => None,
    }
}

/// A double that is missing or as large as doubles get.
spec fn is_sound(double: Option<Double>) -> bool {
    double matches Some(double) ==> double.is_valid() && double.reach() <= 2045
}

fn scale(m: Option<Double>, n: u32) -> (product: Option<Double>)
    requires
        is_sound(m),
    ensures
        is_sound(product),
        worth(product) == scaled(worth(m), n as int),
{
    match m {
        Some(m) => {
            let product = m.times_int(n);
            if product.fits() {
                Some(product)
            } else {
                None
            }
        },
        None => None,
    }
}

fn sum(a: Option<Double>, b: Option<Double>) -> (total: Option<Double>)
    requires
        is_sound(a),
        is_sound(b),
    ensures
        is_sound(total),
        worth(total) == added(worth(a), worth(b)),
{
    match (a, b) {
        (Some(a), Some(b)) => {
            let total = a.plus(&b);
            if total.fits() {
                Some(total)
            } else {
                None
            }
        },
        _ => None,
    }
}

fn unit(image: Option<Double>) -> (unit: Option<u16>)
    requires
        is_sound(image),
    ensures
        match closest_unit(worth(image)) {
            Some(value) if 0 <= value <= ABSOLUTE_MAX => unit == Some(value as u16),
            _ => unit is None,
        },
{
    match image {
        Some(image) => {
            let value: i64 = image.round();
            if 0 <= value && value <= ABSOLUTE_MAX as i64 {
                Some(value as u16)
            } else {
                None
            }
        },
        None => None,
    }
}

fn spread_bits(pixels: u32) -> (bits: u64)
    requires
        pixels > 0,
    ensures
        bits_value(bits) == Some(spread(pixels)),
{
    if pixels == 1 {
        proof {
            lemma_spread(pixels);
        }
        return Double::zero().to_bits();
    }
    let ratio = Double::ratio(ABSOLUTE_MAX as u32, pixels - 1);
    proof {
        lemma_spread(pixels);
    }
    ratio.to_bits()
}

impl Transform {
    pub fn linear(width: u32, height: u32) -> (transform: Result<Transform, CoordError>)
        ensures
            match transform {
                Ok(transform) => width > 0 && height > 0 && transform@ == TransformModel::linear(
                    width,
                    height,
                ),
                Err(error) => (width == 0 || height == 0) && error == CoordError::InvalidScreenSize,
            },
    {
        if width == 0 || height == 0 {
            return Err(CoordError::InvalidScreenSize);
        }
        let nothing: u64 = Double::zero().to_bits();
        proof {
            lemma_one_is_large();
        }
        Ok(
            Transform {
                m11: spread_bits(width),
                m12: nothing,
                m13: nothing,
                m21: nothing,
                m22: spread_bits(height),
                m23: nothing,
            },
        )
    }

    /// The image of a pixel, along each axis none where it is no finite
    /// number.
    pub fn apply(&self, x: u32, y: u32) -> (image: (Option<Double>, Option<Double>))
        ensures
            worth(image.0) == self@.image(x as int, y as int).0,
            worth(image.1) == self@.image(x as int, y as int).1,
            image.0 matches Some(double) ==> double.is_valid() && double.reach() <= 2045,
            image.1 matches Some(double) ==> double.is_valid() && double.reach() <= 2045,
    {
        let across = sum(
            scale(Double::from_bits(self.m11), x),
            scale(Double::from_bits(self.m12), y),
        );
        let along = sum(
            scale(Double::from_bits(self.m21), x),
            scale(Double::from_bits(self.m22), y),
        );
        (sum(across, Double::from_bits(self.m13)), sum(along, Double::from_bits(self.m23)))
    }

    /// Maps a pixel of a screenshot of this size.
    pub fn map_pixel(&self, x: i64, y: i64, width: u32, height: u32) -> (point: Result<
        AbsolutePoint,
        CoordError,
    >)
        ensures
            point == self@.mapped(x, y, width, height),
    {
        if width == 0 || height == 0 {
            return Err(CoordError::InvalidScreenSize);
        }
        if x < 0 || x >= width as i64 {
            return Err(CoordError::XOutOfRange { x, width });
        }
        if y < 0 || y >= height as i64 {
            return Err(CoordError::YOutOfRange { y, height });
        }
        let (absolute_x, absolute_y) = self.apply(x as u32, y as u32);
        match (unit(absolute_x), unit(absolute_y)) {
            (Some(x), Some(y)) => Ok(AbsolutePoint { x, y }),
            _ => Err(CoordError::TransformOutOfRange),
        }
    }
}

/// Along one axis of the linear mapping, the image of a pixel.
spec fn placed(pixels: u32, x: int) -> int {
    closest(spread(pixels) * x, 1)
}

/// The coefficient of the linear mapping is a double, and it takes the last
/// pixel to the end of the axis but for a tiny part of a unit.
proof fn lemma_spread(pixels: u32)
    requires
        pixels > 0,
    ensures
        spread(pixels) >= 0,
        is_finite(spread(pixels)),
        pixels > 1 ==> -one() <= (spread(pixels) * (pixels - 1) - ABSOLUTE_MAX * one())
            * 0x20_0000_0000 <= one(),
{
    lemma_one_is_large();
    let w = one();
    let n = pixels - 1;
    if n > 0 {
        lemma_near_error(ABSOLUTE_MAX * w, n);
        let c = spread(pixels);
        let off = c * n - ABSOLUTE_MAX * w;
        assert(ABSOLUTE_MAX * w >= 0);
        assert(n * 0x10_0000_0000_0000 <= w);
        lemma_integer_stays(ABSOLUTE_MAX as int);
        assert((ABSOLUTE_MAX * w) * 1 <= (ABSOLUTE_MAX * w) * n) by (nonlinear_arith)
            requires
                n >= 1,
                w > 0,
        ;
        lemma_closest_is_monotone(ABSOLUTE_MAX * w, n, ABSOLUTE_MAX * w, 1);
    }
}

/// Where the linear mapping puts a pixel along one axis.
proof fn lemma_placed(pixels: u32, x: int)
    requires
        0 <= x < pixels,
    ensures
        scaled(Some(spread(pixels)), x) == Some(placed(pixels, x)),
        added(added(Some(placed(pixels, x)), Some(0)), Some(0)) == Some(placed(pixels, x)),
        added(added(Some(0), Some(placed(pixels, x))), Some(0)) == Some(placed(pixels, x)),
        0 <= placed(pixels, x),
        (placed(pixels, x) - spread(pixels) * x) * 0x10_0000_0000 <= one(),
        (spread(pixels) * x - placed(pixels, x)) * 0x10_0000_0000 <= one(),
        placed(pixels, 0) == 0,
{
    lemma_one_is_large();
    lemma_spread(pixels);
    let (w, c, n) = (one(), spread(pixels), pixels - 1);
    let exact = c * x;
    assert(0 <= exact <= c * n) by (nonlinear_arith)
        requires
            c >= 0,
            0 <= x <= n,
            exact == c * x,
    ;
    if n == 0 {
        assert(c * n == 0);
    }
    lemma_near_error(exact, 1);
    lemma_closest_is_monotone(0, 1, exact, 1);
    lemma_closest_is_a_double(exact, 1);
    let v = placed(pixels, x);
    lemma_double_stays(v);
    lemma_integer_stays(0);
    assert(0 * w == 0);
    assert(c * 0 == 0);
}

/// Along one axis of the linear mapping: the first pixel goes to 0, the last
/// of several to the end of the axis, and later pixels never go further back.
proof fn lemma_axis(pixels: u32, a: int, b: int)
    requires
        0 <= a <= b < pixels,
    ensures
        0 <= rounded(placed(pixels, a), one()) <= rounded(placed(pixels, b), one())
            <= ABSOLUTE_MAX,
        rounded(placed(pixels, 0), one()) == 0,
        pixels > 1 ==> rounded(placed(pixels, pixels - 1), one()) == ABSOLUTE_MAX,
        pixels == 1 ==> rounded(placed(pixels, a), one()) == 0,
{
    lemma_one_is_large();
    lemma_spread(pixels);
    let (w, c, n) = (one(), spread(pixels), pixels - 1);
    lemma_placed(pixels, 0);
    lemma_placed(pixels, a);
    lemma_placed(pixels, b);
    lemma_placed(pixels, n);
    assert(c * a <= c * b <= c * n) by (nonlinear_arith)
        requires
            c >= 0,
            a <= b <= n,
    ;
    assert((c * a) * 1 <= (c * b) * 1 && (c * b) * 1 <= (c * n) * 1);
    lemma_closest_is_monotone(c * a, 1, c * b, 1);
    lemma_closest_is_monotone(c * b, 1, c * n, 1);
    lemma_rounding_is_monotone(placed(pixels, a), placed(pixels, b), w);
    lemma_rounding_is_monotone(placed(pixels, b), placed(pixels, n), w);
    lemma_rounded(0, w);
    if n > 0 {
        lemma_rounded_close(ABSOLUTE_MAX as int, placed(pixels, n), w);
    } else {
        assert(c * 0 == 0);
    }
}

/// What is less than half a unit away from an integer is rounded to it.
proof fn lemma_rounded_close(k: int, value: int, unit: int)
    requires
        k > 0,
        unit > 0,
        -unit < 2 * (value - k * unit) < unit,
    ensures
        rounded(value, unit) == k,
{
    let off = value - k * unit;
    assert(k * unit >= unit) by (nonlinear_arith)
        requires
            k > 0,
            unit > 0,
    ;
    lemma_rounded_of_rest(value, unit, k, off);
}

proof fn lemma_rounded_of_rest(value: int, unit: int, k: int, off: int)
    requires
        value >= 0,
        unit > 0,
        value == k * unit + off,
        -unit < 2 * off < unit,
    ensures
        rounded(value, unit) == k,
{
    assert(k * (2 * unit) == 2 * (k * unit)) by (nonlinear_arith);
    lemma_fundamental_div_mod_converse(
        2 * value + unit,
        2 * unit,
        k,
        2 * off + unit,
    );
}

/// The linear mapping accepts exactly the pixels of the screen.
pub proof fn lemma_linear_accepts_the_screen(x: i64, y: i64, width: u32, height: u32)
    requires
        width > 0,
        height > 0,
    ensures
        TransformModel::linear(width, height).mapped(x, y, width, height) is Ok <==> 0 <= x < width
            && 0 <= y < height,
{
    if 0 <= x < width && 0 <= y < height {
        lemma_linear_units(x as int, y as int, width, height);
        lemma_axis(width, x as int, x as int);
        lemma_axis(height, y as int, y as int);
    }
}

proof fn lemma_linear_units(x: int, y: int, width: u32, height: u32)
    requires
        0 <= x < width,
        0 <= y < height,
    ensures
        TransformModel::linear(width, height).units(x, y) == (
            Some(rounded(placed(width, x), one())),
            Some(rounded(placed(height, y), one())),
        ),
{
    lemma_placed(width, x);
    lemma_placed(height, y);
    lemma_integer_stays(0);
    lemma_one_is_large();
    assert(0 * x == 0 && 0 * y == 0 && 0 * one() == 0);
}

/// The linear mapping sends the corners of the screen to the corners of the
/// axes; where the screen is one pixel wide or high, that axis stays at 0.
pub proof fn lemma_linear_hits_all_corners(width: u32, height: u32)
    requires
        width > 0,
        height > 0,
    ensures
        ({
            let map = TransformModel::linear(width, height);
            let right = if width == 1 {
                0int
            } else {
                ABSOLUTE_MAX as int
            };
            let bottom = if height == 1 {
                0int
            } else {
                ABSOLUTE_MAX as int
            };
            &&& map.units(0, 0) == (Some(0int), Some(0int))
            &&& map.units(width - 1, height - 1) == (Some(right), Some(bottom))
            &&& map.units(width - 1, 0) == (Some(right), Some(0int))
            &&& map.units(0, height - 1) == (Some(0int), Some(bottom))
        }),
{
    lemma_linear_units(0, 0, width, height);
    lemma_linear_units(width - 1, height - 1, width, height);
    lemma_linear_units(width - 1, 0, width, height);
    lemma_linear_units(0, height - 1, width, height);
    lemma_axis(width, 0, width - 1);
    lemma_axis(height, 0, height - 1);
}

/// The linear mapping never sends a pixel further left or further up than one
/// that lies left of it or above it.
pub proof fn lemma_linear_keeps_the_order(
    x: int,
    y: int,
    right: int,
    below: int,
    width: u32,
    height: u32,
)
    requires
        0 <= x <= right < width,
        0 <= y <= below < height,
    ensures
        ({
            let map = TransformModel::linear(width, height);
            map.units(x, y).0->0 <= map.units(right, below).0->0 && map.units(x, y).1->0
                <= map.units(right, below).1->0
        }),
{
    lemma_linear_units(x, y, width, height);
    lemma_linear_units(right, below, width, height);
    lemma_axis(width, x, right);
    lemma_axis(height, y, below);
}

/// Where a screen has no more pixels than the axes have units, the linear
/// mapping keeps different columns apart, and different rows.
pub proof fn lemma_linear_keeps_pixels_apart(
    x: int,
    y: int,
    right: int,
    below: int,
    width: u32,
    height: u32,
)
    requires
        0 <= x <= right < width <= ABSOLUTE_MAX + 1,
        0 <= y <= below < height <= ABSOLUTE_MAX + 1,
    ensures
        ({
            let map = TransformModel::linear(width, height);
            &&& x < right ==> map.units(x, y).0->0 < map.units(right, below).0->0
            &&& y < below ==> map.units(x, y).1->0 < map.units(right, below).1->0
        }),
{
    lemma_linear_units(x, y, width, height);
    lemma_linear_units(right, below, width, height);
    if x < right {
        lemma_apart(width, x, right);
    }
    if y < below {
        lemma_apart(height, y, below);
    }
}

proof fn lemma_apart(pixels: u32, a: int, b: int)
    requires
        0 <= a < b < pixels <= ABSOLUTE_MAX + 1,
    ensures
        rounded(placed(pixels, a), one()) < rounded(placed(pixels, b), one()),
{
    lemma_one_is_large();
    lemma_spread(pixels);
    lemma_placed(pixels, a);
    lemma_placed(pixels, b);
    let (w, c, n) = (one(), spread(pixels), pixels - 1);
    let (u, v) = (placed(pixels, a), placed(pixels, b));
    if n == ABSOLUTE_MAX {
        lemma_near_equal(ABSOLUTE_MAX * w, n, w, 1);
        lemma_integer_stays(1);
        assert(1 * w == w);
        assert(c == w);
        lemma_integer_stays(a);
        lemma_integer_stays(b);
        assert(c * a == a * w && c * b == b * w) by (nonlinear_arith)
            requires
                c == w,
        ;
        assert(b * w >= a * w + w) by (nonlinear_arith)
            requires
                b >= a + 1,
                w > 0,
        ;
    } else {
        assert(c * 0x2_0000 >= w * 0x2_0001) by (nonlinear_arith)
            requires
                -w <= (c * n - 65535 * w) * 0x20_0000_0000,
                0 < n <= 65534,
                c >= 0,
                w > 0,
        ;
        assert(c * b >= c * a + c) by (nonlinear_arith)
            requires
                b >= a + 1,
                c >= 0,
        ;
        assert(v >= u + w);
    }
    lemma_rounding_is_monotone(u + w, v, w);
    lemma_rounded(u, w);
    lemma_rounded(u + w, w);
    lemma_fundamental_div_mod(u, w);
    let (q, r) = (u / w, u % w);
    assert(u + w == (q + 1) * w + r) by (nonlinear_arith)
        requires
            u == w * q + r,
    ;
    lemma_fundamental_div_mod_converse(u + w, w, q + 1, r);
}

proof fn lemma_axis_is_proportional(pixels: u32, x: int)
    requires
        0 <= x < pixels,
    ensures
        ({
            let unit = rounded(placed(pixels, x), one());
            let last = pixels - 1;
            -last <= 2 * (unit * last - ABSOLUTE_MAX * x) <= last
        }),
{
    lemma_one_is_large();
    lemma_spread(pixels);
    lemma_placed(pixels, x);
    lemma_axis(pixels, x, x);
    let (w, c, n) = (one(), spread(pixels), pixels - 1);
    if n > 0 {
        let v = placed(pixels, x);
        let r = rounded(v, w);
        lemma_rounding_is_closest(v, w);
        let e1 = r * w - v;
        let e2 = v - c * x;
        let e3 = c * n - ABSOLUTE_MAX * w;
        let off = r * n - ABSOLUTE_MAX * x;
        assert(off * w == n * e1 + n * e2 + x * e3) by (nonlinear_arith)
            requires
                off == r * n - ABSOLUTE_MAX * x,
                e1 == r * w - v,
                e2 == v - c * x,
                e3 == c * n - ABSOLUTE_MAX * w,
        ;
        assert(-(n * w) <= 2 * (n * e1) <= n * w) by (nonlinear_arith)
            requires
                -w <= 2 * e1 <= w,
                n >= 0,
        ;
        assert(-w <= 16 * (n * e2) <= w) by (nonlinear_arith)
            requires
                -w <= e2 * 0x10_0000_0000 <= w,
                0 <= n <= 0x1_0000_0000,
                w > 0,
        ;
        assert(-w <= 16 * (x * e3) <= w) by (nonlinear_arith)
            requires
                -w <= e3 * 0x20_0000_0000 <= w,
                0 <= x <= 0x1_0000_0000,
                w > 0,
        ;
        assert(-(n * w) - w < 2 * (off * w) < n * w + w);
        lemma_less_than_one_more(off, n as int, w);
    }
}

proof fn lemma_less_than_one_more(off: int, n: int, w: int)
    requires
        w > 0,
        -(n * w) - w < 2 * (off * w) < n * w + w,
    ensures
        -n <= 2 * off <= n,
{
    if 2 * off >= n + 1 {
        assert(2 * (off * w) >= (n + 1) * w) by (nonlinear_arith)
            requires
                2 * off >= n + 1,
                w > 0,
        ;
        assert((n + 1) * w == n * w + w) by (nonlinear_arith);
    }
    if 2 * off <= -(n + 1) {
        assert(2 * (off * w) <= -((n + 1) * w)) by (nonlinear_arith)
            requires
                2 * off <= -(n + 1),
                w > 0,
        ;
        assert((n + 1) * w == n * w + w) by (nonlinear_arith);
    }
}

/// The linear mapping spreads the pixels evenly: each goes to the unit that is
/// closest to its part of the axis.
pub proof fn lemma_linear_is_proportional(x: i64, y: i64, width: u32, height: u32)
    ensures
        TransformModel::linear(width, height).mapped(x, y, width, height) matches Ok(point) ==> {
            &&& -(width - 1) <= 2 * (point.x * (width - 1) - 65_535 * x) <= width - 1
            &&& -(height - 1) <= 2 * (point.y * (height - 1) - 65_535 * y) <= height - 1
        },
{
    if let Ok(point) = TransformModel::linear(width, height).mapped(x, y, width, height) {
        lemma_linear_units(x as int, y as int, width, height);
        lemma_axis_is_proportional(width, x as int);
        lemma_axis_is_proportional(height, y as int);
    }
}

pub open spec fn size_of(n: int) -> int {
    if n < 0 {
        -n
    } else {
        n
    }
}

/// A unit is the closest to `a x + b y + c`, but for the little that doubles
/// lose: a tiny part of what the three terms add up to.
pub open spec fn is_affine(unit: int, a: int, b: int, c: int, x: int, y: int) -> bool {
    let off = 2 * (unit * one() - (a * x + b * y + c));
    let terms = size_of(a * x) + size_of(b * y) + size_of(c) + 0x10_0000_0000_0000;
    size_of(off) * 0x4_0000_0000_0000 <= one() * 0x4_0000_0000_0000 + 2 * terms
}

proof fn lemma_affine_axis(a: int, b: int, c: int, x: int, y: int)
    ensures
        ({
            let image = closest(closest(closest(a * x, 1) + closest(b * y, 1), 1) + c, 1);
            is_affine(rounded(image, one()), a, b, c, x, y)
        }),
{
    lemma_one_is_large();
    let w = one();
    let (ax, by) = (a * x, b * y);
    let (p, q) = (closest(ax, 1), closest(by, 1));
    let s = closest(p + q, 1);
    let t = closest(s + c, 1);
    let (da, db, dc) = (size_of(ax), size_of(by), size_of(c));
    lemma_rounding_error(ax, da);
    lemma_rounding_error(by, db);
    lemma_rounding_error(p + q, 2 * da + 2 * db + 2);
    lemma_rounding_error(s + c, 4 * da + 4 * db + 5 + dc);
    lemma_rounding_is_closest(t, w);
    lemma_errors_add_up(ax, by, c, p, q, s, t, rounded(t, w) * w, w);
}

proof fn lemma_errors_add_up(
    ax: int,
    by: int,
    c: int,
    p: int,
    q: int,
    s: int,
    t: int,
    place: int,
    w: int,
)
    requires
        ({
            let (da, db, dc) = (size_of(ax), size_of(by), size_of(c));
            let (k, h) = (0x20_0000_0000_0000int, 0x10_0000_0000_0000int);
            &&& -(da + h) <= (p - ax) * k <= da + h
            &&& -(db + h) <= (q - by) * k <= db + h
            &&& -(2 * da + 2 * db + 2 + h) <= (s - (p + q)) * k <= 2 * da + 2 * db + 2 + h
            &&& -(4 * da + 4 * db + 5 + dc + h) <= (t - (s + c)) * k <= 4 * da + 4 * db + 5 + dc + h
        }),
        -w <= 2 * (place - t) <= w,
    ensures
        size_of(2 * (place - (ax + by + c))) * 0x4_0000_0000_0000 <= w * 0x4_0000_0000_0000 + 2 * (
        size_of(ax) + size_of(by) + size_of(c) + 0x10_0000_0000_0000),
{
    let (da, db, dc) = (size_of(ax), size_of(by), size_of(c));
    let (k, h) = (0x20_0000_0000_0000int, 0x10_0000_0000_0000int);
    let off = t - (ax + by + c);
    let terms = da + db + dc + h;
    assert(off * k == (p - ax) * k + (q - by) * k + (s - (p + q)) * k + (t - (s + c)) * k);
    assert(-(8 * terms) <= off * k <= 8 * terms);
    assert(-terms <= off * 0x4_0000_0000_0000 <= terms);
}

proof fn lemma_rounding_error(num: int, size: int)
    requires
        -size <= num <= size,
    ensures
        (closest(num, 1) - num) * 0x20_0000_0000_0000 <= size + 0x10_0000_0000_0000,
        (num - closest(num, 1)) * 0x20_0000_0000_0000 <= size + 0x10_0000_0000_0000,
        -(2 * size + 1) <= closest(num, 1) <= 2 * size + 1,
{
    lemma_closest_error(num, 1, size);
}

/// A mapped pixel is where the affine map of the coefficients takes it: the
/// first row gives the column of the device from the column and the row of the
/// pixel, the second row its row.
pub proof fn lemma_mapped_is_affine(map: TransformModel, x: i64, y: i64, width: u32, height: u32)
    ensures
        map.mapped(x, y, width, height) matches Ok(point) ==> {
            &&& map.m11 matches Some(a) && map.m12 matches Some(b) && map.m13 matches Some(c)
                && is_affine(point.x as int, a, b, c, x as int, y as int)
            &&& map.m21 matches Some(a) && map.m22 matches Some(b) && map.m23 matches Some(c)
                && is_affine(point.y as int, a, b, c, x as int, y as int)
        },
{
    if let Ok(point) = map.mapped(x, y, width, height) {
        assert(map.m11 is Some && map.m12 is Some && map.m13 is Some);
        assert(map.m21 is Some && map.m22 is Some && map.m23 is Some);
        lemma_affine_axis(map.m11->0, map.m12->0, map.m13->0, x as int, y as int);
        lemma_affine_axis(map.m21->0, map.m22->0, map.m23->0, x as int, y as int);
    }
}

/// A pixel is refused for its place exactly where it lies outside the
/// screenshot, the column being looked at first.
pub proof fn lemma_pixels_outside_are_refused(
    map: TransformModel,
    x: i64,
    y: i64,
    width: u32,
    height: u32,
)
    requires
        width > 0,
        height > 0,
    ensures
        map.mapped(x, y, width, height) == Err::<AbsolutePoint, CoordError>(
            CoordError::XOutOfRange { x, width },
        ) <==> x < 0 || x >= width,
        map.mapped(x, y, width, height) == Err::<AbsolutePoint, CoordError>(
            CoordError::YOutOfRange { y, height },
        ) <==> 0 <= x < width && (y < 0 || y >= height),
        map.mapped(x, y, width, height) != Err::<AbsolutePoint, CoordError>(
            CoordError::InvalidScreenSize,
        ),
{
}

} // verus!
