//! Judging the linear mapping by where the pointer showed up.

use vstd::prelude::*;

use crate::double::rounding::{
    closest, distance, lemma_closest_error, lemma_closest_is_monotone, lemma_closest_is_within,
    lemma_distance_along_an_axis, lemma_distance_has_no_sign, lemma_distance_is_monotone,
    lemma_integer_stays, lemma_one_is_large, lemma_root_is_small, one,
};
use crate::double::Double;

use super::probe::{along, lemma_position_is_bounded, position, DEVIATION_LIMIT_PX};
use super::Rect;

verus! {

/// A probe and where the pointer showed up: the hotspot in the picture of the
/// window.
#[derive(Debug, Clone, Copy)]
pub struct Sighting {
    pub percent: (u8, u8),
    pub hotspot: (u32, u32),
}

/// Pixels of the desktop for a pixel of the picture, along one side of the
/// window, as a double.
pub open spec fn scale(side: u32, picture: u32) -> int {
    closest(side * one(), picture as int)
}

/// Along one side, where the hotspot is on the desktop.
pub open spec fn observed(start: u32, side: u32, picture: u32, spot: u32) -> int {
    closest(start * one() + closest(scale(side, picture) * spot, 1), 1)
}

/// Along one side, how far the hotspot is from where it should be.
pub open spec fn miss(start: u32, side: u32, picture: u32, spot: u32, percent: u8) -> int {
    closest(observed(start, side, picture, spot) - position(start, side, percent), 1)
}

pub open spec fn x_misses(rect: Rect, picture: (u32, u32), sightings: Seq<Sighting>) -> Seq<int> {
    sightings.map_values(
        |seen: Sighting| miss(rect.x, rect.width, picture.0, seen.hotspot.0, seen.percent.0),
    )
}

pub open spec fn y_misses(rect: Rect, picture: (u32, u32), sightings: Seq<Sighting>) -> Seq<int> {
    sightings.map_values(
        |seen: Sighting| miss(rect.y, rect.height, picture.1, seen.hotspot.1, seen.percent.1),
    )
}

/// The sum of the parts that the first `n` numbers have in the mean of `count`.
pub open spec fn mean_of(numbers: Seq<int>, count: nat, n: nat) -> int
    decreases n,
{
    if n == 0 {
        0
    } else {
        closest(mean_of(numbers, count, (n - 1) as nat) + closest(numbers[n - 1], count as int), 1)
    }
}

pub open spec fn mean(numbers: Seq<int>) -> int {
    mean_of(numbers, numbers.len(), numbers.len())
}

/// How far a sighting is from where it should be. What all sightings have in
/// common is the constant distance between the picture of a cursor and its
/// hotspot, and no error.
pub open spec fn deviation(
    rect: Rect,
    picture: (u32, u32),
    sightings: Seq<Sighting>,
    i: int,
) -> int {
    let xs = x_misses(rect, picture, sightings);
    let ys = y_misses(rect, picture, sightings);
    distance(closest(xs[i] - mean(xs), 1), closest(ys[i] - mean(ys), 1))
}

/// The largest deviation of the first `n` sightings.
pub open spec fn worst(rect: Rect, picture: (u32, u32), sightings: Seq<Sighting>, n: nat) -> int
    decreases n,
{
    if n == 0 {
        0
    } else {
        let before = worst(rect, picture, sightings, (n - 1) as nat);
        let last = deviation(rect, picture, sightings, n - 1);
        if last > before {
            last
        } else {
            before
        }
    }
}

/// Every sighting is close to where it should be.
pub open spec fn is_steady(rect: Rect, picture: (u32, u32), sightings: Seq<Sighting>) -> bool {
    worst(rect, picture, sightings, sightings.len()) < DEVIATION_LIMIT_PX * one()
}

/// Most sightings of a calibration.
pub const MAX_SIGHTINGS: usize = 4;

/// What a calibration measures.
#[derive(Debug)]
pub struct Measurement {
    /// Pixels of the desktop for a pixel of the picture, from left to right.
    pub scale: Double,
    /// Where the hotspots are on the desktop.
    pub observed: Vec<(Double, Double)>,
    /// How far they are from where they should be on average.
    pub mean: (Double, Double),
    /// The largest distance of one from that average.
    pub deviation: Double,
    pub is_steady: bool,
}

impl Measurement {
    /// The doubles are within what arithmetic takes.
    pub open spec fn is_sound(self) -> bool {
        &&& forall|i: int|
            0 <= i < self.observed@.len() ==> {
                let (x, y) = #[trigger] self.observed@[i];
                x.is_valid() && y.is_valid() && x.reach() <= 9600 && y.reach() <= 9600
            }
        &&& self.mean.0.is_valid() && self.mean.0.reach() <= 110_000
        &&& self.mean.1.is_valid() && self.mean.1.reach() <= 110_000
    }

    pub open spec fn is_of(
        self,
        rect: Rect,
        picture: (u32, u32),
        sightings: Seq<Sighting>,
    ) -> bool {
        &&& self.is_sound()
        &&& self.scale.is_valid()
        &&& self.scale@ == scale(rect.width, picture.0)
        &&& self.observed@.len() == sightings.len()
        &&& forall|i: int|
            0 <= i < sightings.len() ==> {
                let (x, y) = #[trigger] self.observed@[i];
                &&& x@ == observed(rect.x, rect.width, picture.0, sightings[i].hotspot.0)
                &&& y@ == observed(rect.y, rect.height, picture.1, sightings[i].hotspot.1)
            }
        &&& self.mean.0@ == mean(x_misses(rect, picture, sightings))
        &&& self.mean.1@ == mean(y_misses(rect, picture, sightings))
        &&& self.deviation.is_valid()
        &&& self.deviation@ == worst(rect, picture, sightings, sightings.len())
        &&& self.is_steady == is_steady(rect, picture, sightings)
    }
}

fn observed_at(start: u32, side: u32, picture: u32, spot: u32) -> (place: Double)
    requires
        picture > 0,
    ensures
        place.is_valid(),
        place@ == observed(start, side, picture, spot),
        place.reach() <= 9600,
{
    let part = Double::ratio(side, picture).times_int(spot);
    let first = Double::from_int(start as i128);
    proof {
        lemma_integer_stays(start as int);
    }
    first.plus(&part)
}

fn mean_value(numbers: &[Double]) -> (value: Double)
    requires
        numbers@.len() <= MAX_SIGHTINGS,
        forall|i: int|
            0 <= i < numbers@.len() ==> (#[trigger] numbers@[i]).is_valid() && numbers@[i].reach()
                <= 22_000,
    ensures
        value.is_valid(),
        value@ == mean(numbers@.map_values(|number: Double| number@)),
        value.reach() <= 110_000,
{
    let ghost values = numbers@.map_values(|number: Double| number@);
    let count: u32 = numbers.len() as u32;
    let mut total = Double::zero();
    let mut i: usize = 0;
    while i < numbers.len()
        invariant
            i <= numbers@.len() <= MAX_SIGHTINGS,
            count == numbers@.len(),
            forall|k: int|
                0 <= k < numbers@.len() ==> (#[trigger] numbers@[k]).is_valid()
                    && numbers@[k].reach() <= 22_000,
            values == numbers@.map_values(|number: Double| number@),
            total.is_valid(),
            total@ == mean_of(values, count as nat, i as nat),
            total.reach() <= 26_000 * i,
        decreases numbers@.len() - i,
    {
        assert(values[i as int] == numbers@[i as int]@);
        total = total.plus(&numbers[i].over_int(count));
        i = i + 1;
    }
    total
}

/// Measures where the pointer showed up. What all sightings have in common is
/// taken off; the linear mapping is right where every one is then below the
/// limit away from where it should be.
pub fn measure(rect: Rect, picture: (u32, u32), sightings: &[Sighting]) -> (measured: Measurement)
    requires
        picture.0 > 0,
        picture.1 > 0,
        sightings@.len() <= MAX_SIGHTINGS,
    ensures
        measured.is_of(rect, picture, sightings@),
{
    let ghost xs = x_misses(rect, picture, sightings@);
    let ghost ys = y_misses(rect, picture, sightings@);
    let mut places: Vec<(Double, Double)> = Vec::new();
    let mut across: Vec<Double> = Vec::new();
    let mut along_side: Vec<Double> = Vec::new();
    let mut i: usize = 0;
    while i < sightings.len()
        invariant
            i <= sightings@.len(),
            picture.0 > 0,
            picture.1 > 0,
            xs == x_misses(rect, picture, sightings@),
            ys == y_misses(rect, picture, sightings@),
            places@.len() == i,
            across@.len() == i,
            along_side@.len() == i,
            forall|k: int|
                0 <= k < i ==> {
                    let (x, y) = #[trigger] places@[k];
                    &&& x.is_valid() && y.is_valid() && x.reach() <= 9600 && y.reach() <= 9600
                    &&& x@ == observed(rect.x, rect.width, picture.0, sightings@[k].hotspot.0)
                    &&& y@ == observed(rect.y, rect.height, picture.1, sightings@[k].hotspot.1)
                },
            forall|k: int|
                0 <= k < i ==> (#[trigger] across@[k]).is_valid() && across@[k].reach() <= 22_000
                    && across@[k]@ == xs[k],
            forall|k: int|
                0 <= k < i ==> (#[trigger] along_side@[k]).is_valid() && along_side@[k].reach()
                    <= 22_000 && along_side@[k]@ == ys[k],
        decreases sightings@.len() - i,
    {
        let seen = sightings[i];
        let x = observed_at(rect.x, rect.width, picture.0, seen.hotspot.0);
        let y = observed_at(rect.y, rect.height, picture.1, seen.hotspot.1);
        across.push(x.minus(&along(rect.x, rect.width, seen.percent.0)));
        along_side.push(y.minus(&along(rect.y, rect.height, seen.percent.1)));
        places.push((x, y));
        i = i + 1;
    }
    assert(across@.map_values(|number: Double| number@) =~= xs);
    assert(along_side@.map_values(|number: Double| number@) =~= ys);
    let x_mean = mean_value(&across);
    let y_mean = mean_value(&along_side);
    let mut far = Double::zero();
    let mut k: usize = 0;
    while k < sightings.len()
        invariant
            k <= sightings@.len(),
            across@.len() == sightings@.len(),
            along_side@.len() == sightings@.len(),
            xs == x_misses(rect, picture, sightings@),
            ys == y_misses(rect, picture, sightings@),
            forall|j: int|
                0 <= j < across@.len() ==> (#[trigger] across@[j]).is_valid() && across@[j].reach()
                    <= 22_000 && across@[j]@ == xs[j],
            forall|j: int|
                0 <= j < along_side@.len() ==> (#[trigger] along_side@[j]).is_valid()
                    && along_side@[j].reach() <= 22_000 && along_side@[j]@ == ys[j],
            x_mean.is_valid(),
            y_mean.is_valid(),
            x_mean@ == mean(xs),
            y_mean@ == mean(ys),
            x_mean.reach() <= 110_000,
            y_mean.reach() <= 110_000,
            far.is_valid(),
            far.reach() <= 550_000,
            far@ == worst(rect, picture, sightings@, k as nat),
        decreases sightings@.len() - k,
    {
        let dx = across[k].minus(&x_mean);
        let dy = along_side[k].minus(&y_mean);
        let length = Double::length(&dx, &dy);
        assert(length@ == deviation(rect, picture, sightings@, k as int));
        if far.is_below(&length) {
            far = length;
        }
        k = k + 1;
    }
    let limit = Double::from_int(DEVIATION_LIMIT_PX as i128);
    proof {
        lemma_integer_stays(DEVIATION_LIMIT_PX as int);
    }
    Measurement {
        scale: Double::ratio(rect.width, picture.0),
        observed: places,
        mean: (x_mean, y_mean),
        is_steady: far.is_below(&limit),
        deviation: far,
    }
}

/// A hotspot within the picture is not far from anything in the window.
proof fn lemma_miss_is_bounded(start: u32, side: u32, picture: u32, spot: u32, percent: u8)
    requires
        spot < picture,
    ensures
        -0x8_0000_0000 * one() <= miss(start, side, picture, spot, percent) <= 0x8_0000_0000
            * one(),
{
    lemma_one_is_large();
    lemma_position_is_bounded(start, side, percent);
    let w = one();
    let s = scale(side, picture);
    assert(0 <= side * w <= 0xffff_ffff * w) by (nonlinear_arith)
        requires
            0 <= side <= 0xffff_ffff,
            w > 0,
    ;
    lemma_closest_error(side * w, picture as int, 0xffff_ffff * w);
    lemma_closest_is_monotone_from_zero(side * w, picture as int);
    assert(s * picture <= 0x1_0000_0000 * w);
    assert(0 <= s * spot <= s * picture) by (nonlinear_arith)
        requires
            s >= 0,
            0 <= spot <= picture,
    ;
    assert(0 * w == 0);
    lemma_closest_is_within(s * spot, 1, 0, 0x1_0000_0000);
    let part = closest(s * spot, 1);
    assert(0 <= start * w <= 0xffff_ffff * w) by (nonlinear_arith)
        requires
            0 <= start <= 0xffff_ffff,
            w > 0,
    ;
    lemma_closest_is_within(start * w + part, 1, 0, 0x2_0000_0000);
    let gap = observed(start, side, picture, spot) - position(start, side, percent);
    lemma_closest_is_within(gap, 1, -0x8_0000_0000, 0x8_0000_0000);
}

proof fn lemma_closest_is_monotone_from_zero(num: int, den: int)
    requires
        num >= 0,
        den > 0,
    ensures
        closest(num, den) >= 0,
{
    lemma_closest_is_monotone(0, 1, num, den);
}

/// The mean of equal numbers is that number, but for a small part of a pixel.
proof fn lemma_mean_of_equals(numbers: Seq<int>, value: int)
    requires
        0 < numbers.len() <= MAX_SIGHTINGS,
        forall|i: int| 0 <= i < numbers.len() ==> #[trigger] numbers[i] == value,
        -0x8_0000_0000 * one() <= value <= 0x8_0000_0000 * one(),
    ensures
        -one() <= value - mean(numbers) <= one(),
{
    lemma_one_is_large();
    let w = one();
    let count = numbers.len() as int;
    let part = closest(value, count);
    lemma_closest_error(value, count, 0x8_0000_0000 * w);
    assert(-0x8_0000_0000 * w * count <= value <= 0x8_0000_0000 * w * count) by (nonlinear_arith)
        requires
            -0x8_0000_0000 * w <= value <= 0x8_0000_0000 * w,
            count >= 1,
            w > 0,
    ;
    lemma_closest_is_within(value, count, -0x8_0000_0000, 0x8_0000_0000);
    lemma_parts_of_mean(numbers, value, part, numbers.len());
    assert(numbers.len() * part == part * count) by (nonlinear_arith)
        requires
            count == numbers.len(),
    ;
    assert(w * count <= 4 * w && (-w) * count == -(w * count)) by (nonlinear_arith)
        requires
            count <= 4,
            w > 0,
    ;
}

proof fn lemma_parts_of_mean(numbers: Seq<int>, value: int, part: int, n: nat)
    requires
        0 < numbers.len() <= MAX_SIGHTINGS,
        n <= numbers.len(),
        forall|i: int| 0 <= i < numbers.len() ==> #[trigger] numbers[i] == value,
        part == closest(value, numbers.len() as int),
        -0x8_0000_0000 * one() <= part <= 0x8_0000_0000 * one(),
    ensures
        -one() * n <= (mean_of(numbers, numbers.len(), n) - n * part) * 0x100 <= one() * n,
    decreases n,
{
    lemma_one_is_large();
    let w = one();
    if n > 0 {
        let before = (n - 1) as nat;
        lemma_parts_of_mean(numbers, value, part, before);
        let total = mean_of(numbers, numbers.len(), before);
        assert(numbers[n - 1] == value);
        assert(-0x8_0000_0000 * w * 4 <= before * part <= 0x8_0000_0000 * w * 4)
            by (nonlinear_arith)
            requires
                0 <= before <= 4,
                -0x8_0000_0000 * w <= part <= 0x8_0000_0000 * w,
                w > 0,
        ;
        assert(w * before <= w * 4) by (nonlinear_arith)
            requires
                before <= 4,
                w > 0,
        ;
        assert((-w) * before == -(w * before)) by (nonlinear_arith);
        lemma_closest_error(total + part, 1, 0x80_0000_0000 * w);
        assert(n * part == before * part + part) by (nonlinear_arith)
            requires
                n == before + 1,
        ;
        assert(w * n == w * before + w && (-w) * n == -(w * n)) by (nonlinear_arith)
            requires
                n == before + 1,
        ;
    } else {
        assert(0 * part == 0 && (-w) * 0 == 0 && w * 0 == 0) by (nonlinear_arith);
    }
}

/// A constant distance between the sightings and where they should be is no
/// error: sightings that miss by the same all are steady.
pub proof fn lemma_constant_offset_is_no_error(
    rect: Rect,
    picture: (u32, u32),
    sightings: Seq<Sighting>,
    x: int,
    y: int,
)
    requires
        sightings.len() <= MAX_SIGHTINGS,
        forall|i: int|
            0 <= i < sightings.len() ==> (#[trigger] sightings[i]).hotspot.0 < picture.0
                && sightings[i].hotspot.1 < picture.1,
        forall|i: int|
            0 <= i < sightings.len() ==> #[trigger] x_misses(rect, picture, sightings)[i] == x,
        forall|i: int|
            0 <= i < sightings.len() ==> #[trigger] y_misses(rect, picture, sightings)[i] == y,
    ensures
        is_steady(rect, picture, sightings),
{
    let xs = x_misses(rect, picture, sightings);
    let ys = y_misses(rect, picture, sightings);
    lemma_one_is_large();
    let w = one();
    assert forall|i: int| 0 <= i < sightings.len() implies #[trigger] deviation(
        rect,
        picture,
        sightings,
        i,
    ) < DEVIATION_LIMIT_PX * one() by {
        let seen = sightings[i];
        assert(xs[i] == x && ys[i] == y);
        lemma_miss_is_bounded(rect.x, rect.width, picture.0, seen.hotspot.0, seen.percent.0);
        lemma_miss_is_bounded(rect.y, rect.height, picture.1, seen.hotspot.1, seen.percent.1);
        lemma_mean_of_equals(xs, x);
        lemma_mean_of_equals(ys, y);
        assert(-1 * w * 1 == -w && 1 * w * 1 == w);
        lemma_closest_is_within(x - mean(xs), 1, -1, 1);
        lemma_closest_is_within(y - mean(ys), 1, -1, 1);
        let dx = closest(xs[i] - mean(xs), 1);
        let dy = closest(ys[i] - mean(ys), 1);
        lemma_small_square(dx);
        lemma_small_square(dy);
        let sum = closest(dx * dx, w) + closest(dy * dy, w);
        assert(0 * w * 1 == 0 && 2 * w * 1 == 2 * w);
        lemma_closest_is_within(sum, 1, 0, 2);
        lemma_root_is_small(closest(sum, 1));
    }
    lemma_worst(rect, picture, sightings, sightings.len());
}

proof fn lemma_worst(rect: Rect, picture: (u32, u32), sightings: Seq<Sighting>, n: nat)
    requires
        n <= sightings.len(),
        forall|i: int|
            0 <= i < sightings.len() ==> #[trigger] deviation(rect, picture, sightings, i)
                < DEVIATION_LIMIT_PX * one(),
    ensures
        worst(rect, picture, sightings, n) < DEVIATION_LIMIT_PX * one(),
    decreases n,
{
    lemma_one_is_large();
    if n > 0 {
        lemma_worst(rect, picture, sightings, (n - 1) as nat);
        assert(deviation(rect, picture, sightings, n - 1) < DEVIATION_LIMIT_PX * one());
    }
}

proof fn lemma_small_square(x: int)
    requires
        -one() <= x <= one(),
    ensures
        0 <= closest(x * x, one()) <= one(),
{
    lemma_one_is_large();
    let w = one();
    assert(0 <= x * x <= w * w) by (nonlinear_arith)
        requires
            -w <= x <= w,
            w > 0,
    ;
    assert(0 * w * w == 0 && 1 * w * w == w * w && 0 * w == 0) by (nonlinear_arith);
    lemma_closest_is_within(x * x, w, 0, 1);
}

/// The place of a hotspot on the desktop is the start of the side and the part
/// of it that the hotspot is of the picture, to a tiny part of a pixel.
pub proof fn lemma_observed_is_a_part_of_the_side(start: u32, side: u32, picture: u32, spot: u32)
    requires
        spot < picture,
    ensures
        ({
            let off = (observed(start, side, picture, spot) - start * one()) * picture - side * spot
                * one();
            -(picture * one()) <= off * 0x1_0000 <= picture * one()
        }),
{
    lemma_one_is_large();
    let w = one();
    let s = scale(side, picture);
    assert(0 <= side * w <= 0xffff_ffff * w) by (nonlinear_arith)
        requires
            0 <= side <= 0xffff_ffff,
            w > 0,
    ;
    lemma_closest_error(side * w, picture as int, 0xffff_ffff * w);
    lemma_closest_is_monotone_from_zero(side * w, picture as int);
    let e1 = s * picture - side * w;
    assert(s * picture <= 0x1_0000_0000 * w);
    assert(0 <= s * spot <= s * picture) by (nonlinear_arith)
        requires
            s >= 0,
            0 <= spot <= picture,
    ;
    let part = closest(s * spot, 1);
    lemma_closest_error(s * spot, 1, 0x1_0000_0000 * w);
    let e2 = part - s * spot;
    let total = start * w + part;
    assert(0 <= start * w <= 0xffff_ffff * w) by (nonlinear_arith)
        requires
            0 <= start <= 0xffff_ffff,
            w > 0,
    ;
    lemma_closest_error(total, 1, 0x8_0000_0000 * w);
    let place = observed(start, side, picture, spot);
    let e3 = place - total;
    let off = (place - start * w) * picture - side * spot * w;
    assert(off == picture * e3 + picture * e2 + spot * e1) by (nonlinear_arith)
        requires
            off == (place - start * w) * picture - side * spot * w,
            e3 == place - (start * w + part),
            e2 == part - s * spot,
            e1 == s * picture - side * w,
    ;
    assert(-w <= e1 * 0x10_0000 <= w);
    assert(-w <= e2 * 0x10_0000 <= w);
    assert(-w <= e3 * 0x2_0000 <= w);
    assert(-(picture * w) <= (picture * e3) * 0x2_0000 <= picture * w) by (nonlinear_arith)
        requires
            -w <= e3 * 0x2_0000 <= w,
            picture > 0,
    ;
    assert(-(picture * w) <= (picture * e2) * 0x10_0000 <= picture * w) by (nonlinear_arith)
        requires
            -w <= e2 * 0x10_0000 <= w,
            picture > 0,
    ;
    assert(-(picture * w) <= (spot * e1) * 0x10_0000 <= picture * w) by (nonlinear_arith)
        requires
            -w <= e1 * 0x10_0000 <= w,
            0 <= spot <= picture,
            w > 0,
    ;
}

/// The worst deviation is that of one of the sightings, and none is worse.
pub proof fn lemma_worst_is_the_largest(
    rect: Rect,
    picture: (u32, u32),
    sightings: Seq<Sighting>,
    n: nat,
)
    ensures
        forall|i: int|
            0 <= i < n ==> #[trigger] deviation(rect, picture, sightings, i) <= worst(
                rect,
                picture,
                sightings,
                n,
            ),
        worst(rect, picture, sightings, n) == 0 || exists|i: int|
            0 <= i < n && #[trigger] deviation(rect, picture, sightings, i) == worst(
                rect,
                picture,
                sightings,
                n,
            ),
    decreases n,
{
    if n > 0 {
        lemma_worst_is_the_largest(rect, picture, sightings, (n - 1) as nat);
        let last = deviation(rect, picture, sightings, n - 1);
        let before = worst(rect, picture, sightings, (n - 1) as nat);
        if last <= before && before != 0 {
            let i = choose|i: int|
                0 <= i < n - 1 && #[trigger] deviation(rect, picture, sightings, i) == before;
            assert(deviation(rect, picture, sightings, i) == worst(rect, picture, sightings, n));
        }
    }
}

/// Sightings are steady exactly where each is less than three pixels away from
/// where it should be.
pub proof fn lemma_steady_means_close(rect: Rect, picture: (u32, u32), sightings: Seq<Sighting>)
    ensures
        is_steady(rect, picture, sightings) <==> forall|i: int|
            0 <= i < sightings.len() ==> #[trigger] deviation(rect, picture, sightings, i) < 3
                * one(),
{
    lemma_one_is_large();
    lemma_worst_is_the_largest(rect, picture, sightings, sightings.len());
}

/// A real error is seen: where one sighting misses by six pixels more than
/// another, along either side, they are not steady.
pub proof fn lemma_real_errors_are_seen(
    rect: Rect,
    picture: (u32, u32),
    sightings: Seq<Sighting>,
    i: int,
    j: int,
)
    requires
        0 <= i < sightings.len(),
        0 <= j < sightings.len(),
        ({
            let xs = x_misses(rect, picture, sightings);
            let ys = y_misses(rect, picture, sightings);
            xs[i] - xs[j] >= 6 * one() || ys[i] - ys[j] >= 6 * one()
        }),
    ensures
        !is_steady(rect, picture, sightings),
{
    lemma_one_is_large();
    lemma_worst_is_the_largest(rect, picture, sightings, sightings.len());
    let w = one();
    let xs = x_misses(rect, picture, sightings);
    let ys = y_misses(rect, picture, sightings);
    let (mx, my) = (mean(xs), mean(ys));
    lemma_far_is_far(xs[i] - mx, ys[i] - my);
    lemma_far_is_far(xs[j] - mx, ys[j] - my);
    assert(deviation(rect, picture, sightings, i) <= worst(
        rect,
        picture,
        sightings,
        sightings.len(),
    ));
    assert(deviation(rect, picture, sightings, j) <= worst(
        rect,
        picture,
        sightings,
        sightings.len(),
    ));
}

proof fn lemma_far_is_far(x: int, y: int)
    ensures
        x >= 3 * one() || x <= -3 * one() || y >= 3 * one() || y <= -3 * one() ==> distance(
            closest(x, 1),
            closest(y, 1),
        ) >= 3 * one(),
{
    let w = one();
    lemma_integer_stays(3);
    lemma_integer_stays(-3);
    lemma_distance_along_an_axis(3);
    let (dx, dy) = (closest(x, 1), closest(y, 1));
    let far = |n: int|
        if n < 0 {
            -n
        } else {
            n
        };
    lemma_distance_has_no_sign(dx, dy);
    if x >= 3 * w {
        lemma_closest_is_monotone(3 * w, 1, x, 1);
        lemma_distance_is_monotone(3 * w, 0, far(dx), far(dy));
    }
    if x <= -3 * w {
        lemma_closest_is_monotone(x, 1, -3 * w, 1);
        lemma_distance_is_monotone(3 * w, 0, far(dx), far(dy));
    }
    if y >= 3 * w {
        lemma_closest_is_monotone(3 * w, 1, y, 1);
        lemma_distance_is_monotone(0, 3 * w, far(dx), far(dy));
    }
    if y <= -3 * w {
        lemma_closest_is_monotone(y, 1, -3 * w, 1);
        lemma_distance_is_monotone(0, 3 * w, far(dx), far(dy));
    }
}

pub open spec fn sum_of(numbers: Seq<int>, n: nat) -> int
    decreases n,
{
    if n == 0 {
        0
    } else {
        sum_of(numbers, (n - 1) as nat) + numbers[n - 1]
    }
}

proof fn lemma_mean_of_some(numbers: Seq<int>, n: nat)
    requires
        0 < numbers.len() <= MAX_SIGHTINGS,
        n <= numbers.len(),
        forall|i: int|
            0 <= i < numbers.len() ==> -0x8_0000_0000 * one() <= #[trigger] numbers[i]
                <= 0x8_0000_0000 * one(),
    ensures
        ({
            let off = mean_of(numbers, numbers.len(), n) * numbers.len() - sum_of(numbers, n);
            -one() * n <= off * 0x100 <= one() * n
        }),
        -0x8_0000_0000 * one() * n <= sum_of(numbers, n) <= 0x8_0000_0000 * one() * n,
    decreases n,
{
    lemma_one_is_large();
    let w = one();
    let count = numbers.len() as int;
    if n > 0 {
        let before = (n - 1) as nat;
        lemma_mean_of_some(numbers, before);
        let total = mean_of(numbers, numbers.len(), before);
        let value = numbers[n - 1];
        let part = closest(value, count);
        let sum = sum_of(numbers, before);
        lemma_closest_error(value, count, 0x8_0000_0000 * w);
        assert(-0x8_0000_0000 * w * 4 <= sum <= 0x8_0000_0000 * w * 4) by (nonlinear_arith)
            requires
                -0x8_0000_0000 * w * before <= sum <= 0x8_0000_0000 * w * before,
                0 <= before <= 4,
                w > 0,
        ;
        assert(w * before <= w * 4 && (-w) * before == -(w * before)) by (nonlinear_arith)
            requires
                before <= 4,
                w > 0,
        ;
        assert(-(0x40_0000_0000 * w) <= total <= 0x40_0000_0000 * w) by (nonlinear_arith)
            requires
                -(0x21_0000_0000 * w) <= total * count <= 0x21_0000_0000 * w,
                1 <= count <= 4,
                w > 0,
        ;
        assert(-(0x9_0000_0000 * w) <= part <= 0x9_0000_0000 * w) by (nonlinear_arith)
            requires
                -(0x9_0000_0000 * w) <= part * count <= 0x9_0000_0000 * w,
                1 <= count <= 4,
                w > 0,
        ;
        lemma_closest_error(total + part, 1, 0x80_0000_0000 * w);
        let next = closest(total + part, 1);
        let e1 = part * count - value;
        let e2 = next - (total + part);
        let e3 = total * count - sum;
        assert(next * count - (sum + value) == e1 + e2 * count + e3) by (nonlinear_arith)
            requires
                e1 == part * count - value,
                e2 == next - (total + part),
                e3 == total * count - sum,
        ;
        assert(-w <= e1 * 0x1000 <= w);
        assert(-w <= e2 * 0x2000 <= w);
        assert(-w <= (e2 * count) * 0x800 <= w) by (nonlinear_arith)
            requires
                -w <= e2 * 0x2000 <= w,
                1 <= count <= 4,
                w > 0,
        ;
        assert(w * n == w * before + w && (-w) * n == -(w * n)) by (nonlinear_arith)
            requires
                n == before + 1,
        ;
        assert(0x8_0000_0000 * w * n == 0x8_0000_0000 * w * before + 0x8_0000_0000 * w)
            by (nonlinear_arith)
            requires
                n == before + 1,
        ;
        assert(-0x8_0000_0000 * w * n == -0x8_0000_0000 * w * before - 0x8_0000_0000 * w)
            by (nonlinear_arith)
            requires
                n == before + 1,
        ;
    } else {
        assert(0 * count == 0 && w * 0 == 0 && (-w) * 0 == 0) by (nonlinear_arith);
        assert(0x8_0000_0000 * w * 0 == 0 && -0x8_0000_0000 * w * 0 == 0) by (nonlinear_arith);
    }
}

/// The mean of numbers is their sum divided by how many they are, to a tiny
/// part of a pixel.
pub proof fn lemma_mean_is_the_sum_divided(numbers: Seq<int>)
    requires
        0 < numbers.len() <= MAX_SIGHTINGS,
        forall|i: int|
            0 <= i < numbers.len() ==> -0x8_0000_0000 * one() <= #[trigger] numbers[i]
                <= 0x8_0000_0000 * one(),
    ensures
        ({
            let off = mean(numbers) * numbers.len() - sum_of(numbers, numbers.len());
            -one() <= off * 0x40 <= one()
        }),
{
    lemma_one_is_large();
    lemma_mean_of_some(numbers, numbers.len());
    let (w, n) = (one(), numbers.len());
    assert(w * n <= 4 * w && (-w) * n == -(w * n)) by (nonlinear_arith)
        requires
            n <= 4,
            w > 0,
    ;
}

/// The scale is the length of the side for each pixel of the picture, to a tiny
/// part of itself.
pub proof fn lemma_scale_is_the_ratio(side: u32, picture: u32)
    requires
        picture > 0,
    ensures
        ({
            let off = scale(side, picture) * picture - side * one();
            let bound = side * one() + picture * 0x10_0000_0000_0000;
            -bound <= off * 0x20_0000_0000_0000 <= bound
        }),
{
    let w = one();
    lemma_one_is_large();
    assert(side * w >= 0) by (nonlinear_arith)
        requires
            side >= 0,
            w > 0,
    ;
    lemma_closest_error(side * w, picture as int, side * w);
}

} // verus!
