//! The affine map that fits best what a calibration observed: least squares,
//! with doubles.

use vstd::arithmetic::power2::pow2;
use vstd::prelude::*;
use vstd::string::*;

use crate::coords::{Transform, TransformModel};
use crate::double::rounding::{
    closest, is_finite, lemma_closest_error, lemma_closest_is_within, lemma_integer_stays,
    lemma_near_error, lemma_one_is_large, lemma_root_of_square, one,
};
use crate::double::Double;
use crate::number::{
    lemma_integer_arithmetic, lemma_squares_are_not_negative, settle, settled, Number, Real,
};
use crate::text::{digits, push_digits};

use super::measure::Measurement;
use super::probe::DEVIATION_LIMIT_PX;

verus! {

/// A pixel of the desktop and where the pointer device was.
pub type Observation = ((Number, Number), (Number, Number));

pub struct Pair {
    pub pixel: (Real, Real),
    pub device: (Real, Real),
}

pub open spec fn pair_of(observation: Observation) -> Pair {
    Pair {
        pixel: (observation.0.0@, observation.0.1@),
        device: (observation.1.0@, observation.1.1@),
    }
}

pub open spec fn pairs_of(observations: Seq<Observation>) -> Seq<Pair> {
    observations.map_values(|observation: Observation| pair_of(observation))
}

pub open spec fn is_valid(observation: Observation) -> bool {
    observation.0.0.is_valid() && observation.0.1.is_valid() && observation.1.0.is_valid()
        && observation.1.1.is_valid()
}

/// One of the three terms of an affine map: the column, the row, and one.
pub open spec fn term(pair: Pair, i: int) -> Real {
    if i == 0 {
        pair.pixel.0
    } else if i == 1 {
        pair.pixel.1
    } else {
        Real::of_int(1)
    }
}

/// The other factor of a product of the normal equations: a term of the map,
/// or the target on one of the axes.
pub open spec fn factor(pair: Pair, j: int, along: bool) -> Real {
    if j < 3 {
        term(pair, j)
    } else if along {
        pair.device.1
    } else {
        pair.device.0
    }
}

/// The sum of the products over the first `n` pairs.
pub open spec fn summed(pairs: Seq<Pair>, i: int, j: int, along: bool, n: nat) -> Real
    decreases n,
{
    if n == 0 {
        Real::zero()
    } else {
        summed(pairs, i, j, along, (n - 1) as nat).plus(
            term(pairs[n - 1], i).times(factor(pairs[n - 1], j, along)),
        )
    }
}

/// The normal equations of one axis: three rows of four, row by row.
pub open spec fn equations(pairs: Seq<Pair>, along: bool) -> Seq<Real> {
    Seq::new(12, |k: int| summed(pairs, k / 4, k % 4, along, pairs.len()))
}

/// A pivot below this is none.
pub open spec fn tiny() -> Real {
    Real::Finite(closest(one(), 1_000_000_000))
}

/// Of the rows from `col` up to `row`, the one with the largest entry in the
/// column; of several, the last.
pub open spec fn pivot(m: Seq<Real>, col: int, row: int) -> int
    decreases row - col,
{
    if row <= col {
        col
    } else {
        let best = pivot(m, col, row - 1);
        if m[row * 4 + col].size().is_below(m[best * 4 + col].size()) {
            best
        } else {
            row
        }
    }
}

pub open spec fn swapped(m: Seq<Real>, a: int, b: int) -> Seq<Real> {
    Seq::new(
        12,
        |k: int|
            if k / 4 == a {
                m[b * 4 + k % 4]
            } else if k / 4 == b {
                m[a * 4 + k % 4]
            } else {
                m[k]
            },
    )
}

/// One row with the column cleared by the row of the pivot.
pub open spec fn cleared(m: Seq<Real>, col: int, row: int) -> Seq<Real> {
    let factor = m[row * 4 + col].over(m[col * 4 + col]);
    Seq::new(
        12,
        |k: int|
            if k / 4 == row && k % 4 >= col {
                m[k].minus(factor.times(m[col * 4 + k % 4]))
            } else {
                m[k]
            },
    )
}

/// The first `n` rows with the column cleared, but for that of the pivot.
pub open spec fn all_cleared(m: Seq<Real>, col: int, n: nat) -> Seq<Real>
    decreases n,
{
    if n == 0 {
        m
    } else {
        let before = all_cleared(m, col, (n - 1) as nat);
        if n - 1 == col {
            before
        } else {
            cleared(before, col, n - 1)
        }
    }
}

/// Gaussian elimination of the first `n` columns; nothing where a pivot is too
/// small.
pub open spec fn eliminated(m: Seq<Real>, n: nat) -> Option<Seq<Real>>
    decreases n,
{
    if n == 0 {
        Some(m)
    } else {
        let col = n - 1;
        match eliminated(m, (n - 1) as nat) {
            None => None,
            Some(before) => {
                let best = pivot(before, col, 2);
                if before[best * 4 + col].size().is_below(tiny()) {
                    None
                } else {
                    Some(all_cleared(swapped(before, col, best), col, 3))
                }
            },
        }
    }
}

/// The solution of three equations with three unknowns.
pub open spec fn solution(m: Seq<Real>) -> Option<(Real, Real, Real)> {
    match eliminated(m, 3) {
        None => None,
        Some(m) => Some((m[3].over(m[0]), m[7].over(m[5]), m[11].over(m[10]))),
    }
}

/// An affine map.
pub struct Fit {
    pub across: (Real, Real, Real),
    pub along: (Real, Real, Real),
}

impl Fit {
    pub open spec fn determinant(self) -> Real {
        self.across.0.times(self.along.1).minus(self.across.1.times(self.along.0))
    }

    /// How far the pixel of a pair is from the one that the map takes to where
    /// the device was.
    pub open spec fn residual(self, pair: Pair) -> Real {
        let ux = pair.device.0.minus(self.across.2);
        let uy = pair.device.1.minus(self.along.2);
        let det = self.determinant();
        let x = self.along.1.times(ux).minus(self.across.1.times(uy)).over(det);
        let y = self.along.0.negated().times(ux).plus(self.across.0.times(uy)).over(det);
        let dx = x.minus(pair.pixel.0);
        let dy = y.minus(pair.pixel.1);
        dx.times(dx).plus(dy.times(dy)).root()
    }

    /// The largest residual of the first `n` pairs, among those that are
    /// numbers.
    pub open spec fn worst(self, pairs: Seq<Pair>, n: nat) -> Real
        decreases n,
    {
        if n == 0 {
            Real::zero()
        } else {
            let before = self.worst(pairs, (n - 1) as nat);
            let last = self.residual(pairs[n - 1]);
            if before.is_below(last) {
                last
            } else {
                before
            }
        }
    }

    pub open spec fn model(self) -> TransformModel {
        TransformModel {
            m11: self.across.0.worth(),
            m12: self.across.1.worth(),
            m13: self.across.2.worth(),
            m21: self.along.0.worth(),
            m22: self.along.1.worth(),
            m23: self.along.2.worth(),
        }
    }
}

/// The map that fits the pairs best.
pub open spec fn fitted(pairs: Seq<Pair>) -> Result<Fit, Seq<char>> {
    if pairs.len() < 3 {
        Err("need at least 3 cursor observations, found "@ + digits(pairs.len()))
    } else {
        match (solution(equations(pairs, false)), solution(equations(pairs, true))) {
            (Some(across), Some(along)) => {
                let fit = Fit { across, along };
                if fit.determinant().size().is_below(tiny()) {
                    Err("fitted transform is degenerate"@)
                } else {
                    Ok(fit)
                }
            },
            _ => Err("cursor observations are collinear"@),
        }
    }
}

pub open spec fn reals(numbers: Seq<Number>) -> Seq<Real> {
    numbers.map_values(|number: Number| number@)
}

spec fn all_valid(numbers: Seq<Number>) -> bool {
    forall|k: int| 0 <= k < numbers.len() ==> (#[trigger] numbers[k]).is_valid()
}

fn tiny_number() -> (number: Number)
    ensures
        number.is_valid(),
        number@ == tiny(),
{
    let double = Double::ratio(1, 1_000_000_000);
    proof {
        lemma_tiny();
        double.lemma_reach();
    }
    Number::Finite(double)
}

proof fn lemma_tiny()
    ensures
        tiny() matches Real::Finite(value) && 0 < value <= one() && is_finite(value),
        1 * one() == one(),
{
    lemma_one_is_large();
    let w = one();
    lemma_near_error(w, 1_000_000_000);
    assert(0 * w * 1_000_000_000 <= w <= 1 * w * 1_000_000_000);
    lemma_closest_is_within(w, 1_000_000_000, 0, 1);
}

fn term_of(observation: &Observation, i: usize) -> (number: Number)
    requires
        is_valid(*observation),
    ensures
        number.is_valid(),
        number@ == term(pair_of(*observation), i as int),
{
    if i == 0 {
        observation.0.0
    } else if i == 1 {
        observation.0.1
    } else {
        let one = Double::from_int(1);
        proof {
            lemma_integer_stays(1);
            lemma_one_is_large();
            one.lemma_reach();
        }
        Number::Finite(one)
    }
}

fn factor_of(observation: &Observation, j: usize, along: bool) -> (number: Number)
    requires
        is_valid(*observation),
    ensures
        number.is_valid(),
        number@ == factor(pair_of(*observation), j as int, along),
{
    if j < 3 {
        term_of(observation, j)
    } else if along {
        observation.1.1
    } else {
        observation.1.0
    }
}

fn sum_products(observations: &[Observation], i: usize, j: usize, along: bool) -> (sum: Number)
    requires
        forall|k: int| 0 <= k < observations@.len() ==> is_valid(#[trigger] observations@[k]),
    ensures
        sum.is_valid(),
        sum@ == summed(
            pairs_of(observations@),
            i as int,
            j as int,
            along,
            observations@.len(),
        ),
{
    let ghost pairs = pairs_of(observations@);
    let mut sum = Number::zero();
    let mut n: usize = 0;
    while n < observations.len()
        invariant
            n <= observations@.len(),
            pairs == pairs_of(observations@),
            forall|k: int| 0 <= k < observations@.len() ==> is_valid(#[trigger] observations@[k]),
            sum.is_valid(),
            sum@ == summed(pairs, i as int, j as int, along, n as nat),
        decreases observations@.len() - n,
    {
        let observation: &Observation = &observations[n];
        assert(pairs[n as int] == pair_of(observations@[n as int]));
        sum = sum.plus(&term_of(observation, i).times(&factor_of(observation, j, along)));
        n = n + 1;
    }
    sum
}

fn normal_equations(observations: &[Observation], along: bool) -> (m: Vec<Number>)
    requires
        forall|k: int| 0 <= k < observations@.len() ==> is_valid(#[trigger] observations@[k]),
    ensures
        m@.len() == 12,
        all_valid(m@),
        reals(m@) == equations(pairs_of(observations@), along),
{
    let mut m: Vec<Number> = Vec::new();
    let mut k: usize = 0;
    while k < 12
        invariant
            k <= 12,
            m@.len() == k,
            all_valid(m@),
            forall|i: int| 0 <= i < observations@.len() ==> is_valid(#[trigger] observations@[i]),
            forall|i: int|
                0 <= i < k ==> (#[trigger] m@[i])@ == equations(pairs_of(observations@), along)[i],
        decreases 12 - k,
    {
        m.push(sum_products(observations, k / 4, k % 4, along));
        k = k + 1;
    }
    assert(reals(m@) =~= equations(pairs_of(observations@), along));
    m
}

fn find_pivot(m: &[Number], col: usize) -> (best: usize)
    requires
        m@.len() == 12,
        all_valid(m@),
        col < 3,
    ensures
        col <= best < 3,
        best == pivot(reals(m@), col as int, 2),
{
    let mut best: usize = col;
    let mut row: usize = col;
    while row < 2
        invariant
            m@.len() == 12,
            all_valid(m@),
            col <= best <= row <= 2,
            best == pivot(reals(m@), col as int, row as int),
        decreases 2 - row,
    {
        row = row + 1;
        if !m[row * 4 + col].size().is_below(&m[best * 4 + col].size()) {
            best = row;
        }
    }
    best
}

fn swap_rows(m: &[Number], a: usize, b: usize) -> (swapped: Vec<Number>)
    requires
        m@.len() == 12,
        all_valid(m@),
        a < 3,
        b < 3,
    ensures
        swapped@.len() == 12,
        all_valid(swapped@),
        reals(swapped@) == self::swapped(reals(m@), a as int, b as int),
{
    let mut rows: Vec<Number> = Vec::new();
    let mut k: usize = 0;
    while k < 12
        invariant
            k <= 12,
            rows@.len() == k,
            m@.len() == 12,
            all_valid(m@),
            all_valid(rows@),
            a < 3,
            b < 3,
            forall|i: int|
                0 <= i < k ==> (#[trigger] rows@[i])@ == swapped(reals(m@), a as int, b as int)[i],
        decreases 12 - k,
    {
        let number: Number = if k / 4 == a {
            m[b * 4 + k % 4]
        } else if k / 4 == b {
            m[a * 4 + k % 4]
        } else {
            m[k]
        };
        rows.push(number);
        k = k + 1;
    }
    assert(reals(rows@) =~= swapped(reals(m@), a as int, b as int));
    rows
}

fn clear_row(m: &[Number], col: usize, row: usize) -> (cleared: Vec<Number>)
    requires
        m@.len() == 12,
        all_valid(m@),
        col < 3,
        row < 3,
        reals(m@)[col * 4 + col] != Real::zero(),
    ensures
        cleared@.len() == 12,
        all_valid(cleared@),
        reals(cleared@) == self::cleared(reals(m@), col as int, row as int),
{
    let factor = m[row * 4 + col].over(&m[col * 4 + col]);
    let mut rows: Vec<Number> = Vec::new();
    let mut k: usize = 0;
    while k < 12
        invariant
            k <= 12,
            rows@.len() == k,
            m@.len() == 12,
            all_valid(m@),
            all_valid(rows@),
            col < 3,
            row < 3,
            factor.is_valid(),
            factor@ == reals(m@)[row * 4 + col].over(reals(m@)[col * 4 + col]),
            forall|i: int|
                0 <= i < k ==> (#[trigger] rows@[i])@ == cleared(
                    reals(m@),
                    col as int,
                    row as int,
                )[i],
        decreases 12 - k,
    {
        let number: Number = if k / 4 == row && k % 4 >= col {
            m[k].minus(&factor.times(&m[col * 4 + k % 4]))
        } else {
            m[k]
        };
        rows.push(number);
        k = k + 1;
    }
    assert(reals(rows@) =~= cleared(reals(m@), col as int, row as int));
    rows
}

/// The entries of the diagonal that columns before `n` have made pivots are
/// not zero.
spec fn has_pivots(m: Seq<Real>, n: int) -> bool {
    &&& n > 0 ==> m[0] != Real::zero()
    &&& n > 1 ==> m[5] != Real::zero()
    &&& n > 2 ==> m[10] != Real::zero()
}

proof fn lemma_cleared_keeps_pivots(m: Seq<Real>, col: int, row: int, n: int)
    requires
        m.len() == 12,
        0 <= col < 3,
        0 <= row < 3,
        row != col,
        n == col + 1,
        has_pivots(m, n),
    ensures
        cleared(m, col, row).len() == 12,
        has_pivots(cleared(m, col, row), n),
{
    let after = cleared(m, col, row);
    assert(0int / 4 == 0 && 0int % 4 == 0 && 5int / 4 == 1 && 5int % 4 == 1 && 10int / 4 == 2
        && 10int % 4 == 2);
    assert(after[0] == m[0] || row == 0 && col == 0);
    if n > 1 {
        assert(after[5] == m[5]);
    }
    if n > 2 {
        assert(after[10] == m[10]);
    }
}

fn solve3(given: Vec<Number>) -> (unknowns: Option<(Number, Number, Number)>)
    requires
        given@.len() == 12,
        all_valid(given@),
    ensures
        match unknowns {
            Some((a, b, c)) => a.is_valid() && b.is_valid() && c.is_valid() && solution(
                reals(given@),
            ) == Some((a@, b@, c@)),
            None => solution(reals(given@)) is None,
        },
{
    let ghost start = reals(given@);
    let mut m: Vec<Number> = given;
    let limit = tiny_number();
    let mut col: usize = 0;
    while col < 3
        invariant
            col <= 3,
            m@.len() == 12,
            all_valid(m@),
            limit.is_valid(),
            limit@ == tiny(),
            start == reals(given@),
            eliminated(start, col as nat) == Some(reals(m@)),
            has_pivots(reals(m@), col as int),
        decreases 3 - col,
    {
        let best: usize = find_pivot(&m, col);
        if m[best * 4 + col].size().is_below(&limit) {
            proof {
                lemma_none_stays(start, col as nat + 1, 3);
            }
            return None;
        }
        let ghost before = reals(m@);
        let mut rows: Vec<Number> = swap_rows(&m, col, best);
        let ghost ordered = reals(rows@);
        proof {
            lemma_tiny();
            assert(before[best * 4 + col] != Real::zero());
            assert(ordered[col * 4 + col] == before[best * 4 + col]) by {
                assert((col * 4 + col) / 4 == col && (col * 4 + col) % 4 == col);
            }
            assert(0int / 4 == 0 && 5int / 4 == 1 && 10int / 4 == 2);
            assert(has_pivots(ordered, col + 1));
        }
        let mut row: usize = 0;
        while row < 3
            invariant
                row <= 3,
                col < 3,
                rows@.len() == 12,
                all_valid(rows@),
                reals(rows@) == all_cleared(ordered, col as int, row as nat),
                has_pivots(reals(rows@), col + 1),
            decreases 3 - row,
        {
            if row != col {
                proof {
                    lemma_cleared_keeps_pivots(reals(rows@), col as int, row as int, col + 1);
                }
                rows = clear_row(&rows, col, row);
            }
            row = row + 1;
        }
        m = rows;
        col = col + 1;
    }
    Some((m[3].over(&m[0]), m[7].over(&m[5]), m[11].over(&m[10])))
}

proof fn lemma_none_stays(m: Seq<Real>, n: nat, last: nat)
    requires
        n <= last,
        eliminated(m, n) is None,
    ensures
        eliminated(m, last) is None,
    decreases last,
{
    if n < last {
        lemma_none_stays(m, n, (last - 1) as nat);
    }
}

fn residual_of(
    across: &(Number, Number, Number),
    along: &(Number, Number, Number),
    det: &Number,
    observation: &Observation,
) -> (residual: Number)
    requires
        three_valid(*across),
        three_valid(*along),
        det.is_valid(),
        is_valid(*observation),
        det@ != Real::zero(),
        det@ == map_of(*across, *along).determinant(),
    ensures
        residual.is_valid(),
        residual@ == map_of(*across, *along).residual(pair_of(*observation)),
{
    let ux = observation.1.0.minus(&across.2);
    let uy = observation.1.1.minus(&along.2);
    let x = along.1.times(&ux).minus(&across.1.times(&uy)).over(det);
    let y = along.0.negated().times(&ux).plus(&across.0.times(&uy)).over(det);
    let dx = x.minus(&observation.0.0);
    let dy = y.minus(&observation.0.1);
    proof {
        lemma_squares_are_not_negative(dx@, dy@);
    }
    dx.times(&dx).plus(&dy.times(&dy)).root()
}

spec fn map_of(across: (Number, Number, Number), along: (Number, Number, Number)) -> Fit {
    Fit { across: (across.0@, across.1@, across.2@), along: (along.0@, along.1@, along.2@) }
}

spec fn three_valid(numbers: (Number, Number, Number)) -> bool {
    numbers.0.is_valid() && numbers.1.is_valid() && numbers.2.is_valid()
}

fn worst_residual(
    across: &(Number, Number, Number),
    along: &(Number, Number, Number),
    det: &Number,
    pairs: &[Observation],
) -> (worst: Number)
    requires
        forall|k: int| 0 <= k < pairs@.len() ==> is_valid(#[trigger] pairs@[k]),
        three_valid(*across),
        three_valid(*along),
        det.is_valid(),
        det@ != Real::zero(),
        det@ == map_of(*across, *along).determinant(),
    ensures
        worst.is_valid(),
        worst@ == map_of(*across, *along).worst(pairs_of(pairs@), pairs@.len()),
{
    let ghost map = map_of(*across, *along);
    let mut worst = Number::zero();
    let mut n: usize = 0;
    while n < pairs.len()
        invariant
            n <= pairs@.len(),
            forall|k: int| 0 <= k < pairs@.len() ==> is_valid(#[trigger] pairs@[k]),
            three_valid(*across),
            three_valid(*along),
            det.is_valid(),
            det@ != Real::zero(),
            det@ == map.determinant(),
            map == map_of(*across, *along),
            worst.is_valid(),
            worst@ == map.worst(pairs_of(pairs@), n as nat),
        decreases pairs@.len() - n,
    {
        assert(pairs_of(pairs@)[n as int] == pair_of(pairs@[n as int]));
        let residual = residual_of(across, along, det, &pairs[n]);
        if worst.is_below(&residual) {
            worst = residual;
        }
        n = n + 1;
    }
    worst
}

fn determinant(across: &(Number, Number, Number), along: &(Number, Number, Number)) -> (det: Number)
    requires
        three_valid(*across),
        three_valid(*along),
    ensures
        det.is_valid(),
        det@ == map_of(*across, *along).determinant(),
{
    across.0.times(&along.1).minus(&across.1.times(&along.0))
}

fn coefficients(across: &(Number, Number, Number), along: &(Number, Number, Number)) -> (transform:
    Transform)
    requires
        three_valid(*across),
        three_valid(*along),
    ensures
        transform@ == map_of(*across, *along).model(),
{
    Transform {
        m11: across.0.to_bits(),
        m12: across.1.to_bits(),
        m13: across.2.to_bits(),
        m21: along.0.to_bits(),
        m22: along.1.to_bits(),
        m23: along.2.to_bits(),
    }
}

proof fn lemma_not_tiny(number: Real)
    requires
        !number.size().is_below(tiny()),
    ensures
        number != Real::zero(),
{
    lemma_tiny();
}

/// Least-squares affine fit `device = M * pixel + t`: the map and the worst
/// residual in pixels.
pub fn fit_transform(pairs: &[Observation]) -> (fit: Result<(Transform, Number), String>)
    requires
        forall|k: int| 0 <= k < pairs@.len() ==> is_valid(#[trigger] pairs@[k]),
    ensures
        match fit {
            Ok((transform, residual)) => fitted(pairs_of(pairs@)) matches Ok(map) && transform@
                == map.model() && residual.is_valid() && residual@ == map.worst(
                pairs_of(pairs@),
                pairs@.len(),
            ),
            Err(error) => fitted(pairs_of(pairs@)) == Err::<Fit, Seq<char>>(error@),
        },
{
    if pairs.len() < 3 {
        let mut error = "need at least 3 cursor observations, found ".to_owned();
        push_digits(&mut error, pairs.len() as u128);
        return Err(error);
    }
    let across = match solve3(normal_equations(pairs, false)) {
        Some(across) => across,
        None => {
            return Err("cursor observations are collinear".to_owned());
        },
    };
    let along = match solve3(normal_equations(pairs, true)) {
        Some(along) => along,
        None => {
            return Err("cursor observations are collinear".to_owned());
        },
    };
    let det = determinant(&across, &along);
    if det.size().is_below(&tiny_number()) {
        return Err("fitted transform is degenerate".to_owned());
    }
    proof {
        lemma_not_tiny(det@);
    }
    let residual = worst_residual(&across, &along, &det, pairs);
    Ok((coefficients(&across, &along), residual))
}

/// Whether what a fit leaves is below the limit.
pub fn leaves_little(residual: &Number) -> (answer: bool)
    requires
        residual.is_valid(),
    ensures
        answer == !(residual@ !is NotANumber && !residual@.is_below(
            Real::of_int(DEVIATION_LIMIT_PX as int),
        )),
{
    let limit = Double::from_int(DEVIATION_LIMIT_PX as i128);
    proof {
        lemma_integer_stays(DEVIATION_LIMIT_PX as int);
        lemma_one_is_large();
        limit.lemma_reach();
    }
    match *residual {
        Number::NotANumber => true,
        _ => residual.is_below(&Number::Finite(limit)),
    }
}

/// What was observed, without what all have in common, and where the pointer
/// was sent.
pub open spec fn centered(measured: Measurement, sent: Seq<(u32, u32)>, i: int) -> Pair {
    Pair {
        pixel: (
            settled(closest(measured.observed@[i].0@ - measured.mean.0@, 1)),
            settled(closest(measured.observed@[i].1@ - measured.mean.1@, 1)),
        ),
        device: (Real::of_int(sent[i].0 as int), Real::of_int(sent[i].1 as int)),
    }
}

fn whole(n: u32) -> (number: Number)
    ensures
        number.is_valid(),
        number@ == Real::of_int(n as int),
{
    let double = Double::from_int(n as i128);
    proof {
        lemma_integer_stays(n as int);
        lemma_one_is_large();
        let w = one();
        assert(0 <= n * w < 0x1_0000_0000 * w) by (nonlinear_arith)
            requires
                0 <= n < 0x1_0000_0000,
                w > 0,
        ;
        double.lemma_reach();
    }
    Number::Finite(double)
}

/// The pairs that a fit takes.
pub fn observations(measured: &Measurement, sent: &[(u32, u32)]) -> (pairs: Vec<Observation>)
    requires
        measured.is_sound(),
        measured.observed@.len() == sent@.len(),
    ensures
        forall|k: int| 0 <= k < pairs@.len() ==> is_valid(#[trigger] pairs@[k]),
        pairs_of(pairs@) == Seq::new(sent@.len(), |i: int| centered(*measured, sent@, i)),
{
    let mut pairs: Vec<Observation> = Vec::new();
    let mut i: usize = 0;
    while i < sent.len()
        invariant
            i <= sent@.len(),
            measured.is_sound(),
            measured.observed@.len() == sent@.len(),
            pairs@.len() == i,
            forall|k: int| 0 <= k < i ==> is_valid(#[trigger] pairs@[k]),
            forall|k: int|
                0 <= k < i ==> pair_of(#[trigger] pairs@[k]) == centered(*measured, sent@, k),
        decreases sent@.len() - i,
    {
        let place: (Double, Double) = measured.observed[i];
        assert(place == measured.observed@[i as int]);
        pairs.push(
            (
                (
                    settle(place.0.minus(&measured.mean.0)),
                    settle(place.1.minus(&measured.mean.1)),
                ),
                (whole(sent[i].0), whole(sent[i].1)),
            ),
        );
        i = i + 1;
    }
    assert(pairs_of(pairs@) =~= Seq::new(sent@.len(), |i: int| centered(*measured, sent@, i)));
    pairs
}

impl Pair {
    /// The same with the axes of the device exchanged.
    pub open spec fn turned(self) -> Pair {
        Pair { device: (self.device.1, self.device.0), ..self }
    }
}

pub open spec fn all_turned(pairs: Seq<Pair>) -> Seq<Pair> {
    pairs.map_values(|pair: Pair| pair.turned())
}

proof fn lemma_sums_turn(pairs: Seq<Pair>, i: int, j: int, along: bool, n: nat)
    requires
        n <= pairs.len(),
    ensures
        summed(all_turned(pairs), i, j, along, n) == summed(pairs, i, j, !along, n),
    decreases n,
{
    if n > 0 {
        lemma_sums_turn(pairs, i, j, along, (n - 1) as nat);
        assert(all_turned(pairs)[n - 1] == pairs[n - 1].turned());
    }
}

/// Both axes of the device are fitted alike: with the axes exchanged, the fit
/// is the same with its two rows exchanged.
pub proof fn lemma_axes_are_fitted_alike(pairs: Seq<Pair>)
    ensures
        fitted(pairs) matches Ok(fit) ==> fitted(all_turned(pairs)) matches Ok(turned)
            ==> turned.across == fit.along && turned.along == fit.across,
{
    assert(equations(all_turned(pairs), false) =~= equations(pairs, true)) by {
        assert forall|k: int| 0 <= k < 12 implies #[trigger] equations(all_turned(pairs), false)[k]
            == equations(pairs, true)[k] by {
            lemma_sums_turn(pairs, k / 4, k % 4, false, pairs.len());
        }
    }
    assert(equations(all_turned(pairs), true) =~= equations(pairs, false)) by {
        assert forall|k: int| 0 <= k < 12 implies #[trigger] equations(all_turned(pairs), true)[k]
            == equations(pairs, false)[k] by {
            lemma_sums_turn(pairs, k / 4, k % 4, true, pairs.len());
        }
    }
}

/// What a fit is said to leave is not below what it leaves of any pair, and it
/// is nothing or what it leaves of one of them.
pub proof fn lemma_worst_residual_is_the_largest(fit: Fit, pairs: Seq<Pair>, n: nat)
    requires
        n <= pairs.len(),
    ensures
        forall|i: int|
            0 <= i < n ==> !fit.worst(pairs, n).is_below(fit.residual(#[trigger] pairs[i])),
        fit.worst(pairs, n) == Real::zero() || exists|i: int|
            0 <= i < n && fit.worst(pairs, n) == fit.residual(#[trigger] pairs[i]),
        fit.worst(pairs, n) !is NotANumber,
    decreases n,
{
    if n > 0 {
        lemma_worst_residual_is_the_largest(fit, pairs, (n - 1) as nat);
        let before = fit.worst(pairs, (n - 1) as nat);
        let last = fit.residual(pairs[n - 1]);
        if !before.is_below(last) && before != Real::zero() {
            let i = choose|i: int| 0 <= i < n - 1 && before == fit.residual(#[trigger] pairs[i]);
            assert(fit.worst(pairs, n) == fit.residual(pairs[i]));
        }
        assert forall|i: int| 0 <= i < n implies !fit.worst(pairs, n).is_below(
            fit.residual(#[trigger] pairs[i]),
        ) by {
            if i < n - 1 {
                assert(!before.is_below(fit.residual(pairs[i])));
            }
        }
    }
}

/// A pair of integers: a pixel and where the device was.
pub struct WholePair {
    pub pixel: (int, int),
    pub device: (int, int),
}

impl WholePair {
    pub open spec fn pair(self) -> Pair {
        Pair {
            pixel: (Real::of_int(self.pixel.0), Real::of_int(self.pixel.1)),
            device: (Real::of_int(self.device.0), Real::of_int(self.device.1)),
        }
    }

    spec fn term(self, i: int) -> int {
        if i == 0 {
            self.pixel.0
        } else if i == 1 {
            self.pixel.1
        } else {
            1
        }
    }

    spec fn factor(self, j: int, along: bool) -> int {
        if j < 3 {
            self.term(j)
        } else if along {
            self.device.1
        } else {
            self.device.0
        }
    }

    spec fn is_small(self) -> bool {
        &&& -0x400 <= self.pixel.0 <= 0x400
        &&& -0x400 <= self.pixel.1 <= 0x400
        &&& -0x100_0000 <= self.device.0 <= 0x100_0000
        &&& -0x100_0000 <= self.device.1 <= 0x100_0000
    }
}

pub open spec fn whole_pairs(pairs: Seq<WholePair>) -> Seq<Pair> {
    pairs.map_values(|pair: WholePair| pair.pair())
}

spec fn whole_sum(pairs: Seq<WholePair>, i: int, j: int, along: bool, n: nat) -> int
    decreases n,
{
    if n == 0 {
        0
    } else {
        whole_sum(pairs, i, j, along, (n - 1) as nat) + pairs[n - 1].term(i) * pairs[n - 1].factor(
            j,
            along,
        )
    }
}

proof fn lemma_whole_sums(pairs: Seq<WholePair>, i: int, j: int, along: bool, n: nat)
    requires
        n <= pairs.len() <= 4,
        forall|k: int| 0 <= k < pairs.len() ==> (#[trigger] pairs[k]).is_small(),
    ensures
        summed(whole_pairs(pairs), i, j, along, n) == Real::of_int(
            whole_sum(pairs, i, j, along, n),
        ),
        -0x4_0000_0000 * n <= whole_sum(pairs, i, j, along, n) <= 0x4_0000_0000 * n,
    decreases n,
{
    if n == 0 {
        assert(0 * one() == 0);
    } else {
        lemma_whole_sums(pairs, i, j, along, (n - 1) as nat);
        let pair = pairs[n - 1];
        assert(pair.is_small());
        assert(whole_pairs(pairs)[n - 1] == pair.pair());
        let (a, b) = (pair.term(i), pair.factor(j, along));
        assert(-0x4_0000_0000 <= a * b <= 0x4_0000_0000) by (nonlinear_arith)
            requires
                -0x400 <= a <= 0x400,
                -0x100_0000 <= b <= 0x100_0000,
        ;
        lemma_integer_arithmetic(a, b);
        lemma_integer_arithmetic(
            whole_sum(pairs, i, j, along, (n - 1) as nat),
            a * b,
        );
    }
}

/// Three equations of one unknown each.
spec fn diagonal(a: int, b: int, c: int, p: int, q: int, r: int) -> Seq<Real> {
    seq![
        Real::of_int(a),
        Real::of_int(0),
        Real::of_int(0),
        Real::of_int(p),
        Real::of_int(0),
        Real::of_int(b),
        Real::of_int(0),
        Real::of_int(q),
        Real::of_int(0),
        Real::of_int(0),
        Real::of_int(c),
        Real::of_int(r),
    ]
}

spec fn is_moderate(n: int) -> bool {
    -0x10_0000_0000_0000 <= n <= 0x10_0000_0000_0000
}

/// Whole entries of which that of the column is zero stay as they are.
proof fn lemma_zero_clears_nothing(m: Seq<Real>, col: int, row: int, a: int)
    requires
        m.len() == 12,
        0 <= col < 3,
        0 <= row < 3,
        row != col,
        a != 0,
        is_moderate(a),
        m[col * 4 + col] == Real::of_int(a),
        m[row * 4 + col] == Real::of_int(0),
        forall|k: int|
            0 <= k < 12 ==> exists|n: int| is_moderate(n) && #[trigger] m[k] == Real::of_int(n),
    ensures
        cleared(m, col, row) == m,
{
    lemma_integer_arithmetic(0, a);
    assert(0 * a == 0);
    let factor = m[row * 4 + col].over(m[col * 4 + col]);
    assert(factor == Real::of_int(0));
    assert forall|k: int| 0 <= k < 12 implies #[trigger] cleared(m, col, row)[k] == m[k] by {
        let other = col * 4 + k % 4;
        let n = choose|n: int| is_moderate(n) && #[trigger] m[k] == Real::of_int(n);
        assert(exists|n: int| is_moderate(n) && #[trigger] m[other] == Real::of_int(n));
        let v = choose|v: int| is_moderate(v) && #[trigger] m[other] == Real::of_int(v);
        lemma_integer_arithmetic(0, v);
        lemma_integer_arithmetic(n, 0);
        assert(0 * v == 0);
    }
    assert(cleared(m, col, row) =~= m);
}

proof fn lemma_diagonal_is_solved(a: int, b: int, c: int, p: int, q: int, r: int)
    requires
        0 < a <= 0x10_0000_0000_0000,
        0 < b <= 0x10_0000_0000_0000,
        0 < c <= 0x10_0000_0000_0000,
        is_moderate(p),
        is_moderate(q),
        is_moderate(r),
    ensures
        solution(diagonal(a, b, c, p, q, r)) == Some(
            (
                Real::of_int(p).over(Real::of_int(a)),
                Real::of_int(q).over(Real::of_int(b)),
                Real::of_int(r).over(Real::of_int(c)),
            ),
        ),
{
    let m = diagonal(a, b, c, p, q, r);
    assert forall|k: int| 0 <= k < 12 implies exists|n: int|
        is_moderate(n) && #[trigger] m[k] == Real::of_int(n) by {
        let n = if k == 0 {
            a
        } else if k == 3 {
            p
        } else if k == 5 {
            b
        } else if k == 7 {
            q
        } else if k == 10 {
            c
        } else if k == 11 {
            r
        } else {
            0
        };
        assert(is_moderate(n) && m[k] == Real::of_int(n));
    }
    lemma_column_is_cleared(m, 0, a);
    lemma_column_is_cleared(m, 1, b);
    lemma_column_is_cleared(m, 2, c);
    reveal_with_fuel(eliminated, 4);
}

proof fn lemma_column_is_cleared(m: Seq<Real>, col: int, a: int)
    requires
        m.len() == 12,
        0 <= col < 3,
        0 < a <= 0x10_0000_0000_0000,
        m[col * 4 + col] == Real::of_int(a),
        forall|row: int| 0 <= row < 3 && row != col ==> #[trigger] m[row * 4 + col] == Real::of_int(
            0,
        ),
        forall|k: int|
            0 <= k < 12 ==> exists|n: int| is_moderate(n) && #[trigger] m[k] == Real::of_int(n),
    ensures
        pivot(m, col, 2) == col,
        !m[col * 4 + col].size().is_below(tiny()),
        swapped(m, col, col) == m,
        all_cleared(m, col, 3) == m,
{
    lemma_tiny();
    lemma_integer_arithmetic(0, a);
    lemma_integer_arithmetic(a, 0);
    lemma_one_is_large();
    let w = one();
    assert(a * w >= w) by (nonlinear_arith)
        requires
            a >= 1,
            w > 0,
    ;
    assert(0 * w == 0);
    reveal_with_fuel(pivot, 4);
    assert(m[1 * 4 + col] == Real::of_int(if col == 1 { a } else { 0 }));
    assert(m[2 * 4 + col] == Real::of_int(if col == 2 { a } else { 0 }));
    assert(m[0 * 4 + col] == Real::of_int(if col == 0 { a } else { 0 }));
    assert(swapped(m, col, col) =~= m);
    reveal_with_fuel(all_cleared, 4);
    if col != 0 {
        lemma_zero_clears_nothing(m, col, 0, a);
    }
    if col != 1 {
        lemma_zero_clears_nothing(m, col, 1, a);
    }
    if col != 2 {
        lemma_zero_clears_nothing(m, col, 2, a);
    }
}

/// The integer affine map with these rows.
pub struct WholeMap {
    pub across: (int, int, int),
    pub along: (int, int, int),
}

impl WholeMap {
    /// Where the map takes a pixel.
    pub open spec fn pair(self, x: int, y: int) -> WholePair {
        WholePair {
            pixel: (x, y),
            device: (
                self.across.0 * x + self.across.1 * y + self.across.2,
                self.along.0 * x + self.along.1 * y + self.along.2,
            ),
        }
    }

    /// The corners of a rectangle around the origin, and where the map takes
    /// them.
    pub open spec fn corners(self, d: int, e: int) -> Seq<WholePair> {
        seq![self.pair(-d, -e), self.pair(d, -e), self.pair(-d, e), self.pair(d, e)]
    }

    pub open spec fn determinant(self) -> int {
        self.across.0 * self.along.1 - self.across.1 * self.along.0
    }

    pub open spec fn is_small(self) -> bool {
        &&& -0x400 <= self.across.0 <= 0x400
        &&& -0x400 <= self.across.1 <= 0x400
        &&& -0x400 <= self.across.2 <= 0x400
        &&& -0x400 <= self.along.0 <= 0x400
        &&& -0x400 <= self.along.1 <= 0x400
        &&& -0x400 <= self.along.2 <= 0x400
    }

    pub open spec fn fit(self) -> Fit {
        Fit {
            across: (
                Real::of_int(self.across.0),
                Real::of_int(self.across.1),
                Real::of_int(self.across.2),
            ),
            along: (
                Real::of_int(self.along.0),
                Real::of_int(self.along.1),
                Real::of_int(self.along.2),
            ),
        }
    }
}

proof fn lemma_value_is_small(a: int, b: int, c: int, x: int, y: int)
    requires
        -0x400 <= a <= 0x400,
        -0x400 <= b <= 0x400,
        -0x400 <= c <= 0x400,
        -0x400 <= x <= 0x400,
        -0x400 <= y <= 0x400,
    ensures
        -0x100_0000 <= a * x + b * y + c <= 0x100_0000,
{
    assert(-0x10_0000 <= a * x <= 0x10_0000) by (nonlinear_arith)
        requires
            -0x400 <= a <= 0x400,
            -0x400 <= x <= 0x400,
    ;
    assert(-0x10_0000 <= b * y <= 0x10_0000) by (nonlinear_arith)
        requires
            -0x400 <= b <= 0x400,
            -0x400 <= y <= 0x400,
    ;
}

proof fn lemma_corners_give_one_row(map: WholeMap, d: int, e: int, along: bool)
    requires
        map.is_small(),
        0 < d <= 0x400,
        0 < e <= 0x400,
    ensures
        ({
            let row = if along { map.along } else { map.across };
            solution(equations(whole_pairs(map.corners(d, e)), along)) == Some(
                (Real::of_int(row.0), Real::of_int(row.1), Real::of_int(row.2)),
            )
        }),
{
    let (a, b, c) = if along { map.along } else { map.across };
    let pairs = map.corners(d, e);
    assert forall|k: int| 0 <= k < pairs.len() implies (#[trigger] pairs[k]).is_small() by {
        let (x, y) = pairs[k].pixel;
        lemma_value_is_small(map.across.0, map.across.1, map.across.2, x, y);
        lemma_value_is_small(map.along.0, map.along.1, map.along.2, x, y);
    }
    let (dd, ee) = (4 * (d * d), 4 * (e * e));
    let (p, q, r) = (a * dd, b * ee, c * 4);
    let m = equations(whole_pairs(pairs), along);
    assert forall|k: int| 0 <= k < 12 implies #[trigger] m[k] == diagonal(
        dd,
        ee,
        4,
        p,
        q,
        r,
    )[k] by {
        lemma_whole_sums(pairs, k / 4, k % 4, along, 4);
        lemma_corner_sums(map, d, e, k / 4, k % 4, along);
    }
    assert(m =~= diagonal(dd, ee, 4, p, q, r));
    assert(0 < d * d <= 0x10_0000 && 0 < e * e <= 0x10_0000) by (nonlinear_arith)
        requires
            0 < d <= 0x400,
            0 < e <= 0x400,
    ;
    assert(-0x1_0000_0000 <= p <= 0x1_0000_0000) by (nonlinear_arith)
        requires
            p == a * dd,
            -0x400 <= a <= 0x400,
            0 < dd <= 0x40_0000,
    ;
    assert(-0x1_0000_0000 <= q <= 0x1_0000_0000) by (nonlinear_arith)
        requires
            q == b * ee,
            -0x400 <= b <= 0x400,
            0 < ee <= 0x40_0000,
    ;
    lemma_diagonal_is_solved(dd, ee, 4, p, q, r);
    lemma_integer_arithmetic(a, dd);
    lemma_integer_arithmetic(b, ee);
    lemma_integer_arithmetic(c, 4);
}

proof fn lemma_corner_sums(map: WholeMap, d: int, e: int, i: int, j: int, along: bool)
    requires
        0 <= i < 3,
        0 <= j < 4,
    ensures
        ({
            let row = if along { map.along } else { map.across };
            let sum = whole_sum(map.corners(d, e), i, j, along, 4);
            &&& i == j && i == 0 ==> sum == 4 * (d * d)
            &&& i == j && i == 1 ==> sum == 4 * (e * e)
            &&& i == j && i == 2 ==> sum == 4
            &&& i != j && j < 3 ==> sum == 0
            &&& i == 0 && j == 3 ==> sum == row.0 * (4 * (d * d))
            &&& i == 1 && j == 3 ==> sum == row.1 * (4 * (e * e))
            &&& i == 2 && j == 3 ==> sum == row.2 * 4
        }),
{
    let pairs = map.corners(d, e);
    let (a, b, c) = if along { map.along } else { map.across };
    reveal_with_fuel(whole_sum, 5);
    let sum = whole_sum(pairs, i, j, along, 4);
    let f = |k: int| pairs[k].term(i) * pairs[k].factor(j, along);
    assert(sum == f(0) + f(1) + f(2) + f(3));
    let (v0, v1, v2, v3) = (
        a * (-d) + b * (-e) + c,
        a * d + b * (-e) + c,
        a * (-d) + b * e + c,
        a * d + b * e + c,
    );
    if j < 3 {
        assert((-d) * (-d) == d * d && (-e) * (-e) == e * e && (-d) * (-e) == d * e && d * (-e)
            == -(d * e) && (-d) * e == -(d * e) && (-e) * (-d) == d * e && (-e) * d == -(d * e) && e
            * (-d) == -(d * e) && e * d == d * e) by (nonlinear_arith);
    } else {
        assert(pairs[0].factor(j, along) == v0 && pairs[1].factor(j, along) == v1);
        assert(pairs[2].factor(j, along) == v2 && pairs[3].factor(j, along) == v3);
        assert(a * (-d) == -(a * d) && b * (-e) == -(b * e)) by (nonlinear_arith);
        if i == 0 {
            assert(sum == (-d) * v0 + d * v1 + (-d) * v2 + d * v3);
            assert((-d) * v0 + d * v1 + (-d) * v2 + d * v3 == d * ((v1 - v0) + (v3 - v2)))
                by (nonlinear_arith);
            assert((v1 - v0) + (v3 - v2) == 4 * (a * d));
            assert(d * (4 * (a * d)) == a * (4 * (d * d))) by (nonlinear_arith);
        } else if i == 1 {
            assert(sum == (-e) * v0 + (-e) * v1 + e * v2 + e * v3);
            assert((-e) * v0 + (-e) * v1 + e * v2 + e * v3 == e * ((v2 - v0) + (v3 - v1)))
                by (nonlinear_arith);
            assert((v2 - v0) + (v3 - v1) == 4 * (b * e));
            assert(e * (4 * (b * e)) == b * (4 * (e * e))) by (nonlinear_arith);
        } else {
            assert(sum == v0 + v1 + v2 + v3);
        }
    }
}

proof fn lemma_exact_map_leaves_nothing(map: WholeMap, x: int, y: int)
    requires
        map.is_small(),
        map.determinant() != 0,
        -0x400 <= x <= 0x400,
        -0x400 <= y <= 0x400,
    ensures
        map.fit().residual(map.pair(x, y).pair()) == Real::zero(),
        map.fit().determinant() == Real::of_int(map.determinant()),
        -0x20_0000 <= map.determinant() <= 0x20_0000,
{
    let (a, b, c) = map.across;
    let (p, q, r) = map.along;
    let (u, v) = map.pair(x, y).device;
    lemma_value_is_small(a, b, c, x, y);
    lemma_value_is_small(p, q, r, x, y);
    let (ux, uy) = (u - c, v - r);
    let det = map.determinant();
    assert(-0x10_0000 <= a * q <= 0x10_0000) by (nonlinear_arith)
        requires
            -0x400 <= a <= 0x400,
            -0x400 <= q <= 0x400,
    ;
    assert(-0x10_0000 <= b * p <= 0x10_0000) by (nonlinear_arith)
        requires
            -0x400 <= b <= 0x400,
            -0x400 <= p <= 0x400,
    ;
    lemma_integer_arithmetic(a, q);
    lemma_integer_arithmetic(b, p);
    lemma_integer_arithmetic(a * q, b * p);
    lemma_integer_arithmetic(u, c);
    lemma_integer_arithmetic(v, r);
    lemma_small_product(q, ux);
    lemma_small_product(b, uy);
    lemma_small_product(-p, ux);
    lemma_small_product(a, uy);
    lemma_integer_arithmetic(p, 0);
    lemma_integer_arithmetic(q * ux, b * uy);
    lemma_integer_arithmetic((-p) * ux, a * uy);
    let (ax, by, px, qy) = (a * x, b * y, p * x, q * y);
    assert(q * ux == q * ax + q * by && b * uy == b * px + b * qy && (-p) * ux == -(p * ax) - p * by
        && a * uy == a * px + a * qy) by (nonlinear_arith)
        requires
            ux == ax + by,
            uy == px + qy,
    ;
    assert(q * ax == x * (a * q) && b * px == x * (b * p) && q * by == b * qy) by (nonlinear_arith)
        requires
            ax == a * x,
            by == b * y,
            px == p * x,
            qy == q * y,
    ;
    assert(p * by == y * (b * p) && a * qy == y * (a * q) && p * ax == a * px) by (nonlinear_arith)
        requires
            ax == a * x,
            by == b * y,
            px == p * x,
            qy == q * y,
    ;
    assert(x * det == x * (a * q) - x * (b * p) && y * det == y * (a * q) - y * (b * p))
        by (nonlinear_arith)
        requires
            det == a * q - b * p,
    ;
    lemma_integer_arithmetic(x, det);
    lemma_integer_arithmetic(y, det);
    lemma_integer_arithmetic(x, x);
    lemma_integer_arithmetic(y, y);
    lemma_integer_arithmetic(0, 0);
    lemma_root_of_square(0);
    lemma_one_is_large();
    assert(0 * 0 == 0 && 0 * one() == 0 && 0 * 0 * one() == 0);
    assert(Real::of_int(0) == Real::zero());
    assert(Real::zero().root() == Real::zero());
}

proof fn lemma_small_product(a: int, u: int)
    requires
        -0x400 <= a <= 0x400,
        -0x200_0000 <= u <= 0x200_0000,
    ensures
        Real::of_int(a).times(Real::of_int(u)) == Real::of_int(a * u),
        -0x8_0000_0000 <= a * u <= 0x8_0000_0000,
{
    assert(-0x8_0000_0000 <= a * u <= 0x8_0000_0000) by (nonlinear_arith)
        requires
            -0x400 <= a <= 0x400,
            -0x200_0000 <= u <= 0x200_0000,
    ;
    lemma_integer_arithmetic(a, u);
}

/// A fit finds the map that took the pixels to where the device was, and leaves
/// nothing: for every small integer map that is not degenerate, from the
/// corners of any small rectangle around the origin.
pub proof fn lemma_fit_finds_the_map(map: WholeMap, d: int, e: int)
    requires
        map.is_small(),
        map.determinant() != 0,
        0 < d <= 0x400,
        0 < e <= 0x400,
    ensures
        ({
            let pairs = whole_pairs(map.corners(d, e));
            fitted(pairs) == Ok::<Fit, Seq<char>>(map.fit()) && map.fit().worst(pairs, pairs.len())
                == Real::zero()
        }),
{
    let pairs = whole_pairs(map.corners(d, e));
    lemma_corners_give_one_row(map, d, e, false);
    lemma_corners_give_one_row(map, d, e, true);
    lemma_exact_map_leaves_nothing(map, -d, -e);
    lemma_exact_map_leaves_nothing(map, d, -e);
    lemma_exact_map_leaves_nothing(map, -d, e);
    lemma_exact_map_leaves_nothing(map, d, e);
    lemma_tiny();
    lemma_one_is_large();
    let (w, det) = (one(), map.determinant());
    assert(det * w >= w || det * w <= -w) by (nonlinear_arith)
        requires
            det != 0,
            w > 0,
    ;
    reveal_with_fuel(Fit::worst, 5);
    assert(pairs[0] == map.pair(-d, -e).pair());
    assert(pairs[1] == map.pair(d, -e).pair());
    assert(pairs[2] == map.pair(-d, e).pair());
    assert(pairs[3] == map.pair(d, e).pair());
}

/// What a fit takes of a sighting: where the pointer was sent, as it was, and
/// where it showed up less what all sightings have in common, rounded once.
pub proof fn lemma_what_is_fitted(measured: Measurement, sent: Seq<(u32, u32)>, i: int)
    requires
        0 <= i < sent.len(),
        ({
            let x = measured.observed@[i].0@ - measured.mean.0@;
            let y = measured.observed@[i].1@ - measured.mean.1@;
            -0x1_0000_0000 * one() <= x <= 0x1_0000_0000 * one() && -0x1_0000_0000 * one() <= y
                <= 0x1_0000_0000 * one()
        }),
    ensures
        ({
            let pair = centered(measured, sent, i);
            let x = measured.observed@[i].0@ - measured.mean.0@;
            let y = measured.observed@[i].1@ - measured.mean.1@;
            &&& pair.device.0 == Real::of_int(sent[i].0 as int)
            &&& pair.device.1 == Real::of_int(sent[i].1 as int)
            &&& pair.pixel.0 matches Real::Finite(value) && -one() <= (value - x) * 0x1000 <= one()
            &&& pair.pixel.1 matches Real::Finite(value) && -one() <= (value - y) * 0x1000 <= one()
        }),
{
    lemma_one_is_large();
    lemma_rounds_to_a_number(measured.observed@[i].0@ - measured.mean.0@);
    lemma_rounds_to_a_number(measured.observed@[i].1@ - measured.mean.1@);
}

proof fn lemma_rounds_to_a_number(x: int)
    requires
        -0x1_0000_0000 * one() <= x <= 0x1_0000_0000 * one(),
    ensures
        settled(closest(x, 1)) matches Real::Finite(value) && -one() <= (value - x) * 0x1000
            <= one(),
{
    lemma_one_is_large();
    let w = one();
    lemma_closest_error(x, 1, 0x1_0000_0000 * w);
    assert(-0x1_0000_0000 * w * 1 <= x <= 0x1_0000_0000 * w * 1);
    lemma_closest_is_within(x, 1, -0x1_0000_0000, 0x1_0000_0000);
    lemma_integer_arithmetic(0x1_0000_0000, 0);
    assert(0x1_0000_0000 * w < pow2(2098));
}

/// A residual is the distance in pixels: where a map scales by `a`, a device
/// that is off by `a` times some pixels leaves as many.
pub proof fn lemma_residuals_are_in_pixels(a: int, pixel: (int, int), off: (int, int))
    requires
        0 < a <= 0x400,
        -0x400 <= pixel.0 <= 0x400,
        -0x400 <= pixel.1 <= 0x400,
        -0x400 <= off.0 <= 0x400,
        -0x400 <= off.1 <= 0x400,
    ensures
        ({
            let map = WholeMap { across: (a, 0, 0), along: (0, a, 0) };
            let seen = WholePair {
                pixel,
                device: (a * (pixel.0 + off.0), a * (pixel.1 + off.1)),
            };
            map.fit().residual(seen.pair()) == Real::of_int(
                off.0 * off.0 + off.1 * off.1,
            ).root()
        }),
{
    let map = WholeMap { across: (a, 0, 0), along: (0, a, 0) };
    let fit = map.fit();
    let (px, py) = (pixel.0 + off.0, pixel.1 + off.1);
    let (u, v) = (a * px, a * py);
    assert(-0x20_0000 <= u <= 0x20_0000) by (nonlinear_arith)
        requires
            u == a * px,
            0 < a <= 0x400,
            -0x800 <= px <= 0x800,
    ;
    assert(-0x20_0000 <= v <= 0x20_0000) by (nonlinear_arith)
        requires
            v == a * py,
            0 < a <= 0x400,
            -0x800 <= py <= 0x800,
    ;
    let det = a * a;
    assert(0 < det <= 0x10_0000) by (nonlinear_arith)
        requires
            det == a * a,
            0 < a <= 0x400,
    ;
    lemma_integer_arithmetic(a, a);
    lemma_integer_arithmetic(0, 0);
    assert(0 * 0 == 0);
    lemma_integer_arithmetic(det, 0);
    assert(fit.determinant() == Real::of_int(det));
    lemma_integer_arithmetic(u, 0);
    lemma_integer_arithmetic(v, 0);
    lemma_small_product(a, u);
    lemma_small_product(a, v);
    lemma_small_product(0, u);
    lemma_small_product(0, v);
    assert(0 * u == 0 && 0 * v == 0);
    assert(a * u == px * det && a * v == py * det) by (nonlinear_arith)
        requires
            u == a * px,
            v == a * py,
            det == a * a,
    ;
    lemma_integer_arithmetic(a * u, 0);
    lemma_integer_arithmetic(0, a * v);
    lemma_integer_arithmetic(px, det);
    lemma_integer_arithmetic(py, det);
    lemma_integer_arithmetic(px, pixel.0);
    lemma_integer_arithmetic(py, pixel.1);
    let (dx, dy) = off;
    assert(0 <= dx * dx <= 0x10_0000 && 0 <= dy * dy <= 0x10_0000) by (nonlinear_arith)
        requires
            -0x400 <= dx <= 0x400,
            -0x400 <= dy <= 0x400,
    ;
    lemma_integer_arithmetic(dx, dx);
    lemma_integer_arithmetic(dy, dy);
    lemma_integer_arithmetic(dx * dx, dy * dy);
}

} // verus!
