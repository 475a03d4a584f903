//! A polyline of screenshot pixels, taken in short steps.

use vstd::arithmetic::div_mod::{lemma_fundamental_div_mod, lemma_fundamental_div_mod_converse};
use vstd::prelude::*;

use crate::double::rounding::{
    ceiling, closest, distance, lemma_closest_equal, lemma_closest_error,
    lemma_closest_is_a_double, lemma_closest_is_monotone, lemma_closest_is_within,
    lemma_distance_along_an_axis, lemma_distance_has_no_sign, lemma_distance_is_monotone,
    lemma_double_stays, lemma_integer_stays, lemma_one_is_large, lemma_root_is_monotone,
    lemma_root_of_square, lemma_rounding_is_closest, lemma_rounding_is_monotone, near_root, one,
    rounded, within,
};
use crate::double::Double;

verus! {

/// The length of a step: `step_px`, but at least one pixel.
pub open spec fn step_length(step_px: u32) -> int {
    if step_px == 0 {
        1
    } else {
        step_px as int
    }
}

/// Along one axis, how far a straight line goes, as a double.
pub open spec fn run(from: i64, to: i64) -> int {
    closest((to - from) * one(), 1)
}

/// The pieces of at most a step that a straight line is cut into.
pub open spec fn piece_count(from: (i64, i64), to: (i64, i64), step_px: u32) -> int {
    let length = distance(run(from.0, to.0), run(from.1, to.1));
    within(ceiling(closest(length, step_length(step_px)), one()), 1, u32::MAX as int)
}

/// Along one axis, the pixel closest to the end of a piece, computed with
/// doubles.
pub open spec fn stop(from: i64, to: i64, count: int, index: int) -> i64 {
    let part = closest(index * one(), count);
    let place = closest(
        closest(from * one(), 1) + closest(run(from, to) * part, one()),
        1,
    );
    within(rounded(place, one()), i64::MIN as int, i64::MAX as int) as i64
}

/// The end of a piece.
pub open spec fn piece_end(from: (i64, i64), to: (i64, i64), count: int, index: int) -> (i64, i64) {
    (stop(from.0, to.0, count, index), stop(from.1, to.1, count, index))
}

/// The ends of the pieces of one straight line.
pub open spec fn line_stops(from: (i64, i64), to: (i64, i64), step_px: u32) -> Seq<(i64, i64)> {
    let count = piece_count(from, to, step_px);
    Seq::new(count as nat, |i: int| piece_end(from, to, count, i + 1))
}

/// The first point of a polyline and the ends of the pieces of its lines.
pub open spec fn stops(points: Seq<(i64, i64)>, step_px: u32) -> Seq<(i64, i64)>
    decreases points.len(),
{
    if points.len() <= 1 {
        points
    } else {
        stops(points.drop_last(), step_px) + line_stops(
            points[points.len() - 2],
            points.last(),
            step_px,
        )
    }
}

/// Two pixels are at most `step` pixels apart, in a straight line.
pub open spec fn are_close(a: (i64, i64), b: (i64, i64), step: int) -> bool {
    (b.0 - a.0) * (b.0 - a.0) + (b.1 - a.1) * (b.1 - a.1) <= step * step
}

/// The way along one axis in steps: every position after the first, to the
/// last.
pub open spec fn walk(from: i64, to: i64, step: int) -> Seq<i64>
    decreases
            if to >= from {
                to - from
            } else {
                from - to
            },
{
    if from == to || step <= 0 {
        Seq::empty()
    } else if -step <= to - from <= step {
        seq![to]
    } else {
        let next = (if to > from {
            from + step
        } else {
            from - step
        }) as i64;
        seq![next] + walk(next, to, step)
    }
}

/// The way from one pixel to another, without the first: straight where they
/// are close, else first along the row and then along the column.
pub open spec fn link(a: (i64, i64), b: (i64, i64), step: int) -> Seq<(i64, i64)> {
    if are_close(a, b, step) {
        seq![b]
    } else {
        walk(a.0, b.0, step).map_values(|x: i64| (x, a.1)) + walk(a.1, b.1, step).map_values(
            |y: i64| (b.0, y),
        )
    }
}

/// The way from stop to stop. Rounding can leave two further apart than a
/// step; they are linked then.
pub open spec fn linked(stops: Seq<(i64, i64)>, step: int) -> Seq<(i64, i64)>
    decreases stops.len(),
{
    if stops.len() <= 1 {
        stops
    } else {
        linked(stops.drop_last(), step) + link(stops[stops.len() - 2], stops.last(), step)
    }
}

/// The way along a polyline.
pub open spec fn path_points(points: Seq<(i64, i64)>, step_px: u32) -> Seq<(i64, i64)> {
    linked(stops(points, step_px), step_length(step_px))
}

fn gap(a: i64, b: i64) -> (size: u128)
    ensures
        size * size == (b - a) * (b - a),
        size <= u64::MAX,
        size == if b >= a { b - a } else { a - b },
{
    proof {
        assert((b - a) * (b - a) == (a - b) * (a - b)) by (nonlinear_arith);
    }
    if b >= a {
        (b as i128 - a as i128) as u128
    } else {
        (a as i128 - b as i128) as u128
    }
}

fn run_of(from: i64, to: i64) -> (run: Double)
    ensures
        run.is_valid(),
        run@ == self::run(from, to),
        run.reach() <= 1200,
{
    Double::from_int(to as i128 - from as i128)
}

fn count_pieces(from: (i64, i64), to: (i64, i64), step: u32) -> (count: u32)
    requires
        step > 0,
    ensures
        count >= 1,
        forall|step_px: u32|
            step_length(step_px) == step ==> count == #[trigger] piece_count(from, to, step_px),
{
    let length = Double::length(&run_of(from.0, to.0), &run_of(from.1, to.1));
    let pieces = length.over_int(step);
    proof {
        lemma_closest_is_monotone(0, 1, length@, step as int);
    }
    let count: u32 = pieces.ceil();
    if count == 0 {
        1
    } else {
        count
    }
}

fn stop_at(from: i64, to: i64, count: u32, index: u32) -> (place: i64)
    requires
        count > 0,
    ensures
        place == stop(from, to, count as int, index as int),
{
    let part = Double::ratio(index, count);
    let start = Double::from_int(from as i128);
    start.plus(&run_of(from, to).times(&part)).round()
}

proof fn lemma_rounded_of_multiple(a: int, unit: int)
    requires
        unit > 0,
    ensures
        rounded(a * unit, unit) == a,
{
    let size = if a >= 0 {
        a
    } else {
        -a
    };
    assert(a * unit >= 0 <==> a >= 0) by (nonlinear_arith)
        requires
            unit > 0,
    ;
    assert(size * unit == if a >= 0 {
        a * unit
    } else {
        -(a * unit)
    }) by (nonlinear_arith)
        requires
            size == if a >= 0 { a } else { -a },
    ;
    assert(2 * (size * unit) + unit == size * (2 * unit) + unit) by (nonlinear_arith);
    lemma_fundamental_div_mod_converse(2 * (size * unit) + unit, 2 * unit, size, unit);
}

/// The positions of a way along one axis.
fn walk_positions(from: i64, to: i64, step: u32) -> (positions: Vec<i64>)
    requires
        step > 0,
    ensures
        positions@ == walk(from, to, step as int),
{
    let mut positions: Vec<i64> = Vec::new();
    let mut at: i64 = from;
    assert(positions@ + walk(at, to, step as int) =~= walk(from, to, step as int));
    while gap(at, to) > step as u128
        invariant
            step > 0,
            positions@ + walk(at, to, step as int) == walk(from, to, step as int),
        decreases
                if to >= at {
                    to - at
                } else {
                    at - to
                },
    {
        let ghost before = positions@;
        let ghost earlier = at;
        at = if to > at {
            at + step as i64
        } else {
            at - step as i64
        };
        positions.push(at);
        assert(walk(earlier, to, step as int) == seq![at] + walk(at, to, step as int));
        assert(positions@ + walk(at, to, step as int) =~= before + (seq![at] + walk(
            at,
            to,
            step as int,
        )));
    }
    let ghost before = positions@;
    if at != to {
        positions.push(to);
        assert(positions@ =~= before + seq![to]);
    } else {
        assert(positions@ =~= before + Seq::<i64>::empty());
    }
    positions
}

fn close(a: (i64, i64), b: (i64, i64), step: u32) -> (answer: bool)
    ensures
        answer == are_close(a, b, step as int),
{
    let width: u128 = gap(a.0, b.0);
    let height: u128 = gap(a.1, b.1);
    let reach: u128 = step as u128;
    let ghost (w, h, r) = (width as int, height as int, reach as int);
    assert(w > r || h > r ==> w * w + h * h > r * r) by (nonlinear_arith)
        requires
            w >= 0,
            h >= 0,
            r >= 0,
    ;
    if width > reach || height > reach {
        return false;
    }
    assert(w * w <= r * r && h * h <= r * r && r * r <= 0xffff_fffe_0000_0001)
        by (nonlinear_arith)
        requires
            0 <= w <= r,
            0 <= h <= r,
            r <= 0xffff_ffff,
    ;
    width * width + height * height <= reach * reach
}

/// Adds the way to the next pixel.
fn add_link(path: &mut Vec<(i64, i64)>, a: (i64, i64), b: (i64, i64), step: u32)
    requires
        step > 0,
    ensures
        final(path)@ == old(path)@ + link(a, b, step as int),
{
    let ghost before = path@;
    if close(a, b, step) {
        path.push(b);
        assert(path@ =~= before + seq![b]);
        return;
    }
    let row: Vec<i64> = walk_positions(a.0, b.0, step);
    let column: Vec<i64> = walk_positions(a.1, b.1, step);
    let ghost across = row@.map_values(|x: i64| (x, a.1));
    let ghost along = column@.map_values(|y: i64| (b.0, y));
    let mut i: usize = 0;
    assert(path@ =~= before + across.take(0));
    while i < row.len()
        invariant
            i <= row@.len(),
            across == row@.map_values(|x: i64| (x, a.1)),
            path@ == before + across.take(i as int),
        decreases row@.len() - i,
    {
        path.push((row[i], a.1));
        assert(path@ =~= before + across.take(i + 1));
        i = i + 1;
    }
    assert(across.take(i as int) =~= across);
    let mut j: usize = 0;
    assert(path@ =~= before + across + along.take(0));
    while j < column.len()
        invariant
            j <= column@.len(),
            along == column@.map_values(|y: i64| (b.0, y)),
            path@ == before + across + along.take(j as int),
        decreases column@.len() - j,
    {
        path.push((b.0, column[j]));
        assert(path@ =~= before + across + along.take(j + 1));
        j = j + 1;
    }
    assert(along.take(j as int) =~= along);
    assert(path@ =~= before + link(a, b, step as int));
}

proof fn lemma_linked_grows(stops: Seq<(i64, i64)>, next: (i64, i64), step: int)
    requires
        stops.len() > 0,
    ensures
        linked(stops.push(next), step) == linked(stops, step) + link(stops.last(), next, step),
{
    assert(stops.push(next).drop_last() =~= stops);
}

/// Interpolate a polyline in screenshot pixels, so that consecutive points are
/// at most `step_px` apart. The first point comes first.
pub fn interpolate_pixels(points: &[(i64, i64)], step_px: u32) -> (path: Vec<(i64, i64)>)
    ensures
        path@ == path_points(points@, step_px),
        is_chain(path@, step_length(step_px)),
{
    let step: u32 = if step_px == 0 {
        1
    } else {
        step_px
    };
    proof {
        lemma_path_steps_are_short(points@, step_px);
    }
    let mut path: Vec<(i64, i64)> = Vec::new();
    if points.len() == 0 {
        assert(path@ =~= points@);
        return path;
    }
    path.push(points[0]);
    let mut last: (i64, i64) = points[0];
    let mut i: usize = 1;
    assert(points@.take(1) =~= path@);
    while i < points.len()
        invariant
            1 <= i <= points@.len(),
            step == step_length(step_px),
            step > 0,
            stops(points@.take(i as int), step_px).len() > 0,
            last == stops(points@.take(i as int), step_px).last(),
            path@ == path_points(points@.take(i as int), step_px),
        decreases points@.len() - i,
    {
        let from = points[i - 1];
        let to = points[i];
        let count: u32 = count_pieces(from, to, step);
        let ghost before = stops(points@.take(i as int), step_px);
        let ghost line = line_stops(from, to, step_px);
        let mut index: u32 = 0;
        assert(before + line.take(0) =~= before);
        while index < count
            invariant
                index <= count,
                count >= 1,
                count == piece_count(from, to, step_px),
                line == line_stops(from, to, step_px),
                before.len() > 0,
                step == step_length(step_px),
                step > 0,
                last == (before + line.take(index as int)).last(),
                path@ == linked(before + line.take(index as int), step as int),
            decreases count - index,
        {
            let next: (i64, i64) = (
                stop_at(from.0, to.0, count, index + 1),
                stop_at(from.1, to.1, count, index + 1),
            );
            proof {
                assert(line[index as int] == next);
                assert(before + line.take(index + 1) =~= (before + line.take(index as int)).push(
                    next,
                ));
                lemma_linked_grows(before + line.take(index as int), next, step as int);
            }
            add_link(&mut path, last, next, step);
            last = next;
            index = index + 1;
        }
        proof {
            assert(line.take(count as int) =~= line);
            assert(points@.take(i + 1).drop_last() =~= points@.take(i as int));
        }
        i = i + 1;
    }
    assert(points@.take(i as int) =~= points@);
    path
}

/// Consecutive points are at most `step` pixels apart.
pub open spec fn is_chain(path: Seq<(i64, i64)>, step: int) -> bool {
    forall|i: int, j: int|
        0 <= i && j == i + 1 && j < path.len() ==> are_close(
            #[trigger] path[i],
            #[trigger] path[j],
            step,
        )
}

/// The pixel lies in a rectangle, its corners included.
pub open spec fn is_inside(point: (i64, i64), low: (i64, i64), high: (i64, i64)) -> bool {
    low.0 <= point.0 <= high.0 && low.1 <= point.1 <= high.1
}

pub open spec fn all_inside(path: Seq<(i64, i64)>, low: (i64, i64), high: (i64, i64)) -> bool {
    forall|i: int| 0 <= i < path.len() ==> is_inside(#[trigger] path[i], low, high)
}

/// A way from `start`, which is not part of it, to `end` in short steps.
spec fn leads(start: (i64, i64), way: Seq<(i64, i64)>, end: (i64, i64), step: int) -> bool {
    is_chain(seq![start] + way, step) && (seq![start] + way).last() == end
}

proof fn lemma_ways_join(
    start: (i64, i64),
    first: Seq<(i64, i64)>,
    middle: (i64, i64),
    second: Seq<(i64, i64)>,
    end: (i64, i64),
    step: int,
)
    requires
        leads(start, first, middle, step),
        leads(middle, second, end, step),
    ensures
        leads(start, first + second, end, step),
{
    let head = seq![start] + first;
    let tail = seq![middle] + second;
    let whole = seq![start] + (first + second);
    let n = first.len() as int;
    assert(whole =~= head + second);
    assert forall|i: int, j: int| 0 <= i && j == i + 1 && j < whole.len() implies are_close(
        #[trigger] whole[i],
        #[trigger] whole[j],
        step,
    ) by {
        if j < head.len() {
            assert(whole[i] == head[i] && whole[j] == head[j]);
        } else {
            assert(whole[j] == tail[j - n]);
            if i < head.len() {
                assert(whole[i] == head.last() && tail[0] == middle);
                assert(whole[i] == tail[i - n]);
            } else {
                assert(whole[i] == tail[i - n]);
            }
        }
    }
    if second.len() == 0 {
        assert(whole =~= head);
        assert(tail.last() == middle);
    } else {
        assert(whole.last() == second.last());
        assert(tail.last() == second.last());
    }
}

/// Along one axis the distance is the difference.
proof fn lemma_along_an_axis(a: (i64, i64), b: (i64, i64), step: int)
    requires
        -step <= b.0 - a.0 <= step,
        -step <= b.1 - a.1 <= step,
        a.0 == b.0 || a.1 == b.1,
    ensures
        are_close(a, b, step),
{
    let dx = b.0 - a.0;
    let dy = b.1 - a.1;
    assert(dx * dx + dy * dy <= step * step) by (nonlinear_arith)
        requires
            -step <= dx <= step,
            -step <= dy <= step,
            dx == 0 || dy == 0,
    ;
}

/// A walk takes short steps, ends where it was told and stays between its
/// ends.
proof fn lemma_walk(from: i64, to: i64, step: int)
    requires
        step > 0,
    ensures
        ({
            let all = seq![from] + walk(from, to, step);
            &&& all.last() == to
            &&& forall|i: int|
                0 <= i < all.len() ==> (from <= #[trigger] all[i] <= to || to <= all[i] <= from)
            &&& forall|i: int, j: int|
                0 <= i && j == i + 1 && j < all.len() ==> -step <= #[trigger] all[j]
                    - #[trigger] all[i] <= step
        }),
    decreases
            if to >= from {
                to - from
            } else {
                from - to
            },
{
    let all = seq![from] + walk(from, to, step);
    if from != to && !(-step <= to - from <= step) {
        let next = (if to > from {
            from + step
        } else {
            from - step
        }) as i64;
        lemma_walk(next, to, step);
        let rest = seq![next] + walk(next, to, step);
        assert(all =~= seq![from] + rest);
        assert forall|i: int| 0 <= i < all.len() implies (from <= #[trigger] all[i] <= to || to
            <= all[i] <= from) by {
            if i > 0 {
                assert(all[i] == rest[i - 1]);
            }
        }
        assert forall|i: int, j: int| 0 <= i && j == i + 1 && j < all.len() implies -step
            <= #[trigger] all[j] - #[trigger] all[i] <= step by {
            assert(all[j] == rest[j - 1]);
            if i > 0 {
                assert(all[i] == rest[i - 1]);
            }
        }
        assert(all.last() == rest.last());
    }
}

/// A link takes short steps and stays in every rectangle that holds its ends.
proof fn lemma_link(a: (i64, i64), b: (i64, i64), step: int)
    requires
        step > 0,
    ensures
        leads(a, link(a, b, step), b, step),
        link(a, b, step).len() > 0,
        forall|low: (i64, i64), high: (i64, i64)|
            is_inside(a, low, high) && is_inside(b, low, high) ==> #[trigger] all_inside(
                link(a, b, step),
                low,
                high,
            ),
{
    let way = link(a, b, step);
    if are_close(a, b, step) {
        assert(seq![a] + way =~= seq![a, b]);
    } else {
        let row = walk(a.0, b.0, step);
        let column = walk(a.1, b.1, step);
        let across = row.map_values(|x: i64| (x, a.1));
        let along = column.map_values(|y: i64| (b.0, y));
        let corner = (b.0, a.1);
        lemma_walk(a.0, b.0, step);
        lemma_walk(a.1, b.1, step);
        let xs = seq![a.0] + row;
        let ys = seq![a.1] + column;
        let first = seq![a] + across;
        let second = seq![corner] + along;
        assert forall|i: int| 0 <= i < first.len() implies #[trigger] first[i] == (xs[i], a.1) by {}
        assert forall|i: int| 0 <= i < second.len() implies #[trigger] second[i] == (b.0, ys[i]) by {}
        assert forall|i: int, j: int| 0 <= i && j == i + 1 && j < first.len() implies are_close(
            #[trigger] first[i],
            #[trigger] first[j],
            step,
        ) by {
            assert(first[i] == (xs[i], a.1) && first[j] == (xs[j], a.1));
            lemma_along_an_axis(first[i], first[j], step);
        }
        assert forall|i: int, j: int| 0 <= i && j == i + 1 && j < second.len() implies are_close(
            #[trigger] second[i],
            #[trigger] second[j],
            step,
        ) by {
            assert(second[i] == (b.0, ys[i]) && second[j] == (b.0, ys[j]));
            lemma_along_an_axis(second[i], second[j], step);
        }
        assert(first.last() == corner);
        assert(second.last() == b);
        lemma_ways_join(a, across, corner, along, b, step);
        if row.len() == 0 && column.len() == 0 {
            assert(xs.last() == a.0 && ys.last() == a.1);
            lemma_along_an_axis(a, b, step);
        }
        assert forall|low: (i64, i64), high: (i64, i64)|
            is_inside(a, low, high) && is_inside(b, low, high) implies #[trigger] all_inside(
            way,
            low,
            high,
        ) by {
            assert forall|i: int| 0 <= i < way.len() implies is_inside(
                #[trigger] way[i],
                low,
                high,
            ) by {
                if i < across.len() {
                    assert(way[i] == first[i + 1]);
                    assert(xs[i + 1] == row[i]);
                } else {
                    assert(way[i] == second[i - across.len() + 1]);
                    assert(ys[i - across.len() + 1] == column[i - across.len()]);
                }
            }
        }
    }
}

/// The way from stop to stop takes short steps, visits every stop and stays
/// in every rectangle that holds them.
proof fn lemma_linked(stops: Seq<(i64, i64)>, step: int)
    requires
        step > 0,
        stops.len() > 0,
    ensures
        is_chain(linked(stops, step), step),
        linked(stops, step).len() >= stops.len(),
        linked(stops, step).first() == stops.first(),
        linked(stops, step).last() == stops.last(),
        forall|i: int|
            0 <= i < stops.len() ==> linked(stops, step).contains(#[trigger] stops[i]),
        forall|low: (i64, i64), high: (i64, i64)|
            all_inside(stops, low, high) ==> #[trigger] all_inside(linked(stops, step), low, high),
    decreases stops.len(),
{
    let way = linked(stops, step);
    if stops.len() == 1 {
        assert(way.contains(stops[0]));
    } else {
        let rest = stops.drop_last();
        let before = linked(rest, step);
        let (a, b) = (stops[stops.len() - 2], stops.last());
        let last = link(a, b, step);
        lemma_linked(rest, step);
        lemma_link(a, b, step);
        let tail = seq![a] + last;
        let n = before.len() - 1;
        assert(rest.last() == a);
        assert(tail.last() == last.last());
        assert(way[0] == before[0]);
        assert(way[way.len() - 1] == last.last());
        assert forall|i: int, j: int| 0 <= i && j == i + 1 && j < way.len() implies are_close(
            #[trigger] way[i],
            #[trigger] way[j],
            step,
        ) by {
            if j < before.len() {
                assert(way[i] == before[i] && way[j] == before[j]);
            } else {
                assert(way[j] == tail[j - n]);
                if i == n {
                    assert(way[i] == before.last() && tail[0] == a);
                }
                assert(way[i] == tail[i - n]);
            }
        }
        assert forall|i: int| 0 <= i < stops.len() implies way.contains(#[trigger] stops[i]) by {
            if i < rest.len() {
                assert(before.contains(rest[i]));
                let k = choose|k: int| 0 <= k < before.len() && before[k] == rest[i];
                assert(way[k] == stops[i]);
            } else {
                assert(way[way.len() - 1] == stops[i]);
            }
        }
        assert forall|low: (i64, i64), high: (i64, i64)|
            all_inside(stops, low, high) implies #[trigger] all_inside(way, low, high) by {
            assert forall|i: int| 0 <= i < rest.len() implies is_inside(
                #[trigger] rest[i],
                low,
                high,
            ) by {
                assert(is_inside(stops[i], low, high));
            }
            assert(all_inside(before, low, high));
            assert(is_inside(stops[stops.len() - 2], low, high));
            assert(is_inside(stops[stops.len() - 1], low, high));
            assert(all_inside(last, low, high));
            assert forall|i: int| 0 <= i < way.len() implies is_inside(
                #[trigger] way[i],
                low,
                high,
            ) by {
                if i < before.len() {
                    assert(way[i] == before[i]);
                } else {
                    assert(way[i] == last[i - before.len()]);
                }
            }
        }
    }
}

/// The pixels that doubles hold exactly, and their differences.
pub open spec fn is_exact(point: (i64, i64)) -> bool {
    &&& -0x10_0000_0000_0000 <= point.0 <= 0x10_0000_0000_0000
    &&& -0x10_0000_0000_0000 <= point.1 <= 0x10_0000_0000_0000
}

pub open spec fn all_exact(points: Seq<(i64, i64)>) -> bool {
    forall|i: int| 0 <= i < points.len() ==> is_exact(#[trigger] points[i])
}

/// Along one axis, a stop lies between the ends of its line, and the last is
/// the end.
proof fn lemma_stop(from: i64, to: i64, count: int, index: int)
    requires
        -0x10_0000_0000_0000 <= from <= 0x10_0000_0000_0000,
        -0x10_0000_0000_0000 <= to <= 0x10_0000_0000_0000,
        0 < count,
        0 <= index <= count,
    ensures
        from <= stop(from, to, count, index) <= to || to <= stop(from, to, count, index) <= from,
        index == count ==> stop(from, to, count, index) == to,
{
    lemma_one_is_large();
    let w = one();
    let gap = to - from;
    lemma_integer_stays(from as int);
    lemma_integer_stays(gap);
    let part = closest(index * w, count);
    assert(0 * w * count <= index * w <= 1 * w * count) by (nonlinear_arith)
        requires
            0 <= index <= count,
            w > 0,
    ;
    lemma_closest_is_within(index * w, count, 0, 1);
    assert(0 * w == 0);
    let g = run(from, to);
    let (low, high) = if gap >= 0 {
        (0, gap)
    } else {
        (gap, 0)
    };
    assert(low * w * w <= g * part <= high * w * w) by (nonlinear_arith)
        requires
            g == gap * w,
            0 <= part <= w,
            w > 0,
            gap >= 0 && low == 0 && high == gap || gap < 0 && low == gap && high == 0,
    ;
    lemma_closest_is_within(g * part, w, low, high);
    let moved = closest(g * part, w);
    let total = from * w + moved;
    assert((from + low) * w == from * w + low * w && (from + high) * w == from * w + high * w)
        by (nonlinear_arith);
    assert((from + low) * w * 1 <= total <= (from + high) * w * 1);
    lemma_closest_is_within(total, 1, from + low, from + high);
    let place = closest(total, 1);
    lemma_rounded_of_multiple(from + low, w);
    lemma_rounded_of_multiple(from + high, w);
    lemma_rounding_is_monotone((from + low) * w, place, w);
    lemma_rounding_is_monotone(place, (from + high) * w, w);
    if index == count {
        assert((count * w) * 1 == w * count) by (nonlinear_arith);
        lemma_closest_equal(count * w, count, w, 1);
        lemma_integer_stays(1);
        assert(1 * w == w);
        assert((g * w) * 1 == g * w);
        lemma_closest_equal(g * w, w, g, 1);
        lemma_integer_stays(to as int);
        assert(from * w + gap * w == to * w) by (nonlinear_arith)
            requires
                gap == to - from,
        ;
        lemma_rounded_of_multiple(to as int, w);
    }
}

/// Along one axis, a line that starts on a screen and goes further than
/// doubles are exact does not stop on the screen.
proof fn lemma_far_stop(from: i64, to: i64, count: int)
    requires
        0 <= from < 0x1_0000_0000,
        to < -0x10_0000_0000_0000 || to > 0x10_0000_0000_0000,
        0 < count,
    ensures
        !(0 <= stop(from, to, count, count) < 0x1_0000_0000),
{
    lemma_one_is_large();
    let w = one();
    let gap = to - from;
    let g = run(from, to);
    assert((count * w) * 1 == w * count) by (nonlinear_arith);
    lemma_closest_equal(count * w, count, w, 1);
    lemma_integer_stays(1);
    assert(1 * w == w);
    assert((g * w) * 1 == g * w);
    lemma_closest_equal(g * w, w, g, 1);
    lemma_closest_is_a_double(gap * w, 1);
    lemma_double_stays(g);
    lemma_integer_stays(from as int);
    let total = from * w + g;
    let place = closest(total, 1);
    assert(0 <= from * w <= 0x1_0000_0000 * w) by (nonlinear_arith)
        requires
            0 <= from <= 0x1_0000_0000,
            w > 0,
    ;
    if gap > 0 {
        let far = 0x8_0000_0000_0000;
        lemma_integer_stays(far);
        assert(far * w <= gap * w) by (nonlinear_arith)
            requires
                far <= gap,
                w > 0,
        ;
        assert((far * w) * 1 <= (gap * w) * 1);
        lemma_closest_is_monotone(far * w, 1, gap * w, 1);
        assert((far * w) * 1 <= total * 1);
        lemma_closest_is_monotone(far * w, 1, total, 1);
        lemma_rounded_of_multiple(far, w);
        lemma_rounding_is_monotone(far * w, place, w);
    } else {
        let far = -0x8_0000_0000_0000;
        let near = -1;
        lemma_integer_stays(far);
        lemma_integer_stays(near);
        assert(gap * w <= far * w) by (nonlinear_arith)
            requires
                gap <= far,
                w > 0,
        ;
        assert((gap * w) * 1 <= (far * w) * 1);
        lemma_closest_is_monotone(gap * w, 1, far * w, 1);
        assert(total * 1 <= (near * w) * 1);
        lemma_closest_is_monotone(total, 1, near * w, 1);
        lemma_rounded_of_multiple(near, w);
        lemma_rounding_is_monotone(place, near * w, w);
    }
}

proof fn lemma_stops(points: Seq<(i64, i64)>, step_px: u32)
    requires
        points.len() > 0,
        all_exact(points),
    ensures
        stops(points, step_px).len() >= points.len(),
        stops(points, step_px).first() == points.first(),
        stops(points, step_px).last() == points.last(),
        forall|i: int|
            0 <= i < points.len() ==> stops(points, step_px).contains(#[trigger] points[i]),
        forall|low: (i64, i64), high: (i64, i64)|
            all_inside(points, low, high) ==> #[trigger] all_inside(
                stops(points, step_px),
                low,
                high,
            ),
    decreases points.len(),
{
    let all = stops(points, step_px);
    if points.len() == 1 {
        assert(all.contains(points[0]));
    } else {
        let rest = points.drop_last();
        let before = stops(rest, step_px);
        let (from, to) = (points[points.len() - 2], points[points.len() - 1]);
        let line = line_stops(from, to, step_px);
        let count = piece_count(from, to, step_px);
        assert forall|i: int| 0 <= i < rest.len() implies is_exact(#[trigger] rest[i]) by {
            assert(is_exact(points[i]));
        }
        lemma_stops(rest, step_px);
        assert(is_exact(from) && is_exact(to));
        lemma_stop(from.0, to.0, count, count);
        lemma_stop(from.1, to.1, count, count);
        assert(line[count - 1] == to);
        assert(all[all.len() - 1] == to);
        assert(all[0] == before[0]);
        assert forall|i: int| 0 <= i < points.len() implies all.contains(#[trigger] points[i]) by {
            if i < rest.len() {
                assert(before.contains(rest[i]));
                let k = choose|k: int| 0 <= k < before.len() && before[k] == rest[i];
                assert(all[k] == points[i]);
            } else {
                assert(all[all.len() - 1] == points[i]);
            }
        }
        assert forall|low: (i64, i64), high: (i64, i64)|
            all_inside(points, low, high) implies #[trigger] all_inside(all, low, high) by {
            assert forall|i: int| 0 <= i < rest.len() implies is_inside(
                #[trigger] rest[i],
                low,
                high,
            ) by {
                assert(is_inside(points[i], low, high));
            }
            assert(all_inside(before, low, high));
            assert(is_inside(from, low, high) && is_inside(to, low, high));
            assert forall|i: int| 0 <= i < all.len() implies is_inside(
                #[trigger] all[i],
                low,
                high,
            ) by {
                if i < before.len() {
                    assert(all[i] == before[i]);
                } else {
                    let k = i - before.len();
                    assert(all[i] == line[k]);
                    lemma_stop(from.0, to.0, count, k + 1);
                    lemma_stop(from.1, to.1, count, k + 1);
                }
            }
        }
    }
}

/// The path starts at the first point, ends at the last and passes through
/// all of them, where doubles hold them exactly.
pub proof fn lemma_path_visits_all_points(points: Seq<(i64, i64)>, step_px: u32)
    requires
        points.len() > 0,
        all_exact(points),
    ensures
        path_points(points, step_px).len() >= points.len(),
        path_points(points, step_px).first() == points.first(),
        path_points(points, step_px).last() == points.last(),
        forall|i: int|
            0 <= i < points.len() ==> path_points(points, step_px).contains(#[trigger] points[i]),
{
    let all = stops(points, step_px);
    let path = path_points(points, step_px);
    lemma_stops(points, step_px);
    lemma_linked(all, step_length(step_px));
    assert forall|i: int| 0 <= i < points.len() implies path.contains(#[trigger] points[i]) by {
        assert(all.contains(points[i]));
        let k = choose|k: int| 0 <= k < all.len() && all[k] == points[i];
        assert(path.contains(all[k]));
    }
}

/// Consecutive points of a path are at most `step_px` pixels apart, or one
/// pixel where that is zero.
pub proof fn lemma_path_steps_are_short(points: Seq<(i64, i64)>, step_px: u32)
    ensures
        is_chain(path_points(points, step_px), step_length(step_px)),
{
    if points.len() > 0 {
        lemma_stops_begin(points, step_px);
        lemma_linked(stops(points, step_px), step_length(step_px));
    }
}

proof fn lemma_stops_begin(points: Seq<(i64, i64)>, step_px: u32)
    requires
        points.len() > 0,
    ensures
        stops(points, step_px).len() > 0,
        stops(points, step_px).first() == points.first(),
    decreases points.len(),
{
    if points.len() > 1 {
        lemma_stops_begin(points.drop_last(), step_px);
        assert(stops(points, step_px)[0] == stops(points.drop_last(), step_px)[0]);
    }
}

/// A path never leaves a rectangle that holds the points it was told, where
/// doubles hold them exactly.
pub proof fn lemma_path_stays_inside(
    points: Seq<(i64, i64)>,
    step_px: u32,
    low: (i64, i64),
    high: (i64, i64),
)
    requires
        all_inside(points, low, high),
        all_exact(points),
    ensures
        all_inside(path_points(points, step_px), low, high),
{
    if points.len() > 0 {
        lemma_stops(points, step_px);
        lemma_linked(stops(points, step_px), step_length(step_px));
        assert(all_inside(stops(points, step_px), low, high));
    }
}

/// Where a path stays on a screen, doubles hold the points it was told
/// exactly.
pub proof fn lemma_points_of_a_path_on_a_screen(points: Seq<(i64, i64)>, step_px: u32)
    requires
        points.len() > 0,
        all_inside(path_points(points, step_px), (0, 0), (0xffff_ffff, 0xffff_ffff)),
    ensures
        all_exact(points),
{
    let all = stops(points, step_px);
    let path = path_points(points, step_px);
    lemma_stops_begin(points, step_px);
    lemma_linked(all, step_length(step_px));
    assert forall|i: int| 0 <= i < all.len() implies is_inside(
        #[trigger] all[i],
        (0, 0),
        (0xffff_ffff, 0xffff_ffff),
    ) by {
        assert(path.contains(all[i]));
        let k = choose|k: int| 0 <= k < path.len() && path[k] == all[i];
        assert(is_inside(path[k], (0, 0), (0xffff_ffff, 0xffff_ffff)));
    }
    lemma_stops_on_a_screen(points, step_px);
}

proof fn lemma_stops_on_a_screen(points: Seq<(i64, i64)>, step_px: u32)
    requires
        points.len() > 0,
        all_inside(stops(points, step_px), (0, 0), (0xffff_ffff, 0xffff_ffff)),
    ensures
        all_exact(points),
        is_inside(points.last(), (0, 0), (0xffff_ffff, 0xffff_ffff)),
    decreases points.len(),
{
    let (low, high) = ((0i64, 0i64), (0xffff_ffffi64, 0xffff_ffffi64));
    let all = stops(points, step_px);
    if points.len() == 1 {
        assert(is_inside(all[0], low, high));
    } else {
        let rest = points.drop_last();
        let before = stops(rest, step_px);
        let (from, to) = (points[points.len() - 2], points[points.len() - 1]);
        let line = line_stops(from, to, step_px);
        let count = piece_count(from, to, step_px);
        assert forall|i: int| 0 <= i < before.len() implies is_inside(
            #[trigger] before[i],
            low,
            high,
        ) by {
            assert(is_inside(all[i], low, high));
        }
        lemma_stops_on_a_screen(rest, step_px);
        let end = line[count - 1];
        assert(all[before.len() + count - 1] == end);
        assert(is_inside(end, low, high));
        assert(rest.last() == from);
        if !(-0x10_0000_0000_0000 <= to.0 <= 0x10_0000_0000_0000) {
            lemma_far_stop(from.0, to.0, count);
        }
        if !(-0x10_0000_0000_0000 <= to.1 <= 0x10_0000_0000_0000) {
            lemma_far_stop(from.1, to.1, count);
        }
        assert forall|i: int| 0 <= i < points.len() implies is_exact(#[trigger] points[i]) by {
            if i < rest.len() {
                assert(is_exact(rest[i]));
            }
        }
        lemma_stop(from.0, to.0, count, count);
        lemma_stop(from.1, to.1, count, count);
    }
}

/// A way passes through these points, one after another: the first is where it
/// starts, the last where it ends, and `places` says at which steps it is at
/// each.
pub open spec fn passes_in_order<T>(way: Seq<T>, points: Seq<T>, places: Seq<int>) -> bool {
    &&& places.len() == points.len()
    &&& places.len() > 0
    &&& places.first() == 0
    &&& places.last() == way.len() - 1
    &&& forall|i: int, j: int|
        0 <= i < j < places.len() ==> #[trigger] places[i] < #[trigger] places[j]
    &&& forall|i: int|
        0 <= i < places.len() ==> 0 <= #[trigger] places[i] < way.len() && way[places[i]]
            == points[i]
}

proof fn lemma_linked_in_order(stops: Seq<(i64, i64)>, step: int) -> (places: Seq<int>)
    requires
        step > 0,
        stops.len() > 0,
    ensures
        passes_in_order(linked(stops, step), stops, places),
    decreases stops.len(),
{
    let way = linked(stops, step);
    if stops.len() == 1 {
        seq![0]
    } else {
        let rest = stops.drop_last();
        let before = linked(rest, step);
        let earlier = lemma_linked_in_order(rest, step);
        let last = link(stops[stops.len() - 2], stops.last(), step);
        lemma_link(stops[stops.len() - 2], stops.last(), step);
        lemma_linked(stops, step);
        let places = earlier.push(way.len() - 1);
        assert forall|i: int| 0 <= i < places.len() implies 0 <= #[trigger] places[i] < way.len()
            && way[places[i]] == stops[i] by {
            if i < earlier.len() {
                assert(places[i] == earlier[i]);
                assert(way[earlier[i]] == before[earlier[i]]);
                assert(rest[i] == stops[i]);
            }
        }
        assert forall|i: int, j: int| 0 <= i < j < places.len() implies #[trigger] places[i]
            < #[trigger] places[j] by {
            assert(places[i] == earlier[i]);
            if j < earlier.len() {
                assert(places[j] == earlier[j]);
            }
        }
        assert(places[0] == earlier[0]);
        places
    }
}

proof fn lemma_stops_in_order(points: Seq<(i64, i64)>, step_px: u32) -> (places: Seq<int>)
    requires
        points.len() > 0,
        all_exact(points),
    ensures
        passes_in_order(stops(points, step_px), points, places),
    decreases points.len(),
{
    let all = stops(points, step_px);
    if points.len() == 1 {
        seq![0]
    } else {
        let rest = points.drop_last();
        let before = stops(rest, step_px);
        assert forall|i: int| 0 <= i < rest.len() implies is_exact(#[trigger] rest[i]) by {
            assert(is_exact(points[i]));
        }
        let earlier = lemma_stops_in_order(rest, step_px);
        let (from, to) = (points[points.len() - 2], points[points.len() - 1]);
        let count = piece_count(from, to, step_px);
        assert(count >= 1);
        lemma_stops(points, step_px);
        assert(all.last() == points.last());
        let places = earlier.push(all.len() - 1);
        assert forall|i: int| 0 <= i < places.len() implies 0 <= #[trigger] places[i] < all.len()
            && all[places[i]] == points[i] by {
            if i < earlier.len() {
                assert(places[i] == earlier[i]);
                assert(all[earlier[i]] == before[earlier[i]]);
                assert(rest[i] == points[i]);
            }
        }
        assert forall|i: int, j: int| 0 <= i < j < places.len() implies #[trigger] places[i]
            < #[trigger] places[j] by {
            assert(places[i] == earlier[i]);
            if j < earlier.len() {
                assert(places[j] == earlier[j]);
            }
        }
        assert(places[0] == earlier[0]);
        places
    }
}

proof fn lemma_order_carries_over<T>(
    way: Seq<T>,
    middle: Seq<T>,
    points: Seq<T>,
    outer: Seq<int>,
    inner: Seq<int>,
) -> (places: Seq<int>)
    requires
        passes_in_order(way, middle, outer),
        passes_in_order(middle, points, inner),
    ensures
        passes_in_order(way, points, places),
{
    let places = inner.map_values(|k: int| outer[k]);
    assert forall|i: int, j: int| 0 <= i < j < places.len() implies #[trigger] places[i]
        < #[trigger] places[j] by {
        assert(inner[i] < inner[j]);
        assert(outer[inner[i]] < outer[inner[j]]);
    }
    assert forall|i: int| 0 <= i < places.len() implies 0 <= #[trigger] places[i] < way.len()
        && way[places[i]] == points[i] by {
        assert(middle[inner[i]] == points[i]);
        assert(way[outer[inner[i]]] == middle[inner[i]]);
    }
    assert(places.last() == outer[inner[inner.len() - 1]]);
    assert(places.first() == outer[inner[0]]);
    assert(inner.last() == outer.len() - 1);
    places
}

/// The path passes through the points in the order in which they were told,
/// from the first to the last, where doubles hold them exactly.
pub proof fn lemma_path_visits_points_in_order(points: Seq<(i64, i64)>, step_px: u32)
    requires
        points.len() > 0,
        all_exact(points),
    ensures
        exists|places: Seq<int>| passes_in_order(path_points(points, step_px), points, places),
{
    let all = stops(points, step_px);
    lemma_stops_begin(points, step_px);
    let inner = lemma_stops_in_order(points, step_px);
    let outer = lemma_linked_in_order(all, step_length(step_px));
    let places = lemma_order_carries_over(
        path_points(points, step_px),
        all,
        points,
        outer,
        inner,
    );
}

/// Along one axis, a position is close to the place that lies `index` of
/// `count` parts of the way from one position to another.
spec fn is_part_way(at: i64, from: i64, to: i64, count: int, index: int) -> bool {
    let off = at * count - (from * count + (to - from) * index);
    -(count * 0x1_0001) <= 2 * off * 0x1_0000 <= count * 0x1_0001
}

spec fn is_on_a_screen(at: i64) -> bool {
    0 <= at <= 0x400_0000
}

proof fn lemma_stop_is_part_way(from: i64, to: i64, count: int, index: int)
    requires
        is_on_a_screen(from),
        is_on_a_screen(to),
        0 < count,
        0 <= index <= count,
    ensures
        is_part_way(stop(from, to, count, index), from, to, count, index),
{
    lemma_one_is_large();
    lemma_stop(from, to, count, index);
    let w = one();
    let gap = to - from;
    lemma_integer_stays(from as int);
    lemma_integer_stays(gap);
    let part = closest(index * w, count);
    assert(0 <= index * w <= count * w) by (nonlinear_arith)
        requires
            0 <= index <= count,
            w > 0,
    ;
    lemma_closest_error(index * w, count, count * w);
    let e1 = part * count - index * w;
    assert(count * 0x10_0000_0000_0000 <= count * w) by (nonlinear_arith)
        requires
            w >= 0x10_0000_0000_0000,
            count > 0,
    ;
    assert(-(count * w) <= e1 * 0x10_0000_0000_0000 <= count * w);
    assert(0 * w * count <= index * w <= 1 * w * count) by (nonlinear_arith)
        requires
            0 <= index <= count,
            w > 0,
    ;
    lemma_closest_is_within(index * w, count, 0, 1);
    assert(0 * w == 0);
    let g = run(from, to);
    assert(-(0x400_0000 * w * w) <= g * part <= 0x400_0000 * w * w) by (nonlinear_arith)
        requires
            g == gap * w,
            -0x400_0000 <= gap <= 0x400_0000,
            0 <= part <= w,
            w > 0,
    ;
    lemma_closest_error(g * part, w, 0x400_0000 * w * w);
    let moved = closest(g * part, w);
    let e2 = moved * w - g * part;
    assert(w * 0x10_0000_0000_0000 <= w * w) by (nonlinear_arith)
        requires
            w >= 0x10_0000_0000_0000,
    ;
    assert(-(w * w) <= e2 * 0x80_0000 <= w * w) by (nonlinear_arith)
        requires
            e2 * 0x20_0000_0000_0000 <= 0x400_0000 * w * w + w * 0x10_0000_0000_0000,
            -e2 * 0x20_0000_0000_0000 <= 0x400_0000 * w * w + w * 0x10_0000_0000_0000,
            w * 0x10_0000_0000_0000 <= w * w,
            w > 0,
    ;
    assert(-0x400_0000 * w * w == -(0x400_0000 * w * w)) by (nonlinear_arith);
    lemma_closest_is_within(g * part, w, -0x400_0000, 0x400_0000);
    let total = from * w + moved;
    assert(0 <= from * w <= 0x400_0000 * w) by (nonlinear_arith)
        requires
            0 <= from <= 0x400_0000,
            w > 0,
    ;
    lemma_closest_error(total, 1, 0x800_0000 * w);
    let place = closest(total, 1);
    let e3 = place - total;
    assert(-w <= e3 * 0x80_0000 <= w);
    lemma_rounding_is_closest(place, w);
    let r = rounded(place, w);
    let e4 = r * w - place;
    assert(-0x1000_0000 * w <= place <= 0x1000_0000 * w);
    assert(-0x2000_0000 <= r <= 0x2000_0000) by (nonlinear_arith)
        requires
            -w <= 2 * (r * w - place) <= w,
            -0x1000_0000 * w <= place <= 0x1000_0000 * w,
            w > 0,
    ;
    assert(stop(from, to, count, index) == r);
    lemma_off_of_a_stop(
        r,
        from as int,
        gap,
        count,
        index,
        w,
        part,
        moved,
        place,
        e1,
        e2,
        e3,
        e4,
    );
}

proof fn lemma_off_of_a_stop(
    r: int,
    from: int,
    gap: int,
    count: int,
    index: int,
    w: int,
    part: int,
    moved: int,
    place: int,
    e1: int,
    e2: int,
    e3: int,
    e4: int,
)
    requires
        count > 0,
        w > 0,
        -0x400_0000 <= gap <= 0x400_0000,
        e1 == part * count - index * w,
        e2 == moved * w - gap * w * part,
        e3 == place - (from * w + moved),
        e4 == r * w - place,
        -(count * w) <= e1 * 0x10_0000_0000_0000 <= count * w,
        -(w * w) <= e2 * 0x80_0000 <= w * w,
        -w <= e3 * 0x80_0000 <= w,
        -w <= 2 * e4 <= w,
    ensures
        ({
            let off = r * count - (from * count + gap * index);
            -(count * 0x1_0001) <= 2 * off * 0x1_0000 <= count * 0x1_0001
        }),
{
    let off = r * count - (from * count + gap * index);
    let cw = count * w;
    let cww = count * (w * w);
    assert(off * w == count * (moved + e3 + e4) - gap * index * w) by (nonlinear_arith)
        requires
            off == r * count - (from * count + gap * index),
            r * w == from * w + moved + e3 + e4,
    ;
    assert(count * (moved * w) == gap * w * (part * count) + count * e2) by (nonlinear_arith)
        requires
            e2 == moved * w - gap * w * part,
    ;
    assert(gap * w * (part * count) == gap * w * (index * w) + gap * w * e1) by (nonlinear_arith)
        requires
            e1 == part * count - index * w,
    ;
    let (cm, c3, c4, gi) = (count * moved, count * e3, count * e4, gap * index * w);
    assert(off * w == cm + c3 + c4 - gi) by (nonlinear_arith)
        requires
            off * w == count * (moved + e3 + e4) - gi,
            cm == count * moved,
            c3 == count * e3,
            c4 == count * e4,
    ;
    assert((cm + c3 + c4 - gi) * w == cm * w + c3 * w + c4 * w - gi * w) by (nonlinear_arith);
    assert(cm * w == count * (moved * w)) by (nonlinear_arith)
        requires
            cm == count * moved,
    ;
    assert(c3 * w == cw * e3 && c4 * w == cw * e4) by (nonlinear_arith)
        requires
            c3 == count * e3,
            c4 == count * e4,
            cw == count * w,
    ;
    assert(gi * w == gap * w * (index * w)) by (nonlinear_arith)
        requires
            gi == gap * index * w,
    ;
    let (t1, t2, t3, t4) = (gap * w * e1, count * e2, cw * e3, cw * e4);
    assert((off * w) * w == t1 + t2 + t3 + t4);
    assert(-cww <= t1 * 0x400_0000 <= cww) by (nonlinear_arith)
        requires
            t1 == gap * w * e1,
            -0x400_0000 <= gap <= 0x400_0000,
            -(count * w) <= e1 * 0x10_0000_0000_0000 <= count * w,
            cww == count * (w * w),
            w > 0,
            count > 0,
    ;
    assert(-cww <= t2 * 0x80_0000 <= cww) by (nonlinear_arith)
        requires
            t2 == count * e2,
            -(w * w) <= e2 * 0x80_0000 <= w * w,
            cww == count * (w * w),
            count > 0,
    ;
    assert(-cww <= t3 * 0x80_0000 <= cww) by (nonlinear_arith)
        requires
            t3 == cw * e3,
            cw == count * w,
            -w <= e3 * 0x80_0000 <= w,
            cww == count * (w * w),
            count > 0,
            w > 0,
    ;
    assert(-cww <= 2 * t4 <= cww) by (nonlinear_arith)
        requires
            t4 == cw * e4,
            cw == count * w,
            -w <= 2 * e4 <= w,
            cww == count * (w * w),
            count > 0,
            w > 0,
    ;
    let n = 2 * off * 0x1_0000;
    let bound = count * 0x1_0001;
    assert(-(cww * 0x1_0001) <= 0x2_0000 * ((off * w) * w) <= cww * 0x1_0001);
    assert(n * (w * w) == 0x2_0000 * ((off * w) * w) && bound * (w * w) == cww * 0x1_0001)
        by (nonlinear_arith)
        requires
            n == 2 * off * 0x1_0000,
            bound == count * 0x1_0001,
            cww == count * (w * w),
    ;
    assert(-bound <= n <= bound) by (nonlinear_arith)
        requires
            -(bound * (w * w)) <= n * (w * w) <= bound * (w * w),
            w > 0,
    ;
}

/// A line is cut into so many pieces that none goes further than two steps
/// along either axis.
proof fn lemma_pieces_are_short(from: (i64, i64), to: (i64, i64), step_px: u32)
    requires
        is_on_a_screen(from.0),
        is_on_a_screen(from.1),
        is_on_a_screen(to.0),
        is_on_a_screen(to.1),
    ensures
        ({
            let reach = 2 * piece_count(from, to, step_px) * step_length(step_px);
            -reach <= to.0 - from.0 <= reach && -reach <= to.1 - from.1 <= reach
        }),
        piece_count(from, to, step_px) >= 1,
{
    lemma_one_is_large();
    let w = one();
    let (gx, gy) = (to.0 - from.0, to.1 - from.1);
    lemma_integer_stays(gx);
    lemma_integer_stays(gy);
    let (ax, ay) = (
        if gx < 0 { -gx } else { gx },
        if gy < 0 { -gy } else { gy },
    );
    assert((-gx) * w == -(gx * w) && (-gy) * w == -(gy * w)) by (nonlinear_arith);
    assert(gx * w >= 0 <==> gx >= 0) by (nonlinear_arith)
        requires
            w > 0,
    ;
    assert(gy * w >= 0 <==> gy >= 0) by (nonlinear_arith)
        requires
            w > 0,
    ;
    lemma_distance_has_no_sign(gx * w, gy * w);
    let length = distance(gx * w, gy * w);
    assert(length == distance(ax * w, ay * w));
    assert(ax * w >= 0 && ay * w >= 0) by (nonlinear_arith)
        requires
            ax >= 0,
            ay >= 0,
            w > 0,
    ;
    lemma_distance_along_an_axis(ax);
    lemma_distance_along_an_axis(ay);
    lemma_distance_is_monotone(ax * w, 0, ax * w, ay * w);
    lemma_distance_is_monotone(0, ay * w, ax * w, ay * w);
    lemma_count_of_pieces(length, ax, step_length(step_px), w);
    lemma_count_of_pieces(length, ay, step_length(step_px), w);
}

proof fn lemma_count_of_pieces(length: int, size: int, step: int, w: int)
    requires
        w == one(),
        step > 0,
        0 <= size <= 0x400_0000,
        length >= size * w,
    ensures
        size <= 2 * within(ceiling(closest(length, step), w), 1, u32::MAX as int) * step,
{
    lemma_one_is_large();
    let m = size / step;
    lemma_fundamental_div_mod(size, step);
    let rest = size % step;
    assert(0 <= m <= size) by (nonlinear_arith)
        requires
            size == step * m + rest,
            0 <= rest < step,
            step > 0,
            size >= 0,
    ;
    lemma_integer_stays(m);
    assert((m * w) * step <= length * 1) by (nonlinear_arith)
        requires
            size == step * m + rest,
            rest >= 0,
            length >= size * w,
            w > 0,
    ;
    lemma_closest_is_monotone(m * w, 1, length, step);
    let value = closest(length, step);
    lemma_fundamental_div_mod(value, w);
    let q = value / w;
    assert(q >= m) by (nonlinear_arith)
        requires
            value == w * q + value % w,
            value % w < w,
            value >= m * w,
            w > 0,
    ;
    let count = within(ceiling(value, w), 1, u32::MAX as int);
    assert(count >= m && count >= 1);
    assert(size <= 2 * count * step) by (nonlinear_arith)
        requires
            size == step * m + rest,
            rest < step,
            count >= m,
            count >= 1,
            step > 0,
    ;
}

/// A pixel lies within so many pixels, along each axis, of a place on the
/// straight line between two others.
pub open spec fn is_near_line(
    pixel: (i64, i64),
    from: (i64, i64),
    to: (i64, i64),
    reach: int,
) -> bool {
    exists|count: int, index: int| #[trigger]
        is_near_part(pixel, from, to, reach, count, index)
}

/// The place is `index` of `count` parts of the way.
pub open spec fn is_near_part(
    pixel: (i64, i64),
    from: (i64, i64),
    to: (i64, i64),
    reach: int,
    count: int,
    index: int,
) -> bool {
    let dx = pixel.0 * count - (from.0 * count + (to.0 - from.0) * index);
    let dy = pixel.1 * count - (from.1 * count + (to.1 - from.1) * index);
    0 <= index <= count && count > 0 && -(reach * count) <= dx <= reach * count && -(reach * count)
        <= dy <= reach * count
}

/// Every pixel of the rectangle that two pixels span is near the line.
spec fn hugs(
    a: (i64, i64),
    b: (i64, i64),
    from: (i64, i64),
    to: (i64, i64),
    reach: int,
) -> bool {
    forall|p: (i64, i64)|
        is_between(p.0, a.0, b.0) && is_between(p.1, a.1, b.1) ==> #[trigger] is_near_line(
            p,
            from,
            to,
            reach,
        )
}

spec fn is_between(p: i64, a: i64, b: i64) -> bool {
    a <= p <= b || b <= p <= a
}

proof fn lemma_piece_on_one_axis(
    p: i64,
    a: i64,
    b: i64,
    from: i64,
    to: i64,
    count: int,
    index: int,
    step: int,
)
    requires
        0 < count,
        0 < step,
        -(2 * count * step) <= to - from <= 2 * count * step,
        is_part_way(a, from, to, count, index),
        is_part_way(b, from, to, count, index + 1),
        is_between(p, a, b),
    ensures
        ({
            let reach = 2 * step + 2;
            let off = p * count - (from * count + (to - from) * index);
            -(reach * count) <= off <= reach * count
        }),
{
    let gap = to - from;
    let reach = 2 * step + 2;
    let place = from * count + gap * index;
    let (oa, ob) = (a * count - place, b * count - (from * count + gap * (index + 1)));
    assert(gap * (index + 1) == gap * index + gap) by (nonlinear_arith);
    let bc = b * count - place;
    assert(bc == ob + gap);
    assert(reach * count == 2 * count * step + 2 * count) by (nonlinear_arith)
        requires
            reach == 2 * step + 2,
    ;
    assert(-(reach * count) <= oa <= reach * count) by (nonlinear_arith)
        requires
            -(count * 0x1_0001) <= 2 * oa * 0x1_0000 <= count * 0x1_0001,
            reach >= 2,
            count > 0,
    ;
    assert(-(2 * count) <= ob <= 2 * count);
    assert(a * count <= p * count <= b * count || b * count <= p * count <= a * count)
        by (nonlinear_arith)
        requires
            a <= p <= b || b <= p <= a,
            count > 0,
    ;
}

proof fn lemma_piece_hugs_its_line(
    from: (i64, i64),
    to: (i64, i64),
    step_px: u32,
    index: int,
    a: (i64, i64),
)
    requires
        is_on_a_screen(from.0),
        is_on_a_screen(from.1),
        is_on_a_screen(to.0),
        is_on_a_screen(to.1),
        0 <= index < piece_count(from, to, step_px),
        a == if index == 0 {
            from
        } else {
            piece_end(from, to, piece_count(from, to, step_px), index)
        },
    ensures
        hugs(
            a,
            piece_end(from, to, piece_count(from, to, step_px), index + 1),
            from,
            to,
            2 * step_length(step_px) + 2,
        ),
{
    let count = piece_count(from, to, step_px);
    let step = step_length(step_px);
    let b = piece_end(from, to, count, index + 1);
    let reach = 2 * step + 2;
    lemma_pieces_are_short(from, to, step_px);
    lemma_stop_is_part_way(from.0, to.0, count, index + 1);
    lemma_stop_is_part_way(from.1, to.1, count, index + 1);
    if index > 0 {
        lemma_stop_is_part_way(from.0, to.0, count, index);
        lemma_stop_is_part_way(from.1, to.1, count, index);
    } else {
        assert((to.0 - from.0) * 0 == 0 && (to.1 - from.1) * 0 == 0);
    }
    assert forall|p: (i64, i64)|
        is_between(p.0, a.0, b.0) && is_between(p.1, a.1, b.1) implies #[trigger] is_near_line(
        p,
        from,
        to,
        reach,
    ) by {
        lemma_piece_on_one_axis(p.0, a.0, b.0, from.0, to.0, count, index, step);
        lemma_piece_on_one_axis(p.1, a.1, b.1, from.1, to.1, count, index, step);
        assert(is_near_part(p, from, to, reach, count, index));
    }
}

spec fn all_on_a_screen(points: Seq<(i64, i64)>) -> bool {
    forall|i: int|
        0 <= i < points.len() ==> is_on_a_screen((#[trigger] points[i]).0) && is_on_a_screen(
            points[i].1,
        )
}

/// Two stops that follow each other belong to one line.
spec fn is_of_a_line(
    points: Seq<(i64, i64)>,
    a: (i64, i64),
    b: (i64, i64),
    k: int,
    reach: int,
) -> bool {
    0 <= k < points.len() - 1 && hugs(a, b, points[k], points[k + 1], reach)
}

spec fn is_of_some_line(
    points: Seq<(i64, i64)>,
    a: (i64, i64),
    b: (i64, i64),
    reach: int,
) -> bool {
    exists|k: int| #[trigger] is_of_a_line(points, a, b, k, reach)
}

proof fn lemma_stops_hug_the_lines(points: Seq<(i64, i64)>, step_px: u32)
    requires
        points.len() > 0,
        all_on_a_screen(points),
    ensures
        forall|i: int, j: int|
            0 <= i && j == i + 1 && j < stops(points, step_px).len() ==> is_of_some_line(
                points,
                #[trigger] stops(points, step_px)[i],
                #[trigger] stops(points, step_px)[j],
                2 * step_length(step_px) + 2,
            ),
    decreases points.len(),
{
    let reach = 2 * step_length(step_px) + 2;
    let all = stops(points, step_px);
    if points.len() > 1 {
        let rest = points.drop_last();
        let before = stops(rest, step_px);
        let n = points.len() - 2;
        let (from, to) = (points[n], points[n + 1]);
        let count = piece_count(from, to, step_px);
        let line = line_stops(from, to, step_px);
        assert forall|i: int| 0 <= i < rest.len() implies is_on_a_screen((#[trigger] rest[i]).0)
            && is_on_a_screen(rest[i].1) by {
            assert(rest[i] == points[i]);
        }
        assert forall|i: int| 0 <= i < rest.len() implies is_exact(#[trigger] rest[i]) by {
            assert(is_on_a_screen(rest[i].0));
        }
        lemma_stops_hug_the_lines(rest, step_px);
        lemma_stops(rest, step_px);
        assert(before.last() == from);
        assert(is_on_a_screen(points[n].0) && is_on_a_screen(points[n + 1].0));
        assert forall|i: int, j: int| 0 <= i && j == i + 1 && j < all.len() implies is_of_some_line(
            points,
            #[trigger] all[i],
            #[trigger] all[j],
            reach,
        ) by {
            if j < before.len() {
                assert(all[i] == before[i] && all[j] == before[j]);
                assert(is_of_some_line(rest, before[i], before[j], reach));
                let k = choose|k: int| #[trigger] is_of_a_line(rest, before[i], before[j], k, reach);
                assert(rest[k] == points[k] && rest[k + 1] == points[k + 1]);
                assert(is_of_a_line(points, all[i], all[j], k, reach));
            } else {
                let index = j - before.len();
                assert(all[j] == line[index]);
                if index > 0 {
                    assert(all[i] == line[index - 1]);
                } else {
                    assert(all[i] == before.last());
                }
                lemma_piece_hugs_its_line(from, to, step_px, index, all[i]);
                assert(is_of_a_line(points, all[i], all[j], n, reach));
            }
        }
    }
}

/// The pixel is near one of the lines of a polyline.
pub open spec fn is_near_polyline(
    pixel: (i64, i64),
    points: Seq<(i64, i64)>,
    reach: int,
) -> bool {
    exists|k: int|
        0 <= k < points.len() - 1 && is_near_line(pixel, #[trigger] points[k], points[k + 1], reach)
}

proof fn lemma_links_stay_near(points: Seq<(i64, i64)>, all: Seq<(i64, i64)>, step: int, reach: int)
    requires
        step > 0,
        all.len() > 1,
        forall|i: int, j: int|
            0 <= i && j == i + 1 && j < all.len() ==> is_of_some_line(
                points,
                #[trigger] all[i],
                #[trigger] all[j],
                reach,
            ),
    ensures
        forall|n: int|
            0 <= n < linked(all, step).len() ==> is_near_polyline(
                #[trigger] linked(all, step)[n],
                points,
                reach,
            ),
    decreases all.len(),
{
    let way = linked(all, step);
    let rest = all.drop_last();
    let before = linked(rest, step);
    let m = all.len() - 2;
    let (a, b) = (all[m], all[m + 1]);
    let last = link(a, b, step);
    lemma_link(a, b, step);
    assert(is_of_some_line(points, all[m], all[m + 1], reach));
    let line = choose|k: int| #[trigger] is_of_a_line(points, a, b, k, reach);
    let (low, high) = (
        (if a.0 <= b.0 { a.0 } else { b.0 }, if a.1 <= b.1 { a.1 } else { b.1 }),
        (if a.0 <= b.0 { b.0 } else { a.0 }, if a.1 <= b.1 { b.1 } else { a.1 }),
    );
    assert(is_inside(a, low, high) && is_inside(b, low, high));
    assert(all_inside(last, low, high));
    if rest.len() > 1 {
        assert forall|i: int, j: int| 0 <= i && j == i + 1 && j < rest.len() implies is_of_some_line(
            points,
            #[trigger] rest[i],
            #[trigger] rest[j],
            reach,
        ) by {
            assert(rest[i] == all[i] && rest[j] == all[j]);
        }
        lemma_links_stay_near(points, rest, step, reach);
    } else {
        assert(before.len() == 1 && before[0] == a);
        assert(is_between(a.0, a.0, b.0) && is_between(a.1, a.1, b.1));
        assert(is_near_line(a, points[line], points[line + 1], reach));
    }
    assert forall|n: int| 0 <= n < way.len() implies is_near_polyline(
        #[trigger] way[n],
        points,
        reach,
    ) by {
        if n < before.len() {
            assert(way[n] == before[n]);
        } else {
            let p = last[n - before.len()];
            assert(way[n] == p);
            assert(is_inside(p, low, high));
            assert(is_between(p.0, a.0, b.0) && is_between(p.1, a.1, b.1));
            assert(is_near_line(p, points[line], points[line + 1], reach));
        }
    }
}

/// A path goes straight from point to point: each of its pixels lies, along
/// each axis, within two steps and two pixels of a line between two points
/// that follow each other.
pub proof fn lemma_path_goes_straight(points: Seq<(i64, i64)>, step_px: u32)
    requires
        points.len() > 1,
        all_inside(points, (0, 0), (0x400_0000, 0x400_0000)),
    ensures
        forall|n: int|
            0 <= n < path_points(points, step_px).len() ==> is_near_polyline(
                #[trigger] path_points(points, step_px)[n],
                points,
                2 * step_length(step_px) + 2,
            ),
{
    assert forall|i: int| 0 <= i < points.len() implies is_on_a_screen((#[trigger] points[i]).0)
        && is_on_a_screen(points[i].1) by {
        assert(is_inside(points[i], (0, 0), (0x400_0000, 0x400_0000)));
    }
    assert forall|i: int| 0 <= i < points.len() implies is_exact(#[trigger] points[i]) by {
        assert(is_on_a_screen(points[i].0));
    }
    lemma_stops_hug_the_lines(points, step_px);
    lemma_stops(points, step_px);
    lemma_links_stay_near(
        points,
        stops(points, step_px),
        step_length(step_px),
        2 * step_length(step_px) + 2,
    );
}

/// A line is not cut finer than asked: one piece less would still be no longer
/// than the way across and along, in whole steps.
pub proof fn lemma_lines_are_not_cut_too_fine(from: (i64, i64), to: (i64, i64), step_px: u32)
    requires
        is_inside(from, (0, 0), (0x200_0000, 0x200_0000)),
        is_inside(to, (0, 0), (0x200_0000, 0x200_0000)),
    ensures
        ({
            let across = if to.0 >= from.0 { to.0 - from.0 } else { from.0 - to.0 };
            let along = if to.1 >= from.1 { to.1 - from.1 } else { from.1 - to.1 };
            (piece_count(from, to, step_px) - 1) * step_length(step_px) <= across + along
        }),
{
    lemma_one_is_large();
    let w = one();
    let (gx, gy) = (to.0 - from.0, to.1 - from.1);
    lemma_integer_stays(gx);
    lemma_integer_stays(gy);
    let (ax, ay) = (
        if gx < 0 { -gx } else { gx },
        if gy < 0 { -gy } else { gy },
    );
    let size = ax + ay;
    let (xx, yy) = (gx * gx, gy * gy);
    assert((gx * w) * (gx * w) * 1 == xx * w * w && (gy * w) * (gy * w) * 1 == yy * w * w)
        by (nonlinear_arith)
        requires
            xx == gx * gx,
            yy == gy * gy,
    ;
    assert(0 <= xx <= 0x4_0000_0000_0000 && 0 <= yy <= 0x4_0000_0000_0000 && xx + yy <= size * size)
        by (nonlinear_arith)
        requires
            xx == gx * gx,
            yy == gy * gy,
            size == ax + ay,
            ax == gx || ax == -gx,
            ay == gy || ay == -gy,
            0 <= ax <= 0x200_0000,
            0 <= ay <= 0x200_0000,
    ;
    lemma_closest_equal((gx * w) * (gx * w), w, xx * w, 1);
    lemma_closest_equal((gy * w) * (gy * w), w, yy * w, 1);
    lemma_integer_stays(xx);
    lemma_integer_stays(yy);
    lemma_integer_stays(xx + yy);
    assert(xx * w + yy * w == (xx + yy) * w) by (nonlinear_arith);
    let length = distance(gx * w, gy * w);
    assert(length == near_root((xx + yy) * w));
    assert(0 <= (xx + yy) * w <= size * size * w) by (nonlinear_arith)
        requires
            0 <= xx + yy <= size * size,
            w > 0,
    ;
    lemma_root_is_monotone((xx + yy) * w, size * size * w);
    lemma_root_of_square(size);
    lemma_few_pieces(length, size, step_length(step_px), w);
}

proof fn lemma_few_pieces(length: int, size: int, step: int, w: int)
    requires
        w == one(),
        step > 0,
        0 <= size <= 0x400_0000,
        length <= size * w,
    ensures
        (within(ceiling(closest(length, step), w), 1, u32::MAX as int) - 1) * step <= size,
{
    lemma_one_is_large();
    let m = size / step;
    lemma_fundamental_div_mod(size, step);
    let rest = size % step;
    assert(0 <= m <= size && m * step <= size) by (nonlinear_arith)
        requires
            size == step * m + rest,
            0 <= rest < step,
            step > 0,
            size >= 0,
    ;
    lemma_integer_stays(m + 1);
    assert(length * 1 <= ((m + 1) * w) * step) by (nonlinear_arith)
        requires
            size == step * m + rest,
            rest < step,
            length <= size * w,
            w > 0,
    ;
    lemma_closest_is_monotone(length, step, (m + 1) * w, 1);
    let value = closest(length, step);
    lemma_fundamental_div_mod(value, w);
    let (q, left) = (value / w, value % w);
    assert(q < m + 1 || q == m + 1 && left == 0) by (nonlinear_arith)
        requires
            value == w * q + left,
            0 <= left < w,
            value <= (m + 1) * w,
            w > 0,
    ;
    let count = within(ceiling(value, w), 1, u32::MAX as int);
    assert(count <= m + 1);
    assert((count - 1) * step <= size) by (nonlinear_arith)
        requires
            count - 1 <= m,
            m * step <= size,
            step > 0,
    ;
}

} // verus!
