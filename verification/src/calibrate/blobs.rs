//! Connected areas of a mask.

use vstd::arithmetic::div_mod::{lemma_fundamental_div_mod, lemma_fundamental_div_mod_converse};
use vstd::arithmetic::mul::lemma_mul_is_commutative;
use vstd::prelude::*;
use vstd::set_lib::{lemma_int_range, lemma_len_subset, lemma_map_size, set_int_range};

verus! {

/// Largest width and height of a cursor.
pub const MAX_CURSOR_SIZE: u32 = 96;

/// Fewest pixels of a cursor.
pub const MIN_CURSOR_PIXELS: usize = 12;

/// How far apart, on each axis, two pixels of one area may lie, so that the
/// anti-aliased edges of a cursor stay connected to it.
pub const REACH: u32 = 2;

/// The bounding box of an area and the number of its pixels.
#[derive(Debug, Clone, Copy, PartialEq, Eq, Structural)]
pub struct Blob {
    pub min_x: u32,
    pub min_y: u32,
    pub max_x: u32,
    pub max_y: u32,
    pub pixels: usize,
}

impl Blob {
    /// The hotspot of an arrow cursor: its top-left corner.
    pub fn hotspot(&self) -> (corner: (u32, u32))
        ensures
            corner == (self.min_x, self.min_y),
    {
        (self.min_x, self.min_y)
    }

    pub open spec fn is_box(self) -> bool {
        0 <= self.max_x - self.min_x < u32::MAX && 0 <= self.max_y - self.min_y < u32::MAX
    }

    pub open spec fn box_width(self) -> int {
        self.max_x - self.min_x + 1
    }

    pub open spec fn box_height(self) -> int {
        self.max_y - self.min_y + 1
    }

    pub fn width(&self) -> (width: u32)
        requires
            self.is_box(),
        ensures
            width == self.box_width(),
    {
        self.max_x - self.min_x + 1
    }

    pub fn height(&self) -> (height: u32)
        requires
            self.is_box(),
        ensures
            height == self.box_height(),
    {
        self.max_y - self.min_y + 1
    }

    /// The area has the size of a cursor.
    pub open spec fn is_cursor_sized(self) -> bool {
        self.pixels >= MIN_CURSOR_PIXELS && self.box_width() <= MAX_CURSOR_SIZE && self.box_height()
            <= MAX_CURSOR_SIZE
    }
}

/// A mask of `width` columns, row by row.
#[verifier::ext_equal]
pub struct Mask {
    pub cells: Seq<bool>,
    pub width: int,
}

/// Column of the cell at index `i`.
pub open spec fn column(i: int, width: int) -> int {
    i % width
}

/// Row of the cell at index `i`.
pub open spec fn row(i: int, width: int) -> int {
    i / width
}

pub open spec fn within_reach(a: int, b: int) -> bool {
    -REACH <= a - b <= REACH
}

impl Mask {
    pub open spec fn is_set(self, i: int) -> bool {
        0 <= i < self.cells.len() && self.cells[i]
    }

    /// Two set cells close enough to belong together.
    pub open spec fn linked(self, i: int, j: int) -> bool {
        self.is_set(i) && self.is_set(j) && within_reach(
            column(i, self.width),
            column(j, self.width),
        ) && within_reach(row(i, self.width), row(j, self.width))
    }

    /// Set cells, each close to the one before it.
    pub open spec fn is_path(self, path: Seq<int>) -> bool {
        path.len() > 0 && self.is_set(path[0]) && forall|k: int|
            1 <= k < path.len() ==> self.linked(path[k - 1], #[trigger] path[k])
    }

    /// A path leads from one cell to the other.
    pub open spec fn connected(self, i: int, j: int) -> bool {
        exists|path: Seq<int>| #[trigger]
            self.is_path(path) && path.first() == i && path.last() == j
    }

    /// The cells that a cell is connected to.
    pub open spec fn area(self, start: int) -> Set<int> {
        Set::new(|i: int| self.connected(start, i))
    }

    /// The first cell of an area.
    pub open spec fn is_first(self, i: int) -> bool {
        self.is_set(i) && forall|j: int| 0 <= j < i ==> !self.connected(j, i)
    }
}

/// The blob is the bounding box of these cells and their number.
pub open spec fn outlines(blob: Blob, cells: Set<int>, width: int) -> bool {
    &&& cells.finite()
    &&& blob.pixels == cells.len()
    &&& forall|i: int| #[trigger]
        cells.contains(i) ==> blob.min_x <= column(i, width) <= blob.max_x && blob.min_y <= row(
            i,
            width,
        ) <= blob.max_y
    &&& exists|i: int| #[trigger] cells.contains(i) && column(i, width) == blob.min_x
    &&& exists|i: int| #[trigger] cells.contains(i) && column(i, width) == blob.max_x
    &&& exists|i: int| #[trigger] cells.contains(i) && row(i, width) == blob.min_y
    &&& exists|i: int| #[trigger] cells.contains(i) && row(i, width) == blob.max_y
}

impl Mask {
    /// The blob of the area that starts at a cell.
    pub open spec fn blob(self, start: int) -> Blob {
        choose|blob: Blob| outlines(blob, self.area(start), self.width)
    }

    /// Every area that starts before index `n` has an outline.
    pub open spec fn has_outlines(self, n: int) -> bool {
        forall|first: int|
            0 <= first < n && #[trigger] self.is_first(first) ==> outlines(
                self.blob(first),
                self.area(first),
                self.width,
            )
    }

    /// The blobs of the size of a cursor among the areas that start before
    /// index `n`, in the order in which they start.
    pub open spec fn blobs(self, n: nat) -> Seq<Blob>
        decreases n,
    {
        if n == 0 {
            Seq::empty()
        } else {
            let before = self.blobs((n - 1) as nat);
            if self.is_first(n - 1) && self.blob(n - 1).is_cursor_sized() {
                before.push(self.blob(n - 1))
            } else {
                before
            }
        }
    }
}

impl Mask {
    proof fn lemma_connected_to_itself(self, i: int)
        requires
            self.is_set(i),
        ensures
            self.connected(i, i),
    {
        assert(self.is_path(seq![i]));
    }

    proof fn lemma_connection_extends(self, i: int, j: int, k: int)
        requires
            self.connected(i, j),
            self.linked(j, k),
        ensures
            self.connected(i, k),
    {
        let path = choose|path: Seq<int>| #[trigger]
            self.is_path(path) && path.first() == i && path.last() == j;
        let longer = path.push(k);
        assert forall|m: int| 1 <= m < longer.len() implies self.linked(
            longer[m - 1],
            #[trigger] longer[m],
        ) by {
            if m < path.len() {
                assert(self.linked(path[m - 1], path[m]));
            }
        }
        assert(self.is_path(longer));
    }

    /// A cell that another is connected to is connected to it.
    pub proof fn lemma_connected_is_symmetric(self, i: int, j: int)
        requires
            self.connected(i, j),
        ensures
            self.connected(j, i),
    {
        let path = choose|path: Seq<int>| #[trigger]
            self.is_path(path) && path.first() == i && path.last() == j;
        let back = path.reverse();
        let n = path.len();
        if n > 1 {
            assert(self.linked(path[n - 2], path[n - 1]));
        }
        assert forall|m: int| 1 <= m < back.len() implies self.linked(
            back[m - 1],
            #[trigger] back[m],
        ) by {
            assert(self.linked(path[n - m - 1], path[n - m]));
        }
        assert(self.is_path(back));
    }

    /// Connections join up.
    pub proof fn lemma_connected_is_transitive(self, i: int, j: int, k: int)
        requires
            self.connected(i, j),
            self.connected(j, k),
        ensures
            self.connected(i, k),
    {
        let first = choose|path: Seq<int>| #[trigger]
            self.is_path(path) && path.first() == i && path.last() == j;
        let second = choose|path: Seq<int>| #[trigger]
            self.is_path(path) && path.first() == j && path.last() == k;
        let whole = first + second.skip(1);
        assert forall|m: int| 1 <= m < whole.len() implies self.linked(
            whole[m - 1],
            #[trigger] whole[m],
        ) by {
            if m < first.len() {
                assert(self.linked(first[m - 1], first[m]));
            } else {
                let at = m - first.len() + 1;
                assert(self.linked(second[at - 1], second[at]));
            }
        }
        assert(self.is_path(whole));
    }

    /// A set of cells that holds a cell and all that is close to what it
    /// holds, holds the area of that cell.
    proof fn lemma_closed_set_holds_area(self, start: int, cells: Set<int>)
        requires
            cells.contains(start),
            forall|i: int, j: int| cells.contains(i) && #[trigger] self.linked(i, j) ==> cells.contains(j),
        ensures
            self.area(start).subset_of(cells),
    {
        assert forall|i: int| self.connected(start, i) implies cells.contains(i) by {
            let path = choose|path: Seq<int>| #[trigger]
                self.is_path(path) && path.first() == start && path.last() == i;
            self.lemma_path_stays(path, cells, (path.len() - 1) as nat);
        }
    }

    proof fn lemma_path_stays(self, path: Seq<int>, cells: Set<int>, n: nat)
        requires
            self.is_path(path),
            n < path.len(),
            cells.contains(path[0]),
            forall|i: int, j: int| cells.contains(i) && #[trigger] self.linked(i, j) ==> cells.contains(j),
        ensures
            cells.contains(path[n as int]),
        decreases n,
    {
        if n > 0 {
            self.lemma_path_stays(path, cells, (n - 1) as nat);
            assert(self.linked(path[n - 1], path[n as int]));
        }
    }

    /// Only set cells are connected.
    proof fn lemma_connected_cells_are_set(self, i: int, j: int)
        requires
            self.connected(i, j),
        ensures
            self.is_set(i),
            self.is_set(j),
    {
        let path = choose|path: Seq<int>| #[trigger]
            self.is_path(path) && path.first() == i && path.last() == j;
        if path.len() > 1 {
            assert(self.linked(path[path.len() - 2], path[path.len() - 1]));
        }
    }
}

/// One outline at most fits a set of cells.
proof fn lemma_outline_is_unique(a: Blob, b: Blob, cells: Set<int>, width: int)
    requires
        outlines(a, cells, width),
        outlines(b, cells, width),
    ensures
        a == b,
{
}

proof fn lemma_cell_position(x: int, y: int, width: int)
    requires
        0 <= x < width,
    ensures
        column(y * width + x, width) == x,
        row(y * width + x, width) == y,
{
    lemma_fundamental_div_mod_converse(y * width + x, width, y, x);
}

proof fn lemma_cell_index(i: int, width: int, height: int)
    requires
        0 <= i < width * height,
        width > 0,
    ensures
        0 <= column(i, width) < width,
        0 <= row(i, width) < height,
        i == row(i, width) * width + column(i, width),
{
    lemma_fundamental_div_mod(i, width);
    lemma_mul_is_commutative(width, row(i, width));
    assert(0 <= row(i, width) < height) by (nonlinear_arith)
        requires
            0 <= i < width * height,
            width > 0,
            i == row(i, width) * width + column(i, width),
            0 <= column(i, width) < width,
    ;
}

proof fn lemma_cell_is_inside(x: int, y: int, width: int, height: int)
    requires
        0 <= x < width,
        0 <= y < height,
    ensures
        0 <= y * width + x < width * height,
        0 <= y * width,
{
    assert(y * width + width <= width * height) by (nonlinear_arith)
        requires
            0 <= y < height,
            0 < width,
    ;
    assert(0 <= y * width) by (nonlinear_arith)
        requires
            0 <= y,
            0 < width,
    ;
}

/// What reaching some cells does to the marks and to the stack: it marks
/// them, and puts on the stack those that were not marked, each once.
spec fn spreads(
    reached: Set<int>,
    marks: Seq<bool>,
    stack: Seq<usize>,
    marks_after: Seq<bool>,
    stack_after: Seq<usize>,
) -> bool {
    &&& marks_after.len() == marks.len()
    &&& forall|i: int|
        0 <= i < marks.len() ==> (#[trigger] marks_after[i] <==> marks[i] || reached.contains(i))
    &&& stack.len() <= stack_after.len()
    &&& forall|k: int| 0 <= k < stack.len() ==> #[trigger] stack_after[k] == stack[k]
    &&& forall|i: int, j: int|
        stack.len() <= i < stack_after.len() && 0 <= j < stack_after.len() && i != j ==>
            #[trigger] stack_after[i] != #[trigger] stack_after[j]
    &&& forall|k: int|
        stack.len() <= k < stack_after.len() ==> (#[trigger] stack_after[k]) < marks.len()
            && !marks[stack_after[k] as int] && reached.contains(stack_after[k] as int)
    &&& forall|i: int|
        0 <= i < marks.len() && !marks[i] && #[trigger] reached.contains(i)
            ==> stack_after.contains(i as usize)
}

/// The cells on a stack are marked.
spec fn are_marked(stack: Seq<usize>, marks: Seq<bool>) -> bool {
    forall|k: int|
        0 <= k < stack.len() ==> (#[trigger] stack[k]) < marks.len() && marks[stack[k] as int]
}

proof fn lemma_reach_one_more(
    reached: Set<int>,
    cell: usize,
    marks: Seq<bool>,
    stack: Seq<usize>,
    marks_before: Seq<bool>,
    stack_before: Seq<usize>,
)
    requires
        are_marked(stack, marks),
        spreads(reached, marks, stack, marks_before, stack_before),
        cell < marks.len(),
    ensures
        marks_before[cell as int] ==> spreads(
            reached.insert(cell as int),
            marks,
            stack,
            marks_before,
            stack_before,
        ),
        !marks_before[cell as int] ==> spreads(
            reached.insert(cell as int),
            marks,
            stack,
            marks_before.update(cell as int, true),
            stack_before.push(cell),
        ),
{
    let now = reached.insert(cell as int);
    if marks_before[cell as int] {
        assert forall|i: int|
            0 <= i < marks.len() && !marks[i] && #[trigger] now.contains(
                i,
            ) implies stack_before.contains(i as usize) by {
            assert(marks_before[i]);
            assert(reached.contains(i));
        }
    } else {
        let marks_after = marks_before.update(cell as int, true);
        let stack_after = stack_before.push(cell);
        assert forall|i: int|
            0 <= i < marks.len() && !marks[i] && #[trigger] now.contains(
                i,
            ) implies stack_after.contains(i as usize) by {
            if i == cell {
                assert(stack_after[stack_before.len() as int] == cell);
            } else {
                assert(reached.contains(i));
                assert(stack_before.contains(i as usize));
                let k = choose|k: int|
                    0 <= k < stack_before.len() && stack_before[k] == i as usize;
                assert(stack_after[k] == i as usize);
            }
        }
        assert forall|i: int, j: int|
            stack.len() <= i < stack_after.len() && 0 <= j < stack_after.len() && i
                != j implies #[trigger] stack_after[i] != #[trigger] stack_after[j] by {
            let last = stack_before.len() as int;
            let other = if i == last {
                j
            } else {
                i
            };
            if i == last || j == last {
                if other < stack.len() {
                    assert(stack_after[other] == stack[other]);
                    assert(marks[stack[other] as int]);
                    assert(marks_before[stack[other] as int]);
                } else {
                    assert(reached.contains(stack_before[other] as int));
                    assert(marks_before[stack_before[other] as int]);
                }
            }
        }
    }
}

impl Mask {
    /// The cells close to one cell that lie in earlier rows, or in this row
    /// and earlier columns.
    spec fn linked_before(self, index: int, x: int, y: int) -> Set<int> {
        Set::new(
            |i: int|
                self.linked(index, i) && (row(i, self.width) < y || (row(i, self.width) == y
                    && column(i, self.width) < x)),
        )
    }

    spec fn all_linked(self, index: int) -> Set<int> {
        Set::new(|i: int| self.linked(index, i))
    }
}

/// Marks the set cells close to one cell and puts those that were not marked
/// on the stack.
fn spread(
    mask: &[bool],
    width: u32,
    height: u32,
    index: usize,
    visited: &mut Vec<bool>,
    stack: &mut Vec<usize>,
)
    requires
        mask@.len() == width * height,
        index < mask@.len(),
        mask@[index as int],
        old(visited)@.len() == mask@.len(),
        are_marked(old(stack)@, old(visited)@),
    ensures
        spreads(
            (Mask { cells: mask@, width: width as int }).all_linked(index as int),
            old(visited)@,
            old(stack)@,
            final(visited)@,
            final(stack)@,
        ),
{
    let ghost grid = Mask { cells: mask@, width: width as int };
    let cells: usize = mask.len();
    let ghost marks = visited@;
    let ghost before = stack@;
    proof {
        assert(width > 0) by (nonlinear_arith)
            requires
                0 <= index < width * height,
        ;
        lemma_cell_index(index as int, width as int, height as int);
    }
    let x: u32 = (index % width as usize) as u32;
    let y: u32 = (index / width as usize) as u32;
    let x_low: u32 = if x < REACH {
        0
    } else {
        x - REACH
    };
    let y_low: u32 = if y < REACH {
        0
    } else {
        y - REACH
    };
    let x_high: u32 = if width - 1 - x < REACH {
        width - 1
    } else {
        x + REACH
    };
    let y_high: u32 = if height - 1 - y < REACH {
        height - 1
    } else {
        y + REACH
    };
    assert(x == column(index as int, width as int));
    assert(y == row(index as int, width as int));
    let mut ny: u32 = y_low;
    proof {
        assert forall|i: int| !grid.linked_before(index as int, 0, ny as int).contains(i) by {
            if grid.linked(index as int, i) {
                lemma_cell_index(i, width as int, height as int);
            }
        }
        assert(spreads(
            grid.linked_before(index as int, 0, ny as int),
            marks,
            before,
            visited@,
            stack@,
        ));
    }
    while ny <= y_high
        invariant
            grid == (Mask { cells: mask@, width: width as int }),
            mask@.len() == width * height == cells,
            index < mask@.len(),
            mask@[index as int],
            width > 0,
            x == column(index as int, width as int),
            y == row(index as int, width as int),
            marks.len() == mask@.len(),
            are_marked(before, marks),
            x_low == if x < REACH { 0 } else { x - REACH },
            x_high == if width - 1 - x < REACH { width - 1 } else { x + REACH },
            y_low == if y < REACH { 0 } else { y - REACH },
            y_high == if height - 1 - y < REACH { height - 1 } else { y + REACH },
            y_low <= ny <= y_high + 1,
            x < width,
            y < height,
            spreads(
                grid.linked_before(index as int, 0, ny as int),
                marks,
                before,
                visited@,
                stack@,
            ),
        decreases y_high + 1 - ny,
    {
        let mut nx: u32 = x_low;
        proof {
            assert(grid.linked_before(index as int, nx as int, ny as int) =~= grid.linked_before(
                index as int,
                0,
                ny as int,
            )) by {
                assert forall|i: int| grid.linked(index as int, i) implies column(i, width as int)
                    >= nx by {
                    lemma_cell_index(i, width as int, height as int);
                }
            }
        }
        while nx <= x_high
            invariant
                grid == (Mask { cells: mask@, width: width as int }),
                mask@.len() == width * height == cells,
                index < mask@.len(),
                mask@[index as int],
                width > 0,
                x == column(index as int, width as int),
                y == row(index as int, width as int),
                marks.len() == mask@.len(),
                are_marked(before, marks),
                x_low == if x < REACH { 0 } else { x - REACH },
                x_high == if width - 1 - x < REACH { width - 1 } else { x + REACH },
                y_low == if y < REACH { 0 } else { y - REACH },
                y_high == if height - 1 - y < REACH { height - 1 } else { y + REACH },
                y_low <= ny <= y_high,
                x_low <= nx <= x_high + 1,
                x < width,
                y < height,
                spreads(
                    grid.linked_before(index as int, nx as int, ny as int),
                    marks,
                    before,
                    visited@,
                    stack@,
                ),
            decreases x_high + 1 - nx,
        {
            proof {
                lemma_cell_is_inside(nx as int, ny as int, width as int, height as int);
                lemma_cell_position(nx as int, ny as int, width as int);
            }
            let neighbour: usize = ny as usize * width as usize + nx as usize;
            let ghost reached = grid.linked_before(index as int, nx as int, ny as int);
            let ghost reached_after = grid.linked_before(index as int, nx + 1, ny as int);
            proof {
                assert(grid.linked(index as int, neighbour as int) == mask@[neighbour as int]);
                assert forall|i: int|
                    reached_after.contains(i) <==> reached.contains(i) || (i == neighbour
                        && mask@[neighbour as int]) by {
                    if grid.linked(index as int, i) {
                        lemma_cell_index(i, width as int, height as int);
                    }
                }
                if mask@[neighbour as int] {
                    assert(reached_after =~= reached.insert(neighbour as int));
                    lemma_reach_one_more(reached, neighbour, marks, before, visited@, stack@);
                } else {
                    assert(reached_after =~= reached);
                }
            }
            if mask[neighbour] && !visited[neighbour] {
                visited.set(neighbour, true);
                stack.push(neighbour);
            }
            nx = nx + 1;
        }
        proof {
            assert(grid.linked_before(index as int, nx as int, ny as int) =~= grid.linked_before(
                index as int,
                0,
                ny + 1,
            )) by {
                assert forall|i: int| grid.linked(index as int, i) implies column(i, width as int)
                    < nx by {
                    lemma_cell_index(i, width as int, height as int);
                }
            }
        }
        ny = ny + 1;
    }
    proof {
        assert(grid.linked_before(index as int, 0, ny as int) =~= grid.all_linked(index as int)) by {
            assert forall|i: int| grid.linked(index as int, i) implies row(i, width as int)
                < ny by {
                lemma_cell_index(i, width as int, height as int);
            }
        }
    }
}

/// The box that no cell has been put in.
spec fn empty_blob() -> Blob {
    Blob { min_x: u32::MAX, min_y: u32::MAX, max_x: 0, max_y: 0, pixels: 0 }
}

spec fn outlines_or_empty(blob: Blob, cells: Set<int>, width: int) -> bool {
    if cells.len() == 0 {
        cells.finite() && blob == empty_blob()
    } else {
        outlines(blob, cells, width)
    }
}

/// The box around a box and one more pixel.
fn with_pixel(blob: Blob, x: u32, y: u32) -> (wider: Blob)
    requires
        blob.pixels < usize::MAX,
    ensures
        wider == (Blob {
            min_x: if x < blob.min_x { x } else { blob.min_x },
            min_y: if y < blob.min_y { y } else { blob.min_y },
            max_x: if x > blob.max_x { x } else { blob.max_x },
            max_y: if y > blob.max_y { y } else { blob.max_y },
            pixels: (blob.pixels + 1) as usize,
        }),
{
    Blob {
        min_x: if x < blob.min_x {
            x
        } else {
            blob.min_x
        },
        min_y: if y < blob.min_y {
            y
        } else {
            blob.min_y
        },
        max_x: if x > blob.max_x {
            x
        } else {
            blob.max_x
        },
        max_y: if y > blob.max_y {
            y
        } else {
            blob.max_y
        },
        pixels: blob.pixels + 1,
    }
}

proof fn lemma_outline_grows(blob: Blob, wider: Blob, cells: Set<int>, cell: int, width: int)
    requires
        outlines_or_empty(blob, cells, width),
        !cells.contains(cell),
        0 <= column(cell, width) < u32::MAX,
        0 <= row(cell, width) < u32::MAX,
        blob.pixels < usize::MAX,
        wider == (Blob {
            min_x: if column(cell, width) < blob.min_x { column(cell, width) as u32 } else { blob.min_x },
            min_y: if row(cell, width) < blob.min_y { row(cell, width) as u32 } else { blob.min_y },
            max_x: if column(cell, width) > blob.max_x { column(cell, width) as u32 } else { blob.max_x },
            max_y: if row(cell, width) > blob.max_y { row(cell, width) as u32 } else { blob.max_y },
            pixels: (blob.pixels + 1) as usize,
        }),
    ensures
        outlines(wider, cells.insert(cell), width),
{
    let more = cells.insert(cell);
    assert(more.contains(cell));
    if cells.len() == 0 {
        assert(cells =~= Set::empty());
        assert(wider.max_x == column(cell, width));
        assert(wider.max_y == row(cell, width));
        assert(more.len() == 1);
    } else {
        let a = choose|i: int| #[trigger] cells.contains(i) && column(i, width) == blob.min_x;
        let b = choose|i: int| #[trigger] cells.contains(i) && column(i, width) == blob.max_x;
        let c = choose|i: int| #[trigger] cells.contains(i) && row(i, width) == blob.min_y;
        let d = choose|i: int| #[trigger] cells.contains(i) && row(i, width) == blob.max_y;
        assert(more.contains(a) && more.contains(b) && more.contains(c) && more.contains(d));
    }
}

impl Mask {
    /// A cell of an area that starts before index `n`.
    spec fn seen(self, n: int, i: int) -> bool {
        exists|j: int| 0 <= j < n && #[trigger] self.connected(j, i)
    }

    /// The state of a fill: the cells done, those waiting on the stack, and
    /// the marks of both and of earlier areas.
    spec fn is_filling(
        self,
        start: int,
        done: Set<int>,
        stack: Seq<usize>,
        marks: Seq<bool>,
    ) -> bool {
        &&& marks.len() == self.cells.len()
        &&& done.finite()
        &&& forall|i: int| #[trigger]
            done.contains(i) ==> 0 <= i < marks.len() && self.connected(start, i)
        &&& forall|i: int, j: int|
            done.contains(i) && #[trigger] self.linked(i, j) ==> marks[j]
        &&& are_marked(stack, marks)
        &&& forall|k: int|
            0 <= k < stack.len() ==> self.connected(start, (#[trigger] stack[k]) as int)
                && !done.contains(stack[k] as int)
        &&& forall|i: int, j: int|
            0 <= i < j < stack.len() ==> #[trigger] stack[i] != #[trigger] stack[j]
        &&& forall|i: int|
            0 <= i < marks.len() ==> (#[trigger] marks[i] <==> self.seen(start, i) || done.contains(i)
                || stack.contains(i as usize))
        &&& marks[start]
    }

    proof fn lemma_fill_step(
        self,
        start: int,
        done: Set<int>,
        stack: Seq<usize>,
        marks: Seq<bool>,
        stack_after: Seq<usize>,
        marks_after: Seq<bool>,
    )
        requires
            self.cells.len() <= usize::MAX,
            0 <= start < self.cells.len(),
            self.is_filling(start, done, stack, marks),
            stack.len() > 0,
            spreads(
                self.all_linked(stack.last() as int),
                marks,
                stack.drop_last(),
                marks_after,
                stack_after,
            ),
        ensures
            self.is_filling(start, done.insert(stack.last() as int), stack_after, marks_after),
    {
        let index = stack.last() as int;
        let rest = stack.drop_last();
        let now = done.insert(index);
        assert(self.connected(start, stack[stack.len() - 1] as int));
        self.lemma_connected_cells_are_set(start, index);
        assert forall|k: int| 0 <= k < stack_after.len() implies self.connected(
            start,
            (#[trigger] stack_after[k]) as int,
        ) && !now.contains(stack_after[k] as int) by {
            if k < rest.len() {
                assert(stack_after[k] == stack[k]);
                assert(stack[k] != stack[stack.len() - 1]);
            } else {
                let cell = stack_after[k] as int;
                assert(self.linked(index, cell));
                self.lemma_connection_extends(start, index, cell);
                assert(!marks[cell]);
                assert(marks[stack[stack.len() - 1] as int]);
            }
        }
        assert forall|k: int| 0 <= k < stack_after.len() implies (#[trigger] stack_after[k])
            < marks_after.len() && marks_after[stack_after[k] as int] by {
            if k < rest.len() {
                assert(stack_after[k] == stack[k]);
                assert(marks[stack[k] as int]);
            } else {
                assert(marks_after[stack_after[k] as int]);
            }
        }
        assert forall|i: int, j: int| 0 <= i < j < stack_after.len() implies #[trigger] stack_after[i]
            != #[trigger] stack_after[j] by {
            if j < rest.len() {
                assert(stack_after[i] == stack[i]);
                assert(stack_after[j] == stack[j]);
            }
        }
        assert forall|i: int, j: int| now.contains(i) && #[trigger] self.linked(
            i,
            j,
        ) implies marks_after[j] by {
            if i != index {
                assert(marks[j]);
            } else {
                assert(self.all_linked(index).contains(j));
            }
        }
        assert forall|i: int| 0 <= i < marks.len() implies (#[trigger] marks_after[i] <==> self.seen(
            start,
            i,
        ) || now.contains(i) || stack_after.contains(i as usize)) by {
            if marks_after[i] {
                if marks[i] {
                    if stack.contains(i as usize) && i != index {
                        let k = choose|k: int| 0 <= k < stack.len() && stack[k] == i as usize;
                        assert(stack_after[k] == rest[k]);
                        assert(stack_after.contains(i as usize));
                    }
                } else {
                    assert(self.all_linked(index).contains(i));
                    assert(stack_after.contains(i as usize));
                }
            } else if stack_after.contains(i as usize) {
                let k = choose|k: int| 0 <= k < stack_after.len() && stack_after[k] == i as usize;
                assert(marks_after[stack_after[k] as int]);
            } else if now.contains(i) {
                if i == index {
                    assert(marks[stack[stack.len() - 1] as int]);
                }
                assert(marks[i]);
            } else {
                assert(!marks[i]);
            }
        }
    }

    proof fn lemma_fill_done(self, start: int, done: Set<int>, marks: Seq<bool>)
        requires
            self.cells.len() <= usize::MAX,
            0 <= start < self.cells.len(),
            self.is_set(start),
            !self.seen(start, start),
            self.is_filling(start, done, Seq::empty(), marks),
        ensures
            done == self.area(start),
            forall|i: int| 0 <= i < marks.len() ==> (#[trigger] marks[i] <==> self.seen(start + 1, i)),
    {
        assert forall|i: int, j: int| done.contains(i) && #[trigger] self.linked(
            i,
            j,
        ) implies done.contains(j) by {
            assert(marks[j]);
            if self.seen(start, j) {
                let k = choose|k: int| 0 <= k < start && #[trigger] self.connected(k, j);
                assert(self.linked(j, i));
                self.lemma_connection_extends(k, j, i);
                self.lemma_connected_is_symmetric(start, i);
                self.lemma_connected_is_transitive(k, i, start);
                assert(self.seen(start, start));
            }
        }
        assert(done.contains(start));
        self.lemma_closed_set_holds_area(start, done);
        assert(done =~= self.area(start));
        assert forall|i: int| 0 <= i < marks.len() implies (#[trigger] marks[i] <==> self.seen(
            start + 1,
            i,
        )) by {
            if marks[i] {
                if self.seen(start, i) {
                    let k = choose|k: int| 0 <= k < start && #[trigger] self.connected(k, i);
                    assert(0 <= k < start + 1 && self.connected(k, i));
                } else {
                    assert(self.connected(start, i));
                }
            } else if self.seen(start + 1, i) {
                let k = choose|k: int| 0 <= k < start + 1 && #[trigger] self.connected(k, i);
                if k < start {
                    assert(self.seen(start, i));
                } else {
                    assert(self.area(start).contains(i));
                }
            }
        }
    }
}

/// Marks the area that starts at a cell and gives its outline.
fn fill(mask: &[bool], width: u32, height: u32, start: usize, visited: &mut Vec<bool>) -> (blob:
    Blob)
    requires
        mask@.len() == width * height,
        start < mask@.len(),
        mask@[start as int],
        old(visited)@.len() == mask@.len(),
        !old(visited)@[start as int],
        forall|i: int|
            0 <= i < mask@.len() ==> (#[trigger] old(visited)@[i] <==> (Mask {
                cells: mask@,
                width: width as int,
            }).seen(start as int, i)),
    ensures
        final(visited)@.len() == mask@.len(),
        forall|i: int|
            0 <= i < mask@.len() ==> (#[trigger] final(visited)@[i] <==> (Mask {
                cells: mask@,
                width: width as int,
            }).seen(start + 1, i)),
        outlines(
            blob,
            (Mask { cells: mask@, width: width as int }).area(start as int),
            width as int,
        ),
{
    let ghost grid = Mask { cells: mask@, width: width as int };
    let cells: usize = mask.len();
    let ghost mut done: Set<int> = Set::empty();
    let mut blob = Blob { min_x: u32::MAX, min_y: u32::MAX, max_x: 0, max_y: 0, pixels: 0 };
    let mut stack: Vec<usize> = Vec::new();
    visited.set(start, true);
    stack.push(start);
    proof {
        grid.lemma_connected_to_itself(start as int);
        assert(stack@ =~= seq![start]);
        assert(stack@[0] == start);
        assert forall|i: int| 0 <= i < visited@.len() implies (#[trigger] visited@[i] <==> grid.seen(
            start as int,
            i,
        ) || done.contains(i) || stack@.contains(i as usize)) by {
            assert(old(visited)@[i] <==> grid.seen(start as int, i));
            if stack@.contains(i as usize) {
                assert(i == start);
            }
        }
        assert(!old(visited)@[start as int]);
    }
    while stack.len() > 0
        invariant
            grid == (Mask { cells: mask@, width: width as int }),
            mask@.len() == width * height == cells,
            start < mask@.len(),
            mask@[start as int],
            grid.is_filling(start as int, done, stack@, visited@),
            outlines_or_empty(blob, done, width as int),
            !grid.seen(start as int, start as int),
            done.subset_of(set_int_range(0, cells as int)),
            blob.pixels == done.len(),
            done.len() > 0 || stack.len() > 0,
        decreases cells - done.len(),
    {
        let ghost before = stack@;
        let ghost marks = visited@;
        match stack.pop() {
            Some(index) => {
                proof {
                    assert(index == before[before.len() - 1]);
                    assert(stack@ =~= before.drop_last());
                    assert(grid.connected(start as int, before[before.len() - 1] as int));
                    grid.lemma_connected_cells_are_set(start as int, index as int);
                    assert(width > 0) by (nonlinear_arith)
                        requires
                            0 <= index < width * height,
                    ;
                    lemma_cell_index(index as int, width as int, height as int);
                    lemma_int_range(0, cells as int);
                    let now = done.insert(index as int);
                    assert(now.subset_of(set_int_range(0, cells as int)));
                    lemma_len_subset(now, set_int_range(0, cells as int));
                    assert(are_marked(stack@, visited@));
                }
                let x: u32 = (index % width as usize) as u32;
                let y: u32 = (index / width as usize) as u32;
                let ghost narrower = blob;
                blob = with_pixel(blob, x, y);
                proof {
                    lemma_outline_grows(narrower, blob, done, index as int, width as int);
                }
                spread(mask, width, height, index, visited, &mut stack);
                proof {
                    grid.lemma_fill_step(start as int, done, before, marks, stack@, visited@);
                    done = done.insert(index as int);
                }
            },
            None => {},
        }
    }
    proof {
        assert(stack@ =~= Seq::empty());
        grid.lemma_fill_done(start as int, done, visited@);
    }
    blob
}

/// The areas of a mask that have the size of a cursor, in the order in which
/// they start, row by row.
pub fn blobs_from_mask(mask: &[bool], width: u32, height: u32) -> (blobs: Vec<Blob>)
    requires
        mask@.len() == width * height,
    ensures
        blobs@ == (Mask { cells: mask@, width: width as int }).blobs(mask@.len()),
        (Mask { cells: mask@, width: width as int }).has_outlines(mask@.len() as int),
{
    let ghost grid = Mask { cells: mask@, width: width as int };
    let cells: usize = mask.len();
    let mut blobs: Vec<Blob> = Vec::new();
    let mut visited: Vec<bool> = Vec::new();
    visited.resize(cells, false);
    let mut start: usize = 0;
    while start < cells
        invariant
            grid == (Mask { cells: mask@, width: width as int }),
            mask@.len() == width * height == cells,
            start <= cells,
            visited@.len() == cells,
            forall|i: int|
                0 <= i < cells ==> (#[trigger] visited@[i] <==> grid.seen(start as int, i)),
            blobs@ == grid.blobs(start as nat),
            grid.has_outlines(start as int),
        decreases cells - start,
    {
        let ghost before = visited@;
        if mask[start] && !visited[start] {
            let blob = fill(mask, width, height, start, &mut visited);
            proof {
                assert(!grid.seen(start as int, start as int));
                assert(grid.is_first(start as int));
                grid.lemma_outline(start as int, blob, height as int);
            }
            if blob.pixels >= MIN_CURSOR_PIXELS && blob.width() <= MAX_CURSOR_SIZE && blob.height()
                <= MAX_CURSOR_SIZE {
                blobs.push(blob);
            }
        } else {
            proof {
                assert forall|i: int| 0 <= i < cells implies (#[trigger] visited@[i]
                    <==> grid.seen(start + 1, i)) by {
                    grid.lemma_seen_without_start(start as int, i);
                }
                assert(!grid.is_first(start as int)) by {
                    if grid.is_set(start as int) {
                        assert(visited@[start as int]);
                        assert(grid.seen(start as int, start as int));
                    }
                }
            }
        }
        start = start + 1;
    }
    blobs
}

impl Mask {
    proof fn lemma_outline(self, start: int, blob: Blob, height: int)
        requires
            outlines(blob, self.area(start), self.width),
            self.cells.len() == self.width * height,
            0 <= self.width <= u32::MAX,
            0 <= height <= u32::MAX,
        ensures
            blob == self.blob(start),
            blob.is_box(),
    {
        lemma_outline_is_unique(blob, self.blob(start), self.area(start), self.width);
        let width = self.width;
        let a = choose|i: int| #[trigger]
            self.area(start).contains(i) && column(i, width) == blob.max_x;
        let b = choose|i: int| #[trigger]
            self.area(start).contains(i) && row(i, width) == blob.max_y;
        self.lemma_connected_cells_are_set(start, a);
        self.lemma_connected_cells_are_set(start, b);
        assert(width > 0) by (nonlinear_arith)
            requires
                0 <= a < width * height,
                0 <= width,
        ;
        lemma_cell_index(a, width, height);
        lemma_cell_index(b, width, height);
    }

    /// A cell that is not set, or that an earlier area holds, starts no area.
    proof fn lemma_seen_without_start(self, start: int, i: int)
        requires
            !self.is_set(start) || self.seen(start, start),
            0 <= start,
        ensures
            self.seen(start + 1, i) <==> self.seen(start, i),
    {
        if self.seen(start + 1, i) {
            let k = choose|k: int| 0 <= k < start + 1 && #[trigger] self.connected(k, i);
            if k == start {
                self.lemma_connected_cells_are_set(start, i);
                let j = choose|j: int| 0 <= j < start && #[trigger] self.connected(j, start);
                self.lemma_connected_is_transitive(j, start, i);
            }
        }
        if self.seen(start, i) {
            let k = choose|k: int| 0 <= k < start && #[trigger] self.connected(k, i);
            assert(0 <= k < start + 1 && self.connected(k, i));
        }
    }

    /// The areas that start at first cells cover the set cells and nothing
    /// else, and no two of them share a cell.
    pub proof fn lemma_areas_partition_the_mask(self, i: int)
        ensures
            self.is_set(i) <==> exists|first: int|
                self.is_first(first) && #[trigger] self.area(first).contains(i),
            forall|a: int, b: int|
                self.is_first(a) && self.is_first(b) && #[trigger] self.area(a).contains(i)
                    && #[trigger] self.area(b).contains(i) ==> a == b,
    {
        if self.is_set(i) {
            self.lemma_connected_to_itself(i);
            self.lemma_first_of_area(i, i);
            let first = choose|first: int| self.is_first(first) && self.connected(first, i);
            assert(self.area(first).contains(i));
        }
        assert forall|first: int| self.is_first(first) && #[trigger] self.area(first).contains(
            i,
        ) implies self.is_set(i) by {
            self.lemma_connected_cells_are_set(first, i);
        }
        assert forall|a: int, b: int|
            self.is_first(a) && self.is_first(b) && #[trigger] self.area(a).contains(i)
                && #[trigger] self.area(b).contains(i) implies a == b by {
            self.lemma_connected_is_symmetric(b, i);
            self.lemma_connected_is_transitive(a, i, b);
            self.lemma_connected_is_symmetric(a, b);
        }
    }

    proof fn lemma_first_of_area(self, cell: int, i: int)
        requires
            self.connected(cell, i),
        ensures
            exists|first: int| self.is_first(first) && self.connected(first, i),
        decreases cell,
    {
        self.lemma_connected_cells_are_set(cell, i);
        if !self.is_first(cell) {
            let j = choose|j: int| 0 <= j < cell && self.connected(j, cell);
            self.lemma_connected_is_transitive(j, cell, i);
            self.lemma_first_of_area(j, i);
        }
    }

    /// Every blob that is found is the outline of an area and has the size of
    /// a cursor, and every area of that size is found.
    pub proof fn lemma_blobs_are_the_cursor_sized_areas(self, n: nat, blob: Blob)
        ensures
            self.blobs(n).contains(blob) <==> exists|first: int|
                0 <= first < n && #[trigger] self.is_first(first) && blob == self.blob(first)
                    && blob.is_cursor_sized(),
        decreases n,
    {
        if n > 0 {
            let before = self.blobs((n - 1) as nat);
            self.lemma_blobs_are_the_cursor_sized_areas((n - 1) as nat, blob);
            let now = self.blobs(n);
            if self.is_first(n - 1) && self.blob(n - 1).is_cursor_sized() {
                assert(now[before.len() as int] == self.blob(n - 1));
                if before.contains(blob) {
                    let k = choose|k: int| 0 <= k < before.len() && before[k] == blob;
                    assert(now[k] == blob);
                }
                if now.contains(blob) && blob != self.blob(n - 1) {
                    let k = choose|k: int| 0 <= k < now.len() && now[k] == blob;
                    assert(before[k] == blob);
                }
            }
        }
    }
}

/// The cell lies in a rectangle of a grid of this width.
pub open spec fn in_rectangle(i: int, width: int, left: int, top: int, wide: int, high: int) -> bool {
    left <= column(i, width) < left + wide && top <= row(i, width) < top + high
}

impl Mask {
    /// Exactly the cells of a rectangle are set.
    pub open spec fn is_rectangle(
        self,
        height: int,
        left: int,
        top: int,
        wide: int,
        high: int,
    ) -> bool {
        &&& self.cells.len() == self.width * height
        &&& 0 <= left && 0 < wide && left + wide <= self.width <= u32::MAX
        &&& 0 <= top && 0 < high && top + high <= height <= u32::MAX
        &&& forall|i: int|
            0 <= i < self.cells.len() ==> (#[trigger] self.cells[i] <==> in_rectangle(
                i,
                self.width,
                left,
                top,
                wide,
                high,
            ))
    }

    proof fn lemma_rectangle_cell(
        self,
        height: int,
        left: int,
        top: int,
        wide: int,
        high: int,
        x: int,
        y: int,
    )
        requires
            self.is_rectangle(height, left, top, wide, high),
            left <= x < left + wide,
            top <= y < top + high,
        ensures
            self.is_set(y * self.width + x),
            column(y * self.width + x, self.width) == x,
            row(y * self.width + x, self.width) == y,
    {
        lemma_cell_position(x, y, self.width);
        lemma_cell_is_inside(x, y, self.width, height);
    }

    proof fn lemma_rectangle_is_connected(
        self,
        height: int,
        left: int,
        top: int,
        wide: int,
        high: int,
        x: int,
        y: int,
    )
        requires
            self.is_rectangle(height, left, top, wide, high),
            left <= x < left + wide,
            top <= y < top + high,
        ensures
            self.connected(top * self.width + left, y * self.width + x),
        decreases (x - left) + (y - top),
    {
        self.lemma_rectangle_cell(height, left, top, wide, high, x, y);
        if x > left {
            self.lemma_rectangle_is_connected(height, left, top, wide, high, x - 1, y);
            self.lemma_rectangle_cell(height, left, top, wide, high, x - 1, y);
            self.lemma_connection_extends(
                top * self.width + left,
                y * self.width + (x - 1),
                y * self.width + x,
            );
        } else if y > top {
            self.lemma_rectangle_is_connected(height, left, top, wide, high, x, y - 1);
            self.lemma_rectangle_cell(height, left, top, wide, high, x, y - 1);
            self.lemma_connection_extends(
                top * self.width + left,
                (y - 1) * self.width + x,
                y * self.width + x,
            );
        } else {
            self.lemma_connected_to_itself(y * self.width + x);
        }
    }

    /// The area of the top-left cell of a rectangle is the rectangle.
    proof fn lemma_rectangle_area(self, height: int, left: int, top: int, wide: int, high: int)
        requires
            self.is_rectangle(height, left, top, wide, high),
        ensures
            forall|i: int| #[trigger]
                self.area(top * self.width + left).contains(i) <==> self.is_set(i),
            self.area(top * self.width + left).finite(),
            self.area(top * self.width + left).len() == wide * high,
    {
        let width = self.width;
        let start = top * width + left;
        let area = self.area(start);
        assert forall|i: int| #[trigger] area.contains(i) <==> self.is_set(i) by {
            if area.contains(i) {
                self.lemma_connected_cells_are_set(start, i);
            }
            if self.is_set(i) {
                lemma_cell_index(i, width, height);
                self.lemma_rectangle_is_connected(
                    height,
                    left,
                    top,
                    wide,
                    high,
                    column(i, width),
                    row(i, width),
                );
            }
        }
        let range = set_int_range(0, wide * high);
        assert(0 <= wide * high) by (nonlinear_arith)
            requires
                0 < wide,
                0 < high,
        ;
        lemma_int_range(0, wide * high);
        let place = |k: int| (top + k / wide) * width + (left + k % wide);
        assert forall|k: int| range.contains(k) implies {
            &&& 0 <= k % wide < wide
            &&& 0 <= k / wide < high
            &&& #[trigger] area.contains(place(k))
            &&& column(place(k), width) == left + k % wide
            &&& row(place(k), width) == top + k / wide
        } by {
            lemma_cell_index(k, wide, high);
            self.lemma_rectangle_cell(
                height,
                left,
                top,
                wide,
                high,
                left + k % wide,
                top + k / wide,
            );
        }
        assert forall|a: int, b: int|
            range.contains(a) && range.contains(b) && #[trigger] place(a) == #[trigger] place(
                b,
            ) implies a == b by {
            assert(area.contains(place(a)) && area.contains(place(b)));
            lemma_cell_index(a, wide, high);
            lemma_cell_index(b, wide, high);
        }
        let image = range.map(place);
        assert forall|i: int| #[trigger] area.contains(i) implies image.contains(i) by {
            lemma_cell_index(i, width, height);
            let k = (row(i, width) - top) * wide + (column(i, width) - left);
            lemma_cell_position(column(i, width) - left, row(i, width) - top, wide);
            lemma_cell_is_inside(column(i, width) - left, row(i, width) - top, wide, high);
            assert(range.contains(k));
            assert(place(k) == i);
        }
        assert forall|i: int| #[trigger] image.contains(i) implies area.contains(i) by {
            let k = choose|k: int| range.contains(k) && place(k) == i;
            assert(area.contains(place(k)));
        }
        assert(image =~= area);
        lemma_map_size(range, image, place);
    }

    /// A solid rectangle of the size of a cursor is the one blob of its mask,
    /// and its own outline.
    pub proof fn lemma_solid_rectangle_is_one_blob(
        self,
        height: int,
        left: int,
        top: int,
        wide: int,
        high: int,
    )
        requires
            self.is_rectangle(height, left, top, wide, high),
            wide * high >= MIN_CURSOR_PIXELS,
            wide <= MAX_CURSOR_SIZE,
            high <= MAX_CURSOR_SIZE,
        ensures
            self.blobs(self.cells.len()) == seq![
                Blob {
                    min_x: left as u32,
                    min_y: top as u32,
                    max_x: (left + wide - 1) as u32,
                    max_y: (top + high - 1) as u32,
                    pixels: (wide * high) as usize,
                },
            ],
    {
        let width = self.width;
        let start = top * width + left;
        let last = (top + high - 1) * width + (left + wide - 1);
        let area = self.area(start);
        assert(wide * high <= 96 * 96) by (nonlinear_arith)
            requires
                0 < wide <= 96,
                0 < high <= 96,
        ;
        let blob = Blob {
            min_x: left as u32,
            min_y: top as u32,
            max_x: (left + wide - 1) as u32,
            max_y: (top + high - 1) as u32,
            pixels: (wide * high) as usize,
        };
        self.lemma_rectangle_area(height, left, top, wide, high);
        self.lemma_rectangle_cell(height, left, top, wide, high, left, top);
        self.lemma_rectangle_cell(
            height,
            left,
            top,
            wide,
            high,
            left + wide - 1,
            top + high - 1,
        );
        assert(area.contains(start) && area.contains(last));
        assert(outlines(blob, area, width)) by {
            assert forall|i: int| #[trigger] area.contains(i) implies blob.min_x <= column(i, width)
                <= blob.max_x && blob.min_y <= row(i, width) <= blob.max_y by {
                assert(self.is_set(i));
            }
        }
        lemma_outline_is_unique(blob, self.blob(start), area, width);
        assert forall|i: int| #[trigger] self.is_first(i) <==> i == start by {
            if self.is_set(i) && i != start {
                lemma_cell_index(i, width, height);
                assert(start < i) by (nonlinear_arith)
                    requires
                        i == row(i, width) * width + column(i, width),
                        start == top * width + left,
                        row(i, width) >= top,
                        column(i, width) >= left,
                        width > 0,
                        i != start,
                        row(i, width) > top ==> column(i, width) < width,
                        left < width,
                ;
                assert(area.contains(i));
                assert(self.connected(start, i));
            }
            if i == start {
                assert forall|j: int| 0 <= j < start implies !self.connected(j, start) by {
                    if self.connected(j, start) {
                        self.lemma_connected_cells_are_set(j, start);
                        lemma_cell_index(j, width, height);
                        assert(j >= start) by (nonlinear_arith)
                            requires
                                j == row(j, width) * width + column(j, width),
                                start == top * width + left,
                                row(j, width) >= top,
                                column(j, width) >= left,
                                width > 0,
                        ;
                    }
                }
            }
        }
        self.lemma_one_blob(self.cells.len(), start, blob);
    }

    proof fn lemma_one_blob(self, n: nat, start: int, blob: Blob)
        requires
            forall|i: int| #[trigger] self.is_first(i) <==> i == start,
            self.blob(start) == blob,
            blob.is_cursor_sized(),
            start >= 0,
        ensures
            self.blobs(n) == if n > start {
                seq![blob]
            } else {
                Seq::<Blob>::empty()
            },
        decreases n,
    {
        if n > 0 {
            self.lemma_one_blob((n - 1) as nat, start, blob);
            assert(self.is_first(n - 1) <==> n - 1 == start);
            if n - 1 == start {
                assert(Seq::<Blob>::empty().push(blob) =~= seq![blob]);
            }
        }
    }
}

impl Mask {
    /// Set cells at most two columns and two rows apart belong to one area.
    pub proof fn lemma_close_cells_belong_together(self, i: int, j: int)
        requires
            self.is_set(i),
            self.is_set(j),
            -2 <= i % self.width - j % self.width <= 2,
            -2 <= i / self.width - j / self.width <= 2,
        ensures
            self.area(i).contains(j),
    {
        self.lemma_connected_to_itself(i);
        self.lemma_connection_extends(i, i, j);
    }

    /// A set cell more than two columns or rows away from every other is an
    /// area of its own.
    pub proof fn lemma_lonely_cells_stay_alone(self, i: int, j: int)
        requires
            self.is_set(i),
            forall|k: int|
                k != i && #[trigger] self.is_set(k) ==> !(-2 <= i % self.width - k % self.width <= 2
                    && -2 <= i / self.width - k / self.width <= 2),
        ensures
            self.area(i).contains(j) <==> j == i,
    {
        self.lemma_connected_to_itself(i);
        if self.connected(i, j) && j != i {
            let path = choose|path: Seq<int>| #[trigger]
                self.is_path(path) && path.first() == i && path.last() == j;
            self.lemma_lonely_path(path, i, path.len() - 1);
        }
    }

    proof fn lemma_lonely_path(self, path: Seq<int>, i: int, n: int)
        requires
            self.is_path(path),
            path.first() == i,
            0 <= n < path.len(),
            forall|k: int|
                k != i && #[trigger] self.is_set(k) ==> !(-2 <= i % self.width - k % self.width <= 2
                    && -2 <= i / self.width - k / self.width <= 2),
        ensures
            path[n] == i,
        decreases n,
    {
        if n > 0 {
            self.lemma_lonely_path(path, i, n - 1);
            assert(self.linked(path[n - 1], path[n]));
            assert(self.is_set(path[n]));
        }
    }
}

/// An area has the size of a cursor from twelve pixels on, where its outline is
/// at most 96 pixels wide and high.
pub proof fn lemma_cursor_sizes(blob: Blob)
    ensures
        blob.is_cursor_sized() <==> blob.pixels >= 12 && blob.max_x - blob.min_x < 96 && blob.max_y
            - blob.min_y < 96,
{
}

} // verus!
