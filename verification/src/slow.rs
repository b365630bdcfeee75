//! A backtracking search that enumerates closed curves of a desired enclosed
//! area, drawing the curve directly out of quarter-circle arc segments.
//!
//! Every cell can hold either of two arc segments for each direction of
//! travel, so the search usually branches six ways at each step and takes far
//! longer than the diagonal-slant variant.  Caller-supplied bounds on the
//! curve length and on the number of cells away from the outer rim of the
//! grid can prune the search, at the caller's own risk.

use vstd::prelude::*;

verus! {

/// A cell in the grid.
///
/// The non-empty cells have quarter-circle arcs drawn in them, and are
/// denoted by the corner of the cell which contains the quarter-circle
/// segment.  As a boundary of the curve, an arc joins the same two grid-line
/// vertices as the diagonal of its cell: the left-corner arcs run along the
/// forward diagonal, the right-corner arcs along the backward diagonal.
#[derive(Copy, Clone, Debug, PartialEq, Eq, Structural)]
pub enum Cell {
    Empty,
    TopLeft,
    TopRight,
    BottomLeft,
    BottomRight,
}

/// Representation of an area enclosed by a closed curve in the grid.
#[derive(Copy, Clone, Debug, PartialEq, Eq, Structural)]
pub struct Area {
    /// The number of full units.
    pub units: u8,
    /// The number of `1 - pi/4` sized parts (a full unit less a quarter
    /// circle).
    pub small: u8,
    /// The number of `pi/4` sized parts (a quarter circle).
    pub large: u8,
}

impl Area {
    /// The canonical form of this area: each small part paired with a large
    /// part adds up to one whole unit, so the pairs collapse and at most one
    /// of the two part counts stays positive.
    pub open spec fn spec_simplify(&self) -> Area {
        let m = if self.small <= self.large {
            self.small
        } else {
            self.large
        };
        Area {
            units: (self.units + m) as u8,
            small: (self.small - m) as u8,
            large: (self.large - m) as u8,
        }
    }

    /// Simplify the `Area` representation by treating pairs of small and
    /// large parts as full units.
    #[verifier::when_used_as_spec(spec_simplify)]
    pub fn simplify(&self) -> (r: Area)
        requires
            self.units + self.small <= u8::MAX || self.units + self.large <= u8::MAX,
        ensures
            r == self.spec_simplify(),
            r.small == 0 || r.large == 0,
    {
        let u = if self.small <= self.large {
            self.small
        } else {
            self.large
        };
        Area { units: self.units + u, small: self.small - u, large: self.large - u }
    }

    /// Whether this is an integer area of exactly `n` units, which needs the
    /// small and large parts to cancel exactly.
    pub fn is_integer(&self, n: u8) -> (r: bool)
        requires
            self.units + self.small <= u8::MAX || self.units + self.large <= u8::MAX,
        ensures
            r == (self.small == self.large && self.units + self.small == n),
    {
        let simplified = self.simplify();
        simplified.units == n && simplified.small == 0 && simplified.large == 0
    }
}

/// Simplifying is idempotent: a second simplification changes nothing.
pub proof fn lemma_simplify_idempotent(a: Area)
    ensures
        a.spec_simplify().spec_simplify() == a.spec_simplify(),
{
}

/// An error returned when attempting to calculate the area enclosed by a loop
/// in a `Grid`.
#[derive(Debug)]
pub enum AreaError {
    LoopNotClosed,
}

/// Whether a cell holds an arc segment.
pub open spec fn is_arc(c: Cell) -> bool {
    c != Cell::Empty
}

/// Whether a cell holds a left-corner arc, which bulges toward the right side
/// of its cell and so encloses the larger part of the cell on its left.
pub open spec fn left_arc(c: Cell) -> bool {
    c == Cell::TopLeft || c == Cell::BottomLeft
}

/// How many of the first `n` cells of `row` hold an arc segment.
pub open spec fn segs_upto(row: Seq<Cell>, n: int) -> int
    decreases n,
{
    if n <= 0 {
        0
    } else {
        segs_upto(row, n - 1) + if is_arc(row[n - 1]) {
            1int
        } else {
            0int
        }
    }
}

/// How many of the first `n` cells of `row` are empty cells enclosed by the
/// curve.  An empty cell is enclosed exactly when an odd number of arc cells
/// stand to its left in its row, since each arc sits on the curve boundary
/// and separates inside from outside along the scanline.
pub open spec fn inside_upto(row: Seq<Cell>, n: int) -> int
    decreases n,
{
    if n <= 0 {
        0
    } else {
        inside_upto(row, n - 1) + if !is_arc(row[n - 1]) && segs_upto(row, n - 1) % 2 == 1 {
            1int
        } else {
            0int
        }
    }
}

/// How many of the first `n` cells of `row` hold an arc enclosing the small
/// (`1 - pi/4`) part of its cell: a left-corner arc crossed from outside, or
/// a right-corner arc crossed from inside.
pub open spec fn small_upto(row: Seq<Cell>, n: int) -> int
    decreases n,
{
    if n <= 0 {
        0
    } else {
        small_upto(row, n - 1) + if is_arc(row[n - 1]) && (left_arc(row[n - 1]) == (segs_upto(
            row,
            n - 1,
        ) % 2 == 0)) {
            1int
        } else {
            0int
        }
    }
}

/// How many of the first `n` cells of `row` hold an arc enclosing the large
/// (`pi/4`) part of its cell.
pub open spec fn large_upto(row: Seq<Cell>, n: int) -> int
    decreases n,
{
    if n <= 0 {
        0
    } else {
        large_upto(row, n - 1) + if is_arc(row[n - 1]) && (left_arc(row[n - 1]) != (segs_upto(
            row,
            n - 1,
        ) % 2 == 0)) {
            1int
        } else {
            0int
        }
    }
}

/// Row `r` of a grid laid out as 7 rows of 7 cells.
pub open spec fn row_of(s: Seq<Cell>, r: int) -> Seq<Cell> {
    s.subrange(7 * r, 7 * r + 7)
}

/// Arc cells in the first `r` whole rows.
pub open spec fn segs_rows(s: Seq<Cell>, r: int) -> int
    decreases r,
{
    if r <= 0 {
        0
    } else {
        segs_rows(s, r - 1) + segs_upto(row_of(s, r - 1), 7)
    }
}

/// Enclosed empty cells in the first `r` whole rows.
pub open spec fn inside_rows(s: Seq<Cell>, r: int) -> int
    decreases r,
{
    if r <= 0 {
        0
    } else {
        inside_rows(s, r - 1) + inside_upto(row_of(s, r - 1), 7)
    }
}

/// Small-part arcs in the first `r` whole rows.
pub open spec fn small_rows(s: Seq<Cell>, r: int) -> int
    decreases r,
{
    if r <= 0 {
        0
    } else {
        small_rows(s, r - 1) + small_upto(row_of(s, r - 1), 7)
    }
}

/// Large-part arcs in the first `r` whole rows.
pub open spec fn large_rows(s: Seq<Cell>, r: int) -> int
    decreases r,
{
    if r <= 0 {
        0
    } else {
        large_rows(s, r - 1) + large_upto(row_of(s, r - 1), 7)
    }
}

/// The number of arc cells in the whole grid.
pub open spec fn grid_segs(s: Seq<Cell>) -> int {
    segs_rows(s, 7)
}

/// The number of enclosed empty cells in the whole grid.
pub open spec fn grid_inside(s: Seq<Cell>) -> int {
    inside_rows(s, 7)
}

/// The number of small-part arcs in the whole grid.
pub open spec fn grid_small(s: Seq<Cell>) -> int {
    small_rows(s, 7)
}

/// The number of large-part arcs in the whole grid.
pub open spec fn grid_large(s: Seq<Cell>) -> int {
    large_rows(s, 7)
}

/// The enclosed area of the curve drawn in grid `s`, already simplified:
/// each enclosed empty cell contributes one unit and each arc contributes the
/// part of its own cell that lies inside the curve.
pub open spec fn loop_area_spec(s: Seq<Cell>) -> Area {
    Area {
        units: grid_inside(s) as u8,
        small: grid_small(s) as u8,
        large: grid_large(s) as u8,
    }.spec_simplify()
}

proof fn lemma_row_counts(row: Seq<Cell>, n: int)
    requires
        0 <= n <= row.len(),
    ensures
        0 <= segs_upto(row, n),
        0 <= inside_upto(row, n),
        0 <= small_upto(row, n),
        0 <= large_upto(row, n),
        segs_upto(row, n) + inside_upto(row, n) <= n,
        small_upto(row, n) + large_upto(row, n) == segs_upto(row, n),
    decreases n,
{
    if n > 0 {
        lemma_row_counts(row, n - 1);
    }
}

/// Every cell is counted at most once between the arc count and the enclosed
/// count, so together they never exceed the 49 cells of the grid; and every
/// arc contributes exactly one small or one large part.
pub proof fn lemma_grid_counts(s: Seq<Cell>)
    requires
        s.len() == 49,
    ensures
        0 <= grid_segs(s),
        0 <= grid_inside(s),
        0 <= grid_small(s),
        0 <= grid_large(s),
        grid_segs(s) + grid_inside(s) <= 49,
        grid_small(s) + grid_large(s) == grid_segs(s),
{
    lemma_grid_counts_rows(s, 7);
}

proof fn lemma_grid_counts_rows(s: Seq<Cell>, r: int)
    requires
        s.len() == 49,
        0 <= r <= 7,
    ensures
        0 <= segs_rows(s, r),
        0 <= inside_rows(s, r),
        0 <= small_rows(s, r),
        0 <= large_rows(s, r),
        segs_rows(s, r) + inside_rows(s, r) <= 7 * r,
        small_rows(s, r) + large_rows(s, r) == segs_rows(s, r),
    decreases r,
{
    if r > 0 {
        lemma_grid_counts_rows(s, r - 1);
        lemma_row_counts(row_of(s, r - 1), 7);
    }
}

proof fn lemma_segs_upto_update(row: Seq<Cell>, j: int, v: Cell, n: int)
    requires
        0 <= j < row.len(),
        0 <= n <= row.len(),
    ensures
        segs_upto(row.update(j, v), n) == segs_upto(row, n) + if j < n {
            (if is_arc(v) {
                1int
            } else {
                0int
            }) - (if is_arc(row[j]) {
                1int
            } else {
                0int
            })
        } else {
            0int
        },
    decreases n,
{
    if n > 0 {
        lemma_segs_upto_update(row, j, v, n - 1);
    }
}

proof fn lemma_segs_rows_update(s: Seq<Cell>, j: int, v: Cell, r: int)
    requires
        s.len() == 49,
        0 <= j < 49,
        0 <= r <= 7,
    ensures
        segs_rows(s.update(j, v), r) == segs_rows(s, r) + if j < 7 * r {
            (if is_arc(v) {
                1int
            } else {
                0int
            }) - (if is_arc(s[j]) {
                1int
            } else {
                0int
            })
        } else {
            0int
        },
    decreases r,
{
    if r > 0 {
        lemma_segs_rows_update(s, j, v, r - 1);
        let t = s.update(j, v);
        if 7 * (r - 1) <= j < 7 * r {
            assert(row_of(t, r - 1) =~= row_of(s, r - 1).update(j - 7 * (r - 1), v));
            lemma_segs_upto_update(row_of(s, r - 1), j - 7 * (r - 1), v, 7);
            assert(row_of(s, r - 1)[j - 7 * (r - 1)] == s[j]);
        } else {
            assert(row_of(t, r - 1) =~= row_of(s, r - 1));
        }
    }
}

/// Drawing on or emptying one cell changes the grid's arc count by exactly
/// that cell's contribution.
proof fn lemma_grid_segs_update(s: Seq<Cell>, j: int, v: Cell)
    requires
        s.len() == 49,
        0 <= j < 49,
    ensures
        grid_segs(s.update(j, v)) == grid_segs(s) + (if is_arc(v) {
            1int
        } else {
            0int
        }) - (if is_arc(s[j]) {
            1int
        } else {
            0int
        }),
{
    lemma_segs_rows_update(s, j, v, 7);
}

proof fn lemma_segs_upto_all_empty(row: Seq<Cell>, n: int)
    requires
        0 <= n <= row.len(),
        forall|i: int| 0 <= i < row.len() ==> #[trigger] row[i] == Cell::Empty,
    ensures
        segs_upto(row, n) == 0,
    decreases n,
{
    if n > 0 {
        lemma_segs_upto_all_empty(row, n - 1);
    }
}

proof fn lemma_segs_rows_empty(r: int)
    requires
        0 <= r <= 7,
    ensures
        segs_rows(empty_grid(), r) == 0,
    decreases r,
{
    if r > 0 {
        lemma_segs_rows_empty(r - 1);
        lemma_segs_upto_all_empty(row_of(empty_grid(), r - 1), 7);
    }
}

/// The all-empty grid holds no arc at all.
proof fn lemma_grid_segs_empty()
    ensures
        grid_segs(empty_grid()) == 0,
{
    lemma_segs_rows_empty(7);
}

/// A 7x7 grid, containing empty cells and curve segments, stored row-major:
/// the cell in row `r` and column `c` stands at position `7 * r + c` of the
/// view.
#[derive(Clone, Debug, PartialEq, Eq)]
pub struct Grid {
    data: Vec<Cell>,
}

impl View for Grid {
    type V = Seq<Cell>;

    closed spec fn view(&self) -> Seq<Cell> {
        self.data@
    }
}

impl Grid {
    /// A grid always holds exactly its 49 cells.
    pub open spec fn wf(&self) -> bool {
        self@.len() == 49
    }

    /// Create a new `Grid` from an array of arrays of `Cell`s.
    pub fn new(data: [[Cell; 7]; 7]) -> (g: Grid)
        ensures
            g.wf(),
            forall|r: int, c: int|
                0 <= r < 7 && 0 <= c < 7 ==> g@[7 * r + c] == data@[r]@[c],
    {
        let mut cells: Vec<Cell> = Vec::with_capacity(49);
        for r in 0..7usize
            invariant
                cells@.len() == 7 * r,
                forall|i: int, j: int|
                    0 <= i < r && 0 <= j < 7 ==> cells@[7 * i + j] == data@[i]@[j],
        {
            for c in 0..7usize
                invariant
                    r < 7,
                    cells@.len() == 7 * r + c,
                    forall|i: int, j: int|
                        0 <= i < r && 0 <= j < 7 ==> cells@[7 * i + j] == data@[i]@[j],
                    forall|j: int| 0 <= j < c ==> cells@[7 * r + j] == data@[r as int]@[j],
            {
                cells.push(data[r][c]);
            }
        }
        Grid { data: cells }
    }

    /// A verified copy of this grid, cell by cell.
    fn duplicate(&self) -> (g: Grid)
        requires
            self.wf(),
        ensures
            g@ == self@,
    {
        let mut cells: Vec<Cell> = Vec::with_capacity(49);
        for i in 0..49usize
            invariant
                self.wf(),
                cells@.len() == i,
                forall|p: int| 0 <= p < i ==> cells@[p] == self@[p],
        {
            cells.push(self.data[i]);
        }
        proof {
            assert(cells@ =~= self@);
        }
        Grid { data: cells }
    }

    /// Calculate the enclosed area inside the loop drawn in this `Grid`,
    /// with a single scanline pass: scanning each row left to right, every
    /// arc cell toggles an outside/inside flag and contributes the part of
    /// its own cell that lies on the inside, and every empty cell scanned
    /// while inside contributes one whole unit.  The arc, outside and inside
    /// counts each account for distinct cells, so they must sum to the 49
    /// cells of the grid; any other sum would be reported as
    /// `LoopNotClosed`.
    pub fn loop_area(&self) -> (r: Result<Area, AreaError>)
        requires
            self.wf(),
        ensures
            r == Ok::<Area, AreaError>(loop_area_spec(self@)),
    {
        // These should sum to exactly 49 at the end of looping through the grid.
        let mut n: u8 = 0;  // The number of arc segments encountered.
        let mut k: u8 = 0;  // The number of outside full cells encountered.
        let mut j: u8 = 0;  // The number of inside full cells encountered.
        // These should sum to exactly `n` at the end of looping through the grid.
        let mut n_s: u8 = 0;  // The number of arcs enclosing a small (1 - pi/4) area.
        let mut n_b: u8 = 0;  // The number of arcs enclosing a large (pi/4) area.

        for row in 0..7usize
            invariant
                self.wf(),
                n == segs_rows(self@, row as int),
                j == inside_rows(self@, row as int),
                n_s == small_rows(self@, row as int),
                n_b == large_rows(self@, row as int),
                n_s + n_b == n,
                n + k + j == 7 * row,
        {
            // Whether we are outside the loop before we inspect this cell.
            let mut outside = true;
            let ghost rowseq = row_of(self@, row as int);

            for col in 0..7usize
                invariant
                    self.wf(),
                    0 <= row < 7,
                    rowseq == row_of(self@, row as int),
                    n == segs_rows(self@, row as int) + segs_upto(rowseq, col as int),
                    j == inside_rows(self@, row as int) + inside_upto(rowseq, col as int),
                    n_s == small_rows(self@, row as int) + small_upto(rowseq, col as int),
                    n_b == large_rows(self@, row as int) + large_upto(rowseq, col as int),
                    n_s + n_b == n,
                    n + k + j == 7 * row + col,
                    outside == (segs_upto(rowseq, col as int) % 2 == 0),
            {
                proof {
                    assert(rowseq[col as int] == self@[7 * (row as int) + col as int]);
                }
                match self.data[row * 7 + col] {
                    Cell::Empty => {
                        if outside {
                            k += 1;
                        } else {
                            j += 1;
                        }
                    },
                    Cell::TopLeft | Cell::BottomLeft => {
                        n += 1;
                        if outside {
                            n_s += 1;
                        } else {
                            n_b += 1;
                        }
                        outside = !outside;
                    },
                    Cell::TopRight | Cell::BottomRight => {
                        n += 1;
                        if outside {
                            n_b += 1;
                        } else {
                            n_s += 1;
                        }
                        outside = !outside;
                    },
                }
            }
        }

        assert(n_s + n_b == n);

        if n + k + j != 49 {
            Err(AreaError::LoopNotClosed)
        } else {
            Ok(Area { units: j, small: n_s, large: n_b }.simplify())
        }
    }
}

/// The all-empty grid contents.
pub open spec fn empty_grid() -> Seq<Cell> {
    Seq::new(49, |i: int| Cell::Empty)
}

/// The position of the cell `(row, col)` in a grid's row-major view.
pub open spec fn cell_index(row: int, col: int) -> int {
    7 * row + col
}

/// Whether the cell at `(row, col)` lies strictly inside the grid's boundary
/// ring.
pub open spec fn is_inner(row: int, col: int) -> bool {
    1 <= row <= 5 && 1 <= col <= 5
}

/// The number of `true` entries of a boolean sequence.
pub open spec fn count_true(s: Seq<bool>) -> int
    decreases s.len(),
{
    if s.len() == 0 {
        0
    } else {
        count_true(s.drop_last()) + if s.last() {
            1int
        } else {
            0int
        }
    }
}

proof fn lemma_count_true_le_len(s: Seq<bool>)
    ensures
        0 <= count_true(s) <= s.len(),
    decreases s.len(),
{
    if s.len() > 0 {
        lemma_count_true_le_len(s.drop_last());
    }
}

proof fn lemma_count_true_update(s: Seq<bool>, i: int, b: bool)
    requires
        0 <= i < s.len(),
    ensures
        count_true(s.update(i, b)) == count_true(s) - (if s[i] {
            1int
        } else {
            0int
        }) + (if b {
            1int
        } else {
            0int
        }),
    decreases s.len(),
{
    let t = s.update(i, b);
    if i == s.len() - 1 {
        assert(t.drop_last() =~= s.drop_last());
    } else {
        assert(t.drop_last() =~= s.drop_last().update(i, b));
        lemma_count_true_update(s.drop_last(), i, b);
    }
}

/// One entry of the move log: the coordinates of the placed cell, and the
/// coordinates of the head before the move (for undoing).
pub open spec fn mv_index(m: ((u8, u8), (u8, u8))) -> int {
    cell_index(m.0.0 as int, m.0.1 as int)
}

pub open spec fn mv_in_range(m: ((u8, u8), (u8, u8))) -> bool {
    m.0.0 < 7 && m.0.1 < 7 && m.1.0 <= 7 && m.1.1 <= 7
}

/// How many logged moves placed a cell strictly inside the boundary ring.
pub open spec fn inner_count(mvs: Seq<((u8, u8), (u8, u8))>) -> int
    decreases mvs.len(),
{
    if mvs.len() == 0 {
        0
    } else {
        inner_count(mvs.drop_last()) + if is_inner(
            mvs.last().0.0 as int,
            mvs.last().0.1 as int,
        ) {
            1int
        } else {
            0int
        }
    }
}

proof fn lemma_inner_count_le_len(mvs: Seq<((u8, u8), (u8, u8))>)
    ensures
        0 <= inner_count(mvs) <= mvs.len(),
    decreases mvs.len(),
{
    if mvs.len() > 0 {
        lemma_inner_count_le_len(mvs.drop_last());
    }
}

/// The part of a generator's state that the place/unplace protocol acts on,
/// gathered into one ghost record.
#[verifier::ext_equal]
pub ghost struct Frame {
    pub grid: Seq<Cell>,
    pub placed: Seq<bool>,
    pub placed_cnt: int,
    pub moves: Seq<((u8, u8), (u8, u8))>,
    pub head: (u8, u8),
    pub inner_cells: int,
}

impl Frame {
    /// The two boards of a frame hold exactly the grid's 49 cells.
    pub open spec fn sized(self) -> bool {
        self.grid.len() == 49 && self.placed.len() == 49
    }
}

/// A pending placement: the cell to draw on, the segment to draw, and the new
/// head vertex.
pub ghost struct Placement {
    pub row: u8,
    pub col: u8,
    pub cell: Cell,
    pub head: (u8, u8),
}

/// Whether `m` may be placed on frame `f`: in range, aimed at a cell that is
/// neither marked as placed nor drawn on.
pub open spec fn can_place(f: Frame, m: Placement) -> bool {
    &&& m.row < 7 && m.col < 7
    &&& !f.placed[cell_index(m.row as int, m.col as int)]
    &&& f.grid[cell_index(m.row as int, m.col as int)] == Cell::Empty
}

/// The frame after placing `m`: the segment is drawn, the cell is marked, the
/// move is logged together with the old head, and the head advances.
pub open spec fn place_step(f: Frame, m: Placement) -> Frame {
    Frame {
        grid: f.grid.update(cell_index(m.row as int, m.col as int), m.cell),
        placed: f.placed.update(cell_index(m.row as int, m.col as int), true),
        placed_cnt: f.placed_cnt + 1,
        moves: f.moves.push(((m.row, m.col), f.head)),
        head: m.head,
        inner_cells: f.inner_cells + if is_inner(m.row as int, m.col as int) {
            1int
        } else {
            0int
        },
    }
}

/// The frame after undoing the most recent placement: the cell is emptied and
/// unmarked, the move log shrinks, and the head returns to its saved value.
pub open spec fn unplace_step(f: Frame) -> Frame {
    let ((row, col), old_head) = f.moves.last();
    Frame {
        grid: f.grid.update(cell_index(row as int, col as int), Cell::Empty),
        placed: f.placed.update(cell_index(row as int, col as int), false),
        placed_cnt: f.placed_cnt - 1,
        moves: f.moves.drop_last(),
        head: old_head,
        inner_cells: f.inner_cells - if is_inner(row as int, col as int) {
            1int
        } else {
            0int
        },
    }
}

/// Undoing a placement restores the frame exactly.
pub proof fn lemma_place_then_unplace(f: Frame, m: Placement)
    requires
        f.sized(),
        can_place(f, m),
    ensures
        unplace_step(place_step(f, m)) == f,
{
    let f1 = place_step(f, m);
    assert(unplace_step(f1).grid =~= f.grid);
    assert(unplace_step(f1).placed =~= f.placed);
    assert(unplace_step(f1).moves =~= f.moves);
    assert(unplace_step(f1) =~= f);
}

/// The frame after placing every move of `ms` in order.
pub open spec fn place_all(f: Frame, ms: Seq<Placement>) -> Frame
    decreases ms.len(),
{
    if ms.len() == 0 {
        f
    } else {
        place_all(place_step(f, ms[0]), ms.drop_first())
    }
}

/// Whether every move of `ms` is admissible at its turn.
pub open spec fn can_place_all(f: Frame, ms: Seq<Placement>) -> bool
    decreases ms.len(),
{
    ms.len() == 0 || (can_place(f, ms[0]) && can_place_all(place_step(f, ms[0]), ms.drop_first()))
}

/// The frame after undoing the `k` most recent placements.
pub open spec fn unplace_all(f: Frame, k: nat) -> Frame
    decreases k,
{
    if k == 0 {
        f
    } else {
        unplace_step(unplace_all(f, (k - 1) as nat))
    }
}

/// Round trip: placing any admissible sequence of moves forward and then
/// unplacing the same number of times backward returns the frame exactly to
/// its state before the sequence.  This covers the executable operations,
/// because `place` ensures `final.frame() == place_step(old.frame(), m)` and
/// `unplace` ensures `final.frame() == unplace_step(old.frame())`: any
/// well-nested run of those calls walks exactly these spec transitions.
pub proof fn lemma_place_unplace_round_trip(f: Frame, ms: Seq<Placement>)
    requires
        f.sized(),
        can_place_all(f, ms),
    ensures
        unplace_all(place_all(f, ms), ms.len()) == f,
    decreases ms.len(),
{
    if ms.len() > 0 {
        let f1 = place_step(f, ms[0]);
        lemma_place_unplace_round_trip(f1, ms.drop_first());
        lemma_place_then_unplace(f, ms[0]);
    }
}

/// A data structure for generating closed loops of a target area, using a
/// back-tracking algorithm.
#[derive(Debug)]
pub struct Generator {
    /// The target area we are aiming for, stored simplified.
    target: Area,
    /// The maximum number of cells away from the outer boundary ring that may
    /// form part of the curve; a caller-supplied pruning bound.
    max_inner_cells: u8,
    /// The maximum length of the loop in segments; a caller-supplied pruning
    /// bound.
    max_length: u8,
    /// The current state of the grid.
    grid: Grid,
    /// Whether each cell of the grid is occupied or retired.
    placed: Vec<bool>,
    /// The number of segments currently drawn.
    placed_cnt: u8,
    /// The order of placements made in the grid: the coordinates of each
    /// placed cell, with the head coordinates from before the move.
    moves: Vec<((u8, u8), (u8, u8))>,
    /// The grid-line vertex where the curve began.
    start: (u8, u8),
    /// The open end of the curve being drawn, in grid-line coordinates.
    head: (u8, u8),
    /// Storage for all the valid grids found so far.
    valid_grids: Vec<Grid>,
    /// The number of placed cells strictly inside the boundary ring.
    inner_cells: usize,
}

impl Generator {
    /// The place/unplace frame of this generator.
    pub closed spec fn frame(&self) -> Frame {
        Frame {
            grid: self.grid@,
            placed: self.placed@,
            placed_cnt: self.placed_cnt as int,
            moves: self.moves@,
            head: self.head,
            inner_cells: self.inner_cells as int,
        }
    }

    /// The simplified target area of the search.
    pub closed spec fn spec_target(&self) -> Area {
        self.target
    }

    /// The inner-cell pruning bound.
    pub closed spec fn spec_max_inner_cells(&self) -> u8 {
        self.max_inner_cells
    }

    /// The loop-length pruning bound.
    pub closed spec fn spec_max_length(&self) -> u8 {
        self.max_length
    }

    /// Structural well-formedness of the search state: the boards have their
    /// 49 cells; the move log matches the placement count, which is exactly
    /// the number of arcs drawn on the grid; logged moves are in range,
    /// distinct, marked placed and drawn on; unmarked cells are empty; the
    /// inner-cell counter counts the inner logged moves; and every harvested
    /// grid has the target enclosed area and an even number of segments.
    pub closed spec fn inv(&self) -> bool {
        &&& self.grid@.len() == 49
        &&& self.placed@.len() == 49
        &&& self.moves@.len() == self.placed_cnt as int
        &&& self.placed_cnt as int <= count_true(self.placed@)
        &&& self.placed_cnt as int == grid_segs(self.grid@)
        &&& self.head.0 <= 7 && self.head.1 <= 7 && self.start.0 <= 7 && self.start.1 <= 7
        &&& forall|i: int| 0 <= i < self.moves@.len() ==> mv_in_range(#[trigger] self.moves@[i])
        &&& forall|i: int|
            0 <= i < self.moves@.len() ==> self.placed@[mv_index(#[trigger] self.moves@[i])]
        &&& forall|i: int|
            0 <= i < self.moves@.len() ==> self.grid@[mv_index(#[trigger] self.moves@[i])]
                != Cell::Empty
        &&& forall|i: int, j: int|
            0 <= i < j < self.moves@.len() ==> mv_index(self.moves@[i]) != mv_index(
                self.moves@[j],
            )
        &&& forall|p: int| 0 <= p < 49 && !(#[trigger] self.placed@[p]) ==> self.grid@[p]
            == Cell::Empty
        &&& self.inner_cells as int == inner_count(self.moves@)
        &&& self.target.small == 0 || self.target.large == 0
        &&& forall|i: int|
            0 <= i < self.valid_grids@.len() ==> (#[trigger] self.valid_grids@[i])@.len() == 49
        &&& forall|i: int|
            0 <= i < self.valid_grids@.len() ==> loop_area_spec(
                (#[trigger] self.valid_grids@[i])@,
            ) == self.target
        &&& forall|i: int|
            0 <= i < self.valid_grids@.len() ==> grid_segs((#[trigger] self.valid_grids@[i])@) % 2
                == 0
        &&& harvests_are_runs(self.valid_grids@, self.target, self.max_length, self.max_inner_cells)
    }

    /// The parity invariant: every move steps the head one row up or down, so
    /// while a curve is under construction the head row plus the number of
    /// placed segments always agrees with the start row modulo two.
    pub closed spec fn parity_ok(&self) -> bool {
        (self.head.0 + self.placed_cnt) % 2 == self.start.0 % 2
    }

    /// A generator that has not started searching yet.
    pub closed spec fn fresh(&self) -> bool {
        &&& self.moves@.len() == 0
        &&& self.grid@ == empty_grid()
        &&& forall|p: int| 0 <= p < 49 ==> !(#[trigger] self.placed@[p])
        &&& self.head == ((0u8, 0u8)) && self.start == ((0u8, 0u8))
        &&& self.valid_grids@.len() == 0
    }

    /// Create a new `Generator` for the given target area and pruning bounds.
    /// The target is stored in simplified form.
    pub fn new(target: Area, max_inner_cells: u8, max_length: u8) -> (g: Generator)
        requires
            target.units + target.small <= u8::MAX || target.units + target.large <= u8::MAX,
        ensures
            g.inv(),
            g.fresh(),
            g.spec_target() == target.spec_simplify(),
            g.spec_max_inner_cells() == max_inner_cells,
            g.spec_max_length() == max_length,
    {
        let mut cells: Vec<Cell> = Vec::with_capacity(49);
        let mut flags: Vec<bool> = Vec::with_capacity(49);
        for i in 0..49usize
            invariant
                cells@.len() == i,
                flags@.len() == i,
                forall|p: int| 0 <= p < i ==> cells@[p] == Cell::Empty,
                forall|p: int| 0 <= p < i ==> !(#[trigger] flags@[p]),
        {
            cells.push(Cell::Empty);
            flags.push(false);
        }
        let g = Generator {
            target: target.simplify(),
            max_inner_cells,
            max_length,
            grid: Grid { data: cells },
            placed: flags,
            placed_cnt: 0,
            moves: Vec::with_capacity(49),
            start: (0, 0),
            head: (0, 0),
            valid_grids: Vec::new(),
            inner_cells: 0,
        };
        proof {
            assert(g.grid@ =~= empty_grid());
            lemma_count_true_le_len(g.placed@);
            lemma_grid_segs_empty();
        }
        g
    }

    /// Draw segment `c` in the cell `(row, col)`, log the move, and advance
    /// the head to `(headr, headc)`.  The cell must not already be placed.
    fn place(&mut self, row: u8, col: u8, c: Cell, headr: u8, headc: u8)
        requires
            old(self).inv(),
            row < 7,
            col < 7,
            headr <= 7,
            headc <= 7,
            c != Cell::Empty,
            !old(self).placed@[cell_index(row as int, col as int)],
        ensures
            final(self).inv(),
            final(self).frame() == place_step(
                old(self).frame(),
                Placement { row, col, cell: c, head: (headr, headc) },
            ),
            final(self).start == old(self).start,
            final(self).target == old(self).target,
            final(self).max_inner_cells == old(self).max_inner_cells,
            final(self).max_length == old(self).max_length,
            final(self).valid_grids == old(self).valid_grids,
            count_true(final(self).placed@) == count_true(old(self).placed@) + 1,
    {
        proof {
            lemma_count_true_le_len(old(self).placed@);
            lemma_inner_count_le_len(old(self).moves@);
        }
        let idx = (row as usize) * 7 + (col as usize);
        self.grid.data.set(idx, c);
        self.placed.set(idx, true);
        self.placed_cnt = self.placed_cnt + 1;
        self.moves.push(((row, col), self.head));
        self.head = (headr, headc);
        if row > 0 && row < 6 && col > 0 && col < 6 {
            self.inner_cells = self.inner_cells + 1;
        }
        proof {
            let m = Placement { row, col, cell: c, head: (headr, headc) };
            let f0 = old(self).frame();
            lemma_count_true_update(f0.placed, cell_index(row as int, col as int), true);
            assert(f0.grid[cell_index(row as int, col as int)] == Cell::Empty);
            lemma_grid_segs_update(f0.grid, cell_index(row as int, col as int), c);
            assert(self.moves@.drop_last() =~= f0.moves);
            assert(self.frame() =~= place_step(f0, m));
            // every previously logged move stands on a cell other than idx,
            // because those cells are marked placed while idx was not
            assert forall|i: int| 0 <= i < f0.moves.len() implies mv_index(
                #[trigger] self.moves@[i],
            ) != cell_index(row as int, col as int) by {
                assert(f0.placed[mv_index(f0.moves[i])]);
            }
        }
    }

    /// Undo the most recent placement: empty the cell, unmark it, and restore
    /// the head to its saved previous coordinates.
    fn unplace(&mut self)
        requires
            old(self).inv(),
            old(self).moves@.len() > 0,
        ensures
            final(self).inv(),
            final(self).frame() == unplace_step(old(self).frame()),
            final(self).start == old(self).start,
            final(self).target == old(self).target,
            final(self).max_inner_cells == old(self).max_inner_cells,
            final(self).max_length == old(self).max_length,
            final(self).valid_grids == old(self).valid_grids,
            count_true(final(self).placed@) == count_true(old(self).placed@) - 1,
    {
        proof {
            lemma_inner_count_le_len(old(self).moves@.drop_last());
        }
        let m = self.moves.pop().unwrap();
        let ((row, col), old_head) = m;
        let idx = (row as usize) * 7 + (col as usize);
        self.grid.data.set(idx, Cell::Empty);
        self.placed.set(idx, false);
        self.placed_cnt = self.placed_cnt - 1;
        self.head = old_head;
        if row > 0 && row < 6 && col > 0 && col < 6 {
            self.inner_cells = self.inner_cells - 1;
        }
        proof {
            let f0 = old(self).frame();
            let last = f0.moves.len() - 1;
            lemma_count_true_update(f0.placed, mv_index(f0.moves[last]), false);
            assert(f0.grid[mv_index(f0.moves[last])] != Cell::Empty);
            lemma_grid_segs_update(f0.grid, mv_index(f0.moves[last]), Cell::Empty);
            assert(self.frame() =~= unplace_step(f0));
            // the popped cell is distinct from every remaining logged cell
            assert forall|i: int| 0 <= i < self.moves@.len() implies mv_index(
                #[trigger] self.moves@[i],
            ) != mv_index(f0.moves[last]) by {
                assert(self.moves@[i] == f0.moves[i]);
            }
        }
    }

    /// Whether the cell `(r, c)` is already placed.
    fn placed_at(&self, r: u8, c: u8) -> (b: bool)
        requires
            self.inv(),
            r < 7,
            c < 7,
        ensures
            b == self.placed@[cell_index(r as int, c as int)],
    {
        self.placed[(r as usize) * 7 + (c as usize)]
    }

    /// The cell of the grid at `(r, c)`.
    fn cell_at(&self, r: u8, c: u8) -> (cl: Cell)
        requires
            self.inv(),
            r < 7,
            c < 7,
        ensures
            cl == self.grid@[cell_index(r as int, c as int)],
    {
        self.grid.data[(r as usize) * 7 + (c as usize)]
    }

    /// The number of drawn cells among the four around vertex `(vr, vc)`.
    fn filled_around(&self, vr: u8, vc: u8) -> (n: u8)
        requires
            self.inv(),
            vr <= 7,
            vc <= 7,
        ensures
            n as int == filled_around_spec(self.grid@, vr as int, vc as int),
    {
        let mut n: u8 = 0;
        if vr > 0 && vc > 0 {
            if self.cell_at(vr - 1, vc - 1) != Cell::Empty {
                n = n + 1;
            }
        }
        if vr > 0 && vc < 7 {
            if self.cell_at(vr - 1, vc) != Cell::Empty {
                n = n + 1;
            }
        }
        if vr < 7 && vc > 0 {
            if self.cell_at(vr, vc - 1) != Cell::Empty {
                n = n + 1;
            }
        }
        if vr < 7 && vc < 7 {
            if self.cell_at(vr, vc) != Cell::Empty {
                n = n + 1;
            }
        }
        n
    }
}

/// A candidate extension move `(cell row, cell col, segment, head row, head
/// col)` is admissible when it aims at an unplaced in-range cell, draws an
/// arc, and steps the head one row up or down.
pub open spec fn cand_ok(placed: Seq<bool>, head: (u8, u8), m: (u8, u8, Cell, u8, u8)) -> bool {
    &&& m.0 < 7 && m.1 < 7
    &&& !placed[cell_index(m.0 as int, m.1 as int)]
    &&& m.2 != Cell::Empty
    &&& m.3 <= 7 && m.4 <= 7
    &&& (m.3 + head.0) % 2 == 1
}

/// Whether the search offers move `m` at frame `f`: `m` aims at one of the
/// four cells around the head vertex that lie on the grid and are not yet
/// placed, drawing either of the two arcs allowed by the direction of travel,
/// with the new head at the far end of the cell's diagonal.
pub open spec fn offered(f: Frame, m: (u8, u8, Cell, u8, u8)) -> bool {
    let hr = f.head.0;
    let hc = f.head.1;
    ||| (hr >= 1 && hc >= 1 && !f.placed[cell_index(hr - 1, hc - 1)] && (m == ((((hr - 1) as u8),
        ((hc - 1) as u8),
        Cell::TopRight,
        ((hr - 1) as u8),
        ((hc - 1) as u8),
    )) || m == ((((hr - 1) as u8), ((hc - 1) as u8), Cell::BottomLeft, ((hr - 1) as u8), ((hc
        - 1) as u8)))))
    ||| (hr >= 1 && hc < 7 && !f.placed[cell_index(hr - 1, hc as int)] && (m == ((((hr - 1) as u8),
        hc,
        Cell::TopLeft,
        ((hr - 1) as u8),
        ((hc + 1) as u8),
    )) || m == ((((hr - 1) as u8), hc, Cell::BottomRight, ((hr - 1) as u8), ((hc + 1) as u8)))))
    ||| (hr < 7 && hc >= 1 && !f.placed[cell_index(hr as int, hc - 1)] && (m == ((hr, ((hc
        - 1) as u8), Cell::TopLeft, ((hr + 1) as u8), ((hc - 1) as u8))) || m == ((hr, ((hc
        - 1) as u8), Cell::BottomRight, ((hr + 1) as u8), ((hc - 1) as u8)))))
    ||| (hr < 7 && hc < 7 && !f.placed[cell_index(hr as int, hc as int)] && (m == ((hr, hc,
        Cell::TopRight,
        ((hr + 1) as u8),
        ((hc + 1) as u8),
    )) || m == ((hr, hc, Cell::BottomLeft, ((hr + 1) as u8), ((hc + 1) as u8)))))
}

/// The count of drawn cells among the four around vertex `(vr, vc)`.
pub open spec fn filled_around_spec(s: Seq<Cell>, vr: int, vc: int) -> int {
    (if vr > 0 && vc > 0 && s[cell_index(vr - 1, vc - 1)] != Cell::Empty {
        1int
    } else {
        0int
    }) + (if vr > 0 && vc < 7 && s[cell_index(vr - 1, vc)] != Cell::Empty {
        1int
    } else {
        0int
    }) + (if vr < 7 && vc > 0 && s[cell_index(vr, vc - 1)] != Cell::Empty {
        1int
    } else {
        0int
    }) + (if vr < 7 && vc < 7 && s[cell_index(vr, vc)] != Cell::Empty {
        1int
    } else {
        0int
    })
}

/// The frame after playing move `m`.
pub open spec fn run_step(f: Frame, m: (u8, u8, Cell, u8, u8)) -> Frame {
    place_step(f, Placement { row: m.0, col: m.1, cell: m.2, head: (m.3, m.4) })
}

/// One admissible step of the extension search at frame `f`: the move is
/// offered and survives the self-intersection test at its new head vertex.
pub open spec fn step_ok(f: Frame, m: (u8, u8, Cell, u8, u8)) -> bool {
    offered(f, m) && filled_around_spec(f.grid, m.3 as int, m.4 as int) < 2
}

/// Whether the search, after playing `m` on `f`, descends into the subtree:
/// the loop-length bound admits one more segment and the inner-cell bound is
/// not exceeded.
pub open spec fn deeper_ok(
    f: Frame,
    m: (u8, u8, Cell, u8, u8),
    max_length: u8,
    max_inner_cells: u8,
) -> bool {
    f.placed_cnt + 1 <= max_length && run_step(f, m).inner_cells <= max_inner_cells
}

/// An admissible closing run of the extension search from frame `f`: a
/// non-empty sequence of moves, each offered and free of self-intersection at
/// its turn, each but the last allowed by the pruning bounds to search deeper
/// (and, when it lands on `start` on the way, closing exactly the target
/// area, since a closure of any other area is abandoned), whose last move
/// lands the head on `start` and closes a curve of exactly the target area.
pub open spec fn closing_run(
    f: Frame,
    start: (u8, u8),
    target: Area,
    max_length: u8,
    max_inner_cells: u8,
    ms: Seq<(u8, u8, Cell, u8, u8)>,
) -> bool
    decreases ms.len(),
{
    &&& ms.len() >= 1
    &&& step_ok(f, ms[0])
    &&& if ms.len() == 1 {
        ((ms[0].3, ms[0].4)) == start && loop_area_spec(run_step(f, ms[0]).grid) == target
    } else {
        &&& deeper_ok(f, ms[0], max_length, max_inner_cells)
        &&& (((ms[0].3, ms[0].4)) == start ==> loop_area_spec(run_step(f, ms[0]).grid) == target)
        &&& closing_run(run_step(f, ms[0]), start, target, max_length, max_inner_cells,
        ms.drop_first())
    }
}

/// The grid drawn after playing the whole run on `f`.
pub open spec fn run_grid(f: Frame, ms: Seq<(u8, u8, Cell, u8, u8)>) -> Seq<Cell>
    decreases ms.len(),
{
    if ms.len() <= 1 {
        run_step(f, ms[0]).grid
    } else {
        run_grid(run_step(f, ms[0]), ms.drop_first())
    }
}

/// Whether the drawn grid `s` stands among the harvested grids.
pub open spec fn harvested(gs: Seq<Grid>, s: Seq<Cell>) -> bool {
    exists|q: int| 0 <= q < gs.len() && (#[trigger] gs[q])@ == s
}

/// Every admissible closing run from `f` has its final grid among `gs`.
pub open spec fn runs_harvested(
    f: Frame,
    start: (u8, u8),
    target: Area,
    max_length: u8,
    max_inner_cells: u8,
    gs: Seq<Grid>,
) -> bool {
    forall|ms: Seq<(u8, u8, Cell, u8, u8)>|
        #[trigger] closing_run(f, start, target, max_length, max_inner_cells, ms) ==> harvested(
            gs,
            run_grid(f, ms),
        )
}


/// Loosening the pruning bounds keeps every admissible closing run
/// admissible.  Together with the completeness clause of `generate`, every
/// layout reachable by a run within tight bounds is therefore also among the
/// layouts returned by a search with looser bounds.
pub proof fn lemma_closing_run_bounds_monotone(
    f: Frame,
    start: (u8, u8),
    target: Area,
    ml1: u8,
    mi1: u8,
    ml2: u8,
    mi2: u8,
    ms: Seq<(u8, u8, Cell, u8, u8)>,
)
    requires
        ml1 <= ml2,
        mi1 <= mi2,
        closing_run(f, start, target, ml1, mi1, ms),
    ensures
        closing_run(f, start, target, ml2, mi2, ms),
    decreases ms.len(),
{
    if ms.len() > 1 {
        lemma_closing_run_bounds_monotone(
            run_step(f, ms[0]),
            start,
            target,
            ml1,
            mi1,
            ml2,
            mi2,
            ms.drop_first(),
        );
    }
}


/// The frame after playing every move of `ms` in order.
pub open spec fn play_run(f: Frame, ms: Seq<(u8, u8, Cell, u8, u8)>) -> Frame
    decreases ms.len(),
{
    if ms.len() == 0 {
        f
    } else {
        play_run(run_step(f, ms[0]), ms.drop_first())
    }
}

/// An admissible prefix of a search run: every move offered, free of
/// self-intersection, within the bounds to search deeper, and any mid-run
/// closure on `start` matching the target.
pub open spec fn run_prefix(
    f: Frame,
    start: (u8, u8),
    target: Area,
    max_length: u8,
    max_inner_cells: u8,
    ms: Seq<(u8, u8, Cell, u8, u8)>,
) -> bool
    decreases ms.len(),
{
    ms.len() == 0 || {
        &&& step_ok(f, ms[0])
        &&& deeper_ok(f, ms[0], max_length, max_inner_cells)
        &&& (((ms[0].3, ms[0].4)) == start ==> loop_area_spec(run_step(f, ms[0]).grid) == target)
        &&& run_prefix(run_step(f, ms[0]), start, target, max_length, max_inner_cells,
        ms.drop_first())
    }
}

proof fn lemma_play_run_push(f: Frame, ms: Seq<(u8, u8, Cell, u8, u8)>, m: (u8, u8, Cell, u8, u8))
    ensures
        play_run(f, ms.push(m)) == run_step(play_run(f, ms), m),
    decreases ms.len(),
{
    if ms.len() == 0 {
        assert(ms.push(m)[0] == m);
        assert(ms.push(m).drop_first() =~= Seq::<(u8, u8, Cell, u8, u8)>::empty());
        assert(play_run(run_step(f, m), Seq::<(u8, u8, Cell, u8, u8)>::empty()) == run_step(f, m));
        assert(play_run(f, Seq::<(u8, u8, Cell, u8, u8)>::empty()) == f);
    } else {
        assert(ms.push(m)[0] == ms[0]);
        assert(ms.push(m).drop_first() =~= ms.drop_first().push(m));
        lemma_play_run_push(run_step(f, ms[0]), ms.drop_first(), m);
        assert(play_run(f, ms) == play_run(run_step(f, ms[0]), ms.drop_first()));
    }
}

proof fn lemma_run_prefix_push(
    f: Frame,
    start: (u8, u8),
    target: Area,
    max_length: u8,
    max_inner_cells: u8,
    ms: Seq<(u8, u8, Cell, u8, u8)>,
    m: (u8, u8, Cell, u8, u8),
)
    requires
        run_prefix(f, start, target, max_length, max_inner_cells, ms),
        step_ok(play_run(f, ms), m),
        deeper_ok(play_run(f, ms), m, max_length, max_inner_cells),
        ((m.3, m.4)) == start ==> loop_area_spec(run_step(play_run(f, ms), m).grid) == target,
    ensures
        run_prefix(f, start, target, max_length, max_inner_cells, ms.push(m)),
    decreases ms.len(),
{
    if ms.len() == 0 {
        assert(ms.push(m)[0] == m);
        assert(ms.push(m).drop_first() =~= Seq::<(u8, u8, Cell, u8, u8)>::empty());
        assert(play_run(f, Seq::<(u8, u8, Cell, u8, u8)>::empty()) == f);
        assert(run_prefix(
            run_step(f, m),
            start,
            target,
            max_length,
            max_inner_cells,
            Seq::<(u8, u8, Cell, u8, u8)>::empty(),
        ));
    } else {
        assert(ms.push(m)[0] == ms[0]);
        assert(ms.push(m).drop_first() =~= ms.drop_first().push(m));
        assert(play_run(f, ms) == play_run(run_step(f, ms[0]), ms.drop_first()));
        lemma_run_prefix_push(
            run_step(f, ms[0]),
            start,
            target,
            max_length,
            max_inner_cells,
            ms.drop_first(),
            m,
        );
    }
}

proof fn lemma_closing_of_prefix(
    f: Frame,
    start: (u8, u8),
    target: Area,
    max_length: u8,
    max_inner_cells: u8,
    ms: Seq<(u8, u8, Cell, u8, u8)>,
    m: (u8, u8, Cell, u8, u8),
)
    requires
        run_prefix(f, start, target, max_length, max_inner_cells, ms),
        step_ok(play_run(f, ms), m),
        ((m.3, m.4)) == start,
        loop_area_spec(run_step(play_run(f, ms), m).grid) == target,
    ensures
        closing_run(f, start, target, max_length, max_inner_cells, ms.push(m)),
        run_grid(f, ms.push(m)) == run_step(play_run(f, ms), m).grid,
    decreases ms.len(),
{
    if ms.len() == 0 {
        assert(ms.push(m)[0] == m);
        assert(play_run(f, Seq::<(u8, u8, Cell, u8, u8)>::empty()) == f);
        assert(run_grid(f, ms.push(m)) == run_step(f, m).grid);
    } else {
        assert(ms.push(m)[0] == ms[0]);
        assert(ms.push(m).drop_first() =~= ms.drop_first().push(m));
        assert(play_run(f, ms) == play_run(run_step(f, ms[0]), ms.drop_first()));
        lemma_closing_of_prefix(
            run_step(f, ms[0]),
            start,
            target,
            max_length,
            max_inner_cells,
            ms.drop_first(),
            m,
        );
        assert(run_grid(f, ms.push(m)) == run_grid(run_step(f, ms[0]), ms.drop_first().push(m)));
    }
}

/// Every harvested grid is the final grid of some admissible opening followed
/// by an admissible closing run: the search returns no layout it was not led
/// to by its own rules.
pub open spec fn harvests_are_runs(
    gs: Seq<Grid>,
    target: Area,
    max_length: u8,
    max_inner_cells: u8,
) -> bool {
    forall|q: int|
        0 <= q < gs.len() ==> exists|rr: int, cc: int, o: Cell, ms: Seq<(u8, u8, Cell, u8, u8)>|
            opening_ok(rr, cc, o) && closing_run(
                opening_frame(rr, cc, o),
                opening_start(rr, cc, o),
                target,
                max_length,
                max_inner_cells,
                ms,
            ) && run_grid(opening_frame(rr, cc, o), ms) == (#[trigger] gs[q])@
}

/// The cells scanned before position `k`, all permanently retired.
pub open spec fn marked_below(k: int) -> Seq<bool> {
    Seq::new(49, |p: int| p < k)
}

/// The head vertex after the opening segment `o` in cell `(rr, cc)`.
pub open spec fn opening_head(rr: int, cc: int, o: Cell) -> (u8, u8) {
    if o == Cell::TopLeft || o == Cell::BottomRight {
        ((rr as u8), ((cc + 1) as u8))
    } else {
        (((rr + 1) as u8), ((cc + 1) as u8))
    }
}

/// The start vertex of a curve opened with segment `o` in cell `(rr, cc)`.
pub open spec fn opening_start(rr: int, cc: int, o: Cell) -> (u8, u8) {
    if o == Cell::TopLeft || o == Cell::BottomRight {
        (((rr + 1) as u8), (cc as u8))
    } else {
        ((rr as u8), (cc as u8))
    }
}

/// Whether a vertex is one of the grid's four outer corners, where only two
/// edges meet and no curve can pass.
pub open spec fn is_corner(v: (u8, u8)) -> bool {
    (v.0 == 0 || v.0 == 7) && (v.1 == 0 || v.1 == 7)
}

/// Whether the search opens a curve with segment `o` in cell `(rr, cc)`.
pub open spec fn opening_ok(rr: int, cc: int, o: Cell) -> bool {
    &&& 0 <= rr < 7 && 0 <= cc < 7
    &&& o != Cell::Empty
    &&& !is_corner(opening_start(rr, cc, o))
}

/// The search state just after opening a curve with segment `o` in cell
/// `(rr, cc)`: every cell scanned earlier stands permanently retired, and the
/// opening cell is drawn on and logged.
pub open spec fn opening_frame(rr: int, cc: int, o: Cell) -> Frame {
    Frame {
        grid: empty_grid().update(cell_index(rr, cc), o),
        placed: marked_below(cell_index(rr, cc)).update(cell_index(rr, cc), true),
        placed_cnt: 1,
        moves: seq![((((rr as u8), (cc as u8))), opening_head(rr, cc, o))],
        head: opening_head(rr, cc, o),
        inner_cells: if is_inner(rr, cc) {
            1int
        } else {
            0int
        },
    }
}

/// Every admissible opening among the first `k` cells of the scan, followed
/// by any admissible closing run, has its final grid among `gs`.
pub open spec fn openings_harvested(
    k: int,
    target: Area,
    max_length: u8,
    max_inner_cells: u8,
    gs: Seq<Grid>,
) -> bool {
    forall|rr: int, cc: int, o: Cell|
        opening_ok(rr, cc, o) && cell_index(rr, cc) < k ==> #[trigger] runs_harvested(
            opening_frame(rr, cc, o),
            opening_start(rr, cc, o),
            target,
            max_length,
            max_inner_cells,
            gs,
        )
}

proof fn lemma_harvest_persists(vg1: Seq<Grid>, vg2: Seq<Grid>, s: Seq<Cell>)
    requires
        harvested(vg1, s),
        vg1.len() <= vg2.len(),
        forall|q: int| 0 <= q < vg1.len() ==> #[trigger] vg2[q] == vg1[q],
    ensures
        harvested(vg2, s),
{
    let q = choose|q: int| 0 <= q < vg1.len() && (#[trigger] vg1[q])@ == s;
    assert(vg2[q]@ == s);
}

proof fn lemma_runs_harvested_persists(
    f: Frame,
    start: (u8, u8),
    target: Area,
    max_length: u8,
    max_inner_cells: u8,
    vg1: Seq<Grid>,
    vg2: Seq<Grid>,
)
    requires
        runs_harvested(f, start, target, max_length, max_inner_cells, vg1),
        vg1.len() <= vg2.len(),
        forall|q: int| 0 <= q < vg1.len() ==> #[trigger] vg2[q] == vg1[q],
    ensures
        runs_harvested(f, start, target, max_length, max_inner_cells, vg2),
{
    assert forall|ms: Seq<(u8, u8, Cell, u8, u8)>| #[trigger] closing_run(
        f,
        start,
        target,
        max_length,
        max_inner_cells,
        ms,
    ) implies harvested(vg2, run_grid(f, ms)) by {
        lemma_harvest_persists(vg1, vg2, run_grid(f, ms));
    }
}

proof fn lemma_openings_persist(
    k: int,
    target: Area,
    max_length: u8,
    max_inner_cells: u8,
    vg1: Seq<Grid>,
    vg2: Seq<Grid>,
)
    requires
        openings_harvested(k, target, max_length, max_inner_cells, vg1),
        vg1.len() <= vg2.len(),
        forall|q: int| 0 <= q < vg1.len() ==> #[trigger] vg2[q] == vg1[q],
    ensures
        openings_harvested(k, target, max_length, max_inner_cells, vg2),
{
    assert forall|rr: int, cc: int, o: Cell|
        opening_ok(rr, cc, o) && cell_index(rr, cc) < k implies #[trigger] runs_harvested(
        opening_frame(rr, cc, o),
        opening_start(rr, cc, o),
        target,
        max_length,
        max_inner_cells,
        vg2,
    ) by {
        lemma_runs_harvested_persists(
            opening_frame(rr, cc, o),
            opening_start(rr, cc, o),
            target,
            max_length,
            max_inner_cells,
            vg1,
            vg2,
        );
    }
}


/// Whether `m` stands among the first `i` entries of `c`.
spec fn among(c: Seq<(u8, u8, Cell, u8, u8)>, i: int, m: (u8, u8, Cell, u8, u8)) -> bool {
    exists|q: int| 0 <= q < i && c[q] == m
}

impl Generator {
    /// One node of the search: try the first placement of a curve when the
    /// move log is empty, and every extension of the current head otherwise.
    fn next_cell(&mut self, Ghost(cert): Ghost<(int, int, Cell, Seq<(u8, u8, Cell, u8, u8)>)>)
        requires
            old(self).inv(),
            old(self).moves@.len() > 0 ==> old(self).parity_ok(),
            old(self).moves@.len() == 0 ==> old(self).grid@ == empty_grid() && (forall|p: int|
                0 <= p < 49 ==> !(#[trigger] old(self).placed@[p])),
            old(self).moves@.len() > 0 ==> opening_ok(cert.0, cert.1, cert.2) && opening_start(
                cert.0,
                cert.1,
                cert.2,
            ) == old(self).start && run_prefix(
                opening_frame(cert.0, cert.1, cert.2),
                old(self).start,
                old(self).target,
                old(self).max_length,
                old(self).max_inner_cells,
                cert.3,
            ) && play_run(opening_frame(cert.0, cert.1, cert.2), cert.3) == old(self).frame(),
        ensures
            final(self).inv(),
            final(self).grid@ == old(self).grid@,
            final(self).moves@ == old(self).moves@,
            final(self).placed_cnt == old(self).placed_cnt,
            final(self).inner_cells == old(self).inner_cells,
            final(self).target == old(self).target,
            final(self).max_inner_cells == old(self).max_inner_cells,
            final(self).max_length == old(self).max_length,
            old(self).moves@.len() > 0 ==> final(self).frame() == old(self).frame()
                && final(self).start == old(self).start,
            count_true(final(self).placed@) >= count_true(old(self).placed@),
            old(self).valid_grids@.len() <= final(self).valid_grids@.len(),
            forall|q: int|
                0 <= q < old(self).valid_grids@.len() ==> #[trigger] final(self).valid_grids@[q]
                    == old(self).valid_grids@[q],
            old(self).moves@.len() > 0 ==> runs_harvested(
                old(self).frame(),
                old(self).start,
                old(self).target,
                old(self).max_length,
                old(self).max_inner_cells,
                final(self).valid_grids@,
            ),
            old(self).moves@.len() == 0 ==> openings_harvested(
                49,
                old(self).target,
                old(self).max_length,
                old(self).max_inner_cells,
                final(self).valid_grids@,
            ),
        decreases 49 - count_true(old(self).placed@), 1int,
    {
        if self.moves.len() == 0 {
            self.first_placements();
        } else {
            self.extend(Ghost(cert));
        }
    }

    /// Try every grid cell and all four arc orientations as the curve's
    /// opening segment, skipping the placements whose implied starting vertex
    /// is a corner of the grid.  After exhausting the orientations of a cell,
    /// the cell is permanently marked placed so that no later curve is
    /// explored again from a different starting cell.
    fn first_placements(&mut self)
        requires
            old(self).inv(),
            old(self).moves@.len() == 0,
            old(self).grid@ == empty_grid(),
            forall|p: int| 0 <= p < 49 ==> !(#[trigger] old(self).placed@[p]),
        ensures
            final(self).inv(),
            final(self).grid@ == old(self).grid@,
            final(self).moves@ == old(self).moves@,
            final(self).placed_cnt == old(self).placed_cnt,
            final(self).inner_cells == old(self).inner_cells,
            final(self).target == old(self).target,
            final(self).max_inner_cells == old(self).max_inner_cells,
            final(self).max_length == old(self).max_length,
            count_true(final(self).placed@) >= count_true(old(self).placed@),
            old(self).valid_grids@.len() <= final(self).valid_grids@.len(),
            forall|q: int|
                0 <= q < old(self).valid_grids@.len() ==> #[trigger] final(self).valid_grids@[q]
                    == old(self).valid_grids@[q],
            openings_harvested(
                49,
                old(self).target,
                old(self).max_length,
                old(self).max_inner_cells,
                final(self).valid_grids@,
            ),
        decreases 49 - count_true(old(self).placed@), 0int,
    {
        let ghost t0 = self.target;
        let ghost ml0 = self.max_length;
        let ghost mi0 = self.max_inner_cells;
        for r in 0..7u8
            invariant
                self.inv(),
                self.moves@.len() == 0,
                self.grid@ == empty_grid(),
                forall|p: int| 0 <= p < 49 ==> ((#[trigger] self.placed@[p]) <==> p < 7 * r),
                self.placed_cnt == old(self).placed_cnt,
                self.inner_cells == old(self).inner_cells,
                self.target == old(self).target,
                self.max_inner_cells == old(self).max_inner_cells,
                self.max_length == old(self).max_length,
                t0 == old(self).target,
                ml0 == old(self).max_length,
                mi0 == old(self).max_inner_cells,
                count_true(self.placed@) >= count_true(old(self).placed@),
                old(self).valid_grids@.len() <= self.valid_grids@.len(),
                forall|q: int|
                    0 <= q < old(self).valid_grids@.len() ==> #[trigger] self.valid_grids@[q]
                        == old(self).valid_grids@[q],
                openings_harvested(7 * r as int, t0, ml0, mi0, self.valid_grids@),
        {
            for c in 0..7u8
                invariant
                    r < 7,
                    self.inv(),
                    self.moves@.len() == 0,
                    self.grid@ == empty_grid(),
                    forall|p: int|
                        0 <= p < 49 ==> ((#[trigger] self.placed@[p]) <==> p < 7 * r + c),
                    self.placed_cnt == old(self).placed_cnt,
                    self.inner_cells == old(self).inner_cells,
                    self.target == old(self).target,
                    self.max_inner_cells == old(self).max_inner_cells,
                    self.max_length == old(self).max_length,
                    t0 == old(self).target,
                    ml0 == old(self).max_length,
                    mi0 == old(self).max_inner_cells,
                    count_true(self.placed@) >= count_true(old(self).placed@),
                    old(self).valid_grids@.len() <= self.valid_grids@.len(),
                    forall|q: int|
                        0 <= q < old(self).valid_grids@.len() ==> #[trigger] self.valid_grids@[q]
                            == old(self).valid_grids@[q],
                    openings_harvested(7 * r as int + c as int, t0, ml0, mi0, self.valid_grids@),
            {
                let ghost idx0 = cell_index(r as int, c as int);
                let ghost vg_iter0 = self.valid_grids@;
                let ghost mut tl_done: bool = false;
                let ghost mut tr_done: bool = false;
                let ghost mut bl_done: bool = false;
                let ghost mut br_done: bool = false;

                // A left-corner arc here runs along the forward diagonal
                // and starts the curve at vertex (r+1, c); a right-corner arc
                // runs along the backward diagonal and starts it at (r, c).
                let fsr = r + 1;
                let fsc = c;
                if !((fsr == 0 && fsc == 0) || (fsr == 0 && fsc == 7) || (fsr == 7 && fsc == 0)
                    || (fsr == 7 && fsc == 7)) {
                    self.head = (r, c + 1);
                    self.start = (r + 1, c);
                    let ghost f0 = self.frame();
                    self.place(r, c, Cell::TopLeft, r, c + 1);
                    proof {
                        lemma_count_true_le_len(self.placed@);
                        // the state is exactly the opening state for this cell
                        assert(f0.placed =~= marked_below(idx0));
                        assert(f0.moves =~= Seq::<((u8, u8), (u8, u8))>::empty());
                        let of = opening_frame(r as int, c as int, Cell::TopLeft);
                        assert(self.frame().grid =~= of.grid);
                        assert(self.frame().placed =~= of.placed);
                        assert(self.frame().moves =~= of.moves);
                        assert(self.frame() =~= of);
                        assert(self.start == opening_start(r as int, c as int, Cell::TopLeft));
                    }
                    proof {
                        assert(play_run(
                            opening_frame(r as int, c as int, Cell::TopLeft),
                            Seq::<(u8, u8, Cell, u8, u8)>::empty(),
                        ) == opening_frame(r as int, c as int, Cell::TopLeft));
                        assert(run_prefix(
                            opening_frame(r as int, c as int, Cell::TopLeft),
                            self.start,
                            t0,
                            ml0,
                            mi0,
                            Seq::<(u8, u8, Cell, u8, u8)>::empty(),
                        ));
                        assert(!is_corner(opening_start(r as int, c as int, Cell::TopLeft)));
                    }
                    self.next_cell(
                        Ghost(
                            (
                                r as int,
                                c as int,
                                Cell::TopLeft,
                                Seq::<(u8, u8, Cell, u8, u8)>::empty(),
                            ),
                        ),
                    );
                    proof {
                        tl_done = true;
                        assert(runs_harvested(
                            opening_frame(r as int, c as int, Cell::TopLeft),
                            opening_start(r as int, c as int, Cell::TopLeft),
                            t0,
                            ml0,
                            mi0,
                            self.valid_grids@,
                        ));
                    }
                    self.unplace();
                    proof {
                        let m = Placement {
                            row: r,
                            col: c,
                            cell: Cell::TopLeft,
                            head: (r, (c + 1) as u8),
                        };
                        lemma_place_then_unplace(f0, m);
                        assert(self.frame() =~= f0);
                    }
                }
                let ghost vg1 = self.valid_grids@;
                proof {
                    assert(vg_iter0.len() <= vg1.len());
                    assert(forall|q: int|
                        0 <= q < vg_iter0.len() ==> #[trigger] vg1[q] == vg_iter0[q]);
                }
                if !((r == 0 && c == 0) || (r == 0 && c == 7) || (r == 7 && c == 0) || (r == 7
                    && c == 7)) {
                    self.head = (r + 1, c + 1);
                    self.start = (r, c);
                    let ghost f0 = self.frame();
                    self.place(r, c, Cell::TopRight, r + 1, c + 1);
                    proof {
                        lemma_count_true_le_len(self.placed@);
                        // the state is exactly the opening state for this cell
                        assert(f0.placed =~= marked_below(idx0));
                        assert(f0.moves =~= Seq::<((u8, u8), (u8, u8))>::empty());
                        let of = opening_frame(r as int, c as int, Cell::TopRight);
                        assert(self.frame().grid =~= of.grid);
                        assert(self.frame().placed =~= of.placed);
                        assert(self.frame().moves =~= of.moves);
                        assert(self.frame() =~= of);
                        assert(self.start == opening_start(r as int, c as int, Cell::TopRight));
                    }
                    proof {
                        assert(play_run(
                            opening_frame(r as int, c as int, Cell::TopRight),
                            Seq::<(u8, u8, Cell, u8, u8)>::empty(),
                        ) == opening_frame(r as int, c as int, Cell::TopRight));
                        assert(run_prefix(
                            opening_frame(r as int, c as int, Cell::TopRight),
                            self.start,
                            t0,
                            ml0,
                            mi0,
                            Seq::<(u8, u8, Cell, u8, u8)>::empty(),
                        ));
                        assert(!is_corner(opening_start(r as int, c as int, Cell::TopRight)));
                    }
                    self.next_cell(
                        Ghost(
                            (
                                r as int,
                                c as int,
                                Cell::TopRight,
                                Seq::<(u8, u8, Cell, u8, u8)>::empty(),
                            ),
                        ),
                    );
                    proof {
                        tr_done = true;
                        assert(runs_harvested(
                            opening_frame(r as int, c as int, Cell::TopRight),
                            opening_start(r as int, c as int, Cell::TopRight),
                            t0,
                            ml0,
                            mi0,
                            self.valid_grids@,
                        ));
                    }
                    self.unplace();
                    proof {
                        let m = Placement {
                            row: r,
                            col: c,
                            cell: Cell::TopRight,
                            head: ((r + 1) as u8, (c + 1) as u8),
                        };
                        lemma_place_then_unplace(f0, m);
                        assert(self.frame() =~= f0);
                    }
                }
                let ghost vg2 = self.valid_grids@;
                proof {
                    assert(vg1.len() <= vg2.len());
                    assert(forall|q: int|
                        0 <= q < vg1.len() ==> #[trigger] vg2[q] == vg1[q]);
                }
                if !((r == 0 && c == 0) || (r == 0 && c == 7) || (r == 7 && c == 0) || (r == 7
                    && c == 7)) {
                    self.head = (r + 1, c + 1);
                    self.start = (r, c);
                    let ghost f0 = self.frame();
                    self.place(r, c, Cell::BottomLeft, r + 1, c + 1);
                    proof {
                        lemma_count_true_le_len(self.placed@);
                        // the state is exactly the opening state for this cell
                        assert(f0.placed =~= marked_below(idx0));
                        assert(f0.moves =~= Seq::<((u8, u8), (u8, u8))>::empty());
                        let of = opening_frame(r as int, c as int, Cell::BottomLeft);
                        assert(self.frame().grid =~= of.grid);
                        assert(self.frame().placed =~= of.placed);
                        assert(self.frame().moves =~= of.moves);
                        assert(self.frame() =~= of);
                        assert(self.start == opening_start(r as int, c as int, Cell::BottomLeft));
                    }
                    proof {
                        assert(play_run(
                            opening_frame(r as int, c as int, Cell::BottomLeft),
                            Seq::<(u8, u8, Cell, u8, u8)>::empty(),
                        ) == opening_frame(r as int, c as int, Cell::BottomLeft));
                        assert(run_prefix(
                            opening_frame(r as int, c as int, Cell::BottomLeft),
                            self.start,
                            t0,
                            ml0,
                            mi0,
                            Seq::<(u8, u8, Cell, u8, u8)>::empty(),
                        ));
                        assert(!is_corner(opening_start(r as int, c as int, Cell::BottomLeft)));
                    }
                    self.next_cell(
                        Ghost(
                            (
                                r as int,
                                c as int,
                                Cell::BottomLeft,
                                Seq::<(u8, u8, Cell, u8, u8)>::empty(),
                            ),
                        ),
                    );
                    proof {
                        bl_done = true;
                        assert(runs_harvested(
                            opening_frame(r as int, c as int, Cell::BottomLeft),
                            opening_start(r as int, c as int, Cell::BottomLeft),
                            t0,
                            ml0,
                            mi0,
                            self.valid_grids@,
                        ));
                    }
                    self.unplace();
                    proof {
                        let m = Placement {
                            row: r,
                            col: c,
                            cell: Cell::BottomLeft,
                            head: ((r + 1) as u8, (c + 1) as u8),
                        };
                        lemma_place_then_unplace(f0, m);
                        assert(self.frame() =~= f0);
                    }
                }
                let ghost vg3 = self.valid_grids@;
                proof {
                    assert(vg2.len() <= vg3.len());
                    assert(forall|q: int|
                        0 <= q < vg2.len() ==> #[trigger] vg3[q] == vg2[q]);
                }
                if !((fsr == 0 && fsc == 0) || (fsr == 0 && fsc == 7) || (fsr == 7 && fsc == 0)
                    || (fsr == 7 && fsc == 7)) {
                    self.head = (r, c + 1);
                    self.start = (r + 1, c);
                    let ghost f0 = self.frame();
                    self.place(r, c, Cell::BottomRight, r, c + 1);
                    proof {
                        lemma_count_true_le_len(self.placed@);
                        // the state is exactly the opening state for this cell
                        assert(f0.placed =~= marked_below(idx0));
                        assert(f0.moves =~= Seq::<((u8, u8), (u8, u8))>::empty());
                        let of = opening_frame(r as int, c as int, Cell::BottomRight);
                        assert(self.frame().grid =~= of.grid);
                        assert(self.frame().placed =~= of.placed);
                        assert(self.frame().moves =~= of.moves);
                        assert(self.frame() =~= of);
                        assert(self.start == opening_start(r as int, c as int, Cell::BottomRight));
                    }
                    proof {
                        assert(play_run(
                            opening_frame(r as int, c as int, Cell::BottomRight),
                            Seq::<(u8, u8, Cell, u8, u8)>::empty(),
                        ) == opening_frame(r as int, c as int, Cell::BottomRight));
                        assert(run_prefix(
                            opening_frame(r as int, c as int, Cell::BottomRight),
                            self.start,
                            t0,
                            ml0,
                            mi0,
                            Seq::<(u8, u8, Cell, u8, u8)>::empty(),
                        ));
                        assert(!is_corner(opening_start(r as int, c as int, Cell::BottomRight)));
                    }
                    self.next_cell(
                        Ghost(
                            (
                                r as int,
                                c as int,
                                Cell::BottomRight,
                                Seq::<(u8, u8, Cell, u8, u8)>::empty(),
                            ),
                        ),
                    );
                    proof {
                        br_done = true;
                        assert(runs_harvested(
                            opening_frame(r as int, c as int, Cell::BottomRight),
                            opening_start(r as int, c as int, Cell::BottomRight),
                            t0,
                            ml0,
                            mi0,
                            self.valid_grids@,
                        ));
                    }
                    self.unplace();
                    proof {
                        let m = Placement {
                            row: r,
                            col: c,
                            cell: Cell::BottomRight,
                            head: (r, (c + 1) as u8),
                        };
                        lemma_place_then_unplace(f0, m);
                        assert(self.frame() =~= f0);
                    }
                }
                proof {
                    // the harvested grids only accumulated over the trials
                    assert(vg3.len() <= self.valid_grids@.len());
                    assert(forall|q: int|
                        0 <= q < vg3.len() ==> #[trigger] self.valid_grids@[q] == vg3[q]);
                    assert forall|q: int| 0 <= q < vg2.len() implies #[trigger] self.valid_grids@[q]
                        == vg2[q] by {
                        assert(vg3[q] == vg2[q]);
                    }
                    assert forall|q: int| 0 <= q < vg1.len() implies #[trigger] self.valid_grids@[q]
                        == vg1[q] by {
                        assert(vg2[q] == vg1[q]);
                        assert(vg3[q] == vg2[q]);
                    }
                    assert forall|q: int| 0 <= q < vg_iter0.len() implies #[trigger] self.valid_grids@[q]
                        == vg_iter0[q] by {
                        assert(vg1[q] == vg_iter0[q]);
                        assert(vg2[q] == vg1[q]);
                        assert(vg3[q] == vg2[q]);
                    }
                    lemma_openings_persist(
                        7 * r as int + c as int,
                        t0,
                        ml0,
                        mi0,
                        vg_iter0,
                        self.valid_grids@,
                    );
                    if tl_done {
                        lemma_runs_harvested_persists(
                            opening_frame(r as int, c as int, Cell::TopLeft),
                            opening_start(r as int, c as int, Cell::TopLeft),
                            t0,
                            ml0,
                            mi0,
                            vg1,
                            self.valid_grids@,
                        );
                    }
                    if tr_done {
                        lemma_runs_harvested_persists(
                            opening_frame(r as int, c as int, Cell::TopRight),
                            opening_start(r as int, c as int, Cell::TopRight),
                            t0,
                            ml0,
                            mi0,
                            vg2,
                            self.valid_grids@,
                        );
                    }
                    if bl_done {
                        lemma_runs_harvested_persists(
                            opening_frame(r as int, c as int, Cell::BottomLeft),
                            opening_start(r as int, c as int, Cell::BottomLeft),
                            t0,
                            ml0,
                            mi0,
                            vg3,
                            self.valid_grids@,
                        );
                    }
                    // every opening among the first 7r+c+1 cells is covered:
                    // the earlier ones by the carried invariant, and all four
                    // orientations of this cell by the four trials (an
                    // orientation skipped as a corner start admits no opening)
                    assert forall|rr: int, cc: int, o: Cell|
                        opening_ok(rr, cc, o) && cell_index(rr, cc) < 7 * r + c + 1 implies #[trigger] runs_harvested(
                        opening_frame(rr, cc, o),
                        opening_start(rr, cc, o),
                        t0,
                        ml0,
                        mi0,
                        self.valid_grids@,
                    ) by {
                        if cell_index(rr, cc) >= 7 * r + c {
                            assert(rr == r as int && cc == c as int);
                            assert(!is_corner(opening_start(rr, cc, o)));
                            if o == Cell::TopLeft {
                                assert(tl_done);
                            } else if o == Cell::TopRight {
                                assert(tr_done);
                            } else if o == Cell::BottomLeft {
                                assert(bl_done);
                            } else {
                                assert(o == Cell::BottomRight);
                                assert(br_done);
                            }
                        }
                    }
                }
                // Unlike with non-first cells, keep this cell marked placed,
                // so that no later loop ever comes back here.
                let idx = (r as usize) * 7 + (c as usize);
                proof {
                    lemma_count_true_update(self.placed@, cell_index(r as int, c as int), true);
                }
                self.placed.set(idx, true);
            }
        }
    }

    /// From the current head vertex, try every admissible arc move: test
    /// each for self-intersection at the new vertex, harvest the grid when
    /// the move closes the loop on the target area, and otherwise place the
    /// move and search on, within the pruning bounds.
    #[verifier::rlimit(100)]
    #[verifier::spinoff_prover]
    fn extend(&mut self, Ghost(cert): Ghost<(int, int, Cell, Seq<(u8, u8, Cell, u8, u8)>)>)
        requires
            old(self).inv(),
            old(self).moves@.len() > 0,
            old(self).parity_ok(),
            opening_ok(cert.0, cert.1, cert.2),
            opening_start(cert.0, cert.1, cert.2) == old(self).start,
            run_prefix(
                opening_frame(cert.0, cert.1, cert.2),
                old(self).start,
                old(self).target,
                old(self).max_length,
                old(self).max_inner_cells,
                cert.3,
            ),
            play_run(opening_frame(cert.0, cert.1, cert.2), cert.3) == old(self).frame(),
        ensures
            final(self).inv(),
            final(self).frame() == old(self).frame(),
            final(self).start == old(self).start,
            final(self).target == old(self).target,
            final(self).max_inner_cells == old(self).max_inner_cells,
            final(self).max_length == old(self).max_length,
            old(self).valid_grids@.len() <= final(self).valid_grids@.len(),
            forall|q: int|
                0 <= q < old(self).valid_grids@.len() ==> #[trigger] final(self).valid_grids@[q]
                    == old(self).valid_grids@[q],
            runs_harvested(
                old(self).frame(),
                old(self).start,
                old(self).target,
                old(self).max_length,
                old(self).max_inner_cells,
                final(self).valid_grids@,
            ),
        decreases 49 - count_true(old(self).placed@), 0int,
    {
        // The cell placed most recently is still drawn on.
        let lastmv = self.moves[self.moves.len() - 1];
        proof {
            assert(lastmv == self.moves@[self.moves@.len() - 1]);
            assert(self.grid@[mv_index(lastmv)] != Cell::Empty);
        }

        // The four cells around the head vertex; collect the moves that aim
        // at an unplaced cell, with the two arc orientations allowed by the
        // direction of travel.
        let hr = self.head.0;
        let hc = self.head.1;
        let ghost f0 = self.frame();
        let ghost s0 = self.start;
        let ghost t0 = self.target;
        let ghost ml0 = self.max_length;
        let ghost mi0 = self.max_inner_cells;
        let mut cands: Vec<(u8, u8, Cell, u8, u8)> = Vec::with_capacity(6);
        let ghost mut i_ul1: int = -1;
        let ghost mut i_ul2: int = -1;
        let ghost mut i_ur1: int = -1;
        let ghost mut i_ur2: int = -1;
        let ghost mut i_dl1: int = -1;
        let ghost mut i_dl2: int = -1;
        let ghost mut i_dr1: int = -1;
        let ghost mut i_dr2: int = -1;

        if hr >= 1 && hc >= 1 {
            if !self.placed_at(hr - 1, hc - 1) {
                cands.push((hr - 1, hc - 1, Cell::TopRight, hr - 1, hc - 1));
                proof {
                    i_ul1 = cands@.len() - 1;
                    assert(cands@[i_ul1] == ((hr - 1) as u8, (hc - 1) as u8, Cell::TopRight, (hr
                        - 1) as u8, (hc - 1) as u8));
                }
                cands.push((hr - 1, hc - 1, Cell::BottomLeft, hr - 1, hc - 1));
                proof {
                    i_ul2 = cands@.len() - 1;
                    assert(cands@[i_ul2] == ((hr - 1) as u8, (hc - 1) as u8, Cell::BottomLeft, (hr
                        - 1) as u8, (hc - 1) as u8));
                }
            }
        }
        if hr >= 1 && hc < 7 {
            if !self.placed_at(hr - 1, hc) {
                cands.push((hr - 1, hc, Cell::TopLeft, hr - 1, hc + 1));
                proof {
                    i_ur1 = cands@.len() - 1;
                    assert(cands@[i_ur1] == ((hr - 1) as u8, hc, Cell::TopLeft, (hr - 1) as u8, (hc
                        + 1) as u8));
                }
                cands.push((hr - 1, hc, Cell::BottomRight, hr - 1, hc + 1));
                proof {
                    i_ur2 = cands@.len() - 1;
                    assert(cands@[i_ur2] == ((hr - 1) as u8, hc, Cell::BottomRight, (hr
                        - 1) as u8, (hc + 1) as u8));
                }
            }
        }
        if hr < 7 && hc >= 1 {
            if !self.placed_at(hr, hc - 1) {
                cands.push((hr, hc - 1, Cell::TopLeft, hr + 1, hc - 1));
                proof {
                    i_dl1 = cands@.len() - 1;
                    assert(cands@[i_dl1] == (hr, (hc - 1) as u8, Cell::TopLeft, (hr + 1) as u8, (hc
                        - 1) as u8));
                }
                cands.push((hr, hc - 1, Cell::BottomRight, hr + 1, hc - 1));
                proof {
                    i_dl2 = cands@.len() - 1;
                    assert(cands@[i_dl2] == (hr, (hc - 1) as u8, Cell::BottomRight, (hr
                        + 1) as u8, (hc - 1) as u8));
                }
            }
        }
        if hr < 7 && hc < 7 {
            if !self.placed_at(hr, hc) {
                cands.push((hr, hc, Cell::TopRight, hr + 1, hc + 1));
                proof {
                    i_dr1 = cands@.len() - 1;
                    assert(cands@[i_dr1] == (hr, hc, Cell::TopRight, (hr + 1) as u8, (hc
                        + 1) as u8));
                }
                cands.push((hr, hc, Cell::BottomLeft, hr + 1, hc + 1));
                proof {
                    i_dr2 = cands@.len() - 1;
                    assert(cands@[i_dr2] == (hr, hc, Cell::BottomLeft, (hr + 1) as u8, (hc
                        + 1) as u8));
                }
            }
        }

        assert(forall|q: int|
            0 <= q < cands@.len() ==> cand_ok(f0.placed, f0.head, #[trigger] cands@[q]));
        assert(forall|q: int| 0 <= q < cands@.len() ==> offered(f0, #[trigger] cands@[q]));
        proof {
            // the candidate list holds every move the search offers here
            assert(f0.head == ((hr, hc)));
            assert forall|m: (u8, u8, Cell, u8, u8)| offered(f0, m) implies among(
                cands@,
                cands@.len() as int,
                m,
            ) by {
                if hr >= 1 && hc >= 1 && !f0.placed[cell_index(hr - 1, hc - 1)] && m == (((hr
                    - 1) as u8), ((hc - 1) as u8), Cell::TopRight, ((hr - 1) as u8), ((hc
                    - 1) as u8)) {
                    assert(cands@[i_ul1] == m);
                } else if hr >= 1 && hc >= 1 && !f0.placed[cell_index(hr - 1, hc - 1)] && m
                    == (((hr - 1) as u8), ((hc - 1) as u8), Cell::BottomLeft, ((hr - 1) as u8), ((hc
                    - 1) as u8)) {
                    assert(cands@[i_ul2] == m);
                } else if hr >= 1 && hc < 7 && !f0.placed[cell_index(hr - 1, hc as int)] && m
                    == (((hr - 1) as u8), hc, Cell::TopLeft, ((hr - 1) as u8), ((hc + 1) as u8)) {
                    assert(cands@[i_ur1] == m);
                } else if hr >= 1 && hc < 7 && !f0.placed[cell_index(hr - 1, hc as int)] && m
                    == (((hr - 1) as u8), hc, Cell::BottomRight, ((hr - 1) as u8), ((hc
                    + 1) as u8)) {
                    assert(cands@[i_ur2] == m);
                } else if hr < 7 && hc >= 1 && !f0.placed[cell_index(hr as int, hc - 1)] && m
                    == ((hr, ((hc - 1) as u8), Cell::TopLeft, ((hr + 1) as u8), ((hc - 1) as u8))) {
                    assert(cands@[i_dl1] == m);
                } else if hr < 7 && hc >= 1 && !f0.placed[cell_index(hr as int, hc - 1)] && m
                    == ((hr, ((hc - 1) as u8), Cell::BottomRight, ((hr + 1) as u8), ((hc
                    - 1) as u8))) {
                    assert(cands@[i_dl2] == m);
                } else if hr < 7 && hc < 7 && !f0.placed[cell_index(hr as int, hc as int)] && m
                    == ((hr, hc, Cell::TopRight, ((hr + 1) as u8), ((hc + 1) as u8))) {
                    assert(cands@[i_dr1] == m);
                } else {
                    assert(cands@[i_dr2] == m);
                }
            }
        }
        let mut i: usize = 0;
        while i < cands.len()
            invariant
                self.inv(),
                self.frame() == f0,
                f0 == old(self).frame(),
                self.moves@.len() > 0,
                self.parity_ok(),
                self.start == old(self).start,
                self.target == old(self).target,
                self.max_inner_cells == old(self).max_inner_cells,
                self.max_length == old(self).max_length,
                s0 == old(self).start,
                t0 == old(self).target,
                ml0 == old(self).max_length,
                mi0 == old(self).max_inner_cells,
                opening_ok(cert.0, cert.1, cert.2),
                opening_start(cert.0, cert.1, cert.2) == s0,
                run_prefix(opening_frame(cert.0, cert.1, cert.2), s0, t0, ml0, mi0, cert.3),
                play_run(opening_frame(cert.0, cert.1, cert.2), cert.3) == f0,
                i <= cands@.len(),
                forall|q: int|
                    0 <= q < cands@.len() ==> cand_ok(f0.placed, f0.head, #[trigger] cands@[q]),
                forall|q: int| 0 <= q < cands@.len() ==> offered(f0, #[trigger] cands@[q]),
                forall|mm: (u8, u8, Cell, u8, u8)|
                    offered(f0, mm) ==> among(cands@, cands@.len() as int, mm),
                forall|ms: Seq<(u8, u8, Cell, u8, u8)>|
                    #[trigger] closing_run(f0, s0, t0, ml0, mi0, ms) && among(
                        cands@,
                        i as int,
                        ms[0],
                    ) ==> harvested(self.valid_grids@, run_grid(f0, ms)),
                old(self).valid_grids@.len() <= self.valid_grids@.len(),
                forall|q: int|
                    0 <= q < old(self).valid_grids@.len() ==> #[trigger] self.valid_grids@[q]
                        == old(self).valid_grids@[q],
            decreases cands@.len() - i,
        {
            let m = cands[i];
            let (cr, cc, ncell, nr, nc) = m;
            let ghost vg_iter = self.valid_grids@;
            proof {
                assert(cand_ok(f0.placed, f0.head, cands@[i as int]));
                lemma_count_true_le_len(self.placed@);
                assert(m == cands@[i as int]);
            }
            let ghost mp = Placement { row: cr, col: cc, cell: ncell, head: (nr, nc) };

            // Count the already-drawn cells around the proposed new head
            // vertex: two or more means the curve would touch itself there.
            let cnt = self.filled_around(nr, nc);

            if cnt >= 2 {
                proof {
                    // no admissible run starts with a self-touching move
                    assert forall|ms: Seq<(u8, u8, Cell, u8, u8)>| #[trigger] closing_run(
                        f0,
                        s0,
                        t0,
                        ml0,
                        mi0,
                        ms,
                    ) && among(cands@, i as int + 1, ms[0]) implies harvested(
                        self.valid_grids@,
                        run_grid(f0, ms),
                    ) by {
                        if !among(cands@, i as int, ms[0]) {
                            let q = choose|q: int| 0 <= q < i as int + 1 && cands@[q] == ms[0];
                            assert(ms[0] == m);
                            assert(step_ok(f0, ms[0]));
                            assert(false);
                        }
                    }
                }
                i = i + 1;
                continue;
            }

            let ghost mut pass_ok: bool = false;
            let ghost mut vg_mark: Seq<Grid> = self.valid_grids@;

            // Does this move close the loop?  A closing move lands the head
            // on the start vertex; the parity invariant then makes the total
            // placed count even.
            if nr == self.start.0 && nc == self.start.1 {
                self.place(cr, cc, ncell, nr, nc);
                proof {
                    assert(self.placed_cnt % 2 == 0);
                }
                let area = self.grid.loop_area().unwrap();

                if area == self.target {
                    let g = self.grid.duplicate();
                    proof {
                        assert(loop_area_spec(g@) == self.target);
                    }
                    let ghost vg_pre = self.valid_grids@;
                    self.valid_grids.push(g);
                    proof {
                        assert forall|q: int|
                            0 <= q < self.valid_grids@.len() implies (#[trigger] self.valid_grids@[q])@.len()
                            == 49 && loop_area_spec(self.valid_grids@[q]@) == self.target
                            && grid_segs(self.valid_grids@[q]@) % 2 == 0 by {
                            if q == self.valid_grids@.len() - 1 {
                                assert(self.valid_grids@[q] == g);
                                assert(grid_segs(g@) == self.placed_cnt as int);
                            } else {
                                assert(self.valid_grids@[q] == vg_pre[q]);
                            }
                        }
                        // the freshly closed grid is harvested
                        pass_ok = true;
                        vg_mark = self.valid_grids@;
                        assert(mp == Placement { row: m.0, col: m.1, cell: m.2, head: (m.3, m.4) });
                        assert(g@ == run_step(f0, m).grid);
                        assert(self.valid_grids@[self.valid_grids@.len() - 1] == g);
                        assert(harvested(vg_mark, run_step(f0, m).grid));
                        // and it is the grid of the run the certificate traces
                        assert(step_ok(f0, m));
                        lemma_closing_of_prefix(
                            opening_frame(cert.0, cert.1, cert.2),
                            s0,
                            t0,
                            ml0,
                            mi0,
                            cert.3,
                            m,
                        );
                        assert forall|q: int|
                            0 <= q < self.valid_grids@.len() implies exists|
                            rr: int,
                            cc: int,
                            o: Cell,
                            ms: Seq<(u8, u8, Cell, u8, u8)>,
                        |
                            opening_ok(rr, cc, o) && closing_run(
                                opening_frame(rr, cc, o),
                                opening_start(rr, cc, o),
                                t0,
                                ml0,
                                mi0,
                                ms,
                            ) && run_grid(opening_frame(rr, cc, o), ms) == (#[trigger] self.valid_grids@[q])@ by {
                            if q == self.valid_grids@.len() - 1 {
                                assert(opening_ok(cert.0, cert.1, cert.2) && closing_run(
                                    opening_frame(cert.0, cert.1, cert.2),
                                    opening_start(cert.0, cert.1, cert.2),
                                    t0,
                                    ml0,
                                    mi0,
                                    cert.3.push(m),
                                ) && run_grid(opening_frame(cert.0, cert.1, cert.2), cert.3.push(m))
                                    == self.valid_grids@[q]@);
                            } else {
                                assert(self.valid_grids@[q] == vg_pre[q]);
                            }
                        }
                    }
                    self.unplace();
                } else {
                    // We formed a loop, but of the wrong area: the search
                    // abandons this move, and no admissible run goes through it.
                    self.unplace();
                    proof {
                        lemma_place_then_unplace(f0, mp);
                        assert(self.frame() =~= f0);
                        assert(loop_area_spec(run_step(f0, m).grid) != t0);
                        assert forall|ms: Seq<(u8, u8, Cell, u8, u8)>| #[trigger] closing_run(
                            f0,
                            s0,
                            t0,
                            ml0,
                            mi0,
                            ms,
                        ) && among(cands@, i as int + 1, ms[0]) implies harvested(
                            self.valid_grids@,
                            run_grid(f0, ms),
                        ) by {
                            if !among(cands@, i as int, ms[0]) {
                                let q = choose|q: int| 0 <= q < i as int + 1 && cands@[q] == ms[0];
                                assert(ms[0] == m);
                                assert(((ms[0].3, ms[0].4)) == s0);
                                assert(false);
                            }
                        }
                    }
                    i = i + 1;
                    continue;
                }
                proof {
                    lemma_place_then_unplace(f0, mp);
                    assert(self.frame() =~= f0);
                }
            }

            if self.placed_cnt + 1 > self.max_length {
                proof {
                    // too long to extend: single closing moves were already
                    // harvested, and longer runs are out of bounds
                    assert forall|ms: Seq<(u8, u8, Cell, u8, u8)>| #[trigger] closing_run(
                        f0,
                        s0,
                        t0,
                        ml0,
                        mi0,
                        ms,
                    ) && among(cands@, i as int + 1, ms[0]) implies harvested(
                        self.valid_grids@,
                        run_grid(f0, ms),
                    ) by {
                        if !among(cands@, i as int, ms[0]) {
                            let q = choose|q: int| 0 <= q < i as int + 1 && cands@[q] == ms[0];
                            assert(ms[0] == m);
                            if ms.len() == 1 {
                                assert(pass_ok);
                                assert(run_grid(f0, ms) == run_step(f0, m).grid);
                                lemma_harvest_persists(
                                    vg_mark,
                                    self.valid_grids@,
                                    run_step(f0, m).grid,
                                );
                            } else {
                                assert(!deeper_ok(f0, ms[0], ml0, mi0));
                                assert(false);
                            }
                        } else {
                            lemma_harvest_persists(vg_iter, self.valid_grids@, run_grid(f0, ms));
                        }
                    }
                }
                i = i + 1;
                continue;
            }

            // Place the current possibility and search deeper, unless the
            // inner-cell pruning bound is exceeded.
            self.place(cr, cc, ncell, nr, nc);
            proof {
                assert(self.frame() =~= run_step(f0, m));
            }
            let ghost mut vg_deep: Seq<Grid> = self.valid_grids@;
            let ghost mut deep: bool = false;
            if self.inner_cells <= self.max_inner_cells as usize {
                proof {
                    lemma_count_true_le_len(self.placed@);
                    assert(step_ok(f0, m));
                    assert(deeper_ok(f0, m, ml0, mi0));
                    lemma_play_run_push(opening_frame(cert.0, cert.1, cert.2), cert.3, m);
                    lemma_run_prefix_push(
                        opening_frame(cert.0, cert.1, cert.2),
                        s0,
                        t0,
                        ml0,
                        mi0,
                        cert.3,
                        m,
                    );
                }
                self.next_cell(Ghost((cert.0, cert.1, cert.2, cert.3.push(m))));
                proof {
                    deep = true;
                    vg_deep = self.valid_grids@;
                    assert(runs_harvested(run_step(f0, m), s0, t0, ml0, mi0, vg_deep));
                }
            }
            self.unplace();
            proof {
                lemma_place_then_unplace(f0, mp);
                assert(self.frame() =~= f0);
                // the harvested grids only accumulated along the way
                assert(self.valid_grids@ == vg_deep);
                assert(vg_iter.len() <= vg_mark.len() && vg_mark.len() <= vg_deep.len());
                assert forall|q: int| 0 <= q < vg_mark.len() implies #[trigger] vg_deep[q]
                    == vg_mark[q] by {}
                assert forall|q: int| 0 <= q < vg_iter.len() implies #[trigger] self.valid_grids@[q]
                    == vg_iter[q] by {
                    assert(vg_mark[q] == vg_iter[q]);
                    assert(vg_deep[q] == vg_mark[q]);
                }
                assert forall|ms: Seq<(u8, u8, Cell, u8, u8)>| #[trigger] closing_run(
                    f0,
                    s0,
                    t0,
                    ml0,
                    mi0,
                    ms,
                ) && among(cands@, i as int + 1, ms[0]) implies harvested(
                    self.valid_grids@,
                    run_grid(f0, ms),
                ) by {
                    if !among(cands@, i as int, ms[0]) {
                        let q = choose|q: int| 0 <= q < i as int + 1 && cands@[q] == ms[0];
                        assert(ms[0] == m);
                        if ms.len() == 1 {
                            assert(((m.3, m.4)) == s0);
                            assert(pass_ok);
                            assert(run_grid(f0, ms) == run_step(f0, m).grid);
                            lemma_harvest_persists(
                                vg_mark,
                                self.valid_grids@,
                                run_step(f0, m).grid,
                            );
                        } else {
                            assert(deeper_ok(f0, ms[0], ml0, mi0));
                            assert(run_step(f0, m).inner_cells <= mi0);
                            assert(deep);
                            assert(closing_run(run_step(f0, m), s0, t0, ml0, mi0, ms.drop_first()));
                            assert(harvested(vg_deep, run_grid(run_step(f0, m), ms.drop_first())));
                            assert(run_grid(f0, ms) == run_grid(run_step(f0, m), ms.drop_first()));
                            assert(harvested(self.valid_grids@, run_grid(f0, ms)));
                        }
                    } else {
                        lemma_harvest_persists(vg_iter, self.valid_grids@, run_grid(f0, ms));
                    }
                }
            }
            i = i + 1;
        }
        proof {
            // every admissible closing run starts with an offered move, every
            // offered move is a candidate, and every candidate was processed
            assert forall|ms: Seq<(u8, u8, Cell, u8, u8)>| #[trigger] closing_run(
                f0,
                s0,
                t0,
                ml0,
                mi0,
                ms,
            ) implies harvested(self.valid_grids@, run_grid(f0, ms)) by {
                assert(step_ok(f0, ms[0]));
                assert(offered(f0, ms[0]));
                assert(among(cands@, cands@.len() as int, ms[0]));
                assert(among(cands@, i as int, ms[0]));
            }
        }
    }

    /// Run the search to completion and consume the generator, returning
    /// every valid grid layout found.  Every returned grid encloses exactly
    /// the (simplified) target area with an even number of arc segments; a
    /// target of more than the grid's 49 units can have no solutions at all.
    /// The returned set of layouts is pinned exactly: every admissible
    /// opening, followed by any admissible closing run on the target area
    /// within the pruning bounds, has its final grid among the returned
    /// layouts, and conversely every returned layout is the final grid of
    /// such an opening and run.
    pub fn generate(self) -> (r: Vec<Grid>)
        requires
            self.inv(),
            self.fresh(),
        ensures
            forall|i: int| 0 <= i < r@.len() ==> (#[trigger] r@[i]).wf(),
            forall|i: int|
                0 <= i < r@.len() ==> loop_area_spec((#[trigger] r@[i])@) == self.spec_target(),
            forall|i: int| 0 <= i < r@.len() ==> grid_segs((#[trigger] r@[i])@) % 2 == 0,
            self.spec_target().units > 49 ==> r@.len() == 0,
            openings_harvested(
                49,
                self.spec_target(),
                self.spec_max_length(),
                self.spec_max_inner_cells(),
                r@,
            ),
            harvests_are_runs(
                r@,
                self.spec_target(),
                self.spec_max_length(),
                self.spec_max_inner_cells(),
            ),
    {
        let mut g = self;
        g.next_cell(Ghost((0int, 0int, Cell::TopLeft, Seq::empty())));
        proof {
            if g.spec_target().units > 49 && g.valid_grids@.len() > 0 {
                lemma_grid_counts(g.valid_grids@[0]@);
                assert(false);
            }
        }
        g.valid_grids
    }
}

} // verus!
