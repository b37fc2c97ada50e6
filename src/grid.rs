use vstd::prelude::*;

verus! {

/// The content of one square of a puzzle grid.
#[derive(Clone, Copy, Debug, PartialEq, Eq, Structural)]
pub enum Cell {
    /// Outside the puzzle's shape; never part of a spot.
    Void,
    /// Playable and not yet assigned.
    Blank,
    /// Playable and holding a letter.
    Letter(char),
}

/// The direction in which a word spot runs.
#[derive(Clone, Copy, Debug, PartialEq, Eq, Structural)]
pub enum Direction {
    Horizontal,
    Vertical,
}

/// A maximal run of at least two playable cells in one direction.
#[derive(Clone, Copy, Debug, PartialEq, Eq, Structural)]
pub struct WordSpot {
    pub row: usize,
    pub col: usize,
    pub dir: Direction,
    pub len: usize,
}

/// A puzzle grid with its word spots and the search's per-spot flags.
pub struct Grid {
    pub cells: Vec<Vec<Cell>>,
    pub rows: usize,
    pub cols: usize,
    pub spots: Vec<WordSpot>,
    /// `filled[k]` holds while the active search branch owns spot `k`.
    pub filled: Vec<bool>,
}

impl Grid {
    pub open spec fn board(&self) -> Board {
        view_cells(self.cells@)
    }

    /// The cells form a `rows` by `cols` rectangle, every spot lies on open
    /// cells, and there is one flag per spot.
    pub open spec fn wf(&self) -> bool {
        &&& rectangular(self.board(), self.rows as int, self.cols as int)
        &&& forall|k: int| 0 <= k < self.spots@.len() ==> spot_fits(self.board(), #[trigger] self.spots@[k])
        &&& self.filled@.len() == self.spots@.len()
    }
}

/// A grid as a mathematical value: a sequence of rows of cells.
pub type Board = Seq<Seq<Cell>>;

pub open spec fn view_cells(cells: Seq<Vec<Cell>>) -> Board {
    Seq::new(cells.len(), |i: int| cells[i]@)
}

pub open spec fn rectangular(b: Board, rows: int, cols: int) -> bool {
    &&& b.len() == rows
    &&& forall|r: int| 0 <= r < rows ==> #[trigger] b[r].len() == cols
}

/// The cell at `(r, c)` exists and is not void.
pub open spec fn open_at(b: Board, r: int, c: int) -> bool {
    &&& 0 <= r < b.len()
    &&& 0 <= c < b[r].len()
    &&& b[r][c] != Cell::Void
}

/// Number of consecutive open cells rightwards from `(r, c)`.
pub open spec fn h_run(b: Board, r: int, c: int) -> nat
    decreases b[r].len() - c,
{
    if open_at(b, r, c) {
        1 + h_run(b, r, c + 1)
    } else {
        0
    }
}

/// Number of consecutive open cells downwards from `(r, c)`.
pub open spec fn v_run(b: Board, r: int, c: int) -> nat
    decreases b.len() - r,
{
    if open_at(b, r, c) {
        1 + v_run(b, r + 1, c)
    } else {
        0
    }
}

pub open spec fn starts_h(b: Board, r: int, c: int) -> bool {
    open_at(b, r, c) && (c == 0 || !open_at(b, r, c - 1))
}

pub open spec fn starts_v(b: Board, r: int, c: int) -> bool {
    open_at(b, r, c) && (r == 0 || !open_at(b, r - 1, c))
}

pub open spec fn new_spot(r: int, c: int, dir: Direction, len: nat) -> WordSpot {
    WordSpot { row: r as usize, col: c as usize, dir, len: len as usize }
}

/// The spots that begin at cell `(r, c)`: horizontal first, then vertical.
pub open spec fn cell_spots(b: Board, r: int, c: int) -> Seq<WordSpot> {
    let h = if starts_h(b, r, c) && h_run(b, r, c) >= 2 {
        seq![new_spot(r, c, Direction::Horizontal, h_run(b, r, c))]
    } else {
        Seq::empty()
    };
    let v = if starts_v(b, r, c) && v_run(b, r, c) >= 2 {
        seq![new_spot(r, c, Direction::Vertical, v_run(b, r, c))]
    } else {
        Seq::empty()
    };
    h + v
}

/// The spots that begin in row `r` before column `c`, left to right.
pub open spec fn row_spots(b: Board, r: int, c: int) -> Seq<WordSpot>
    decreases c,
{
    if c <= 0 {
        Seq::empty()
    } else {
        row_spots(b, r, c - 1) + cell_spots(b, r, c - 1)
    }
}

/// The spots that begin in the first `r` rows, in row-major order.
pub open spec fn rows_spots(b: Board, cols: int, r: int) -> Seq<WordSpot>
    decreases r,
{
    if r <= 0 {
        Seq::empty()
    } else {
        rows_spots(b, cols, r - 1) + row_spots(b, r - 1, cols)
    }
}

/// Every spot of a board of width `cols`, in discovery order.
pub open spec fn spots_of(b: Board, cols: int) -> Seq<WordSpot> {
    rows_spots(b, cols, b.len() as int)
}

/// Row of the `j`-th cell of spot `s`.
pub open spec fn pos_r(s: WordSpot, j: int) -> int {
    match s.dir {
        Direction::Horizontal => s.row as int,
        Direction::Vertical => s.row + j,
    }
}

/// Column of the `j`-th cell of spot `s`.
pub open spec fn pos_c(s: WordSpot, j: int) -> int {
    match s.dir {
        Direction::Horizontal => s.col + j,
        Direction::Vertical => s.col as int,
    }
}

/// The run of open cells that starts at the spot's origin, in its direction.
pub open spec fn run_of(b: Board, s: WordSpot) -> nat {
    match s.dir {
        Direction::Horizontal => h_run(b, s.row as int, s.col as int),
        Direction::Vertical => v_run(b, s.row as int, s.col as int),
    }
}

pub open spec fn starts_at_boundary(b: Board, s: WordSpot) -> bool {
    match s.dir {
        Direction::Horizontal => starts_h(b, s.row as int, s.col as int),
        Direction::Vertical => starts_v(b, s.row as int, s.col as int),
    }
}

/// A spot is a maximal run of at least two open cells, from a boundary.
pub open spec fn spot_valid(b: Board, s: WordSpot) -> bool {
    &&& starts_at_boundary(b, s)
    &&& s.len == run_of(b, s)
    &&& s.len >= 2
}

/// Measures the horizontal run from `(row, col)`.
fn measure_h(cells: &Vec<Vec<Cell>>, rows: usize, cols: usize, row: usize, col: usize) -> (len: usize)
    requires
        rectangular(view_cells(cells@), rows as int, cols as int),
        row < rows,
        col < cols,
    ensures
        len == h_run(view_cells(cells@), row as int, col as int),
{
    let ghost b = view_cells(cells@);
    let mut len: usize = 0;
    while col + len < cols && cells[row][col + len] != Cell::Void
        invariant
            b == view_cells(cells@),
            rectangular(b, rows as int, cols as int),
            row < rows,
            col + len <= cols,
            h_run(b, row as int, col as int) == len + h_run(b, row as int, col + len),
        decreases cols - col - len,
    {
        assert(b[row as int][col + len] == cells@[row as int]@[col + len]);
        len += 1;
    }
    proof {
        if col + len < cols {
            assert(b[row as int][col + len] == cells@[row as int]@[col + len]);
        }
    }
    len
}


/// Measures the vertical run from `(row, col)`.
fn measure_v(cells: &Vec<Vec<Cell>>, rows: usize, cols: usize, row: usize, col: usize) -> (len: usize)
    requires
        rectangular(view_cells(cells@), rows as int, cols as int),
        row < rows,
        col < cols,
    ensures
        len == v_run(view_cells(cells@), row as int, col as int),
{
    let ghost b = view_cells(cells@);
    let mut len: usize = 0;
    while row + len < rows && cells[row + len][col] != Cell::Void
        invariant
            b == view_cells(cells@),
            rectangular(b, rows as int, cols as int),
            col < cols,
            row + len <= rows,
            v_run(b, row as int, col as int) == len + v_run(b, row + len, col as int),
        decreases rows - row - len,
    {
        assert(b[row + len][col as int] == cells@[row + len]@[col as int]);
        len += 1;
    }
    proof {
        if row + len < rows {
            assert(b[row + len][col as int] == cells@[row + len]@[col as int]);
        }
    }
    len
}

/// Lists the word spots of a rectangular grid in row-major order, the
/// horizontal spot of a cell before its vertical one.
pub fn discover_spots(cells: &Vec<Vec<Cell>>, rows: usize, cols: usize) -> (spots: Vec<WordSpot>)
    requires
        rectangular(view_cells(cells@), rows as int, cols as int),
    ensures
        spots@ == spots_of(view_cells(cells@), cols as int),
{
    let ghost b = view_cells(cells@);
    let mut spots: Vec<WordSpot> = Vec::new();
    let mut row: usize = 0;
    while row < rows
        invariant
            b == view_cells(cells@),
            rectangular(b, rows as int, cols as int),
            row <= rows,
            spots@ == rows_spots(b, cols as int, row as int),
        decreases rows - row,
    {
        let mut col: usize = 0;
        while col < cols
            invariant
                b == view_cells(cells@),
                rectangular(b, rows as int, cols as int),
                row < rows,
                col <= cols,
                spots@ == rows_spots(b, cols as int, row as int) + row_spots(b, row as int, col as int),
            decreases cols - col,
        {
            let ghost before = spots@;
            let c = cells[row][col];
            assert(c == b[row as int][col as int]);
            if c != Cell::Void {
                let h_start = col == 0 || cells[row][col - 1] == Cell::Void;
                assert(h_start == starts_h(b, row as int, col as int)) by {
                    if col > 0 {
                        assert(b[row as int][col - 1] == cells@[row as int]@[col - 1]);
                    }
                }
                if h_start {
                    let len = measure_h(cells, rows, cols, row, col);
                    if len != 1 {
                        assert(len >= 2);
                        spots.push(WordSpot { row, col, dir: Direction::Horizontal, len });
                    }
                }
                let v_start = row == 0 || cells[row - 1][col] == Cell::Void;
                assert(v_start == starts_v(b, row as int, col as int)) by {
                    if row > 0 {
                        assert(b[row - 1][col as int] == cells@[row - 1]@[col as int]);
                    }
                }
                if v_start {
                    let len = measure_v(cells, rows, cols, row, col);
                    if len != 1 {
                        assert(len >= 2);
                        spots.push(WordSpot { row, col, dir: Direction::Vertical, len });
                    }
                }
            }
            assert(spots@ == before + cell_spots(b, row as int, col as int));
            assert(row_spots(b, row as int, col + 1) == row_spots(b, row as int, col as int) + cell_spots(b, row as int, col as int));
            col += 1;
        }
        row += 1;
    }
    spots
}


/// Every cell of the spot lies in the grid and is open.
pub open spec fn spot_fits(b: Board, s: WordSpot) -> bool {
    forall|j: int| 0 <= j < s.len ==> #[trigger] open_at(b, pos_r(s, j), pos_c(s, j))
}

proof fn lemma_h_run(b: Board, r: int, c: int)
    requires
        0 <= c,
    ensures
        c + h_run(b, r, c) <= b[r].len() || h_run(b, r, c) == 0,
        forall|j: int| 0 <= j < h_run(b, r, c) ==> #[trigger] open_at(b, r, c + j),
    decreases b[r].len() - c,
{
    if open_at(b, r, c) {
        lemma_h_run(b, r, c + 1);
        assert forall|j: int| 0 <= j < h_run(b, r, c) implies #[trigger] open_at(b, r, c + j) by {
            if j > 0 {
                assert(open_at(b, r, (c + 1) + (j - 1)));
            }
        }
    }
}

proof fn lemma_v_run(b: Board, r: int, c: int)
    requires
        0 <= r,
    ensures
        r + v_run(b, r, c) <= b.len() || v_run(b, r, c) == 0,
        forall|j: int| 0 <= j < v_run(b, r, c) ==> #[trigger] open_at(b, r + j, c),
    decreases b.len() - r,
{
    if open_at(b, r, c) {
        lemma_v_run(b, r + 1, c);
        assert forall|j: int| 0 <= j < v_run(b, r, c) implies #[trigger] open_at(b, r + j, c) by {
            if j > 0 {
                assert(open_at(b, (r + 1) + (j - 1), c));
            }
        }
    }
}

proof fn lemma_cell_spots(b: Board, rows: int, cols: int, r: int, c: int)
    requires
        rectangular(b, rows, cols),
        rows <= usize::MAX,
        cols <= usize::MAX,
        0 <= r < rows,
        0 <= c < cols,
    ensures
        forall|k: int| 0 <= k < cell_spots(b, r, c).len() ==> {
            let s = #[trigger] cell_spots(b, r, c)[k];
            spot_valid(b, s) && spot_fits(b, s)
        },
{
    lemma_h_run(b, r, c);
    lemma_v_run(b, r, c);
    let sp = cell_spots(b, r, c);
    assert forall|k: int| 0 <= k < sp.len() implies {
        let s = #[trigger] sp[k];
        spot_valid(b, s) && spot_fits(b, s)
    } by {
        let s = sp[k];
        if s.dir == Direction::Horizontal {
            assert(forall|j: int| 0 <= j < s.len ==> pos_r(s, j) == r && pos_c(s, j) == c + j);
        } else {
            assert(forall|j: int| 0 <= j < s.len ==> pos_r(s, j) == r + j && pos_c(s, j) == c);
        }
    }
}

proof fn lemma_row_spots(b: Board, rows: int, cols: int, r: int, c: int)
    requires
        rectangular(b, rows, cols),
        rows <= usize::MAX,
        cols <= usize::MAX,
        0 <= r < rows,
        c <= cols,
    ensures
        forall|k: int| 0 <= k < row_spots(b, r, c).len() ==> {
            let s = #[trigger] row_spots(b, r, c)[k];
            spot_valid(b, s) && spot_fits(b, s)
        },
    decreases c,
{
    if c > 0 {
        lemma_row_spots(b, rows, cols, r, c - 1);
        lemma_cell_spots(b, rows, cols, r, c - 1);
        let p = row_spots(b, r, c - 1);
        let q = cell_spots(b, r, c - 1);
        assert forall|k: int| 0 <= k < row_spots(b, r, c).len() implies {
            let s = #[trigger] row_spots(b, r, c)[k];
            spot_valid(b, s) && spot_fits(b, s)
        } by {
            if k < p.len() {
                assert(row_spots(b, r, c)[k] == p[k]);
            } else {
                assert(row_spots(b, r, c)[k] == q[k - p.len()]);
            }
        }
    }
}

proof fn lemma_rows_spots(b: Board, rows: int, cols: int, r: int)
    requires
        rectangular(b, rows, cols),
        rows <= usize::MAX,
        cols <= usize::MAX,
        r <= rows,
    ensures
        forall|k: int| 0 <= k < rows_spots(b, cols, r).len() ==> {
            let s = #[trigger] rows_spots(b, cols, r)[k];
            spot_valid(b, s) && spot_fits(b, s)
        },
    decreases r,
{
    if r > 0 {
        lemma_rows_spots(b, rows, cols, r - 1);
        lemma_row_spots(b, rows, cols, r - 1, cols);
        let p = rows_spots(b, cols, r - 1);
        let q = row_spots(b, r - 1, cols);
        assert forall|k: int| 0 <= k < rows_spots(b, cols, r).len() implies {
            let s = #[trigger] rows_spots(b, cols, r)[k];
            spot_valid(b, s) && spot_fits(b, s)
        } by {
            if k < p.len() {
                assert(rows_spots(b, cols, r)[k] == p[k]);
            } else {
                assert(rows_spots(b, cols, r)[k] == q[k - p.len()]);
            }
        }
    }
}

/// Every spot discovered in a rectangular grid starts at the grid's edge or
/// next to a void cell, its length is the number of consecutive open cells
/// from there in its direction, that length is at least two, and each of its
/// cells lies inside the grid and is open.
pub proof fn lemma_spots_valid(b: Board, rows: int, cols: int)
    requires
        rectangular(b, rows, cols),
        rows <= usize::MAX,
        cols <= usize::MAX,
    ensures
        forall|k: int| 0 <= k < spots_of(b, cols).len() ==> {
            let s = #[trigger] spots_of(b, cols)[k];
            &&& spot_valid(b, s)
            &&& spot_fits(b, s)
        },
{
    lemma_rows_spots(b, rows, cols, rows);
}

} // verus!
