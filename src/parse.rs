use vstd::prelude::*;

use crate::grid::{discover_spots, spots_of, view_cells, Board, Cell, Grid};
use crate::search::letter_cell;
use crate::text::{lines_view, section_lines, split_at_newlines, to_chars, trim_range};

verus! {

/// Why a puzzle could not be read.
#[derive(Clone, Copy, Debug, PartialEq, Eq, Structural)]
pub enum ParseError {
    /// The input has no blank line between the grid and the word list.
    MissingSeparator,
    /// The grid section has no cells.
    EmptyGrid,
    /// Row `row` is not as long as the first row.
    RaggedRow { row: usize },
    /// `ch` at `(row, col)` is none of `.`, `#` or `A` to `Z`.
    InvalidChar { ch: char, row: usize, col: usize },
}

pub open spec fn valid_char(c: char) -> bool {
    c == '.' || c == '#' || ('A' <= c && c <= 'Z')
}

pub open spec fn cell_of(c: char) -> Cell {
    if c == '.' {
        Cell::Void
    } else if c == '#' {
        Cell::Blank
    } else {
        letter_cell(c)
    }
}

/// The cells that the template rows describe.
pub open spec fn board_of(lines: Seq<Seq<char>>) -> Board {
    Seq::new(lines.len(), |r: int| Seq::new(lines[r].len(), |c: int| cell_of(lines[r][c])))
}

pub open spec fn empty_grid(lines: Seq<Seq<char>>) -> bool {
    lines.len() == 0 || lines[0].len() == 0
}

pub open spec fn ragged_at(lines: Seq<Seq<char>>, r: int) -> bool {
    0 < r < lines.len() && lines[r].len() != lines[0].len()
}

pub open spec fn bad_char_at(lines: Seq<Seq<char>>, r: int, c: int) -> bool {
    0 <= r < lines.len() && 0 <= c < lines[r].len() && !valid_char(lines[r][c])
}

/// What reading template rows gives: the first fault found, scanning for an
/// empty grid, then for a row of another length, then for a bad character
/// in row-major order; or the grid.
pub open spec fn rows_result_ok(lines: Seq<Seq<char>>, res: Result<Grid, ParseError>) -> bool {
    match res {
        Err(ParseError::MissingSeparator) => false,
        Err(ParseError::EmptyGrid) => empty_grid(lines),
        Err(ParseError::RaggedRow { row }) => {
            &&& !empty_grid(lines)
            &&& ragged_at(lines, row as int)
            &&& forall|r: int| 0 <= r < row ==> !ragged_at(lines, r)
        },
        Err(ParseError::InvalidChar { ch, row, col }) => {
            &&& !empty_grid(lines)
            &&& forall|r: int| !ragged_at(lines, r)
            &&& bad_char_at(lines, row as int, col as int)
            &&& ch == lines[row as int][col as int]
            &&& forall|r: int, c: int|
                (r < row || (r == row && c < col)) ==> !bad_char_at(lines, r, c)
        },
        Ok(g) => {
            &&& !empty_grid(lines)
            &&& forall|r: int| !ragged_at(lines, r)
            &&& forall|r: int, c: int| !bad_char_at(lines, r, c)
            &&& g.wf()
            &&& g.rows == lines.len()
            &&& g.cols == lines[0].len()
            &&& g.board() == board_of(lines)
            &&& g.spots@ == spots_of(g.board(), g.cols as int)
            &&& forall|k: int| 0 <= k < g.filled@.len() ==> !g.filled@[k]
        },
    }
}

fn invalid_char(ch: char, row: usize, col: usize) -> (e: Result<Grid, ParseError>)
    ensures
        e == Err::<Grid, ParseError>(ParseError::InvalidChar { ch, row, col }),
{
    Err(ParseError::InvalidChar { ch, row, col })
}

fn cell_from_char(c: char) -> (r: Cell)
    ensures
        r == cell_of(c),
{
    if c == '.' {
        Cell::Void
    } else if c == '#' {
        Cell::Blank
    } else {
        Cell::Letter(c)
    }
}

impl Grid {
    /// Builds the grid that the rows describe, with its spots.
    pub fn from_rows(lines: &Vec<Vec<char>>) -> (res: Result<Grid, ParseError>)
        ensures
            rows_result_ok(lines_view(lines@), res),
    {
        let ghost ls = lines_view(lines@);
        if lines.len() == 0 || lines[0].len() == 0 {
            return Err(ParseError::EmptyGrid);
        }
        let rows = lines.len();
        let cols = lines[0].len();
        assert(ls[0] == lines@[0]@);
        let mut r: usize = 1;
        while r < rows
            invariant
                rows == lines@.len(),
                cols == ls[0].len(),
                cols > 0,
                ls.len() == rows,
                ls == lines_view(lines@),
                1 <= r <= rows,
                forall|q: int| 0 <= q < r ==> !ragged_at(ls, q),
            decreases rows - r,
        {
            assert(ls[r as int] == lines@[r as int]@);
            if lines[r].len() != cols {
                return Err(ParseError::RaggedRow { row: r });
            }
            r += 1;
        }
        let mut cells: Vec<Vec<Cell>> = Vec::new();
        let mut row: usize = 0;
        while row < rows
            invariant
                rows == lines@.len(),
                cols == ls[0].len(),
                cols > 0,
                ls.len() == rows,
                ls == lines_view(lines@),
                forall|q: int| !ragged_at(ls, q),
                row <= rows,
                cells@.len() == row,
                forall|q: int| 0 <= q < row ==> #[trigger] cells@[q]@ == board_of(ls)[q],
                forall|q: int, c: int| (q < row) ==> !bad_char_at(ls, q, c),
            decreases rows - row,
        {
            let line = &lines[row];
            assert(line@ == ls[row as int]);
            assert(row == 0 || !ragged_at(ls, row as int));
            let mut out: Vec<Cell> = Vec::new();
            let mut col: usize = 0;
            while col < cols
                invariant
                    line@.len() == cols,
                    col <= cols,
                    out@ == board_of(ls)[row as int].take(col as int),
                    line@ == ls[row as int],
                    ls == lines_view(lines@),
                    cols == ls[0].len(),
                    cols > 0,
                    forall|q: int| !ragged_at(ls, q),
                    forall|q: int, c: int| (q < row) ==> !bad_char_at(ls, q, c),
                    row < rows,
                    rows == ls.len(),
                    forall|c: int| c < col ==> !bad_char_at(ls, row as int, c),
                decreases cols - col,
            {
                let ch = line[col];
                if !(ch == '.' || ch == '#' || ('A' <= ch && ch <= 'Z')) {
                    proof {
                        assert(bad_char_at(ls, row as int, col as int));
                        assert(ch == ls[row as int][col as int]);
                    }
                    return invalid_char(ch, row, col);
                }
                out.push(cell_from_char(ch));
                col += 1;
                assert(out@ =~= board_of(ls)[row as int].take(col as int));
            }
            assert(out@ =~= board_of(ls)[row as int]);
            cells.push(out);
            row += 1;
        }
        assert(view_cells(cells@) =~= board_of(ls));
        assert(forall|q: int| 0 <= q < rows ==> #[trigger] board_of(ls)[q].len() == cols) by {
            assert forall|q: int| 0 <= q < rows implies #[trigger] board_of(ls)[q].len() == cols by {
                assert(q == 0 || !ragged_at(ls, q));
            }
        }
        let spots = discover_spots(&cells, rows, cols);
        proof {
            crate::grid::lemma_spots_valid(view_cells(cells@), rows as int, cols as int);
        }
        let mut filled: Vec<bool> = Vec::new();
        let mut k: usize = 0;
        while k < spots.len()
            invariant
                k <= spots@.len(),
                filled@.len() == k,
                forall|q: int| 0 <= q < k ==> !filled@[q],
            decreases spots@.len() - k,
        {
            filled.push(false);
            k += 1;
        }
        Ok(Grid { cells, rows, cols, spots, filled })
    }

    /// Reads a grid template: the text is trimmed and split at line feeds,
    /// one row per line.
    pub fn parse(text: &str) -> (res: Result<Grid, ParseError>)
        ensures
            rows_result_ok(section_lines(text@), res),
    {
        let chars = to_chars(text);
        let trimmed = trim_range(&chars, 0, chars.len());
        assert(chars@.subrange(0, chars@.len() as int) =~= chars@);
        let lines = split_at_newlines(&trimmed);
        Grid::from_rows(&lines)
    }
}

} // verus!
