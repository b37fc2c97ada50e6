use vstd::prelude::*;

pub mod grid;
pub mod parse;
pub mod search;
pub mod text;

use crate::grid::{view_cells, Board, Cell, Grid};
use crate::parse::{rows_result_ok, ParseError};
use crate::search::{boards_view, is_solution, search_results, words_view};
use crate::text::{blank_line_at, find_blank_line, lines_view, section_lines, split_at_newlines, to_chars, trim_range};

verus! {

/// Relies on `String::push`: it appends the one character to the string.
pub assume_specification[ String::push ](s: &mut String, ch: char)
    ensures
        final(s)@ == old(s)@.push(ch),
;

pub open spec fn char_of(c: Cell) -> char {
    match c {
        Cell::Void => '.',
        Cell::Blank => '#',
        Cell::Letter(ch) => ch,
    }
}

/// A row of cells as text.
pub open spec fn row_text(row: Seq<Cell>) -> Seq<char> {
    Seq::new(row.len(), |c: int| char_of(row[c]))
}

/// A grid as lines of text, one per row.
pub open spec fn board_text(b: Board) -> Seq<Seq<char>> {
    Seq::new(b.len(), |r: int| row_text(b[r]))
}

/// The output for template `t` and solutions `sols`: the template's rows,
/// then for each solution a blank line followed by its rows.
pub open spec fn output_lines(t: Board, sols: Seq<Board>) -> Seq<Seq<char>>
    decreases sols.len(),
{
    if sols.len() == 0 {
        board_text(t)
    } else {
        output_lines(t, sols.drop_last()) + seq![Seq::<char>::empty()] + board_text(sols.last())
    }
}

pub open spec fn strings_view(v: Seq<String>) -> Seq<Seq<char>> {
    Seq::new(v.len(), |i: int| v[i]@)
}

/// Appends the rows of `cells` to `out` as text.
pub fn render_into(cells: &Vec<Vec<Cell>>, out: &mut Vec<String>)
    ensures
        strings_view(final(out)@) == strings_view(old(out)@) + board_text(view_cells(cells@)),
{
    let ghost b = view_cells(cells@);
    let ghost start = strings_view(out@);
    let mut r: usize = 0;
    while r < cells.len()
        invariant
            r <= cells@.len(),
            b == view_cells(cells@),
            strings_view(out@) == start + board_text(b).take(r as int),
        decreases cells@.len() - r,
    {
        let row = &cells[r];
        let mut line = String::new();
        let mut c: usize = 0;
        while c < row.len()
            invariant
                c <= row@.len(),
                line@ == row_text(row@).take(c as int),
            decreases row@.len() - c,
        {
            let ch = match row[c] {
                Cell::Void => '.',
                Cell::Blank => '#',
                Cell::Letter(l) => l,
            };
            line.push(ch);
            c += 1;
            assert(line@ =~= row_text(row@).take(c as int));
        }
        assert(line@ =~= row_text(b[r as int]));
        let ghost prev = out@;
        let ghost text = line@;
        out.push(line);
        assert(strings_view(out@) =~= strings_view(prev).push(text));
        assert(board_text(b).take(r + 1) =~= board_text(b).take(r as int).push(text));
        r += 1;
        assert(strings_view(out@) =~= start + board_text(b).take(r as int));
    }
    assert(board_text(b).take(r as int) =~= board_text(b));
}

/// Solves the puzzle in `contents`: a grid template, a blank line, then the
/// word list. The result is the template's rows, then, for each complete and
/// consistent filling, a blank line and the filled rows. Every filling is
/// listed, in the order the depth-first search reaches it.
pub fn load_and_solve(contents: &str) -> (res: Result<Vec<String>, ParseError>)
    ensures
        (forall|j: int| !blank_line_at(contents@, j)) <==> res == Err::<Vec<String>, ParseError>(
            ParseError::MissingSeparator,
        ),
        forall|i: int|
            blank_line_at(contents@, i) && (forall|j: int| 0 <= j < i ==> !blank_line_at(contents@, j)) ==> {
                let lines = section_lines(contents@.subrange(0, i));
                let words = section_lines(contents@.subrange(i + 2, contents@.len() as int));
                match res {
                    Ok(out) => exists|g: Grid, sols: Seq<Board>|
                        {
                            &&& rows_result_ok(lines, Ok(g))
                            &&& sols == search_results(g.board(), g.spots@, words)
                            &&& strings_view(out@) == output_lines(g.board(), sols)
                            &&& forall|k: int|
                                0 <= k < sols.len() ==> is_solution(g.board(), #[trigger] sols[k], g.spots@, words)
                            &&& forall|b: Board|
                                is_solution(g.board(), b, g.spots@, words) ==> exists|k: int|
                                    0 <= k < sols.len() && #[trigger] sols[k] == b
                        },
                    Err(e) => rows_result_ok(lines, Err(e)) && e != ParseError::MissingSeparator,
                }
            },
{
    let chars = to_chars(contents);
    let sep = match find_blank_line(&chars) {
        Some(i) => i,
        None => {
            return Err(ParseError::MissingSeparator);
        },
    };
    let grid_text = trim_range(&chars, 0, sep);
    let grid_lines = split_at_newlines(&grid_text);
    let words_text = trim_range(&chars, sep + 2, chars.len());
    let words = split_at_newlines(&words_text);
    let mut grid = match Grid::from_rows(&grid_lines) {
        Ok(g) => g,
        Err(e) => {
            return Err(e);
        },
    };
    let ghost g0 = grid;
    let mut out: Vec<String> = Vec::new();
    render_into(&grid.cells, &mut out);
    assert(strings_view(out@) =~= output_lines(g0.board(), Seq::empty()));
    let sols = grid.solve_all(&words);
    assert(g0.board() == grid.board());
    assert(words_view(&words) =~= lines_view(words@));
    let ghost wv = lines_view(words@);
    let mut k: usize = 0;
    while k < sols.len()
        invariant
            k <= sols@.len(),
            forall|q: int|
                0 <= q < sols@.len() ==> is_solution(
                    g0.board(),
                    view_cells(#[trigger] sols@[q]@),
                    g0.spots@,
                    wv,
                ),
            strings_view(out@) == output_lines(
                g0.board(),
                Seq::new(k as nat, |q: int| view_cells(sols@[q]@)),
            ),
        decreases sols@.len() - k,
    {
        out.push(String::new());
        render_into(&sols[k], &mut out);
        k += 1;
        let ghost ss = Seq::new(k as nat, |q: int| view_cells(sols@[q]@));
        assert(ss.drop_last() =~= Seq::new((k - 1) as nat, |q: int| view_cells(sols@[q]@)));
        assert(strings_view(out@) =~= output_lines(g0.board(), ss));
    }
    let ghost ss = Seq::new(k as nat, |q: int| view_cells(sols@[q]@));
    assert(ss =~= boards_view(sols@));
    assert(forall|q: int| 0 <= q < ss.len() ==> is_solution(g0.board(), #[trigger] ss[q], g0.spots@, wv));
    assert forall|b: Board| is_solution(g0.board(), b, g0.spots@, wv) implies exists|q: int|
        0 <= q < ss.len() && #[trigger] ss[q] == b by {
        let q = choose|q: int| 0 <= q < sols@.len() && view_cells(#[trigger] sols@[q]@) == b;
        assert(ss[q] == b);
    }
    Ok(out)
}

} // verus!
