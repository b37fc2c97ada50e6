use vstd::prelude::*;

use crate::grid::{open_at, pos_c, pos_r, rectangular, spot_fits, view_cells, Board, Cell, Direction, Grid, WordSpot};

verus! {

/// The inventory as a sequence of words.
pub open spec fn words_view(words: &Vec<Vec<char>>) -> Seq<Seq<char>> {
    words@.map_values(|w: Vec<char>| w@)
}

/// The cell holding letter `c`.
pub open spec fn letter_cell(c: char) -> Cell {
    Cell::Letter(c)
}

/// A word as the cells that spell it.
pub open spec fn letters(w: Seq<char>) -> Seq<Cell> {
    Seq::new(w.len(), |j: int| letter_cell(w[j]))
}

/// The cells along a spot, in order.
pub open spec fn spot_cells(b: Board, s: WordSpot) -> Seq<Cell> {
    Seq::new(s.len as nat, |j: int| b[pos_r(s, j)][pos_c(s, j)])
}

/// `b` has the shape of template `t` and keeps every cell of `t` that is not blank.
pub open spec fn extends(t: Board, b: Board) -> bool {
    &&& b.len() == t.len()
    &&& forall|r: int| 0 <= r < t.len() ==> (#[trigger] b[r]).len() == t[r].len()
    &&& forall|r: int, c: int|
        0 <= r < t.len() && 0 <= c < t[r].len() && #[trigger] t[r][c] != Cell::Blank ==> b[r][c] == t[r][c]
}

/// Some spot passes through cell `(r, c)`.
pub open spec fn covered(spots: Seq<WordSpot>, r: int, c: int) -> bool {
    exists|k: int, j: int|
        0 <= k < spots.len() && 0 <= j < spots[k].len && #[trigger] pos_r(spots[k], j) == r && #[trigger] pos_c(
            spots[k],
            j,
        ) == c
}

/// `b` differs from `t` only in cells that some spot passes through.
pub open spec fn same_off_spots(t: Board, b: Board, spots: Seq<WordSpot>) -> bool {
    forall|r: int, c: int|
        0 <= r < t.len() && 0 <= c < t[r].len() && !#[trigger] covered(spots, r, c) ==> b[r][c] == t[r][c]
}

/// `b` can still be reached from `cur`: it keeps the letters of `cur`, its
/// other changes lie on spots, `a` fills it, and no spot that is still open
/// takes an entry already in use.
pub open spec fn reachable(
    cur: Board,
    b: Board,
    spots: Seq<WordSpot>,
    filled: Seq<bool>,
    words: Seq<Seq<char>>,
    used: Seq<bool>,
    a: Seq<int>,
) -> bool {
    &&& is_filling(b, spots, words, a)
    &&& extends(cur, b)
    &&& same_off_spots(cur, b, spots)
    &&& forall|k: int| 0 <= k < spots.len() && !#[trigger] filled[k] ==> !used[a[k]]
}

/// `assign` gives each spot a distinct inventory entry that the spot spells on `b`.
pub open spec fn is_filling(b: Board, spots: Seq<WordSpot>, words: Seq<Seq<char>>, assign: Seq<int>) -> bool {
    &&& assign.len() == spots.len()
    &&& forall|k: int|
        0 <= k < spots.len() ==> 0 <= #[trigger] assign[k] < words.len() && spot_cells(b, spots[k]) == letters(
            words[assign[k]],
        )
    &&& forall|k1: int, k2: int|
        0 <= k1 < spots.len() && 0 <= k2 < spots.len() && k1 != k2 ==> #[trigger] assign[k1] != #[trigger] assign[k2]
}

/// `b` is a complete, consistent filling of template `t`.
pub open spec fn is_solution(t: Board, b: Board, spots: Seq<WordSpot>, words: Seq<Seq<char>>) -> bool {
    &&& extends(t, b)
    &&& same_off_spots(t, b, spots)
    &&& exists|assign: Seq<int>| is_filling(b, spots, words, assign)
}

/// Search state: each filled spot but `skip` spells its assigned word, which
/// is marked used, and no two filled spots share an entry.
pub open spec fn placed(
    b: Board,
    spots: Seq<WordSpot>,
    filled: Seq<bool>,
    words: Seq<Seq<char>>,
    used: Seq<bool>,
    assign: Seq<int>,
    skip: int,
) -> bool {
    &&& assign.len() == spots.len()
    &&& filled.len() == spots.len()
    &&& used.len() == words.len()
    &&& forall|k: int|
        0 <= k < spots.len() && #[trigger] filled[k] && k != skip ==> 0 <= assign[k] < words.len()
            && used[assign[k]] && spot_cells(b, spots[k]) == letters(words[assign[k]])
    &&& forall|k1: int, k2: int|
        0 <= k1 < spots.len() && 0 <= k2 < spots.len() && k1 != k2 && #[trigger] filled[k1]
            && #[trigger] filled[k2] ==> assign[k1] != assign[k2]
}

/// Number of spots not yet owned by the search.
pub open spec fn count_open(f: Seq<bool>) -> nat
    decreases f.len(),
{
    if f.len() == 0 {
        0
    } else {
        count_open(f.drop_last()) + if f.last() {
            0nat
        } else {
            1nat
        }
    }
}

/// The first spot, from `k` on, that the search does not own.
pub open spec fn first_open_from(f: Seq<bool>, k: int) -> Option<int>
    decreases f.len() - k,
{
    if k < 0 || k >= f.len() {
        None
    } else if !f[k] {
        Some(k)
    } else {
        first_open_from(f, k + 1)
    }
}

/// The boards that the depth-first search reports, in order, from board `b`
/// with flags `filled` and `used`; `n` counts the spots still open. The
/// first open spot takes each usable entry in increasing index order, and
/// each complete filling is reported once per assignment that reaches it.
pub open spec fn search_from(
    b: Board,
    spots: Seq<WordSpot>,
    filled: Seq<bool>,
    words: Seq<Seq<char>>,
    used: Seq<bool>,
    n: nat,
) -> Seq<Board>
    decreases n, 2nat, 0nat,
{
    match first_open_from(filled, 0) {
        None => seq![b],
        Some(ws) => if n == 0 {
            Seq::empty()
        } else {
            try_words(b, spots, filled, words, used, n, ws, 0)
        },
    }
}

/// The boards reported while spot `ws` takes, in turn, every entry from
/// `wi` on that is unused and of the spot's length.
pub open spec fn try_words(
    b: Board,
    spots: Seq<WordSpot>,
    filled: Seq<bool>,
    words: Seq<Seq<char>>,
    used: Seq<bool>,
    n: nat,
    ws: int,
    wi: int,
) -> Seq<Board>
    decreases n, 1nat, words.len() - wi,
{
    if wi < 0 || wi >= words.len() || n == 0 {
        Seq::empty()
    } else {
        let here = if !used[wi] && words[wi].len() == spots[ws].len {
            place(b, spots, filled.update(ws, true), words, used.update(wi, true), (n - 1) as nat, ws, wi, 0)
        } else {
            Seq::empty()
        };
        here + try_words(b, spots, filled, words, used, n, ws, wi + 1)
    }
}

/// The boards reported after writing letters `i..` of entry `wi` into spot
/// `ws`: none if a cell lies outside the grid or holds another letter.
pub open spec fn place(
    b: Board,
    spots: Seq<WordSpot>,
    filled: Seq<bool>,
    words: Seq<Seq<char>>,
    used: Seq<bool>,
    n: nat,
    ws: int,
    wi: int,
    i: int,
) -> Seq<Board>
    decreases n, 3nat, words[wi].len() - i,
{
    if i < 0 || i >= words[wi].len() {
        search_from(b, spots, filled, words, used, n)
    } else {
        let r = pos_r(spots[ws], i);
        let c = pos_c(spots[ws], i);
        let x = letter_cell(words[wi][i]);
        if !(0 <= r < b.len() && 0 <= c < b[r].len()) {
            Seq::empty()
        } else if b[r][c] == Cell::Blank {
            place(b.update(r, b[r].update(c, x)), spots, filled, words, used, n, ws, wi, i + 1)
        } else if b[r][c] == x {
            place(b, spots, filled, words, used, n, ws, wi, i + 1)
        } else {
            Seq::empty()
        }
    }
}

/// Every board that the search reports for template `t`, in order.
pub open spec fn search_results(t: Board, spots: Seq<WordSpot>, words: Seq<Seq<char>>) -> Seq<Board> {
    let filled = Seq::new(spots.len(), |k: int| false);
    search_from(t, spots, filled, words, Seq::new(words.len(), |j: int| false), count_open(filled))
}

/// The boards held in a vector of grids.
pub open spec fn boards_view(v: Seq<Vec<Vec<Cell>>>) -> Seq<Board> {
    Seq::new(v.len(), |i: int| view_cells(v[i]@))
}

proof fn lemma_count_open_take(f: Seq<bool>, i: int)
    requires
        0 <= i < f.len(),
        !f[i],
    ensures
        count_open(f.update(i, true)) + 1 == count_open(f),
    decreases f.len(),
{
    if i < f.len() - 1 {
        lemma_count_open_take(f.drop_last(), i);
        assert(f.update(i, true).drop_last() =~= f.drop_last().update(i, true));
    } else {
        assert(f.update(i, true).drop_last() =~= f.drop_last());
    }
}

/// Writing over a blank cell leaves unchanged every spot that spells a word.
proof fn lemma_write_blank(b: Board, s: WordSpot, w: Seq<char>, r: int, c: int, x: Cell)
    requires
        spot_fits(b, s),
        0 <= r < b.len(),
        0 <= c < b[r].len(),
        b[r][c] == Cell::Blank,
        spot_cells(b, s) == letters(w),
    ensures
        spot_cells(b.update(r, b[r].update(c, x)), s) == spot_cells(b, s),
{
    let b2 = b.update(r, b[r].update(c, x));
    assert(letters(w).len() == w.len());
    assert(spot_cells(b, s).len() == s.len);
    assert forall|j: int| 0 <= j < s.len implies spot_cells(b2, s)[j] == spot_cells(b, s)[j] by {
        assert(open_at(b, pos_r(s, j), pos_c(s, j)));
        assert(spot_cells(b, s)[j] == letters(w)[j]);
        assert(letters(w)[j] == Cell::Letter(w[j]));
        if pos_r(s, j) == r {
            assert(b2[r] == b[r].update(c, x));
            if pos_c(s, j) == c {
                assert(spot_cells(b, s)[j] == Cell::Blank);
            } else {
                assert(b2[r][pos_c(s, j)] == b[r][pos_c(s, j)]);
            }
        } else {
            assert(b2[pos_r(s, j)] == b[pos_r(s, j)]);
        }
    }
    assert(spot_cells(b2, s) =~= spot_cells(b, s));
}

/// Writing an open value into a cell keeps the shape and every spot on open cells.
proof fn lemma_write_open(b: Board, rows: int, cols: int, spots: Seq<WordSpot>, r: int, c: int, x: Cell)
    requires
        rectangular(b, rows, cols),
        forall|k: int| 0 <= k < spots.len() ==> spot_fits(b, #[trigger] spots[k]),
        0 <= r < rows,
        0 <= c < cols,
        x != Cell::Void,
    ensures
        rectangular(b.update(r, b[r].update(c, x)), rows, cols),
        forall|k: int| 0 <= k < spots.len() ==> spot_fits(b.update(r, b[r].update(c, x)), #[trigger] spots[k]),
{
    let b2 = b.update(r, b[r].update(c, x));
    assert forall|rr: int| 0 <= rr < rows implies #[trigger] b2[rr].len() == cols by {
        if rr == r {
            assert(b2[rr] == b[r].update(c, x));
        }
    }
    assert forall|k: int| 0 <= k < spots.len() implies spot_fits(b2, #[trigger] spots[k]) by {
        let sk = spots[k];
        assert forall|j: int| 0 <= j < sk.len implies #[trigger] open_at(b2, pos_r(sk, j), pos_c(sk, j)) by {
            assert(spot_fits(b, sk));
            assert(open_at(b, pos_r(sk, j), pos_c(sk, j)));
            if pos_r(sk, j) == r {
                assert(b2[r] == b[r].update(c, x));
            }
        }
    }
}

/// The cell holding letter `c`.
fn letter(c: char) -> (r: Cell)
    ensures
        r == letter_cell(c),
{
    Cell::Letter(c)
}

/// Replaces the cell at `(r, c)`.
fn set_cell(cells: &mut Vec<Vec<Cell>>, r: usize, c: usize, v: Cell)
    requires
        r < old(cells)@.len(),
        c < old(cells)@[r as int]@.len(),
    ensures
        view_cells(final(cells)@) == view_cells(old(cells)@).update(r as int, view_cells(old(cells)@)[r as int].update(c as int, v)),
{
    cells[r].set(c, v);
    assert(view_cells(cells@) =~= view_cells(old(cells)@).update(r as int, view_cells(old(cells)@)[r as int].update(c as int, v)));
}

/// The cell of a filling at offset `i` of spot `k` holds letter `i` of its word.
proof fn lemma_spot_letter(b: Board, spots: Seq<WordSpot>, words: Seq<Seq<char>>, a: Seq<int>, k: int, i: int)
    requires
        is_filling(b, spots, words, a),
        0 <= k < spots.len(),
        0 <= i < spots[k].len,
    ensures
        0 <= a[k] < words.len(),
        words[a[k]].len() == spots[k].len,
        b[pos_r(spots[k], i)][pos_c(spots[k], i)] == letter_cell(words[a[k]][i]),
{
    assert(spot_cells(b, spots[k]) == letters(words[a[k]]));
    assert(spot_cells(b, spots[k]).len() == letters(words[a[k]]).len());
    assert(spot_cells(b, spots[k])[i] == letters(words[a[k]])[i]);
}

/// Once every spot is filled, the only reachable board is the current one.
proof fn lemma_complete_board_unique(
    cur: Board,
    b: Board,
    rows: int,
    cols: int,
    spots: Seq<WordSpot>,
    filled: Seq<bool>,
    words: Seq<Seq<char>>,
    used: Seq<bool>,
    assign: Seq<int>,
)
    requires
        rectangular(cur, rows, cols),
        forall|k: int| 0 <= k < spots.len() ==> spot_fits(cur, #[trigger] spots[k]),
        placed(cur, spots, filled, words, used, assign, -1),
        forall|k: int| 0 <= k < spots.len() ==> #[trigger] filled[k],
        extends(cur, b),
        same_off_spots(cur, b, spots),
    ensures
        b == cur,
{
    assert forall|r: int| 0 <= r < rows implies #[trigger] b[r] =~= cur[r] by {
        assert forall|c: int| 0 <= c < cols implies b[r][c] == cur[r][c] by {
            if cur[r][c] == Cell::Blank {
                if covered(spots, r, c) {
                    let (k, j) = choose|k: int, j: int|
                        0 <= k < spots.len() && 0 <= j < spots[k].len && #[trigger] pos_r(spots[k], j) == r
                            && #[trigger] pos_c(spots[k], j) == c;
                    assert(filled[k]);
                    let w = words[assign[k]];
                    assert(spot_cells(cur, spots[k]).len() == letters(w).len());
                    assert(spot_cells(cur, spots[k])[j] == letter_cell(w[j]));
                }
            }
        }
    }
    assert(b =~= cur);
}

/// Writing into `b` the letter that the reachable board `b2` has at a spot
/// cell keeps `b2` reachable.
proof fn lemma_reach_write(b: Board, b2: Board, spots: Seq<WordSpot>, k: int, i: int, x: Cell)
    requires
        extends(b, b2),
        same_off_spots(b, b2, spots),
        0 <= k < spots.len(),
        0 <= i < spots[k].len,
        0 <= pos_r(spots[k], i) < b.len(),
        0 <= pos_c(spots[k], i) < b[pos_r(spots[k], i)].len(),
        b2[pos_r(spots[k], i)][pos_c(spots[k], i)] == x,
    ensures
        ({
            let r = pos_r(spots[k], i);
            let c = pos_c(spots[k], i);
            let b1 = b.update(r, b[r].update(c, x));
            extends(b1, b2) && same_off_spots(b1, b2, spots)
        }),
{
    let r = pos_r(spots[k], i);
    let c = pos_c(spots[k], i);
    let b1 = b.update(r, b[r].update(c, x));
    assert(covered(spots, r, c));
    assert forall|rr: int| 0 <= rr < b1.len() implies (#[trigger] b2[rr]).len() == b1[rr].len() by {
        if rr == r {
            assert(b1[rr] == b[r].update(c, x));
        }
    }
    assert forall|rr: int, cc: int|
        0 <= rr < b1.len() && 0 <= cc < b1[rr].len() && #[trigger] b1[rr][cc] != Cell::Blank implies b2[rr][cc]
        == b1[rr][cc] by {
        if rr == r {
            assert(b1[rr] == b[r].update(c, x));
        }
    }
    assert forall|rr: int, cc: int|
        0 <= rr < b1.len() && 0 <= cc < b1[rr].len() && !#[trigger] covered(spots, rr, cc) implies b2[rr][cc]
        == b1[rr][cc] by {
        if rr == r {
            assert(b1[rr] == b[r].update(c, x));
        }
    }
}

impl Grid {
    /// Returns the first spot, in discovery order, that the search does not own yet.
    pub fn find_word_spot_to_fill(&self) -> (r: Option<usize>)
        requires
            self.wf(),
        ensures
            r matches Some(k) ==> k < self.spots@.len() && !self.filled@[k as int] && forall|j: int|
                0 <= j < k ==> self.filled@[j],
            r is None ==> forall|j: int| 0 <= j < self.spots@.len() ==> self.filled@[j],
            first_open_from(self.filled@, 0) == match r {
                Some(k) => Some(k as int),
                None => None::<int>,
            },
    {
        let mut i: usize = 0;
        while i < self.filled.len()
            invariant
                self.wf(),
                i <= self.filled@.len(),
                forall|j: int| 0 <= j < i ==> self.filled@[j],
                first_open_from(self.filled@, 0) == first_open_from(self.filled@, i as int),
            decreases self.filled@.len() - i,
        {
            if !self.filled[i] {
                return Some(i);
            }
            i += 1;
        }
        None
    }

    /// A copy of the current cells.
    pub fn snapshot(&self) -> (r: Vec<Vec<Cell>>)
        ensures
            view_cells(r@) == self.board(),
    {
        let mut out: Vec<Vec<Cell>> = Vec::new();
        let mut i: usize = 0;
        while i < self.cells.len()
            invariant
                i <= self.cells@.len(),
                out@.len() == i,
                forall|k: int| 0 <= k < i ==> (#[trigger] out@[k])@ == self.cells@[k]@,
            decreases self.cells@.len() - i,
        {
            let row = &self.cells[i];
            let mut copy: Vec<Cell> = Vec::new();
            let mut j: usize = 0;
            while j < row.len()
                invariant
                    j <= row@.len(),
                    copy@ == row@.take(j as int),
                decreases row@.len() - j,
            {
                copy.push(row[j]);
                j += 1;
                assert(copy@ =~= row@.take(j as int));
            }
            assert(copy@ =~= row@);
            out.push(copy);
            i += 1;
        }
        assert(view_cells(out@) =~= self.board());
        out
    }

    /// Tries every unused inventory word of the right length in the first
    /// spot not yet owned, and pushes onto `out` every complete filling
    /// reached; the grid, its flags and `used` come back as they were.
    fn solve(
        &mut self,
        words: &Vec<Vec<char>>,
        used: &mut Vec<bool>,
        out: &mut Vec<Vec<Vec<Cell>>>,
        Ghost(template): Ghost<Board>,
        Ghost(assign): Ghost<Seq<int>>,
    )
        requires
            old(self).wf(),
            extends(template, old(self).board()),
            same_off_spots(template, old(self).board(), old(self).spots@),
            placed(old(self).board(), old(self).spots@, old(self).filled@, words_view(words), old(used)@, assign, -1),
        ensures
            final(self).board() == old(self).board(),
            final(self).rows == old(self).rows,
            final(self).cols == old(self).cols,
            final(self).spots@ == old(self).spots@,
            final(self).filled@ == old(self).filled@,
            final(used)@ == old(used)@,
            final(out)@.len() >= old(out)@.len(),
            forall|i: int| 0 <= i < old(out)@.len() ==> #[trigger] final(out)@[i] == old(out)@[i],
            forall|i: int|
                old(out)@.len() <= i < final(out)@.len() ==> is_solution(
                    template,
                    view_cells(#[trigger] final(out)@[i]@),
                    old(self).spots@,
                    words_view(words),
                ),
            forall|b: Board, a: Seq<int>|
                reachable(
                    old(self).board(),
                    b,
                    old(self).spots@,
                    old(self).filled@,
                    words_view(words),
                    old(used)@,
                    a,
                ) ==> exists|i: int|
                    old(out)@.len() <= i < final(out)@.len() && view_cells(#[trigger] final(out)@[i]@) == b,
            boards_view(final(out)@) == boards_view(old(out)@) + search_from(
                old(self).board(),
                old(self).spots@,
                old(self).filled@,
                words_view(words),
                old(used)@,
                count_open(old(self).filled@),
            ),
        decreases count_open(old(self).filled@), 0nat,
    {
        let ghost words_v = words_view(words);
        let ws = match self.find_word_spot_to_fill() {
            Some(x) => x,
            None => {
                let snap = self.snapshot();
                proof {
                    let b = self.board();
                    let sp = self.spots@;
                    assert forall|k: int| 0 <= k < sp.len() implies 0 <= #[trigger] assign[k] < words_v.len()
                        && spot_cells(b, sp[k]) == letters(words_v[assign[k]]) by {
                        assert(self.filled@[k]);
                    }
                    assert forall|k1: int, k2: int|
                        0 <= k1 < sp.len() && 0 <= k2 < sp.len() && k1 != k2 implies #[trigger] assign[k1]
                        != #[trigger] assign[k2] by {
                        assert(self.filled@[k1] && self.filled@[k2]);
                    }
                    assert(is_filling(b, sp, words_v, assign));
                }
                let ghost n = out@.len();
                let ghost prev = boards_view(out@);
                out.push(snap);
                assert(boards_view(out@) =~= prev + seq![self.board()]);
                proof {
                    let b = self.board();
                    assert forall|b2: Board, a2: Seq<int>|
                        reachable(b, b2, self.spots@, self.filled@, words_v, used@, a2) implies exists|i: int|
                        n <= i < out@.len() && view_cells(#[trigger] out@[i]@) == b2 by {
                        assert forall|k: int| 0 <= k < self.spots@.len() implies #[trigger] self.filled@[k] by {}
                        lemma_complete_board_unique(
                            b,
                            b2,
                            self.rows as int,
                            self.cols as int,
                            self.spots@,
                            self.filled@,
                            words_v,
                            used@,
                            assign,
                        );
                        assert(view_cells(out@[n as int]@) == b2);
                    }
                }
                return;
            },
        };
        let ghost out0 = old(out)@;
        let ghost n = count_open(self.filled@);
        proof {
            lemma_count_open_take(self.filled@, ws as int);
        }
        let mut wi: usize = 0;
        while wi < words.len()
            invariant
                self.wf(),
                self.board() == old(self).board(),
                self.rows == old(self).rows,
                self.cols == old(self).cols,
                self.spots@ == old(self).spots@,
                self.filled@ == old(self).filled@,
                used@ == old(used)@,
                words_v == words_view(words),
                extends(template, self.board()),
                same_off_spots(template, self.board(), self.spots@),
                placed(self.board(), self.spots@, self.filled@, words_v, used@, assign, -1),
                ws < self.spots@.len(),
                !self.filled@[ws as int],
                out@.len() >= out0.len(),
                forall|i: int| 0 <= i < out0.len() ==> #[trigger] out@[i] == out0[i],
                forall|i: int|
                    out0.len() <= i < out@.len() ==> is_solution(
                        template,
                        view_cells(#[trigger] out@[i]@),
                        old(self).spots@,
                        words_v,
                    ),
                wi <= words@.len(),
                n == count_open(self.filled@),
                n >= 1,
                first_open_from(self.filled@, 0) == Some(ws as int),
                boards_view(out0) + search_from(self.board(), self.spots@, self.filled@, words_v, used@, n)
                    == boards_view(out@) + try_words(self.board(), self.spots@, self.filled@, words_v, used@, n, ws as int, wi as int),
                forall|b2: Board, a2: Seq<int>|
                    reachable(self.board(), b2, self.spots@, self.filled@, words_v, used@, a2) && a2[ws as int] < wi
                        ==> exists|i: int| out0.len() <= i < out@.len() && view_cells(#[trigger] out@[i]@) == b2,
            decreases words@.len() - wi,
        {
            let ghost outw = out@;
            let ghost tw = try_words(self.board(), self.spots@, self.filled@, words_v, used@, n, ws as int, wi as int);
            let ghost tw_next = try_words(self.board(), self.spots@, self.filled@, words_v, used@, n, ws as int, wi + 1);
            proof {
                assert forall|b2: Board, a2: Seq<int>|
                    reachable(self.board(), b2, self.spots@, self.filled@, words_v, used@, a2) && a2[ws as int] == wi
                        implies !used@[wi as int] && words@[wi as int]@.len() == self.spots@[ws as int].len by {
                    assert(!self.filled@[ws as int]);
                    assert(spot_cells(b2, self.spots@[ws as int]) == letters(words_v[wi as int]));
                    assert(spot_cells(b2, self.spots@[ws as int]).len() == letters(words_v[wi as int]).len());
                    assert(words_v[wi as int] == words@[wi as int]@);
                }
            }
            if !used[wi] && words[wi].len() == self.spots[ws].len {
                let ghost b = self.board();
                let ghost f0 = self.filled@;
                let ghost u0 = used@;
                let ghost a2 = assign.update(ws as int, wi as int);
                let ghost outk = out@;
                assert(words_v[wi as int] == words@[wi as int]@);
                used.set(wi, true);
                self.filled.set(ws, true);
                proof {
                    lemma_count_open_take(f0, ws as int);
                    assert forall|k: int|
                        0 <= k < self.spots@.len() && #[trigger] self.filled@[k] && k != ws implies 0 <= a2[k] < words_v.len()
                            && used@[a2[k]] && spot_cells(b, self.spots@[k]) == letters(words_v[a2[k]]) by {
                        assert(f0[k]);
                    }
                    assert forall|k1: int, k2: int|
                        0 <= k1 < self.spots@.len() && 0 <= k2 < self.spots@.len() && k1 != k2
                            && #[trigger] self.filled@[k1] && #[trigger] self.filled@[k2] implies a2[k1] != a2[k2] by {
                        if k1 != ws && k2 != ws {
                            assert(f0[k1] && f0[k2]);
                        } else if k1 == ws {
                            assert(f0[k2]);
                            assert(u0[assign[k2]]);
                        } else {
                            assert(f0[k1]);
                            assert(u0[assign[k1]]);
                        }
                    }
                }
                self.add_word(words, used, ws, wi, 0, out, Ghost(template), Ghost(a2));
                self.filled.set(ws, false);
                used.set(wi, false);
                proof {
                    assert(self.filled@ =~= f0);
                    assert(used@ =~= u0);
                    assert forall|b2: Board, a2: Seq<int>|
                        reachable(b, b2, self.spots@, f0, words_v, u0, a2) && a2[ws as int] <= wi implies exists|i: int|
                        out0.len() <= i < out@.len() && view_cells(#[trigger] out@[i]@) == b2 by {
                        if a2[ws as int] < wi {
                            let i0 = choose|i: int| out0.len() <= i < outk.len() && view_cells(#[trigger] outk[i]@) == b2;
                            assert(out@[i0] == outk[i0]);
                        } else {
                            let f1 = f0.update(ws as int, true);
                            let u1 = u0.update(wi as int, true);
                            assert forall|k: int| 0 <= k < self.spots@.len() && !#[trigger] f1[k] implies !u1[a2[k]] by {
                                assert(k != ws);
                                assert(!f0[k]);
                                assert(a2[k] != a2[ws as int]);
                            }
                            assert(reachable(b, b2, self.spots@, f1, words_v, u1, a2));
                        }
                    }
                    assert forall|i: int|
                        out0.len() <= i < out@.len() implies is_solution(
                            template,
                            view_cells(#[trigger] out@[i]@),
                            old(self).spots@,
                            words_v,
                        ) by {
                        if i < outk.len() {
                            assert(out@[i] == outk[i]);
                        }
                    }
                }
            }
            proof {
                assert(words_v[wi as int] == words@[wi as int]@);
                assert(boards_view(out@) + tw_next =~= boards_view(outw) + tw);
            }
            wi += 1;
        }
        proof {
            assert(boards_view(out@) + Seq::<Board>::empty() =~= boards_view(out@));
            assert forall|b2: Board, a2: Seq<int>|
                reachable(self.board(), b2, self.spots@, self.filled@, words_v, used@, a2) implies exists|i: int|
                out0.len() <= i < out@.len() && view_cells(#[trigger] out@[i]@) == b2 by {
                assert(0 <= a2[ws as int] < words_v.len());
            }
        }
    }

    /// Writes letters `i..` of word `wi` into spot `ws`, checking each
    /// against a letter already there, and searches on once the word is in.
    /// Every cell written is set back to blank before returning.
    fn add_word(
        &mut self,
        words: &Vec<Vec<char>>,
        used: &mut Vec<bool>,
        ws: usize,
        wi: usize,
        i: usize,
        out: &mut Vec<Vec<Vec<Cell>>>,
        Ghost(template): Ghost<Board>,
        Ghost(assign): Ghost<Seq<int>>,
    )
        requires
            old(self).wf(),
            extends(template, old(self).board()),
            same_off_spots(template, old(self).board(), old(self).spots@),
            placed(old(self).board(), old(self).spots@, old(self).filled@, words_view(words), old(used)@, assign, ws as int),
            ws < old(self).spots@.len(),
            old(self).filled@[ws as int],
            wi < words@.len(),
            old(used)@[wi as int],
            assign[ws as int] == wi,
            words@[wi as int]@.len() == old(self).spots@[ws as int].len,
            i <= words@[wi as int]@.len(),
            forall|j: int|
                0 <= j < i ==> #[trigger] spot_cells(old(self).board(), old(self).spots@[ws as int])[j]
                    == letter_cell(words@[wi as int]@[j]),
        ensures
            final(self).board() == old(self).board(),
            final(self).rows == old(self).rows,
            final(self).cols == old(self).cols,
            final(self).spots@ == old(self).spots@,
            final(self).filled@ == old(self).filled@,
            final(used)@ == old(used)@,
            final(out)@.len() >= old(out)@.len(),
            forall|k: int| 0 <= k < old(out)@.len() ==> #[trigger] final(out)@[k] == old(out)@[k],
            forall|k: int|
                old(out)@.len() <= k < final(out)@.len() ==> is_solution(
                    template,
                    view_cells(#[trigger] final(out)@[k]@),
                    old(self).spots@,
                    words_view(words),
                ),
            forall|b: Board, a: Seq<int>|
                reachable(
                    old(self).board(),
                    b,
                    old(self).spots@,
                    old(self).filled@,
                    words_view(words),
                    old(used)@,
                    a,
                ) && a[ws as int] == wi ==> exists|k: int|
                    old(out)@.len() <= k < final(out)@.len() && view_cells(#[trigger] final(out)@[k]@) == b,
            boards_view(final(out)@) == boards_view(old(out)@) + place(
                old(self).board(),
                old(self).spots@,
                old(self).filled@,
                words_view(words),
                old(used)@,
                count_open(old(self).filled@),
                ws as int,
                wi as int,
                i as int,
            ),
        decreases count_open(old(self).filled@), words@[wi as int]@.len() - i + 1,
    {
        let ghost words_v = words_view(words);
        let ghost b = self.board();
        let ghost s = self.spots@[ws as int];
        let ghost w = words@[wi as int]@;
        assert(words_v[wi as int] == w);
        if i >= words[wi].len() {
            proof {
                assert(spot_cells(b, s) =~= letters(w));
            }
            self.solve(words, used, out, Ghost(template), Ghost(assign));
            return;
        }
        proof {
            assert(open_at(b, pos_r(s, i as int), pos_c(s, i as int)));
        }
        let spot = self.spots[ws];
        let (r, c) = match spot.dir {
            Direction::Horizontal => {
                if spot.col + i >= self.cols {
                    return;
                }
                (spot.row, spot.col + i)
            },
            Direction::Vertical => {
                if spot.row + i >= self.rows {
                    return;
                }
                (spot.row + i, spot.col)
            },
        };
        assert(r == pos_r(s, i as int) && c == pos_c(s, i as int));
        assert(self.board()[r as int] == self.cells@[r as int]@);
        let cur = self.cells[r][c];
        let ch = words[wi][i];
        let x = letter(ch);
        if cur == Cell::Blank {
            set_cell(&mut self.cells, r, c, x);
            assert(self.board() == b.update(r as int, b[r as int].update(c as int, x)));
            proof {
                let b2 = self.board();
                lemma_write_open(b, self.rows as int, self.cols as int, self.spots@, r as int, c as int, x);
                assert forall|k: int|
                    0 <= k < self.spots@.len() && #[trigger] self.filled@[k] && k != ws implies 0 <= assign[k]
                        < words_v.len() && used@[assign[k]] && spot_cells(b2, self.spots@[k]) == letters(
                        words_v[assign[k]],
                    ) by {
                    assert(self.filled@[k]);
                    assert(spot_fits(b, self.spots@[k]));
                    assert(b[r as int][c as int] == Cell::Blank);
                    lemma_write_blank(b, self.spots@[k], words_v[assign[k]], r as int, c as int, x);
                }
                assert forall|j: int| 0 <= j < i + 1 implies #[trigger] spot_cells(b2, s)[j] == letter_cell(w[j]) by {
                    assert(open_at(b, pos_r(s, j), pos_c(s, j)));
                    if j < i {
                        assert(spot_cells(b, s)[j] == letter_cell(w[j]));
                        if pos_r(s, j) == r {
                            assert(pos_c(s, j) != c);
                            assert(b2[r as int] == b[r as int].update(c as int, x));
                        }
                    }
                }
                assert forall|rr: int, cc: int|
                    0 <= rr < template.len() && 0 <= cc < template[rr].len() && #[trigger] template[rr][cc]
                        != Cell::Blank implies b2[rr][cc] == template[rr][cc] by {
                    if rr == r {
                        assert(b2[rr] == b[rr].update(c as int, x));
                    }
                }
            }
            let ghost b1 = self.board();
            self.add_word(words, used, ws, wi, i + 1, out, Ghost(template), Ghost(assign));
            proof {
                assert forall|b2: Board, a2: Seq<int>|
                    reachable(b, b2, self.spots@, self.filled@, words_v, used@, a2) && a2[ws as int] == wi implies
                    reachable(b1, b2, self.spots@, self.filled@, words_v, used@, a2) by {
                    lemma_spot_letter(b2, self.spots@, words_v, a2, ws as int, i as int);
                    assert(x == letter_cell(w[i as int]));
                    lemma_reach_write(b, b2, self.spots@, ws as int, i as int, x);
                }
            }
            assert(self.board()[r as int] == self.cells@[r as int]@);
            set_cell(&mut self.cells, r, c, Cell::Blank);
            proof {
                assert(self.board()[r as int] =~= b[r as int]);
                assert(self.board() =~= b);
            }
        } else if cur == x {
            proof {
                assert forall|j: int| 0 <= j < i + 1 implies #[trigger] spot_cells(b, s)[j] == letter_cell(w[j]) by {
                    if j == i {
                        assert(spot_cells(b, s)[j] == b[r as int][c as int]);
                    }
                }
            }
            self.add_word(words, used, ws, wi, i + 1, out, Ghost(template), Ghost(assign));
        } else {
            proof {
                assert forall|b2: Board, a2: Seq<int>|
                    reachable(b, b2, self.spots@, self.filled@, words_v, used@, a2) && a2[ws as int] == wi implies
                    false by {
                    lemma_spot_letter(b2, self.spots@, words_v, a2, ws as int, i as int);
                    assert(x == letter_cell(w[i as int]));
                    assert(b[r as int][c as int] == cur);
                }
            }
        }
    }

    /// Every complete, consistent filling of the grid, in the order the
    /// depth-first search reaches it and once for each assignment of entries
    /// that gives it; the grid is left as it was.
    pub fn solve_all(&mut self, words: &Vec<Vec<char>>) -> (sols: Vec<Vec<Vec<Cell>>>)
        requires
            old(self).wf(),
            forall|k: int| 0 <= k < old(self).filled@.len() ==> !old(self).filled@[k],
        ensures
            final(self).board() == old(self).board(),
            final(self).rows == old(self).rows,
            final(self).cols == old(self).cols,
            final(self).spots@ == old(self).spots@,
            final(self).filled@ == old(self).filled@,
            forall|i: int|
                0 <= i < sols@.len() ==> is_solution(
                    old(self).board(),
                    view_cells(#[trigger] sols@[i]@),
                    old(self).spots@,
                    words_view(words),
                ),
            forall|b: Board|
                is_solution(old(self).board(), b, old(self).spots@, words_view(words)) ==> exists|i: int|
                    0 <= i < sols@.len() && view_cells(#[trigger] sols@[i]@) == b,
            boards_view(sols@) == search_results(old(self).board(), old(self).spots@, words_view(words)),
    {
        let mut used: Vec<bool> = Vec::new();
        let mut i: usize = 0;
        while i < words.len()
            invariant
                i <= words@.len(),
                used@.len() == i,
                forall|q: int| 0 <= q < i ==> !used@[q],
            decreases words@.len() - i,
        {
            used.push(false);
            i += 1;
        }
        let mut sols: Vec<Vec<Vec<Cell>>> = Vec::new();
        let ghost t = self.board();
        let ghost assign = Seq::new(self.spots@.len(), |k: int| 0int);
        let ghost u0 = used@;
        let ghost f0 = self.filled@;
        assert(u0 =~= Seq::new(words_view(words).len(), |j: int| false));
        assert(f0 =~= Seq::new(self.spots@.len(), |k: int| false));
        assert(boards_view(sols@) =~= Seq::<Board>::empty());
        self.solve(words, &mut used, &mut sols, Ghost(t), Ghost(assign));
        proof {
            assert forall|b: Board| is_solution(t, b, self.spots@, words_view(words)) implies exists|i: int|
                0 <= i < sols@.len() && view_cells(#[trigger] sols@[i]@) == b by {
                let a = choose|a: Seq<int>| is_filling(b, self.spots@, words_view(words), a);
                assert forall|k: int| 0 <= k < self.spots@.len() && !#[trigger] f0[k] implies !u0[a[k]] by {
                    assert(0 <= a[k] < words_view(words).len());
                }
                assert(reachable(t, b, self.spots@, f0, words_view(words), u0, a));
            }
            assert(boards_view(sols@) =~= Seq::<Board>::empty() + boards_view(sols@));
        }
        sols
    }
}

} // verus!

verus! {

/// In a solution no cell of any spot is left blank.
pub proof fn lemma_solution_has_no_blank(t: Board, b: Board, spots: Seq<WordSpot>, words: Seq<Seq<char>>)
    requires
        is_solution(t, b, spots, words),
    ensures
        forall|k: int, j: int|
            0 <= k < spots.len() && 0 <= j < spots[k].len ==> #[trigger] spot_cells(b, spots[k])[j] != Cell::Blank,
{
    let a = choose|a: Seq<int>| is_filling(b, spots, words, a);
    assert forall|k: int, j: int| 0 <= k < spots.len() && 0 <= j < spots[k].len implies #[trigger] spot_cells(
        b,
        spots[k],
    )[j] != Cell::Blank by {
        assert(0 <= a[k] < words.len());
        assert(spot_cells(b, spots[k])[j] == letters(words[a[k]])[j]);
        assert(spot_cells(b, spots[k]).len() == letters(words[a[k]]).len());
        assert(letters(words[a[k]])[j] == letter_cell(words[a[k]][j]));
        assert(letter_cell(words[a[k]][j]) is Letter);
    }
}

/// Two spots that pass through the same cell read the same letter there.
pub proof fn lemma_crossing_letters_agree(b: Board, s1: WordSpot, s2: WordSpot, i: int, j: int)
    requires
        0 <= i < s1.len,
        0 <= j < s2.len,
        pos_r(s1, i) == pos_r(s2, j),
        pos_c(s1, i) == pos_c(s2, j),
    ensures
        spot_cells(b, s1)[i] == spot_cells(b, s2)[j],
{
}

} // verus!
