use fill_in::grid::{Cell, Direction, Grid, WordSpot};
use fill_in::load_and_solve;
use fill_in::parse::ParseError;

fn lines(v: &[&str]) -> Vec<String> {
    v.iter().map(|s| s.to_string()).collect()
}

fn words(v: &[&str]) -> Vec<Vec<char>> {
    v.iter().map(|s| s.chars().collect()).collect()
}

#[test]
fn single_spot_is_filled() {
    let out = load_and_solve("###\n\nCAT").unwrap();
    assert_eq!(out, lines(&["###", "", "CAT"]));
}

#[test]
fn crossing_spots_agree() {
    let out = load_and_solve("##\n##\n\nAT\nAS\nAA\nTS").unwrap();
    assert_eq!(out, lines(&["##", "##", "", "AT", "AS", "", "AA", "TS"]));
}

#[test]
fn unsatisfiable_gives_only_template() {
    let out = load_and_solve("###\n\nAB").unwrap();
    assert_eq!(out, lines(&["###"]));
}

#[test]
fn prefilled_letter_constrains_words() {
    let out = load_and_solve("C##\n\nDOG\nCAT").unwrap();
    assert_eq!(out, lines(&["C##", "", "CAT"]));
}

#[test]
fn grid_without_spots_is_its_own_solution() {
    let out = load_and_solve("#.#\n\nAB").unwrap();
    assert_eq!(out, lines(&["#.#", "", "#.#"]));
}

#[test]
fn duplicate_words_are_separate_entries() {
    let out = load_and_solve("##\n..\n##\n\nAB\nAB").unwrap();
    assert_eq!(out, lines(&["##", "..", "##", "", "AB", "..", "AB", "", "AB", "..", "AB"]));
}

#[test]
fn one_word_fills_one_spot_only() {
    let out = load_and_solve("##\n..\n##\n\nAB").unwrap();
    assert_eq!(out, lines(&["##", "..", "##"]));
}

#[test]
fn sections_are_trimmed() {
    let out = load_and_solve("  ###  \n\n\n CAT \n").unwrap();
    assert_eq!(out, lines(&["###", "", "CAT"]));
}

#[test]
fn missing_separator_is_rejected() {
    assert_eq!(load_and_solve("###\nCAT"), Err(ParseError::MissingSeparator));
}

#[test]
fn empty_grid_is_rejected() {
    assert_eq!(load_and_solve("\n\nCAT"), Err(ParseError::EmptyGrid));
}

#[test]
fn ragged_rows_are_rejected() {
    assert_eq!(load_and_solve("###\n##\n\nCAT"), Err(ParseError::RaggedRow { row: 1 }));
}

#[test]
fn invalid_char_is_reported_with_position() {
    assert_eq!(
        load_and_solve("###\n#a#\n\nCAT"),
        Err(ParseError::InvalidChar { ch: 'a', row: 1, col: 1 })
    );
}

#[test]
fn spots_are_discovered_in_row_major_order() {
    let g = Grid::parse("##.\n#.#\n###").unwrap();
    assert_eq!(g.rows, 3);
    assert_eq!(g.cols, 3);
    assert_eq!(
        g.spots,
        vec![
            WordSpot { row: 0, col: 0, dir: Direction::Horizontal, len: 2 },
            WordSpot { row: 0, col: 0, dir: Direction::Vertical, len: 3 },
            WordSpot { row: 1, col: 2, dir: Direction::Vertical, len: 2 },
            WordSpot { row: 2, col: 0, dir: Direction::Horizontal, len: 3 },
        ]
    );
    assert_eq!(g.filled, vec![false; 4]);
}

#[test]
fn spot_lengths_match_runs() {
    let g = Grid::parse("####.#\n......\n..#...").unwrap();
    assert_eq!(g.spots, vec![WordSpot { row: 0, col: 0, dir: Direction::Horizontal, len: 4 }]);
}

#[test]
fn cells_follow_template_chars() {
    let g = Grid::parse(".#Q").unwrap();
    assert_eq!(g.cells, vec![vec![Cell::Void, Cell::Blank, Cell::Letter('Q')]]);
    assert_eq!(g.spots, vec![WordSpot { row: 0, col: 1, dir: Direction::Horizontal, len: 2 }]);
}

#[test]
fn solutions_have_no_blank_in_spots_and_grid_is_restored() {
    let mut g = Grid::parse("##\n##").unwrap();
    let before = g.cells.clone();
    let sols = g.solve_all(&words(&["AT", "AS", "AA", "TS"]));
    assert_eq!(g.cells, before);
    assert_eq!(g.filled, vec![false; 4]);
    assert_eq!(sols.len(), 2);
    for s in &sols {
        for row in s {
            for c in row {
                assert!(matches!(c, Cell::Letter(_)));
            }
        }
    }
    assert_eq!(
        sols[0],
        vec![vec![Cell::Letter('A'), Cell::Letter('T')], vec![Cell::Letter('A'), Cell::Letter('S')]]
    );
}

#[test]
fn crossing_letters_are_shared() {
    let mut g = Grid::parse("#.\n##").unwrap();
    let sols = g.solve_all(&words(&["XY", "YZ", "AB"]));
    assert_eq!(sols.len(), 1);
    assert_eq!(sols[0], vec![vec![Cell::Letter('X'), Cell::Void], vec![Cell::Letter('Y'), Cell::Letter('Z')]]);
}

#[test]
fn find_word_spot_to_fill_takes_first_open() {
    let mut g = Grid::parse("##\n##").unwrap();
    assert_eq!(g.find_word_spot_to_fill(), Some(0));
    g.filled[0] = true;
    g.filled[1] = true;
    assert_eq!(g.find_word_spot_to_fill(), Some(2));
    g.filled[2] = true;
    g.filled[3] = true;
    assert_eq!(g.find_word_spot_to_fill(), None);
}

#[test]
fn equal_words_give_one_block_per_assignment() {
    let out = load_and_solve("##\n#.\n\nAB\nAB").unwrap();
    assert_eq!(out, lines(&["##", "#.", "", "AB", "B.", "", "AB", "B."]));
}

#[test]
fn template_without_spots_is_reported_once() {
    let out = load_and_solve("#.#\n\nA").unwrap();
    assert_eq!(out, lines(&["#.#", "", "#.#"]));
}

#[test]
fn output_has_one_block_per_filling() {
    let out = load_and_solve("##\n##\n\nAT\nAS\nAA\nTS").unwrap();
    assert_eq!(out.len(), 2 + 2 * 3);
}
