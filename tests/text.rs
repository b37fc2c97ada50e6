use fill_in::text::{find_blank_line, space, split_at_newlines, to_chars, trim_range};

fn chars(s: &str) -> Vec<char> {
    s.chars().collect()
}

#[test]
fn space_matches_unicode_white_space() {
    for c in ['\t', '\n', '\u{b}', '\u{c}', '\r', ' ', '\u{85}', '\u{a0}', '\u{1680}', '\u{2000}', '\u{200a}', '\u{2028}', '\u{2029}', '\u{202f}', '\u{205f}', '\u{3000}'] {
        assert!(space(c), "{:?}", c);
    }
    for c in ['A', '#', '.', '\u{8}', '\u{200b}', '\u{feff}'] {
        assert!(!space(c), "{:?}", c);
    }
}

#[test]
fn to_chars_keeps_every_char() {
    assert_eq!(to_chars("a\u{3000}b"), vec!['a', '\u{3000}', 'b']);
}

#[test]
fn trim_range_drops_outer_space_only() {
    let s = chars("xx \u{a0}A B\n\txx");
    assert_eq!(trim_range(&s, 2, s.len() - 2), chars("A B"));
    assert_eq!(trim_range(&s, 2, 4), Vec::<char>::new());
}

#[test]
fn split_keeps_empty_pieces() {
    let s = chars("AB\n\nC\n");
    assert_eq!(split_at_newlines(&s), vec![chars("AB"), chars(""), chars("C"), chars("")]);
    assert_eq!(split_at_newlines(&chars("")), vec![chars("")]);
}

#[test]
fn first_blank_line_is_found() {
    assert_eq!(find_blank_line(&chars("a\nb\n\nc\n\n")), Some(3));
    assert_eq!(find_blank_line(&chars("a\nb\n")), None);
}

#[test]
fn words_section_keeps_blank_words_out_of_spots() {
    let out = fill_in::load_and_solve("###\n\nCAT\n\nDOG").unwrap();
    assert_eq!(out, vec!["###".to_string(), "".to_string(), "CAT".to_string(), "".to_string(), "DOG".to_string()]);
}

#[test]
fn unicode_space_around_grid_is_trimmed() {
    let out = fill_in::load_and_solve("\u{a0}##\u{3000}\n\nAB").unwrap();
    assert_eq!(out, vec!["##".to_string(), "".to_string(), "AB".to_string()]);
}
