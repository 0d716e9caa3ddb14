use linkedin_queens::game_logic::CellColor;
use linkedin_queens::html_parser::build_board;
use linkedin_queens::html_parser::contains_str;
use linkedin_queens::html_parser::find_sub;
use linkedin_queens::html_parser::parse_board_from_labels;
use linkedin_queens::html_parser::parse_cell_position;
use linkedin_queens::html_parser::parse_uint_after;

#[test]
fn find_sub_reports_first_occurrence() {
    assert_eq!(find_sub("row 3, row 5", "row "), Some(0));
    assert_eq!(find_sub("the column 7", "column "), Some(4));
    assert_eq!(find_sub("abc", "d"), None);
    assert_eq!(find_sub("abc", ""), Some(0));
    assert_eq!(find_sub("ab", "abc"), None);
}

#[test]
fn contains_matches_substrings_only() {
    assert!(contains_str("Peach Orange cell", "Peach Orange"));
    assert!(!contains_str("Peach cell", "Peach Orange"));
    assert!(contains_str("x", ""));
}

#[test]
fn numbers_after_markers_are_read() {
    assert_eq!(parse_uint_after("--rows: 8;", "--rows: "), Some(8));
    assert_eq!(parse_uint_after("--cols: 10;", "--cols: "), Some(10));
    assert_eq!(parse_uint_after("row 12, column 3", "row "), Some(12));
    assert_eq!(parse_uint_after("row 12, column 3", "column "), Some(3));
    // spaces between the marker and the number are skipped
    assert_eq!(parse_uint_after("rows:   42", "rows:"), Some(42));
}

#[test]
fn missing_marker_or_digits_give_none() {
    assert_eq!(parse_uint_after("--rows: 8;", "--cols: "), None);
    assert_eq!(parse_uint_after("row x", "row "), None);
    assert_eq!(parse_uint_after("row ", "row "), None);
}

#[test]
fn oversized_number_gives_none() {
    assert_eq!(parse_uint_after("row 99999999999", "row "), None);
    assert_eq!(parse_uint_after("row 4294967295", "row "), Some(u32::MAX));
    assert_eq!(parse_uint_after("row 4294967296", "row "), None);
}

#[test]
fn cell_positions_are_zero_based() {
    assert_eq!(
        parse_cell_position("Queen placed, row 3, column 5, Pink"),
        Some((2, 4))
    );
    assert_eq!(parse_cell_position("row 1, column 1"), Some((0, 0)));
    // 1-based labels never name row or column zero
    assert_eq!(parse_cell_position("row 0, column 1"), None);
    assert_eq!(parse_cell_position("row 2"), None);
}

#[test]
fn build_board_fills_and_overwrites() {
    let cells = vec![
        (0usize, 0usize, CellColor::Pink),
        (1, 1, CellColor::SoftBlue),
        (0, 0, CellColor::DarkGray),
    ];
    let board = build_board(2, 2, &cells).expect("all cells in range");
    assert_eq!(board[0][0], CellColor::DarkGray);
    assert_eq!(board[0][1], CellColor::Lavender);
    assert_eq!(board[1][0], CellColor::Lavender);
    assert_eq!(board[1][1], CellColor::SoftBlue);
}

#[test]
fn build_board_rejects_out_of_range_cells() {
    let cells = vec![(2usize, 0usize, CellColor::Pink)];
    assert_eq!(build_board(2, 2, &cells), None);
}

#[test]
fn labels_assemble_into_a_board() {
    let labels = vec![
        String::from("cell, row 1, column 1, Peach Orange"),
        String::from("cell, row 1, column 2, Soft Blue"),
        String::from("cell, row 2, column 1, Soft Blue"),
        String::from("cell, row 2, column 2, Peach Orange"),
    ];
    let board = parse_board_from_labels(2, 2, &labels).expect("labels parse");
    assert_eq!(
        board,
        vec![
            vec![CellColor::PeachOrange, CellColor::SoftBlue],
            vec![CellColor::SoftBlue, CellColor::PeachOrange],
        ]
    );
}

#[test]
fn unparsable_label_rejects_the_board() {
    let labels = vec![String::from("cell, row 1, column 1, Chartreuse")];
    assert_eq!(parse_board_from_labels(2, 2, &labels), None);
    let labels2 = vec![String::from("cell, row 9, column 1, Pink")];
    assert_eq!(parse_board_from_labels(2, 2, &labels2), None);
}
