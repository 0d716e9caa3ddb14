use linkedin_queens::errors::BoardError;
use linkedin_queens::game_logic::queens;
use linkedin_queens::game_logic::CellColor;
use linkedin_queens::game_logic::ColorSet;

fn assert_valid_solution(board: &Vec<Vec<CellColor>>, sol: &Vec<(usize, usize)>) {
    let n = board.len();
    assert_eq!(sol.len(), n);
    for (i, &(r, c)) in sol.iter().enumerate() {
        assert_eq!(r, i);
        assert!(c < n);
    }
    for i in 0..n {
        for j in (i + 1)..n {
            let (r1, c1) = sol[i];
            let (r2, c2) = sol[j];
            assert_ne!(c1, c2, "two markers share column {}", c1);
            let dr = if r1 > r2 { r1 - r2 } else { r2 - r1 };
            let dc = if c1 > c2 { c1 - c2 } else { c2 - c1 };
            assert!(!(dr == 1 && dc == 1), "markers touch diagonally");
            assert_ne!(
                board[r1][c1], board[r2][c2],
                "two markers share a region color"
            );
        }
    }
}

#[test]
fn single_cell_board_solves_trivially() {
    let board = vec![vec![CellColor::PeachOrange]];
    let sol = queens(&board).expect("1x1 board must solve");
    assert_eq!(sol, vec![(0, 0)]);
}

#[test]
fn two_by_two_board_has_no_solution() {
    // any two distinct columns of adjacent rows touch diagonally
    let board = vec![
        vec![CellColor::PeachOrange, CellColor::SoftBlue],
        vec![CellColor::SoftBlue, CellColor::PeachOrange],
    ];
    assert_eq!(queens(&board), Err(BoardError::NoSolution));
}

#[test]
fn three_by_three_board_has_no_solution() {
    // three rows, three columns: the middle row always touches a corner
    let board = vec![
        vec![
            CellColor::PeachOrange,
            CellColor::PeachOrange,
            CellColor::SoftBlue,
        ],
        vec![
            CellColor::PastelGreen,
            CellColor::PastelGreen,
            CellColor::SoftBlue,
        ],
        vec![
            CellColor::PastelGreen,
            CellColor::LightGray,
            CellColor::LightGray,
        ],
    ];
    assert_eq!(queens(&board), Err(BoardError::NoSolution));
}

/// Builds an 8x8 board over 8 regions whose only valid placement is
/// `target`: row 0 is painted entirely in region 0, and every other row
/// `r` carries region `r` only on its target cell, region 0 elsewhere.
/// Any placement must put the region-0 marker in row 0, which forces
/// rows 1..7 onto their target cells, and the column constraint then
/// pins row 0.
fn unique_solution_board(target: &[usize; 8]) -> Vec<Vec<CellColor>> {
    let palette = [
        CellColor::PeachOrange,
        CellColor::SoftBlue,
        CellColor::PastelGreen,
        CellColor::LightGray,
        CellColor::VibrantCoral,
        CellColor::LimeYellow,
        CellColor::Lavender,
        CellColor::WarmBeige,
    ];
    let mut board = vec![vec![palette[0]; 8]; 8];
    for r in 1..8 {
        board[r][target[r]] = palette[r];
    }
    board
}

#[test]
fn eight_by_eight_unique_solution_is_found() {
    let target = [0usize, 2, 4, 6, 1, 3, 5, 7];
    // the target itself is valid: distinct columns, no consecutive rows
    // one column apart
    for r in 0..7 {
        let d = target[r].abs_diff(target[r + 1]);
        assert!(d != 1);
    }
    let board = unique_solution_board(&target);
    let sol = queens(&board).expect("the unique assignment must be found");
    assert_valid_solution(&board, &sol);
    let expected: Vec<(usize, usize)> = (0..8).map(|r| (r, target[r])).collect();
    assert_eq!(sol, expected);
}

#[test]
fn solvable_board_yields_distinct_columns_and_colors() {
    let target = [7usize, 5, 3, 1, 6, 0, 2, 4];
    for r in 0..7 {
        assert!(target[r].abs_diff(target[r + 1]) != 1);
    }
    let board = unique_solution_board(&target);
    let sol = queens(&board).expect("solvable board");
    assert_valid_solution(&board, &sol);
    // the eight markers use all eight region colors
    let mut used: Vec<CellColor> = sol.iter().map(|&(r, c)| board[r][c]).collect();
    used.sort_by_key(|c| format!("{:?}", c));
    used.dedup();
    assert_eq!(used.len(), 8);
}

#[test]
fn color_set_tracks_membership_transactionally() {
    let mut used = ColorSet::new();
    assert!(!used.contains(CellColor::Pink));
    used.insert(CellColor::Pink);
    used.insert(CellColor::DarkGray);
    assert!(used.contains(CellColor::Pink));
    assert!(used.contains(CellColor::DarkGray));
    assert!(!used.contains(CellColor::Lavender));
    used.remove(CellColor::Pink);
    assert!(!used.contains(CellColor::Pink));
    assert!(used.contains(CellColor::DarkGray));
}

#[test]
fn empty_board_solves_to_empty_placement() {
    let board: Vec<Vec<CellColor>> = Vec::new();
    assert_eq!(queens(&board), Ok(Vec::new()));
}
