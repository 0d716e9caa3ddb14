use linkedin_queens::errors::BoardError;
use linkedin_queens::game_logic::queens;
use linkedin_queens::game_logic::CellColor;
use linkedin_queens::image_processor::calculate_average_gap;
use linkedin_queens::image_processor::process_image;
use linkedin_queens::image_processor::detect_lines;
use linkedin_queens::image_processor::BoardImage;
use linkedin_queens::image_processor::Image;
use linkedin_queens::image_processor::Rgb;

fn reference_rgb(c: CellColor) -> Rgb {
    let (r, g, b) = match c {
        CellColor::PeachOrange => (241, 203, 154),
        CellColor::VibrantCoral => (229, 130, 104),
        CellColor::SoftBlue => (164, 190, 249),
        CellColor::PastelGreen => (190, 221, 166),
        CellColor::LightGray => (223, 223, 223),
        CellColor::Lavender => (183, 165, 221),
        CellColor::LimeYellow => (231, 242, 151),
        CellColor::DarkGray => (183, 178, 160),
        CellColor::Pink => (209, 163, 190),
        CellColor::WarmBeige => (241, 234, 218),
    };
    Rgb { r, g, b }
}

/// Renders a synthetic board screenshot: `h_lines` horizontal and
/// `v_lines` vertical separator lines, two pixels thick, spaced `pitch`
/// pixels apart starting at the top-left corner, with each cell filled
/// by `cell_color(row, col)`.
fn render(
    h_lines: usize,
    v_lines: usize,
    pitch: usize,
    cell_color: &dyn Fn(usize, usize) -> CellColor,
) -> Image {
    let width = (v_lines - 1) * pitch + 7;
    let height = (h_lines - 1) * pitch + 7;
    let white = Rgb {
        r: 255,
        g: 255,
        b: 255,
    };
    let mut pixels = vec![white; width * height];
    // cell fills
    for row in 0..(h_lines - 1) {
        for col in 0..(v_lines - 1) {
            let fill = reference_rgb(cell_color(row, col));
            for y in (row * pitch + 2)..((row + 1) * pitch) {
                for x in (col * pitch + 2)..((col + 1) * pitch) {
                    pixels[y * width + x] = fill;
                }
            }
        }
    }
    // separator lines
    let black = Rgb { r: 0, g: 0, b: 0 };
    for k in 0..h_lines {
        for y in (k * pitch)..(k * pitch + 2) {
            for x in 0..width {
                pixels[y * width + x] = black;
            }
        }
    }
    for k in 0..v_lines {
        for x in (k * pitch)..(k * pitch + 2) {
            for y in 0..height {
                pixels[y * width + x] = black;
            }
        }
    }
    Image::new(width as u32, height as u32, pixels).expect("buffer matches dimensions")
}

#[test]
fn image_new_rejects_wrong_buffer_size() {
    let white = Rgb {
        r: 255,
        g: 255,
        b: 255,
    };
    assert!(Image::new(4, 4, vec![white; 15]).is_none());
    assert!(Image::new(4, 4, vec![white; 16]).is_some());
}

#[test]
fn average_gap_of_known_lines() {
    let lines = vec![0u32, 10, 30];
    assert_eq!(calculate_average_gap(&lines), 15);
}

#[test]
fn detected_lines_sit_on_band_midpoints() {
    let img = render(6, 6, 24, &|_, _| CellColor::LightGray);
    let horizontal = detect_lines(&img, true);
    let vertical = detect_lines(&img, false);
    assert_eq!(horizontal, vec![3, 27, 51, 75, 99, 123]);
    assert_eq!(vertical, vec![3, 27, 51, 75, 99, 123]);
}

#[test]
fn round_trip_reproduces_the_cell_matrix() {
    let matrix = vec![
        vec![
            CellColor::PeachOrange,
            CellColor::SoftBlue,
            CellColor::PastelGreen,
            CellColor::LightGray,
            CellColor::VibrantCoral,
        ],
        vec![
            CellColor::LimeYellow,
            CellColor::Lavender,
            CellColor::WarmBeige,
            CellColor::DarkGray,
            CellColor::Pink,
        ],
        vec![
            CellColor::Pink,
            CellColor::DarkGray,
            CellColor::WarmBeige,
            CellColor::Lavender,
            CellColor::LimeYellow,
        ],
        vec![
            CellColor::VibrantCoral,
            CellColor::LightGray,
            CellColor::PastelGreen,
            CellColor::SoftBlue,
            CellColor::PeachOrange,
        ],
        vec![
            CellColor::PeachOrange,
            CellColor::LimeYellow,
            CellColor::Pink,
            CellColor::SoftBlue,
            CellColor::DarkGray,
        ],
    ];
    let m2 = matrix.clone();
    let img = render(6, 6, 24, &move |r, c| m2[r][c]);
    let board_image = BoardImage::new(img).expect("grid must be recovered");
    let board = board_image.get_board_colors().expect("all cells classify");
    assert_eq!(board, matrix);
}

#[test]
fn too_few_horizontal_lines_give_detection_failure() {
    // 3 horizontal and 8 vertical lines: insufficient, never a malformed
    // board
    let img = render(3, 8, 24, &|_, _| CellColor::LightGray);
    match BoardImage::new(img) {
        Err(BoardError::InsufficientLines {
            horizontal,
            vertical,
        }) => {
            assert_eq!(horizontal, 3);
            assert_eq!(vertical, 8);
        },
        Err(other) => panic!("wrong failure: {:?}", other),
        Ok(_) => panic!("expected a detection failure"),
    }
}

#[test]
fn blank_image_gives_detection_failure() {
    let white = Rgb {
        r: 255,
        g: 255,
        b: 255,
    };
    let img = Image::new(64, 64, vec![white; 64 * 64]).unwrap();
    match BoardImage::new(img) {
        Err(BoardError::InsufficientLines {
            horizontal,
            vertical,
        }) => {
            assert_eq!(horizontal, 0);
            assert_eq!(vertical, 0);
        },
        Err(other) => panic!("wrong failure: {:?}", other),
        Ok(_) => panic!("expected a detection failure"),
    }
}

#[test]
fn non_square_grid_is_rejected() {
    let img = render(6, 7, 24, &|_, _| CellColor::LightGray);
    match BoardImage::new(img) {
        Err(BoardError::NonSquareGrid { width, height }) => {
            assert_eq!(width, 6);
            assert_eq!(height, 5);
        },
        Err(other) => panic!("wrong failure: {:?}", other),
        Ok(_) => panic!("expected a square-grid failure"),
    }
}

#[test]
fn rendered_board_is_recovered_and_solved() {
    // region 0 fills row 0, regions 1..4 sit on one target cell each, so
    // exactly one placement satisfies all constraints
    let target = [0usize, 2, 4, 1, 3];
    let palette = [
        CellColor::PeachOrange,
        CellColor::SoftBlue,
        CellColor::PastelGreen,
        CellColor::LightGray,
        CellColor::VibrantCoral,
    ];
    let img = render(6, 6, 24, &move |r, c| {
        if r > 0 && c == target[r] {
            palette[r]
        } else {
            palette[0]
        }
    });
    let board = process_image(img).expect("board must be recovered");
    let solution = queens(&board).expect("the board has a solution");
    let expected: Vec<(usize, usize)> = (0..5).map(|r| (r, target[r])).collect();
    assert_eq!(solution, expected);
}

#[test]
fn unrecognized_cell_fill_propagates_distance() {
    // paint one cell with a color far from every reference: the board is
    // rejected with the measured distance, never defaulted
    let img_ok = render(6, 6, 24, &|_, _| CellColor::LightGray);
    let mut pixels = img_ok.pixels.clone();
    let width = 127usize;
    // overwrite cell (1, 2) with saturated blue
    for y in (1 * 24 + 2)..(2 * 24) {
        for x in (2 * 24 + 2)..(3 * 24) {
            pixels[y * width + x] = Rgb { r: 0, g: 0, b: 255 };
        }
    }
    let img = Image::new(127, 127, pixels).unwrap();
    let board_image = BoardImage::new(img).expect("grid still detected");
    match board_image.get_board_colors() {
        Err(BoardError::UnrecognizedColor { distance }) => assert!(distance > 100),
        other => panic!("expected a classification failure, got {:?}", other),
    }
}
