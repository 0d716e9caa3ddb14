use linkedin_queens::errors::BoardError;
use linkedin_queens::game_logic::CellColor;
use linkedin_queens::image_processor::detect_dominant_color;
use linkedin_queens::image_processor::detect_single_color;
use linkedin_queens::image_processor::is_black;
use linkedin_queens::image_processor::Rgb;

fn rgb(r: u8, g: u8, b: u8) -> Rgb {
    Rgb { r, g, b }
}

#[test]
fn exact_reference_values_classify_to_their_color() {
    let cases = [
        (rgb(241, 203, 154), CellColor::PeachOrange),
        (rgb(229, 130, 104), CellColor::VibrantCoral),
        (rgb(164, 190, 249), CellColor::SoftBlue),
        (rgb(190, 221, 166), CellColor::PastelGreen),
        (rgb(223, 223, 223), CellColor::LightGray),
        (rgb(183, 165, 221), CellColor::Lavender),
        (rgb(231, 242, 151), CellColor::LimeYellow),
        (rgb(183, 178, 160), CellColor::DarkGray),
        (rgb(209, 163, 190), CellColor::Pink),
        (rgb(241, 234, 218), CellColor::WarmBeige),
    ];
    for (pixel, expected) in cases {
        assert_eq!(detect_single_color(pixel), Ok(expected));
    }
}

#[test]
fn nearby_sample_classifies_to_nearest_reference() {
    // 10 + 10 + 10 = 30 away from Peach Orange, farther from the rest
    assert_eq!(
        detect_single_color(rgb(231, 213, 164)),
        Ok(CellColor::PeachOrange)
    );
}

#[test]
fn classification_is_idempotent() {
    let samples = [rgb(241, 203, 154), rgb(0, 0, 0), rgb(120, 77, 200)];
    for pixel in samples {
        assert_eq!(detect_single_color(pixel), detect_single_color(pixel));
    }
}

#[test]
fn far_sample_yields_classification_failure_with_distance() {
    // black is 463 away from Vibrant Coral, its nearest reference
    assert_eq!(
        detect_single_color(rgb(0, 0, 0)),
        Err(BoardError::UnrecognizedColor { distance: 463 })
    );
}

#[test]
fn far_sample_is_never_coerced_to_a_default_region() {
    // channel distance above 100 to every reference color
    let pixel = rgb(40, 40, 255);
    match detect_single_color(pixel) {
        Err(BoardError::UnrecognizedColor { distance }) => assert!(distance > 100),
        other => panic!("expected a classification failure, got {:?}", other),
    }
}

#[test]
fn dominant_color_takes_the_first_sample() {
    let samples = vec![rgb(223, 223, 223), rgb(229, 130, 104)];
    assert_eq!(detect_dominant_color(&samples), Ok(CellColor::LightGray));
}

#[test]
fn only_pure_black_counts_as_line_pixel() {
    assert!(is_black(rgb(0, 0, 0)));
    assert!(!is_black(rgb(1, 0, 0)));
    assert!(!is_black(rgb(0, 0, 1)));
    assert!(!is_black(rgb(255, 255, 255)));
}

#[test]
fn aria_labels_map_to_their_colors() {
    let cases = [
        ("cell, row 1, column 1, Peach Orange", CellColor::PeachOrange),
        ("cell, row 2, column 3, Soft Blue", CellColor::SoftBlue),
        ("Pastel Green region", CellColor::PastelGreen),
        ("Light Gray cell", CellColor::LightGray),
        ("a Vibrant Coral square", CellColor::VibrantCoral),
        ("Lime Yellow", CellColor::LimeYellow),
        ("Lavender field", CellColor::Lavender),
        ("Warm Beige spot", CellColor::WarmBeige),
        ("Dark Gray corner", CellColor::DarkGray),
        ("Pink cell", CellColor::Pink),
    ];
    for (label, expected) in cases {
        assert_eq!(CellColor::from_aria_label(label), Some(expected));
    }
}

#[test]
fn unknown_label_maps_to_none() {
    assert_eq!(CellColor::from_aria_label("row 4, column 2, Turquoise"), None);
    assert_eq!(CellColor::from_aria_label(""), None);
}
