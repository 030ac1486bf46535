use splitscreen::overlay::{diff_text, place_plate};

#[test]
fn zero_difference_is_white_and_unsigned() {
    let (text, color) = diff_text(false, 0, 10);
    assert_eq!(text, "00.000");
    assert_eq!(color, (255, 255, 255));
}

#[test]
fn inverted_difference_is_green_with_a_minus() {
    let (text, color) = diff_text(true, 5, 10);
    assert_eq!(text, "-00.500");
    assert_eq!(color, (0, 192, 0));
}

#[test]
fn plain_difference_is_red_with_a_plus() {
    let (text, color) = diff_text(false, 15, 10);
    assert_eq!(text, "+01.500");
    assert_eq!(color, (192, 0, 0));
}

#[test]
fn the_difference_is_frames_over_the_rate() {
    // 90 frames at 60 fps is a second and a half
    let (text, _) = diff_text(false, 90, 60);
    assert_eq!(text, "+01.500");
}

#[test]
fn the_plate_wraps_the_text_in_a_half_height_border() {
    // a 40x20 text box in a 100x100 tile: border 10, centered, low
    let r = place_plate(0, 0, 100, 100, (0, -10, 40, 10));
    assert_eq!(r, Some(((20, 50, 60, 40), (10, 20))));
}

#[test]
fn a_text_wider_than_the_tile_has_no_plate() {
    let r = place_plate(0, 0, 30, 100, (0, 0, 40, 20));
    assert_eq!(r, None);
}

#[test]
fn a_degenerate_text_box_has_no_plate() {
    assert_eq!(place_plate(0, 0, 100, 100, (5, 5, 5, 9)), None);
}
