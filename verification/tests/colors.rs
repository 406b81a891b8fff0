use game2048::color::get_color;
use game2048::color::hsv_to_rgb;

#[test]
fn empty_cell_color_is_the_fixed_muted_blue() {
    assert_eq!(get_color(0), (26, 77, 151));
}

#[test]
fn tile_colors_are_stable_within_a_run() {
    for v in [2u32, 4, 8, 16, 32, 1024, 131072] {
        assert_eq!(get_color(v), get_color(v));
    }
    assert_eq!(get_color(0), get_color(0));
}

#[test]
fn tile_color_follows_the_hue_formula() {
    // Value 2: one doubling, hue 12.477 degrees. The selector lands at 0,
    // 793 and 1000 thousandths for the three channels.
    assert_eq!(get_color(2), (153, 43, 15));
    // Value 4: two doublings, hue 24.954 degrees.
    assert_eq!(get_color(4), (153, 72, 15));
}

#[test]
fn neighbouring_magnitudes_get_distinct_colors() {
    assert_ne!(get_color(2), get_color(4));
    assert_ne!(get_color(4), get_color(8));
    assert_ne!(get_color(0), get_color(2));
}

#[test]
fn hue_zero_matches_the_smallest_tile_family() {
    // A hue of zero millidegrees folds to selectors 0, 1000 and 1000:
    // full red, with green and blue at the floor.
    assert_eq!(hsv_to_rgb(0), (153, 15, 15));
}
