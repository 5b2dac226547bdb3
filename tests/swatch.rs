use swatch_grid::{
    block_origin, entry_colors, fit_and_place, grid_size, sort_colors, ColorEntry, GlyphMetrics,
    Placement, accept_run, shadow_color,
    class_of, fits, hex_to_rgb, label_candidate, nearest_path, next_step, pick_label_color,
    place, refine_order, rgb_to_hex, run_width, sequence, FitStep, LayoutError, ParseError,
    DARK_LABEL_LIGHTNESS, LIGHT_LABEL_LIGHTNESS, MAX_FIT_ATTEMPTS,
};

#[test]
fn parses_codes_with_and_without_hash() {
    assert_eq!(hex_to_rgb("#FF0000"), Ok((255, 0, 0)));
    assert_eq!(hex_to_rgb("1e90ff"), Ok((30, 144, 255)));
    assert_eq!(hex_to_rgb("#00ff00ignored"), Ok((0, 255, 0)));
}

#[test]
fn rejects_short_codes() {
    assert_eq!(hex_to_rgb("#12345"), Err(ParseError::TooShort));
    assert_eq!(hex_to_rgb(""), Err(ParseError::TooShort));
}

#[test]
fn rejects_non_hex_digits() {
    assert_eq!(hex_to_rgb("#GG0000"), Err(ParseError::NotHex));
    assert_eq!(hex_to_rgb("##FF0000"), Err(ParseError::NotHex));
    assert_eq!(hex_to_rgb("12345z"), Err(ParseError::NotHex));
}

#[test]
fn hex_round_trip() {
    assert_eq!(rgb_to_hex((30, 144, 255)), b"#1E90FF".to_vec());
    for code in ["#1E90FF", "#000000", "#FFFFFF", "#A0B1C2"] {
        let c = hex_to_rgb(code).unwrap();
        assert_eq!(rgb_to_hex(c), code.as_bytes().to_vec());
    }
    assert_eq!(rgb_to_hex(hex_to_rgb("abcdef").unwrap()), b"#ABCDEF".to_vec());
}

#[test]
fn dark_saturated_yellow_gets_light_label() {
    // hue 55, lightness 0.25, saturation 0.8
    let bg = (115, 106, 13);
    let light = label_candidate(bg, LIGHT_LABEL_LIGHTNESS);
    assert_eq!(light, (220, 216, 175));
    assert_eq!(pick_label_color(bg), light);
}

#[test]
fn mid_gray_picks_farther_candidate() {
    let bg = (128, 128, 128);
    assert_eq!(label_candidate(bg, LIGHT_LABEL_LIGHTNESS), (198, 198, 198));
    assert_eq!(label_candidate(bg, DARK_LABEL_LIGHTNESS), (71, 71, 71));
    assert_eq!(pick_label_color(bg), (198, 198, 198));
}

#[test]
fn white_and_black_labels() {
    assert_eq!(pick_label_color((255, 255, 255)), (71, 71, 71));
    assert_eq!(pick_label_color((0, 0, 0)), (198, 198, 198));
}

#[test]
fn green_band_forces_light_label() {
    // the dark tint is farther in luminance, but the hue band wins
    assert_eq!(label_candidate((0, 255, 0), DARK_LABEL_LIGHTNESS), (36, 107, 36));
    assert_eq!(pick_label_color((0, 255, 0)), (169, 226, 169));
}

#[test]
fn label_keeps_hue_of_chromatic_background() {
    assert_eq!(pick_label_color((255, 0, 0)), (226, 169, 169));
    assert_eq!(pick_label_color((30, 144, 255)), (169, 198, 226));
    for bg in [(30, 144, 255), (200, 40, 90), (115, 106, 13), (10, 20, 30)] {
        let (r, g, b) = pick_label_color(bg);
        assert!(!(r == g && g == b));
    }
}

#[test]
fn ordering_classes() {
    assert_eq!(class_of((255, 0, 0)), 0);
    assert_eq!(class_of((60, 60, 60)), 0);
    assert_eq!(class_of((255, 255, 255)), 101);
    assert_eq!(class_of((240, 240, 240)), 95);
}

#[test]
fn nearest_path_edge_cases() {
    assert_eq!(nearest_path(&vec![]), Vec::<usize>::new());
    assert_eq!(nearest_path(&vec![(5, 5, 5)]), vec![0]);
    assert_eq!(nearest_path(&vec![(1, 1, 1), (1, 1, 1), (1, 1, 1)]), vec![0, 1, 2]);
}

#[test]
fn nearest_path_follows_closest() {
    let pts = vec![(0, 0, 0), (100, 0, 0), (10, 0, 0), (50, 0, 0)];
    assert_eq!(nearest_path(&pts), vec![0, 2, 3, 1]);
    let pts = vec![(0, 0, 0), (-10, 0, 0), (10, 0, 0)];
    assert_eq!(nearest_path(&pts), vec![0, 1, 2]);
}

#[test]
fn light_neutrals_go_last_by_lightness() {
    let colors = vec![(255, 255, 255), (255, 0, 0), (240, 240, 240), (0, 0, 255)];
    assert_eq!(refine_order(&vec![0, 1, 2, 3], &colors), vec![1, 3, 2, 0]);
    assert_eq!(refine_order(&vec![2, 0, 3, 1], &colors), vec![3, 1, 2, 0]);
}

#[test]
fn sequence_is_deterministic_permutation() {
    let pts = vec![(5, 1, 2), (0, 0, 0), (9, 9, 9), (5, 1, 3), (1, 0, 0)];
    let colors = vec![(1, 2, 3), (250, 250, 250), (9, 9, 9), (100, 0, 0), (0, 100, 0)];
    let a = sequence(&pts, &colors);
    let b = sequence(&pts, &colors);
    assert_eq!(a, b);
    let mut sorted = a.clone();
    sorted.sort();
    assert_eq!(sorted, vec![0, 1, 2, 3, 4]);
    assert_eq!(*a.last().unwrap(), 1);
}

#[test]
fn red_green_blue_example() {
    let colors: Vec<(u8, u8, u8)> = ["#FF0000", "#00FF00", "#0000FF"]
        .iter()
        .map(|h| hex_to_rgb(h).unwrap())
        .collect();
    let pts = vec![(628_000, 225_000, 126_000), (866_000, -234_000, 179_000), (452_000, -32_000, -312_000)];
    let order = sequence(&pts, &colors);
    assert_eq!(order[0], 0);
    assert_eq!(order, vec![0, 1, 2]);
    // each label depends on its own background only
    assert_eq!(pick_label_color(colors[2]), (169, 169, 226));
}

#[test]
fn fit_margin() {
    assert!(fits(379, 400));
    assert!(!fits(380, 400));
}

#[test]
fn scale_search_steps() {
    assert_eq!(next_step(7, 0, 100, 400), Ok(FitStep::Accept));
    assert_eq!(next_step(7, 0, 390, 400), Ok(FitStep::Retry(8)));
    assert_eq!(next_step(13, MAX_FIT_ATTEMPTS, 390, 400), Err(LayoutError::TooSmall));
}

#[test]
fn run_width_and_placement() {
    assert_eq!(run_width(Some(3), Some(50)), 47);
    assert_eq!(run_width(None, Some(50)), 50);
    assert_eq!(run_width(None, None), 1);
    assert_eq!(run_width(Some(10), Some(4)), 1);
    assert_eq!(place(400, 300, 400, 300, 100, 50, -10), (550, 415));
    assert_eq!(place(0, 0, 400, 300, 101, 51, 0), (149, 124));
}

#[test]
fn grid_geometry() {
    assert_eq!(grid_size(0), (3200, 0));
    assert_eq!(grid_size(8), (3200, 300));
    assert_eq!(grid_size(9), (3200, 600));
    assert_eq!(block_origin(0), (0, 0));
    assert_eq!(block_origin(7), (2800, 0));
    assert_eq!(block_origin(10), (800, 300));
}


fn entry(name: &str, hex: &str) -> ColorEntry {
    ColorEntry { name: name.to_string(), hex: hex.to_string() }
}

#[test]
fn entry_colors_reports_first_bad_code() {
    let good = vec![entry("Red", "#FF0000"), entry("Blue", "0000ff")];
    assert_eq!(entry_colors(&good), Ok(vec![(255, 0, 0), (0, 0, 255)]));
    let bad = vec![entry("Red", "#FF0000"), entry("Oops", "#12"), entry("Bad", "#XX0000")];
    assert_eq!(entry_colors(&bad), Err((1, ParseError::TooShort)));
}

#[test]
fn sort_colors_orders_entries() {
    let entries = vec![
        entry("White", "#FFFFFF"),
        entry("Red", "#FF0000"),
        entry("Smoke", "#F0F0F0"),
        entry("Blue", "#0000FF"),
    ];
    let pts = vec![(0, 0, 0), (1, 0, 0), (2, 0, 0), (3, 0, 0)];
    let sorted = sort_colors(&entries, &pts).unwrap();
    let names: Vec<&str> = sorted.iter().map(|e| e.name.as_str()).collect();
    assert_eq!(names, vec!["Red", "Blue", "Smoke", "White"]);
    let broken = vec![entry("Red", "#FF0000"), entry("Bad", "#GG0000")];
    assert_eq!(sort_colors(&broken, &vec![(0, 0, 0), (1, 0, 0)]), Err((1, ParseError::NotHex)));
}

/// Glyph runs whose width shrinks in proportion to the scale divisor.
struct ProportionalMetrics {
    line_height: u32,
}

impl GlyphMetrics for ProportionalMetrics {
    fn measure(&self, text: &str, divisor_halves: u32, width: u32) -> (Option<i32>, Option<i32>, u32) {
        let run = text.len() as u32 * 2 * width / divisor_halves;
        (Some(5), Some(5 + run as i32), self.line_height)
    }
}

/// Glyph runs that never get narrower.
struct StubbornMetrics;

impl GlyphMetrics for StubbornMetrics {
    fn measure(&self, _text: &str, _divisor_halves: u32, _width: u32) -> (Option<i32>, Option<i32>, u32) {
        (None, Some(1000), 10)
    }
}

#[test]
fn fit_and_place_shrinks_until_it_fits() {
    let m = ProportionalMetrics { line_height: 40 };
    let p = fit_and_place(&m, "abcd", 0, 0, 400, 300, 7, -10).unwrap();
    assert_eq!(
        p,
        Placement { divisor_halves: 9, run: 355, line_height: 40, x: 22, y: 120 }
    );
    assert!(p.run < 400 - 400 / 20);
    let p = fit_and_place(&m, "a", 800, 300, 400, 300, 13, -15).unwrap();
    assert_eq!(p.divisor_halves, 13);
    assert_eq!((p.x, p.y), (800 + (400 - 61) / 2, 300 + 130 - 15));
}

#[test]
fn fit_and_place_errors() {
    let tall = ProportionalMetrics { line_height: 301 };
    assert_eq!(fit_and_place(&tall, "ab", 0, 0, 400, 300, 7, 0), Err(LayoutError::TooTall));
    assert_eq!(fit_and_place(&StubbornMetrics, "ab", 0, 0, 400, 300, 7, 0), Err(LayoutError::TooSmall));
}

#[test]
fn shadow_is_darker_same_hue() {
    assert_eq!(shadow_color((255, 0, 0)), (204, 0, 0));
    assert_eq!(shadow_color((30, 144, 255)), (0, 119, 234));
    assert_eq!(shadow_color((255, 255, 255)), (230, 230, 230));
    assert_eq!(shadow_color((200, 40, 90)), (158, 32, 71));
    assert_eq!(shadow_color((20, 20, 20)), (0, 0, 0));
    assert_eq!(shadow_color((0, 0, 0)), (0, 0, 0));
}

#[test]
fn accept_run_places_or_refuses() {
    assert_eq!(
        accept_run(0, 0, 400, 300, 9, 355, 40, -10),
        Ok(Placement { divisor_halves: 9, run: 355, line_height: 40, x: 22, y: 120 })
    );
    assert_eq!(accept_run(0, 0, 400, 300, 9, 355, 300, 0).unwrap().y, 0);
    assert_eq!(accept_run(0, 0, 400, 300, 9, 355, 301, 0), Err(LayoutError::TooTall));
}

#[test]
fn tiny_box_never_fits() {
    let m = ProportionalMetrics { line_height: 1 };
    assert_eq!(fit_and_place(&m, "", 0, 0, 1, 1, 7, 0), Err(LayoutError::TooSmall));
    assert_eq!(fit_and_place(&m, "ab", 0, 0, 0, 10, 7, 0), Err(LayoutError::TooSmall));
}
