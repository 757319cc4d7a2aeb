use ekman::{ImageBuffer, Pixel};
use ekman::pixel::pixels_match;
use ekman::score::{calculate_match_score, check_border_match, score_position};
use ekman::search::select_matches;
use ekman::MatchResult;

fn px(r: u8, g: u8, b: u8, a: u8) -> Pixel {
    Pixel::new(r, g, b, a)
}

fn img(width: usize, height: usize, pixels: Vec<Pixel>) -> ImageBuffer {
    ImageBuffer::from_pixels(width, height, pixels).unwrap()
}

fn result(x: usize, y: usize, matching: usize, total: usize) -> MatchResult {
    MatchResult {
        x,
        y,
        matching_pixels: matching,
        total_pixels: total,
        is_perfect: matching == total,
        is_border_match: false,
    }
}

#[test]
fn white_overlay_pixel_matches_anything_when_transparent() {
    let white_opaque = px(255, 255, 255, 255);
    let white_clear = px(255, 255, 255, 0);
    let blue = px(0, 0, 255, 255);

    assert!(pixels_match(blue, white_opaque, true));
    assert!(pixels_match(blue, white_clear, true));
    assert!(!pixels_match(blue, white_opaque, false));
}

#[test]
fn equal_pixels_match_in_all_four_channels() {
    let a = px(1, 2, 3, 4);
    let b = px(1, 2, 3, 4);
    let alpha_differs = px(1, 2, 3, 5);

    assert!(pixels_match(a, b, false));
    assert!(pixels_match(a, b, true));
    assert!(!pixels_match(a, alpha_differs, false));
    assert!(!pixels_match(a, alpha_differs, true));
}

#[test]
fn almost_white_is_not_transparent() {
    let almost = px(255, 255, 254, 255);
    let blue = px(0, 0, 255, 255);
    assert!(!pixels_match(blue, almost, true));
}

#[test]
fn buffer_rejects_bad_dimensions() {
    let k = px(0, 0, 0, 255);
    assert!(ImageBuffer::from_pixels(0, 2, vec![k, k]).is_none());
    assert!(ImageBuffer::from_pixels(2, 0, vec![k, k]).is_none());
    assert!(ImageBuffer::from_pixels(2, 2, vec![k, k, k]).is_none());
    assert!(ImageBuffer::from_pixels(2, 2, vec![k; 4]).is_some());
}

#[test]
fn buffer_reads_row_major() {
    let pixels: Vec<Pixel> = (0..6u8).map(|i| px(i, 0, 0, 255)).collect();
    let b = img(3, 2, pixels);
    assert_eq!(b.get_width(), 3);
    assert_eq!(b.get_height(), 2);
    assert_eq!(b.get_pixel(0, 0).r, 0);
    assert_eq!(b.get_pixel(2, 0).r, 2);
    assert_eq!(b.get_pixel(0, 1).r, 3);
    assert_eq!(b.get_pixel(2, 1).r, 5);
}

#[test]
fn score_counts_matching_and_total_cells() {
    let a = px(1, 1, 1, 255);
    let b = px(2, 2, 2, 255);
    let w = px(255, 255, 255, 255);
    let bg = img(2, 2, vec![a, b, a, a]);
    let ov = img(2, 2, vec![a, a, w, a]);

    // without transparency: cells (0,0) and (1,1) match, (1,0) and (0,1) differ
    let (matching, total) = calculate_match_score(&bg, &ov, 0, 0, false);
    assert_eq!((matching, total), (2, 4));

    // with transparency the white cell (0,1) leaves the denominator
    let (matching, total) = calculate_match_score(&bg, &ov, 0, 0, true);
    assert_eq!((matching, total), (2, 3));
}

#[test]
fn score_is_window_relative() {
    let a = px(5, 5, 5, 255);
    let b = px(6, 6, 6, 255);
    let bg = img(3, 1, vec![a, b, a]);
    let ov = img(1, 1, vec![b]);

    assert_eq!(calculate_match_score(&bg, &ov, 0, 0, false), (0, 1));
    assert_eq!(calculate_match_score(&bg, &ov, 1, 0, false), (1, 1));
    assert_eq!(calculate_match_score(&bg, &ov, 2, 0, false), (0, 1));
}

#[test]
fn border_check_honours_transparency_rule() {
    let a = px(1, 1, 1, 255);
    let b = px(2, 2, 2, 255);
    let w = px(255, 255, 255, 255);
    let bg = img(2, 2, vec![a, b, a, a]);
    // one border cell differs, another is white
    let ov = img(2, 2, vec![a, w, a, b]);

    assert!(!check_border_match(&bg, &ov, 0, 0, false));
    assert!(!check_border_match(&bg, &ov, 0, 0, true));

    let ov_masked = img(2, 2, vec![a, w, a, a]);
    assert!(check_border_match(&bg, &ov_masked, 0, 0, true));
    assert!(!check_border_match(&bg, &ov_masked, 0, 0, false));
}

#[test]
fn scored_position_carries_flags() {
    let a = px(1, 1, 1, 255);
    let bg = img(2, 2, vec![a; 4]);
    let ov = img(2, 2, vec![a; 4]);

    let r = score_position(&bg, &ov, 0, 0, false);
    assert_eq!((r.x, r.y), (0, 0));
    assert_eq!((r.matching_pixels, r.total_pixels), (4, 4));
    assert!(r.is_perfect);
    assert!(r.is_border_match);
}

#[test]
fn selector_keeps_single_best_when_top_is_half_or_less() {
    let sorted = vec![
        result(3, 1, 1, 2),
        result(0, 2, 1, 4),
        result(2, 2, 0, 4),
    ];
    let out = select_matches(&sorted);
    assert_eq!(out.len(), 1);
    assert_eq!(out[0], sorted[0]);
}

#[test]
fn selector_keeps_all_above_half_otherwise() {
    let sorted = vec![
        result(0, 0, 4, 4),
        result(1, 0, 3, 4),
        result(2, 0, 2, 4),
        result(3, 0, 0, 4),
    ];
    let out = select_matches(&sorted);
    assert_eq!(out.len(), 2);
    assert_eq!(out[0], sorted[0]);
    assert_eq!(out[1], sorted[1]);
    for r in &out {
        assert!(2 * r.matching_pixels > r.total_pixels);
    }
}
