use ekman::{ImageBuffer, MatchError, Pixel};
use ekman::search::find_best_matches;

fn px(r: u8, g: u8, b: u8, a: u8) -> Pixel {
    Pixel::new(r, g, b, a)
}

fn img(width: usize, height: usize, pixels: Vec<Pixel>) -> ImageBuffer {
    ImageBuffer::from_pixels(width, height, pixels).unwrap()
}

fn score_of(m: usize, t: usize) -> f64 {
    m as f64 / t as f64
}

/// 4x4 background with a 2x2 solid block at (1,1); the overlay is that
/// block. Exactly one result, at (1,1), scoring exactly 1.0, perfect and
/// border-matching.
#[test]
fn solid_block_found_at_origin_of_crop() {
    let c = px(200, 0, 0, 255);
    let mut bg_pixels = Vec::new();
    for y in 0..4usize {
        for x in 0..4usize {
            if (1..=2).contains(&x) && (1..=2).contains(&y) {
                bg_pixels.push(c);
            } else {
                bg_pixels.push(px((10 * x + y) as u8, 50, 100, 255));
            }
        }
    }
    let bg = img(4, 4, bg_pixels);
    let ov = img(2, 2, vec![c, c, c, c]);

    let results = find_best_matches(&bg, &ov, false).unwrap();
    assert_eq!(results.len(), 1);
    let top = &results[0];
    assert_eq!((top.x, top.y), (1, 1));
    assert_eq!(top.matching_pixels, 4);
    assert_eq!(top.total_pixels, 4);
    assert!(score_of(top.matching_pixels, top.total_pixels) == 1.0);
    assert!(top.is_perfect);
    assert!(top.is_border_match);
}

/// A pure-white overlay cell is excluded from the denominator when white
/// is transparent: an otherwise-perfect 2x2 overlay with one white corner
/// scores 1.0 computed over 3 pixels, not 4.
#[test]
fn white_corner_excluded_from_denominator() {
    let a = px(1, 2, 3, 255);
    let b = px(4, 5, 6, 255);
    let c = px(7, 8, 9, 255);
    let d = px(10, 11, 12, 255);
    let w = px(255, 255, 255, 0);
    let bg = img(2, 2, vec![a, b, c, d]);
    let ov = img(2, 2, vec![a, b, c, w]);

    let results = find_best_matches(&bg, &ov, true).unwrap();
    assert_eq!(results.len(), 1);
    let top = &results[0];
    assert_eq!((top.x, top.y), (0, 0));
    assert_eq!(top.total_pixels, 3);
    assert_eq!(top.matching_pixels, 3);
    assert!(top.is_perfect);
    assert!(top.is_border_match);
    assert!(score_of(top.matching_pixels, top.total_pixels) == 1.0);
}

/// Without the transparency flag the same white corner counts and
/// mismatches: 3 of 4 pixels match.
#[test]
fn white_corner_counts_without_transparency() {
    let a = px(1, 2, 3, 255);
    let b = px(4, 5, 6, 255);
    let c = px(7, 8, 9, 255);
    let d = px(10, 11, 12, 255);
    let w = px(255, 255, 255, 0);
    let bg = img(2, 2, vec![a, b, c, d]);
    let ov = img(2, 2, vec![a, b, c, w]);

    let results = find_best_matches(&bg, &ov, false).unwrap();
    assert_eq!(results.len(), 1);
    let top = &results[0];
    assert_eq!(top.total_pixels, 4);
    assert_eq!(top.matching_pixels, 3);
    assert!(!top.is_perfect);
}

/// Overlay larger than the background in either axis fails up front.
#[test]
fn oversized_overlay_is_rejected() {
    let k = px(3, 3, 3, 255);
    let bg = img(2, 2, vec![k, k, k, k]);
    let wide = img(3, 1, vec![k, k, k]);
    let tall = img(1, 3, vec![k, k, k]);
    let both = img(3, 3, vec![k; 9]);

    assert_eq!(
        find_best_matches(&bg, &wide, false).unwrap_err(),
        MatchError::OverlayLargerThanBackground
    );
    assert_eq!(
        find_best_matches(&bg, &tall, true).unwrap_err(),
        MatchError::OverlayLargerThanBackground
    );
    assert_eq!(
        find_best_matches(&bg, &both, false).unwrap_err(),
        MatchError::OverlayLargerThanBackground
    );
}

/// An all-white overlay under the transparency rule compares no cell at
/// all and is rejected as degenerate instead of producing an undefined
/// score.
#[test]
fn all_white_overlay_is_degenerate_under_transparency() {
    let k = px(3, 3, 3, 255);
    let bg = img(2, 2, vec![k, k, k, k]);
    let w0 = px(255, 255, 255, 0);
    let w1 = px(255, 255, 255, 255);
    let ov = img(1, 2, vec![w0, w1]);

    assert_eq!(
        find_best_matches(&bg, &ov, true).unwrap_err(),
        MatchError::DegenerateScore
    );
    // Without the rule, white is an ordinary colour and the search runs.
    let results = find_best_matches(&bg, &ov, false).unwrap();
    assert_eq!(results.len(), 1);
    assert_eq!(results[0].matching_pixels, 0);
    assert_eq!(results[0].total_pixels, 2);
}

/// When no position scores above one half, the output is exactly the
/// single highest-scoring position, even at score 0.0; ties fall to the
/// smallest row, then column.
#[test]
fn fallback_to_single_best_when_all_scores_low() {
    let black = px(0, 0, 0, 255);
    let red = px(255, 0, 0, 255);
    let bg = img(3, 3, vec![black; 9]);
    let ov = img(1, 1, vec![red]);

    let results = find_best_matches(&bg, &ov, false).unwrap();
    assert_eq!(results.len(), 1);
    let top = &results[0];
    assert_eq!((top.x, top.y), (0, 0));
    assert_eq!(top.matching_pixels, 0);
    assert_eq!(top.total_pixels, 1);
    assert!(score_of(top.matching_pixels, top.total_pixels) == 0.0);
    assert!(!top.is_perfect);
    assert!(!top.is_border_match);
}

/// When the top score is above one half, every result above one half is
/// kept, in score order with ties broken by ascending row then column.
#[test]
fn keeps_every_match_above_half() {
    let e = px(50, 60, 70, 255);
    let f = px(80, 90, 100, 255);
    let g = px(110, 120, 130, 255);
    let bg = img(2, 2, vec![e, e, f, g]);
    let ov = img(1, 1, vec![e]);

    let results = find_best_matches(&bg, &ov, false).unwrap();
    assert_eq!(results.len(), 2);
    assert_eq!((results[0].x, results[0].y), (0, 0));
    assert_eq!((results[1].x, results[1].y), (1, 0));
    for r in &results {
        assert!(score_of(r.matching_pixels, r.total_pixels) > 0.5);
        assert!(r.is_perfect);
    }
}

/// A border can match while the interior does not: border-match true does
/// not force a perfect score.
#[test]
fn border_match_without_perfect_score() {
    let h = px(9, 9, 9, 255);
    let odd = px(1, 1, 1, 255);
    let bg = img(3, 3, vec![h; 9]);
    let mut ov_pixels = vec![h; 9];
    ov_pixels[4] = odd;
    let ov = img(3, 3, ov_pixels);

    let results = find_best_matches(&bg, &ov, false).unwrap();
    assert_eq!(results.len(), 1);
    let top = &results[0];
    assert!(top.is_border_match);
    assert!(!top.is_perfect);
    assert_eq!(top.matching_pixels, 8);
    assert_eq!(top.total_pixels, 9);
}

/// A cropped overlay scores exactly 1.0 and is flagged perfect at the crop
/// origin.
#[test]
fn cropped_overlay_is_perfect_at_origin() {
    let mut bg_pixels = Vec::new();
    for y in 0..3usize {
        for x in 0..3usize {
            bg_pixels.push(px((10 * x + y) as u8, 7, 7, 255));
        }
    }
    let bg = img(3, 3, bg_pixels.clone());
    // crop of the 2x2 region whose top-left corner is (1, 0)
    let ov = img(
        2,
        2,
        vec![bg_pixels[1], bg_pixels[2], bg_pixels[4], bg_pixels[5]],
    );

    let results = find_best_matches(&bg, &ov, false).unwrap();
    assert_eq!(results.len(), 1);
    let top = &results[0];
    assert_eq!((top.x, top.y), (1, 0));
    assert!(top.is_perfect);
    assert!(top.is_border_match);
    assert!(score_of(top.matching_pixels, top.total_pixels) == 1.0);
}

/// Running the search twice on the same inputs yields an identical result
/// sequence, despite the internal parallel scoring.
#[test]
fn search_is_deterministic_across_runs() {
    let c = px(200, 0, 0, 255);
    let mut bg_pixels = Vec::new();
    for y in 0..4usize {
        for x in 0..4usize {
            if (1..=2).contains(&x) && (1..=2).contains(&y) {
                bg_pixels.push(c);
            } else {
                bg_pixels.push(px((10 * x + y) as u8, 50, 100, 255));
            }
        }
    }
    let bg = img(4, 4, bg_pixels);
    let ov = img(2, 2, vec![c, c, c, c]);

    let first = find_best_matches(&bg, &ov, true).unwrap();
    let second = find_best_matches(&bg, &ov, true).unwrap();
    assert_eq!(first, second);

    let third = find_best_matches(&bg, &ov, false).unwrap();
    let fourth = find_best_matches(&bg, &ov, false).unwrap();
    assert_eq!(third, fourth);
}

/// Scores of every returned result stay inside the unit interval and the
/// denominator is always positive.
#[test]
fn scores_lie_in_unit_interval() {
    let e = px(50, 60, 70, 255);
    let f = px(80, 90, 100, 255);
    let bg = img(3, 2, vec![e, f, e, f, f, e]);
    let ov = img(2, 1, vec![e, f]);

    let results = find_best_matches(&bg, &ov, false).unwrap();
    assert!(!results.is_empty());
    for r in &results {
        assert!(r.total_pixels > 0);
        assert!(r.matching_pixels <= r.total_pixels);
        let s = score_of(r.matching_pixels, r.total_pixels);
        assert!((0.0..=1.0).contains(&s));
    }
}
