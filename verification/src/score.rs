//! Per-position scoring: how many overlay cells are compared, how many of
//! them agree exactly with the background, and whether the overlay's border
//! matches under the comparator's rule.
//!
//! The score of a placement is the exact rational
//! `matching_pixels / total_pixels`; both counts are kept, so no rounding
//! ever enters the library.

use vstd::prelude::*;

use crate::buffer::ImageBuffer;
use crate::pixel::{is_pure_white, spec_pixels_match};

verus! {

/// One candidate placement of the overlay, with its exact score kept as the
/// pair `matching_pixels / total_pixels`.
#[derive(Clone, Copy, PartialEq, Eq, Structural, Debug)]
pub struct MatchResult {
    /// Column of the overlay's top-left corner in the background.
    pub x: usize,
    /// Row of the overlay's top-left corner in the background.
    pub y: usize,
    /// Number of compared cells that agree exactly in all four channels.
    pub matching_pixels: usize,
    /// Number of compared cells (all overlay cells, minus the pure-white
    /// ones when white is treated as transparent).
    pub total_pixels: usize,
    /// The score is exactly 1: every compared cell agrees.
    pub is_perfect: bool,
    /// Every cell on the overlay's border matches under the comparator.
    pub is_border_match: bool,
}

/// A cell of the overlay counts towards the score unless white is treated
/// as transparent and the cell is pure white.
pub open spec fn cell_compared(ov: ImageBuffer, white_transparent: bool, ox: int, oy: int) -> bool {
    !(white_transparent && is_pure_white(ov.pix(ox, oy)))
}

/// The overlay cell `(ox, oy)` agrees exactly (all four channels) with the
/// background cell under a placement at `(x, y)`.
pub open spec fn cell_equal(bg: ImageBuffer, ov: ImageBuffer, x: int, y: int, ox: int, oy: int) -> bool {
    bg.pix(x + ox, y + oy) == ov.pix(ox, oy)
}

/// Compared cells among the first `ox_end` cells of overlay row `oy`.
pub open spec fn total_in_row(ov: ImageBuffer, white_transparent: bool, oy: int, ox_end: int) -> int
    decreases ox_end,
{
    if ox_end <= 0 {
        0
    } else {
        total_in_row(ov, white_transparent, oy, ox_end - 1)
            + if cell_compared(ov, white_transparent, ox_end - 1, oy) { 1int } else { 0int }
    }
}

/// Compared cells in the first `oy_end` full rows of the overlay.
pub open spec fn total_in_grid(ov: ImageBuffer, white_transparent: bool, oy_end: int) -> int
    decreases oy_end,
{
    if oy_end <= 0 {
        0
    } else {
        total_in_grid(ov, white_transparent, oy_end - 1)
            + total_in_row(ov, white_transparent, oy_end - 1, ov.width as int)
    }
}

/// Compared-and-equal cells among the first `ox_end` cells of overlay row
/// `oy`, for a placement at `(x, y)`.
pub open spec fn matched_in_row(
    bg: ImageBuffer,
    ov: ImageBuffer,
    x: int,
    y: int,
    white_transparent: bool,
    oy: int,
    ox_end: int,
) -> int
    decreases ox_end,
{
    if ox_end <= 0 {
        0
    } else {
        matched_in_row(bg, ov, x, y, white_transparent, oy, ox_end - 1)
            + if cell_compared(ov, white_transparent, ox_end - 1, oy)
                && cell_equal(bg, ov, x, y, ox_end - 1, oy) { 1int } else { 0int }
    }
}

/// Compared-and-equal cells in the first `oy_end` full rows of the overlay.
pub open spec fn matched_in_grid(
    bg: ImageBuffer,
    ov: ImageBuffer,
    x: int,
    y: int,
    white_transparent: bool,
    oy_end: int,
) -> int
    decreases oy_end,
{
    if oy_end <= 0 {
        0
    } else {
        matched_in_grid(bg, ov, x, y, white_transparent, oy_end - 1)
            + matched_in_row(bg, ov, x, y, white_transparent, oy_end - 1, ov.width as int)
    }
}

/// Denominator of the score: compared cells over the whole overlay.
pub open spec fn spec_total(ov: ImageBuffer, white_transparent: bool) -> int {
    total_in_grid(ov, white_transparent, ov.height as int)
}

/// Numerator of the score: compared cells that agree exactly with the
/// background, over the whole overlay, for a placement at `(x, y)`.
pub open spec fn spec_matched(
    bg: ImageBuffer,
    ov: ImageBuffer,
    x: int,
    y: int,
    white_transparent: bool,
) -> int {
    matched_in_grid(bg, ov, x, y, white_transparent, ov.height as int)
}

/// Every cell of the overlay's top row, bottom row, left column and right
/// column matches the background under the comparator's rule (which honours
/// the white-as-transparent mask, unlike the dense score count).
pub open spec fn spec_border_match(
    bg: ImageBuffer,
    ov: ImageBuffer,
    x: int,
    y: int,
    white_transparent: bool,
) -> bool {
    &&& forall |ox: int| 0 <= ox < ov.width ==> {
        &&& spec_pixels_match(bg.pix(x + ox, y), #[trigger] ov.pix(ox, 0), white_transparent)
        &&& spec_pixels_match(
            bg.pix(x + ox, y + ov.height - 1),
            ov.pix(ox, ov.height - 1),
            white_transparent,
        )
    }
    &&& forall |oy: int| 0 <= oy < ov.height ==> {
        &&& spec_pixels_match(bg.pix(x, y + oy), #[trigger] ov.pix(0, oy), white_transparent)
        &&& spec_pixels_match(
            bg.pix(x + ov.width - 1, y + oy),
            ov.pix(ov.width - 1, oy),
            white_transparent,
        )
    }
}

/// The one `MatchResult` a placement at `(x, y)` gives rise to.
pub open spec fn spec_result_at(
    bg: ImageBuffer,
    ov: ImageBuffer,
    x: int,
    y: int,
    white_transparent: bool,
) -> MatchResult {
    MatchResult {
        x: x as usize,
        y: y as usize,
        matching_pixels: spec_matched(bg, ov, x, y, white_transparent) as usize,
        total_pixels: spec_total(ov, white_transparent) as usize,
        is_perfect: spec_matched(bg, ov, x, y, white_transparent)
            == spec_total(ov, white_transparent),
        is_border_match: spec_border_match(bg, ov, x, y, white_transparent),
    }
}

/// A placement `(x, y)` is valid: the overlay fits within the background
/// with its top-left corner there.
pub open spec fn valid_position(bg: ImageBuffer, ov: ImageBuffer, x: int, y: int) -> bool {
    &&& ov.width <= bg.width
    &&& ov.height <= bg.height
    &&& 0 <= x <= bg.width - ov.width
    &&& 0 <= y <= bg.height - ov.height
}

/// Counts never go negative, the numerator never exceeds the denominator,
/// and a row contributes at most one per cell.
pub proof fn lemma_row_counts(
    bg: ImageBuffer,
    ov: ImageBuffer,
    x: int,
    y: int,
    white_transparent: bool,
    oy: int,
    ox_end: int,
)
    requires
        ox_end >= 0,
    ensures
        0 <= matched_in_row(bg, ov, x, y, white_transparent, oy, ox_end),
        matched_in_row(bg, ov, x, y, white_transparent, oy, ox_end)
            <= total_in_row(ov, white_transparent, oy, ox_end),
        total_in_row(ov, white_transparent, oy, ox_end) <= ox_end,
    decreases ox_end,
{
    if ox_end > 0 {
        lemma_row_counts(bg, ov, x, y, white_transparent, oy, ox_end - 1);
    }
}

/// Grid-level form of `lemma_row_counts`: the score's numerator and
/// denominator lie between 0 and the number of counted cells.
pub proof fn lemma_grid_counts(
    bg: ImageBuffer,
    ov: ImageBuffer,
    x: int,
    y: int,
    white_transparent: bool,
    oy_end: int,
)
    requires
        oy_end >= 0,
    ensures
        0 <= matched_in_grid(bg, ov, x, y, white_transparent, oy_end),
        matched_in_grid(bg, ov, x, y, white_transparent, oy_end)
            <= total_in_grid(ov, white_transparent, oy_end),
        total_in_grid(ov, white_transparent, oy_end) <= oy_end * ov.width,
    decreases oy_end,
{
    if oy_end > 0 {
        lemma_grid_counts(bg, ov, x, y, white_transparent, oy_end - 1);
        lemma_row_counts(bg, ov, x, y, white_transparent, oy_end - 1, ov.width as int);
        assert((oy_end - 1) * ov.width + ov.width == oy_end * ov.width) by (nonlinear_arith);
    }
}

/// Every overlay cell is pure white in R, G and B. Under the
/// white-as-transparent rule such an overlay has no compared cells at all.
pub open spec fn spec_all_white(ov: ImageBuffer) -> bool {
    forall |ox: int, oy: int| 0 <= ox < ov.width && 0 <= oy < ov.height
        ==> is_pure_white(#[trigger] ov.pix(ox, oy))
}

/// A row's counts are equal exactly when every compared cell of the row
/// agrees with the background.
proof fn lemma_row_perfect(
    bg: ImageBuffer,
    ov: ImageBuffer,
    x: int,
    y: int,
    white_transparent: bool,
    oy: int,
    ox_end: int,
)
    requires
        ox_end >= 0,
    ensures
        matched_in_row(bg, ov, x, y, white_transparent, oy, ox_end)
            == total_in_row(ov, white_transparent, oy, ox_end)
        <==> (forall |ox: int| 0 <= ox < ox_end && #[trigger] cell_compared(ov, white_transparent, ox, oy)
            ==> cell_equal(bg, ov, x, y, ox, oy)),
    decreases ox_end,
{
    if ox_end > 0 {
        lemma_row_perfect(bg, ov, x, y, white_transparent, oy, ox_end - 1);
        lemma_row_counts(bg, ov, x, y, white_transparent, oy, ox_end - 1);
    }
}

/// The whole grid's counts are equal exactly when every compared cell of
/// the overlay agrees with the background: a score of exactly one means a
/// cell-for-cell match of everything that was compared.
pub proof fn lemma_grid_perfect(
    bg: ImageBuffer,
    ov: ImageBuffer,
    x: int,
    y: int,
    white_transparent: bool,
    oy_end: int,
)
    requires
        oy_end >= 0,
    ensures
        matched_in_grid(bg, ov, x, y, white_transparent, oy_end)
            == total_in_grid(ov, white_transparent, oy_end)
        <==> (forall |ox: int, oy: int|
            0 <= ox < ov.width && 0 <= oy < oy_end
                && #[trigger] cell_compared(ov, white_transparent, ox, oy)
            ==> cell_equal(bg, ov, x, y, ox, oy)),
    decreases oy_end,
{
    if oy_end > 0 {
        lemma_grid_perfect(bg, ov, x, y, white_transparent, oy_end - 1);
        lemma_row_perfect(bg, ov, x, y, white_transparent, oy_end - 1, ov.width as int);
        lemma_grid_counts(bg, ov, x, y, white_transparent, oy_end - 1);
        lemma_row_counts(bg, ov, x, y, white_transparent, oy_end - 1, ov.width as int);
    }
}

/// Without the transparency rule every cell is compared, so a row's
/// denominator is its full length.
proof fn lemma_row_total_full(ov: ImageBuffer, oy: int, ox_end: int)
    requires
        ox_end >= 0,
    ensures
        total_in_row(ov, false, oy, ox_end) == ox_end,
    decreases ox_end,
{
    if ox_end > 0 {
        lemma_row_total_full(ov, oy, ox_end - 1);
    }
}

proof fn lemma_grid_total_full(ov: ImageBuffer, oy_end: int)
    requires
        oy_end >= 0,
    ensures
        total_in_grid(ov, false, oy_end) == oy_end * ov.width,
    decreases oy_end,
{
    if oy_end > 0 {
        lemma_grid_total_full(ov, oy_end - 1);
        lemma_row_total_full(ov, oy_end - 1, ov.width as int);
        assert(total_in_grid(ov, false, oy_end)
            == total_in_grid(ov, false, oy_end - 1) + total_in_row(ov, false, oy_end - 1, ov.width as int));
        assert((oy_end - 1) * ov.width + ov.width == oy_end * ov.width) by (nonlinear_arith);
    } else {
        assert(total_in_grid(ov, false, 0) == 0);
        assert(0 * ov.width == 0) by (nonlinear_arith);
    }
}

/// An all-white row contributes nothing to the denominator under the
/// transparency rule.
proof fn lemma_row_total_zero_white(ov: ImageBuffer, oy: int, ox_end: int)
    requires
        ox_end >= 0,
        forall |ox: int| 0 <= ox < ox_end ==> is_pure_white(#[trigger] ov.pix(ox, oy)),
    ensures
        total_in_row(ov, true, oy, ox_end) == 0,
    decreases ox_end,
{
    if ox_end > 0 {
        lemma_row_total_zero_white(ov, oy, ox_end - 1);
    }
}

/// One compared cell in a row makes the row's denominator positive.
proof fn lemma_row_total_positive(ov: ImageBuffer, white_transparent: bool, oy: int, ox0: int, ox_end: int)
    requires
        0 <= ox0 < ox_end,
        cell_compared(ov, white_transparent, ox0, oy),
    ensures
        total_in_row(ov, white_transparent, oy, ox_end) >= 1,
    decreases ox_end,
{
    lemma_row_counts(ov, ov, 0, 0, white_transparent, oy, ox_end - 1);
    if ox0 < ox_end - 1 {
        lemma_row_total_positive(ov, white_transparent, oy, ox0, ox_end - 1);
    }
}

/// One compared cell anywhere in the overlay makes the denominator of the
/// whole grid positive.
proof fn lemma_grid_total_positive(
    ov: ImageBuffer,
    white_transparent: bool,
    ox0: int,
    oy0: int,
    oy_end: int,
)
    requires
        0 <= oy0 < oy_end,
        0 <= ox0 < ov.width,
        cell_compared(ov, white_transparent, ox0, oy0),
    ensures
        total_in_grid(ov, white_transparent, oy_end) >= 1,
    decreases oy_end,
{
    lemma_grid_counts(ov, ov, 0, 0, white_transparent, oy_end - 1);
    lemma_row_counts(ov, ov, 0, 0, white_transparent, oy_end - 1, ov.width as int);
    if oy0 < oy_end - 1 {
        lemma_grid_total_positive(ov, white_transparent, ox0, oy0, oy_end - 1);
    } else {
        lemma_row_total_positive(ov, white_transparent, oy0, ox0, ov.width as int);
    }
}

/// The denominator of the score, by transparency regime: the full overlay
/// area without the rule; zero exactly for an all-white overlay under it,
/// and positive otherwise.
pub proof fn lemma_total_characterisation(ov: ImageBuffer, white_transparent: bool)
    requires
        ov.wf(),
    ensures
        !white_transparent ==> spec_total(ov, white_transparent) == ov.width * ov.height,
        white_transparent && spec_all_white(ov) ==> spec_total(ov, white_transparent) == 0,
        white_transparent && !spec_all_white(ov) ==> spec_total(ov, white_transparent) >= 1,
        !white_transparent ==> spec_total(ov, white_transparent) >= 1,
{
    if !white_transparent {
        lemma_grid_total_full(ov, ov.height as int);
        assert(ov.height * ov.width == ov.width * ov.height) by (nonlinear_arith);
        assert(ov.width * ov.height >= 1) by (nonlinear_arith)
            requires
                ov.width >= 1,
                ov.height >= 1,
        ;
    } else if spec_all_white(ov) {
        lemma_grid_total_zero_white_all(ov, ov.height as int);
    } else {
        let (ox0, oy0) = choose |ox: int, oy: int|
            0 <= ox < ov.width && 0 <= oy < ov.height && !is_pure_white(#[trigger] ov.pix(ox, oy));
        lemma_grid_total_positive(ov, true, ox0, oy0, ov.height as int);
    }
}

proof fn lemma_grid_total_zero_white_all(ov: ImageBuffer, oy_end: int)
    requires
        0 <= oy_end <= ov.height,
        spec_all_white(ov),
    ensures
        total_in_grid(ov, true, oy_end) == 0,
    decreases oy_end,
{
    if oy_end > 0 {
        lemma_grid_total_zero_white_all(ov, oy_end - 1);
        lemma_row_total_zero_white(ov, oy_end - 1, ov.width as int);
    }
}

/// Counts the score's numerator and denominator for one placement: walks
/// every overlay cell, skips pure-white cells when white is transparent,
/// and otherwise compares all four channels exactly.
pub fn calculate_match_score(
    bg: &ImageBuffer,
    ov: &ImageBuffer,
    x: usize,
    y: usize,
    white_transparent: bool,
) -> (r: (usize, usize))
    requires
        bg.wf(),
        ov.wf(),
        valid_position(*bg, *ov, x as int, y as int),
    ensures
        r.0 == spec_matched(*bg, *ov, x as int, y as int, white_transparent),
        r.1 == spec_total(*ov, white_transparent),
        r.0 <= r.1,
        r.1 <= ov.width * ov.height,
{
    let ov_width = ov.get_width();
    let ov_height = ov.get_height();
    let n_ov = ov.pixels.len();
    let mut matching: usize = 0;
    let mut total: usize = 0;
    let mut oy: usize = 0;
    while oy < ov_height
        invariant
            bg.wf(),
            ov.wf(),
            valid_position(*bg, *ov, x as int, y as int),
            ov_width == ov.width,
            ov_height == ov.height,
            n_ov == ov.width * ov.height,
            oy <= ov_height,
            matching == matched_in_grid(*bg, *ov, x as int, y as int, white_transparent, oy as int),
            total == total_in_grid(*ov, white_transparent, oy as int),
            matching <= total,
            total <= oy * ov_width,
        decreases ov_height - oy,
    {
        let mut ox: usize = 0;
        while ox < ov_width
            invariant
                bg.wf(),
                ov.wf(),
                valid_position(*bg, *ov, x as int, y as int),
                ov_width == ov.width,
                ov_height == ov.height,
                n_ov == ov.width * ov.height,
                oy < ov_height,
                ox <= ov_width,
                matching == matched_in_grid(*bg, *ov, x as int, y as int, white_transparent, oy as int)
                    + matched_in_row(*bg, *ov, x as int, y as int, white_transparent, oy as int, ox as int),
                total == total_in_grid(*ov, white_transparent, oy as int)
                    + total_in_row(*ov, white_transparent, oy as int, ox as int),
                matching <= total,
                total <= oy * ov_width + ox,
            decreases ov_width - ox,
        {
            proof {
                assert(oy * ov_width + ox < ov_height * ov_width) by (nonlinear_arith)
                    requires
                        oy < ov_height,
                        ox < ov_width,
                ;
                assert(ov_height * ov_width == ov_width * ov_height) by (nonlinear_arith);
            }
            let ov_pixel = ov.get_pixel(ox, oy);
            let compared = !(white_transparent && ov_pixel.is_white());
            if compared {
                total = total + 1;
                let bg_pixel = bg.get_pixel(x + ox, y + oy);
                if bg_pixel == ov_pixel {
                    matching = matching + 1;
                }
            }
            ox = ox + 1;
        }
        oy = oy + 1;
        proof {
            assert((oy - 1) * ov_width + ov_width == oy * ov_width) by (nonlinear_arith);
        }
    }
    proof {
        lemma_grid_counts(*bg, *ov, x as int, y as int, white_transparent, ov.height as int);
        assert(ov.height * ov.width == ov.width * ov.height) by (nonlinear_arith);
    }
    (matching, total)
}

/// Checks the overlay's border (top row, bottom row, left and right
/// columns) against the background with the comparator's rule; true iff
/// every border cell matches.
pub fn check_border_match(
    bg: &ImageBuffer,
    ov: &ImageBuffer,
    x: usize,
    y: usize,
    white_transparent: bool,
) -> (r: bool)
    requires
        bg.wf(),
        ov.wf(),
        valid_position(*bg, *ov, x as int, y as int),
    ensures
        r == spec_border_match(*bg, *ov, x as int, y as int, white_transparent),
{
    let ov_width = ov.get_width();
    let ov_height = ov.get_height();
    let mut ox: usize = 0;
    while ox < ov_width
        invariant
            bg.wf(),
            ov.wf(),
            valid_position(*bg, *ov, x as int, y as int),
            ov_width == ov.width,
            ov_height == ov.height,
            ox <= ov_width,
            forall |j: int| 0 <= j < ox ==> {
                &&& spec_pixels_match(bg.pix(x + j, y as int), #[trigger] ov.pix(j, 0), white_transparent)
                &&& spec_pixels_match(
                    bg.pix(x + j, y + ov.height - 1),
                    ov.pix(j, ov.height - 1),
                    white_transparent,
                )
            },
        decreases ov_width - ox,
    {
        let top_bg = bg.get_pixel(x + ox, y);
        let top_ov = ov.get_pixel(ox, 0);
        let bottom_bg = bg.get_pixel(x + ox, y + ov_height - 1);
        let bottom_ov = ov.get_pixel(ox, ov_height - 1);
        if !crate::pixel::pixels_match(top_bg, top_ov, white_transparent)
            || !crate::pixel::pixels_match(bottom_bg, bottom_ov, white_transparent) {
            return false;
        }
        proof {
            assert forall |j: int| 0 <= j < ox + 1 implies {
                &&& spec_pixels_match(bg.pix(x + j, y as int), #[trigger] ov.pix(j, 0), white_transparent)
                &&& spec_pixels_match(
                    bg.pix(x + j, y + ov.height - 1),
                    ov.pix(j, ov.height - 1),
                    white_transparent,
                )
            } by {
                if j == ox {
                    assert(spec_pixels_match(
                        bg.pix(x + ox, y as int),
                        ov.pix(ox as int, 0),
                        white_transparent,
                    ));
                    assert(spec_pixels_match(
                        bg.pix(x + ox, y + ov.height - 1),
                        ov.pix(ox as int, ov.height - 1),
                        white_transparent,
                    ));
                }
            }
        }
        ox = ox + 1;
    }
    let mut oy: usize = 0;
    while oy < ov_height
        invariant
            bg.wf(),
            ov.wf(),
            valid_position(*bg, *ov, x as int, y as int),
            ov_width == ov.width,
            ov_height == ov.height,
            oy <= ov_height,
            forall |j: int| 0 <= j < ov.width ==> {
                &&& spec_pixels_match(bg.pix(x + j, y as int), #[trigger] ov.pix(j, 0), white_transparent)
                &&& spec_pixels_match(
                    bg.pix(x + j, y + ov.height - 1),
                    ov.pix(j, ov.height - 1),
                    white_transparent,
                )
            },
            forall |j: int| 0 <= j < oy ==> {
                &&& spec_pixels_match(bg.pix(x as int, y + j), #[trigger] ov.pix(0, j), white_transparent)
                &&& spec_pixels_match(
                    bg.pix(x + ov.width - 1, y + j),
                    ov.pix(ov.width - 1, j),
                    white_transparent,
                )
            },
        decreases ov_height - oy,
    {
        let left_bg = bg.get_pixel(x, y + oy);
        let left_ov = ov.get_pixel(0, oy);
        let right_bg = bg.get_pixel(x + ov_width - 1, y + oy);
        let right_ov = ov.get_pixel(ov_width - 1, oy);
        if !crate::pixel::pixels_match(left_bg, left_ov, white_transparent)
            || !crate::pixel::pixels_match(right_bg, right_ov, white_transparent) {
            return false;
        }
        oy = oy + 1;
    }
    true
}

/// Scores one placement: the exact rational score as a count pair, the
/// perfect-match flag, and the border-match flag.
pub fn score_position(
    bg: &ImageBuffer,
    ov: &ImageBuffer,
    x: usize,
    y: usize,
    white_transparent: bool,
) -> (r: MatchResult)
    requires
        bg.wf(),
        ov.wf(),
        valid_position(*bg, *ov, x as int, y as int),
    ensures
        r == spec_result_at(*bg, *ov, x as int, y as int, white_transparent),
{
    let (matching, total) = calculate_match_score(bg, ov, x, y, white_transparent);
    let is_border_match = check_border_match(bg, ov, x, y, white_transparent);
    MatchResult {
        x,
        y,
        matching_pixels: matching,
        total_pixels: total,
        is_perfect: matching == total,
        is_border_match,
    }
}

} // verus!
