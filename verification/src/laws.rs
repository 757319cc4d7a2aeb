//! Library-wide laws, stated over the same spec functions the executable
//! contracts use and proved once and for all.

use vstd::prelude::*;

use crate::buffer::ImageBuffer;
use crate::score::{
    cell_compared, cell_equal, lemma_grid_counts, lemma_grid_perfect,
    lemma_total_characterisation, spec_matched, spec_border_match, spec_result_at, spec_total,
    valid_position, MatchResult,
};
use crate::search::spec_search_results;

verus! {

/// An overlay cropped from the background scores exactly one at its
/// origin: if every overlay cell equals the background cell under a
/// placement, and white is not treated as transparent, the placement's
/// result is a perfect match with every cell compared.
pub proof fn lemma_cropped_overlay_is_perfect(bg: ImageBuffer, ov: ImageBuffer, x: int, y: int)
    requires
        bg.wf(),
        ov.wf(),
        valid_position(bg, ov, x, y),
        forall |ox: int, oy: int| 0 <= ox < ov.width && 0 <= oy < ov.height
            ==> #[trigger] ov.pix(ox, oy) == bg.pix(x + ox, y + oy),
    ensures
        spec_matched(bg, ov, x, y, false) == spec_total(ov, false),
        spec_total(ov, false) == ov.width * ov.height,
        spec_total(ov, false) >= 1,
        spec_result_at(bg, ov, x, y, false).is_perfect,
{
    lemma_grid_perfect(bg, ov, x, y, false, ov.height as int);
    lemma_total_characterisation(ov, false);
    assert forall |ox: int, oy: int|
        0 <= ox < ov.width && 0 <= oy < ov.height && #[trigger] cell_compared(ov, false, ox, oy)
        implies cell_equal(bg, ov, x, y, ox, oy) by {
        assert(ov.pix(ox, oy) == bg.pix(x + ox, y + oy));
    }
}

/// The score always lies in the unit interval: for any placement the
/// numerator is at least zero and at most the denominator.
pub proof fn lemma_score_in_unit_interval(
    bg: ImageBuffer,
    ov: ImageBuffer,
    x: int,
    y: int,
    white_transparent: bool,
)
    requires
        bg.wf(),
        ov.wf(),
        valid_position(bg, ov, x, y),
    ensures
        0 <= spec_matched(bg, ov, x, y, white_transparent),
        spec_matched(bg, ov, x, y, white_transparent) <= spec_total(ov, white_transparent),
        0 <= spec_total(ov, white_transparent) <= ov.width * ov.height,
{
    lemma_grid_counts(bg, ov, x, y, white_transparent, ov.height as int);
    assert(ov.height * ov.width == ov.width * ov.height) by (nonlinear_arith);
}

/// A perfect score without transparency forces a border match: when every
/// cell was compared and agreed, the perimeter cells in particular agree,
/// and the comparator accepts equal pixels. (The converse does not hold:
/// a border match says nothing about the interior.)
pub proof fn lemma_perfect_implies_border_match(bg: ImageBuffer, ov: ImageBuffer, x: int, y: int)
    requires
        bg.wf(),
        ov.wf(),
        valid_position(bg, ov, x, y),
        spec_matched(bg, ov, x, y, false) == spec_total(ov, false),
    ensures
        spec_border_match(bg, ov, x, y, false),
{
    lemma_grid_perfect(bg, ov, x, y, false, ov.height as int);
    assert forall |ox: int| 0 <= ox < ov.width implies {
        &&& crate::pixel::spec_pixels_match(bg.pix(x + ox, y), #[trigger] ov.pix(ox, 0), false)
        &&& crate::pixel::spec_pixels_match(
            bg.pix(x + ox, y + ov.height - 1),
            ov.pix(ox, ov.height - 1),
            false,
        )
    } by {
        assert(cell_compared(ov, false, ox, 0));
        assert(cell_compared(ov, false, ox, ov.height - 1));
        assert(cell_equal(bg, ov, x, y, ox, 0));
        assert(cell_equal(bg, ov, x, y, ox, ov.height - 1));
    }
    assert forall |oy: int| 0 <= oy < ov.height implies {
        &&& crate::pixel::spec_pixels_match(bg.pix(x, y + oy), #[trigger] ov.pix(0, oy), false)
        &&& crate::pixel::spec_pixels_match(
            bg.pix(x + ov.width - 1, y + oy),
            ov.pix(ov.width - 1, oy),
            false,
        )
    } by {
        assert(cell_compared(ov, false, 0, oy));
        assert(cell_compared(ov, false, ov.width - 1, oy));
        assert(cell_equal(bg, ov, x, y, 0, oy));
        assert(cell_equal(bg, ov, x, y, ov.width - 1, oy));
    }
}

/// The search is deterministic: its output is one mathematical function of
/// the two images and the transparency flag, so any two sequences that meet
/// the engine's contract on the same inputs — two runs, whatever schedule
/// the parallel scoring took — are identical in content and order.
pub proof fn lemma_search_deterministic(
    bg: ImageBuffer,
    ov: ImageBuffer,
    white_transparent: bool,
    r1: Seq<MatchResult>,
    r2: Seq<MatchResult>,
)
    requires
        r1 == spec_search_results(bg, ov, white_transparent),
        r2 == spec_search_results(bg, ov, white_transparent),
    ensures
        r1 == r2,
{
}

} // verus!
