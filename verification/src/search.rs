//! The search engine: enumerates every valid placement of the overlay in
//! the background, scores each one, sorts the results into the output
//! order, and applies the selection policy.

use vstd::prelude::*;

use rayon::iter::IndexedParallelIterator;
use rayon::iter::IntoParallelRefIterator;
use rayon::iter::ParallelIterator;

use crate::buffer::ImageBuffer;
use crate::order::{all_have_scores, sort_results, sorted};
use crate::order::{lemma_sort_results_sorted, sort_matches};
use crate::score::{spec_all_white, spec_result_at, spec_total, valid_position};
use crate::score::{lemma_grid_counts, lemma_total_characterisation, score_position};
use crate::score::MatchResult;

verus! {

/// Why a search could not produce any result.
#[derive(Clone, Copy, PartialEq, Eq, Structural, Debug)]
pub enum MatchError {
    /// The overlay's width or height exceeds the background's: there is no
    /// valid placement at all.
    OverlayLargerThanBackground,
    /// White is treated as transparent and every overlay pixel is pure
    /// white, so no position compares a single cell and every score would
    /// be an undefined zero-over-zero ratio.
    DegenerateScore,
}

/// The overlay fits inside the background in both dimensions.
pub open spec fn overlay_fits(bg: ImageBuffer, ov: ImageBuffer) -> bool {
    ov.width <= bg.width && ov.height <= bg.height
}

/// Number of valid columns for the overlay's top-left corner.
pub open spec fn num_cols(bg: ImageBuffer, ov: ImageBuffer) -> int {
    bg.width - ov.width + 1
}

/// Number of valid rows for the overlay's top-left corner.
pub open spec fn num_rows(bg: ImageBuffer, ov: ImageBuffer) -> int {
    bg.height - ov.height + 1
}

/// One result per valid placement, enumerated column-major: placement `i`
/// is at column `i / num_rows`, row `i % num_rows`.
pub open spec fn spec_all_results(
    bg: ImageBuffer,
    ov: ImageBuffer,
    white_transparent: bool,
) -> Seq<MatchResult> {
    Seq::new(
        (num_cols(bg, ov) * num_rows(bg, ov)) as nat,
        |i: int| spec_result_at(bg, ov, i / num_rows(bg, ov), i % num_rows(bg, ov), white_transparent),
    )
}

/// A result's score is strictly above one half: twice the numerator
/// exceeds the denominator.
pub open spec fn above_half(r: MatchResult) -> bool {
    2 * r.matching_pixels > r.total_pixels
}

/// The results whose score is strictly above one half, in their original
/// order.
pub open spec fn keep_above_half(s: Seq<MatchResult>) -> Seq<MatchResult>
    decreases s.len(),
{
    if s.len() == 0 {
        Seq::<MatchResult>::empty()
    } else {
        let rest = keep_above_half(s.drop_last());
        if above_half(s.last()) {
            rest.push(s.last())
        } else {
            rest
        }
    }
}

/// The selection policy over a sorted result sequence: if the best score is
/// at most one half, keep only the single best match, however low it
/// scores; otherwise keep exactly the results scoring above one half.
pub open spec fn spec_select(s: Seq<MatchResult>) -> Seq<MatchResult>
    recommends
        s.len() > 0,
{
    if s.len() > 0 && !above_half(s[0]) {
        seq![s[0]]
    } else {
        keep_above_half(s)
    }
}

/// The whole search pipeline as one mathematical function: score every
/// valid placement, sort by score descending (ties by ascending row, then
/// column), then select.
pub open spec fn spec_search_results(
    bg: ImageBuffer,
    ov: ImageBuffer,
    white_transparent: bool,
) -> Seq<MatchResult> {
    spec_select(sort_results(spec_all_results(bg, ov, white_transparent)))
}

/// Everything kept scores above one half, every kept result comes from the
/// input, and the count is the input's count of above-half results (which
/// `keep_above_half`'s length is, by construction).
pub proof fn lemma_keep_above_half_elems(s: Seq<MatchResult>)
    ensures
        keep_above_half(s).len() <= s.len(),
        forall |i: int| 0 <= i < keep_above_half(s).len()
            ==> above_half(#[trigger] keep_above_half(s)[i]) && s.contains(keep_above_half(s)[i]),
    decreases s.len(),
{
    if s.len() > 0 {
        let pre = s.drop_last();
        lemma_keep_above_half_elems(pre);
        assert forall |i: int| 0 <= i < keep_above_half(s).len()
            implies above_half(#[trigger] keep_above_half(s)[i])
                && s.contains(keep_above_half(s)[i]) by {
            let e = keep_above_half(s)[i];
            if above_half(s.last()) && i == keep_above_half(s).len() - 1 {
                assert(e == s.last());
                assert(s[s.len() - 1] == e);
            } else {
                assert(e == keep_above_half(pre)[i]);
                assert(pre.contains(e));
                let k = choose |k: int| 0 <= k < pre.len() && pre[k] == e;
                assert(s[k] == e);
            }
        }
    }
}

/// Selection preserves the sort order: what it keeps is a subsequence.
pub proof fn lemma_keep_above_half_sorted(s: Seq<MatchResult>)
    requires
        sorted(s),
        all_have_scores(s),
    ensures
        sorted(keep_above_half(s)),
        all_have_scores(keep_above_half(s)),
    decreases s.len(),
{
    lemma_keep_above_half_elems(s);
    if s.len() > 0 {
        let pre = s.drop_last();
        assert forall |i: int, j: int| 0 <= i < j < pre.len()
            implies crate::order::result_precedes(#[trigger] pre[i], #[trigger] pre[j]) by {
            assert(pre[i] == s[i] && pre[j] == s[j]);
        }
        assert forall |i: int| 0 <= i < pre.len()
            implies (#[trigger] pre[i]).total_pixels > 0 by {
            assert(pre[i] == s[i]);
        }
        lemma_keep_above_half_sorted(pre);
        lemma_keep_above_half_elems(pre);
        let out = keep_above_half(s);
        assert forall |i: int, j: int| 0 <= i < j < out.len()
            implies crate::order::result_precedes(#[trigger] out[i], #[trigger] out[j]) by {
            if above_half(s.last()) && j == out.len() - 1 {
                assert(out[i] == keep_above_half(pre)[i]);
                assert(pre.contains(out[i]));
                let k = choose |k: int| 0 <= k < pre.len() && pre[k] == out[i];
                assert(s[k] == out[i] && out[j] == s[s.len() - 1]);
            } else {
                assert(out[i] == keep_above_half(pre)[i] && out[j] == keep_above_half(pre)[j]);
            }
        }
        assert forall |i: int| 0 <= i < out.len()
            implies (#[trigger] out[i]).total_pixels > 0 by {
            assert(s.contains(out[i]));
            let k = choose |k: int| 0 <= k < s.len() && s[k] == out[i];
        }
    }
}

/// Whether every overlay pixel is pure white in R, G and B.
pub fn overlay_all_white(ov: &ImageBuffer) -> (r: bool)
    requires
        ov.wf(),
    ensures
        r == spec_all_white(*ov),
{
    let width = ov.get_width();
    let height = ov.get_height();
    let mut oy: usize = 0;
    while oy < height
        invariant
            ov.wf(),
            width == ov.width,
            height == ov.height,
            oy <= height,
            forall |jx: int, jy: int| 0 <= jx < ov.width && 0 <= jy < oy
                ==> crate::pixel::is_pure_white(#[trigger] ov.pix(jx, jy)),
        decreases height - oy,
    {
        let mut ox: usize = 0;
        while ox < width
            invariant
                ov.wf(),
                width == ov.width,
                height == ov.height,
                oy < height,
                ox <= width,
                forall |jx: int, jy: int| 0 <= jx < ov.width && 0 <= jy < oy
                    ==> crate::pixel::is_pure_white(#[trigger] ov.pix(jx, jy)),
                forall |jx: int| 0 <= jx < ox
                    ==> crate::pixel::is_pure_white(#[trigger] ov.pix(jx, oy as int)),
            decreases width - ox,
        {
            let p = ov.get_pixel(ox, oy);
            if !p.is_white() {
                return false;
            }
            ox = ox + 1;
        }
        oy = oy + 1;
    }
    true
}

/// All valid placements, column-major: `(x, y)` for every `x` in
/// `0 ..= bg.width - ov.width` and `y` in `0 ..= bg.height - ov.height`.
fn enumerate_positions(bg: &ImageBuffer, ov: &ImageBuffer) -> (v: Vec<(usize, usize)>)
    requires
        bg.wf(),
        ov.wf(),
        overlay_fits(*bg, *ov),
    ensures
        v@.len() == num_cols(*bg, *ov) * num_rows(*bg, *ov),
        forall |i: int| 0 <= i < v@.len() ==> {
            &&& (#[trigger] v@[i]).0 == i / num_rows(*bg, *ov)
            &&& v@[i].1 == i % num_rows(*bg, *ov)
        },
{
    let nx = bg.get_width() - ov.get_width() + 1;
    let ny = bg.get_height() - ov.get_height() + 1;
    let n_bg = bg.pixels.len();
    proof {
        assert(nx * ny <= bg.width * bg.height) by (nonlinear_arith)
            requires
                1 <= nx <= bg.width,
                1 <= ny <= bg.height,
        ;
    }
    let mut v: Vec<(usize, usize)> = Vec::new();
    let mut x: usize = 0;
    while x < nx
        invariant
            bg.wf(),
            ov.wf(),
            overlay_fits(*bg, *ov),
            nx == num_cols(*bg, *ov),
            ny == num_rows(*bg, *ov),
            nx * ny <= n_bg,
            x <= nx,
            v@.len() == x * ny,
            forall |i: int| 0 <= i < v@.len() ==> {
                &&& (#[trigger] v@[i]).0 == i / (ny as int)
                &&& v@[i].1 == i % (ny as int)
            },
        decreases nx - x,
    {
        let mut y: usize = 0;
        proof {
            assert(x * ny + ny <= nx * ny) by (nonlinear_arith)
                requires
                    x < nx,
                    ny >= 1,
            ;
        }
        while y < ny
            invariant
                x < nx,
                y <= ny,
                x * ny + ny <= nx * ny,
                nx * ny <= n_bg,
                v@.len() == x * ny + y,
                forall |i: int| 0 <= i < v@.len() ==> {
                    &&& (#[trigger] v@[i]).0 == i / (ny as int)
                    &&& v@[i].1 == i % (ny as int)
                },
            decreases ny - y,
        {
            proof {
                vstd::arithmetic::div_mod::lemma_fundamental_div_mod_converse(
                    (x * ny + y) as int,
                    ny as int,
                    x as int,
                    y as int,
                );
            }
            v.push((x, y));
            y = y + 1;
        }
        x = x + 1;
        proof {
            assert((x - 1) * ny + ny == x * ny) by (nonlinear_arith);
        }
    }
    proof {
        assert(x * ny == nx * ny);
    }
    v
}

/// Relies on rayon's `IndexedParallelIterator`: `par_iter` over a slice,
/// `map`, and `collect_into_vec` preserve index order, so element `i` of
/// the output is the closure's value on `positions[i]`; the closure only
/// calls the verified `score_position`. The scoring of distinct positions
/// shares no mutable state, only the two read-only buffers.
#[verifier::external_body]
fn score_positions_parallel(
    bg: &ImageBuffer,
    ov: &ImageBuffer,
    positions: &Vec<(usize, usize)>,
    white_transparent: bool,
) -> (r: Vec<MatchResult>)
    requires
        bg.wf(),
        ov.wf(),
        forall |i: int| 0 <= i < positions@.len()
            ==> valid_position(*bg, *ov, (#[trigger] positions@[i]).0 as int, positions@[i].1 as int),
    ensures
        r@.len() == positions@.len(),
        forall |i: int| 0 <= i < positions@.len()
            ==> r@[i] == spec_result_at(
                *bg,
                *ov,
                (#[trigger] positions@[i]).0 as int,
                positions@[i].1 as int,
                white_transparent,
            ),
{
    let mut results: Vec<MatchResult> = Vec::new();
    positions
        .par_iter()
        .map(|&(x, y)| score_position(bg, ov, x, y, white_transparent))
        .collect_into_vec(&mut results);
    results
}

/// Applies the selection policy to a non-empty sorted result sequence: the
/// single best match if its score is at most one half, otherwise every
/// match scoring above one half, in order.
pub fn select_matches(results: &Vec<MatchResult>) -> (r: Vec<MatchResult>)
    requires
        results@.len() > 0,
    ensures
        r@ == spec_select(results@),
        !above_half(results@[0]) ==> r@ =~= seq![results@[0]],
        above_half(results@[0]) ==> r@ == keep_above_half(results@),
{
    let first = results[0];
    // score <= 1/2 means 2 * matching <= total; a numerator above
    // usize::MAX / 2 makes the doubled value exceed any usize total.
    let top_is_low = first.matching_pixels <= usize::MAX / 2
        && 2 * first.matching_pixels <= first.total_pixels;
    proof {
        assert(first.matching_pixels > usize::MAX / 2
            ==> 2 * first.matching_pixels > first.total_pixels);
    }
    if top_is_low {
        let mut out: Vec<MatchResult> = Vec::new();
        out.push(first);
        proof {
            assert(out@ =~= seq![results@[0]]);
        }
        out
    } else {
        let mut out: Vec<MatchResult> = Vec::new();
        let mut i: usize = 0;
        while i < results.len()
            invariant
                i <= results@.len(),
                out@ == keep_above_half(results@.take(i as int)),
            decreases results@.len() - i,
        {
            let cand = results[i];
            let keep = cand.matching_pixels > usize::MAX / 2
                || 2 * cand.matching_pixels > cand.total_pixels;
            proof {
                assert(cand.matching_pixels > usize::MAX / 2
                    ==> 2 * cand.matching_pixels > cand.total_pixels);
            }
            if keep {
                out.push(cand);
            }
            proof {
                let pre = results@.take(i as int);
                let post = results@.take(i + 1);
                assert(post.drop_last() =~= pre);
                assert(post.last() == results@[i as int]);
            }
            i = i + 1;
        }
        proof {
            assert(results@.take(results@.len() as int) =~= results@);
        }
        out
    }
}

/// At least one result scores above one half, so the selection keeps
/// something.
proof fn lemma_keep_above_half_nonempty(s: Seq<MatchResult>, k: int)
    requires
        0 <= k < s.len(),
        above_half(s[k]),
    ensures
        keep_above_half(s).len() >= 1,
    decreases s.len(),
{
    if k < s.len() - 1 {
        let pre = s.drop_last();
        assert(pre[k] == s[k]);
        lemma_keep_above_half_nonempty(pre, k);
    }
}

/// The search engine: every valid placement of the overlay inside the
/// background is scored, the results are sorted by score descending with
/// ties broken by ascending row then column, and the selection policy is
/// applied. Fails with `OverlayLargerThanBackground` exactly when the
/// overlay exceeds the background in either dimension, and with
/// `DegenerateScore` exactly when white is transparent and the overlay is
/// all white, so that no cell at all would be compared.
pub fn find_best_matches(
    background: &ImageBuffer,
    overlay: &ImageBuffer,
    white_transparent: bool,
) -> (r: Result<Vec<MatchResult>, MatchError>)
    requires
        background.wf(),
        overlay.wf(),
    ensures
        (r == Err::<Vec<MatchResult>, MatchError>(MatchError::OverlayLargerThanBackground))
            == !overlay_fits(*background, *overlay),
        (r == Err::<Vec<MatchResult>, MatchError>(MatchError::DegenerateScore))
            == (overlay_fits(*background, *overlay) && white_transparent
                && spec_all_white(*overlay)),
        r is Ok <==> (overlay_fits(*background, *overlay)
            && !(white_transparent && spec_all_white(*overlay))),
        r matches Ok(out) ==> {
            &&& out@ == spec_search_results(*background, *overlay, white_transparent)
            &&& out@.len() >= 1
            &&& sorted(out@)
            &&& all_have_scores(out@)
        },
{
    let bg_width = background.get_width();
    let bg_height = background.get_height();
    let ov_width = overlay.get_width();
    let ov_height = overlay.get_height();
    if ov_width > bg_width || ov_height > bg_height {
        return Err(MatchError::OverlayLargerThanBackground);
    }
    if white_transparent && overlay_all_white(overlay) {
        return Err(MatchError::DegenerateScore);
    }
    let n_ov = overlay.pixels.len();
    let ghost ny = num_rows(*background, *overlay);
    let ghost nx = num_cols(*background, *overlay);
    let positions = enumerate_positions(background, overlay);
    proof {
        assert forall |i: int| 0 <= i < positions@.len()
            implies valid_position(
                *background,
                *overlay,
                (#[trigger] positions@[i]).0 as int,
                positions@[i].1 as int,
            ) by {
            vstd::arithmetic::div_mod::lemma_fundamental_div_mod(i, ny);
            vstd::arithmetic::div_mod::lemma_mod_bound(i, ny);
            assert(0 <= i / ny < nx) by (nonlinear_arith)
                requires
                    ny >= 1,
                    0 <= i < nx * ny,
                    i == ny * (i / ny) + (i % ny),
                    0 <= i % ny < ny,
            ;
        }
    }
    let scored = score_positions_parallel(background, overlay, &positions, white_transparent);
    proof {
        let all = spec_all_results(*background, *overlay, white_transparent);
        assert forall |i: int| 0 <= i < scored@.len() implies scored@[i] == all[i] by {
            assert(positions@[i].0 == i / ny && positions@[i].1 == i % ny);
            assert(all[i] == spec_result_at(*background, *overlay, i / ny, i % ny, white_transparent));
        }
        assert(scored@ =~= all);
        lemma_total_characterisation(*overlay, white_transparent);
        lemma_grid_counts(*overlay, *overlay, 0, 0, white_transparent, overlay.height as int);
        assert(overlay.height * overlay.width == overlay.width * overlay.height)
            by (nonlinear_arith);
        assert forall |i: int| 0 <= i < scored@.len()
            implies (#[trigger] scored@[i]).total_pixels > 0 by {
            assert(scored@[i].total_pixels == spec_total(*overlay, white_transparent) as usize);
        }
    }
    let sorted_vec = sort_matches(&scored);
    proof {
        lemma_sort_results_sorted(scored@);
        assert(nx * ny >= 1) by (nonlinear_arith)
            requires
                nx >= 1,
                ny >= 1,
        ;
    }
    let out = select_matches(&sorted_vec);
    proof {
        let s = sorted_vec@;
        if !above_half(s[0]) {
            assert(sorted(out@));
            assert(all_have_scores(out@)) by {
                assert(out@[0] == s[0]);
            }
        } else {
            lemma_keep_above_half_sorted(s);
            lemma_keep_above_half_nonempty(s, 0);
        }
    }
    Ok(out)
}

} // verus!
