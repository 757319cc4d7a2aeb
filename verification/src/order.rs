//! The deterministic output order of match results and a verified
//! insertion sort that realises it.
//!
//! Results are ordered by score descending; equal scores are tied-broken by
//! ascending row, then ascending column, so the output never depends on the
//! order in which positions were scored.

use vstd::prelude::*;

use crate::score::MatchResult;

verus! {

/// `a`'s score is strictly below `b`'s. Scores are the exact rationals
/// `matching_pixels / total_pixels`, compared by cross-multiplication, so
/// no rounding is involved.
pub open spec fn score_lt(a: MatchResult, b: MatchResult) -> bool {
    a.matching_pixels * b.total_pixels < b.matching_pixels * a.total_pixels
}

/// `a` comes no later than `b` in the output: strictly higher score first;
/// on equal scores, smaller row first, then smaller column.
pub open spec fn result_precedes(a: MatchResult, b: MatchResult) -> bool {
    ||| score_lt(b, a)
    ||| (!score_lt(a, b) && !score_lt(b, a) && (a.y < b.y || (a.y == b.y && a.x <= b.x)))
}

/// The output order is total: any two results can be put in some order.
pub proof fn lemma_precedes_total(a: MatchResult, b: MatchResult)
    ensures
        result_precedes(a, b) || result_precedes(b, a),
{
}

/// The result's score is defined: at least one cell was compared.
pub open spec fn has_score(r: MatchResult) -> bool {
    r.total_pixels > 0
}

/// Every result in the sequence has a defined score. The search engine
/// guarantees this for everything that reaches the sort: the degenerate
/// all-transparent overlay is rejected before any position is scored.
pub open spec fn all_have_scores(s: Seq<MatchResult>) -> bool {
    forall |i: int| 0 <= i < s.len() ==> (#[trigger] s[i]).total_pixels > 0
}

/// Nondecreasing under `result_precedes`: the order every search result
/// sequence is returned in.
pub open spec fn sorted(s: Seq<MatchResult>) -> bool {
    forall |i: int, j: int| 0 <= i < j < s.len() ==> result_precedes(#[trigger] s[i], #[trigger] s[j])
}

/// `r` placed at the first index of `s` whose element does not have to come
/// before `r`.
pub open spec fn insert_ordered(s: Seq<MatchResult>, r: MatchResult) -> Seq<MatchResult>
    decreases s.len(),
{
    if s.len() == 0 {
        seq![r]
    } else if result_precedes(r, s[0]) {
        seq![r] + s
    } else {
        seq![s[0]] + insert_ordered(s.drop_first(), r)
    }
}

/// Insertion sort of a result sequence, as a mathematical function: the
/// one sequence the search is specified to return before selection.
pub open spec fn sort_results(s: Seq<MatchResult>) -> Seq<MatchResult>
    decreases s.len(),
{
    if s.len() == 0 {
        Seq::<MatchResult>::empty()
    } else {
        insert_ordered(sort_results(s.drop_last()), s.last())
    }
}

/// Insertion grows the sequence by exactly one element.
pub proof fn lemma_insert_ordered_len(s: Seq<MatchResult>, r: MatchResult)
    ensures
        insert_ordered(s, r).len() == s.len() + 1,
    decreases s.len(),
{
    if s.len() > 0 && !result_precedes(r, s[0]) {
        lemma_insert_ordered_len(s.drop_first(), r);
    }
}

/// Every element of `insert_ordered(s, r)` is `r` or an element of `s`.
pub proof fn lemma_insert_ordered_elems(s: Seq<MatchResult>, r: MatchResult)
    ensures
        insert_ordered(s, r).len() == s.len() + 1,
        forall |i: int| 0 <= i < insert_ordered(s, r).len()
            ==> insert_ordered(s, r)[i] == r || s.contains(#[trigger] insert_ordered(s, r)[i]),
    decreases s.len(),
{
    lemma_insert_ordered_len(s, r);
    if s.len() > 0 && !result_precedes(r, s[0]) {
        let tail = s.drop_first();
        lemma_insert_ordered_elems(tail, r);
        assert forall |i: int| 0 <= i < insert_ordered(s, r).len()
            implies insert_ordered(s, r)[i] == r || s.contains(#[trigger] insert_ordered(s, r)[i]) by {
            if i == 0 {
                assert(s.contains(s[0]));
            } else {
                let e = insert_ordered(s, r)[i];
                assert(e == insert_ordered(tail, r)[i - 1]);
                if e != r {
                    assert(tail.contains(e));
                    let k = choose |k: int| 0 <= k < tail.len() && tail[k] == e;
                    assert(s[k + 1] == e);
                }
            }
        }
    }
}

/// Inserting into a sorted sequence keeps it sorted.
pub proof fn lemma_insert_ordered_sorted(s: Seq<MatchResult>, r: MatchResult)
    requires
        sorted(s),
        all_have_scores(s),
        has_score(r),
    ensures
        sorted(insert_ordered(s, r)),
    decreases s.len(),
{
    lemma_insert_ordered_len(s, r);
    if s.len() == 0 {
    } else if result_precedes(r, s[0]) {
        let out = seq![r] + s;
        assert forall |i: int, j: int| 0 <= i < j < out.len()
            implies result_precedes(out[i], out[j]) by {
            if i == 0 {
                if j == 1 {
                    assert(out[j] == s[0]);
                } else {
                    assert(out[j] == s[j - 1]);
                    assert(result_precedes(s[0], s[j - 1]));
                    lemma_precedes_total(r, s[j - 1]);
                    assert(result_precedes(r, s[0]));
                    lemma_precedes_transitive_here(r, s[0], s[j - 1]);
                }
            } else {
                assert(out[i] == s[i - 1] && out[j] == s[j - 1]);
            }
        }
    } else {
        let tail = s.drop_first();
        assert forall |i: int, j: int| 0 <= i < j < tail.len()
            implies result_precedes(#[trigger] tail[i], #[trigger] tail[j]) by {
            assert(tail[i] == s[i + 1] && tail[j] == s[j + 1]);
        }
        lemma_insert_ordered_sorted(tail, r);
        lemma_insert_ordered_elems(tail, r);
        lemma_precedes_total(r, s[0]);
        let ins = insert_ordered(tail, r);
        let out = seq![s[0]] + ins;
        assert forall |i: int, j: int| 0 <= i < j < out.len()
            implies result_precedes(out[i], out[j]) by {
            if i == 0 {
                let e = out[j];
                assert(e == ins[j - 1]);
                if e == r {
                    assert(result_precedes(s[0], r));
                } else {
                    assert(tail.contains(e));
                    let k = choose |k: int| 0 <= k < tail.len() && tail[k] == e;
                    assert(s[k + 1] == e);
                    assert(result_precedes(s[0], s[k + 1]));
                }
            } else {
                assert(out[i] == ins[i - 1] && out[j] == ins[j - 1]);
                assert(result_precedes(ins[i - 1], ins[j - 1]));
            }
        }
    }
}

/// Transitivity of the output order on results with defined scores.
proof fn lemma_precedes_transitive_here(a: MatchResult, b: MatchResult, c: MatchResult)
    requires
        has_score(a),
        has_score(b),
        has_score(c),
        result_precedes(a, b),
        result_precedes(b, c),
    ensures
        result_precedes(a, c),
{
    lemma_score_lt_trichotomy_chain(a, b, c);
}

/// Chains the three pairwise cross-multiplication comparisons that
/// transitivity of the score order rests on.
proof fn lemma_score_lt_trichotomy_chain(a: MatchResult, b: MatchResult, c: MatchResult)
    requires
        has_score(a),
        has_score(b),
        has_score(c),
    ensures
        score_lt(b, a) && score_lt(c, b) ==> score_lt(c, a),
        score_lt(b, a) && !score_lt(b, c) && !score_lt(c, b) ==> score_lt(c, a),
        !score_lt(a, b) && !score_lt(b, a) && score_lt(c, b) ==> score_lt(c, a),
        !score_lt(a, b) && !score_lt(b, a) && !score_lt(b, c) && !score_lt(c, b)
            ==> !score_lt(a, c) && !score_lt(c, a),
{
    let ma = a.matching_pixels as int;
    let ta = a.total_pixels as int;
    let mb = b.matching_pixels as int;
    let tb = b.total_pixels as int;
    let mc = c.matching_pixels as int;
    let tc = c.total_pixels as int;
    if mb * ta < ma * tb && mc * tb < mb * tc {
        lemma_ratio_lt_lt(ma, ta, mb, tb, mc, tc);
    }
    if mb * ta < ma * tb && mb * tc == mc * tb {
        lemma_ratio_lt_eq(ma, ta, mb, tb, mc, tc);
    }
    if ma * tb == mb * ta && mc * tb < mb * tc {
        lemma_ratio_eq_lt(ma, ta, mb, tb, mc, tc);
    }
    if ma * tb == mb * ta && mb * tc == mc * tb {
        lemma_ratio_eq_eq(ma, ta, mb, tb, mc, tc);
    }
}

proof fn lemma_ratio_lt_lt(ma: int, ta: int, mb: int, tb: int, mc: int, tc: int)
    requires
        ma >= 0,
        ta > 0,
        mb >= 0,
        tb > 0,
        mc >= 0,
        tc > 0,
        mb * ta < ma * tb,
        mc * tb < mb * tc,
    ensures
        mc * ta < ma * tc,
{
    assert(mc * ta < ma * tc) by (nonlinear_arith)
        requires
            ma >= 0,
            ta > 0,
            mb >= 0,
            tb > 0,
            mc >= 0,
            tc > 0,
            mb * ta < ma * tb,
            mc * tb < mb * tc,
    ;
}

proof fn lemma_ratio_lt_eq(ma: int, ta: int, mb: int, tb: int, mc: int, tc: int)
    requires
        ma >= 0,
        ta > 0,
        mb >= 0,
        tb > 0,
        mc >= 0,
        tc > 0,
        mb * ta < ma * tb,
        mb * tc == mc * tb,
    ensures
        mc * ta < ma * tc,
{
    assert(mc * ta < ma * tc) by (nonlinear_arith)
        requires
            ma >= 0,
            ta > 0,
            mb >= 0,
            tb > 0,
            mc >= 0,
            tc > 0,
            mb * ta < ma * tb,
            mb * tc == mc * tb,
    ;
}

proof fn lemma_ratio_eq_lt(ma: int, ta: int, mb: int, tb: int, mc: int, tc: int)
    requires
        ma >= 0,
        ta > 0,
        mb >= 0,
        tb > 0,
        mc >= 0,
        tc > 0,
        ma * tb == mb * ta,
        mc * tb < mb * tc,
    ensures
        mc * ta < ma * tc,
{
    assert(mc * ta < ma * tc) by (nonlinear_arith)
        requires
            ma >= 0,
            ta > 0,
            mb >= 0,
            tb > 0,
            mc >= 0,
            tc > 0,
            ma * tb == mb * ta,
            mc * tb < mb * tc,
    ;
}

proof fn lemma_ratio_eq_eq(ma: int, ta: int, mb: int, tb: int, mc: int, tc: int)
    requires
        ma >= 0,
        ta > 0,
        mb >= 0,
        tb > 0,
        mc >= 0,
        tc > 0,
        ma * tb == mb * ta,
        mb * tc == mc * tb,
    ensures
        ma * tc == mc * ta,
{
    assert(ma * tc == mc * ta) by (nonlinear_arith)
        requires
            ma >= 0,
            ta > 0,
            mb >= 0,
            tb > 0,
            mc >= 0,
            tc > 0,
            ma * tb == mb * ta,
            mb * tc == mc * tb,
    ;
}

/// The sort of any sequence of scored results is sorted.
pub proof fn lemma_sort_results_sorted(s: Seq<MatchResult>)
    requires
        all_have_scores(s),
    ensures
        sort_results(s).len() == s.len(),
        sorted(sort_results(s)),
        all_have_scores(sort_results(s)),
    decreases s.len(),
{
    if s.len() > 0 {
        let pre = s.drop_last();
        assert(all_have_scores(pre)) by {
            assert forall |i: int| 0 <= i < pre.len()
                implies (#[trigger] pre[i]).total_pixels > 0 by {
                assert(pre[i] == s[i]);
            }
        }
        lemma_sort_results_sorted(pre);
        lemma_insert_ordered_elems(sort_results(pre), s.last());
        lemma_insert_ordered_sorted(sort_results(pre), s.last());
        let out = insert_ordered(sort_results(pre), s.last());
        assert forall |i: int| 0 <= i < out.len()
            implies (#[trigger] out[i]).total_pixels > 0 by {
            if out[i] != s.last() {
                assert(sort_results(pre).contains(out[i]));
            }
        }
    }
}

/// The sort permutes its input: same elements, same multiplicities.
pub proof fn lemma_sort_results_multiset(s: Seq<MatchResult>)
    ensures
        sort_results(s).to_multiset() == s.to_multiset(),
    decreases s.len(),
{
    broadcast use vstd::seq_lib::group_to_multiset_ensures;

    if s.len() == 0 {
        assert(sort_results(s).to_multiset() =~= s.to_multiset());
    } else {
        lemma_sort_results_multiset(s.drop_last());
        lemma_insert_ordered_multiset(sort_results(s.drop_last()), s.last());
        assert(s.drop_last().push(s.last()) =~= s);
    }
}

proof fn lemma_insert_ordered_multiset(s: Seq<MatchResult>, r: MatchResult)
    ensures
        insert_ordered(s, r).to_multiset() == s.to_multiset().insert(r),
    decreases s.len(),
{
    broadcast use vstd::seq_lib::group_to_multiset_ensures;

    if s.len() == 0 {
        assert(seq![r] =~= Seq::<MatchResult>::empty().push(r));
        assert(insert_ordered(s, r).to_multiset() =~= s.to_multiset().insert(r));
    } else if result_precedes(r, s[0]) {
        lemma_multiset_prepend(s, r);
    } else {
        let tail = s.drop_first();
        lemma_insert_ordered_multiset(tail, r);
        lemma_multiset_prepend(insert_ordered(tail, r), s[0]);
        lemma_multiset_prepend(tail, s[0]);
        assert(seq![s[0]] + tail =~= s);
        assert(insert_ordered(s, r).to_multiset()
            =~= s.to_multiset().insert(r));
    }
}

/// Prepending one element adds exactly it to the multiset.
proof fn lemma_multiset_prepend(s: Seq<MatchResult>, e: MatchResult)
    ensures
        (seq![e] + s).to_multiset() == s.to_multiset().insert(e),
    decreases s.len(),
{
    broadcast use vstd::seq_lib::group_to_multiset_ensures;

    if s.len() == 0 {
        assert(seq![e] + s =~= Seq::<MatchResult>::empty().push(e));
        assert((seq![e] + s).to_multiset() =~= s.to_multiset().insert(e));
    } else {
        lemma_multiset_prepend(s.drop_last(), e);
        assert(seq![e] + s =~= (seq![e] + s.drop_last()).push(s.last()));
        assert(s.drop_last().push(s.last()) =~= s);
        assert((seq![e] + s).to_multiset()
            =~= s.to_multiset().insert(e)) by {
            assert((seq![e] + s).to_multiset()
                =~= (seq![e] + s.drop_last()).to_multiset().insert(s.last()));
            assert((seq![e] + s.drop_last()).to_multiset()
                =~= s.drop_last().to_multiset().insert(e));
            assert(s.to_multiset() =~= s.drop_last().to_multiset().insert(s.last()));
        }
    }
}

/// Compares two results in the output order.
pub fn result_comes_before(a: &MatchResult, b: &MatchResult) -> (r: bool)
    ensures
        r == result_precedes(*a, *b),
{
    proof {
        assert((a.matching_pixels as u128) * (b.total_pixels as u128) <= u128::MAX
            && (b.matching_pixels as u128) * (a.total_pixels as u128) <= u128::MAX)
            by (nonlinear_arith)
            requires
                a.matching_pixels <= u64::MAX,
                a.total_pixels <= u64::MAX,
                b.matching_pixels <= u64::MAX,
                b.total_pixels <= u64::MAX,
        ;
    }
    let ab: u128 = (a.matching_pixels as u128) * (b.total_pixels as u128);
    let ba: u128 = (b.matching_pixels as u128) * (a.total_pixels as u128);
    if ba < ab {
        true
    } else if ab < ba {
        false
    } else {
        a.y < b.y || (a.y == b.y && a.x <= b.x)
    }
}

/// Characterises `insert_ordered` by its insertion index: inserting before
/// the first element that `r` must precede.
proof fn lemma_insert_ordered_at(s: Seq<MatchResult>, r: MatchResult, j: int)
    requires
        0 <= j <= s.len(),
        forall |k: int| 0 <= k < j ==> !result_precedes(r, #[trigger] s[k]),
        j < s.len() ==> result_precedes(r, s[j]),
    ensures
        insert_ordered(s, r) == s.insert(j, r),
    decreases s.len(),
{
    if s.len() == 0 {
        assert(insert_ordered(s, r) =~= s.insert(0, r));
    } else if j == 0 {
        assert(insert_ordered(s, r) =~= s.insert(0, r));
    } else {
        let tail = s.drop_first();
        assert(!result_precedes(r, s[0]));
        assert forall |k: int| 0 <= k < j - 1 implies !result_precedes(r, #[trigger] tail[k]) by {
            assert(tail[k] == s[k + 1]);
        }
        assert(j - 1 < tail.len() ==> result_precedes(r, tail[j - 1]));
        lemma_insert_ordered_at(tail, r, j - 1);
        assert(seq![s[0]] + tail.insert(j - 1, r) =~= s.insert(j, r));
    }
}

/// Inserts one result into a vector that is sorted in the output order,
/// keeping it sorted; the new contents are exactly `insert_ordered`.
pub fn insert_sorted(v: &mut Vec<MatchResult>, r: MatchResult)
    ensures
        final(v)@ == insert_ordered(old(v)@, r),
{
    let mut j: usize = 0;
    while j < v.len()
        invariant_except_break
            j <= v@.len(),
            v@ == old(v)@,
            forall |k: int| 0 <= k < j ==> !result_precedes(r, #[trigger] v@[k]),
        ensures
            v@ == old(v)@,
            j <= v@.len(),
            forall |k: int| 0 <= k < j ==> !result_precedes(r, #[trigger] v@[k]),
            j < v@.len() ==> result_precedes(r, v@[j as int]),
        decreases v@.len() - j,
    {
        if result_comes_before(&r, &v[j]) {
            break;
        }
        proof {
            lemma_precedes_total(r, v@[j as int]);
        }
        j = j + 1;
    }
    proof {
        lemma_insert_ordered_at(v@, r, j as int);
    }
    v.insert(j, r);
}

/// Sorts the results of a search into the output order: score descending,
/// ties broken by ascending row then ascending column.
pub fn sort_matches(results: &Vec<MatchResult>) -> (r: Vec<MatchResult>)
    ensures
        r@ == sort_results(results@),
{
    let mut out: Vec<MatchResult> = Vec::new();
    let mut i: usize = 0;
    while i < results.len()
        invariant
            i <= results@.len(),
            out@ == sort_results(results@.take(i as int)),
        decreases results@.len() - i,
    {
        insert_sorted(&mut out, results[i]);
        proof {
            let pre = results@.take(i as int);
            let post = results@.take(i + 1);
            assert(post.drop_last() =~= pre);
            assert(post.last() == results@[i as int]);
        }
        i = i + 1;
    }
    proof {
        assert(results@.take(results@.len() as int) =~= results@);
    }
    out
}

} // verus!
