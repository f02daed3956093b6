//! Interval clipping: the overlap of one genomic segment with a sorted,
//! pairwise-disjoint list of keep-intervals.

use vstd::prelude::*;

verus! {

/// A keep-interval list is well formed when every interval is ordered and
/// consecutive intervals do not overlap.
pub open spec fn intervals_wf(ivs: Seq<(usize, usize)>) -> bool {
    &&& forall|i: int| 0 <= i < ivs.len() ==> (#[trigger] ivs[i]).0 <= ivs[i].1
    &&& forall|i: int| 0 <= i && i + 1 < ivs.len() ==> (#[trigger] ivs[i]).1 <= ivs[i + 1].0
}

/// Dropping the last keep-interval keeps the list well formed.
pub proof fn lemma_wf_drop_last(ivs: Seq<(usize, usize)>)
    requires
        ivs.len() > 0,
        intervals_wf(ivs),
    ensures
        intervals_wf(ivs.drop_last()),
{
    let p = ivs.drop_last();
    assert forall|i: int| 0 <= i < p.len() implies (#[trigger] p[i]).0 <= p[i].1 by {
        assert(p[i] == ivs[i]);
    }
    assert forall|i: int| 0 <= i && i + 1 < p.len() implies (#[trigger] p[i]).1 <= p[i + 1].0 by {
        assert(p[i] == ivs[i]);
        assert(p[i + 1] == ivs[i + 1]);
    }
}

/// Does the half-open segment `[start, end)` overlap the keep-interval `iv`?
pub open spec fn seg_overlaps(start: usize, end: usize, iv: (usize, usize)) -> bool {
    iv.1 > start && end > iv.0
}

/// The overlap of `[start, end)` with `iv`, clipped to the segment bounds.
pub open spec fn clip_piece(start: usize, end: usize, iv: (usize, usize)) -> (usize, usize) {
    (
        if iv.0 < start {
            start
        } else {
            iv.0
        },
        if iv.1 < end {
            iv.1
        } else {
            end
        },
    )
}

/// The ordered list of clipped overlaps of `[start, end)` with `ivs`.
pub open spec fn clipped(start: usize, end: usize, ivs: Seq<(usize, usize)>) -> Seq<(usize, usize)>
    decreases ivs.len(),
{
    if ivs.len() == 0 {
        Seq::empty()
    } else {
        clipped(start, end, ivs.drop_last()) + if seg_overlaps(start, end, ivs.last()) {
            seq![clip_piece(start, end, ivs.last())]
        } else {
            Seq::empty()
        }
    }
}

/// How many keep-intervals of `ivs` overlap `[start, end)`.
pub open spec fn overlap_count(start: usize, end: usize, ivs: Seq<(usize, usize)>) -> nat
    decreases ivs.len(),
{
    if ivs.len() == 0 {
        0
    } else {
        overlap_count(start, end, ivs.drop_last()) + if seg_overlaps(start, end, ivs.last()) {
            1nat
        } else {
            0nat
        }
    }
}

/// There is one clipped piece for each keep-interval that overlaps the segment.
pub proof fn lemma_clipped_count(start: usize, end: usize, ivs: Seq<(usize, usize)>)
    ensures
        clipped(start, end, ivs).len() == overlap_count(start, end, ivs),
    decreases ivs.len(),
{
    if ivs.len() > 0 {
        lemma_clipped_count(start, end, ivs.drop_last());
    }
}

/// Piece `k` of the clipped output lies inside some overlapping keep-interval.
pub open spec fn piece_covered(piece: (usize, usize), start: usize, end: usize, ivs: Seq<(usize, usize)>) -> bool {
    exists|j: int|
        0 <= j < ivs.len() && seg_overlaps(start, end, #[trigger] ivs[j]) && ivs[j].0 <= piece.0
            && piece.1 <= ivs[j].1
}

/// Every clipped piece is ordered, stays inside the segment, and stays inside
/// one of the overlapping keep-intervals.
pub proof fn lemma_clipped_contained(start: usize, end: usize, ivs: Seq<(usize, usize)>)
    requires
        start <= end,
        intervals_wf(ivs),
    ensures
        forall|k: int|
            0 <= k < clipped(start, end, ivs).len() ==> {
                let piece = #[trigger] clipped(start, end, ivs)[k];
                &&& start <= piece.0
                &&& piece.0 <= piece.1
                &&& piece.1 <= end
                &&& piece_covered(piece, start, end, ivs)
            },
    decreases ivs.len(),
{
    if ivs.len() > 0 {
        let prefix = ivs.drop_last();
        lemma_wf_drop_last(ivs);
        lemma_clipped_contained(start, end, prefix);
        let c = clipped(start, end, ivs);
        let cp = clipped(start, end, prefix);
        assert forall|k: int| 0 <= k < c.len() implies {
            let piece = #[trigger] c[k];
            &&& start <= piece.0
            &&& piece.0 <= piece.1
            &&& piece.1 <= end
            &&& piece_covered(piece, start, end, ivs)
        } by {
            if k < cp.len() {
                assert(c[k] == cp[k]);
                let piece = cp[k];
                let j = choose|j: int|
                    0 <= j < prefix.len() && seg_overlaps(start, end, #[trigger] prefix[j])
                        && prefix[j].0 <= piece.0 && piece.1 <= prefix[j].1;
                assert(ivs[j] == prefix[j]);
                assert(piece_covered(piece, start, end, ivs));
            } else {
                let piece = c[k];
                let j = ivs.len() - 1;
                assert(piece == clip_piece(start, end, ivs[j]));
                assert(seg_overlaps(start, end, ivs[j]));
                assert(piece_covered(piece, start, end, ivs));
            }
        }
    }
}

/// In a well-formed keep-interval list every earlier interval ends no later
/// than any later interval starts.
pub proof fn lemma_intervals_chain(ivs: Seq<(usize, usize)>)
    requires
        intervals_wf(ivs),
    ensures
        forall|i: int, j: int| 0 <= i < j < ivs.len() ==> (#[trigger] ivs[i]).1 <= (#[trigger] ivs[j]).0,
    decreases ivs.len(),
{
    if ivs.len() > 1 {
        let prefix = ivs.drop_last();
        lemma_wf_drop_last(ivs);
        lemma_intervals_chain(prefix);
        let last = ivs.len() - 1;
        assert forall|i: int, j: int| 0 <= i < j < ivs.len() implies (#[trigger] ivs[i]).1
            <= (#[trigger] ivs[j]).0 by {
            if j == last {
                if i < last - 1 {
                    assert(prefix[i].1 <= prefix[last - 1].0);
                    assert(ivs[last - 1].0 <= ivs[last - 1].1);
                }
                assert(ivs[last - 1].1 <= ivs[last].0);
            } else {
                assert(prefix[i] == ivs[i] && prefix[j] == ivs[j]);
            }
        }
    }
}

/// The clipped pieces come out in ascending order and pairwise disjoint.
pub proof fn lemma_clipped_disjoint(start: usize, end: usize, ivs: Seq<(usize, usize)>)
    requires
        start <= end,
        intervals_wf(ivs),
    ensures
        forall|k1: int, k2: int|
            0 <= k1 < k2 < clipped(start, end, ivs).len() ==> (#[trigger] clipped(start, end, ivs)[k1]).1
                <= (#[trigger] clipped(start, end, ivs)[k2]).0,
    decreases ivs.len(),
{
    if ivs.len() > 0 {
        let prefix = ivs.drop_last();
        lemma_wf_drop_last(ivs);
        lemma_clipped_disjoint(start, end, prefix);
        lemma_clipped_contained(start, end, prefix);
        lemma_intervals_chain(ivs);
        let c = clipped(start, end, ivs);
        let cp = clipped(start, end, prefix);
        let last = ivs.len() - 1;
        assert forall|k1: int, k2: int| 0 <= k1 < k2 < c.len() implies (#[trigger] c[k1]).1
            <= (#[trigger] c[k2]).0 by {
            if k2 < cp.len() {
                assert(c[k1] == cp[k1] && c[k2] == cp[k2]);
            } else {
                // k2 names the piece cut from the final interval.
                assert(c[k2] == clip_piece(start, end, ivs[last]));
                assert(c[k1] == cp[k1]);
                let piece = cp[k1];
                let j = choose|j: int|
                    0 <= j < prefix.len() && seg_overlaps(start, end, #[trigger] prefix[j])
                        && prefix[j].0 <= piece.0 && piece.1 <= prefix[j].1;
                assert(ivs[j] == prefix[j]);
                assert(ivs[j].1 <= ivs[last].0);
            }
        }
    }
}

/// Check at run time that a keep-interval list is sorted and disjoint.
pub fn intervals_sorted_disjoint(intervals: &Vec<(usize, usize)>) -> (ok: bool)
    ensures
        ok == intervals_wf(intervals@),
{
    let n = intervals.len();
    let mut idx: usize = 0;
    while idx < n
        invariant
            idx <= n,
            n == intervals@.len(),
            forall|i: int| 0 <= i < idx ==> (#[trigger] intervals@[i]).0 <= intervals@[i].1,
            forall|i: int| 0 <= i && i + 1 < n && i + 1 <= idx ==> (#[trigger] intervals@[i]).1 <= intervals@[i + 1].0,
        decreases n - idx,
    {
        let (m, e) = intervals[idx];
        if m > e {
            return false;
        }
        if idx + 1 < n {
            let (m2, _e2) = intervals[idx + 1];
            if e > m2 {
                return false;
            }
        }
        idx = idx + 1;
    }
    true
}

/// Compute the overlaps of `[start, end)` with the keep-intervals, clipped to
/// the segment.  The output buffer is cleared and reused across calls.
pub fn find_overlaps(
    start: usize,
    end: usize,
    intervals: &Vec<(usize, usize)>,
    out: &mut Vec<(usize, usize)>,
)
    requires
        intervals_wf(intervals@),
    ensures
        final(out)@ == clipped(start, end, intervals@),
{
    out.clear();
    let n = intervals.len();
    let mut idx: usize = 0;
    while idx < n
        invariant
            idx <= n,
            n == intervals@.len(),
            intervals_wf(intervals@),
            out@ == clipped(start, end, intervals@.take(idx as int)),
        decreases n - idx,
    {
        let (m, e) = intervals[idx];
        if !(e <= start || end <= m) {
            let new_start = if m < start {
                start
            } else {
                m
            };
            let new_end = if e < end {
                e
            } else {
                end
            };
            out.push((new_start, new_end));
        }
        proof {
            let pre = intervals@.take(idx as int);
            let post = intervals@.take(idx + 1);
            assert(post.drop_last() =~= pre);
            assert(post.last() == intervals@[idx as int]);
        }
        idx = idx + 1;
    }
    proof {
        assert(intervals@.take(n as int) =~= intervals@);
    }
}

} // verus!
