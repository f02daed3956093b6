//! The simulation driver: a generation loop that builds the full and the
//! truncated ancestry record in lock-step from one seeded entropy stream.

use vstd::prelude::*;
use crate::clip::{clipped, find_overlaps, intervals_wf, overlap_count};
use crate::entropy::rng_ratio;
use crate::sample::{calc_derived_state, find_mutation_pos};
use crate::tables::{add_edge, add_node, add_pop, EdgeRow, MutationRow, SiteRow, Tables};

verus! {

/// Why a run was refused before any simulation work began.
#[derive(Clone, Copy, PartialEq, Eq, Debug)]
pub enum SimError {
    /// The split time was not strictly before the start time.
    SplitTimeNotBeforeStartTime,
    /// The population size was odd.
    OddPopulationSize,
    /// The keep-intervals were not sorted and pairwise disjoint.
    BadKeepIntervals,
}

/// The truncated edges mirrored from the given full edges: for each full edge
/// in insertion order, one edge per clipped overlap of its span with the
/// keep-intervals, carrying the same parent and child node.
pub open spec fn edges_of_pieces(pieces: Seq<(usize, usize)>, parent: usize, child: usize) -> Seq<
    EdgeRow,
> {
    pieces.map_values(|p: (usize, usize)| EdgeRow { left: p.0, right: p.1, parent, child })
}

/// See `edges_of_pieces`: the whole truncated edge table determined by the
/// full edge table and the keep-intervals.
pub open spec fn clip_edges(edges: Seq<EdgeRow>, ivs: Seq<(usize, usize)>) -> Seq<EdgeRow>
    decreases edges.len(),
{
    if edges.len() == 0 {
        Seq::empty()
    } else {
        clip_edges(edges.drop_last(), ivs) + edges_of_pieces(
            clipped(edges.last().left, edges.last().right, ivs),
            edges.last().parent,
            edges.last().child,
        )
    }
}

/// With no keep-intervals the truncated edge table is empty.
pub proof fn lemma_clip_edges_empty(edges: Seq<EdgeRow>)
    ensures
        clip_edges(edges, Seq::empty()).len() == 0,
    decreases edges.len(),
{
    if edges.len() > 0 {
        lemma_clip_edges_empty(edges.drop_last());
    }
}

/// One keep-interval that covers every edge makes clipping a no-op: the
/// truncated edge table equals the full one.
pub proof fn lemma_clip_edges_identity(edges: Seq<EdgeRow>, lo: usize, hi: usize)
    requires
        forall|k: int|
            0 <= k < edges.len() ==> lo <= (#[trigger] edges[k]).left < edges[k].right <= hi,
    ensures
        clip_edges(edges, seq![(lo, hi)]) =~= edges,
    decreases edges.len(),
{
    if edges.len() > 0 {
        lemma_clip_edges_identity(edges.drop_last(), lo, hi);
        let e = edges.last();
        assert(e == edges[edges.len() - 1]);
        let ivs = seq![(lo, hi)];
        assert(ivs.last() == (lo, hi));
        assert(ivs.drop_last() =~= Seq::<(usize, usize)>::empty());
        assert(clipped(e.left, e.right, ivs.drop_last()) =~= Seq::<(usize, usize)>::empty());
        assert(crate::clip::seg_overlaps(e.left, e.right, (lo, hi)));
        assert(clipped(e.left, e.right, ivs) =~= seq![(e.left, e.right)]);
        assert(edges_of_pieces(seq![(e.left, e.right)], e.parent, e.child) =~= seq![e]);
    }
}

/// The edges one full-record edge contributes to the truncated record: there
/// is exactly one per keep-interval overlapping the edge's span, and each one
/// keeps the edge's parent and child and lies inside both the edge's span and
/// its keep-interval.
pub proof fn lemma_truncated_edges_of_edge(e: EdgeRow, ivs: Seq<(usize, usize)>)
    requires
        intervals_wf(ivs),
        e.left <= e.right,
    ensures
        edges_of_pieces(clipped(e.left, e.right, ivs), e.parent, e.child).len() == overlap_count(
            e.left,
            e.right,
            ivs,
        ),
        forall|k: int|
            0 <= k < clipped(e.left, e.right, ivs).len() ==> {
                let d = #[trigger] edges_of_pieces(clipped(e.left, e.right, ivs), e.parent, e.child)[k];
                &&& d.parent == e.parent
                &&& d.child == e.child
                &&& e.left <= d.left
                &&& d.left <= d.right
                &&& d.right <= e.right
                &&& crate::clip::piece_covered((d.left, d.right), e.left, e.right, ivs)
            },
{
    crate::clip::lemma_clipped_count(e.left, e.right, ivs);
    crate::clip::lemma_clipped_contained(e.left, e.right, ivs);
    let pieces = clipped(e.left, e.right, ivs);
    let derived = edges_of_pieces(pieces, e.parent, e.child);
    assert forall|k: int| 0 <= k < pieces.len() implies {
        let d = #[trigger] derived[k];
        &&& d.parent == e.parent
        &&& d.child == e.child
        &&& e.left <= d.left
        &&& d.left <= d.right
        &&& d.right <= e.right
        &&& crate::clip::piece_covered((d.left, d.right), e.left, e.right, ivs)
    } by {
        assert(derived[k] == (EdgeRow {
            left: pieces[k].0,
            right: pieces[k].1,
            parent: e.parent,
            child: e.child,
        }));
        assert((derived[k].left, derived[k].right) == pieces[k]);
    }
}

/// Every edge of the whole truncated edge table is ordered and lies inside
/// one of the keep-intervals.
pub proof fn lemma_clip_edges_covered(edges: Seq<EdgeRow>, ivs: Seq<(usize, usize)>)
    requires
        intervals_wf(ivs),
        forall|k: int| 0 <= k < edges.len() ==> (#[trigger] edges[k]).left <= edges[k].right,
    ensures
        forall|k: int|
            0 <= k < clip_edges(edges, ivs).len() ==> {
                let d = #[trigger] clip_edges(edges, ivs)[k];
                &&& d.left <= d.right
                &&& exists|j: int|
                    0 <= j < ivs.len() && (#[trigger] ivs[j]).0 <= d.left && d.right <= ivs[j].1
            },
    decreases edges.len(),
{
    if edges.len() > 0 {
        let prefix = edges.drop_last();
        assert(forall|k: int| 0 <= k < prefix.len() ==> (#[trigger] prefix[k]).left <= prefix[k].right);
        lemma_clip_edges_covered(prefix, ivs);
        let e = edges.last();
        assert(e == edges[edges.len() - 1]);
        lemma_truncated_edges_of_edge(e, ivs);
        let whole = clip_edges(edges, ivs);
        let before = clip_edges(prefix, ivs);
        let block = edges_of_pieces(clipped(e.left, e.right, ivs), e.parent, e.child);
        assert(whole == before + block);
        assert forall|k: int| 0 <= k < whole.len() implies {
            let d = #[trigger] whole[k];
            &&& d.left <= d.right
            &&& exists|j: int|
                0 <= j < ivs.len() && (#[trigger] ivs[j]).0 <= d.left && d.right <= ivs[j].1
        } by {
            if k < before.len() {
                assert(whole[k] == before[k]);
            } else {
                assert(whole[k] == block[k - before.len()]);
                let d = block[k - before.len()];
                assert(crate::clip::piece_covered((d.left, d.right), e.left, e.right, ivs));
                let j = choose|j: int|
                    0 <= j < ivs.len() && crate::clip::seg_overlaps(e.left, e.right, #[trigger] ivs[j])
                        && ivs[j].0 <= d.left && d.right <= ivs[j].1;
                assert(0 <= j < ivs.len() && ivs[j].0 <= d.left && d.right <= ivs[j].1);
            }
        }
    }
}

/// Does mutation `k` of `muts` sit at genomic position `p`, through the site
/// row it references?
pub open spec fn mut_at(muts: Seq<MutationRow>, sites: Seq<SiteRow>, k: int, p: usize) -> bool {
    muts[k].site < sites.len() && sites[muts[k].site as int].position == p
}

/// The number of mutations of `muts` at genomic position `p`.
pub open spec fn muts_at_count(muts: Seq<MutationRow>, sites: Seq<SiteRow>, p: usize) -> nat
    decreases muts.len(),
{
    if muts.len() == 0 {
        0
    } else {
        muts_at_count(muts.drop_last(), sites, p) + if mut_at(muts, sites, muts.len() - 1, p) {
            1nat
        } else {
            0nat
        }
    }
}

/// Appending a mutation raises the count at its site's position by one and
/// leaves every other position alone.
pub proof fn lemma_count_push(muts: Seq<MutationRow>, sites: Seq<SiteRow>, m: MutationRow, p: usize)
    ensures
        muts_at_count(muts.push(m), sites, p) == muts_at_count(muts, sites, p) + if m.site
            < sites.len() && sites[m.site as int].position == p {
            1nat
        } else {
            0nat
        },
{
    let pushed = muts.push(m);
    assert(pushed.drop_last() =~= muts);
    assert(pushed.last() == m);
}

/// Appending a site row does not change the count at any position, as long as
/// every mutation references an existing site row.
pub proof fn lemma_count_grow_sites(
    muts: Seq<MutationRow>,
    sites: Seq<SiteRow>,
    s: SiteRow,
    p: usize,
)
    requires
        forall|k: int| 0 <= k < muts.len() ==> (#[trigger] muts[k]).site < sites.len(),
    ensures
        muts_at_count(muts, sites.push(s), p) == muts_at_count(muts, sites, p),
    decreases muts.len(),
{
    if muts.len() > 0 {
        let pre = muts.drop_last();
        assert(forall|k: int| 0 <= k < pre.len() ==> (#[trigger] pre[k]).site < sites.len());
        lemma_count_grow_sites(pre, sites, s, p);
        let last = muts.len() - 1;
        assert(muts[last].site < sites.len());
        assert(sites.push(s)[muts[last].site as int] == sites[muts[last].site as int]);
    }
}

/// The count at one position never exceeds the number of mutations.
pub proof fn lemma_count_le_len(muts: Seq<MutationRow>, sites: Seq<SiteRow>, p: usize)
    ensures
        muts_at_count(muts, sites, p) <= muts.len(),
    decreases muts.len(),
{
    if muts.len() > 0 {
        lemma_count_le_len(muts.drop_last(), sites, p);
    }
}

/// Every mutation of the full record carries the allelic code determined by
/// the number of mutations placed at its position before it.
pub open spec fn derived_states_wf(muts: Seq<MutationRow>, sites: Seq<SiteRow>) -> bool {
    forall|k: int|
        0 <= k < muts.len() ==> (#[trigger] muts[k]).site < sites.len() && muts[k].derived_state
            == crate::sample::derived_state_of(
            muts_at_count(muts.take(k), sites, sites[muts[k].site as int].position),
        )
}

/// Appending a mutation whose allelic code was derived from the running count
/// at its position keeps every derived state consistent with its history.
proof fn lemma_push_derived_state(muts: Seq<MutationRow>, sites: Seq<SiteRow>, m: MutationRow)
    requires
        derived_states_wf(muts, sites),
        m.site < sites.len(),
        m.derived_state == crate::sample::derived_state_of(
            muts_at_count(muts, sites, sites[m.site as int].position),
        ),
    ensures
        derived_states_wf(muts.push(m), sites),
{
    let pushed = muts.push(m);
    assert forall|k: int| 0 <= k < pushed.len() implies (#[trigger] pushed[k]).site < sites.len()
        && pushed[k].derived_state == crate::sample::derived_state_of(
        muts_at_count(pushed.take(k), sites, sites[pushed[k].site as int].position),
    ) by {
        if k < muts.len() {
            assert(pushed[k] == muts[k]);
            assert(pushed.take(k) =~= muts.take(k));
        } else {
            assert(pushed[k] == m);
            assert(pushed.take(k) =~= muts);
        }
    }
}

/// Appending a site row leaves every prefix count unchanged, so the derived
/// states stay consistent.
proof fn lemma_derived_grow_sites(muts: Seq<MutationRow>, sites: Seq<SiteRow>, srow: SiteRow)
    requires
        derived_states_wf(muts, sites),
        forall|k: int| 0 <= k < muts.len() ==> (#[trigger] muts[k]).site < sites.len(),
    ensures
        derived_states_wf(muts, sites.push(srow)),
{
    let grown = sites.push(srow);
    assert forall|k: int| 0 <= k < muts.len() implies (#[trigger] muts[k]).site < grown.len()
        && muts[k].derived_state == crate::sample::derived_state_of(
        muts_at_count(muts.take(k), grown, grown[muts[k].site as int].position),
    ) by {
        let pre = muts.take(k);
        assert(forall|j: int| 0 <= j < pre.len() ==> (#[trigger] pre[j]).site < sites.len());
        assert(grown[muts[k].site as int] == sites[muts[k].site as int]);
        lemma_count_grow_sites(pre, sites, srow, sites[muts[k].site as int].position);
    }
}

/// The per-position mutation bookkeeping that the driver threads through one
/// run: the running mutation count, the last mutation identifier in each
/// record, and the lazily created site identifier in each record, all indexed
/// by tick position.
pub struct MutState {
    pub order: Vec<usize>,
    pub full_last: Vec<Option<usize>>,
    pub trunc_last: Vec<Option<usize>>,
    pub full_site: Vec<Option<usize>>,
    pub trunc_site: Vec<Option<usize>>,
}

/// The mutations of one record form singly linked recurrence chains: each
/// mutation's parent is exactly the previous mutation at the same site, or
/// absent when the mutation is the first one there.
pub open spec fn chain_wf(muts: Seq<MutationRow>) -> bool {
    forall|k: int|
        0 <= k < muts.len() ==> match (#[trigger] muts[k]).parent {
            Some(l) => l < k && muts[l as int].site == muts[k].site && (forall|j: int|
                l < j < k ==> (#[trigger] muts[j]).site != muts[k].site),
            None => forall|j: int| 0 <= j < k ==> (#[trigger] muts[j]).site != muts[k].site,
        }
}

/// The per-position last-mutation map of one record is exact: it holds the
/// index of the latest mutation at each position, or nothing where no
/// mutation has been placed yet.
pub open spec fn last_wf(
    muts: Seq<MutationRow>,
    sites: Seq<SiteRow>,
    lmap: Seq<Option<usize>>,
    seqlen: usize,
) -> bool {
    &&& lmap.len() == seqlen
    &&& forall|p: usize|
        p < seqlen ==> match #[trigger] lmap[p as int] {
            Some(k) => k < muts.len() && mut_at(muts, sites, k as int, p) && (forall|j: int|
                k < j < muts.len() ==> !(#[trigger] mut_at(muts, sites, j, p))),
            None => forall|j: int| 0 <= j < muts.len() ==> !(#[trigger] mut_at(muts, sites, j, p)),
        }
}

/// Appending a site row changes no mutation's position, so an exact
/// last-mutation map stays exact.
proof fn lemma_last_wf_grow_sites(
    muts: Seq<MutationRow>,
    sites: Seq<SiteRow>,
    s: SiteRow,
    lmap: Seq<Option<usize>>,
    seqlen: usize,
)
    requires
        last_wf(muts, sites, lmap, seqlen),
        forall|k: int| 0 <= k < muts.len() ==> (#[trigger] muts[k]).site < sites.len(),
    ensures
        last_wf(muts, sites.push(s), lmap, seqlen),
{
    assert forall|j: int, p: usize|
        0 <= j < muts.len() implies (mut_at(muts, sites.push(s), j, p) == mut_at(
        muts,
        sites,
        j,
        p,
    )) by {
        assert(muts[j].site < sites.len());
        assert(sites.push(s)[muts[j].site as int] == sites[muts[j].site as int]);
    }
    assert forall|p: usize| p < seqlen implies match #[trigger] lmap[p as int] {
        Some(k) => k < muts.len() && mut_at(muts, sites.push(s), k as int, p) && (forall|j: int|
            k < j < muts.len() ==> !(#[trigger] mut_at(muts, sites.push(s), j, p))),
        None => forall|j: int|
            0 <= j < muts.len() ==> !(#[trigger] mut_at(muts, sites.push(s), j, p)),
    } by {
        match lmap[p as int] {
            Some(k) => {
                assert(mut_at(muts, sites, k as int, p));
                assert forall|j: int| k < j < muts.len() implies !(#[trigger] mut_at(
                    muts,
                    sites.push(s),
                    j,
                    p,
                )) by {
                    assert(!mut_at(muts, sites, j, p));
                }
            },
            None => {
                assert forall|j: int| 0 <= j < muts.len() implies !(#[trigger] mut_at(
                    muts,
                    sites.push(s),
                    j,
                    p,
                )) by {
                    assert(!mut_at(muts, sites, j, p));
                }
            },
        }
    }
}

/// Appending a mutation whose parent is taken from an exact last-mutation map
/// keeps the record's recurrence chains linked, and the map updated with the
/// new mutation stays exact.
proof fn lemma_push_chained_mutation(
    muts: Seq<MutationRow>,
    sites: Seq<SiteRow>,
    smap: Seq<Option<usize>>,
    lmap: Seq<Option<usize>>,
    m: MutationRow,
    seqlen: usize,
)
    requires
        chain_wf(muts),
        last_wf(muts, sites, lmap, seqlen),
        sites_wf(sites, smap, seqlen),
        muts.len() <= usize::MAX,
        forall|k: int| 0 <= k < muts.len() ==> (#[trigger] muts[k]).site < sites.len(),
        m.site < sites.len(),
        m.parent == lmap[sites[m.site as int].position as int],
    ensures
        chain_wf(muts.push(m)),
        last_wf(
            muts.push(m),
            sites,
            lmap.update(sites[m.site as int].position as int, Some(muts.len() as usize)),
            seqlen,
        ),
{
    let pos = sites[m.site as int].position;
    let pushed = muts.push(m);
    let newlen = muts.len() as int;
    assert(smap[pos as int] == Some(m.site));

    // A mutation sits at `pos` exactly when it references the same site row,
    // because the site map registers one row per position.
    assert forall|j: int| 0 <= j < muts.len() implies (mut_at(muts, sites, j, pos) <==> muts[j].site
        == m.site) by {
        if muts[j].site == m.site {
            assert(mut_at(muts, sites, j, pos));
        }
        if mut_at(muts, sites, j, pos) {
            assert(smap[sites[muts[j].site as int].position as int] == Some(muts[j].site));
        }
    }

    assert forall|k: int| 0 <= k < pushed.len() implies match (#[trigger] pushed[k]).parent {
        Some(l) => l < k && pushed[l as int].site == pushed[k].site && (forall|j: int|
            l < j < k ==> (#[trigger] pushed[j]).site != pushed[k].site),
        None => forall|j: int| 0 <= j < k ==> (#[trigger] pushed[j]).site != pushed[k].site,
    } by {
        if k < newlen {
            assert(pushed[k] == muts[k]);
            match muts[k].parent {
                Some(l) => {
                    assert(pushed[l as int] == muts[l as int]);
                    assert forall|j: int| l < j < k implies (#[trigger] pushed[j]).site
                        != pushed[k].site by {
                        assert(pushed[j] == muts[j]);
                    }
                },
                None => {
                    assert forall|j: int| 0 <= j < k implies (#[trigger] pushed[j]).site
                        != pushed[k].site by {
                        assert(pushed[j] == muts[j]);
                    }
                },
            }
        } else {
            assert(pushed[k] == m);
            match lmap[pos as int] {
                Some(l) => {
                    assert(mut_at(muts, sites, l as int, pos));
                    assert(muts[l as int].site == m.site);
                    assert forall|j: int| l < j < k implies (#[trigger] pushed[j]).site != m.site by {
                        assert(pushed[j] == muts[j]);
                        assert(!mut_at(muts, sites, j, pos));
                    }
                },
                None => {
                    assert forall|j: int| 0 <= j < k implies (#[trigger] pushed[j]).site
                        != m.site by {
                        assert(pushed[j] == muts[j]);
                        assert(!mut_at(muts, sites, j, pos));
                    }
                },
            }
        }
    }

    let lmap2 = lmap.update(pos as int, Some(muts.len() as usize));
    assert forall|p: usize| p < seqlen implies match #[trigger] lmap2[p as int] {
        Some(kk) => kk < pushed.len() && mut_at(pushed, sites, kk as int, p) && (forall|j: int|
            kk < j < pushed.len() ==> !(#[trigger] mut_at(pushed, sites, j, p))),
        None => forall|j: int| 0 <= j < pushed.len() ==> !(#[trigger] mut_at(pushed, sites, j, p)),
    } by {
        if p == pos {
            assert(lmap2[p as int] == Some(muts.len() as usize));
            assert(pushed[newlen] == m);
            assert(mut_at(pushed, sites, newlen, pos));
            assert forall|j: int| newlen < j < pushed.len() implies !(#[trigger] mut_at(
                pushed,
                sites,
                j,
                p,
            )) by {}
        } else {
            assert(lmap2[p as int] == lmap[p as int]);
            assert(pushed[newlen] == m);
            assert(sites[m.site as int].position != p);
            assert(!mut_at(pushed, sites, newlen, p));
            match lmap[p as int] {
                Some(kk) => {
                    assert(mut_at(muts, sites, kk as int, p));
                    assert(pushed[kk as int] == muts[kk as int]);
                    assert(mut_at(pushed, sites, kk as int, p));
                    assert forall|j: int| kk < j < pushed.len() implies !(#[trigger] mut_at(
                        pushed,
                        sites,
                        j,
                        p,
                    )) by {
                        if j < newlen {
                            assert(pushed[j] == muts[j]);
                            assert(!mut_at(muts, sites, j, p));
                        }
                    }
                },
                None => {
                    assert forall|j: int| 0 <= j < pushed.len() implies !(#[trigger] mut_at(
                        pushed,
                        sites,
                        j,
                        p,
                    )) by {
                        if j < newlen {
                            assert(pushed[j] == muts[j]);
                            assert(!mut_at(muts, sites, j, p));
                        }
                    }
                },
            }
        }
    }
}

/// The site table and the per-position site-identifier map of one record
/// agree: every site row is registered under its position, and every
/// registered identifier points back at a site row with that position.
pub open spec fn sites_wf(sites: Seq<SiteRow>, smap: Seq<Option<usize>>, seqlen: usize) -> bool {
    &&& smap.len() == seqlen
    &&& forall|j: int|
        0 <= j < sites.len() ==> (#[trigger] sites[j]).position < seqlen && smap[sites[j].position as int]
            == Some(j as usize)
    &&& forall|p: int|
        0 <= p < seqlen ==> match #[trigger] smap[p] {
            Some(s) => s < sites.len() && sites[s as int].position == p,
            None => true,
        }
}

/// Both records list the same individuals and nodes, and populations of the
/// same names, in the same order.
pub open spec fn mirrored(full: Tables, trunc: Tables) -> bool {
    &&& trunc.individuals@ == full.individuals@
    &&& trunc.nodes@ == full.nodes@
    &&& trunc.populations@.len() == full.populations@.len()
    &&& forall|i: int|
        0 <= i < full.populations@.len() ==> (#[trigger] trunc.populations@[i])@
            == full.populations@[i]@
}

/// Internal validity of one record: every row reference points at an existing
/// row, every edge span lies inside the genome, and every edge's parent node
/// is exactly one generation older than its child node.
pub open spec fn record_wf(t: Tables, seqlen: usize) -> bool {
    &&& forall|j: int|
        0 <= j < t.nodes@.len() ==> (#[trigger] t.nodes@[j]).population < t.populations@.len()
            && t.nodes@[j].individual < t.individuals@.len()
    &&& forall|k: int|
        0 <= k < t.edges@.len() ==> {
            let e = #[trigger] t.edges@[k];
            &&& e.left <= e.right <= seqlen
            &&& e.parent < t.nodes@.len()
            &&& e.child < t.nodes@.len()
            &&& t.nodes@[e.parent as int].time == t.nodes@[e.child as int].time + 1
        }
    &&& forall|k: int|
        0 <= k < t.mutations@.len() ==> (#[trigger] t.mutations@[k]).site < t.sites@.len()
            && t.mutations@[k].node < t.nodes@.len()
    &&& forall|j: int| 0 <= j < t.sites@.len() ==> (#[trigger] t.sites@[j]).position < seqlen
}

/// Every full-record edge covers a non-empty span.
pub open spec fn edges_strict(t: Tables) -> bool {
    forall|k: int| 0 <= k < t.edges@.len() ==> (#[trigger] t.edges@[k]).left < t.edges@[k].right
}

/// A node is flagged as a sample exactly when it belongs to the final
/// generation at time zero.
pub open spec fn samples_wf(t: Tables) -> bool {
    forall|j: int| 0 <= j < t.nodes@.len() ==> ((#[trigger] t.nodes@[j]).is_sample <==> t.nodes@[j].time == 0)
}

/// The mutation bookkeeping agrees with both records: registered site maps,
/// running counts equal to the full record's per-position mutation counts,
/// and the truncated record never ahead of the full one anywhere.
pub open spec fn mut_state_wf(st: MutState, full: Tables, trunc: Tables, seqlen: usize) -> bool {
    &&& st.order@.len() == seqlen
    &&& last_wf(full.mutations@, full.sites@, st.full_last@, seqlen)
    &&& last_wf(trunc.mutations@, trunc.sites@, st.trunc_last@, seqlen)
    &&& chain_wf(full.mutations@)
    &&& chain_wf(trunc.mutations@)
    &&& derived_states_wf(full.mutations@, full.sites@)
    &&& sites_wf(full.sites@, st.full_site@, seqlen)
    &&& sites_wf(trunc.sites@, st.trunc_site@, seqlen)
    &&& forall|p: int|
        0 <= p < seqlen ==> (#[trigger] st.order@[p]) == muts_at_count(
            full.mutations@,
            full.sites@,
            p as usize,
        )
    &&& forall|p: usize|
        p < seqlen ==> muts_at_count(trunc.mutations@, trunc.sites@, p) <= muts_at_count(
            full.mutations@,
            full.sites@,
            p,
        )
    &&& forall|p: int|
        0 <= p < seqlen ==> ((#[trigger] st.trunc_site@[p]) is Some ==> st.full_site@[p] is Some)
}

/// Everything the generation loop keeps true of the pair of records and the
/// mutation bookkeeping between any two insertions.
pub open spec fn sim_inv(
    full: Tables,
    trunc: Tables,
    st: MutState,
    ivs: Seq<(usize, usize)>,
    seqlen: usize,
) -> bool {
    &&& mirrored(full, trunc)
    &&& full.populations@.len() == 3
    &&& record_wf(full, seqlen)
    &&& record_wf(trunc, seqlen)
    &&& edges_strict(full)
    &&& samples_wf(full)
    &&& trunc.edges@ == clip_edges(full.edges@, ivs)
    &&& mut_state_wf(st, full, trunc, seqlen)
    &&& (ivs.len() == 0 ==> trunc.sites@.len() == 0 && trunc.mutations@.len() == 0)
}

/// Insert one parent-to-child sub-segment into both records.  The full
/// record gets the edge `[s, e)` and, with probability `(e - s)/100` capped
/// at one, a single mutation at a uniformly drawn position inside the
/// segment, creating the site lazily and chaining to the prior mutation
/// there.  The truncated record gets one edge per clipped overlap of the
/// segment with the keep-intervals and mirrors the mutation only when its
/// position falls inside one of those pieces; the pieces are pairwise
/// disjoint, so at most one of them can contain the position.
#[verifier::rlimit(80)]
fn add_segment(
    full: &mut Tables,
    trunc: &mut Tables,
    st: &mut MutState,
    rng: &mut rand::rngs::StdRng,
    intervals: &Vec<(usize, usize)>,
    buffer: &mut Vec<(usize, usize)>,
    seqlen: usize,
    s: usize,
    e: usize,
    p_node: usize,
    c_node: usize,
    t: usize,
)
    requires
        intervals_wf(intervals@),
        sim_inv(*old(full), *old(trunc), *old(st), intervals@, seqlen),
        s < e,
        e <= seqlen,
        p_node < old(full).nodes@.len(),
        c_node < old(full).nodes@.len(),
        old(full).nodes@[p_node as int].time == old(full).nodes@[c_node as int].time + 1,
    ensures
        sim_inv(*final(full), *final(trunc), *final(st), intervals@, seqlen),
        final(full).edges@ == old(full).edges@.push(
            (EdgeRow { left: s, right: e, parent: p_node, child: c_node }),
        ),
        final(full).populations == old(full).populations,
        final(full).individuals == old(full).individuals,
        final(full).nodes == old(full).nodes,
        final(trunc).populations == old(trunc).populations,
        final(trunc).individuals == old(trunc).individuals,
        final(trunc).nodes == old(trunc).nodes,
{
    let ghost full0 = *old(full);
    let ghost trunc0 = *old(trunc);
    add_edge(full, s, e, p_node, c_node);
    let ghost new_edge = EdgeRow { left: s, right: e, parent: p_node, child: c_node };

    // Full-record mutation step.
    let mut_pos = find_mutation_pos(rng, s, e);
    let seg_len = e - s;
    let numer: u32 = if seg_len >= 100 {
        100
    } else {
        seg_len as u32
    };
    let to_add_mut = rng_ratio(rng, numer, 100);
    let derived_state = calc_derived_state(&st.order, mut_pos);
    if to_add_mut {
        let ghost sites_before = full.sites@;
        let site: usize = match st.full_site[mut_pos] {
            Some(sid) => sid,
            None => {
                let sid = full.add_site(mut_pos, 97);
                st.full_site.set(mut_pos, Some(sid));
                proof {
                    let row = SiteRow { position: mut_pos, ancestral_state: 97 };
                    assert(full.sites@ =~= sites_before.push(row));
                    // A fresh site row changes no mutation count.
                    assert forall|p: usize| p < seqlen implies muts_at_count(
                        full.mutations@,
                        full.sites@,
                        p,
                    ) == muts_at_count(full.mutations@, sites_before, p) by {
                        lemma_count_grow_sites(full.mutations@, sites_before, row, p);
                    }
                    lemma_last_wf_grow_sites(
                        full.mutations@,
                        sites_before,
                        row,
                        st.full_last@,
                        seqlen,
                    );
                    lemma_derived_grow_sites(full.mutations@, sites_before, row);
                    // The new row is registered under its position and every
                    // old registration still points at the same row.
                    assert(sites_wf(full.sites@, st.full_site@, seqlen));
                }
                sid
            },
        };
        let ghost muts_before = full.mutations@;
        let ghost lmap_before = st.full_last@;
        let parent_mut = st.full_last[mut_pos];
        let new_mut = full.add_mutation(site, c_node, parent_mut, t, derived_state);
        st.full_last.set(mut_pos, Some(new_mut));
        let cnt = st.order[mut_pos];
        let nmuts = full.mutations.len();
        proof {
            lemma_count_le_len(muts_before, full.sites@, mut_pos);
            assert(cnt < nmuts);
        }
        st.order.set(mut_pos, cnt + 1);
        proof {
            let m = MutationRow {
                site,
                node: c_node,
                parent: parent_mut,
                time: t,
                derived_state,
            };
            assert(full.mutations@ =~= muts_before.push(m));
            assert(full.sites@[site as int].position == mut_pos);
            lemma_push_chained_mutation(
                muts_before,
                full.sites@,
                st.full_site@,
                lmap_before,
                m,
                seqlen,
            );
            assert(m.derived_state == crate::sample::derived_state_of(
                muts_at_count(muts_before, full.sites@, mut_pos),
            ));
            lemma_push_derived_state(muts_before, full.sites@, m);
            assert(st.full_last@ =~= lmap_before.update(mut_pos as int, Some(new_mut)));
            assert(last_wf(full.mutations@, full.sites@, st.full_last@, seqlen));
            assert forall|p: usize| p < seqlen implies muts_at_count(
                full.mutations@,
                full.sites@,
                p,
            ) == muts_at_count(muts_before, full.sites@, p) + (if p == mut_pos {
                1nat
            } else {
                0nat
            }) by {
                lemma_count_push(muts_before, full.sites@, m, p);
            }
        }
    }

    // Truncated-record edges, one per clipped piece.
    find_overlaps(s, e, intervals, buffer);
    proof {
        crate::clip::lemma_clipped_contained(s, e, intervals@);
    }
    let ghost trunc_edges_base = trunc.edges@;
    proof {
        // The truncated edge table is untouched so far; it still mirrors the
        // full edge table as it stood on entry.
        assert(trunc_edges_base == trunc0.edges@);
        assert(trunc_edges_base == clip_edges(full0.edges@, intervals@));
    }
    let npieces = buffer.len();
    let mut k: usize = 0;
    while k < npieces
        invariant
            k <= npieces,
            npieces == buffer@.len(),
            buffer@ == clipped(s, e, intervals@),
            intervals_wf(intervals@),
            s < e,
            e <= seqlen,
            trunc.edges@ == trunc_edges_base + edges_of_pieces(buffer@.take(k as int), p_node, c_node),
            trunc.populations == old(trunc).populations,
            trunc.individuals == old(trunc).individuals,
            trunc.nodes == old(trunc).nodes,
            trunc.sites == old(trunc).sites,
            trunc.mutations == old(trunc).mutations,
            p_node < trunc.nodes@.len(),
            c_node < trunc.nodes@.len(),
            trunc.nodes@[p_node as int].time == trunc.nodes@[c_node as int].time + 1,
            record_wf(*trunc, seqlen),
        decreases npieces - k,
    {
        let (ps, pe) = buffer[k];
        proof {
            crate::clip::lemma_clipped_contained(s, e, intervals@);
            assert(buffer@[k as int] == clipped(s, e, intervals@)[k as int]);
            assert(ps <= pe <= e);
        }
        add_edge(trunc, ps, pe, p_node, c_node);
        proof {
            let pre = buffer@.take(k as int);
            let post = buffer@.take(k + 1);
            assert(post.drop_last() =~= pre);
            assert(post.last() == buffer@[k as int]);
            assert(edges_of_pieces(post, p_node, c_node) =~= edges_of_pieces(pre, p_node, c_node)
                .push((EdgeRow { left: ps, right: pe, parent: p_node, child: c_node })));
            assert(trunc.edges@ =~= trunc_edges_base + edges_of_pieces(post, p_node, c_node));
        }
        k = k + 1;
    }
    proof {
        assert(buffer@.take(npieces as int) =~= buffer@);
        assert(full.edges@.drop_last() =~= full0.edges@);
        assert(full.edges@.last() == new_edge);
        assert(trunc.edges@ =~= clip_edges(full.edges@, intervals@));
    }

    // Truncated-record mutation step: mirror the mutation if its position
    // falls inside one of the clipped pieces.
    if to_add_mut {
        let mut hit = false;
        let mut k2: usize = 0;
        while k2 < npieces
            invariant
                k2 <= npieces,
                npieces == buffer@.len(),
                hit == exists|j: int|
                    0 <= j < k2 && (#[trigger] buffer@[j]).0 <= mut_pos < buffer@[j].1,
            decreases npieces - k2,
        {
            let (ps, pe) = buffer[k2];
            if ps <= mut_pos && mut_pos < pe {
                hit = true;
            }
            proof {
                if ps <= mut_pos < pe {
                    assert((#[trigger] buffer@[k2 as int]).0 <= mut_pos < buffer@[k2 as int].1);
                    assert(hit == exists|j: int|
                        0 <= j < k2 + 1 && (#[trigger] buffer@[j]).0 <= mut_pos < buffer@[j].1);
                } else {
                    assert forall|j: int| 0 <= j < k2 + 1 && (#[trigger] buffer@[j]).0 <= mut_pos
                        < buffer@[j].1 implies j < k2 by {}
                }
            }
            k2 = k2 + 1;
        }
        if hit {
            let ghost tsites_before = trunc.sites@;
            let tsite: usize = match st.trunc_site[mut_pos] {
                Some(sid) => sid,
                None => {
                    let sid = trunc.add_site(mut_pos, 97);
                    st.trunc_site.set(mut_pos, Some(sid));
                    proof {
                        let row = SiteRow { position: mut_pos, ancestral_state: 97 };
                        assert(trunc.sites@ =~= tsites_before.push(row));
                        assert forall|p: usize| p < seqlen implies muts_at_count(
                            trunc.mutations@,
                            trunc.sites@,
                            p,
                        ) == muts_at_count(trunc.mutations@, tsites_before, p) by {
                            lemma_count_grow_sites(trunc.mutations@, tsites_before, row, p);
                        }
                        lemma_last_wf_grow_sites(
                            trunc.mutations@,
                            tsites_before,
                            row,
                            st.trunc_last@,
                            seqlen,
                        );
                        assert(sites_wf(trunc.sites@, st.trunc_site@, seqlen));
                    }
                    sid
                },
            };
            let ghost tmuts_before = trunc.mutations@;
            let ghost tlmap_before = st.trunc_last@;
            let tparent = st.trunc_last[mut_pos];
            let new_tmut = trunc.add_mutation(tsite, c_node, tparent, t, derived_state);
            st.trunc_last.set(mut_pos, Some(new_tmut));
            proof {
                let m = MutationRow {
                    site: tsite,
                    node: c_node,
                    parent: tparent,
                    time: t,
                    derived_state,
                };
                assert(trunc.mutations@ =~= tmuts_before.push(m));
                assert(trunc.sites@[tsite as int].position == mut_pos);
                lemma_push_chained_mutation(
                    tmuts_before,
                    trunc.sites@,
                    st.trunc_site@,
                    tlmap_before,
                    m,
                    seqlen,
                );
                assert(st.trunc_last@ =~= tlmap_before.update(mut_pos as int, Some(new_tmut)));
                assert(last_wf(trunc.mutations@, trunc.sites@, st.trunc_last@, seqlen));
                assert forall|p: usize| p < seqlen implies muts_at_count(
                    trunc.mutations@,
                    trunc.sites@,
                    p,
                ) == muts_at_count(tmuts_before, trunc.sites@, p) + (if p == mut_pos {
                    1nat
                } else {
                    0nat
                }) by {
                    lemma_count_push(tmuts_before, trunc.sites@, m, p);
                }
            }
        }
    }
    proof {
        assert(mirrored(*full, *trunc));
        assert(record_wf(*full, seqlen));
        assert(record_wf(*trunc, seqlen));
        assert(edges_strict(*full));
        assert(samples_wf(*full));
        assert(sites_wf(full.sites@, st.full_site@, seqlen));
        assert(sites_wf(trunc.sites@, st.trunc_site@, seqlen));
        assert forall|p: int| 0 <= p < seqlen implies (#[trigger] st.order@[p]) == muts_at_count(
            full.mutations@,
            full.sites@,
            p as usize,
        ) by {}
        assert forall|p: usize| p < seqlen implies muts_at_count(
            trunc.mutations@,
            trunc.sites@,
            p,
        ) <= muts_at_count(full.mutations@, full.sites@, p) by {}
        assert forall|p: int| 0 <= p < seqlen implies ((#[trigger] st.trunc_site@[p]) is Some
            ==> st.full_site@[p] is Some) by {}
        assert(mut_state_wf(*st, *full, *trunc, seqlen));
        assert(sim_inv(*full, *trunc, *st, intervals@, seqlen));
    }
}

/// Every chromosome pair of a parent pool names two existing nodes of the
/// given generation time.
pub open spec fn pool_wf(pool: Seq<(usize, usize)>, t: Tables, time: int) -> bool {
    forall|i: int|
        0 <= i < pool.len() ==> {
            let pair = #[trigger] pool[i];
            &&& pair.0 < t.nodes@.len()
            &&& pair.1 < t.nodes@.len()
            &&& t.nodes@[pair.0 as int].time == time
            &&& t.nodes@[pair.1 as int].time == time
        }
}

/// The population of offspring `i` born at generation time `t`: one of the
/// two descendant populations while `t` lies strictly after the split time,
/// the ancestral population otherwise.
pub open spec fn offspring_pop(t: usize, split_time: usize, i: usize, pop_size: usize) -> usize {
    if t > split_time {
        if i < pop_size / 2 {
            1
        } else {
            2
        }
    } else {
        0
    }
}

/// Create offspring `i` of the generation at time `t` in both records: two
/// recombination breakpoints, two independently selected parent pairs, one
/// mirrored individual, two mirrored nodes, and the four parent-to-child
/// sub-segments with their edges and mutations.
fn spawn_offspring(
    full: &mut Tables,
    trunc: &mut Tables,
    st: &mut MutState,
    rng: &mut rand::rngs::StdRng,
    intervals: &Vec<(usize, usize)>,
    buffer: &mut Vec<(usize, usize)>,
    parents: &Vec<(usize, usize)>,
    seqlen: usize,
    pop_size: usize,
    split_time: usize,
    t: usize,
    i: usize,
) -> (child: (usize, usize))
    requires
        intervals_wf(intervals@),
        sim_inv(*old(full), *old(trunc), *old(st), intervals@, seqlen),
        seqlen >= 2,
        parents@.len() >= 2,
        parents@.len() % 2 == 0,
        pool_wf(parents@, *old(full), t + 1),
    ensures
        sim_inv(*final(full), *final(trunc), *final(st), intervals@, seqlen),
        final(full).individuals@.len() == old(full).individuals@.len() + 1,
        final(full).nodes@.len() == old(full).nodes@.len() + 2,
        final(full).edges@.len() == old(full).edges@.len() + 4,
        child.0 == old(full).nodes@.len(),
        child.1 == old(full).nodes@.len() + 1,
        forall|j: int|
            0 <= j < old(full).nodes@.len() ==> final(full).nodes@[j] == old(full).nodes@[j],
        final(full).nodes@[child.0 as int].time == t,
        final(full).nodes@[child.1 as int].time == t,
        final(full).nodes@[child.0 as int].population == offspring_pop(t, split_time, i, pop_size),
        final(full).nodes@[child.1 as int].population == offspring_pop(t, split_time, i, pop_size),
        final(full).populations == old(full).populations,
        final(trunc).populations == old(trunc).populations,
{
    let breakpoint1 = crate::sample::find_breakpoint(rng, seqlen);
    let breakpoint2 = crate::sample::find_breakpoint(rng, seqlen);

    let mut child_pop: usize = 0;
    if t > split_time {
        child_pop = if i < pop_size / 2 {
            1
        } else {
            2
        };
    }

    let (parent1, _parent1_pop) = crate::sample::find_parent(rng, parents, child_pop);
    let (parent2, _parent2_pop) = crate::sample::find_parent(rng, parents, child_pop);
    proof {
        let i1 = choose|j: int| 0 <= j < parents@.len() && parent1 == parents@[j];
        let i2 = choose|j: int| 0 <= j < parents@.len() && parent2 == parents@[j];
        assert(pool_wf(parents@, *full, t + 1));
        assert(parents@[i1] == parent1 && parents@[i2] == parent2);
    }

    let child_ind = crate::tables::add_ind(full, parent1, parent2);
    crate::tables::add_ind(trunc, parent1, parent2);
    proof {
        assert(trunc.individuals@ =~= full.individuals@);
    }

    let is_sample = t == 0;
    let c0 = crate::tables::add_node(full, is_sample, t, child_pop, child_ind);
    let c1 = crate::tables::add_node(full, is_sample, t, child_pop, child_ind);
    crate::tables::add_node(trunc, is_sample, t, child_pop, child_ind);
    crate::tables::add_node(trunc, is_sample, t, child_pop, child_ind);
    proof {
        assert(trunc.nodes@ =~= full.nodes@);
        assert(sim_inv(*full, *trunc, *st, intervals@, seqlen));
    }

    add_segment(full, trunc, st, rng, intervals, buffer, seqlen, 0, breakpoint1, parent1.0, c0, t);
    add_segment(
        full,
        trunc,
        st,
        rng,
        intervals,
        buffer,
        seqlen,
        breakpoint1,
        seqlen,
        parent1.1,
        c0,
        t,
    );
    add_segment(full, trunc, st, rng, intervals, buffer, seqlen, 0, breakpoint2, parent2.0, c1, t);
    add_segment(
        full,
        trunc,
        st,
        rng,
        intervals,
        buffer,
        seqlen,
        breakpoint2,
        seqlen,
        parent2.1,
        c1,
        t,
    );
    (c0, c1)
}

/// A position carried by no site row has no mutations.
pub proof fn lemma_count_zero_when_absent(muts: Seq<MutationRow>, sites: Seq<SiteRow>, p: usize)
    requires
        forall|j: int| 0 <= j < sites.len() ==> (#[trigger] sites[j]).position != p,
    ensures
        muts_at_count(muts, sites, p) == 0,
    decreases muts.len(),
{
    if muts.len() > 0 {
        lemma_count_zero_when_absent(muts.drop_last(), sites, p);
    }
}

/// The record carries the three populations of the model, in creation order.
pub open spec fn pops_named(t: Tables) -> bool {
    &&& t.populations@.len() == 3
    &&& t.populations@[0]@ == "ancestor"@
    &&& t.populations@[1]@ == "pop1"@
    &&& t.populations@[2]@ == "pop2"@
}

/// Does the record hold a site row at position `p`?
pub open spec fn has_site_at(t: Tables, p: usize) -> bool {
    exists|i: int| 0 <= i < t.sites@.len() && (#[trigger] t.sites@[i]).position == p
}

/// What holds of the two records a successful run returns.
pub open spec fn sim_output_ok(
    full: Tables,
    trunc: Tables,
    seqlen: usize,
    pop_size: usize,
    start_time: usize,
    intervals: Seq<(usize, usize)>,
) -> bool {
    &&& mirrored(full, trunc)
    &&& pops_named(full)
    &&& record_wf(full, seqlen)
    &&& record_wf(trunc, seqlen)
    &&& edges_strict(full)
    &&& samples_wf(full)
    &&& samples_wf(trunc)
    &&& full.individuals@.len() == pop_size * (start_time + 1)
    &&& full.nodes@.len() == 2 * pop_size * (start_time + 1)
    &&& full.edges@.len() == 4 * pop_size * start_time
    &&& trunc.edges@ == clip_edges(full.edges@, intervals)
    &&& chain_wf(full.mutations@)
    &&& chain_wf(trunc.mutations@)
    &&& derived_states_wf(full.mutations@, full.sites@)
    &&& forall|p: usize|
        muts_at_count(trunc.mutations@, trunc.sites@, p) <= muts_at_count(
            full.mutations@,
            full.sites@,
            p,
        )
    &&& forall|j: int|
        0 <= j < trunc.sites@.len() ==> has_site_at(full, (#[trigger] trunc.sites@[j]).position)
    &&& (intervals.len() == 0 ==> trunc.edges@.len() == 0 && trunc.sites@.len() == 0
        && trunc.mutations@.len() == 0)
}

/// A vector of `n` zeros.
fn zeros(n: usize) -> (v: Vec<usize>)
    ensures
        v@.len() == n,
        forall|i: int| 0 <= i < n ==> v@[i] == 0usize,
{
    let mut v: Vec<usize> = Vec::new();
    let mut k: usize = 0;
    while k < n
        invariant
            k <= n,
            v@.len() == k,
            forall|i: int| 0 <= i < k ==> v@[i] == 0usize,
        decreases n - k,
    {
        v.push(0);
        k = k + 1;
    }
    v
}

/// A vector of `n` empty identifier slots.
fn none_ids(n: usize) -> (v: Vec<Option<usize>>)
    ensures
        v@.len() == n,
        forall|i: int| 0 <= i < n ==> v@[i] is None,
{
    let mut v: Vec<Option<usize>> = Vec::new();
    let mut k: usize = 0;
    while k < n
        invariant
            k <= n,
            v@.len() == k,
            forall|i: int| 0 <= i < k ==> v@[i] is None,
        decreases n - k,
    {
        v.push(None);
        k = k + 1;
    }
    v
}

/// Run the whole simulation: build the full and the truncated ancestry
/// record of a two-population diploid history of `pop_size` individuals over
/// `start_time` generations on a genome of `seqlen` ticks, restricted to the
/// given keep-intervals in the truncated record, from the given seed.
///
/// The run is refused up front when the split time does not lie strictly
/// before the start time, when the population size is odd, or when the
/// keep-intervals are not sorted and pairwise disjoint; otherwise it returns
/// the pair of records, full one first.
pub fn simulate_two_records(
    seqlen: usize,
    pop_size: usize,
    start_time: usize,
    split_time: usize,
    intervals: &Vec<(usize, usize)>,
    seed: u64,
) -> (r: Result<(Tables, Tables), SimError>)
    requires
        pop_size > 0 ==> seqlen >= 2,
    ensures
        !(split_time < start_time) ==> (r matches Err(err) && err
            == SimError::SplitTimeNotBeforeStartTime),
        split_time < start_time && pop_size % 2 != 0 ==> (r matches Err(err) && err
            == SimError::OddPopulationSize),
        split_time < start_time && pop_size % 2 == 0 && !intervals_wf(intervals@) ==> (r matches
            Err(err) && err == SimError::BadKeepIntervals),
        split_time < start_time && pop_size % 2 == 0 && intervals_wf(intervals@) ==> (r matches Ok(
            pair,
        ) && sim_output_ok(pair.0, pair.1, seqlen, pop_size, start_time, intervals@)),
{
    if !(split_time < start_time) {
        return Err(SimError::SplitTimeNotBeforeStartTime);
    }
    if pop_size % 2 != 0 {
        return Err(SimError::OddPopulationSize);
    }
    if !crate::clip::intervals_sorted_disjoint(intervals) {
        return Err(SimError::BadKeepIntervals);
    }

    let mut rng = crate::entropy::rng_from_seed(seed);
    let mut full = Tables::new();
    let mut trunc = Tables::new();
    let mut buffer: Vec<(usize, usize)> = Vec::new();

    add_pop(&mut full, "ancestor");
    add_pop(&mut full, "pop1");
    add_pop(&mut full, "pop2");
    add_pop(&mut trunc, "ancestor");
    add_pop(&mut trunc, "pop1");
    add_pop(&mut trunc, "pop2");

    let mut st = MutState {
        order: zeros(seqlen),
        full_last: none_ids(seqlen),
        trunc_last: none_ids(seqlen),
        full_site: none_ids(seqlen),
        trunc_site: none_ids(seqlen),
    };

    proof {
        assert(trunc.edges@ =~= clip_edges(full.edges@, intervals@));
        assert(sim_inv(full, trunc, st, intervals@, seqlen));
        assert(pops_named(full));
        assert(pop_size * (start_time - start_time + 1) == pop_size) by (nonlinear_arith);
        assert(2 * pop_size * (start_time - start_time + 1) == 2 * pop_size) by (nonlinear_arith);
        assert(4 * pop_size * (start_time - start_time) == 0) by (nonlinear_arith);
    }

    // Founder generation: `pop_size` ancestral individuals of two non-sample
    // nodes each, mirrored into both records.
    let mut parents: Vec<(usize, usize)> = Vec::new();
    let mut f: usize = 0;
    while f < pop_size
        invariant
            f <= pop_size,
            start_time >= 1,
            sim_inv(full, trunc, st, intervals@, seqlen),
            pops_named(full),
            parents@.len() == f,
            pool_wf(parents@, full, start_time as int),
            full.individuals@.len() == f,
            full.nodes@.len() == 2 * f,
            full.edges@.len() == 0,
        decreases pop_size - f,
    {
        let parent_ind = full.add_individual(0, None);
        trunc.add_individual(0, None);
        proof {
            assert(trunc.individuals@ =~= full.individuals@);
        }
        let n0 = add_node(&mut full, false, start_time, 0, parent_ind);
        let n1 = add_node(&mut full, false, start_time, 0, parent_ind);
        add_node(&mut trunc, false, start_time, 0, parent_ind);
        add_node(&mut trunc, false, start_time, 0, parent_ind);
        proof {
            assert(trunc.nodes@ =~= full.nodes@);
        }
        parents.push((n0, n1));
        f = f + 1;
    }

    // Generation stepping, from `start_time - 1` down to 0 inclusive.
    let mut t = start_time;
    while t > 0
        invariant
            t <= start_time,
            start_time >= 1,
            pop_size % 2 == 0,
            pop_size > 0 ==> seqlen >= 2,
            intervals_wf(intervals@),
            sim_inv(full, trunc, st, intervals@, seqlen),
            pops_named(full),
            parents@.len() == pop_size,
            pool_wf(parents@, full, t as int),
            full.individuals@.len() == pop_size * (start_time - t + 1),
            full.nodes@.len() == 2 * pop_size * (start_time - t + 1),
            full.edges@.len() == 4 * pop_size * (start_time - t),
        decreases t,
    {
        let tt = t - 1;
        let mut children: Vec<(usize, usize)> = Vec::new();
        let mut i: usize = 0;
        while i < pop_size
            invariant
                i <= pop_size,
                t == tt + 1,
                t <= start_time,
                pop_size % 2 == 0,
                pop_size > 0 ==> seqlen >= 2,
                intervals_wf(intervals@),
                sim_inv(full, trunc, st, intervals@, seqlen),
                pops_named(full),
                parents@.len() == pop_size,
                pool_wf(parents@, full, t as int),
                children@.len() == i,
                pool_wf(children@, full, tt as int),
                full.individuals@.len() == pop_size * (start_time - t + 1) + i,
                full.nodes@.len() == 2 * pop_size * (start_time - t + 1) + 2 * i,
                full.edges@.len() == 4 * pop_size * (start_time - t) + 4 * i,
            decreases pop_size - i,
        {
            let child = spawn_offspring(
                &mut full,
                &mut trunc,
                &mut st,
                &mut rng,
                intervals,
                &mut buffer,
                &parents,
                seqlen,
                pop_size,
                split_time,
                tt,
                i,
            );
            children.push(child);
            proof {
                assert(pool_wf(parents@, full, t as int));
                assert(pool_wf(children@, full, tt as int));
            }
            i = i + 1;
        }
        parents = children;
        proof {
            assert(pop_size * (start_time - t + 1) + pop_size == pop_size * (start_time - (t - 1)
                + 1)) by (nonlinear_arith)
                requires
                    1 <= t,
            ;
            assert(2 * pop_size * (start_time - t + 1) + 2 * pop_size == 2 * pop_size * (start_time
                - (t - 1) + 1)) by (nonlinear_arith)
                requires
                    1 <= t,
            ;
            assert(4 * pop_size * (start_time - t) + 4 * pop_size == 4 * pop_size * (start_time - (t
                - 1))) by (nonlinear_arith)
                requires
                    1 <= t,
            ;
        }
        t = tt;
    }

    // The run is complete; assemble the promised shape of the output pair.
    proof {
        assert forall|j: int|
            0 <= j < trunc.nodes@.len() implies ((#[trigger] trunc.nodes@[j]).is_sample
            <==> trunc.nodes@[j].time == 0) by {
            assert(trunc.nodes@[j] == full.nodes@[j]);
        }
        assert forall|p: usize|
            muts_at_count(trunc.mutations@, trunc.sites@, p) <= muts_at_count(
                full.mutations@,
                full.sites@,
                p,
            ) by {
            if p >= seqlen {
                lemma_count_zero_when_absent(trunc.mutations@, trunc.sites@, p);
                lemma_count_zero_when_absent(full.mutations@, full.sites@, p);
            }
        }
        assert forall|j: int| 0 <= j < trunc.sites@.len() implies has_site_at(
            full,
            (#[trigger] trunc.sites@[j]).position,
        ) by {
            let p = trunc.sites@[j].position;
            assert(st.trunc_site@[p as int] == Some(j as usize));
            assert(st.full_site@[p as int] is Some);
            let si = st.full_site@[p as int]->Some_0;
            assert(si < full.sites@.len() && full.sites@[si as int].position == p);
        }
        if intervals@.len() == 0 {
            lemma_clip_edges_empty(full.edges@);
            assert(intervals@ =~= Seq::<(usize, usize)>::empty());
        }
        assert(sim_output_ok(full, trunc, seqlen, pop_size, start_time, intervals@));
    }
    Ok((full, trunc))
}

} // verus!
