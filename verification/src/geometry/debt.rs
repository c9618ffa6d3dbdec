//! Damage that was consumed but not sent.

use vstd::prelude::*;

use super::area;
use super::merge;
use super::region;
use super::merge::{Side, merge_regions};
use super::region::Region;

verus! {

/// The bounding box of all regions of a list that is not empty.
pub open spec fn hull_all(regions: Seq<Region>) -> Region
    decreases regions.len(),
{
    if regions.len() <= 1 {
        regions[0]
    } else {
        hull_all(regions.drop_last()).hull(regions.last())
    }
}

/// The debt that a send set leaves: merged, and collapsed to one bounding
/// box where more than `cap` regions remain.
pub open spec fn normalized(send_set: Seq<Region>, cap: nat) -> Seq<Region> {
    let debt = merge::merged(send_set, 0);
    if send_set.len() > 1 && debt.len() > cap {
        seq![hull_all(debt)]
    } else {
        debt
    }
}

/// Tracks damage regions from consumed-but-unsent frames ("debt") so no
/// region is ever lost when the latency governor skips a frame or a send
/// fails.
///
/// Compositor damage hints are one-shot: a skipped frame's regions must be
/// re-sent with a later one or the client keeps stale pixels forever.
///
/// Invariants:
/// - [`absorb`](Self::absorb) REPLACES the debt (it does not extend it):
///   the incoming set already contains the prior debt, because the
///   pipeline prepends debt to each frame's fresh regions before the
///   governor runs. Extending here would double the region count on every
///   consecutive skip.
/// - The stored set is always merged ([`merge_regions`]) and hard-capped,
///   so the debt cannot grow without bound and a damage fraction over
///   [`take`](Self::take)-output cannot double-count area.
#[derive(Debug)]
pub struct DebtAccumulator {
    regions: Vec<Region>,
    cap: usize,
}

impl DebtAccumulator {
    /// Maximum number of rects retained as debt. The cap is never silently
    /// exceeded: when it binds, the whole debt is replaced by its bounding
    /// union, oversending the safe superset rather than dropping updates.
    pub const DEFAULT_CAP: usize = 1024;

    /// The regions held as debt.
    pub closed spec fn view(&self) -> Seq<Region> {
        self.regions@
    }

    /// The debt is merged, within the cap, and shares no pixel between two
    /// of its regions; several regions have representable bounds, so that
    /// they can be merged again.
    pub closed spec fn wf(&self) -> bool {
        &&& self.cap == Self::DEFAULT_CAP
        &&& self.regions@.len() <= Self::DEFAULT_CAP
        &&& merge::separated(self.regions@, 0)
        &&& self.regions@.len() > 1 ==> region::all_wf(self.regions@)
    }

    /// A collector with the default cap.
    pub fn new() -> (debt: Self)
        ensures
            debt.wf(),
            debt@ == Seq::<Region>::empty(),
    {
        DebtAccumulator { regions: Vec::new(), cap: Self::DEFAULT_CAP }
    }

    /// Replace the debt with `send_set` (prior debt ∪ fresh regions),
    /// merged. Called on the skip/wait paths where the frame was consumed
    /// but will not be encoded.
    pub fn absorb(&mut self, send_set: Vec<Region>)
        requires
            old(self).wf(),
            send_set@.len() > 1 ==> region::all_wf(send_set@),
        ensures
            final(self).wf(),
            final(self)@ == normalized(send_set@, Self::DEFAULT_CAP as nat),
    {
        proof {
            merge::law_merge_never_grows(send_set@, 0);
            merge::law_merge_reaches_fixed_point(send_set@, 0);
        }
        self.regions = normalize(send_set, self.cap);
    }

    /// Take the entire debt, leaving the accumulator empty. The pipeline
    /// prepends the returned regions to the next encoded frame's set.
    pub fn take(&mut self) -> (debt: Vec<Region>)
        requires
            old(self).wf(),
        ensures
            final(self).wf(),
            debt@ == old(self)@,
            debt@.len() > 1 ==> region::all_wf(debt@),
            final(self)@ == Seq::<Region>::empty(),
    {
        let mut debt: Vec<Region> = Vec::new();
        std::mem::swap(&mut debt, &mut self.regions);
        debt
    }

    /// Drop all debt (e.g. on reconnect/resize where the coordinate space
    /// changed or the client will be fully re-initialized anyway).
    pub fn clear(&mut self)
        requires
            old(self).wf(),
        ensures
            final(self).wf(),
            final(self)@ == Seq::<Region>::empty(),
    {
        self.regions.clear();
    }

    /// Whether the debt is empty.
    pub fn is_empty(&self) -> (empty: bool)
        ensures
            empty == (self@.len() == 0),
    {
        self.regions.len() == 0
    }

    /// Number of rects currently held as debt.
    pub fn len(&self) -> (count: usize)
        ensures
            count == self@.len(),
    {
        self.regions.len()
    }
}

impl Default for DebtAccumulator {
    fn default() -> (debt: Self)
        ensures
            debt.wf(),
            debt@ == Seq::<Region>::empty(),
    {
        Self::new()
    }
}

/// Merge overlapping/adjacent regions; if the merged set still exceeds
/// the cap, collapse it to a single bounding union.
fn normalize(regions: Vec<Region>, cap: usize) -> (debt: Vec<Region>)
    requires
        regions@.len() > 1 ==> region::all_wf(regions@),
    ensures
        debt@ == normalized(regions@, cap as nat),
        debt@.len() > 1 ==> region::all_wf(debt@),
{
    let several = regions.len() > 1;
    let ghost given = regions@;
    let merged_set = merge_regions(regions, 0);
    if several && merged_set.len() > cap {
        proof {
            merge::law_merge_never_grows(given, 0);
        }
        let mut bounds = merged_set[0];
        assert(merged_set@.take(1).len() == 1);
        for i in 1..merged_set.len()
            invariant
                region::all_wf(merged_set@),
                merged_set@.len() > 0,
                bounds.wf(),
                bounds == hull_all(merged_set@.take(i as int)),
        {
            assert(merged_set@.take(i + 1).drop_last() =~= merged_set@.take(i as int));
            bounds = bounds.union(&merged_set[i]);
        }
        assert(merged_set@.take(merged_set@.len() as int) =~= merged_set@);
        let mut collapsed: Vec<Region> = Vec::new();
        collapsed.push(bounds);
        assert(collapsed@ =~= seq![hull_all(merged_set@)]);
        return collapsed;
    }
    merged_set
}

proof fn lemma_hull_all(regions: Seq<Region>)
    requires
        region::all_wf(regions),
        regions.len() > 0,
    ensures
        hull_all(regions).wf(),
        forall|i: int| 0 <= i < regions.len() ==> hull_all(regions).encloses(#[trigger] regions[i]),
        merge::is_bounding_box(hull_all(regions), regions),
    decreases regions.len(),
{
    if regions.len() == 1 {
        assert forall|side: Side| #[trigger] merge::has_source(regions[0], regions, side) by {
            assert(regions[0].encloses(regions[0]));
        }
    } else {
        let front = regions.drop_last();
        lemma_hull_all(front);
        let all = hull_all(regions);
        assert forall|i: int| 0 <= i < regions.len() implies all.encloses(#[trigger] regions[i]) by {
            if i < front.len() {
                assert(hull_all(front).encloses(front[i]));
            }
        }
        assert forall|side: Side| #[trigger] merge::has_source(all, regions, side) by {
            assert(merge::has_source(hull_all(front), front, side));
            let k = choose|k: int|
                0 <= k < front.len() && hull_all(front).encloses(#[trigger] front[k]) && merge::bound(
                    front[k],
                    side,
                ) == merge::bound(hull_all(front), side);
            assert(regions[k] == front[k]);
            assert(all.encloses(regions[regions.len() - 1]));
        }
    }
}

/// No damage is ever lost: every pixel of the send set is still covered by
/// the debt it leaves, so by what the next `take` returns.
pub proof fn law_debt_keeps_every_pixel(send_set: Seq<Region>, cap: nat, px: int, py: int)
    requires
        send_set.len() > 1 ==> region::all_wf(send_set),
        region::covers(send_set, px, py),
    ensures
        region::covers(normalized(send_set, cap), px, py),
{
    merge::lemma_merge_pass_len(send_set, 0);
    if send_set.len() > 1 {
        let debt = merge::merged(send_set, 0);
        merge::law_merge_keeps_every_pixel(send_set, 0, px, py);
        merge::law_merge_groups_regions(send_set, 0);
        if debt.len() > cap {
            lemma_hull_all(debt);
            let i = choose|i: int| 0 <= i < debt.len() && (#[trigger] debt[i]).contains(px, py);
            assert(hull_all(debt).encloses(debt[i]));
            assert(normalized(send_set, cap)[0].contains(px, py));
        }
    }
}

/// The debt stays bounded, and no pixel belongs to two of its regions.
pub proof fn law_debt_is_bounded_and_disjoint(send_set: Seq<Region>, cap: nat)
    requires
        cap > 0,
    ensures
        normalized(send_set, cap).len() <= cap,
        normalized(send_set, cap).len() <= send_set.len(),
        region::disjoint(normalized(send_set, cap)),
{
    merge::law_merge_never_grows(send_set, 0);
    merge::law_merged_regions_are_disjoint(send_set, 0);
}

/// A skip streak does not grow the debt by itself: absorbing a debt again,
/// with nothing fresh, leaves it as it is.
pub proof fn law_absorbing_debt_again_is_idle(send_set: Seq<Region>, cap: nat)
    requires
        cap > 0,
    ensures
        normalized(normalized(send_set, cap), cap) == normalized(send_set, cap),
{
    let debt = normalized(send_set, cap);
    merge::law_merge_reaches_fixed_point(send_set, 0);
    merge::lemma_merge_pass_len(debt, 0);
    if debt.len() == 1 {
        assert(merge::merged(debt, 0) == debt) by {
            assert(merge::merge_pass(debt, 0).len() >= 1);
        }
    }
}

/// What every accumulator holds, however it was filled: at most
/// `DEFAULT_CAP` regions, no two of them near, no pixel in two of them.
pub proof fn law_debt_invariant(debt: &DebtAccumulator)
    requires
        debt.wf(),
    ensures
        debt@.len() <= DebtAccumulator::DEFAULT_CAP,
        merge::separated(debt@, 0),
        region::disjoint(debt@),
        debt@.len() > 1 ==> region::all_wf(debt@),
{
    merge::lemma_separated_disjoint(debt@, 0);
}

/// Every region of `regions` lies within a frame of the given size.
pub open spec fn in_frame(regions: Seq<Region>, frame_width: u32, frame_height: u32) -> bool {
    forall|i: int|
        0 <= i < regions.len() ==> (#[trigger] regions[i]).right() <= frame_width
            && regions[i].bottom() <= frame_height
}

/// The debt of a send set that lies within the frame lies within it too.
pub proof fn law_debt_stays_in_the_frame(
    send_set: Seq<Region>,
    cap: nat,
    frame_width: u32,
    frame_height: u32,
)
    requires
        in_frame(send_set, frame_width, frame_height),
    ensures
        in_frame(normalized(send_set, cap), frame_width, frame_height),
{
    assert(region::all_wf(send_set));
    let debt = merge::merged(send_set, 0);
    merge::law_merge_groups_regions(send_set, 0);
    merge::law_merge_never_grows(send_set, 0);
    assert forall|i: int| 0 <= i < debt.len() implies (#[trigger] debt[i]).right() <= frame_width
        && debt[i].bottom() <= frame_height by {
        lemma_box_in_frame(debt[i], send_set, frame_width, frame_height);
    }
    if send_set.len() > 1 && debt.len() > cap {
        lemma_hull_all(debt);
        lemma_box_in_frame(hull_all(debt), debt, frame_width, frame_height);
    }
}

proof fn lemma_box_in_frame(
    bounds: Region,
    sources: Seq<Region>,
    frame_width: u32,
    frame_height: u32,
)
    requires
        merge::is_bounding_box(bounds, sources),
        in_frame(sources, frame_width, frame_height),
    ensures
        bounds.right() <= frame_width,
        bounds.bottom() <= frame_height,
{
    assert(merge::has_source(bounds, sources, Side::Right));
    assert(merge::has_source(bounds, sources, Side::Bottom));
}

/// The damage fraction of a debt is at most one, as long as what was to be
/// sent lies within the frame: nothing is counted twice.
pub proof fn law_debt_fraction_is_at_most_one(
    send_set: Seq<Region>,
    cap: nat,
    frame_width: u32,
    frame_height: u32,
)
    requires
        cap > 0,
        in_frame(send_set, frame_width, frame_height),
    ensures
        area::area_sum(normalized(send_set, cap)) <= frame_width * frame_height,
{
    let debt = normalized(send_set, cap);
    law_debt_stays_in_the_frame(send_set, cap, frame_width, frame_height);
    law_debt_is_bounded_and_disjoint(send_set, cap);
    area::law_disjoint_areas_count_pixels(debt);
    area::lemma_pixels(0, 0, frame_width as nat, frame_height as nat);
    let frame = area::pixels(0, 0, frame_width as int, frame_height as int);
    assert(area::covered_pixels(debt).subset_of(frame)) by {
        assert forall|p: (int, int)| area::covered_pixels(debt).contains(p) implies frame.contains(
            p,
        ) by {
            let i = choose|i: int| 0 <= i < debt.len() && (#[trigger] debt[i]).contains(p.0, p.1);
            assert(debt[i].right() <= frame_width);
        }
    }
    vstd::set_lib::lemma_len_subset(area::covered_pixels(debt), frame);
    assert((frame_width as nat) * (frame_height as nat) == frame_width * frame_height);
}

/// What an accumulator makes of a send set: as long as the merged set has at
/// most 1024 regions it is kept region by region; beyond that it is one
/// region, whose bounds are the outermost of the set.
pub proof fn law_debt_collapses_only_past_its_cap(send_set: Seq<Region>)
    requires
        send_set.len() > 1 ==> region::all_wf(send_set),
    ensures
        send_set.len() <= 1024 ==> normalized(send_set, DebtAccumulator::DEFAULT_CAP as nat)
            == merge::merged(send_set, 0),
        merge::merged(send_set, 0).len() <= 1024 ==> normalized(
            send_set,
            DebtAccumulator::DEFAULT_CAP as nat,
        ) == merge::merged(send_set, 0),
        merge::merged(send_set, 0).len() > 1024 ==> ({
            let debt = normalized(send_set, DebtAccumulator::DEFAULT_CAP as nat);
            let set = merge::merged(send_set, 0);
            &&& debt.len() == 1
            &&& forall|i: int|
                0 <= i < set.len() ==> debt[0].x <= (#[trigger] set[i]).x && debt[0].y <= set[i].y
                    && set[i].x + set[i].width <= debt[0].x + debt[0].width && set[i].y
                    + set[i].height <= debt[0].y + debt[0].height
            &&& exists|i: int| 0 <= i < set.len() && (#[trigger] set[i]).x == debt[0].x
            &&& exists|i: int| 0 <= i < set.len() && (#[trigger] set[i]).y == debt[0].y
            &&& exists|i: int|
                0 <= i < set.len() && (#[trigger] set[i]).x + set[i].width == debt[0].x
                    + debt[0].width
            &&& exists|i: int|
                0 <= i < set.len() && (#[trigger] set[i]).y + set[i].height == debt[0].y
                    + debt[0].height
        }),
{
    merge::law_merge_never_grows(send_set, 0);
    let set = merge::merged(send_set, 0);
    if set.len() > 1024 {
        merge::law_merge_groups_regions(send_set, 0);
        lemma_hull_all(set);
        let all = hull_all(set);
        assert forall|i: int| 0 <= i < set.len() implies all.x <= (#[trigger] set[i]).x && all.y
            <= set[i].y && set[i].x + set[i].width <= all.x + all.width && set[i].y + set[i].height
            <= all.y + all.height by {
            assert(all.encloses(set[i]));
        }
        assert(merge::has_source(all, set, Side::Left));
        assert(merge::has_source(all, set, Side::Top));
        assert(merge::has_source(all, set, Side::Right));
        assert(merge::has_source(all, set, Side::Bottom));
        let l = choose|i: int|
            0 <= i < set.len() && all.encloses(#[trigger] set[i]) && merge::bound(set[i], Side::Left)
                == merge::bound(all, Side::Left);
        let t = choose|i: int|
            0 <= i < set.len() && all.encloses(#[trigger] set[i]) && merge::bound(set[i], Side::Top)
                == merge::bound(all, Side::Top);
        let r = choose|i: int|
            0 <= i < set.len() && all.encloses(#[trigger] set[i]) && merge::bound(set[i], Side::Right)
                == merge::bound(all, Side::Right);
        let b = choose|i: int|
            0 <= i < set.len() && all.encloses(#[trigger] set[i]) && merge::bound(
                set[i],
                Side::Bottom,
            ) == merge::bound(all, Side::Bottom);
        assert(set[l].x == all.x);
        assert(set[t].y == all.y);
        assert(set[r].x + set[r].width == all.x + all.width);
        assert(set[b].y + set[b].height == all.y + all.height);
    }
}

} // verus!
