//! Merging regions that are close to one another.

use vstd::prelude::*;

use super::region;
use super::region::Region;

verus! {

/// The gap between the intervals `[a, a_end)` and `[b, b_end)` is at most
/// `distance`.
pub open spec fn within(a: int, a_end: int, b: int, b_end: int, distance: int) -> bool {
    &&& a - b_end <= distance
    &&& b - a_end <= distance
}

/// The intervals `[a, a_end)` and `[b, b_end)` have a point in common.
pub open spec fn shared(a: int, a_end: int, b: int, b_end: int) -> bool {
    region::max_int(a, b) < region::min_int(a_end, b_end)
}

/// The regions overlap or touch, or come within `distance` pixels of it, along
/// one axis, with the other axis overlapping.
pub open spec fn adjacent(a: Region, b: Region, distance: int) -> bool {
    ||| within(a.x as int, a.right(), b.x as int, b.right(), distance) && shared(
        a.y as int,
        a.bottom(),
        b.y as int,
        b.bottom(),
    )
    ||| within(a.y as int, a.bottom(), b.y as int, b.bottom(), distance) && shared(
        a.x as int,
        a.right(),
        b.x as int,
        b.right(),
    )
}

/// The regions overlap or touch, or come within `distance` pixels of it, a
/// corner counting as much as an edge.
pub open spec fn near(a: Region, b: Region, distance: int) -> bool {
    &&& within(a.x as int, a.right(), b.x as int, b.right(), distance)
    &&& within(a.y as int, a.bottom(), b.y as int, b.bottom(), distance)
}

/// `current` grown, from left to right, by every region of `rest` that is
/// near to what it has grown to so far.
pub open spec fn grown(current: Region, rest: Seq<Region>, distance: int) -> Region
    decreases rest.len(),
{
    if rest.len() == 0 {
        current
    } else {
        let so_far = grown(current, rest.drop_last(), distance);
        if near(so_far, rest.last(), distance) {
            so_far.hull(rest.last())
        } else {
            so_far
        }
    }
}

/// The regions of `rest` that `grown` did not take in.
pub open spec fn left_over(current: Region, rest: Seq<Region>, distance: int) -> Seq<Region>
    decreases rest.len(),
{
    if rest.len() == 0 {
        Seq::empty()
    } else {
        let so_far = left_over(current, rest.drop_last(), distance);
        if near(grown(current, rest.drop_last(), distance), rest.last(), distance) {
            so_far
        } else {
            so_far.push(rest.last())
        }
    }
}

/// One merge pass: the first region grows as far as it can, then the first
/// of those left over, and so on.
pub open spec fn merge_pass(regions: Seq<Region>, distance: int) -> Seq<Region>
    decreases regions.len(),
    via merge_pass_decreases
{
    if regions.len() == 0 {
        Seq::empty()
    } else {
        seq![grown(regions[0], regions.drop_first(), distance)] + merge_pass(
            left_over(regions[0], regions.drop_first(), distance),
            distance,
        )
    }
}

/// Merge passes until one of them merges nothing.
pub open spec fn merged(regions: Seq<Region>, distance: int) -> Seq<Region>
    decreases regions.len(),
{
    let next = merge_pass(regions, distance);
    if next.len() >= regions.len() {
        regions
    } else {
        merged(next, distance)
    }
}

#[via_fn]
proof fn merge_pass_decreases(regions: Seq<Region>, distance: int) {
    if regions.len() > 0 {
        lemma_left_over_len(regions[0], regions.drop_first(), distance);
    }
}

proof fn lemma_left_over_len(current: Region, rest: Seq<Region>, distance: int)
    ensures
        left_over(current, rest, distance).len() <= rest.len(),
    decreases rest.len(),
{
    if rest.len() > 0 {
        lemma_left_over_len(current, rest.drop_last(), distance);
    }
}

pub proof fn lemma_merge_pass_len(regions: Seq<Region>, distance: int)
    ensures
        merge_pass(regions, distance).len() <= regions.len(),
        regions.len() > 0 ==> merge_pass(regions, distance).len() > 0,
    decreases regions.len(),
{
    if regions.len() > 0 {
        lemma_left_over_len(regions[0], regions.drop_first(), distance);
        lemma_merge_pass_len(left_over(regions[0], regions.drop_first(), distance), distance);
    }
}

/// Growing keeps bounds representable.
proof fn lemma_grown_wf(current: Region, rest: Seq<Region>, distance: int)
    requires
        current.wf(),
        region::all_wf(rest),
    ensures
        grown(current, rest, distance).wf(),
        region::all_wf(left_over(current, rest, distance)),
    decreases rest.len(),
{
    if rest.len() > 0 {
        lemma_grown_wf(current, rest.drop_last(), distance);
    }
}

/// Whether two regions overlap or touch within `merge_distance` pixels along
/// any axis (with the other axis overlapping).
pub fn is_adjacent(a: &Region, b: &Region, merge_distance: u32) -> (close: bool)
    requires
        a.wf(),
        b.wf(),
    ensures
        close == adjacent(*a, *b, merge_distance as int),
        close == {
            let x_gap = region::max_int(a.x - (b.x + b.width), b.x - (a.x + a.width));
            let y_gap = region::max_int(a.y - (b.y + b.height), b.y - (a.y + a.height));
            let filled = a.width > 0 && b.width > 0;
            let tall = a.height > 0 && b.height > 0;
            ||| x_gap <= merge_distance && y_gap < 0 && tall
            ||| y_gap <= merge_distance && x_gap < 0 && filled
        },
{
    let (a_left, a_top, a_right, a_bottom) = a.ltrb();
    let (b_left, b_top, b_right, b_bottom) = b.ltrb();
    let x_close = is_within(a_left, a_right, b_left, b_right, merge_distance);
    let y_close = is_within(a_top, a_bottom, b_top, b_bottom, merge_distance);
    (x_close && is_shared(a_top, a_bottom, b_top, b_bottom)) || (y_close && is_shared(
        a_left,
        a_right,
        b_left,
        b_right,
    ))
}

/// Whether two regions overlap or touch within `merge_distance` pixels, a
/// corner counting as much as an edge.
fn is_near(a: &Region, b: &Region, merge_distance: u32) -> (close: bool)
    requires
        a.wf(),
        b.wf(),
    ensures
        close == near(*a, *b, merge_distance as int),
        close == (a.x - (b.x + b.width) <= merge_distance && b.x - (a.x + a.width)
            <= merge_distance && a.y - (b.y + b.height) <= merge_distance && b.y - (a.y + a.height)
            <= merge_distance),
{
    let (a_left, a_top, a_right, a_bottom) = a.ltrb();
    let (b_left, b_top, b_right, b_bottom) = b.ltrb();
    is_within(a_left, a_right, b_left, b_right, merge_distance) && is_within(
        a_top,
        a_bottom,
        b_top,
        b_bottom,
        merge_distance,
    )
}

/// Whether the gap between two intervals is at most `distance`.
fn is_within(a: u32, a_end: u32, b: u32, b_end: u32, distance: u32) -> (close: bool)
    ensures
        close == within(a as int, a_end as int, b as int, b_end as int, distance as int),
{
    a.saturating_sub(b_end) <= distance && b.saturating_sub(a_end) <= distance
}

/// Whether two intervals have a point in common.
fn is_shared(a: u32, a_end: u32, b: u32, b_end: u32) -> (common: bool)
    ensures
        common == shared(a as int, a_end as int, b as int, b_end as int),
{
    let start = if a >= b { a } else { b };
    let end = if a_end <= b_end { a_end } else { b_end };
    start < end
}

/// One merge pass over `regions`.
fn merge_once(regions: &Vec<Region>, merge_distance: u32) -> (next: Vec<Region>)
    requires
        region::all_wf(regions@),
    ensures
        next@ == merge_pass(regions@, merge_distance as int),
        region::all_wf(next@),
{
    let ghost d = merge_distance as int;
    let mut merged: Vec<Region> = Vec::new();
    let mut waiting: Vec<Region> = Vec::new();
    for i in 0..regions.len()
        invariant
            waiting@ == regions@.take(i as int),
    {
        waiting.push(regions[i]);
        assert(waiting@ =~= regions@.take(i + 1));
    }
    assert(waiting@ =~= regions@);
    assert(merged@ + merge_pass(waiting@, d) =~= merge_pass(regions@, d));
    while waiting.len() > 0
        invariant
            d == merge_distance as int,
            region::all_wf(waiting@),
            region::all_wf(merged@),
            merged@ + merge_pass(waiting@, d) == merge_pass(regions@, d),
        decreases waiting.len(),
    {
        let first = waiting[0];
        let ghost rest = waiting@.drop_first();
        let mut current = first;
        let mut kept: Vec<Region> = Vec::new();
        for j in 1..waiting.len()
            invariant
                d == merge_distance as int,
                region::all_wf(waiting@),
                region::all_wf(kept@),
                waiting@.len() > 0,
                rest == waiting@.drop_first(),
                current.wf(),
                current == grown(first, rest.take(j - 1), d),
                kept@ == left_over(first, rest.take(j - 1), d),
        {
            let candidate = waiting[j];
            assert(rest.take(j as int).drop_last() =~= rest.take(j - 1));
            assert(rest.take(j as int).last() == candidate);
            if is_near(&current, &candidate, merge_distance) {
                current = current.union(&candidate);
            } else {
                kept.push(candidate);
            }
        }
        assert(rest.take(waiting@.len() - 1) =~= rest);
        proof {
            lemma_left_over_len(first, rest, d);
            assert(merged@ + (seq![current] + merge_pass(kept@, d)) =~= merged@.push(current)
                + merge_pass(kept@, d));
        }
        merged.push(current);
        waiting = kept;
    }
    assert(merged@ + merge_pass(waiting@, d) =~= merged@);
    merged
}

/// Merge overlapping or touching regions (within `merge_distance` pixels)
/// until a fixed point. O(n²) per pass; the damage pipeline's inputs are
/// tile-aligned and small, and each pass strictly decreases the count.
pub fn merge_regions(regions: Vec<Region>, merge_distance: u32) -> (result: Vec<Region>)
    requires
        regions@.len() > 1 ==> region::all_wf(regions@),
    ensures
        result@ == merged(regions@, merge_distance as int),
        regions@.len() > 1 ==> region::all_wf(result@),
{
    let ghost d = merge_distance as int;
    if regions.len() <= 1 {
        proof {
            lemma_merge_pass_len(regions@, d);
        }
        return regions;
    }
    let ghost given = regions@;
    let mut current = regions;
    loop
        invariant
            d == merge_distance as int,
            region::all_wf(current@),
            merged(current@, d) == merged(given, d),
        ensures
            region::all_wf(current@),
            current@ == merged(given, d),
        decreases current.len(),
    {
        let next = merge_once(&current, merge_distance);
        if next.len() >= current.len() {
            break;
        }
        current = next;
    }
    current
}

// ---------------------------------------------------------------------------
// What merging means
// ---------------------------------------------------------------------------

/// The four bounds of a region.
pub enum Side {
    Left,
    Top,
    Right,
    Bottom,
}

pub open spec fn bound(region: Region, side: Side) -> int {
    match side {
        Side::Left => region.x as int,
        Side::Top => region.y as int,
        Side::Right => region.right(),
        Side::Bottom => region.bottom(),
    }
}

/// Some region of `regions` encloses `region`.
pub open spec fn enclosed(regions: Seq<Region>, region: Region) -> bool {
    exists|i: int| 0 <= i < regions.len() && (#[trigger] regions[i]).encloses(region)
}

/// `region` is the bounding box of the regions of `sources` that it
/// encloses: each of its bounds is the bound of one of them.
pub open spec fn is_bounding_box(region: Region, sources: Seq<Region>) -> bool {
    forall|side: Side| #[trigger] has_source(region, sources, side)
}

pub open spec fn has_source(region: Region, sources: Seq<Region>, side: Side) -> bool {
    exists|i: int|
        0 <= i < sources.len() && region.encloses(#[trigger] sources[i]) && bound(sources[i], side)
            == bound(region, side)
}

/// No two different entries are near.
pub open spec fn separated(regions: Seq<Region>, distance: int) -> bool {
    forall|i: int, j: int|
        0 <= i < j < regions.len() ==> !near(
            #[trigger] regions[i],
            #[trigger] regions[j],
            distance,
        )
}

proof fn lemma_grown(current: Region, rest: Seq<Region>, distance: int)
    requires
        current.wf(),
        region::all_wf(rest),
    ensures
        grown(current, rest, distance).encloses(current),
        is_bounding_box(grown(current, rest, distance), seq![current] + rest),
        forall|i: int|
            0 <= i < rest.len() ==> grown(current, rest, distance).encloses(#[trigger] rest[i])
                || left_over(current, rest, distance).contains(rest[i]),
        forall|i: int|
            0 <= i < left_over(current, rest, distance).len() ==> rest.contains(
                #[trigger] left_over(current, rest, distance)[i],
            ),
    decreases rest.len(),
{
    let all = seq![current] + rest;
    let box_now = grown(current, rest, distance);
    if rest.len() == 0 {
        assert forall|side: Side| #[trigger] has_source(box_now, all, side) by {
            assert(all[0] == current);
        }
    } else {
        let front = rest.drop_last();
        let last = rest.last();
        lemma_grown(current, front, distance);
        lemma_grown_wf(current, front, distance);
        let box_before = grown(current, front, distance);
        let all_before = seq![current] + front;
        assert forall|side: Side| #[trigger] has_source(box_now, all, side) by {
            assert(has_source(box_before, all_before, side));
            let k = choose|k: int|
                0 <= k < all_before.len() && box_before.encloses(#[trigger] all_before[k]) && bound(
                    all_before[k],
                    side,
                ) == bound(box_before, side);
            assert(all[k] == all_before[k]);
            assert(all[all.len() - 1] == last);
        }
        let kept_before = left_over(current, front, distance);
        let kept = left_over(current, rest, distance);
        assert forall|i: int| 0 <= i < rest.len() implies box_now.encloses(#[trigger] rest[i])
            || kept.contains(rest[i]) by {
            if i < front.len() {
                assert(front[i] == rest[i]);
                if kept_before.contains(front[i]) {
                    let k = choose|k: int| 0 <= k < kept_before.len() && kept_before[k] == front[i];
                    assert(kept[k] == front[i]);
                }
            } else if !near(box_before, last, distance) {
                assert(kept[kept.len() - 1] == last);
            }
        }
        assert forall|i: int| 0 <= i < kept.len() implies rest.contains(#[trigger] kept[i]) by {
            if i < kept_before.len() {
                assert(front.contains(kept_before[i]));
                let k = choose|k: int| 0 <= k < front.len() && front[k] == kept_before[i];
                assert(rest[k] == kept[i]);
            } else {
                assert(rest[rest.len() - 1] == kept[i]);
            }
        }
    }
}

proof fn lemma_merge_pass(regions: Seq<Region>, distance: int)
    requires
        region::all_wf(regions),
    ensures
        region::all_wf(merge_pass(regions, distance)),
        forall|i: int|
            0 <= i < regions.len() ==> enclosed(
                merge_pass(regions, distance),
                #[trigger] regions[i],
            ),
        forall|i: int|
            0 <= i < merge_pass(regions, distance).len() ==> is_bounding_box(
                #[trigger] merge_pass(regions, distance)[i],
                regions,
            ),
    decreases regions.len(),
{
    if regions.len() > 0 {
        let first = regions[0];
        let rest = regions.drop_first();
        let kept = left_over(first, rest, distance);
        let tail = merge_pass(kept, distance);
        let out = merge_pass(regions, distance);
        assert(forall|i: int| 0 <= i < rest.len() ==> rest[i] == regions[i + 1]);
        lemma_left_over_len(first, rest, distance);
        lemma_grown_wf(first, rest, distance);
        lemma_grown(first, rest, distance);
        lemma_merge_pass(kept, distance);
        assert(seq![first] + rest =~= regions);
        assert(out[0] == grown(first, rest, distance));
        assert forall|i: int| 0 <= i < regions.len() implies enclosed(out, #[trigger] regions[i]) by {
            if i > 0 && !out[0].encloses(regions[i]) {
                assert(rest[i - 1] == regions[i]);
                let k = choose|k: int| 0 <= k < kept.len() && kept[k] == rest[i - 1];
                assert(enclosed(tail, kept[k]));
                let m = choose|m: int| 0 <= m < tail.len() && (#[trigger] tail[m]).encloses(kept[k]);
                assert(out[m + 1] == tail[m]);
            } else {
                assert(out[0].encloses(regions[i]));
            }
        }
        assert forall|i: int| 0 <= i < out.len() implies is_bounding_box(
            #[trigger] out[i],
            regions,
        ) by {
            if i > 0 {
                assert(out[i] == tail[i - 1]);
                assert(is_bounding_box(tail[i - 1], kept));
                assert forall|side: Side| #[trigger] has_source(out[i], regions, side) by {
                    assert(has_source(tail[i - 1], kept, side));
                    let k = choose|k: int|
                        0 <= k < kept.len() && tail[i - 1].encloses(#[trigger] kept[k]) && bound(
                            kept[k],
                            side,
                        ) == bound(tail[i - 1], side);
                    assert(rest.contains(kept[k]));
                    let m = choose|m: int| 0 <= m < rest.len() && rest[m] == kept[k];
                    assert(regions[m + 1] == kept[k]);
                }
            }
        }
    }
}

/// A pass that shortens nothing merged nothing: it left the regions as they
/// were, and they are pairwise not near.
proof fn lemma_idle_pass(regions: Seq<Region>, distance: int)
    requires
        merge_pass(regions, distance).len() >= regions.len(),
    ensures
        separated(regions, distance),
        merge_pass(regions, distance) == regions,
    decreases regions.len(),
{
    if regions.len() > 0 {
        let first = regions[0];
        let rest = regions.drop_first();
        let kept = left_over(first, rest, distance);
        lemma_left_over_len(first, rest, distance);
        lemma_merge_pass_len(kept, distance);
        lemma_nothing_taken(first, rest, distance);
        lemma_idle_pass(rest, distance);
        assert(merge_pass(regions, distance) =~= regions);
        assert forall|i: int, j: int| 0 <= i < j < regions.len() implies !near(
            #[trigger] regions[i],
            #[trigger] regions[j],
            distance,
        ) by {
            assert(rest[j - 1] == regions[j]);
            if i > 0 {
                assert(rest[i - 1] == regions[i]);
            }
        }
    }
}

proof fn lemma_nothing_taken(current: Region, rest: Seq<Region>, distance: int)
    requires
        left_over(current, rest, distance).len() >= rest.len(),
    ensures
        left_over(current, rest, distance) == rest,
        grown(current, rest, distance) == current,
        forall|i: int| 0 <= i < rest.len() ==> !near(current, #[trigger] rest[i], distance),
    decreases rest.len(),
{
    if rest.len() > 0 {
        let front = rest.drop_last();
        lemma_left_over_len(current, front, distance);
        lemma_nothing_taken(current, front, distance);
        assert(left_over(current, rest, distance) =~= rest);
        assert forall|i: int| 0 <= i < rest.len() implies !near(
            current,
            #[trigger] rest[i],
            distance,
        ) by {
            if i < front.len() {
                assert(front[i] == rest[i]);
            }
        }
    }
}

/// Merging loses nothing and invents no bound: every input lies within an
/// output, and every output is the bounding box of the inputs it encloses.
pub proof fn law_merge_groups_regions(regions: Seq<Region>, distance: int)
    requires
        region::all_wf(regions),
    ensures
        region::all_wf(merged(regions, distance)),
        forall|i: int|
            0 <= i < regions.len() ==> enclosed(merged(regions, distance), #[trigger] regions[i]),
        forall|i: int|
            0 <= i < merged(regions, distance).len() ==> is_bounding_box(
                #[trigger] merged(regions, distance)[i],
                regions,
            ),
    decreases regions.len(),
{
    let next = merge_pass(regions, distance);
    let out = merged(regions, distance);
    if next.len() >= regions.len() {
        assert forall|i: int| 0 <= i < regions.len() implies enclosed(
            regions,
            #[trigger] regions[i],
        ) by {
            assert(regions[i].encloses(regions[i]));
        }
        assert forall|i: int| 0 <= i < regions.len() implies is_bounding_box(
            #[trigger] regions[i],
            regions,
        ) by {
            assert forall|side: Side| #[trigger] has_source(regions[i], regions, side) by {
                assert(regions[i].encloses(regions[i]));
            }
        }
    } else {
        lemma_merge_pass(regions, distance);
        law_merge_groups_regions(next, distance);
        assert forall|i: int| 0 <= i < regions.len() implies enclosed(out, #[trigger] regions[i]) by {
            assert(enclosed(next, regions[i]));
            let k = choose|k: int| 0 <= k < next.len() && (#[trigger] next[k]).encloses(regions[i]);
            assert(enclosed(out, next[k]));
            let m = choose|m: int| 0 <= m < out.len() && (#[trigger] out[m]).encloses(next[k]);
            assert(out[m].encloses(regions[i]));
        }
        assert forall|i: int| 0 <= i < out.len() implies is_bounding_box(
            #[trigger] out[i],
            regions,
        ) by {
            assert(is_bounding_box(out[i], next));
            assert forall|side: Side| #[trigger] has_source(out[i], regions, side) by {
                assert(has_source(out[i], next, side));
                let k = choose|k: int|
                    0 <= k < next.len() && out[i].encloses(#[trigger] next[k]) && bound(
                        next[k],
                        side,
                    ) == bound(out[i], side);
                assert(is_bounding_box(next[k], regions));
                assert(has_source(next[k], regions, side));
                let m = choose|m: int|
                    0 <= m < regions.len() && next[k].encloses(#[trigger] regions[m]) && bound(
                        regions[m],
                        side,
                    ) == bound(next[k], side);
                assert(out[i].encloses(regions[m]));
            }
        }
    }
}

/// Merging reaches a fixed point: no two outputs are near any more, and
/// merging them again changes nothing.
pub proof fn law_merge_reaches_fixed_point(regions: Seq<Region>, distance: int)
    ensures
        separated(merged(regions, distance), distance),
        merged(merged(regions, distance), distance) == merged(regions, distance),
    decreases regions.len(),
{
    let next = merge_pass(regions, distance);
    if next.len() >= regions.len() {
        lemma_idle_pass(regions, distance);
    } else {
        law_merge_reaches_fixed_point(next, distance);
    }
}

/// No two outputs of a merge are adjacent: what overlaps along one axis and
/// comes close along the other is near.
pub proof fn law_merged_regions_are_not_adjacent(
    regions: Seq<Region>,
    distance: int,
    i: int,
    j: int,
)
    requires
        distance >= 0,
        0 <= i < j < merged(regions, distance).len(),
    ensures
        !adjacent(merged(regions, distance)[i], merged(regions, distance)[j], distance),
{
    law_merge_reaches_fixed_point(regions, distance);
    let out = merged(regions, distance);
    assert(!near(out[i], out[j], distance));
}

/// Merging never lengthens the list and empties only an empty one.
pub proof fn law_merge_never_grows(regions: Seq<Region>, distance: int)
    ensures
        merged(regions, distance).len() <= regions.len(),
        merged(regions, distance).len() == 0 <==> regions.len() == 0,
    decreases regions.len(),
{
    let next = merge_pass(regions, distance);
    lemma_merge_pass_len(regions, distance);
    if next.len() < regions.len() {
        law_merge_never_grows(next, distance);
    }
}

/// Merging covers every pixel that the inputs cover.
pub proof fn law_merge_keeps_every_pixel(regions: Seq<Region>, distance: int, px: int, py: int)
    requires
        region::all_wf(regions),
        region::covers(regions, px, py),
    ensures
        region::covers(merged(regions, distance), px, py),
{
    law_merge_groups_regions(regions, distance);
    let i = choose|i: int| 0 <= i < regions.len() && (#[trigger] regions[i]).contains(px, py);
    assert(enclosed(merged(regions, distance), regions[i]));
    let k = choose|k: int|
        0 <= k < merged(regions, distance).len() && (#[trigger] merged(
            regions,
            distance,
        )[k]).encloses(regions[i]);
    assert(merged(regions, distance)[k].contains(px, py));
}

/// Merged regions share no pixel, so summing their areas counts none twice.
pub proof fn law_merged_regions_are_disjoint(regions: Seq<Region>, distance: int)
    requires
        distance >= 0,
    ensures
        region::disjoint(merged(regions, distance)),
{
    law_merge_reaches_fixed_point(regions, distance);
    lemma_separated_disjoint(merged(regions, distance), distance);
}

pub proof fn lemma_separated_disjoint(regions: Seq<Region>, distance: int)
    requires
        separated(regions, distance),
        distance >= 0,
    ensures
        region::disjoint(regions),
{
    assert forall|i: int, j: int, px: int, py: int|
        #![trigger regions[i].contains(px, py), regions[j].contains(px, py)]
        0 <= i < j < regions.len() implies !(regions[i].contains(px, py) && regions[j].contains(
        px,
        py,
    )) by {
        assert(!near(regions[i], regions[j], distance));
    }
}

// ---------------------------------------------------------------------------
// Which regions come together
// ---------------------------------------------------------------------------

/// Merging leaves nothing close: between any two outputs there is, along one
/// of the axes, a gap of more than `distance`.
pub proof fn law_merged_regions_are_apart(regions: Seq<Region>, distance: int, i: int, j: int)
    requires
        0 <= i < j < merged(regions, distance).len(),
    ensures
        ({
            let a = merged(regions, distance)[i];
            let b = merged(regions, distance)[j];
            ||| a.x - (b.x + b.width) > distance
            ||| b.x - (a.x + a.width) > distance
            ||| a.y - (b.y + b.height) > distance
            ||| b.y - (a.y + a.height) > distance
        }),
{
    law_merge_reaches_fixed_point(regions, distance);
    let out = merged(regions, distance);
    assert(!near(out[i], out[j], distance));
}

/// Merging takes every region in: its bounds lie within those of an output.
pub proof fn law_merge_takes_every_region_in(regions: Seq<Region>, distance: int, k: int)
    requires
        region::all_wf(regions),
        0 <= k < regions.len(),
    ensures
        exists|i: int|
            0 <= i < merged(regions, distance).len() && (#[trigger] merged(regions, distance)[i]).x
                <= regions[k].x && merged(regions, distance)[i].y <= regions[k].y && regions[k].x
                + regions[k].width <= merged(regions, distance)[i].x + merged(
                regions,
                distance,
            )[i].width && regions[k].y + regions[k].height <= merged(regions, distance)[i].y
                + merged(regions, distance)[i].height,
{
    law_merge_groups_regions(regions, distance);
    assert(enclosed(merged(regions, distance), regions[k]));
    let i = choose|i: int|
        0 <= i < merged(regions, distance).len() && (#[trigger] merged(
            regions,
            distance,
        )[i]).encloses(regions[k]);
    assert(merged(regions, distance)[i].x <= regions[k].x);
}

/// Merging only joins what is close: where any two regions have, along one of
/// the axes, a gap of more than `distance`, they all stay as they are.
pub proof fn law_regions_apart_are_not_merged(regions: Seq<Region>, distance: int)
    requires
        forall|i: int, j: int|
            0 <= i < j < regions.len() ==> ((#[trigger] regions[i]).x - ((#[trigger] regions[j]).x
                + regions[j].width) > distance || regions[j].x - (regions[i].x + regions[i].width)
                > distance || regions[i].y - (regions[j].y + regions[j].height) > distance
                || regions[j].y - (regions[i].y + regions[i].height) > distance),
    ensures
        merged(regions, distance) == regions,
{
    assert forall|i: int, j: int| 0 <= i < j < regions.len() implies !near(
        #[trigger] regions[i],
        #[trigger] regions[j],
        distance,
    ) by {}
    lemma_separated_pass(regions, distance);
}

proof fn lemma_separated_pass(regions: Seq<Region>, distance: int)
    requires
        separated(regions, distance),
    ensures
        merge_pass(regions, distance) == regions,
    decreases regions.len(),
{
    if regions.len() > 0 {
        let rest = regions.drop_first();
        lemma_none_near(regions[0], rest, distance);
        assert forall|i: int, j: int| 0 <= i < j < rest.len() implies !near(
            #[trigger] rest[i],
            #[trigger] rest[j],
            distance,
        ) by {
            assert(!near(regions[i + 1], regions[j + 1], distance));
        }
        lemma_separated_pass(rest, distance);
        assert(seq![regions[0]] + rest =~= regions);
    } else {
        assert(merge_pass(regions, distance) =~= regions);
    }
}

proof fn lemma_none_near(current: Region, rest: Seq<Region>, distance: int)
    requires
        forall|i: int| 0 <= i < rest.len() ==> !near(current, #[trigger] rest[i], distance),
    ensures
        grown(current, rest, distance) == current,
        left_over(current, rest, distance) == rest,
    decreases rest.len(),
{
    if rest.len() > 0 {
        let front = rest.drop_last();
        assert forall|i: int| 0 <= i < front.len() implies !near(
            current,
            #[trigger] front[i],
            distance,
        ) by {
            assert(front[i] == rest[i]);
        }
        lemma_none_near(current, front, distance);
        assert(!near(current, rest[rest.len() - 1], distance));
        assert(front.push(rest.last()) =~= rest);
    } else {
        assert(left_over(current, rest, distance) =~= rest);
    }
}

/// Merging joins no more than it must: wherever the regions fit into boxes
/// between which there is, along one of the axes, a gap of more than
/// `distance`, so do the outputs. What keeps two regions apart keeps them
/// apart in the result.
pub proof fn law_merge_joins_no_more_than_it_must(
    regions: Seq<Region>,
    boxes: Seq<Region>,
    distance: int,
    k: int,
)
    requires
        region::all_wf(regions),
        forall|i: int, j: int|
            0 <= i < j < boxes.len() ==> ((#[trigger] boxes[i]).x - ((#[trigger] boxes[j]).x
                + boxes[j].width) > distance || boxes[j].x - (boxes[i].x + boxes[i].width)
                > distance || boxes[i].y - (boxes[j].y + boxes[j].height) > distance || boxes[j].y
                - (boxes[i].y + boxes[i].height) > distance),
        forall|m: int|
            0 <= m < regions.len() ==> exists|i: int|
                0 <= i < boxes.len() && (#[trigger] boxes[i]).x <= (#[trigger] regions[m]).x
                    && boxes[i].y <= regions[m].y && regions[m].x + regions[m].width <= boxes[i].x
                    + boxes[i].width && regions[m].y + regions[m].height <= boxes[i].y
                    + boxes[i].height,
        0 <= k < merged(regions, distance).len(),
    ensures
        exists|i: int|
            0 <= i < boxes.len() && (#[trigger] boxes[i]).x <= merged(regions, distance)[k].x
                && boxes[i].y <= merged(regions, distance)[k].y && merged(regions, distance)[k].x
                + merged(regions, distance)[k].width <= boxes[i].x + boxes[i].width && merged(
                regions,
                distance,
            )[k].y + merged(regions, distance)[k].height <= boxes[i].y + boxes[i].height,
{
    assert forall|m: int| 0 <= m < regions.len() implies enclosed(boxes, #[trigger] regions[m]) by {
        let i = choose|i: int|
            0 <= i < boxes.len() && (#[trigger] boxes[i]).x <= (#[trigger] regions[m]).x
                && boxes[i].y <= regions[m].y && regions[m].x + regions[m].width <= boxes[i].x
                + boxes[i].width && regions[m].y + regions[m].height <= boxes[i].y
                + boxes[i].height;
        assert(boxes[i].encloses(regions[m]));
    }
    assert(separated(boxes, distance)) by {
        assert forall|i: int, j: int| 0 <= i < j < boxes.len() implies !near(
            #[trigger] boxes[i],
            #[trigger] boxes[j],
            distance,
        ) by {}
    }
    lemma_merged_fits(regions, boxes, distance);
    let out = merged(regions, distance);
    assert(enclosed(boxes, out[k]));
    let i = choose|i: int| 0 <= i < boxes.len() && (#[trigger] boxes[i]).encloses(out[k]);
    assert(boxes[i].x <= out[k].x);
}

proof fn lemma_merged_fits(regions: Seq<Region>, boxes: Seq<Region>, distance: int)
    requires
        region::all_wf(regions),
        separated(boxes, distance),
        forall|m: int| 0 <= m < regions.len() ==> enclosed(boxes, #[trigger] regions[m]),
    ensures
        forall|k: int|
            0 <= k < merged(regions, distance).len() ==> enclosed(
                boxes,
                #[trigger] merged(regions, distance)[k],
            ),
    decreases regions.len(),
{
    let next = merge_pass(regions, distance);
    if next.len() < regions.len() {
        lemma_merge_pass(regions, distance);
        lemma_pass_fits(regions, boxes, distance);
        lemma_merged_fits(next, boxes, distance);
        assert(merged(regions, distance) == merged(next, distance));
    } else {
        assert(merged(regions, distance) == regions);
    }
}

proof fn lemma_pass_fits(regions: Seq<Region>, boxes: Seq<Region>, distance: int)
    requires
        region::all_wf(regions),
        separated(boxes, distance),
        forall|m: int| 0 <= m < regions.len() ==> enclosed(boxes, #[trigger] regions[m]),
    ensures
        forall|k: int|
            0 <= k < merge_pass(regions, distance).len() ==> enclosed(
                boxes,
                #[trigger] merge_pass(regions, distance)[k],
            ),
    decreases regions.len(),
{
    if regions.len() > 0 {
        let first = regions[0];
        let rest = regions.drop_first();
        let kept = left_over(first, rest, distance);
        let out = merge_pass(regions, distance);
        assert forall|m: int| 0 <= m < rest.len() implies enclosed(boxes, #[trigger] rest[m]) by {
            assert(rest[m] == regions[m + 1]);
        }
        assert forall|m: int| 0 <= m < rest.len() implies (#[trigger] rest[m]).wf() by {
            assert(rest[m] == regions[m + 1]);
        }
        lemma_grown(first, rest, distance);
        lemma_grown_wf(first, rest, distance);
        lemma_left_over_len(first, rest, distance);
        assert(enclosed(boxes, first));
        let home = choose|i: int| 0 <= i < boxes.len() && (#[trigger] boxes[i]).encloses(first);
        lemma_grown_fits(first, rest, boxes, home, distance);
        assert forall|m: int| 0 <= m < kept.len() implies enclosed(boxes, #[trigger] kept[m]) by {
            assert(rest.contains(kept[m]));
            let n = choose|n: int| 0 <= n < rest.len() && rest[n] == kept[m];
            assert(enclosed(boxes, rest[n]));
        }
        lemma_pass_fits(kept, boxes, distance);
        assert forall|k: int| 0 <= k < out.len() implies enclosed(boxes, #[trigger] out[k]) by {
            if k == 0 {
                assert(boxes[home].encloses(out[0]));
            } else {
                assert(out[k] == merge_pass(kept, distance)[k - 1]);
            }
        }
    }
}

proof fn lemma_grown_fits(
    current: Region,
    rest: Seq<Region>,
    boxes: Seq<Region>,
    home: int,
    distance: int,
)
    requires
        current.wf(),
        region::all_wf(rest),
        separated(boxes, distance),
        0 <= home < boxes.len(),
        boxes[home].encloses(current),
        forall|m: int| 0 <= m < rest.len() ==> enclosed(boxes, #[trigger] rest[m]),
    ensures
        boxes[home].encloses(grown(current, rest, distance)),
    decreases rest.len(),
{
    if rest.len() > 0 {
        let front = rest.drop_last();
        let last = rest.last();
        assert forall|m: int| 0 <= m < front.len() implies enclosed(boxes, #[trigger] front[m]) by {
            assert(front[m] == rest[m]);
        }
        lemma_grown_wf(current, front, distance);
        lemma_grown_fits(current, front, boxes, home, distance);
        let so_far = grown(current, front, distance);
        if near(so_far, last, distance) {
            assert(enclosed(boxes, rest[rest.len() - 1]));
            let other = choose|i: int| 0 <= i < boxes.len() && (#[trigger] boxes[i]).encloses(last);
            assert(near(boxes[home], boxes[other], distance));
            assert(near(boxes[other], boxes[home], distance));
            if other < home {
                assert(!near(boxes[other], boxes[home], distance));
            } else if home < other {
                assert(!near(boxes[home], boxes[other], distance));
            }
        }
    }
}

/// The outputs come in the order in which their regions first appear: of two
/// outputs, the earlier one took in a region from before any that the later
/// one took in.
pub proof fn law_merge_keeps_the_order(regions: Seq<Region>, distance: int, i: int, j: int)
    requires
        region::all_wf(regions),
        distance >= 0,
        0 <= i < j < merged(regions, distance).len(),
    ensures
        exists|k: int|
            0 <= k < regions.len() && merged(regions, distance)[i].encloses(#[trigger] regions[k])
                && forall|m: int|
                0 <= m < regions.len() && merged(regions, distance)[j].encloses(
                    #[trigger] regions[m],
                ) ==> k < m,
{
    lemma_order(regions, distance, i, j);
    let k = choose|k: int|
        opens(merged(regions, distance)[i], merged(regions, distance)[j], regions, k);
    assert(merged(regions, distance)[i].encloses(regions[k]));
}

/// Entry `k` is enclosed by `a`, and stands before all that `b` encloses.
spec fn opens(a: Region, b: Region, regions: Seq<Region>, k: int) -> bool {
    &&& 0 <= k < regions.len()
    &&& a.encloses(regions[k])
    &&& forall|m: int| 0 <= m < regions.len() && b.encloses(#[trigger] regions[m]) ==> k < m
}

proof fn lemma_order(regions: Seq<Region>, distance: int, i: int, j: int)
    requires
        region::all_wf(regions),
        distance >= 0,
        0 <= i < j < merged(regions, distance).len(),
    ensures
        exists|k: int| opens(merged(regions, distance)[i], merged(regions, distance)[j], regions, k),
    decreases regions.len(),
{
    let out = merged(regions, distance);
    let next = merge_pass(regions, distance);
    lemma_order_setup(regions, distance);
    if next.len() >= regions.len() {
        assert forall|m: int|
            0 <= m < regions.len() && out[j].encloses(#[trigger] regions[m]) implies i < m by {
            assert(out[m].encloses(regions[m]));
            lemma_one_home(out, regions[m], m, j, distance);
        }
        assert(opens(out[i], out[j], regions, i));
    } else {
        lemma_order(next, distance, i, j);
        let q = choose|q: int| opens(out[i], out[j], next, q);
        let starts = lemma_pass_starts(regions, distance);
        let k = starts[q];
        assert(next[q].encloses(regions[k]));
        assert forall|m: int|
            0 <= m < regions.len() && out[j].encloses(#[trigger] regions[m]) implies k < m by {
            let t = lemma_group_of(next, starts, regions[m], m);
            assert(enclosed(out, next[t]));
            let other = choose|o: int| 0 <= o < out.len() && (#[trigger] out[o]).encloses(next[t]);
            lemma_one_home(out, regions[m], other, j, distance);
            assert(q < t);
        }
        assert(opens(out[i], out[j], regions, k));
    }
}

proof fn lemma_order_setup(regions: Seq<Region>, distance: int)
    requires
        region::all_wf(regions),
    ensures
        separated(merged(regions, distance), distance),
        merge_pass(regions, distance).len() >= regions.len() ==> merged(regions, distance)
            == regions,
        merge_pass(regions, distance).len() < regions.len() ==> merged(regions, distance) == merged(
            merge_pass(regions, distance),
            distance,
        ),
        region::all_wf(merge_pass(regions, distance)),
        merge_pass(regions, distance).len() < regions.len() ==> forall|t: int|
            0 <= t < merge_pass(regions, distance).len() ==> enclosed(
                merged(regions, distance),
                #[trigger] merge_pass(regions, distance)[t],
            ),
{
    let next = merge_pass(regions, distance);
    law_merge_reaches_fixed_point(regions, distance);
    lemma_merge_pass(regions, distance);
    if next.len() < regions.len() {
        law_merge_groups_regions(next, distance);
        assert(merged(regions, distance) == merged(next, distance));
    }
}

/// Only one of several regions that are not near encloses another.
proof fn lemma_one_home(out: Seq<Region>, region: Region, a: int, b: int, distance: int)
    requires
        separated(out, distance),
        distance >= 0,
        0 <= a < out.len(),
        0 <= b < out.len(),
        out[a].encloses(region),
        out[b].encloses(region),
    ensures
        a == b,
{
    if a < b {
        assert(!near(out[a], out[b], distance));
    } else if b < a {
        assert(!near(out[b], out[a], distance));
    }
}

/// Where the regions that are left over stood.
proof fn lemma_left_over_places(current: Region, rest: Seq<Region>, distance: int) -> (places: Seq<
    int,
>)
    requires
        current.wf(),
        region::all_wf(rest),
    ensures
        places.len() == left_over(current, rest, distance).len(),
        forall|t: int|
            0 <= t < places.len() ==> 0 <= #[trigger] places[t] < rest.len() && left_over(
                current,
                rest,
                distance,
            )[t] == rest[places[t]],
        forall|t: int, u: int| 0 <= t < u < places.len() ==> #[trigger] places[t] < #[trigger] places[u],
        forall|m: int|
            0 <= m < rest.len() ==> grown(current, rest, distance).encloses(#[trigger] rest[m])
                || places.contains(m),
    decreases rest.len(),
{
    if rest.len() == 0 {
        Seq::empty()
    } else {
        let front = rest.drop_last();
        let last = rest.last();
        let before = lemma_left_over_places(current, front, distance);
        lemma_grown_wf(current, front, distance);
        let so_far = grown(current, front, distance);
        let places = if near(so_far, last, distance) {
            before
        } else {
            before.push(rest.len() - 1)
        };
        assert forall|t: int| 0 <= t < places.len() implies 0 <= #[trigger] places[t] < rest.len()
            && left_over(current, rest, distance)[t] == rest[places[t]] by {
            if t < before.len() {
                assert(places[t] == before[t]);
                assert(front[before[t]] == rest[before[t]]);
            }
        }
        assert forall|m: int| 0 <= m < rest.len() implies grown(current, rest, distance).encloses(
            #[trigger] rest[m],
        ) || places.contains(m) by {
            if m < front.len() {
                assert(front[m] == rest[m]);
                if before.contains(m) {
                    let t = choose|t: int| 0 <= t < before.len() && before[t] == m;
                    assert(places[t] == m);
                }
            } else if !near(so_far, last, distance) {
                assert(places[places.len() - 1] == m);
            }
        }
        places
    }
}

/// One of the groups that begin no later than at `m` encloses `region`.
#[verifier::opaque]
spec fn grouped(groups: Seq<Region>, starts: Seq<int>, region: Region, m: int) -> bool {
    exists|t: int|
        0 <= t < groups.len() && (#[trigger] groups[t]).encloses(region) && starts[t] <= m
}

proof fn lemma_group_of(groups: Seq<Region>, starts: Seq<int>, region: Region, m: int) -> (t: int)
    requires
        grouped(groups, starts, region, m),
    ensures
        0 <= t < groups.len(),
        groups[t].encloses(region),
        starts[t] <= m,
{
    reveal(grouped);
    choose|t: int|
        0 <= t < groups.len() && (#[trigger] groups[t]).encloses(region) && starts[t] <= m
}

proof fn lemma_in_group(groups: Seq<Region>, starts: Seq<int>, region: Region, m: int, t: int)
    requires
        0 <= t < groups.len(),
        groups[t].encloses(region),
        starts[t] <= m,
    ensures
        grouped(groups, starts, region, m),
{
    reveal(grouped);
}

proof fn lemma_grown_encloses(current: Region, rest: Seq<Region>, distance: int)
    requires
        current.wf(),
        region::all_wf(rest),
    ensures
        grown(current, rest, distance).encloses(current),
{
    lemma_grown(current, rest, distance);
}

/// Where the groups of a merge pass begin.
#[verifier::spinoff_prover]
#[verifier::rlimit(40)]
proof fn lemma_pass_starts(regions: Seq<Region>, distance: int) -> (starts: Seq<int>)
    requires
        region::all_wf(regions),
    ensures
        starts.len() == merge_pass(regions, distance).len(),
        forall|t: int|
            0 <= t < starts.len() ==> 0 <= #[trigger] starts[t] < regions.len() && merge_pass(
                regions,
                distance,
            )[t].encloses(regions[starts[t]]),
        forall|t: int, u: int| 0 <= t < u < starts.len() ==> #[trigger] starts[t] < #[trigger] starts[u],
        forall|m: int|
            0 <= m < regions.len() ==> grouped(
                merge_pass(regions, distance),
                starts,
                #[trigger] regions[m],
                m,
            ),
    decreases regions.len(),
{
    if regions.len() == 0 {
        Seq::empty()
    } else {
        let first = regions[0];
        let rest = regions.drop_first();
        let kept = left_over(first, rest, distance);
        let out = merge_pass(regions, distance);
        assert forall|m: int| 0 <= m < rest.len() implies (#[trigger] rest[m]).wf() by {
            assert(rest[m] == regions[m + 1]);
        }
        lemma_grown_encloses(first, rest, distance);
        lemma_grown_wf(first, rest, distance);
        lemma_left_over_len(first, rest, distance);
        let places = lemma_left_over_places(first, rest, distance);
        let later = lemma_pass_starts(kept, distance);
        let starts = seq![0int] + Seq::new(later.len(), |t: int| places[later[t]] + 1);
        assert forall|t: int| 0 <= t < starts.len() implies 0 <= #[trigger] starts[t]
            < regions.len() && out[t].encloses(regions[starts[t]]) by {
            if t > 0 {
                let s = later[t - 1];
                assert(starts[t] == places[s] + 1);
                assert(out[t] == merge_pass(kept, distance)[t - 1]);
                assert(kept[s] == rest[places[s]]);
                assert(rest[places[s]] == regions[places[s] + 1]);
            }
        }
        assert forall|t: int, u: int| 0 <= t < u < starts.len() implies #[trigger] starts[t]
            < #[trigger] starts[u] by {
            assert(starts[u] == places[later[u - 1]] + 1);
            if t > 0 {
                assert(starts[t] == places[later[t - 1]] + 1);
                assert(later[t - 1] < later[u - 1]);
            }
        }
        assert forall|m: int| 0 <= m < regions.len() implies grouped(
            out,
            starts,
            #[trigger] regions[m],
            m,
        ) by {
            if m == 0 || out[0].encloses(regions[m]) {
                lemma_in_group(out, starts, regions[m], m, 0);
            } else {
                assert(rest[m - 1] == regions[m]);
                assert(places.contains(m - 1));
                let u = choose|u: int| 0 <= u < places.len() && places[u] == m - 1;
                assert(kept[u] == rest[m - 1]);
                let t = lemma_group_of(merge_pass(kept, distance), later, kept[u], u);
                assert(out[t + 1] == merge_pass(kept, distance)[t]);
                assert(starts[t + 1] == places[later[t]] + 1);
                if later[t] < u {
                    assert(places[later[t]] < places[u]);
                }
                lemma_in_group(out, starts, regions[m], m, t + 1);
            }
        }
        starts
    }
}

} // verus!
