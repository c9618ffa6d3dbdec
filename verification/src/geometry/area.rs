//! How much of a frame is damaged.

use vstd::prelude::*;

use super::region;
use super::region::Region;

verus! {

/// The areas of all regions added up, overlaps counted as often as they
/// occur.
pub open spec fn area_sum(regions: Seq<Region>) -> int
    decreases regions.len(),
{
    if regions.len() == 0 {
        0
    } else {
        area_sum(regions.drop_last()) + regions.last().width * regions.last().height
    }
}

proof fn lemma_area_sum_take(regions: Seq<Region>, n: int)
    requires
        0 <= n <= regions.len(),
    ensures
        0 <= area_sum(regions.take(n)) <= area_sum(regions),
    decreases regions.len(),
{
    if n == regions.len() {
        assert(regions.take(n) =~= regions);
        if n > 0 {
            lemma_area_sum_take(regions.drop_last(), n - 1);
            assert(0 <= regions.last().width * regions.last().height) by (nonlinear_arith);
        }
    } else {
        lemma_area_sum_take(regions.drop_last(), n);
        assert(regions.drop_last().take(n) =~= regions.take(n));
        assert(0 <= regions.last().width * regions.last().height) by (nonlinear_arith);
    }
}

/// The summed area of `regions`, or `None` when it exceeds 64 bits.
pub fn total_area(regions: &[Region]) -> (total: Option<u64>)
    ensures
        match total {
            Some(area) => area == area_sum(regions@),
            None => area_sum(regions@) > u64::MAX,
        },
{
    let mut sum: u64 = 0;
    for i in 0..regions.len()
        invariant
            sum == area_sum(regions@.take(i as int)),
    {
        proof {
            assert(regions@.take(i + 1).drop_last() =~= regions@.take(i as int));
            lemma_area_sum_take(regions@, i + 1);
        }
        match sum.checked_add(regions[i].area()) {
            Some(next) => {
                sum = next;
            },
            None => {
                return None;
            },
        }
    }
    assert(regions@.take(regions@.len() as int) =~= regions@);
    Some(sum)
}

/// The fraction of the frame area covered by `regions`, as the damaged area
/// over the frame area; `None` when nothing changed or the frame is empty.
///
/// Sums region areas without de-duplication: overlapping inputs inflate the
/// fraction above true coverage. Feed from a merged set (see
/// [`merge_regions`](super::merge_regions)) when it drives
/// decisions.
pub fn damage_fraction(regions: &[Region], frame_width: u32, frame_height: u32) -> (fraction:
    Option<(u64, u64)>)
    requires
        (regions@.len() > 0 && frame_width > 0 && frame_height > 0) ==> area_sum(regions@)
            <= u64::MAX,
    ensures
        regions@.len() == 0 || frame_width == 0 || frame_height == 0 <==> fraction is None,
        fraction matches Some((damaged, frame)) ==> damaged == area_sum(regions@) && frame
            == frame_width * frame_height,
{
    if regions.len() == 0 {
        return None;
    }
    let frame_area = Region::full_frame(frame_width, frame_height).area();
    assert(frame_area == 0 <==> frame_width == 0 || frame_height == 0) by (nonlinear_arith)
        requires
            frame_area == frame_width * frame_height,
    ;
    if frame_area == 0 {
        return None;
    }
    match total_area(regions) {
        Some(damaged) => Some((damaged, frame_area)),
        None => None,
    }
}

// ---------------------------------------------------------------------------
// Areas count pixels
// ---------------------------------------------------------------------------

/// The pixels of a rectangle.
pub open spec fn pixels(x: int, y: int, width: int, height: int) -> Set<(int, int)> {
    Set::new(|p: (int, int)| x <= p.0 < x + width && y <= p.1 < y + height)
}

/// The pixels that a list of regions covers.
pub open spec fn covered_pixels(regions: Seq<Region>) -> Set<(int, int)> {
    Set::new(|p: (int, int)| region::covers(regions, p.0, p.1))
}

proof fn lemma_row(x: int, y: int, width: nat)
    ensures
        pixels(x, y, width as int, 1).finite(),
        pixels(x, y, width as int, 1).len() == width,
    decreases width,
{
    let row = pixels(x, y, width as int, 1);
    if width == 0 {
        assert(row =~= Set::empty());
    } else {
        let shorter = pixels(x, y, width - 1, 1);
        lemma_row(x, y, (width - 1) as nat);
        assert(row =~= shorter.insert((x + width - 1, y)));
    }
}

pub proof fn lemma_pixels(x: int, y: int, width: nat, height: nat)
    ensures
        pixels(x, y, width as int, height as int).finite(),
        pixels(x, y, width as int, height as int).len() == width * height,
    decreases height,
{
    let all = pixels(x, y, width as int, height as int);
    if height == 0 {
        assert(all =~= Set::empty());
        assert(width * height == 0) by (nonlinear_arith)
            requires
                height == 0,
        ;
    } else {
        let above = pixels(x, y, width as int, height - 1);
        let row = pixels(x, y + height - 1, width as int, 1);
        lemma_pixels(x, y, width, (height - 1) as nat);
        lemma_row(x, y + height - 1, width);
        assert(all =~= above + row);
        vstd::set_lib::lemma_set_disjoint_lens(above, row);
        assert(width * height == width * (height - 1) + width) by (nonlinear_arith);
    }
}

/// The summed area of regions that share no pixel is the number of pixels
/// they cover: nothing is counted twice.
pub proof fn law_disjoint_areas_count_pixels(regions: Seq<Region>)
    requires
        region::disjoint(regions),
    ensures
        covered_pixels(regions).finite(),
        area_sum(regions) == covered_pixels(regions).len(),
    decreases regions.len(),
{
    let all = covered_pixels(regions);
    if regions.len() == 0 {
        assert(all =~= Set::empty());
    } else {
        let front = regions.drop_last();
        let last = regions.last();
        assert(region::disjoint(front)) by {
            assert forall|i: int, j: int, px: int, py: int|
                #![trigger front[i].contains(px, py), front[j].contains(px, py)]
                0 <= i < j < front.len() implies !(front[i].contains(px, py) && front[j].contains(
                px,
                py,
            )) by {
                assert(front[i] == regions[i] && front[j] == regions[j]);
            }
        }
        law_disjoint_areas_count_pixels(front);
        let tail = pixels(last.x as int, last.y as int, last.width as int, last.height as int);
        lemma_pixels(last.x as int, last.y as int, last.width as nat, last.height as nat);
        region::lemma_covers_push(front, last);
        assert(front.push(last) =~= regions);
        assert(all =~= covered_pixels(front) + tail);
        assert(covered_pixels(front).disjoint(tail)) by {
            assert forall|p: (int, int)| covered_pixels(front).contains(p) implies !tail.contains(
                p,
            ) by {
                let i = choose|i: int|
                    0 <= i < front.len() && (#[trigger] front[i]).contains(p.0, p.1);
                assert(regions[i].contains(p.0, p.1));
                assert(!regions[regions.len() - 1].contains(p.0, p.1));
            }
        }
        vstd::set_lib::lemma_set_disjoint_lens(covered_pixels(front), tail);
        assert((last.width as nat) * (last.height as nat) == last.width * last.height);
    }
}

/// Areas add up, region by region, whether they overlap or not.
pub proof fn law_areas_add_up(regions: Seq<Region>, region: Region)
    ensures
        area_sum(Seq::empty()) == 0,
        area_sum(regions.push(region)) == area_sum(regions) + region.width * region.height,
{
    assert(regions.push(region).drop_last() =~= regions);
}

} // verus!
