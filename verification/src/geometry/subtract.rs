//! Taking away what is covered.

use vstd::prelude::*;

use super::region;
use super::region::Region;

verus! {

/// Per-region cap on fragmentation pieces before falling back to the
/// un-subtracted region. Generous for real workloads (compositor hints
/// arrive tile-aligned and coarse), while bounding the exponential.
pub const MAX_PIECES: usize = 256;

/// `region` alone when it is wanted, nothing otherwise.
pub open spec fn band(wanted: bool, region: Region) -> Seq<Region> {
    if wanted {
        seq![region]
    } else {
        Seq::empty()
    }
}

/// What is left of `p` once `c` is cut out of it: `p` itself when they do
/// not meet, else the bands to the left and to the right of the cut at full
/// height, then those above and below it.
pub open spec fn clip(p: Region, c: Region) -> Seq<Region> {
    let left = region::max_int(p.x as int, c.x as int);
    let top = region::max_int(p.y as int, c.y as int);
    let right = region::min_int(p.right(), c.right());
    let bottom = region::min_int(p.bottom(), c.bottom());
    if left >= right || top >= bottom {
        seq![p]
    } else {
        band(left > p.x, Region { width: (left - p.x) as u32, ..p }) + band(
            right < p.right(),
            Region { x: right as u32, width: (p.right() - right) as u32, ..p },
        ) + band(
            top > p.y,
            Region {
                x: left as u32,
                y: p.y,
                width: (right - left) as u32,
                height: (top - p.y) as u32,
            },
        ) + band(
            bottom < p.bottom(),
            Region {
                x: left as u32,
                y: bottom as u32,
                width: (right - left) as u32,
                height: (p.bottom() - bottom) as u32,
            },
        )
    }
}

/// `clip` applied to every piece, in order.
pub open spec fn clip_all(pieces: Seq<Region>, c: Region) -> Seq<Region>
    decreases pieces.len(),
{
    if pieces.len() == 0 {
        Seq::empty()
    } else {
        clip_all(pieces.drop_last(), c) + clip(pieces.last(), c)
    }
}

/// The pieces that remain of `whole` when every region of `covered` is cut,
/// one after the other, out of `pieces`; `whole` itself as soon as a cut
/// leaves more than `MAX_PIECES` pieces.
pub open spec fn cut_away(whole: Region, pieces: Seq<Region>, covered: Seq<Region>) -> Seq<Region>
    decreases covered.len(),
{
    if covered.len() == 0 {
        pieces
    } else {
        let next = clip_all(pieces, covered[0]);
        if next.len() == 0 {
            Seq::empty()
        } else if next.len() > MAX_PIECES {
            seq![whole]
        } else {
            cut_away(whole, next, covered.drop_first())
        }
    }
}

/// Whether the piece cap binds while `covered` is cut out of `pieces`.
pub open spec fn cap_binds(pieces: Seq<Region>, covered: Seq<Region>) -> bool
    decreases covered.len(),
{
    covered.len() > 0 && {
        let next = clip_all(pieces, covered[0]);
        ||| next.len() > MAX_PIECES
        ||| next.len() > 0 && cap_binds(next, covered.drop_first())
    }
}

/// The remainder of one region.
pub open spec fn remainder(region: Region, covered: Seq<Region>) -> Seq<Region> {
    cut_away(region, seq![region], covered)
}

/// Whether `c` spans a frame of the given size.
pub open spec fn spans_frame(c: Region, frame_width: u32, frame_height: u32) -> bool {
    c.x == 0 && c.y == 0 && c.width >= frame_width && c.height >= frame_height
}

/// Whether one region of `covered` alone spans the frame.
pub open spec fn frame_covered(
    covered: Seq<Region>,
    frame_width: u32,
    frame_height: u32,
) -> bool {
    exists|i: int|
        0 <= i < covered.len() && spans_frame(#[trigger] covered[i], frame_width, frame_height)
}

/// Whether `region` goes as a whole: it lies within the frame, and one region
/// of `covered` alone spans that.
pub open spec fn erased(
    region: Region,
    covered: Seq<Region>,
    frame_width: u32,
    frame_height: u32,
) -> bool {
    &&& frame_covered(covered, frame_width, frame_height)
    &&& region.right() <= frame_width
    &&& region.bottom() <= frame_height
}

/// What is left of one region.
pub open spec fn left_of(
    region: Region,
    covered: Seq<Region>,
    frame_width: u32,
    frame_height: u32,
) -> Seq<Region> {
    if erased(region, covered, frame_width, frame_height) {
        Seq::empty()
    } else {
        remainder(region, covered)
    }
}

/// What `subtract_regions` returns: what is left of each region, one after
/// the other.
pub open spec fn subtraction(
    regions: Seq<Region>,
    covered: Seq<Region>,
    frame_width: u32,
    frame_height: u32,
) -> Seq<Region>
    decreases regions.len(),
{
    if regions.len() == 0 {
        Seq::empty()
    } else {
        subtraction(regions.drop_last(), covered, frame_width, frame_height) + left_of(
            regions.last(),
            covered,
            frame_width,
            frame_height,
        )
    }
}

/// Push what is left of `p` once `c` is cut out of it.
fn push_clip(out: &mut Vec<Region>, p: Region, c: Region)
    requires
        p.wf(),
    ensures
        final(out)@ == old(out)@ + clip(p, c),
{
    let left = if p.x >= c.x { p.x } else { c.x };
    let top = if p.y >= c.y { p.y } else { c.y };
    let p_right = p.x + p.width;
    let p_bottom = p.y + p.height;
    let right = capped_end(c.x, c.width, p_right);
    let bottom = capped_end(c.y, c.height, p_bottom);
    if left >= right || top >= bottom {
        // Disjoint: p survives untouched.
        out.push(p);
    } else {
        // Left band.
        if left > p.x {
            out.push(Region::new(p.x, p.y, left - p.x, p.height));
        }
        // Right band.
        if right < p_right {
            out.push(Region::new(right, p.y, p_right - right, p.height));
        }
        // Top band (between left/right clip).
        if top > p.y {
            out.push(Region::new(left, p.y, right - left, top - p.y));
        }
        // Bottom band (between left/right clip).
        if bottom < p_bottom {
            out.push(Region::new(left, bottom, right - left, p_bottom - bottom));
        }
    }
    assert(out@ =~= old(out)@ + clip(p, c));
}

/// The end of an interval, or `limit` where it reaches past that.
fn capped_end(start: u32, length: u32, limit: u32) -> (end: u32)
    ensures
        end == region::min_int(limit as int, start + length),
{
    match start.checked_add(length) {
        Some(end) => {
            if limit <= end {
                limit
            } else {
                end
            }
        },
        None => limit,
    }
}

/// Cut `c` out of every piece.
fn clip_pieces(pieces: &Vec<Region>, c: Region) -> (next: Vec<Region>)
    requires
        region::all_wf(pieces@),
    ensures
        next@ == clip_all(pieces@, c),
        region::all_wf(next@),
{
    let mut next: Vec<Region> = Vec::new();
    for i in 0..pieces.len()
        invariant
            region::all_wf(pieces@),
            next@ == clip_all(pieces@.take(i as int), c),
    {
        push_clip(&mut next, pieces[i], c);
        assert(pieces@.take(i + 1).drop_last() =~= pieces@.take(i as int));
    }
    assert(pieces@.take(pieces@.len() as int) =~= pieces@);
    proof {
        lemma_clip_all(pieces@, c);
    }
    next
}

/// The parts of `region` that no region of `covered` covers, or `region`
/// itself when that takes too many pieces.
fn subtract_from(region: Region, covered: &[Region]) -> (pieces: Vec<Region>)
    requires
        region.wf(),
    ensures
        pieces@ == remainder(region, covered@),
{
    let mut pieces: Vec<Region> = Vec::new();
    pieces.push(region);
    assert(pieces@ =~= seq![region]);
    assert(covered@.skip(0) =~= covered@);
    for j in 0..covered.len()
        invariant
            region.wf(),
            region::all_wf(pieces@),
            cut_away(region, pieces@, covered@.skip(j as int)) == remainder(region, covered@),
    {
        assert(covered@.skip(j as int).drop_first() =~= covered@.skip(j + 1));
        let next = clip_pieces(&pieces, covered[j]);
        if next.len() == 0 {
            return next;
        }
        if next.len() > MAX_PIECES {
            // Fragmentation cap: return the region un-subtracted rather
            // than let the worklist multiply further. Oversending is
            // always safe; under-sending would leave stale pixels.
            let mut whole: Vec<Region> = Vec::new();
            whole.push(region);
            return whole;
        }
        pieces = next;
    }
    pieces
}

/// Subtract the coverage of `covered` from `regions`, returning the parts of
/// `regions` NOT covered by `covered`.
///
/// When the pixel-diff detector sees changed pixels that the compositor's
/// hints did not report, those missed areas must still be sent to the client:
/// anything not sent would be invisible to every future diff.
///
/// Exact rectangle subtraction with axis-aligned splitting: each input
/// region is clipped against the covered area, producing up to 4 remainder
/// rects per covered intersection. Output is not merged.
///
/// Worst case is multiplicative, so a piece cap guards it: when it binds,
/// the region is returned un-subtracted (a conservative oversend of its full
/// area).
pub fn subtract_regions(
    regions: &[Region],
    covered: &[Region],
    frame_width: u32,
    frame_height: u32,
) -> (result: Vec<Region>)
    requires
        forall|i: int|
            0 <= i < regions@.len() && covered@.len() > 0 && !erased(
                #[trigger] regions@[i],
                covered@,
                frame_width,
                frame_height,
            ) ==> regions@[i].wf(),
    ensures
        result@ == subtraction(regions@, covered@, frame_width, frame_height),
{
    let frame_erased = has_frame_cover(covered, frame_width, frame_height);
    let mut result: Vec<Region> = Vec::new();
    for i in 0..regions.len()
        invariant
            frame_erased == frame_covered(covered@, frame_width, frame_height),
            forall|k: int|
                0 <= k < regions@.len() && covered@.len() > 0 && !erased(
                    #[trigger] regions@[k],
                    covered@,
                    frame_width,
                    frame_height,
                ) ==> regions@[k].wf(),
            result@ == subtraction(
                regions@.take(i as int),
                covered@,
                frame_width,
                frame_height,
            ),
    {
        assert(regions@.take(i + 1).drop_last() =~= regions@.take(i as int));
        let region = regions[i];
        let in_frame = region.x as u64 + region.width as u64 <= frame_width as u64 && region.y as u64
            + region.height as u64 <= frame_height as u64;
        if covered.len() == 0 {
            // Nothing to subtract.
            result.push(region);
            assert(result@ =~= subtraction(
                regions@.take(i as int),
                covered@,
                frame_width,
                frame_height,
            ) + seq![region]);
        } else if frame_erased && in_frame {
            // A covered region spanning the whole frame erases what lies
            // within it.
            assert(erased(regions@[i as int], covered@, frame_width, frame_height));
            assert(result@ =~= result@ + Seq::<Region>::empty());
        } else {
            let mut pieces = subtract_from(region, covered);
            result.append(&mut pieces);
        }
    }
    assert(regions@.take(regions@.len() as int) =~= regions@);
    result
}

/// Whether one region of `covered` alone spans the frame.
fn has_frame_cover(covered: &[Region], frame_width: u32, frame_height: u32) -> (found: bool)
    ensures
        found == frame_covered(covered@, frame_width, frame_height),
{
    for i in 0..covered.len()
        invariant
            forall|k: int|
                0 <= k < i ==> !spans_frame(#[trigger] covered@[k], frame_width, frame_height),
    {
        let c = covered[i];
        if c.x == 0 && c.y == 0 && c.width >= frame_width && c.height >= frame_height {
            assert(spans_frame(covered@[i as int], frame_width, frame_height));
            return true;
        }
    }
    false
}

// ---------------------------------------------------------------------------
// What subtraction means pixel by pixel
// ---------------------------------------------------------------------------

/// Cutting `c` out of `p` leaves exactly the pixels of `p` that are not in
/// `c`, in pieces that lie within `p` and do not overlap.
proof fn lemma_clip(p: Region, c: Region)
    requires
        p.wf(),
    ensures
        region::all_wf(clip(p, c)),
        region::disjoint(clip(p, c)),
        forall|px: int, py: int|
            #[trigger] region::covers(clip(p, c), px, py) <==> p.contains(px, py) && !c.contains(px, py),
{
    let out = clip(p, c);
    let left = region::max_int(p.x as int, c.x as int);
    let top = region::max_int(p.y as int, c.y as int);
    let right = region::min_int(p.right(), c.right());
    let bottom = region::min_int(p.bottom(), c.bottom());
    if left >= right || top >= bottom {
        assert forall|px: int, py: int| #[trigger] region::covers(out, px, py) <==> p.contains(px, py)
            && !c.contains(px, py) by {
            assert(out[0] == p);
        }
    } else {
        let l = Region { width: (left - p.x) as u32, ..p };
        let r = Region { x: right as u32, width: (p.right() - right) as u32, ..p };
        let t = Region {
            x: left as u32,
            y: p.y,
            width: (right - left) as u32,
            height: (top - p.y) as u32,
        };
        let b = Region {
            x: left as u32,
            y: bottom as u32,
            width: (right - left) as u32,
            height: (p.bottom() - bottom) as u32,
        };
        let bl = band(left > p.x, l);
        let br = band(right < p.right(), r);
        let bt = band(top > p.y, t);
        let bb = band(bottom < p.bottom(), b);
        assert(out == bl + br + bt + bb);
        assert forall|px: int, py: int| #[trigger] region::covers(out, px, py) <==> p.contains(px, py)
            && !c.contains(px, py) by {
            if p.contains(px, py) && !c.contains(px, py) {
                if px < left {
                    assert(out[0].contains(px, py));
                } else if px >= right {
                    assert(out[bl.len() as int] == r);
                    assert(out[bl.len() as int].contains(px, py));
                } else if py < top {
                    assert(out[(bl.len() + br.len()) as int] == t);
                    assert(out[(bl.len() + br.len()) as int].contains(px, py));
                } else {
                    assert(out[(bl.len() + br.len() + bt.len()) as int] == b);
                    assert(out[(bl.len() + br.len() + bt.len()) as int].contains(px, py));
                }
            }
        }
    }
}

/// The same for a whole list of pieces.
proof fn lemma_clip_all(pieces: Seq<Region>, c: Region)
    requires
        region::all_wf(pieces),
    ensures
        region::all_wf(clip_all(pieces, c)),
        region::disjoint(pieces) ==> region::disjoint(clip_all(pieces, c)),
        forall|px: int, py: int|
            #[trigger] region::covers(clip_all(pieces, c), px, py) <==> region::covers(pieces, px, py)
                && !c.contains(px, py),
    decreases pieces.len(),
{
    if pieces.len() > 0 {
        let front = pieces.drop_last();
        let last = pieces.last();
        lemma_clip_all(front, c);
        lemma_clip(last, c);
        region::lemma_covers_push(front, last);
        assert(front.push(last) =~= pieces);
        region::lemma_covers_add(clip_all(front, c), clip(last, c));
        if region::disjoint(pieces) {
            assert(region::disjoint(front)) by {
                assert forall|i: int, j: int, px: int, py: int|
                    #![trigger front[i].contains(px, py), front[j].contains(px, py)]
                    0 <= i < j < front.len() implies !(front[i].contains(px, py)
                    && front[j].contains(px, py)) by {
                    assert(front[i] == pieces[i] && front[j] == pieces[j]);
                }
            }
            let a = clip_all(front, c);
            let b = clip(last, c);
            assert forall|i: int, j: int, px: int, py: int|
                #![trigger (a + b)[i].contains(px, py), (a + b)[j].contains(px, py)]
                0 <= i < j < (a + b).len() implies !((a + b)[i].contains(px, py)
                && (a + b)[j].contains(px, py)) by {
                if (a + b)[i].contains(px, py) && (a + b)[j].contains(px, py) {
                    if j < a.len() {
                        assert(a[i].contains(px, py) && a[j].contains(px, py));
                    } else if i >= a.len() {
                        assert(b[i - a.len()].contains(px, py) && b[j - a.len()].contains(px, py));
                    } else {
                        assert(a[i].contains(px, py));
                        assert(region::covers(a, px, py));
                        assert(b[j - a.len()].contains(px, py));
                        assert(region::covers(b, px, py));
                        let k = choose|k: int|
                            0 <= k < front.len() && (#[trigger] front[k]).contains(px, py);
                        assert(pieces[k].contains(px, py));
                        assert(pieces[pieces.len() - 1].contains(px, py));
                    }
                }
            }
        }
    }
}

proof fn lemma_covers_split_first(covered: Seq<Region>)
    requires
        covered.len() > 0,
    ensures
        forall|px: int, py: int|
            #[trigger] region::covers(covered, px, py) <==> covered[0].contains(px, py) || region::covers(
                covered.drop_first(),
                px,
                py,
            ),
{
    assert(covered =~= seq![covered[0]] + covered.drop_first());
    region::lemma_covers_add(seq![covered[0]], covered.drop_first());
    assert forall|px: int, py: int|
        #[trigger] region::covers(seq![covered[0]], px, py) <==> covered[0].contains(px, py) by {
        assert(seq![covered[0]][0] == covered[0]);
    }
}

proof fn lemma_cut_away(whole: Region, pieces: Seq<Region>, covered: Seq<Region>)
    requires
        whole.wf(),
        region::all_wf(pieces),
        pieces.len() <= MAX_PIECES,
        region::disjoint(pieces),
        forall|px: int, py: int| #[trigger] region::covers(pieces, px, py) ==> whole.contains(px, py),
    ensures
        region::all_wf(cut_away(whole, pieces, covered)),
        region::disjoint(cut_away(whole, pieces, covered)),
        cut_away(whole, pieces, covered).len() <= MAX_PIECES,
        forall|px: int, py: int| #[trigger]
            region::covers(cut_away(whole, pieces, covered), px, py) ==> whole.contains(px, py),
        forall|px: int, py: int|
            region::covers(pieces, px, py) && !region::covers(covered, px, py) ==> #[trigger] region::covers(
                cut_away(whole, pieces, covered),
                px,
                py,
            ),
        !cap_binds(pieces, covered) ==> forall|px: int, py: int| #[trigger]
            region::covers(cut_away(whole, pieces, covered), px, py) ==> region::covers(pieces, px, py) && !region::covers(
                covered,
                px,
                py,
            ),
    decreases covered.len(),
{
    if covered.len() > 0 {
        let next = clip_all(pieces, covered[0]);
        lemma_clip_all(pieces, covered[0]);
        lemma_covers_split_first(covered);
        if next.len() == 0 {
            assert forall|px: int, py: int|
                region::covers(pieces, px, py) && !region::covers(covered, px, py) implies #[trigger] region::covers(
                cut_away(whole, pieces, covered),
                px,
                py,
            ) by {
                assert(region::covers(next, px, py));
            }
        } else if next.len() > MAX_PIECES {
            assert forall|px: int, py: int|
                #[trigger] region::covers(seq![whole], px, py) <==> whole.contains(px, py) by {
                assert(seq![whole][0] == whole);
            }
        } else {
            lemma_cut_away(whole, next, covered.drop_first());
            assert forall|px: int, py: int|
                region::covers(pieces, px, py) && !region::covers(covered, px, py) implies #[trigger] region::covers(
                cut_away(whole, pieces, covered),
                px,
                py,
            ) by {
                assert(region::covers(next, px, py));
            }
        }
    } else {
        assert forall|px: int, py: int| !region::covers(covered, px, py) by {}
    }
}

/// What remains of a single region: it lies within the region, keeps every
/// uncovered pixel, consists of at most `MAX_PIECES` rectangles that do not
/// overlap, and holds no covered pixel unless the piece cap binds.
pub proof fn law_remainder(region: Region, covered: Seq<Region>)
    requires
        region.wf(),
    ensures
        region::all_wf(remainder(region, covered)),
        region::disjoint(remainder(region, covered)),
        remainder(region, covered).len() <= MAX_PIECES,
        forall|px: int, py: int| #[trigger]
            region::covers(remainder(region, covered), px, py) ==> region.contains(px, py),
        forall|px: int, py: int|
            region.contains(px, py) && !region::covers(covered, px, py) ==> #[trigger] region::covers(
                remainder(region, covered),
                px,
                py,
            ),
        !cap_binds(seq![region], covered) ==> forall|px: int, py: int| #[trigger]
            region::covers(remainder(region, covered), px, py) ==> !region::covers(covered, px, py),
        cap_binds(seq![region], covered) ==> remainder(region, covered) == seq![region],
{
    assert forall|px: int, py: int|
        #[trigger] region::covers(seq![region], px, py) <==> region.contains(px, py) by {
        assert(seq![region][0] == region);
    }
    lemma_cut_away(region, seq![region], covered);
    assert forall|px: int, py: int|
        region.contains(px, py) && !region::covers(covered, px, py) implies #[trigger] region::covers(
        remainder(region, covered),
        px,
        py,
    ) by {
        assert(region::covers(seq![region], px, py));
    }
    if cap_binds(seq![region], covered) {
        lemma_cap_returns_whole(region, seq![region], covered);
    }
}

proof fn lemma_cap_returns_whole(whole: Region, pieces: Seq<Region>, covered: Seq<Region>)
    requires
        cap_binds(pieces, covered),
    ensures
        cut_away(whole, pieces, covered) == seq![whole],
    decreases covered.len(),
{
    let next = clip_all(pieces, covered[0]);
    if next.len() <= MAX_PIECES {
        lemma_cap_returns_whole(whole, next, covered.drop_first());
    }
}

/// What is left of a single region keeps every uncovered pixel of it and adds
/// none.
proof fn lemma_left_of(region: Region, covered: Seq<Region>, frame_width: u32, frame_height: u32)
    requires
        region.wf(),
    ensures
        region::all_wf(left_of(region, covered, frame_width, frame_height)),
        left_of(region, covered, frame_width, frame_height).len() <= MAX_PIECES,
        forall|px: int, py: int| #[trigger]
            region::covers(left_of(region, covered, frame_width, frame_height), px, py)
                ==> region.contains(px, py),
        forall|px: int, py: int|
            region.contains(px, py) && !region::covers(covered, px, py)
                ==> #[trigger] region::covers(
                left_of(region, covered, frame_width, frame_height),
                px,
                py,
            ),
        !cap_binds(seq![region], covered) ==> forall|px: int, py: int| #[trigger]
            region::covers(left_of(region, covered, frame_width, frame_height), px, py)
                ==> !region::covers(covered, px, py),
{
    law_remainder(region, covered);
    if erased(region, covered, frame_width, frame_height) {
        let i = choose|i: int|
            0 <= i < covered.len() && spans_frame(
                #[trigger] covered[i],
                frame_width,
                frame_height,
            );
        assert forall|px: int, py: int| region.contains(px, py) implies region::covers(
            covered,
            px,
            py,
        ) by {
            assert(covered[i].contains(px, py));
        }
    }
}

proof fn lemma_subtraction(
    regions: Seq<Region>,
    covered: Seq<Region>,
    frame_width: u32,
    frame_height: u32,
)
    requires
        region::all_wf(regions),
    ensures
        region::all_wf(subtraction(regions, covered, frame_width, frame_height)),
        subtraction(regions, covered, frame_width, frame_height).len() <= MAX_PIECES
            * regions.len(),
        forall|px: int, py: int| #[trigger]
            region::covers(subtraction(regions, covered, frame_width, frame_height), px, py)
                ==> region::covers(regions, px, py),
        forall|px: int, py: int|
            region::covers(regions, px, py) && !region::covers(covered, px, py)
                ==> #[trigger] region::covers(
                subtraction(regions, covered, frame_width, frame_height),
                px,
                py,
            ),
        (forall|i: int| 0 <= i < regions.len() ==> !cap_binds(seq![#[trigger] regions[i]], covered))
            ==> forall|px: int, py: int| #[trigger]
            region::covers(subtraction(regions, covered, frame_width, frame_height), px, py)
                ==> !region::covers(covered, px, py),
    decreases regions.len(),
{
    if regions.len() > 0 {
        let front = regions.drop_last();
        let last = regions.last();
        lemma_subtraction(front, covered, frame_width, frame_height);
        assert(regions[regions.len() - 1] == last);
        lemma_left_of(last, covered, frame_width, frame_height);
        region::lemma_covers_add(
            subtraction(front, covered, frame_width, frame_height),
            left_of(last, covered, frame_width, frame_height),
        );
        region::lemma_covers_push(front, last);
        assert(front.push(last) =~= regions);
        assert(forall|i: int| 0 <= i < front.len() ==> front[i] == regions[i]);
    }
}

/// Nothing uncovered is ever lost: every pixel of `regions` that no region
/// of `covered` holds is still in the result.
pub proof fn law_subtraction_loses_nothing(
    regions: Seq<Region>,
    covered: Seq<Region>,
    frame_width: u32,
    frame_height: u32,
    px: int,
    py: int,
)
    requires
        region::all_wf(regions),
        region::covers(regions, px, py),
        !region::covers(covered, px, py),
    ensures
        region::covers(subtraction(regions, covered, frame_width, frame_height), px, py),
{
    lemma_subtraction(regions, covered, frame_width, frame_height);
}

/// Subtraction invents nothing: every pixel of the result is in `regions`.
pub proof fn law_subtraction_adds_nothing(
    regions: Seq<Region>,
    covered: Seq<Region>,
    frame_width: u32,
    frame_height: u32,
    px: int,
    py: int,
)
    requires
        region::all_wf(regions),
        region::covers(subtraction(regions, covered, frame_width, frame_height), px, py),
    ensures
        region::covers(regions, px, py),
{
    lemma_subtraction(regions, covered, frame_width, frame_height);
}

/// Subtraction is exact: where the piece cap binds for no region, no pixel
/// of the result is covered.
pub proof fn law_subtraction_is_exact(
    regions: Seq<Region>,
    covered: Seq<Region>,
    frame_width: u32,
    frame_height: u32,
    px: int,
    py: int,
)
    requires
        region::all_wf(regions),
        forall|i: int| 0 <= i < regions.len() ==> !cap_binds(seq![#[trigger] regions[i]], covered),
        region::covers(subtraction(regions, covered, frame_width, frame_height), px, py),
    ensures
        !region::covers(covered, px, py),
{
    lemma_subtraction(regions, covered, frame_width, frame_height);
}

/// The output is bounded whatever the covering set looks like.
pub proof fn law_subtraction_is_bounded(
    regions: Seq<Region>,
    covered: Seq<Region>,
    frame_width: u32,
    frame_height: u32,
)
    requires
        region::all_wf(regions),
    ensures
        subtraction(regions, covered, frame_width, frame_height).len() <= 256 * regions.len(),
        region::all_wf(subtraction(regions, covered, frame_width, frame_height)),
{
    lemma_subtraction(regions, covered, frame_width, frame_height);
}

// ---------------------------------------------------------------------------
// How the pieces come about
// ---------------------------------------------------------------------------

/// Regions are dealt with one by one, in order: the result for a list is the
/// results for its parts, one after the other.
pub proof fn law_subtraction_goes_region_by_region(
    first: Seq<Region>,
    second: Seq<Region>,
    covered: Seq<Region>,
    frame_width: u32,
    frame_height: u32,
)
    ensures
        subtraction(first + second, covered, frame_width, frame_height) == subtraction(
            first,
            covered,
            frame_width,
            frame_height,
        ) + subtraction(second, covered, frame_width, frame_height),
    decreases second.len(),
{
    let all = subtraction(first, covered, frame_width, frame_height);
    if second.len() == 0 {
        assert(first + second =~= first);
        assert(all + Seq::<Region>::empty() =~= all);
    } else {
        let front = second.drop_last();
        law_subtraction_goes_region_by_region(first, front, covered, frame_width, frame_height);
        assert((first + second).drop_last() =~= first + front);
        assert((first + second).last() == second.last());
        assert(subtraction(first + second, covered, frame_width, frame_height) =~= all
            + subtraction(second, covered, frame_width, frame_height));
    }
}

/// A region that meets no covered one comes back as it is.
pub proof fn law_uncovered_region_is_untouched(
    region: Region,
    covered: Seq<Region>,
    frame_width: u32,
    frame_height: u32,
)
    requires
        region.width > 0,
        region.height > 0,
        forall|i: int|
            0 <= i < covered.len() ==> ((#[trigger] covered[i]).width == 0 || covered[i].height == 0
                || covered[i].x + covered[i].width <= region.x || region.x + region.width
                <= covered[i].x || covered[i].y + covered[i].height <= region.y || region.y
                + region.height <= covered[i].y),
    ensures
        subtraction(seq![region], covered, frame_width, frame_height) == seq![region],
{
    lemma_cut_nothing(region, covered);
    lemma_subtraction_single(region, covered, frame_width, frame_height);
    if erased(region, covered, frame_width, frame_height) {
        let i = choose|i: int|
            0 <= i < covered.len() && spans_frame(
                #[trigger] covered[i],
                frame_width,
                frame_height,
            );
        assert(covered[i].width > 0);
    }
}

proof fn lemma_subtraction_single(
    region: Region,
    covered: Seq<Region>,
    frame_width: u32,
    frame_height: u32,
)
    ensures
        subtraction(seq![region], covered, frame_width, frame_height) == left_of(
            region,
            covered,
            frame_width,
            frame_height,
        ),
{
    assert(seq![region].drop_last() =~= Seq::empty());
    assert(subtraction(seq![region].drop_last(), covered, frame_width, frame_height)
        =~= Seq::empty());
    assert(Seq::<Region>::empty() + left_of(region, covered, frame_width, frame_height) =~= left_of(
        region,
        covered,
        frame_width,
        frame_height,
    ));
}

proof fn lemma_cut_nothing(region: Region, covered: Seq<Region>)
    requires
        forall|i: int|
            0 <= i < covered.len() ==> ((#[trigger] covered[i]).width == 0 || covered[i].height == 0
                || covered[i].x + covered[i].width <= region.x || region.x + region.width
                <= covered[i].x || covered[i].y + covered[i].height <= region.y || region.y
                + region.height <= covered[i].y),
    ensures
        remainder(region, covered) == seq![region],
    decreases covered.len(),
{
    if covered.len() > 0 {
        lemma_clip_one(region, covered[0]);
        assert(clip(region, covered[0]) == seq![region]);
        let rest = covered.drop_first();
        assert forall|i: int| 0 <= i < rest.len() implies ((#[trigger] rest[i]).width == 0
            || rest[i].height == 0 || rest[i].x + rest[i].width <= region.x || region.x
            + region.width <= rest[i].x || rest[i].y + rest[i].height <= region.y || region.y
            + region.height <= rest[i].y) by {
            assert(rest[i] == covered[i + 1]);
        }
        lemma_cut_nothing(region, rest);
    }
}

proof fn lemma_clip_one(p: Region, c: Region)
    ensures
        clip_all(seq![p], c) == clip(p, c),
{
    assert(seq![p].drop_last() =~= Seq::empty());
    assert(clip_all(seq![p].drop_last(), c) =~= Seq::empty());
    assert(Seq::<Region>::empty() + clip(p, c) =~= clip(p, c));
}

/// One covered region leaves at most four pieces of a region.
pub proof fn law_one_cut_leaves_at_most_four_pieces(
    region: Region,
    c: Region,
    frame_width: u32,
    frame_height: u32,
)
    ensures
        subtraction(seq![region], seq![c], frame_width, frame_height).len() <= 4,
{
    lemma_subtraction_single(region, seq![c], frame_width, frame_height);
    lemma_one_cut(region, c);
}

/// Cutting one region out of another never meets the piece cap.
proof fn lemma_one_cut(p: Region, c: Region)
    ensures
        remainder(p, seq![c]) == clip(p, c),
        clip(p, c).len() <= 4,
{
    lemma_clip_one(p, c);
    assert(seq![c][0] == c);
    assert(seq![c].drop_first() =~= Seq::empty());
    if clip(p, c).len() == 0 {
        assert(clip(p, c) =~= Seq::empty());
    } else {
        assert(cut_away(p, clip(p, c), seq![c].drop_first()) == clip(p, c));
    }
}

/// Subtraction is cumulative: to subtract one more region, subtract it from
/// what the others left. That is so as long as what the others left is exact
/// and the new pieces are at most 256.
pub proof fn law_subtraction_is_cumulative(
    region: Region,
    covered: Seq<Region>,
    c: Region,
    frame_width: u32,
    frame_height: u32,
)
    requires
        region.wf(),
        region.width > 0,
        region.height > 0,
        ({
            let before = subtraction(seq![region], covered, frame_width, frame_height);
            &&& forall|px: int, py: int| #[trigger]
                region::covers(before, px, py) ==> !region::covers(covered, px, py)
            &&& subtraction(before, seq![c], frame_width, frame_height).len() <= 256
        }),
    ensures
        subtraction(seq![region], covered.push(c), frame_width, frame_height) == subtraction(
            subtraction(seq![region], covered, frame_width, frame_height),
            seq![c],
            frame_width,
            frame_height,
        ),
{
    let before = subtraction(seq![region], covered, frame_width, frame_height);
    let all = covered.push(c);
    lemma_subtraction_single(region, covered, frame_width, frame_height);
    lemma_subtraction_single(region, all, frame_width, frame_height);
    if erased(region, covered, frame_width, frame_height) {
        let i = choose|i: int|
            0 <= i < covered.len() && spans_frame(
                #[trigger] covered[i],
                frame_width,
                frame_height,
            );
        assert(all[i] == covered[i]);
        assert(erased(region, all, frame_width, frame_height));
    } else {
        lemma_parts(region, seq![region], covered);
        lemma_clip_each(before, c, frame_width, frame_height);
        if cap_binds(seq![region], covered) {
            lemma_cap_is_inexact(region, covered);
        }
        lemma_cut_one_more(region, seq![region], covered, c);
        if erased(region, all, frame_width, frame_height) {
            let i = choose|i: int|
                0 <= i < all.len() && spans_frame(#[trigger] all[i], frame_width, frame_height);
            if i < covered.len() {
                assert(covered[i] == all[i]);
                assert(false);
            }
            lemma_clip_all_gone(before, c, frame_width, frame_height);
        }
    }
}

/// The pieces of a region are not empty and lie within it.
proof fn lemma_parts(whole: Region, pieces: Seq<Region>, covered: Seq<Region>)
    requires
        whole.wf(),
        whole.width > 0,
        whole.height > 0,
        forall|i: int|
            0 <= i < pieces.len() ==> (#[trigger] pieces[i]).width > 0 && pieces[i].height > 0
                && whole.encloses(pieces[i]),
    ensures
        forall|i: int|
            0 <= i < cut_away(whole, pieces, covered).len() ==> (#[trigger] cut_away(
                whole,
                pieces,
                covered,
            )[i]).width > 0 && cut_away(whole, pieces, covered)[i].height > 0 && whole.encloses(
                cut_away(whole, pieces, covered)[i],
            ),
    decreases covered.len(),
{
    if covered.len() > 0 {
        let next = clip_all(pieces, covered[0]);
        lemma_clip_parts(whole, pieces, covered[0]);
        let out = cut_away(whole, pieces, covered);
        if 0 < next.len() <= MAX_PIECES {
            lemma_parts(whole, next, covered.drop_first());
            assert(out == cut_away(whole, next, covered.drop_first()));
        } else if next.len() > 0 {
            assert(out == seq![whole]);
            assert(whole.encloses(whole));
        }
    }
}

proof fn lemma_clip_parts(whole: Region, pieces: Seq<Region>, c: Region)
    requires
        whole.wf(),
        forall|i: int|
            0 <= i < pieces.len() ==> (#[trigger] pieces[i]).width > 0 && pieces[i].height > 0
                && whole.encloses(pieces[i]),
    ensures
        forall|i: int|
            0 <= i < clip_all(pieces, c).len() ==> (#[trigger] clip_all(pieces, c)[i]).width > 0
                && clip_all(pieces, c)[i].height > 0 && whole.encloses(clip_all(pieces, c)[i]),
    decreases pieces.len(),
{
    if pieces.len() > 0 {
        let front = pieces.drop_last();
        let last = pieces.last();
        assert(pieces[pieces.len() - 1] == last);
        assert forall|i: int| 0 <= i < front.len() implies (#[trigger] front[i]).width > 0
            && front[i].height > 0 && whole.encloses(front[i]) by {
            assert(front[i] == pieces[i]);
        }
        lemma_clip_parts(whole, front, c);
        let a = clip_all(front, c);
        let b = clip(last, c);
        assert forall|i: int| 0 <= i < b.len() implies (#[trigger] b[i]).width > 0 && b[i].height
            > 0 && whole.encloses(b[i]) by {}
        assert forall|i: int| 0 <= i < (a + b).len() implies (#[trigger] (a + b)[i]).width > 0
            && (a + b)[i].height > 0 && whole.encloses((a + b)[i]) by {
            if i < a.len() {
                assert((a + b)[i] == a[i]);
            } else {
                assert((a + b)[i] == b[i - a.len()]);
            }
        }
    }
}

/// Subtracting one region from a list of pieces cuts it out of each.
proof fn lemma_clip_each(pieces: Seq<Region>, c: Region, frame_width: u32, frame_height: u32)
    requires
        forall|i: int|
            0 <= i < pieces.len() ==> (#[trigger] pieces[i]).width > 0 && pieces[i].height > 0,
    ensures
        subtraction(pieces, seq![c], frame_width, frame_height) == clip_all(pieces, c),
    decreases pieces.len(),
{
    if pieces.len() > 0 {
        let front = pieces.drop_last();
        let last = pieces.last();
        assert(pieces[pieces.len() - 1] == last);
        assert forall|i: int| 0 <= i < front.len() implies (#[trigger] front[i]).width > 0
            && front[i].height > 0 by {
            assert(front[i] == pieces[i]);
        }
        lemma_clip_each(front, c, frame_width, frame_height);
        lemma_one_cut(last, c);
        if erased(last, seq![c], frame_width, frame_height) {
            assert(spans_frame(c, frame_width, frame_height)) by {
                let i = choose|i: int|
                    0 <= i < seq![c].len() && spans_frame(
                        #[trigger] seq![c][i],
                        frame_width,
                        frame_height,
                    );
                assert(seq![c][i] == c);
            }
            assert(clip(last, c) =~= Seq::empty());
        }
    }
}

proof fn lemma_clip_all_gone(pieces: Seq<Region>, c: Region, frame_width: u32, frame_height: u32)
    requires
        spans_frame(c, frame_width, frame_height),
        forall|i: int|
            0 <= i < pieces.len() ==> (#[trigger] pieces[i]).width > 0 && pieces[i].height > 0
                && pieces[i].right() <= frame_width && pieces[i].bottom() <= frame_height,
    ensures
        clip_all(pieces, c) == Seq::<Region>::empty(),
    decreases pieces.len(),
{
    if pieces.len() > 0 {
        let front = pieces.drop_last();
        let last = pieces.last();
        assert(pieces[pieces.len() - 1] == last);
        assert forall|i: int| 0 <= i < front.len() implies (#[trigger] front[i]).width > 0
            && front[i].height > 0 && front[i].right() <= frame_width && front[i].bottom()
            <= frame_height by {
            assert(front[i] == pieces[i]);
        }
        lemma_clip_all_gone(front, c, frame_width, frame_height);
        assert(clip(last, c) =~= Seq::empty());
        assert(clip_all(pieces, c) =~= Seq::empty());
    }
}

/// Cutting out one region more.
proof fn lemma_cut_one_more(whole: Region, pieces: Seq<Region>, covered: Seq<Region>, c: Region)
    requires
        !cap_binds(pieces, covered),
    ensures
        ({
            let cut = clip_all(cut_away(whole, pieces, covered), c);
            cut_away(whole, pieces, covered.push(c)) == if cut.len() == 0 {
                Seq::empty()
            } else if cut.len() > MAX_PIECES {
                seq![whole]
            } else {
                cut
            }
        }),
    decreases covered.len(),
{
    let all = covered.push(c);
    if covered.len() == 0 {
        assert(all[0] == c);
        assert(all.drop_first() =~= Seq::empty());
        let cut = clip_all(pieces, c);
        assert(cut_away(whole, cut, all.drop_first()) == cut);
    } else {
        assert(all[0] == covered[0]);
        assert(all.drop_first() =~= covered.drop_first().push(c));
        let next = clip_all(pieces, covered[0]);
        if next.len() > 0 {
            lemma_cut_one_more(whole, next, covered.drop_first(), c);
        } else {
            assert(cut_away(whole, pieces, covered) =~= Seq::empty());
            assert(clip_all(cut_away(whole, pieces, covered), c) =~= Seq::empty());
        }
    }
}

/// Where the piece cap binds, the region comes back whole although part of it
/// is covered.
proof fn lemma_cap_is_inexact(region: Region, covered: Seq<Region>)
    requires
        region.wf(),
        region.width > 0,
        region.height > 0,
        cap_binds(seq![region], covered),
    ensures
        remainder(region, covered) == seq![region],
        exists|px: int, py: int| #[trigger]
            region::covers(seq![region], px, py) && region::covers(covered, px, py),
{
    law_remainder(region, covered);
    if forall|i: int|
        0 <= i < covered.len() ==> ((#[trigger] covered[i]).width == 0 || covered[i].height == 0
            || covered[i].x + covered[i].width <= region.x || region.x + region.width
            <= covered[i].x || covered[i].y + covered[i].height <= region.y || region.y
            + region.height <= covered[i].y) {
        lemma_untouched_never_caps(region, covered);
    } else {
        let i = choose|i: int|
            0 <= i < covered.len() && !((#[trigger] covered[i]).width == 0 || covered[i].height == 0
                || covered[i].x + covered[i].width <= region.x || region.x + region.width
                <= covered[i].x || covered[i].y + covered[i].height <= region.y || region.y
                + region.height <= covered[i].y);
        let px = region::max_int(region.x as int, covered[i].x as int);
        let py = region::max_int(region.y as int, covered[i].y as int);
        assert(covered[i].contains(px, py));
        assert(seq![region][0].contains(px, py));
        assert(region::covers(seq![region], px, py) && region::covers(covered, px, py));
    }
}

proof fn lemma_untouched_never_caps(region: Region, covered: Seq<Region>)
    requires
        forall|i: int|
            0 <= i < covered.len() ==> ((#[trigger] covered[i]).width == 0 || covered[i].height == 0
                || covered[i].x + covered[i].width <= region.x || region.x + region.width
                <= covered[i].x || covered[i].y + covered[i].height <= region.y || region.y
                + region.height <= covered[i].y),
    ensures
        !cap_binds(seq![region], covered),
    decreases covered.len(),
{
    if covered.len() > 0 {
        lemma_clip_one(region, covered[0]);
        assert(clip(region, covered[0]) == seq![region]);
        let rest = covered.drop_first();
        assert forall|i: int| 0 <= i < rest.len() implies ((#[trigger] rest[i]).width == 0
            || rest[i].height == 0 || rest[i].x + rest[i].width <= region.x || region.x
            + region.width <= rest[i].x || rest[i].y + rest[i].height <= region.y || region.y
            + region.height <= rest[i].y) by {
            assert(rest[i] == covered[i + 1]);
        }
        lemma_untouched_never_caps(region, rest);
    }
}

/// A region is either cut exactly or comes back whole: no pixel of the result
/// is covered, or the result is the region itself.
pub proof fn law_subtraction_is_exact_or_idle(
    region: Region,
    covered: Seq<Region>,
    frame_width: u32,
    frame_height: u32,
)
    requires
        region.wf(),
    ensures
        subtraction(seq![region], covered, frame_width, frame_height) == seq![region] || forall|
            px: int,
            py: int,
        | #[trigger]
            region::covers(
                subtraction(seq![region], covered, frame_width, frame_height),
                px,
                py,
            ) ==> !region::covers(covered, px, py),
{
    lemma_subtraction_single(region, covered, frame_width, frame_height);
    lemma_left_of(region, covered, frame_width, frame_height);
    law_remainder(region, covered);
}

/// Four covered regions or fewer are always cut out exactly: a pixel is left
/// if and only if it belongs to a region and to no covered one.
pub proof fn law_few_cuts_are_exact(
    regions: Seq<Region>,
    covered: Seq<Region>,
    frame_width: u32,
    frame_height: u32,
    px: int,
    py: int,
)
    requires
        region::all_wf(regions),
        covered.len() <= 4,
    ensures
        region::covers(subtraction(regions, covered, frame_width, frame_height), px, py)
            <==> region::covers(regions, px, py) && !region::covers(covered, px, py),
{
    lemma_subtraction(regions, covered, frame_width, frame_height);
    assert forall|i: int| 0 <= i < regions.len() implies !cap_binds(
        seq![#[trigger] regions[i]],
        covered,
    ) by {
        reveal_with_fuel(fourfold, 5);
        assert(fourfold(covered.len()) <= 256);
        assert(seq![regions[i]].len() * fourfold(covered.len()) == fourfold(covered.len()))
            by (nonlinear_arith)
            requires
                seq![regions[i]].len() == 1,
        ;
        lemma_few_never_cap(seq![regions[i]], covered);
    }
}

spec fn fourfold(n: nat) -> nat
    decreases n,
{
    if n == 0 {
        1
    } else {
        4 * fourfold((n - 1) as nat)
    }
}

proof fn lemma_few_never_cap(pieces: Seq<Region>, covered: Seq<Region>)
    requires
        pieces.len() * fourfold(covered.len()) <= 256,
    ensures
        !cap_binds(pieces, covered),
    decreases covered.len(),
{
    if covered.len() > 0 {
        let next = clip_all(pieces, covered[0]);
        lemma_clip_all_len(pieces, covered[0]);
        let below = fourfold((covered.len() - 1) as nat);
        lemma_fourfold((covered.len() - 1) as nat);
        assert(next.len() * below <= (4 * pieces.len()) * below) by (nonlinear_arith)
            requires
                next.len() <= 4 * pieces.len(),
        ;
        assert((4 * pieces.len()) * below == pieces.len() * (4 * below)) by (nonlinear_arith);
        assert(next.len() <= next.len() * below) by (nonlinear_arith)
            requires
                below >= 1,
        ;
        lemma_few_never_cap(next, covered.drop_first());
    }
}

proof fn lemma_fourfold(n: nat)
    ensures
        fourfold(n) >= 1,
    decreases n,
{
    if n > 0 {
        lemma_fourfold((n - 1) as nat);
    }
}

proof fn lemma_clip_all_len(pieces: Seq<Region>, c: Region)
    ensures
        clip_all(pieces, c).len() <= 4 * pieces.len(),
    decreases pieces.len(),
{
    if pieces.len() > 0 {
        lemma_clip_all_len(pieces.drop_last(), c);
        lemma_one_cut(pieces.last(), c);
    }
}

/// A region within the frame is gone where one covered region spans that.
pub proof fn law_covered_frame_leaves_nothing(
    regions: Seq<Region>,
    covered: Seq<Region>,
    frame_width: u32,
    frame_height: u32,
    k: int,
)
    requires
        0 <= k < covered.len(),
        covered[k].x == 0,
        covered[k].y == 0,
        covered[k].width >= frame_width,
        covered[k].height >= frame_height,
        forall|i: int|
            0 <= i < regions.len() ==> (#[trigger] regions[i]).x + regions[i].width <= frame_width
                && regions[i].y + regions[i].height <= frame_height,
    ensures
        subtraction(regions, covered, frame_width, frame_height) == Seq::<Region>::empty(),
    decreases regions.len(),
{
    if regions.len() > 0 {
        let front = regions.drop_last();
        assert(spans_frame(covered[k], frame_width, frame_height));
        assert(regions[regions.len() - 1] == regions.last());
        assert forall|i: int| 0 <= i < front.len() implies (#[trigger] front[i]).x + front[i].width
            <= frame_width && front[i].y + front[i].height <= frame_height by {
            assert(front[i] == regions[i]);
        }
        law_covered_frame_leaves_nothing(front, covered, frame_width, frame_height, k);
        assert(subtraction(regions, covered, frame_width, frame_height) =~= Seq::empty());
    }
}

/// Where nothing is covered, the regions come back as they are.
pub proof fn law_nothing_covered_changes_nothing(
    regions: Seq<Region>,
    frame_width: u32,
    frame_height: u32,
)
    ensures
        subtraction(regions, Seq::empty(), frame_width, frame_height) == regions,
    decreases regions.len(),
{
    if regions.len() > 0 {
        law_nothing_covered_changes_nothing(regions.drop_last(), frame_width, frame_height);
        assert(left_of(regions.last(), Seq::empty(), frame_width, frame_height) == seq![
            regions.last(),
        ]);
        assert(regions.drop_last() + seq![regions.last()] =~= regions);
    }
}

} // verus!
