//! Rectangles, and lists of them as sets of pixels.

use vstd::prelude::*;

verus! {

/// An axis-aligned rectangular region of a frame, in exclusive-LTRB form
/// (right/bottom are one past the last covered pixel).
#[derive(Debug, Clone, Copy, PartialEq, Eq, Hash)]
pub struct Region {
    /// X coordinate of the region (pixels from left).
    pub x: u32,
    /// Y coordinate of the region (pixels from top).
    pub y: u32,
    /// Width of the region in pixels.
    pub width: u32,
    /// Height of the region in pixels.
    pub height: u32,
}

pub open spec fn min_int(a: int, b: int) -> int {
    if a <= b {
        a
    } else {
        b
    }
}

pub open spec fn max_int(a: int, b: int) -> int {
    if a >= b {
        a
    } else {
        b
    }
}

impl Region {
    /// One past the last covered column.
    pub open spec fn right(self) -> int {
        self.x + self.width
    }

    /// One past the last covered row.
    pub open spec fn bottom(self) -> int {
        self.y + self.height
    }

    /// The right and bottom bounds are coordinates themselves.
    pub open spec fn wf(self) -> bool {
        &&& self.right() <= u32::MAX
        &&& self.bottom() <= u32::MAX
    }

    /// Whether the pixel `(px, py)` belongs to the region.
    pub open spec fn contains(self, px: int, py: int) -> bool {
        &&& self.x <= px < self.right()
        &&& self.y <= py < self.bottom()
    }

    /// Whether the bounds of `other` lie within the bounds of `self`.
    pub open spec fn encloses(self, other: Region) -> bool {
        &&& self.x <= other.x
        &&& self.y <= other.y
        &&& other.right() <= self.right()
        &&& other.bottom() <= self.bottom()
    }

    /// The smallest region whose bounds enclose those of `self` and `other`.
    pub open spec fn hull(self, other: Region) -> Region {
        let x = min_int(self.x as int, other.x as int);
        let y = min_int(self.y as int, other.y as int);
        Region {
            x: x as u32,
            y: y as u32,
            width: (max_int(self.right(), other.right()) - x) as u32,
            height: (max_int(self.bottom(), other.bottom()) - y) as u32,
        }
    }

    /// Construct from position and size.
    pub fn new(x: u32, y: u32, width: u32, height: u32) -> (region: Self)
        ensures
            region == (Region { x, y, width, height }),
    {
        Region { x, y, width, height }
    }

    /// A region covering the whole frame of the given size.
    pub fn full_frame(width: u32, height: u32) -> (region: Self)
        ensures
            region == (Region { x: 0, y: 0, width, height }),
    {
        Region { x: 0, y: 0, width, height }
    }

    /// Area in pixels.
    pub fn area(&self) -> (area: u64)
        ensures
            area == self.width * self.height,
    {
        let w = self.width as u64;
        let h = self.height as u64;
        assert(w * h <= 0xffff_ffff * 0xffff_ffff) by (nonlinear_arith)
            requires
                w <= 0xffff_ffff,
                h <= 0xffff_ffff,
        ;
        w * h
    }

    /// Whether this region and `other` share at least one pixel.
    pub fn overlaps(&self, other: &Region) -> (shared: bool)
        requires
            self.wf(),
            other.wf(),
        ensures
            shared == exists|px: int, py: int|
                #![trigger self.contains(px, py)]
                self.contains(px, py) && other.contains(px, py),
            shared == (self.width > 0 && self.height > 0 && other.width > 0 && other.height > 0
                && self.x < other.x + other.width && other.x < self.x + self.width && self.y
                < other.y + other.height && other.y < self.y + self.height),
    {
        let left = if self.x >= other.x { self.x } else { other.x };
        let top = if self.y >= other.y { self.y } else { other.y };
        let self_right = self.x + self.width;
        let other_right = other.x + other.width;
        let self_bottom = self.y + self.height;
        let other_bottom = other.y + other.height;
        let shared = left < self_right && left < other_right && top < self_bottom && top
            < other_bottom;
        proof {
            if shared {
                assert(self.contains(left as int, top as int));
            }
        }
        shared
    }

    /// Bounding box of this region and `other`.
    pub fn union(&self, other: &Region) -> (bounds: Region)
        requires
            self.wf(),
            other.wf(),
        ensures
            bounds == self.hull(*other),
            bounds.wf(),
            bounds.encloses(*self),
            bounds.encloses(*other),
            bounds.x == if self.x <= other.x { self.x } else { other.x },
            bounds.y == if self.y <= other.y { self.y } else { other.y },
            bounds.x + bounds.width == if self.x + self.width >= other.x + other.width {
                self.x + self.width
            } else {
                other.x + other.width
            },
            bounds.y + bounds.height == if self.y + self.height >= other.y + other.height {
                self.y + self.height
            } else {
                other.y + other.height
            },
    {
        let x = if self.x <= other.x { self.x } else { other.x };
        let y = if self.y <= other.y { self.y } else { other.y };
        let self_right = self.x + self.width;
        let other_right = other.x + other.width;
        let self_bottom = self.y + self.height;
        let other_bottom = other.y + other.height;
        let right = if self_right >= other_right { self_right } else { other_right };
        let bottom = if self_bottom >= other_bottom { self_bottom } else { other_bottom };
        Region { x, y, width: right - x, height: bottom - y }
    }

    /// Exact LTRB bounds of this region as a 4-tuple.
    pub fn ltrb(&self) -> (bounds: (u32, u32, u32, u32))
        requires
            self.wf(),
        ensures
            bounds.0 == self.x,
            bounds.1 == self.y,
            bounds.2 == self.right(),
            bounds.3 == self.bottom(),
            bounds.2 == self.x + self.width,
            bounds.3 == self.y + self.height,
    {
        (self.x, self.y, self.x + self.width, self.y + self.height)
    }
}

/// Every region of `regions` is well formed.
pub open spec fn all_wf(regions: Seq<Region>) -> bool {
    forall|i: int| 0 <= i < regions.len() ==> (#[trigger] regions[i]).wf()
}

/// The pixel `(px, py)` belongs to at least one region of `regions`.
pub open spec fn covers(regions: Seq<Region>, px: int, py: int) -> bool {
    exists|i: int| 0 <= i < regions.len() && (#[trigger] regions[i]).contains(px, py)
}

/// No pixel belongs to two different entries of `regions`.
pub open spec fn disjoint(regions: Seq<Region>) -> bool {
    forall|i: int, j: int, px: int, py: int|
        #![trigger regions[i].contains(px, py), regions[j].contains(px, py)]
        0 <= i < j < regions.len() ==> !(regions[i].contains(px, py) && regions[j].contains(
            px,
            py,
        ))
}

pub proof fn lemma_covers_add(a: Seq<Region>, b: Seq<Region>)
    ensures
        forall|px: int, py: int|
            #[trigger] covers(a + b, px, py) <==> covers(a, px, py) || covers(b, px, py),
{
    assert forall|px: int, py: int| #[trigger] covers(a + b, px, py) <==> covers(a, px, py)
        || covers(b, px, py) by {
        if covers(a + b, px, py) {
            let i = choose|i: int|
                0 <= i < (a + b).len() && (#[trigger] (a + b)[i]).contains(px, py);
            if i < a.len() {
                assert(a[i].contains(px, py));
            } else {
                assert(b[i - a.len()].contains(px, py));
            }
        }
        if covers(a, px, py) {
            let i = choose|i: int| 0 <= i < a.len() && (#[trigger] a[i]).contains(px, py);
            assert((a + b)[i].contains(px, py));
        }
        if covers(b, px, py) {
            let i = choose|i: int| 0 <= i < b.len() && (#[trigger] b[i]).contains(px, py);
            assert((a + b)[i + a.len()].contains(px, py));
        }
    }
}

pub proof fn lemma_covers_push(a: Seq<Region>, r: Region)
    ensures
        forall|px: int, py: int|
            #[trigger] covers(a.push(r), px, py) <==> covers(a, px, py) || r.contains(px, py),
{
    assert(a.push(r) =~= a + seq![r]);
    lemma_covers_add(a, seq![r]);
    assert forall|px: int, py: int| #[trigger] covers(seq![r], px, py) <==> r.contains(px, py) by {
        assert(seq![r][0] == r);
    }
}

/// A region covers the `width` columns from `x` on and the `height` rows from
/// `y` on, and a list of regions whatever one of them covers.
pub proof fn law_covered_pixels(regions: Seq<Region>, px: int, py: int)
    ensures
        covers(regions, px, py) <==> exists|i: int|
            0 <= i < regions.len() && (#[trigger] regions[i]).x <= px < regions[i].x
                + regions[i].width && regions[i].y <= py < regions[i].y + regions[i].height,
{
    if covers(regions, px, py) {
        let i = choose|i: int|
            0 <= i < regions.len() && (#[trigger] regions[i]).contains(px, py);
        assert(regions[i].x <= px);
    }
    if exists|i: int|
        0 <= i < regions.len() && (#[trigger] regions[i]).x <= px < regions[i].x + regions[i].width
            && regions[i].y <= py < regions[i].y + regions[i].height {
        let i = choose|i: int|
            0 <= i < regions.len() && (#[trigger] regions[i]).x <= px < regions[i].x
                + regions[i].width && regions[i].y <= py < regions[i].y + regions[i].height;
        assert(regions[i].contains(px, py));
    }
}

} // verus!
