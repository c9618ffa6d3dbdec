//! Damage-region arithmetic.

use hyperv_rdp_extras::geometry::{
    DebtAccumulator, Region, damage_fraction, is_adjacent, merge_regions, subtract_regions,
    total_area,
};

#[test]
fn subtract_disjoint_returns_input_untouched() {
    let regions = [Region::new(0, 0, 10, 10)];
    let covered = [Region::new(50, 50, 5, 5)];
    let out = subtract_regions(&regions, &covered, 100, 100);
    assert_eq!(out, vec![Region::new(0, 0, 10, 10)]);
}

#[test]
fn subtract_exact_cover_erases_region() {
    let regions = [Region::new(4, 4, 10, 10)];
    let covered = [Region::new(4, 4, 10, 10)];
    let out = subtract_regions(&regions, &covered, 100, 100);
    assert!(out.is_empty());
}

#[test]
fn subtract_partial_cover_emits_side_bands() {
    // Cover the middle: expect left, right, top, bottom bands.
    let regions = [Region::new(0, 0, 30, 30)];
    let covered = [Region::new(10, 10, 10, 10)];
    let out = subtract_regions(&regions, &covered, 100, 100);
    // 4 bands: left(10 wide), right(10 wide), top(10x10), bottom(10x10)
    assert_eq!(out.len(), 4, "{out:?}");
    for piece in &out {
        assert!(!piece.overlaps(&covered[0]), "{piece:?}");
    }
    // Union of pieces must re-cover everything the region did minus
    // the covered square (900 - 100 = 800 px²).
    let area: u64 = out.iter().map(Region::area).sum();
    assert_eq!(area, 900 - 100);
}

#[test]
fn subtract_full_frame_coverage_erases_all() {
    let regions = [Region::new(4, 4, 10, 10)];
    let covered = [Region::new(0, 0, 100, 100)];
    let out = subtract_regions(&regions, &covered, 100, 100);
    assert!(out.is_empty());
}

#[test]
fn subtract_caps_fragmentation_instead_of_exploding() {
    // Pathological covered set: many thin strips crossing the region
    // would multiply pieces toward 4^|covered| without the cap.
    let region = Region::new(0, 0, 4096, 4096);
    let covered: Vec<Region> = (0..200)
        .map(|i| {
            let y = i * 20;
            // Horizontal strip crossing the full width, with a gap so
            // full_coverage doesn't trigger.
            Region::new(0, y, 4000, 10)
        })
        .collect();
    let out = subtract_regions(&[region], &covered, 4096, 4096);
    // Either the exact subtraction finished cheaply or the cap fell back
    // to the whole region — both bounded results are acceptable; the
    // exponential blowup (4^200) is not.
    assert!(
        out.len() <= 256 || (out.len() == 1 && out[0] == region),
        "bounded output expected, got {}",
        out.len()
    );
}

#[test]
fn subtract_empty_inputs() {
    assert!(subtract_regions(&[], &[Region::new(0, 0, 5, 5)], 100, 100).is_empty());
    let regions = [Region::new(0, 0, 5, 5)];
    let out = subtract_regions(&regions, &[], 100, 100);
    assert_eq!(out, regions.to_vec());
}

#[test]
fn ratio_over_merged_debt_cannot_double_count() {
    let mut acc = DebtAccumulator::new();
    acc.absorb(vec![
        Region::new(0, 0, 100, 100),
        Region::new(0, 0, 100, 100),
    ]);
    assert_eq!(acc.len(), 1, "overlaps must merge");
    let taken = acc.take();
    let (damage, frame) = damage_fraction(&taken, 200, 200).expect("area fits");
    let ratio = damage as f32 / frame as f32;
    assert!((ratio - 0.25).abs() < 1e-6, "ratio {ratio}");
}

#[test]
fn accumulator_absorb_replaces_instead_of_extending() {
    // Regression: extending the debt with a send set that already
    // contained the debt doubled it on every consecutive skip.
    let mut acc = DebtAccumulator::new();
    let a = Region::new(0, 0, 100, 100);
    acc.absorb(vec![a]); // frame 1 skipped: debt = {A}
    let b = Region::new(200, 200, 50, 50);
    acc.absorb(vec![a, b]); // must REPLACE → {A, B}
    let taken = acc.take();
    assert_eq!(taken.len(), 2, "no doubling: {taken:?}");
    assert!(acc.is_empty());
}

#[test]
fn accumulator_survives_long_skip_streak_linearly() {
    let mut acc = DebtAccumulator::new();
    let fresh = Region::new(10, 10, 40, 40);
    let mut send_set = vec![fresh];
    for _ in 0..10 {
        acc.absorb(send_set.clone());
        let mut next = acc.take();
        next.push(fresh);
        send_set = next;
    }
    acc.absorb(send_set);
    assert!(
        acc.len() <= 2,
        "streak of 10 skips must stay bounded, got {}",
        acc.len()
    );
}

#[test]
fn accumulator_cap_collapses_to_bounding_union() {
    let mut acc = DebtAccumulator::new();
    let mut set = Vec::new();
    for i in 0..(DebtAccumulator::DEFAULT_CAP + 64) {
        let x = u32::try_from(i % 64).expect("in range") * 1000;
        let y = u32::try_from(i / 64).expect("in range") * 1000;
        set.push(Region::new(x, y, 10, 10));
    }
    acc.absorb(set);
    assert!(
        acc.len() <= DebtAccumulator::DEFAULT_CAP,
        "cap must bind, got {}",
        acc.len()
    );
}

#[test]
fn merge_regions_collapses_touching_rects() {
    let regions = vec![
        Region::new(0, 0, 10, 10),
        Region::new(10, 0, 10, 10), // touching on x
    ];
    let merged = merge_regions(regions, 0);
    assert_eq!(merged, vec![Region::new(0, 0, 20, 10)]);
}

#[test]
fn merge_regions_respects_merge_distance() {
    let regions = vec![
        Region::new(0, 0, 10, 10),
        Region::new(15, 0, 10, 10), // 5px gap
    ];
    let merged = merge_regions(regions.clone(), 4);
    assert_eq!(merged.len(), 2, "gap > distance: no merge");
    let merged = merge_regions(regions, 5);
    assert_eq!(merged.len(), 1, "gap <= distance: merge");
}

/// Whether one of `regions` covers the pixel.
fn covers(regions: &[Region], x: u32, y: u32) -> bool {
    regions
        .iter()
        .any(|r| r.x <= x && x < r.x + r.width && r.y <= y && y < r.y + r.height)
}

#[test]
fn region_accessors() {
    let r = Region::new(3, 4, 5, 6);
    assert_eq!((r.x, r.y, r.width, r.height), (3, 4, 5, 6));
    assert_eq!(r.area(), 30);
    assert_eq!(r.ltrb(), (3, 4, 8, 10));
    assert_eq!(Region::full_frame(7, 9), Region::new(0, 0, 7, 9));
    assert_eq!(
        Region::new(0, 0, u32::MAX, u32::MAX).area(),
        u64::from(u32::MAX) * u64::from(u32::MAX)
    );
}

#[test]
fn overlap_means_a_shared_pixel() {
    let a = Region::new(0, 0, 10, 10);
    assert!(a.overlaps(&Region::new(9, 9, 5, 5)));
    // Touching edges share nothing: bounds are exclusive.
    assert!(!a.overlaps(&Region::new(10, 0, 5, 5)));
    assert!(!a.overlaps(&Region::new(0, 10, 5, 5)));
    assert!(a.overlaps(&a));
    // An empty region has no pixel to share.
    assert!(!a.overlaps(&Region::new(5, 5, 0, 3)));
    assert!(!Region::new(5, 5, 3, 0).overlaps(&a));
}

#[test]
fn union_is_the_bounding_box() {
    let a = Region::new(10, 20, 5, 5);
    let b = Region::new(0, 30, 5, 10);
    assert_eq!(a.union(&b), Region::new(0, 20, 15, 20));
    assert_eq!(b.union(&a), a.union(&b));
    assert_eq!(a.union(&a), a);
}

#[test]
fn subtraction_keeps_exactly_the_uncovered_pixels() {
    let regions = [Region::new(2, 2, 12, 9), Region::new(20, 0, 4, 30)];
    let covered = [
        Region::new(0, 0, 5, 5),
        Region::new(8, 4, 3, 20),
        Region::new(21, 10, 10, 3),
    ];
    let out = subtract_regions(&regions, &covered, 40, 40);
    for y in 0..40 {
        for x in 0..40 {
            let wanted = covers(&regions, x, y) && !covers(&covered, x, y);
            assert_eq!(covers(&out, x, y), wanted, "pixel {x},{y}");
        }
    }
}

#[test]
fn subtraction_pieces_are_disjoint() {
    let out = subtract_regions(
        &[Region::new(0, 0, 30, 30)],
        &[Region::new(10, 10, 10, 10)],
        100,
        100,
    );
    for a in 0..out.len() {
        for b in 0..a {
            assert!(!out[a].overlaps(&out[b]));
        }
    }
}

#[test]
fn subtraction_cap_returns_the_region_whole() {
    // A grid of holes: the pieces outgrow the cap, so the region comes back
    // un-subtracted.
    let region = Region::new(0, 0, 1000, 1000);
    let mut covered = Vec::new();
    for row in 0..30 {
        for column in 0..30 {
            covered.push(Region::new(10 + column * 30, 10 + row * 30, 5, 5));
        }
    }
    let out = subtract_regions(&[region], &covered, 2000, 2000);
    assert_eq!(out, vec![region]);
}

#[test]
fn merged_regions_never_overlap_and_lose_nothing() {
    let regions = vec![
        Region::new(0, 0, 4, 4),
        Region::new(3, 3, 4, 4),
        Region::new(20, 20, 5, 5),
        Region::new(7, 7, 2, 2),
        Region::new(30, 0, 5, 5),
    ];
    let merged = merge_regions(regions.clone(), 0);
    assert!(merged.len() <= regions.len());
    for a in 0..merged.len() {
        for b in 0..a {
            assert!(!merged[a].overlaps(&merged[b]));
            assert!(!is_adjacent(&merged[a], &merged[b], 0));
        }
    }
    for y in 0..40 {
        for x in 0..40 {
            assert!(!covers(&regions, x, y) || covers(&merged, x, y));
        }
    }
    // Merging again changes nothing.
    assert_eq!(merge_regions(merged.clone(), 0), merged);
}

#[test]
fn merging_cascades() {
    // The first two only come together once the third has bridged the gap.
    let merged = merge_regions(
        vec![
            Region::new(0, 0, 10, 10),
            Region::new(20, 0, 10, 10),
            Region::new(10, 0, 10, 10),
        ],
        0,
    );
    assert_eq!(merged, vec![Region::new(0, 0, 30, 10)]);
    assert!(merge_regions(Vec::new(), 3).is_empty());
}

#[test]
fn adjacency_needs_the_other_axis_to_overlap() {
    let a = Region::new(0, 0, 10, 10);
    assert!(is_adjacent(&a, &Region::new(12, 0, 5, 5), 2));
    assert!(!is_adjacent(&a, &Region::new(13, 0, 5, 5), 2));
    assert!(is_adjacent(&Region::new(12, 0, 5, 5), &a, 2));
    assert!(is_adjacent(&a, &Region::new(0, 12, 5, 5), 2));
    // Overlapping regions are adjacent at any distance.
    assert!(is_adjacent(&a, &Region::new(9, 9, 5, 5), 0));
    // Close on one axis only is not close.
    assert!(!is_adjacent(&a, &Region::new(0, 50, 5, 5), 2));
    // A gap on both axes: neither axis overlaps.
    assert!(!is_adjacent(&a, &Region::new(13, 13, 10, 10), 5));
    // Nor does it where the two only share a corner.
    assert!(!is_adjacent(&a, &Region::new(10, 10, 5, 5), 0));
}

#[test]
fn merging_takes_in_what_touches_at_a_corner() {
    let merged = merge_regions(vec![Region::new(0, 0, 10, 10), Region::new(10, 10, 5, 5)], 0);
    assert_eq!(merged, vec![Region::new(0, 0, 15, 15)]);
}

#[test]
fn full_frame_coverage_keeps_what_lies_outside_it() {
    let covered = [Region::new(0, 0, 100, 100)];
    // A region that reaches past the frame keeps the part outside.
    assert_eq!(
        subtract_regions(&[Region::new(90, 0, 20, 10)], &covered, 100, 100),
        vec![Region::new(100, 0, 10, 10)]
    );
    // One beyond it stays whole, beside one within it that goes.
    assert_eq!(
        subtract_regions(
            &[Region::new(5, 5, 10, 10), Region::new(0, 100, 10, 10)],
            &covered,
            100,
            100
        ),
        vec![Region::new(0, 100, 10, 10)]
    );
}

#[test]
fn taken_debt_can_be_absorbed_with_fresh_regions() {
    let mut acc = DebtAccumulator::new();
    acc.absorb(vec![Region::new(0, 0, 10, 10), Region::new(50, 0, 10, 10)]);
    let mut next = acc.take();
    next.push(Region::new(10, 0, 40, 10));
    acc.absorb(next);
    assert_eq!(acc.take(), vec![Region::new(0, 0, 60, 10)]);
}

#[test]
fn damage_fraction_counts_areas() {
    assert_eq!(damage_fraction(&[], 100, 100), None);
    let regions = [Region::new(0, 0, 10, 10), Region::new(0, 0, 10, 10)];
    assert_eq!(damage_fraction(&regions, 0, 100), None);
    assert_eq!(damage_fraction(&regions, 100, 0), None);
    // Overlapping inputs count twice.
    assert_eq!(damage_fraction(&regions, 10, 10), Some((200, 100)));
}

#[test]
fn total_area_tells_overflow() {
    let huge = Region::new(0, 0, u32::MAX, u32::MAX);
    assert_eq!(total_area(&[]), Some(0));
    assert_eq!(total_area(&[Region::new(0, 0, 3, 4), Region::new(9, 9, 1, 1)]), Some(13));
    assert_eq!(total_area(&[huge]), Some(huge.area()));
    assert_eq!(total_area(&[huge, huge]), None);
}

#[test]
fn accumulator_starts_and_clears_empty() {
    let mut acc = DebtAccumulator::default();
    assert!(acc.is_empty());
    assert_eq!(acc.len(), 0);
    acc.absorb(vec![Region::new(1, 2, 3, 4)]);
    assert_eq!(acc.len(), 1);
    assert!(!acc.is_empty());
    acc.clear();
    assert!(acc.is_empty());
    assert!(acc.take().is_empty());
}

#[test]
fn accumulator_cap_keeps_every_pixel() {
    let mut acc = DebtAccumulator::new();
    let mut set = Vec::new();
    for i in 0..1100u32 {
        set.push(Region::new((i % 64) * 1000, (i / 64) * 1000, 10, 10));
    }
    acc.absorb(set);
    // 64 columns and 18 rows, collapsed to one bounding box.
    assert_eq!(acc.take(), vec![Region::new(0, 0, 63_010, 17_010)]);
}

#[test]
fn absorbing_taken_debt_changes_nothing() {
    let mut acc = DebtAccumulator::new();
    acc.absorb(vec![
        Region::new(0, 0, 10, 10),
        Region::new(5, 5, 10, 10),
        Region::new(100, 0, 10, 10),
    ]);
    let first = acc.take();
    assert_eq!(first, vec![Region::new(0, 0, 15, 15), Region::new(100, 0, 10, 10)]);
    acc.absorb(first.clone());
    assert_eq!(acc.take(), first);
}

#[test]
fn covering_bounds_past_the_coordinates_are_taken_as_they_are() {
    // Only the part that meets the region matters.
    let covered = [Region::new(5, 0, u32::MAX, u32::MAX)];
    assert_eq!(
        subtract_regions(&[Region::new(0, 0, 10, 10)], &covered, 100, 100),
        vec![Region::new(0, 0, 5, 10)]
    );
}
