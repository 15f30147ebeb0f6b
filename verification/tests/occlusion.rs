use occlusion_buffer::{
    boxes_overlap, identify_intersection_case, subdivide, AxisAlignedBox, OcclusionBuffer,
    OcclusionError, OcclusionStatus,
};

fn bx(x_lo: i32, y_lo: i32, x_hi: i32, y_hi: i32) -> AxisAlignedBox {
    AxisAlignedBox::new(x_lo, y_lo, x_hi, y_hi)
}

fn area(b: &AxisAlignedBox) -> i64 {
    (b.x_hi as i64 - b.x_lo as i64) * (b.y_hi as i64 - b.y_lo as i64)
}

fn total_free_area(buf: &OcclusionBuffer) -> i64 {
    let mut sum: i64 = 0;
    for i in 0..buf.region_count() {
        let (_, b) = buf.region_at(i);
        sum += area(&b);
    }
    sum
}

fn assert_store_disjoint(buf: &OcclusionBuffer) {
    let n = buf.region_count();
    for i in 0..n {
        for j in (i + 1)..n {
            let (_, a) = buf.region_at(i);
            let (_, b) = buf.region_at(j);
            assert!(!boxes_overlap(&a, &b));
        }
    }
}

fn assert_no_overlap_with(buf: &OcclusionBuffer, cand: &AxisAlignedBox) {
    for i in 0..buf.region_count() {
        let (_, b) = buf.region_at(i);
        assert!(!boxes_overlap(&b, cand));
    }
}

fn test_inner(free: AxisAlignedBox, new: AxisAlignedBox, num_inters: usize) {
    let mut buf = OcclusionBuffer::new();
    buf.add_freespace_box(free);

    let status = buf.check_a_box(new);
    assert_eq!(buf.pending_match_count(), num_inters);
    if num_inters == 0 {
        assert!(matches!(status, OcclusionStatus::Occluded));
        return;
    }
    assert!(matches!(status, OcclusionStatus::PartiallyVisible));
    buf.add_last_box().unwrap();

    assert_store_disjoint(&buf);
    assert_no_overlap_with(&buf, &new);
    assert!(matches!(buf.check_a_box(new), OcclusionStatus::Occluded));
}

#[test]
pub fn test_full_overlap() {
    let free = bx(0, 0, 10, 10);
    let new = bx(2, 2, 7, 7);
    test_inner(free, new, 1);
}

#[test]
pub fn test_corner_overlap() {
    let cases = vec![
        bx(7, -3, 13, 3),
        bx(7, 7, 13, 13),
        bx(-3, 7, 3, 13),
        bx(-3, -3, 3, 3),
    ];
    let free = bx(0, 0, 10, 10);
    for a in cases.iter() {
        test_inner(free, *a, 1);
    }
}

#[test]
pub fn test_2vertex_overlap() {
    let cases = vec![
        bx(-2, 2, 7, 7),
        bx(4, 7, 8, 13),
        bx(7, 3, 13, 7),
        bx(3, -3, 6, 3),
    ];
    let free = bx(0, 0, 10, 10);
    for a in cases.iter() {
        test_inner(free, *a, 1);
    }
}

#[test]
pub fn test_no_vertex_overlap() {
    let cases = vec![bx(-3, 2, 13, 7), bx(3, -2, 6, 13)];
    let free = bx(0, 0, 10, 10);
    for a in cases.iter() {
        test_inner(free, *a, 1);
    }
}

#[test]
pub fn height_width_overlap() {
    let cases = vec![
        bx(7, -3, 13, 13),
        bx(-2, 7, 13, 13),
        bx(-2, -2, 2, 13),
        bx(-2, -2, 13, 3),
    ];
    let free = bx(0, 0, 10, 10);
    for a in cases.iter() {
        test_inner(free, *a, 1);
    }
}

#[test]
pub fn free_in_new() {
    let free = bx(0, 0, 10, 10);
    let new = bx(-3, -3, 13, 13);
    test_inner(free, new, 1);
}

#[test]
fn scenario_interior_candidate() {
    // free region fully containing the candidate: a ring of four fragments
    let mut buf = OcclusionBuffer::new();
    buf.add_freespace_box(bx(0, 0, 10, 10));
    let cand = bx(2, 2, 7, 7);
    assert!(matches!(buf.check_a_box(cand), OcclusionStatus::PartiallyVisible));
    assert_eq!(buf.pending_match_count(), 1);
    buf.add_last_box().unwrap();
    assert_eq!(buf.region_count(), 4);
    assert_store_disjoint(&buf);
    assert_no_overlap_with(&buf, &cand);
}

#[test]
fn scenario_single_corner_clip() {
    // candidate clipping exactly one corner: exactly three fragments remain
    let mut buf = OcclusionBuffer::new();
    buf.add_freespace_box(bx(0, 0, 10, 10));
    let cand = bx(7, -3, 13, 3);
    assert!(matches!(buf.check_a_box(cand), OcclusionStatus::PartiallyVisible));
    assert_eq!(buf.pending_match_count(), 1);
    buf.add_last_box().unwrap();
    assert_eq!(buf.region_count(), 3);
    assert_store_disjoint(&buf);
    assert_no_overlap_with(&buf, &cand);
}

#[test]
fn scenario_occluder_covers_region() {
    // occluder strictly containing the free region: the region disappears
    let mut buf = OcclusionBuffer::new();
    buf.add_freespace_box(bx(0, 0, 10, 10));
    let cand = bx(-3, -3, 13, 13);
    assert!(matches!(buf.check_a_box(cand), OcclusionStatus::PartiallyVisible));
    buf.add_last_box().unwrap();
    assert_eq!(buf.region_count(), 0);
}

#[test]
fn scenario_commit_without_match_faults() {
    // a check that returns Occluded leaves nothing to commit
    let mut buf = OcclusionBuffer::new();
    buf.add_freespace_box(bx(0, 0, 10, 10));
    assert!(matches!(buf.check_a_box(bx(20, 20, 30, 30)), OcclusionStatus::Occluded));
    assert_eq!(buf.add_last_box(), Err(OcclusionError::NoPendingMatch));
}

#[test]
fn commit_on_fresh_buffer_faults() {
    let mut buf = OcclusionBuffer::new();
    assert_eq!(buf.add_last_box(), Err(OcclusionError::NoPendingMatch));
}

#[test]
fn equal_box_commit_removes_region() {
    // an occluder equal to a stored region removes it and adds nothing
    let mut buf = OcclusionBuffer::new();
    buf.add_freespace_box(bx(0, 0, 10, 10));
    let cand = bx(0, 0, 10, 10);
    assert!(matches!(buf.check_a_box(cand), OcclusionStatus::PartiallyVisible));
    buf.add_last_box().unwrap();
    assert_eq!(buf.region_count(), 0);
}

#[test]
fn area_is_conserved_by_commits() {
    // area(before) - area(occluder ∩ free) == area(after), exactly
    let mut buf = OcclusionBuffer::new();
    buf.add_freespace_box(bx(0, 0, 10, 10));
    assert_eq!(total_free_area(&buf), 100);

    // interior occluder of area 25
    buf.check_a_box(bx(2, 2, 7, 7));
    buf.add_last_box().unwrap();
    assert_eq!(total_free_area(&buf), 75);

    // corner clip overlapping [7,0]x[10,3]: area 9
    buf.check_a_box(bx(7, -3, 13, 3));
    buf.add_last_box().unwrap();
    assert_eq!(total_free_area(&buf), 66);
    assert_store_disjoint(&buf);
}

#[test]
fn repeated_checks_agree() {
    // same candidate, no intervening commit: the status cannot change
    let mut buf = OcclusionBuffer::new();
    buf.add_freespace_box(bx(0, 0, 10, 10));
    let cand = bx(5, 5, 15, 15);
    let s1 = buf.check_a_box(cand);
    let s2 = buf.check_a_box(cand);
    assert_eq!(s1, s2);
    let far = bx(50, 50, 60, 60);
    let t1 = buf.check_a_box(far);
    let t2 = buf.check_a_box(far);
    assert_eq!(t1, t2);
    assert!(matches!(t1, OcclusionStatus::Occluded));
}

#[test]
fn corner_clip_fragments_reconstruct_area() {
    let free = bx(0, 0, 10, 10);
    let occ = bx(7, -3, 13, 3);
    let frags = subdivide(&free, &occ);
    assert_eq!(frags.len(), 3);
    let mut sum: i64 = 0;
    for f in frags.iter() {
        sum += area(f);
        assert!(!boxes_overlap(f, &occ));
    }
    // overlap is [7,0]x[10,3], area 9
    assert_eq!(sum + 9, area(&free));
}

#[test]
fn edge_clip_fragments_reconstruct_area() {
    let free = bx(0, 0, 10, 10);
    let occ = bx(-2, 2, 7, 7);
    let frags = subdivide(&free, &occ);
    // a strict edge clip: all five layout pieces are non-degenerate here
    assert_eq!(frags.len(), 5);
    let mut sum: i64 = 0;
    for f in frags.iter() {
        sum += area(f);
        assert!(!boxes_overlap(f, &occ));
    }
    // overlap is [0,2]x[7,7], area 35
    assert_eq!(sum + 35, area(&free));
}

#[test]
fn classification_counts() {
    let free = bx(0, 0, 10, 10);
    // interior occluder: all four of its corners inside, none of the region's
    assert_eq!(identify_intersection_case(&bx(2, 2, 7, 7), &free), (2, 2, 0, 0));
    // corner clip: one corner each way
    assert_eq!(identify_intersection_case(&bx(7, -3, 13, 3), &free), (1, 1, 1, 1));
    // edge clip from the left: two of the occluder's corners inside
    assert_eq!(identify_intersection_case(&bx(-2, 2, 7, 7), &free), (1, 2, 1, 0));
    // cross: the occluder spans the region horizontally
    assert_eq!(identify_intersection_case(&bx(-3, 2, 13, 7), &free), (0, 2, 2, 0));
}

#[test]
fn touching_boxes_do_not_match() {
    // boundary contact has no positive overlap, so a touching candidate is
    // reported occluded and nothing pends
    let mut buf = OcclusionBuffer::new();
    buf.add_freespace_box(bx(0, 0, 10, 10));
    assert!(matches!(buf.check_a_box(bx(10, 0, 13, 10)), OcclusionStatus::Occluded));
    assert_eq!(buf.pending_match_count(), 0);
    assert!(!boxes_overlap(&bx(0, 0, 10, 10), &bx(10, 0, 13, 10)));
    assert!(boxes_overlap(&bx(0, 0, 10, 10), &bx(9, 0, 13, 10)));
}

#[test]
fn commit_across_two_regions() {
    // an occluder overlapping two seeded regions rewrites both
    let mut buf = OcclusionBuffer::new();
    buf.add_freespace_box(bx(0, 0, 10, 10));
    buf.add_freespace_box(bx(10, 0, 20, 10));
    assert_eq!(total_free_area(&buf), 200);
    let cand = bx(5, 2, 15, 8);
    assert!(matches!(buf.check_a_box(cand), OcclusionStatus::PartiallyVisible));
    assert_eq!(buf.pending_match_count(), 2);
    buf.add_last_box().unwrap();
    // removed overlap: [5,2]x[10,8] and [10,2]x[15,8], 30 each
    assert_eq!(total_free_area(&buf), 140);
    assert_store_disjoint(&buf);
    assert_no_overlap_with(&buf, &cand);
}

#[test]
fn store_stays_sorted_for_the_index() {
    let mut buf = OcclusionBuffer::new();
    buf.add_freespace_box(bx(10, 0, 20, 10));
    buf.add_freespace_box(bx(-5, 0, 5, 10));
    let n = buf.region_count();
    assert_eq!(n, 2);
    for i in 1..n {
        let (_, a) = buf.region_at(i - 1);
        let (_, b) = buf.region_at(i);
        assert!(a.x_lo <= b.x_lo);
    }
}

#[test]
fn covered_area_limits_bounds() {
    let mut buf = OcclusionBuffer::new();
    assert_eq!(
        buf.covered_area_limits(),
        ((i32::MAX, i32::MAX), (i32::MIN, i32::MIN))
    );
    buf.add_freespace_box(bx(0, 0, 10, 10));
    buf.add_freespace_box(bx(12, -4, 15, 6));
    assert_eq!(buf.covered_area_limits(), ((0, -4), (15, 10)));
}

#[test]
fn subdivide_band_splits_region() {
    // a band across the whole region leaves the two outer strips
    let free = bx(0, 0, 10, 10);
    let occ = bx(-3, 2, 13, 7);
    let frags = subdivide(&free, &occ);
    assert_eq!(frags.len(), 2);
    let mut sum: i64 = 0;
    for f in frags.iter() {
        sum += area(f);
    }
    assert_eq!(sum, 50);
}
