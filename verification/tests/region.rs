use emul_4leaf::region::{canonicalize_rects, regions_equal, combine_region, region_complexity, region_box,
    NULLREGION, SIMPLEREGION, COMPLEXREGION, RGN_AND, RGN_OR, RGN_XOR, RGN_DIFF, RGN_COPY};
use emul_4leaf::frame::{infer_guest_frame_from_clip_rects, longest_empty_interval};

#[test]
fn canonicalize_empty_input_returns_empty() {
    assert!(canonicalize_rects(&[]).is_empty());
}

#[test]
fn canonicalize_degenerate_rect_returns_empty() {
    assert!(canonicalize_rects(&[(0, 0, 0, 0)]).is_empty());
    assert!(canonicalize_rects(&[(10, 10, 10, 20)]).is_empty());
    assert!(canonicalize_rects(&[(10, 10, 20, 10)]).is_empty());
    assert!(canonicalize_rects(&[(20, 10, 10, 20)]).is_empty());
}

#[test]
fn canonicalize_degenerate_initial_empty_region_equals_empty() {
    assert_eq!(canonicalize_rects(&[(0, 0, 0, 0)]), canonicalize_rects(&[]));
}

#[test]
fn canonicalize_single_rect_roundtrips() {
    assert_eq!(canonicalize_rects(&[(10, 10, 20, 20)]), vec![(10, 10, 20, 20)]);
}

#[test]
fn canonicalize_merges_horizontally_adjacent_rects() {
    let split = vec![(10, 10, 15, 20), (15, 10, 20, 20)];
    assert_eq!(canonicalize_rects(&split), vec![(10, 10, 20, 20)]);
}

#[test]
fn canonicalize_merges_overlapping_rects() {
    let overlap = vec![(10, 10, 18, 20), (15, 10, 25, 20)];
    assert_eq!(canonicalize_rects(&overlap), vec![(10, 10, 25, 20)]);
}

#[test]
fn canonicalize_merges_vertically_adjacent_bands() {
    let scanlines: Vec<(i32, i32, i32, i32)> = (0..10).map(|y| (0, y, 10, y + 1)).collect();
    assert_eq!(canonicalize_rects(&scanlines), vec![(0, 0, 10, 10)]);
}

#[test]
fn canonicalize_is_order_insensitive() {
    let a = vec![(10, 10, 20, 20), (30, 10, 40, 20)];
    let b = vec![(30, 10, 40, 20), (10, 10, 20, 20)];
    assert_eq!(canonicalize_rects(&a), canonicalize_rects(&b));
}

#[test]
fn canonicalize_is_idempotent() {
    let input = vec![(0, 0, 100, 100), (50, 50, 150, 150), (200, 0, 210, 10), (0, 0, 0, 0)];
    let once = canonicalize_rects(&input);
    let twice = canonicalize_rects(&once);
    assert_eq!(once, twice);
}

#[test]
fn canonicalize_recognizes_band_split_equivalence() {
    let whole = vec![(0, 0, 10, 10)];
    let bands = vec![(0, 0, 10, 4), (0, 4, 10, 10)];
    assert_eq!(canonicalize_rects(&whole), canonicalize_rects(&bands));
}

#[test]
fn canonicalize_recognizes_column_split_equivalence() {
    let whole = vec![(0, 0, 10, 10)];
    let cols = vec![(0, 0, 5, 10), (5, 0, 10, 10)];
    assert_eq!(canonicalize_rects(&whole), canonicalize_rects(&cols));
}

#[test]
fn canonicalize_distinguishes_geometrically_different_regions() {
    let a = canonicalize_rects(&[(0, 0, 10, 10)]);
    let b = canonicalize_rects(&[(0, 0, 10, 11)]);
    assert_ne!(a, b);
}

#[test]
fn canonicalize_handles_disjoint_rects() {
    let input = vec![(0, 0, 10, 10), (20, 0, 30, 10)];
    let canon = canonicalize_rects(&input);
    assert_eq!(canon, vec![(0, 0, 10, 10), (20, 0, 30, 10)]);
}

#[test]
fn canonicalize_mixed_degenerate_and_real_rects() {
    let input = vec![(0, 0, 0, 0), (10, 10, 20, 20), (5, 5, 5, 5)];
    assert_eq!(canonicalize_rects(&input), vec![(10, 10, 20, 20)]);
}

#[test]
fn canonicalize_l_shape_vs_rearranged_l_shape() {
    let shape_a = vec![(0, 0, 10, 4), (0, 4, 4, 10)];
    let shape_b = vec![(0, 0, 10, 2), (0, 2, 10, 4), (0, 4, 4, 10)];
    assert_eq!(canonicalize_rects(&shape_a), canonicalize_rects(&shape_b));
}

#[test]
fn infer_guest_frame_from_border_shell_clip() {
    let rects = vec![(0, 0, 100, 8), (0, 8, 12, 72), (88, 8, 100, 72), (0, 72, 100, 80)];
    let metrics = infer_guest_frame_from_clip_rects(100, 80, &rects).unwrap();
    assert_eq!(metrics.left, 12);
    assert_eq!(metrics.top, 8);
    assert_eq!(metrics.right, 12);
    assert_eq!(metrics.bottom, 8);
}

#[test]
fn frame_is_not_inferred_without_a_closed_hole() {
    // the hole reaches the bottom edge
    assert!(infer_guest_frame_from_clip_rects(100, 80, &[(0, 0, 100, 8), (0, 8, 12, 80), (88, 8, 100, 80)]).is_none());
    assert!(infer_guest_frame_from_clip_rects(2, 80, &[(0, 0, 1, 1)]).is_none());
    assert!(infer_guest_frame_from_clip_rects(100, 80, &[]).is_none());
    assert!(infer_guest_frame_from_clip_rects(100, 80, &[(200, 200, 300, 300)]).is_none());
    assert!(infer_guest_frame_from_clip_rects(4000, 4000, &[(0, 0, 10, 10)]).is_none());
}

#[test]
fn frame_of_the_largest_hole_wins() {
    // two stacked holes separated by a painted bar; the lower one is larger
    let rects = vec![(0, 0, 50, 2), (0, 2, 5, 48), (45, 2, 50, 48), (0, 10, 50, 12), (0, 48, 50, 50)];
    let m = infer_guest_frame_from_clip_rects(50, 50, &rects).unwrap();
    assert_eq!((m.left, m.top, m.right, m.bottom), (5, 12, 5, 2));
}

#[test]
fn longest_empty_run_prefers_the_first_of_equal_runs() {
    assert_eq!(longest_empty_interval(&[true, false, false, true, false, false]), Some((1, 3)));
    assert_eq!(longest_empty_interval(&[false, true, false, false]), Some((2, 4)));
    assert_eq!(longest_empty_interval(&[true, true]), None);
    assert_eq!(longest_empty_interval(&[]), None);
}

#[test]
fn region_operations_follow_coverage() {
    assert!(regions_equal(&[(0, 0, 10, 10)], &[(0, 0, 5, 10), (5, 0, 10, 10)]));
    assert!(!regions_equal(&[(0, 0, 10, 10)], &[(0, 0, 10, 9)]));
    assert_eq!(combine_region(&[(0, 0, 10, 10)], &[(5, 0, 15, 10)], RGN_AND), vec![(5, 0, 10, 10)]);
    assert_eq!(combine_region(&[(0, 0, 10, 10)], &[(5, 0, 15, 10)], RGN_OR), vec![(0, 0, 15, 10)]);
    assert_eq!(combine_region(&[(0, 0, 10, 10)], &[(5, 0, 15, 10)], RGN_XOR), vec![(0, 0, 5, 10), (10, 0, 15, 10)]);
    assert_eq!(combine_region(&[(0, 0, 10, 10)], &[(5, 0, 15, 10)], RGN_DIFF), vec![(0, 0, 5, 10)]);
    assert_eq!(combine_region(&[(3, 3, 1, 1)], &[], RGN_COPY), vec![(3, 3, 1, 1)]);
    assert_eq!(region_complexity(&[]), NULLREGION);
    assert_eq!(region_complexity(&[(0, 0, 1, 1)]), SIMPLEREGION);
    assert_eq!(region_complexity(&[(0, 0, 1, 1), (2, 2, 3, 3)]), COMPLEXREGION);
    assert_eq!(region_box(&[(0, 0, 1, 1), (5, 5, 6, 8)]), (Some((0, 0, 6, 8)), SIMPLEREGION));
    assert_eq!(region_box(&[]), (None, NULLREGION));
}
