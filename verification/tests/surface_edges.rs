use landsurvey::surface::edges;

#[test]
fn edges_dedup_shared_diagonal() {
    // A square split into 2 triangles has 5 unique edges (4 sides + 1 diag).
    let triangles = vec![[0, 1, 2], [0, 2, 3]];
    assert_eq!(edges(&triangles).len(), 5);
}

#[test]
fn edges_are_ordered_pairs_in_first_seen_order() {
    let triangles = vec![[2, 1, 0], [0, 3, 2]];
    assert_eq!(edges(&triangles), vec![[1, 2], [0, 1], [0, 2], [0, 3], [2, 3]]);
}

#[test]
fn no_triangles_no_edges() {
    assert!(edges(&[]).is_empty());
}

use landsurvey::surface::{drop_super_triangle, refill_cavity};

#[test]
fn one_bad_triangle_is_split_in_three() {
    let tris = vec![[0, 1, 2]];
    let out = refill_cavity(&tris, &vec![true], 3);
    assert_eq!(out, vec![[0, 1, 3], [1, 2, 3], [0, 2, 3]]);
}

#[test]
fn good_triangles_stay_in_order() {
    let tris = vec![[0, 1, 2], [2, 1, 4]];
    assert_eq!(refill_cavity(&tris, &vec![false, false], 9), tris);
}

#[test]
fn shared_edge_is_not_on_the_cavity_boundary() {
    // Two bad triangles sharing the edge 0-2 leave a four-sided hole.
    let tris = vec![[0, 1, 2], [0, 2, 3], [3, 2, 5]];
    let out = refill_cavity(&tris, &vec![true, true, false], 4);
    assert_eq!(out, vec![[3, 2, 5], [0, 1, 4], [1, 2, 4], [2, 3, 4], [0, 3, 4]]);
}

#[test]
fn a_copy_of_a_bad_triangle_goes_too() {
    let tris = vec![[0, 1, 2], [0, 1, 2]];
    let out = refill_cavity(&tris, &vec![true, false], 3);
    // Both copies leave; the hole is the flagged triangle's.
    assert_eq!(out, vec![[0, 1, 3], [1, 2, 3], [0, 2, 3]]);
}

#[test]
fn super_triangle_corners_are_dropped() {
    let tris = vec![[0, 1, 2], [0, 1, 4], [3, 1, 2], [2, 3, 0]];
    assert_eq!(drop_super_triangle(&tris, 4), vec![[0, 1, 2], [3, 1, 2], [2, 3, 0]]);
}
