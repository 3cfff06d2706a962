use contour::faces::{face_edges, half_edges, trace_face_walks, MAX_FACE_WALK};
use contour::regions::region_key_from_edges;

// A unit square 0(0,0) 1(1,0) 2(1,1) 3(0,1) with edges 0:0-1, 1:1-2,
// 2:2-3, 3:3-0; half-edge 2k runs along edge k forwards, 2k+1 backwards.
fn square() -> (Vec<usize>, Vec<usize>, Vec<u32>, Vec<Option<usize>>) {
    let from = vec![0, 1, 1, 2, 2, 3, 3, 0];
    let to = vec![1, 0, 2, 1, 3, 2, 0, 3];
    let eid = vec![0, 0, 1, 1, 2, 2, 3, 3];
    // At each corner the boundary turns to the corner's other neighbor.
    let turn = vec![Some(2), Some(3), Some(3), Some(0), Some(0), Some(1), Some(1), Some(2)];
    (from, to, eid, turn)
}

#[test]
fn square_has_an_inner_and_an_outer_boundary() {
    let (from, to, eid, turn) = square();
    let walks = trace_face_walks(4, &from, &to, &turn);
    assert_eq!(walks, vec![vec![0, 2, 4, 6], vec![1, 7, 5, 3]]);
    let (inner, inner_key) = face_edges(&eid, &walks[0]);
    let (outer, outer_key) = face_edges(&eid, &walks[1]);
    assert_eq!(inner, vec![0, 1, 2, 3]);
    assert_eq!(outer, vec![0, 3, 2, 1]);
    assert_eq!(inner_key, region_key_from_edges(&[0, 1, 2, 3]));
    // The same cycle read backwards has the same key.
    assert_eq!(outer_key, inner_key);
}

#[test]
fn every_half_edge_is_on_exactly_one_boundary() {
    let (from, to, _eid, turn) = square();
    let walks = trace_face_walks(4, &from, &to, &turn);
    let mut all: Vec<usize> = walks.concat();
    all.sort();
    assert_eq!(all, (0..8).collect::<Vec<usize>>());
}

#[test]
fn boundary_stops_where_it_cannot_turn() {
    // A segment 0-1 and a half-edge from 1 to 2, where nothing leaves 2.
    let from = vec![0, 1, 1];
    let to = vec![1, 0, 2];
    let turn = vec![Some(2), None, None];
    let walks = trace_face_walks(3, &from, &to, &turn);
    // 0→1 turns towards 2 along half-edge 2; at 2 there is nowhere to turn.
    assert_eq!(walks, vec![vec![0, 2], vec![1]]);
}

#[test]
fn empty_subdivision_has_no_boundaries() {
    let walks = trace_face_walks(0, &[], &[], &[]);
    assert!(walks.is_empty());
}

#[test]
fn runs_of_one_edge_count_once() {
    // Half-edges 0..3 lie on edges 5, 5, 6, 5: the runs collapse to 5, 6, 5
    // and the closing 5 repeats the first.
    let eid = vec![5, 5, 6, 5];
    let (edges, key) = face_edges(&eid, &[0, 1, 2, 3]);
    assert_eq!(edges, vec![5, 6]);
    assert_eq!(key, region_key_from_edges(&[5, 6]));
    let (single, _) = face_edges(&eid, &[0, 1]);
    assert_eq!(single, vec![5]);
    assert_eq!(MAX_FACE_WALK, 100001);
}

#[test]
fn half_edges_come_in_opposite_pairs() {
    let (from, to, eid) = half_edges(&[(0, 1, 7), (2, 2, 8), (1, 3, 9)]);
    assert_eq!(from, vec![0, 1, 1, 3]);
    assert_eq!(to, vec![1, 0, 3, 1]);
    assert_eq!(eid, vec![7, 7, 9, 9]);
    let (from, _, _) = half_edges(&[(4, 4, 1)]);
    assert!(from.is_empty());
}
