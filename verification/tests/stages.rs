use spectral3d_cli::audit::{edge_audit, strip_nonmanifold};
use spectral3d_cli::clean::{drop_degenerate, drop_duplicates};
use spectral3d_cli::compact::compact;
use spectral3d_cli::components::components;
use spectral3d_cli::debris::drop_small_components;
use spectral3d_cli::force::force_loops;
use spectral3d_cli::holes::cap_faces;
use spectral3d_cli::hubs::{cap_faces_force, hub_caps};
use spectral3d_cli::mesh::{edge_key, half_edges, nondegenerate, norm, EdgeTally};
use spectral3d_cli::orient::orient_shells;
use spectral3d_cli::sealing::seal;
use spectral3d_cli::weld::{weld_faces, weld_map};

/// A closed tetrahedron, wound consistently.
fn tetra(base: u32) -> Vec<[u32; 3]> {
    vec![
        [base, base + 2, base + 1],
        [base, base + 1, base + 3],
        [base + 1, base + 2, base + 3],
        [base + 2, base, base + 3],
    ]
}

/// A tetrahedron without its last face.
fn open_tetra() -> Vec<[u32; 3]> {
    tetra(0)[..3].to_vec()
}

#[test]
fn edges_are_ordered_pairs() {
    assert_eq!(norm(3, 1), (1, 3));
    assert_eq!(norm(1, 3), (1, 3));
    assert_eq!(norm(2, 2), (2, 2));
    assert_eq!(edge_key(3, 1), edge_key(1, 3));
    assert_ne!(edge_key(3, 1), edge_key(2, 1));
}

#[test]
fn repeated_corners_are_degenerate() {
    assert!(nondegenerate(&[0, 1, 2]));
    assert!(!nondegenerate(&[0, 0, 2]));
    assert!(!nondegenerate(&[0, 2, 2]));
    assert!(!nondegenerate(&[2, 1, 2]));
    let kept = drop_degenerate(&[[0, 1, 2], [1, 1, 2], [2, 1, 3], [3, 4, 3]]);
    assert_eq!(kept, vec![[0, 1, 2], [2, 1, 3]]);
}

#[test]
fn half_edges_follow_the_winding() {
    assert_eq!(half_edges(&[[5, 6, 7]]), vec![(5, 6), (6, 7), (7, 5)]);
    let tally = EdgeTally::of(&half_edges(&open_tetra()));
    assert_eq!(tally.get(0, 1), 2);
    assert_eq!(tally.get(2, 0), 1);
    assert_eq!(tally.get(7, 8), 0);
}

#[test]
fn audit_counts_open_and_overloaded_edges() {
    assert_eq!(edge_audit(&tetra(0)), (0, 0));
    assert_eq!(edge_audit(&open_tetra()), (3, 0));
    assert_eq!(edge_audit(&[[0, 1, 2], [1, 0, 3], [0, 1, 4]]), (6, 1));
    assert_eq!(edge_audit(&[]), (0, 0));
}

#[test]
fn strip_cuts_every_face_on_an_overloaded_edge() {
    let mut faces = vec![[0, 1, 2], [1, 0, 3], [0, 1, 4], [5, 6, 7]];
    assert_eq!(strip_nonmanifold(&mut faces), 3);
    assert_eq!(faces, vec![[5, 6, 7]]);
    assert_eq!(edge_audit(&faces), (3, 0));
}

#[test]
fn strip_keeps_a_clean_mesh() {
    let mut faces = tetra(0);
    assert_eq!(strip_nonmanifold(&mut faces), 0);
    assert_eq!(faces, tetra(0));
}

#[test]
fn duplicates_go_whatever_their_winding() {
    let kept = drop_duplicates(&[[0, 1, 2], [2, 1, 0], [1, 2, 0], [0, 1, 3], [1, 3, 0]]);
    assert_eq!(kept, vec![[0, 1, 2], [0, 1, 3]]);
    assert_eq!(drop_duplicates(&kept), kept);
}

#[test]
fn weld_merges_vertices_of_one_cell() {
    let cells = vec![(0, 0, 0), (1, 0, 0), (0, 1, 0), (0, 0, 1), (0, 0, 0)];
    let faces = [[0, 2, 1], [4, 1, 3], [1, 2, 3], [2, 4, 3]];
    let rep = weld_map(&cells, &faces);
    assert_eq!(rep, vec![0, 1, 2, 3, 0]);
    assert_eq!(weld_faces(&faces, &rep), tetra(0));
}

#[test]
fn weld_leaves_a_deliberate_split_alone() {
    let cells = vec![
        (0, 0, 0),
        (1, 0, 0),
        (0, 1, 0),
        (0, 0, 1),
        (0, 0, 0),
        (1, 0, 0),
        (7, 7, 7),
    ];
    let faces = [[0, 1, 2], [1, 0, 3], [4, 5, 6]];
    let rep = weld_map(&cells, &faces);
    assert_eq!(rep, vec![0, 1, 2, 3, 4, 5, 6]);
    assert_eq!(weld_faces(&faces, &rep), faces.to_vec());
}

#[test]
fn weld_takes_back_only_the_bad_merges() {
    let cells = vec![
        (0, 0, 0),
        (1, 0, 0),
        (0, 1, 0),
        (0, 0, 1),
        (0, 0, 0),
        (1, 0, 0),
        (7, 7, 7),
        (7, 7, 7),
    ];
    let faces = [[0, 1, 2], [1, 0, 3], [4, 5, 6], [4, 7, 3]];
    assert_eq!(weld_map(&cells, &faces), vec![0, 1, 2, 3, 4, 5, 6, 6]);
}

#[test]
fn weld_drops_collapsed_faces() {
    assert_eq!(weld_faces(&[[0, 1, 2], [1, 2, 3]], &vec![0, 0, 2, 3]), vec![[0, 2, 3]]);
}

#[test]
fn components_are_linked_by_edges() {
    assert_eq!(components(&tetra(0)), vec![0, 0, 0, 0]);
    let mut two = tetra(0);
    two.extend(tetra(4));
    assert_eq!(components(&two), vec![0, 0, 0, 0, 4, 4, 4, 4]);
    // A shared vertex is no link.
    assert_eq!(components(&[[0, 1, 2], [0, 3, 4]]), vec![0, 1]);
    // A later face links two earlier ones.
    let linked = components(&[[0, 1, 2], [3, 4, 5], [1, 2, 4], [2, 4, 3]]);
    assert!(linked.iter().all(|r| *r == linked[0]));
    assert_eq!(components(&[]), Vec::<usize>::new());
}

#[test]
fn simple_hole_is_capped_against_the_boundary() {
    let (caps, holes) = cap_faces(&open_tetra());
    assert_eq!((caps.clone(), holes), (vec![[0, 3, 2]], 1));
    let mut closed = open_tetra();
    closed.extend(caps);
    assert_eq!(edge_audit(&closed), (0, 0));
}

#[test]
fn square_hole_is_fanned_from_its_least_vertex() {
    // The side of a square pyramid: the boundary runs 1 -> 2 -> 3 -> 4 -> 1.
    let side = [[1, 2, 0], [2, 3, 0], [3, 4, 0], [4, 1, 0]];
    let (caps, holes) = cap_faces(&side);
    assert_eq!((caps, holes), (vec![[1, 3, 2], [1, 4, 3]], 1));
}

#[test]
fn frayed_holes_are_left_alone() {
    assert_eq!(cap_faces(&[[0, 1, 2], [0, 3, 4]]), (vec![], 0));
    assert_eq!(cap_faces(&[[0, 3, 4], [0, 1, 2]]), (vec![], 0));
    // Two faces that wind the same way along their edge have a boundary with ends.
    assert_eq!(cap_faces(&[[0, 1, 2], [0, 1, 3]]), (vec![], 0));
    // A frayed boundary does not keep a simple one elsewhere from being capped.
    let mut faces = vec![[10, 11, 12], [10, 13, 14]];
    faces.extend(open_tetra());
    assert_eq!(cap_faces(&faces), (vec![[0, 3, 2]], 1));
    assert_eq!(cap_faces(&tetra(0)), (vec![], 0));
}

#[test]
fn caps_account_for_the_open_edges() {
    // An open tetrahedron and the side of a pyramid: loops of three and of four edges.
    let mut faces = open_tetra();
    faces.extend([[11, 12, 10], [12, 13, 10], [13, 14, 10], [14, 11, 10]]);
    let (caps, holes) = cap_faces(&faces);
    assert_eq!(holes, 2);
    assert_eq!(caps, vec![[0, 3, 2], [11, 13, 12], [11, 14, 13]]);
    assert_eq!(caps.len() + 2 * holes, edge_audit(&faces).0);
    faces.extend(caps);
    assert_eq!(edge_audit(&faces), (0, 0));
}

#[test]
fn loops_are_told_from_their_least_vertex() {
    // The boundary runs 9 -> 4 -> 7 -> 9 and 3 -> 8 -> 5 -> 3.
    let faces = [[9, 4, 7], [8, 5, 3]];
    assert_eq!(cap_faces(&faces), (vec![[3, 5, 8], [4, 9, 7]], 2));
}

#[test]
fn forced_loops_split_at_branching_vertices() {
    assert_eq!(force_loops(&[[0, 1, 2], [0, 3, 4]]), vec![vec![0, 1, 2], vec![0, 3, 4]]);
    assert_eq!(force_loops(&[[0, 3, 4], [0, 1, 2]]), vec![vec![0, 1, 2], vec![0, 3, 4]]);
    assert_eq!(force_loops(&open_tetra()), vec![vec![0, 2, 3]]);
    assert_eq!(force_loops(&tetra(0)), Vec::<Vec<u32>>::new());
    // Two faces that wind the same way along their edge leave a boundary without a loop.
    assert_eq!(force_loops(&[[0, 1, 2], [0, 1, 3]]), Vec::<Vec<u32>>::new());
}

#[test]
fn dead_ends_cost_no_loop() {
    // From 3 the boundary leads to the dead end 0 and back to 1, and 1 -> 2 -> 3 -> 1 is a loop.
    let faces = [[1, 2, 3], [3, 0, 4], [5, 0, 4]];
    assert_eq!(force_loops(&faces), vec![vec![1, 2, 3]]);
    let (loops, fill, holes) = cap_faces_force(&faces, 6);
    assert_eq!((loops.len(), holes), (1, 1));
    assert_eq!(fill, vec![[6, 2, 1], [6, 3, 2], [6, 1, 3]]);
    assert!(loops.len() <= faces.len());
    // A dead end straight away, and one behind a step.
    assert_eq!(force_loops(&[[0, 1, 2], [0, 1, 3], [2, 5, 6]]), vec![vec![2, 5, 6]]);
}

#[test]
fn loops_keep_their_order_beside_dead_ends() {
    // The boundary leads from 2 over 9 towards 7 -> 8 -> 9, but also into the dead end 0.
    let faces = [[2, 0, 9], [2, 0, 6], [9, 7, 8], [3, 4, 5]];
    assert_eq!(force_loops(&faces), vec![vec![3, 4, 5], vec![7, 8, 9]]);
    let (_, fill, holes) = cap_faces_force(&faces, 10);
    assert_eq!(holes, 2);
    assert_eq!(
        fill,
        vec![[10, 4, 3], [10, 5, 4], [10, 3, 5], [11, 8, 7], [11, 9, 8], [11, 7, 9]]
    );
}

#[test]
fn missed_loops_come_last() {
    let faces = [[1, 2, 3], [3, 0, 4], [5, 0, 4], [6, 7, 8]];
    assert_eq!(force_loops(&faces), vec![vec![6, 7, 8], vec![1, 2, 3]]);
}

#[test]
fn hub_fans_supply_the_missing_half_edges() {
    assert_eq!(hub_caps(&vec![vec![0, 2, 3]], 4), vec![[4, 2, 0], [4, 3, 2], [4, 0, 3]]);
    let (loops, fill, holes) = cap_faces_force(&[[0, 1, 2], [0, 3, 4]], 5);
    assert_eq!(loops.len(), 2);
    assert_eq!(
        fill,
        vec![[5, 1, 0], [5, 2, 1], [5, 0, 2], [6, 3, 0], [6, 4, 3], [6, 0, 4]]
    );
    assert_eq!(holes, 2);
    let mut closed = vec![[0, 1, 2], [0, 3, 4]];
    closed.extend(fill);
    assert_eq!(edge_audit(&closed), (0, 0));
}

#[test]
fn debris_is_dropped_but_never_the_biggest() {
    let mut two = tetra(0);
    two.extend(tetra(4));
    let roots = components(&two);

    let mut faces = two.clone();
    assert_eq!(drop_small_components(&mut faces, &roots, true, &vec![(0, 100), (4, 1)], 5), 1);
    assert_eq!(faces, tetra(0));

    let mut faces = two.clone();
    assert_eq!(drop_small_components(&mut faces, &roots, true, &vec![(0, 100), (4, 1)], 200), 1);
    assert_eq!(faces, tetra(0));

    let mut faces = two.clone();
    assert_eq!(drop_small_components(&mut faces, &roots, true, &vec![(0, 3), (4, 3)], 10), 1);
    assert_eq!(faces, tetra(4));

    let mut faces = two.clone();
    assert_eq!(drop_small_components(&mut faces, &roots, true, &vec![(0, 3), (4, 3)], 3), 0);
    assert_eq!(faces, two);

    // Only components that are there are counted.
    let mut faces = two.clone();
    let areas = vec![(0, 100), (4, 1), (9, 1)];
    assert_eq!(drop_small_components(&mut faces, &roots, true, &areas, 5), 1);
    assert_eq!(faces, tetra(0));

    let mut faces = two.clone();
    assert_eq!(drop_small_components(&mut faces, &roots, false, &vec![(0, 0), (4, 0)], 5), 0);
    assert_eq!(faces, two);
}

#[test]
fn inward_shells_are_turned() {
    let mut two = tetra(0);
    two.extend(tetra(4));
    let roots = components(&two);
    let mut faces = two.clone();
    assert_eq!(orient_shells(&mut faces, &roots, &vec![4]), 1);
    assert_eq!(faces[..4], two[..4]);
    assert_eq!(faces[4], [4, 5, 6]);
    assert_eq!(edge_audit(&faces), (0, 0));
    assert_eq!(orient_shells(&mut faces, &roots, &vec![4]), 1);
    assert_eq!(faces, two);
    assert_eq!(orient_shells(&mut faces, &roots, &vec![]), 0);
    assert_eq!(faces, two);
    assert_eq!(orient_shells(&mut vec![], &vec![], &vec![]), 0);
}

#[test]
fn components_that_are_not_closed_go() {
    let mut faces = tetra(0);
    faces.extend([[10, 11, 12], [10, 11, 13]]);
    faces.extend(tetra(4));
    let roots = components(&faces);
    assert_eq!(seal(&mut faces, &roots), 1);
    let mut two = tetra(0);
    two.extend(tetra(4));
    assert_eq!(faces, two);
    let roots = components(&faces);
    assert_eq!(seal(&mut faces, &roots), 0);
    assert_eq!(faces, two);

    // One overloaded edge takes the whole component with it.
    let mut finned = tetra(0);
    finned.push([0, 1, 4]);
    let roots = components(&finned);
    assert_eq!(seal(&mut finned, &roots), 1);
    assert!(finned.is_empty());
}

#[test]
fn audit_sees_shape_alone() {
    let faces = [[0, 1, 2], [1, 0, 3], [0, 1, 4], [2, 3, 4]];
    // Other order, other corner orders, and v renamed to 20 - 2 * v.
    let other = [[16, 12, 14], [18, 20, 16], [14, 20, 18], [20, 12, 18]];
    assert_eq!(edge_audit(&other), edge_audit(&faces));
}

#[test]
fn compaction_leaves_no_orphans() {
    let verts: Vec<[u64; 3]> = (0..5).map(|i| [i, i + 10, i + 20]).collect();
    let (out, faces) = compact(&verts, &vec![[3, 1, 2], [2, 1, 4]]);
    assert_eq!(out, vec![verts[3], verts[1], verts[2], verts[4]]);
    assert_eq!(faces, vec![[0, 1, 2], [2, 1, 3]]);
    assert_eq!(compact(&verts, &vec![]), (vec![], vec![]));
}
