use spectral3d_cli::compact::Point;
use spectral3d_cli::mesh::Face;
use spectral3d_cli::pipeline::{repair_mesh, AwaitVolumes, Next, RepairReport, MAX_ROUNDS};
use spectral3d_cli::weld::Cell;

fn tetra() -> Vec<Face> {
    vec![[0, 2, 1], [0, 1, 3], [1, 2, 3], [2, 0, 3]]
}

fn points(n: u64) -> Vec<Point> {
    (0..n).map(|i| [i, 0, 100 + i]).collect()
}

fn apart(n: i64) -> Vec<Cell> {
    (0..n).map(|i| (i, 0, 0)).collect()
}

/// Runs the rounds with every component large enough, and hubs at made-up places.
fn run(verts: Vec<Point>, cells: Vec<Cell>, faces: &[Face]) -> (AwaitVolumes, u8) {
    let mut state = repair_mesh(verts, &cells, faces);
    loop {
        let round = state.round();
        let mut areas: Vec<(usize, u64)> = Vec::new();
        for r in state.roots().iter() {
            if !areas.iter().any(|a| a.0 == *r) {
                areas.push((*r, 7));
            }
        }
        let hubs = state.areas_measured(true, &areas, 1);
        let places: Vec<Point> = hubs.loops().iter().map(|l| [l.len() as u64, 9, 9]).collect();
        match hubs.hubs_placed(&places) {
            Next::Again(next) => state = next,
            Next::Orient(v) => return (v, round),
        }
    }
}

fn clean() -> RepairReport {
    RepairReport {
        degenerate_dropped: 0,
        welded: 0,
        duplicate_faces_dropped: 0,
        nonmanifold_faces_removed: 0,
        components_dropped: 0,
        holes_filled: 0,
        cap_faces_added: 0,
        shells_flipped: 0,
        open_edges_left: 0,
        nonmanifold_edges_left: 0,
        closed: true,
    }
}

#[test]
fn sound_mesh_is_left_alone() {
    let (v, round) = run(points(4), apart(4), &tetra());
    assert_eq!(round, 1);
    assert_eq!(*v.faces(), tetra());
    let p = points(4);
    let (verts, faces, report) = v.volumes_measured(&vec![]);
    assert_eq!(verts, vec![p[0], p[2], p[1], p[3]]);
    assert_eq!(faces, vec![[0, 1, 2], [0, 2, 3], [2, 1, 3], [1, 0, 3]]);
    assert_eq!(report, clean());
}

#[test]
fn open_mesh_is_closed_in_one_round() {
    let (v, round) = run(points(4), apart(4), &tetra()[..3]);
    assert_eq!(round, 1);
    let (verts, faces, report) = v.volumes_measured(&vec![]);
    assert_eq!(verts.len(), 4);
    assert_eq!(faces.len(), 4);
    assert_eq!(report, RepairReport { holes_filled: 1, cap_faces_added: 1, ..clean() });
}

#[test]
fn clean_up_is_counted() {
    // Vertex 4 lies on vertex 0, one face repeats a corner, and one repeats another face.
    let mut cells = apart(4);
    cells.push(cells[0]);
    let faces = [[0, 2, 1], [4, 1, 3], [1, 2, 3], [2, 4, 3], [0, 1, 1], [3, 2, 1], [0, 4, 2]];
    let (v, _) = run(points(5), cells, &faces);
    let (verts, out, report) = v.volumes_measured(&vec![]);
    assert_eq!(verts.len(), 4);
    assert_eq!(out.len(), 4);
    assert_eq!(
        report,
        RepairReport { degenerate_dropped: 2, welded: 1, duplicate_faces_dropped: 1, ..clean() }
    );
}

#[test]
fn overloaded_edges_are_cut_and_closed_again() {
    // A fin stands on an edge of the tetrahedron: the fin and both faces there are cut.
    let mut faces = tetra();
    faces.push([0, 1, 4]);
    let (v, round) = run(points(5), apart(5), &faces);
    assert_eq!(round, 1);
    let (_, out, report) = v.volumes_measured(&vec![]);
    assert_eq!(
        report,
        RepairReport {
            nonmanifold_faces_removed: 3,
            holes_filled: 1,
            cap_faces_added: 2,
            ..clean()
        }
    );
    assert_eq!(out.len(), 4);
}

#[test]
fn debris_is_counted() {
    let mut faces = tetra();
    faces.extend(tetra().iter().map(|f| [f[0] + 4, f[1] + 4, f[2] + 4]));
    let state = repair_mesh(points(8), &apart(8), &faces);
    assert_eq!(*state.roots(), vec![0, 0, 0, 0, 4, 4, 4, 4]);
    let hubs = state.areas_measured(true, &vec![(0, 1000), (4, 2)], 3);
    assert_eq!(*hubs.faces(), tetra());
    match hubs.hubs_placed(&vec![]) {
        Next::Orient(v) => {
            let (_, out, report) = v.volumes_measured(&vec![0]);
            assert_eq!(report, RepairReport { components_dropped: 1, shells_flipped: 1, ..clean() });
            assert_eq!(out[0], [0, 1, 2]);
        }
        Next::Again(_) => panic!("a closed tetrahedron needs no second round"),
    }
}

#[test]
fn hubs_become_vertices() {
    // Two triangles that touch in one vertex: a frayed boundary, so hubs take both.
    let (v, _) = run(points(5), apart(5), &[[0, 1, 2], [0, 3, 4]]);
    assert_eq!(v.verts().len(), 7);
    assert_eq!(v.verts()[5..], [[3, 9, 9], [3, 9, 9]]);
    let (_, faces, report) = v.volumes_measured(&vec![]);
    assert_eq!(faces.len(), 8);
    assert_eq!(report, RepairReport { holes_filled: 2, cap_faces_added: 6, ..clean() });
}

#[test]
fn rounds_are_bounded() {
    // Two faces that wind the same way along their edge cannot be closed.
    let (v, round) = run(points(4), apart(4), &[[0, 1, 2], [0, 1, 3]]);
    assert_eq!(round, MAX_ROUNDS);
    let (verts, faces, report) = v.volumes_measured(&vec![]);
    assert!(verts.is_empty() && faces.is_empty());
    assert_eq!(report, RepairReport { components_dropped: 1, closed: false, ..clean() });
}

#[test]
fn what_comes_back_is_closed() {
    // A sound tetrahedron beside two faces that cannot be closed.
    let mut mesh = tetra();
    mesh.extend([[4, 5, 6], [4, 5, 7]]);
    let (v, round) = run(points(8), apart(8), &mesh);
    assert_eq!(round, MAX_ROUNDS);
    assert_eq!(*v.faces(), tetra());
    let (_, faces, report) = v.volumes_measured(&vec![]);
    assert_eq!(faces.len(), 4);
    assert_eq!(report, RepairReport { components_dropped: 1, ..clean() });
}

#[test]
fn nothing_is_not_closed() {
    let (v, _) = run(points(3), apart(3), &[[0, 0, 1], [1, 2, 2]]);
    let (verts, faces, report) = v.volumes_measured(&vec![]);
    assert!(verts.is_empty() && faces.is_empty());
    assert_eq!(report, RepairReport { degenerate_dropped: 2, closed: false, ..clean() });
}

#[test]
fn books_balance() {
    // Degenerate, duplicate, overloaded and open faces, and a part that cannot be closed.
    let mut mesh = tetra();
    mesh.extend([[0, 1, 4], [0, 0, 3], [2, 1, 0], [5, 6, 7], [8, 9, 10], [8, 9, 11]]);
    let (v, _) = run(points(12), apart(12), &mesh);
    let (_, faces, r) = v.volumes_measured(&vec![]);
    let seen = faces.len()
        + r.degenerate_dropped
        + r.duplicate_faces_dropped
        + r.nonmanifold_faces_removed;
    assert_eq!((r.degenerate_dropped, r.duplicate_faces_dropped), (1, 1));
    assert_eq!(r.components_dropped, 1);
    assert!(seen + r.components_dropped <= mesh.len() + r.cap_faces_added);

    let mut mesh = tetra();
    mesh.extend([[0, 1, 4], [0, 0, 3], [2, 1, 0], [5, 6, 7]]);
    let (v, _) = run(points(8), apart(8), &mesh);
    let (_, faces, r) = v.volumes_measured(&vec![]);
    let seen = faces.len()
        + r.degenerate_dropped
        + r.duplicate_faces_dropped
        + r.nonmanifold_faces_removed;
    assert_eq!(r.components_dropped, 0);
    assert_eq!(seen, mesh.len() + r.cap_faces_added);
}
