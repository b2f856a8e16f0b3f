//! How the vertices of the result are numbered.
use crate::compact::{corner_list, first_seen, lemma_first_seen, renumbers, used_vertices, Point};
use crate::mesh::{
    lemma_half_edge_face, lemma_half_edges_index, lemma_half_edges_len, Face,
};
use vstd::prelude::*;

verus! {

/// Corner `k` of face `i` stands at `3 * i + k` among the corners.
proof fn lemma_corner(faces: Seq<Face>, i: int, k: int)
    requires
        0 <= i < faces.len(),
        0 <= k < 3,
    ensures
        corner_list(faces).len() == 3 * faces.len(),
        corner_list(faces)[3 * i + k] == faces[i][k],
{
    lemma_half_edges_len(faces);
    lemma_half_edges_index(faces, i, k);
}

/// What was seen first in the beginning of a list was seen first in the list, at the same place.
proof fn lemma_seen_prefix(l: Seq<u32>, p: int)
    requires
        0 <= p <= l.len(),
    ensures
        first_seen(l.take(p)).len() <= first_seen(l).len(),
        forall|m: int|
            0 <= m < first_seen(l.take(p)).len() ==> #[trigger] first_seen(l.take(p))[m]
                == first_seen(l)[m],
    decreases l.len(),
{
    if p < l.len() {
        lemma_seen_prefix(l.drop_last(), p);
        assert(l.drop_last().take(p) =~= l.take(p));
    } else {
        assert(l.take(p) =~= l);
    }
}

/// The faces keep their places in space, and corners are one vertex after the move exactly where
/// they were one before.
pub proof fn law_compacting_moves_no_corner(
    verts: Seq<Point>,
    faces: Seq<Face>,
    out: Seq<Face>,
    i: int,
    k: int,
    j: int,
    l: int,
)
    requires
        renumbers(faces, out),
        0 <= i < faces.len(),
        0 <= k < 3,
        0 <= j < faces.len(),
        0 <= l < 3,
    ensures
        ({
            let fresh = used_vertices(faces).map_values(|v: u32| verts[v as int]);
            &&& out.len() == faces.len()
            &&& out[i][k] < fresh.len()
            &&& fresh[out[i][k] as int] == verts[faces[i][k] as int]
        }),
        out[i][k] == out[j][l] <==> faces[i][k] == faces[j][l],
{
    let o = used_vertices(faces);
    lemma_first_seen(corner_list(faces));
    assert(o[out[i][k] as int] == faces[i][k]);
    assert(o[out[j][l] as int] == faces[j][l]);
}

/// Vertices are numbered in the order in which the faces come upon them: whatever is numbered
/// below a corner stands at an earlier corner, or is that corner's own number.
pub proof fn law_vertices_are_numbered_as_met(
    faces: Seq<Face>,
    out: Seq<Face>,
    i: int,
    k: int,
    m: int,
) -> (r: (int, int))
    requires
        renumbers(faces, out),
        0 <= i < faces.len(),
        0 <= k < 3,
        0 <= m < out[i][k],
    ensures
        0 <= r.0 < faces.len(),
        0 <= r.1 < 3,
        3 * r.0 + r.1 < 3 * i + k,
        out[r.0][r.1] == m,
{
    let l = corner_list(faces);
    let o = used_vertices(faces);
    let p = 3 * i + k;
    let n = out[i][k] as int;
    lemma_corner(faces, i, k);
    lemma_first_seen(l);
    assert(o[n] == l[p]);
    let t = first_seen(l.take(p));
    lemma_seen_prefix(l, p);
    lemma_seen_prefix(l, p + 1);
    lemma_first_seen(l.take(p));
    lemma_first_seen(l.take(p + 1));
    let u = first_seen(l.take(p + 1));
    assert(l.take(p + 1).drop_last() =~= l.take(p));
    assert(l.take(p + 1).last() == l[p]);
    assert(l.take(p + 1)[p] == l[p]);
    assert(u.contains(l[p]));
    let q = u.index_of(l[p]);
    assert(o[q] == l[p]);
    assert(q == n);
    assert(m < t.len());
    let v = t[m];
    assert(o[m] == v);
    assert(t.contains(v));
    let g = l.take(p).index_of(v);
    assert(l[g] == v);
    lemma_half_edges_len(faces);
    let r = lemma_half_edge_face(faces, g);
    lemma_corner(faces, r.0, r.1);
    assert(faces[r.0][r.1] == v);
    assert(o[out[r.0][r.1] as int] == v);
    r
}

} // verus!
