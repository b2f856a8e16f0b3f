//! The last cut: a component that is still not closed goes.
use crate::components::{
    component_roots, connected, edge_at, is_chain, law_same_root_iff_connected, share_edge,
};
use crate::debris::{law_dropped_components_had_faces, law_no_debris_keeps_all, without};
use crate::mesh::{
    closed_manifold, edge_of, face_half_edges, half_edges, half_edges_of, lemma_face_uses,
    lemma_half_edge_face, lemma_half_edges_index, lemma_uses_add, lemma_uses_positive, up_to_three,
    uses, EdgeTally, Face,
};
use std::collections::HashSet;
use vstd::prelude::*;

verus! {

broadcast use vstd::std_specs::hash::group_hash_axioms;

/// The roots of the faces' components.
pub open spec fn root_list(faces: Seq<Face>) -> Seq<usize> {
    Seq::new(faces.len(), |i: int| component_roots(faces)[i] as usize)
}

/// Every edge of the face lies between exactly two half-edges of the list.
pub open spec fn is_tight(h: Seq<(u32, u32)>, f: Face) -> bool {
    uses(h, edge_of(f[0], f[1])) == 2 && uses(h, edge_of(f[1], f[2])) == 2 && uses(
        h,
        edge_of(f[2], f[0]),
    ) == 2
}

/// The components, by their roots, that have an open or an overloaded edge.
pub open spec fn leaky(faces: Seq<Face>, roots: Seq<usize>) -> Set<usize> {
    Set::new(
        |r: usize|
            exists|i: int|
                0 <= i < faces.len() && #[trigger] roots[i] == r && !is_tight(
                    half_edges_of(faces),
                    faces[i],
                ),
    )
}

/// The faces of the components that are closed, in their order.
pub open spec fn sealed(faces: Seq<Face>) -> Seq<Face> {
    without(faces, root_list(faces), leaky(faces, root_list(faces)))
}

/// Drops every component with an open or an overloaded edge, and says how many were dropped.
pub fn seal(faces: &mut Vec<Face>, roots: &Vec<usize>) -> (n: usize)
    requires
        roots@.len() == old(faces)@.len(),
    ensures
        final(faces)@ == without(old(faces)@, roots@, leaky(old(faces)@, roots@)),
        n == leaky(old(faces)@, roots@).len(),
{
    let h = half_edges(faces.as_slice());
    let tally = EdgeTally::of(&h);
    let ghost all = faces@;
    let mut dropped: HashSet<usize> = HashSet::new();
    for i in 0..faces.len()
        invariant
            faces@ == all,
            roots@.len() == all.len(),
            h@ == half_edges_of(all),
            tally.tallies(h@),
            forall|r: usize| #[trigger]
                dropped@.contains(r) <==> exists|j: int|
                    0 <= j < i && #[trigger] roots@[j] == r && !is_tight(h@, all[j]),
    {
        let f = faces[i];
        let ghost before = dropped@;
        proof {
            assert(tally.held(edge_of(f[0], f[1])) == up_to_three(uses(h@, edge_of(f[0], f[1]))));
            assert(tally.held(edge_of(f[1], f[2])) == up_to_three(uses(h@, edge_of(f[1], f[2]))));
            assert(tally.held(edge_of(f[2], f[0])) == up_to_three(uses(h@, edge_of(f[2], f[0]))));
        }
        let tight = tally.get(f[0], f[1]) == 2 && tally.get(f[1], f[2]) == 2 && tally.get(
            f[2],
            f[0],
        ) == 2;
        assert(tight == is_tight(h@, all[i as int]));
        if !tight {
            dropped.insert(roots[i]);
        }
        proof {
            assert forall|r: usize| #[trigger] dropped@.contains(r) <==> exists|j: int|
                0 <= j < i + 1 && #[trigger] roots@[j] == r && !is_tight(h@, all[j]) by {
                if before.contains(r) {
                    let j = choose|j: int|
                        0 <= j < i && #[trigger] roots@[j] == r && !is_tight(h@, all[j]);
                    assert(roots@[j] == r);
                }
                if !tight && r == roots@[i as int] {
                    assert(roots@[i as int] == r);
                }
            }
        }
    }
    assert(dropped@ =~= leaky(all, roots@));
    let mut kept: Vec<Face> = Vec::new();
    for i in 0..faces.len()
        invariant
            faces@ == all,
            roots@.len() == all.len(),
            kept@ == without(all.take(i as int), roots@, dropped@),
    {
        proof {
            assert(all.take(i + 1).drop_last() =~= all.take(i as int));
        }
        if !dropped.contains(&roots[i]) {
            kept.push(faces[i]);
        }
    }
    assert(all.take(all.len() as int) =~= all);
    *faces = kept;
    dropped.len()
}

/// Where the components that touch an edge all stay or all go, so do its uses.
proof fn lemma_without_uses(
    faces: Seq<Face>,
    roots: Seq<usize>,
    dropped: Set<usize>,
    e: (u32, u32),
    gone: bool,
)
    requires
        forall|i: int|
            0 <= i < faces.len() && uses(face_half_edges(#[trigger] faces[i]), e) > 0 ==> (
            dropped.contains(roots[i]) <==> gone),
    ensures
        uses(half_edges_of(without(faces, roots, dropped)), e) == (if gone {
            0
        } else {
            uses(half_edges_of(faces), e)
        }),
    decreases faces.len(),
{
    if faces.len() > 0 {
        let t = faces.drop_last();
        let f = faces.last();
        let rest = without(t, roots, dropped);
        assert forall|i: int|
            0 <= i < t.len() && uses(face_half_edges(#[trigger] t[i]), e) > 0 implies (
        dropped.contains(roots[i]) <==> gone) by {
            assert(t[i] == faces[i]);
        }
        lemma_without_uses(t, roots, dropped, e, gone);
        assert(faces[faces.len() - 1] == f);
        lemma_uses_add(half_edges_of(t), face_half_edges(f), e);
        lemma_uses_add(half_edges_of(rest), face_half_edges(f), e);
        if !dropped.contains(roots[faces.len() - 1]) {
            assert(rest.push(f).drop_last() =~= rest);
            assert(half_edges_of(rest.push(f)) == half_edges_of(rest) + face_half_edges(f));
        }
    }
}

/// Two faces on one edge are in one component.
pub proof fn lemma_edge_root(faces: Seq<Face>, i: int, j: int, e: (u32, u32))
    requires
        0 <= i < faces.len(),
        0 <= j < faces.len(),
        uses(face_half_edges(faces[i]), e) > 0,
        uses(face_half_edges(faces[j]), e) > 0,
    ensures
        root_list(faces)[i] == root_list(faces)[j],
{
    lemma_uses_positive(face_half_edges(faces[i]), e);
    lemma_uses_positive(face_half_edges(faces[j]), e);
    let k = choose|k: int|
        0 <= k < face_half_edges(faces[i]).len() && edge_of(
            (#[trigger] face_half_edges(faces[i])[k]).0,
            face_half_edges(faces[i])[k].1,
        ) == e;
    let l = choose|l: int|
        0 <= l < face_half_edges(faces[j]).len() && edge_of(
            (#[trigger] face_half_edges(faces[j])[l]).0,
            face_half_edges(faces[j])[l].1,
        ) == e;
    assert(edge_at(faces[i], k) == edge_at(faces[j], l));
    assert(share_edge(faces[i], faces[j]));
    let chain = seq![i, j];
    assert(is_chain(faces, chain));
    assert(chain.first() == i && chain.last() == j);
    assert(connected(faces, i, j));
    law_same_root_iff_connected(faces, i, j);
}

/// A face uses its own three edges and no other.
proof fn lemma_touches(f: Face, e: (u32, u32))
    ensures
        uses(face_half_edges(f), e) > 0 <==> e == edge_of(f[0], f[1]) || e == edge_of(f[1], f[2])
            || e == edge_of(f[2], f[0]),
{
    lemma_face_uses(f, e);
}

/// What is left when every component with an open or an overloaded edge is dropped is closed:
/// every edge lies between exactly two half-edges.
pub proof fn law_sealed_mesh_is_closed(faces: Seq<Face>)
    ensures
        closed_manifold(sealed(faces)),
{
    let h = half_edges_of(faces);
    let roots = root_list(faces);
    let gone = leaky(faces, roots);
    assert forall|e: (u32, u32)| #[trigger] uses(half_edges_of(sealed(faces)), e) == 0 || uses(
        half_edges_of(sealed(faces)),
        e,
    ) == 2 by {
        lemma_uses_positive(h, e);
        if uses(h, e) == 0 {
            assert forall|i: int|
                0 <= i < faces.len() && uses(face_half_edges(#[trigger] faces[i]), e) > 0 implies (
            gone.contains(roots[i]) <==> true) by {
                lemma_uses_positive(face_half_edges(faces[i]), e);
                let k = choose|k: int|
                    0 <= k < face_half_edges(faces[i]).len() && edge_of(
                        (#[trigger] face_half_edges(faces[i])[k]).0,
                        face_half_edges(faces[i])[k].1,
                    ) == e;
                lemma_half_edges_index(faces, i, k);
                assert(edge_of(h[3 * i + k].0, h[3 * i + k].1) == e);
            }
            lemma_without_uses(faces, roots, gone, e, true);
        } else {
            let m = choose|m: int| 0 <= m < h.len() && edge_of((#[trigger] h[m]).0, h[m].1) == e;
            let r = lemma_half_edge_face(faces, m);
            let i = r.0;
            lemma_uses_positive(face_half_edges(faces[i]), e);
            assert(edge_of(face_half_edges(faces[i])[r.1].0, face_half_edges(faces[i])[r.1].1)
                == e);
            lemma_touches(faces[i], e);
            let out = gone.contains(roots[i]);
            assert forall|j: int|
                0 <= j < faces.len() && uses(face_half_edges(#[trigger] faces[j]), e) > 0 implies (
            gone.contains(roots[j]) <==> out) by {
                lemma_edge_root(faces, i, j, e);
            }
            lemma_without_uses(faces, roots, gone, e, out);
            if !out {
                assert(roots[i] == roots[i]);
                assert(is_tight(h, faces[i]));
            }
        }
    }
}

/// A mesh that is closed is kept whole.
pub proof fn law_closed_mesh_is_kept(faces: Seq<Face>)
    requires
        closed_manifold(faces),
    ensures
        leaky(faces, root_list(faces)) == Set::<usize>::empty(),
        sealed(faces) == faces,
{
    let h = half_edges_of(faces);
    let roots = root_list(faces);
    assert forall|i: int| 0 <= i < faces.len() implies is_tight(h, #[trigger] faces[i]) by {
        let f = faces[i];
        assert forall|k: int| 0 <= k < 3 implies uses(
            h,
            #[trigger] edge_at(f, k),
        ) == 2 by {
            lemma_half_edges_index(faces, i, k);
            lemma_uses_positive(h, edge_at(f, k));
            assert(edge_of(h[3 * i + k].0, h[3 * i + k].1) == edge_at(f, k));
            assert(uses(h, edge_at(f, k)) == 0 || uses(h, edge_at(f, k)) == 2);
        }
        assert(edge_at(f, 0) == edge_of(f[0], f[1]));
        assert(edge_at(f, 1) == edge_of(f[1], f[2]));
        assert(edge_at(f, 2) == edge_of(f[2], f[0]));
    }
    assert(leaky(faces, roots) =~= Set::<usize>::empty());
    law_no_debris_keeps_all(faces, roots);
}

/// Every component that is dropped for not being closed takes a face with it, and where none is
/// dropped, no face is.
pub proof fn law_sealing_counts_components(faces: Seq<Face>)
    ensures
        leaky(faces, root_list(faces)).finite(),
        sealed(faces).len() + leaky(faces, root_list(faces)).len() <= faces.len(),
        leaky(faces, root_list(faces)).len() == 0 ==> sealed(faces) == faces,
{
    let roots = root_list(faces);
    let leaks = leaky(faces, roots);
    assert forall|r: usize| leaks.contains(r) implies roots.to_set().contains(r) by {
        let i = choose|i: int|
            0 <= i < faces.len() && #[trigger] roots[i] == r && !is_tight(
                half_edges_of(faces),
                faces[i],
            );
        assert(roots[i] == r);
    }
    assert(leaks.intersect(roots.to_set()) =~= leaks);
    law_dropped_components_had_faces(faces, roots, leaks);
}

} // verus!
