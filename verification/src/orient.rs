//! Turning inward shells outward.
use crate::mesh::{
    closed_manifold, edge_of, face_half_edges, half_edges_of, lemma_face_uses, lemma_uses_add,
    uses, Face,
};
use std::collections::HashSet;
use vstd::prelude::*;

verus! {

broadcast use vstd::std_specs::hash::group_hash_axioms;

/// A face wound the other way.
pub open spec fn flipped(f: Face) -> Face {
    [f[0], f[2], f[1]]
}

/// The faces, with those of the inward shells wound the other way.
pub open spec fn oriented(faces: Seq<Face>, roots: Seq<usize>, inward: Set<usize>) -> Seq<Face> {
    Seq::new(
        faces.len(),
        |i: int|
            if inward.contains(roots[i]) {
                flipped(faces[i])
            } else {
                faces[i]
            },
    )
}

/// Flips every face of the shells in `inward` and says how many shells that were.
pub fn orient_shells(faces: &mut Vec<Face>, roots: &Vec<usize>, inward: &Vec<usize>) -> (n: usize)
    requires
        roots@.len() == old(faces)@.len(),
    ensures
        final(faces)@ == oriented(old(faces)@, roots@, inward@.to_set()),
        n == (if old(faces)@.len() == 0 {
            0
        } else {
            inward@.to_set().len()
        }),
{
    if faces.is_empty() {
        assert(oriented(faces@, roots@, inward@.to_set()) =~= faces@);
        return 0;
    }
    let mut shells: HashSet<usize> = HashSet::new();
    proof {
        assert(inward@.take(0) =~= Seq::<usize>::empty());
        assert(shells@ =~= inward@.take(0).to_set());
    }
    for i in 0..inward.len()
        invariant
            shells@ == inward@.take(i as int).to_set(),
    {
        shells.insert(inward[i]);
        proof {
            assert(inward@.take(i + 1) =~= inward@.take(i as int).push(inward@[i as int]));
            inward@.take(i as int).lemma_push_to_set_commute(inward@[i as int]);
        }
    }
    assert(inward@.take(inward@.len() as int) =~= inward@);
    let ghost all = faces@;
    let mut turned: Vec<Face> = Vec::new();
    for i in 0..faces.len()
        invariant
            faces@ == all,
            roots@.len() == all.len(),
            shells@ == inward@.to_set(),
            turned@ == oriented(all, roots@, inward@.to_set()).take(i as int),
    {
        let f = faces[i];
        if shells.contains(&roots[i]) {
            turned.push([f[0], f[2], f[1]]);
        } else {
            turned.push(f);
        }
        assert(turned@ =~= oriented(all, roots@, inward@.to_set()).take(i + 1));
    }
    proof {
        let o = oriented(all, roots@, inward@.to_set());
        assert(o.take(all.len() as int) =~= o);
    }
    *faces = turned;
    shells.len()
}

/// Flipping changes the winding only: every edge keeps its uses.
pub proof fn law_orient_keeps_uses(
    faces: Seq<Face>,
    roots: Seq<usize>,
    inward: Set<usize>,
    e: (u32, u32),
)
    ensures
        uses(half_edges_of(oriented(faces, roots, inward)), e) == uses(half_edges_of(faces), e),
    decreases faces.len(),
{
    let o = oriented(faces, roots, inward);
    if faces.len() > 0 {
        let t = faces.drop_last();
        law_orient_keeps_uses(t, roots, inward, e);
        assert(o.drop_last() =~= oriented(t, roots, inward));
        let f = faces.last();
        let g = o.last();
        lemma_uses_add(half_edges_of(t), face_half_edges(f), e);
        lemma_uses_add(half_edges_of(o.drop_last()), face_half_edges(g), e);
        lemma_face_uses(f, e);
        lemma_face_uses(g, e);
        assert(edge_of(f[0], f[1]) == edge_of(f[1], f[0]));
        assert(edge_of(f[1], f[2]) == edge_of(f[2], f[1]));
        assert(edge_of(f[0], f[2]) == edge_of(f[2], f[0]));
    } else {
        assert(o =~= faces);
    }
}

/// A closed mesh stays closed.
pub proof fn law_orient_keeps_closed(faces: Seq<Face>, roots: Seq<usize>, inward: Set<usize>)
    ensures
        closed_manifold(oriented(faces, roots, inward)) <==> closed_manifold(faces),
{
    let o = oriented(faces, roots, inward);
    assert forall|e: (u32, u32)| #[trigger]
        uses(half_edges_of(o), e) == uses(half_edges_of(faces), e) by {
        law_orient_keeps_uses(faces, roots, inward, e);
    }
    if closed_manifold(faces) {
        assert forall|e: (u32, u32)| #[trigger] uses(half_edges_of(o), e) == 0 || uses(
            half_edges_of(o),
            e,
        ) == 2 by {
            assert(uses(half_edges_of(faces), e) == 0 || uses(half_edges_of(faces), e) == 2);
        }
    }
    if closed_manifold(o) {
        assert forall|e: (u32, u32)| #[trigger] uses(half_edges_of(faces), e) == 0 || uses(
            half_edges_of(faces),
            e,
        ) == 2 by {
            assert(uses(half_edges_of(o), e) == 0 || uses(half_edges_of(o), e) == 2);
        }
    }
}

/// Flipping the same shells twice gives the faces back.
pub proof fn law_orient_twice_restores(faces: Seq<Face>, roots: Seq<usize>, inward: Set<usize>)
    ensures
        oriented(oriented(faces, roots, inward), roots, inward) == faces,
{
    let o = oriented(faces, roots, inward);
    assert forall|i: int| 0 <= i < faces.len() implies #[trigger] oriented(o, roots, inward)[i]
        == faces[i] by {
        assert(flipped(flipped(faces[i])) =~= faces[i]);
    }
    assert(oriented(o, roots, inward) =~= faces);
}

} // verus!
