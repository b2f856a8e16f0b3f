//! Counting open and overloaded edges, and cutting the faces on overloaded ones.
use crate::mesh::{
    closed_manifold, edge_key, edge_of, edge_code, face_half_edges, half_edges, half_edges_of,
    lemma_edge_code_injective, lemma_uses_add,
    lemma_uses_positive, lemma_half_edge_face, up_to_three, uses, EdgeTally, Face,
};
use std::collections::HashSet;
use vstd::prelude::*;

verus! {

broadcast use vstd::std_specs::hash::group_hash_axioms;

/// The edges that only one half-edge lies on.
pub open spec fn open_edges(faces: Seq<Face>) -> Set<(u32, u32)> {
    Set::new(|e: (u32, u32)| uses(half_edges_of(faces), e) == 1)
}

/// The edges that three half-edges or more lie on.
pub open spec fn overloaded_edges(faces: Seq<Face>) -> Set<(u32, u32)> {
    Set::new(|e: (u32, u32)| uses(half_edges_of(faces), e) > 2)
}

/// The edges of a half-edge list.
spec fn edge_set(h: Seq<(u32, u32)>) -> Set<(u32, u32)> {
    h.map_values(|d: (u32, u32)| edge_of(d.0, d.1)).to_set()
}

proof fn lemma_edge_set(h: Seq<(u32, u32)>, e: (u32, u32))
    ensures
        edge_set(h).contains(e) <==> uses(h, e) > 0,
        edge_set(h).finite(),
{
    let m = h.map_values(|d: (u32, u32)| edge_of(d.0, d.1));
    vstd::seq_lib::seq_to_set_is_finite(m);
    lemma_uses_positive(h, e);
    if m.contains(e) {
        let i = m.index_of(e);
        assert(m[i] == e);
        assert(edge_of(h[i].0, h[i].1) == e);
    }
    if uses(h, e) > 0 {
        let i = choose|i: int| 0 <= i < h.len() && edge_of((#[trigger] h[i]).0, h[i].1) == e;
        assert(m[i] == e);
    }
}

/// A mesh has finitely many open and overloaded edges.
pub proof fn lemma_audit_finite(faces: Seq<Face>)
    ensures
        open_edges(faces).finite(),
        overloaded_edges(faces).finite(),
{
    let h = half_edges_of(faces);
    lemma_edge_set(h, (0, 0));
    assert(open_edges(faces).subset_of(edge_set(h))) by {
        assert forall|e: (u32, u32)| open_edges(faces).contains(e) implies edge_set(h).contains(
            e,
        ) by {
            lemma_edge_set(h, e);
        }
    }
    assert(overloaded_edges(faces).subset_of(edge_set(h))) by {
        assert forall|e: (u32, u32)| overloaded_edges(faces).contains(e) implies edge_set(
            h,
        ).contains(e) by {
            lemma_edge_set(h, e);
        }
    }
    vstd::set_lib::lemma_set_subset_finite(edge_set(h), open_edges(faces));
    vstd::set_lib::lemma_set_subset_finite(edge_set(h), overloaded_edges(faces));
}

/// How many edges are open and how many are overloaded.
pub fn edge_audit(faces: &[Face]) -> (r: (usize, usize))
    ensures
        r.0 == open_edges(faces@).len(),
        r.1 == overloaded_edges(faces@).len(),
{
    let h = half_edges(faces);
    let tally = EdgeTally::of(&h);
    let mut seen: HashSet<u64> = HashSet::new();
    let mut open: usize = 0;
    let mut over: usize = 0;
    let ghost mut met: Set<(u32, u32)> = Set::empty();
    proof {
        assert(open_edges(faces@).intersect(met) =~= Set::empty());
        assert(overloaded_edges(faces@).intersect(met) =~= Set::empty());
        assert(seen@ =~= Set::<u64>::empty());
    }
    for i in 0..h.len()
        invariant
            h@ == half_edges_of(faces@),
            tally.tallies(h@),
            met.finite(),
            forall|e: (u32, u32)| met.contains(e) <==> seen@.contains(#[trigger] edge_code(e)),
            forall|k: int|
                0 <= k < i ==> met.contains(edge_of((#[trigger] h@[k]).0, h@[k].1)),
            seen@.finite(),
            open + over <= seen@.len(),
            open == open_edges(faces@).intersect(met).len(),
            over == overloaded_edges(faces@).intersect(met).len(),
    {
        let (a, b) = h[i];
        let k = edge_key(a, b);
        let n = tally.get(a, b);
        let ghost e = edge_of(a, b);
        let ghost met0 = met;
        assert(tally.held(e) == up_to_three(uses(h@, e)));
        if seen.insert(k) {
            let total = seen.len();
            proof {
                met = met.insert(e);
                assert forall|x: (u32, u32)|
                    met.contains(x) <==> seen@.contains(#[trigger] edge_code(x)) by {
                    if edge_code(x) == k {
                        lemma_edge_code_injective(x, e);
                    }
                }
                if n == 1 {
                    assert(open_edges(faces@).intersect(met) =~= open_edges(faces@).intersect(
                        met0,
                    ).insert(e));
                } else {
                    assert(open_edges(faces@).intersect(met) =~= open_edges(faces@).intersect(
                        met0,
                    ));
                }
                if n > 2 {
                    assert(overloaded_edges(faces@).intersect(met) =~= overloaded_edges(
                        faces@,
                    ).intersect(met0).insert(e));
                } else {
                    assert(overloaded_edges(faces@).intersect(met) =~= overloaded_edges(
                        faces@,
                    ).intersect(met0));
                }
                assert(total == seen@.len());
            }
            if n == 1 {
                open = open + 1;
            } else if n > 2 {
                over = over + 1;
            }
        } else {
            proof {
                assert(seen@.contains(edge_code(e)));
                assert(met.contains(e));
            }
        }
    }
    proof {
        assert forall|e: (u32, u32)| uses(h@, e) > 0 implies met.contains(e) by {
            lemma_uses_positive(h@, e);
            let i = choose|i: int|
                0 <= i < h@.len() && edge_of((#[trigger] h@[i]).0, h@[i].1) == e;
            assert(met.contains(edge_of(h@[i].0, h@[i].1)));
        }
        assert(open_edges(faces@).intersect(met) =~= open_edges(faces@));
        assert(overloaded_edges(faces@).intersect(met) =~= overloaded_edges(faces@));
    }
    (open, over)
}

/// A face whose three edges have at most two half-edges each, among those of the list.
pub open spec fn is_clear(h: Seq<(u32, u32)>, f: Face) -> bool {
    uses(h, edge_of(f[0], f[1])) <= 2 && uses(h, edge_of(f[1], f[2])) <= 2 && uses(
        h,
        edge_of(f[2], f[0]),
    ) <= 2
}

/// The faces that touch no overloaded edge, in their order.
pub open spec fn stripped(faces: Seq<Face>) -> Seq<Face> {
    faces.filter(|f: Face| is_clear(half_edges_of(faces), f))
}

/// Cuts every face that touches an overloaded edge and says how many were cut.
pub fn strip_nonmanifold(faces: &mut Vec<Face>) -> (n: usize)
    ensures
        final(faces)@ == stripped(old(faces)@),
        n == old(faces)@.len() - stripped(old(faces)@).len(),
{
    let h = half_edges(faces.as_slice());
    let tally = EdgeTally::of(&h);
    let ghost all = faces@;
    let ghost keep = |f: Face| is_clear(half_edges_of(all), f);
    let mut kept: Vec<Face> = Vec::new();
    let before = faces.len();
    proof {
        assert(kept@ =~= all.take(0).filter(keep)) by {
            assert(all.take(0) =~= Seq::<Face>::empty());
            reveal(Seq::filter);
        }
    }
    for i in 0..faces.len()
        invariant
            faces@ == all,
            h@ == half_edges_of(all),
            tally.tallies(h@),
            keep == (|f: Face| is_clear(half_edges_of(all), f)),
            kept@ == all.take(i as int).filter(keep),
    {
        let f = faces[i];
        proof {
            assert(tally.held(edge_of(f[0], f[1])) == up_to_three(uses(h@, edge_of(f[0], f[1]))));
            assert(tally.held(edge_of(f[1], f[2])) == up_to_three(uses(h@, edge_of(f[1], f[2]))));
            assert(tally.held(edge_of(f[2], f[0])) == up_to_three(uses(h@, edge_of(f[2], f[0]))));
            assert(all.take(i + 1) =~= all.take(i as int).push(f));
            all.take(i as int).lemma_filter_push(f, keep);
        }
        if tally.get(f[0], f[1]) <= 2 && tally.get(f[1], f[2]) <= 2 && tally.get(f[2], f[0]) <= 2 {
            kept.push(f);
        }
    }
    proof {
        assert(all.take(all.len() as int) =~= all);
        all.lemma_filter_len(keep);
    }
    let n = before - kept.len();
    *faces = kept;
    n
}

/// Dropping faces never raises the uses of an edge.
pub proof fn law_dropping_lowers_uses(faces: Seq<Face>, keep: spec_fn(Face) -> bool, e: (u32, u32))
    ensures
        uses(half_edges_of(faces.filter(keep)), e) <= uses(half_edges_of(faces), e),
    decreases faces.len(),
{
    reveal(Seq::filter);
    if faces.len() > 0 {
        let t = faces.drop_last();
        let f = faces.last();
        law_dropping_lowers_uses(t, keep, e);
        lemma_uses_add(half_edges_of(t), face_half_edges(f), e);
        if keep(f) {
            assert(faces.filter(keep) == t.filter(keep).push(f));
            assert(t.filter(keep).push(f).drop_last() =~= t.filter(keep));
            lemma_uses_add(half_edges_of(t.filter(keep)), face_half_edges(f), e);
        }
    }
}

/// One sweep does it: no edge is overloaded once the faces on overloaded edges are cut.
pub proof fn law_strip_leaves_no_overload(faces: Seq<Face>, e: (u32, u32))
    ensures
        uses(half_edges_of(stripped(faces)), e) <= 2,
{
    let h = half_edges_of(faces);
    let keep = |f: Face| is_clear(h, f);
    let k = stripped(faces);
    law_dropping_lowers_uses(faces, keep, e);
    if uses(half_edges_of(k), e) > 0 {
        lemma_uses_positive(half_edges_of(k), e);
        let g = half_edges_of(k);
        let i = choose|i: int| 0 <= i < g.len() && edge_of((#[trigger] g[i]).0, g[i].1) == e;
        let r = lemma_half_edge_face(k, i);
        faces.lemma_filter_pred(keep, r.0);
        assert(is_clear(h, k[r.0]));
    }
}

/// A mesh without overloaded edges loses no face.
pub proof fn law_strip_keeps_clean_mesh(faces: Seq<Face>)
    requires
        forall|e: (u32, u32)| #[trigger] uses(half_edges_of(faces), e) <= 2,
    ensures
        stripped(faces) == faces,
{
    lemma_filter_all(faces, |f: Face| is_clear(half_edges_of(faces), f));
}

/// A filter that every element passes changes nothing.
pub proof fn lemma_filter_all(faces: Seq<Face>, keep: spec_fn(Face) -> bool)
    requires
        forall|i: int| 0 <= i < faces.len() ==> keep(#[trigger] faces[i]),
    ensures
        faces.filter(keep) == faces,
    decreases faces.len(),
{
    reveal(Seq::filter);
    if faces.len() > 0 {
        let t = faces.drop_last();
        assert forall|i: int| 0 <= i < t.len() implies keep(#[trigger] t[i]) by {
            assert(t[i] == faces[i]);
        }
        lemma_filter_all(t, keep);
        assert(keep(faces[faces.len() - 1]));
        assert(t.push(faces.last()) =~= faces);
    } else {
        assert(faces.filter(keep) =~= faces);
    }
}

/// The audit finds nothing exactly on closed manifolds.
pub proof fn law_audit_is_clean_iff_closed(faces: Seq<Face>)
    ensures
        open_edges(faces).len() == 0 && overloaded_edges(faces).len() == 0 <==> closed_manifold(
            faces,
        ),
{
    lemma_audit_finite(faces);
    let h = half_edges_of(faces);
    if open_edges(faces).len() == 0 && overloaded_edges(faces).len() == 0 {
        open_edges(faces).lemma_len0_is_empty();
        overloaded_edges(faces).lemma_len0_is_empty();
        assert forall|e: (u32, u32)| #[trigger] uses(h, e) == 0 || uses(h, e) == 2 by {
            assert(!open_edges(faces).contains(e));
            assert(!overloaded_edges(faces).contains(e));
        }
    }
    if closed_manifold(faces) {
        assert(open_edges(faces) =~= Set::empty());
        assert(overloaded_edges(faces) =~= Set::empty());
    }
}

} // verus!
