//! Moving the faces onto a fresh vertex list that holds only what they use.
use crate::mesh::{
    closed_manifold, edge_of, face_half_edges, half_edges_of, in_range, lemma_half_edge_face,
    lemma_half_edges_index, lemma_half_edges_len, lemma_uses_positive, uses, Face,
};
use std::collections::HashMap;
use vstd::prelude::*;

verus! {

broadcast use vstd::std_specs::hash::group_hash_axioms;

/// A vertex: the bit patterns of its three coordinates.
pub type Point = [u64; 3];

/// The corners of the faces, face after face.
pub open spec fn corner_list(faces: Seq<Face>) -> Seq<u32> {
    half_edges_of(faces).map_values(|d: (u32, u32)| d.0)
}

/// The numbers of a list without repeats, each where it comes up first.
pub open spec fn first_seen(l: Seq<u32>) -> Seq<u32>
    decreases l.len(),
{
    if l.len() == 0 {
        Seq::empty()
    } else {
        let t = first_seen(l.drop_last());
        if t.contains(l.last()) {
            t
        } else {
            t.push(l.last())
        }
    }
}

/// The vertices that the faces use, in the order in which they come up.
pub open spec fn used_vertices(faces: Seq<Face>) -> Seq<u32> {
    first_seen(corner_list(faces))
}

/// `out` are the faces with every vertex replaced by its place among the used ones.
pub open spec fn renumbers(faces: Seq<Face>, out: Seq<Face>) -> bool {
    &&& out.len() == faces.len()
    &&& forall|i: int, k: int|
        0 <= i < faces.len() && 0 <= k < 3 ==> (#[trigger] out[i][k]) < used_vertices(faces).len()
            && used_vertices(faces)[out[i][k] as int] == faces[i][k]
}

/// What was seen is listed once.
pub proof fn lemma_first_seen(l: Seq<u32>)
    ensures
        first_seen(l).no_duplicates(),
        forall|v: u32| #[trigger] first_seen(l).contains(v) <==> l.contains(v),
    decreases l.len(),
{
    if l.len() > 0 {
        let t = l.drop_last();
        let o = first_seen(t);
        lemma_first_seen(t);
        let r = first_seen(l);
        assert forall|v: u32| #[trigger] r.contains(v) <==> l.contains(v) by {
            assert(l[l.len() - 1] == l.last());
            if o.contains(v) {
                let i = o.index_of(v);
                assert(r[i] == v);
                assert(t.contains(v));
                let j = t.index_of(v);
                assert(l[j] == v);
            }
            if v == l.last() && !o.contains(v) {
                assert(r[o.len() as int] == v);
            }
            if l.contains(v) {
                let j = l.index_of(v);
                if j < t.len() {
                    assert(t[j] == v);
                    assert(o.contains(v));
                }
            }
        }
    }
}

/// Different 32-bit numbers are at most as many as there are 32-bit numbers.
proof fn lemma_distinct_count(l: Seq<u32>, v: u32)
    requires
        l.no_duplicates(),
        !l.contains(v),
    ensures
        l.len() <= u32::MAX,
{
    let m = l.push(v);
    m.unique_seq_to_set();
    let full = Set::<u32>::range_inclusive(0, u32::MAX);
    vstd::set_lib::range_set_properties::<u32>(0, u32::MAX);
    assert(!Set::<u32>::range(0, u32::MAX).contains(u32::MAX));
    assert(m.to_set().subset_of(full));
    vstd::set_lib::lemma_len_subset(m.to_set(), full);
}

/// The number of a vertex in the fresh list; a vertex that is not in it yet is added.
fn place(
    remap: &mut HashMap<u32, u32>,
    order: &mut Vec<u32>,
    v: u32,
) -> (p: u32)
    requires
        places(old(remap)@, old(order)@),
        old(order)@.no_duplicates(),
    ensures
        places(final(remap)@, final(order)@),
        final(order)@.no_duplicates(),
        final(order)@ == (if old(order)@.contains(v) {
            old(order)@
        } else {
            old(order)@.push(v)
        }),
        p < final(order)@.len(),
        final(order)@[p as int] == v,
{
    match remap.get(&v) {
        Some(p) => {
            let p: u32 = *p;
            assert(order@[p as int] == v);
            p
        },
        None => {
            let ghost before = order@;
            proof {
                if before.contains(v) {
                    let i = before.index_of(v);
                    assert(remap@.contains_key(before[i]));
                }
                lemma_distinct_count(before, v);
            }
            let p = order.len() as u32;
            order.push(v);
            remap.insert(v, p);
            proof {
                assert forall|i: int| 0 <= i < order@.len() implies remap@.contains_key(
                    #[trigger] order@[i],
                ) && remap@[order@[i]] == i by {
                    if i < before.len() {
                        assert(order@[i] == before[i]);
                        assert(before.contains(before[i]));
                    }
                }
            }
            p
        },
    }
}

/// `remap` gives the place of every vertex of the order, and of no other.
spec fn places(remap: Map<u32, u32>, order: Seq<u32>) -> bool {
    &&& forall|i: int|
        0 <= i < order.len() ==> remap.contains_key(#[trigger] order[i]) && remap[order[i]] == i
    &&& forall|v: u32| #[trigger]
        remap.contains_key(v) ==> remap[v] < order.len() && order[remap[v] as int] == v
}

/// Moves the faces onto a fresh vertex list without orphans.
pub fn compact(verts: &Vec<Point>, faces: &Vec<Face>) -> (r: (Vec<Point>, Vec<Face>))
    requires
        in_range(faces@, verts@.len() as int),
    ensures
        r.0@ == used_vertices(faces@).map_values(|v: u32| verts@[v as int]),
        renumbers(faces@, r.1@),
{
    let mut remap: HashMap<u32, u32> = HashMap::new();
    let mut order: Vec<u32> = Vec::new();
    let mut out: Vec<Face> = Vec::new();
    proof {
        assert(corner_list(faces@.take(0)) =~= Seq::<u32>::empty());
    }
    for i in 0..faces.len()
        invariant
            places(remap@, order@),
            order@.no_duplicates(),
            order@ == used_vertices(faces@.take(i as int)),
            out@.len() == i,
            forall|j: int, k: int|
                0 <= j < i && 0 <= k < 3 ==> (#[trigger] out@[j][k]) < order@.len()
                    && order@[out@[j][k] as int] == faces@[j][k],
    {
        let f = faces[i];
        let ghost o0 = order@;
        let a = place(&mut remap, &mut order, f[0]);
        let ghost o1 = order@;
        let b = place(&mut remap, &mut order, f[1]);
        let ghost o2 = order@;
        let c = place(&mut remap, &mut order, f[2]);
        out.push([a, b, c]);
        proof {
            let t = faces@.take(i as int);
            let l = corner_list(faces@.take(i + 1));
            assert(faces@.take(i + 1).drop_last() =~= t);
            assert(l =~= corner_list(t).push(f[0]).push(f[1]).push(f[2]));
            assert(l.drop_last() =~= corner_list(t).push(f[0]).push(f[1]));
            assert(l.drop_last().drop_last() =~= corner_list(t).push(f[0]));
            assert(l.drop_last().drop_last().drop_last() =~= corner_list(t));
            assert(first_seen(l.drop_last().drop_last()) == o1);
            assert(first_seen(l.drop_last()) == o2);
            assert(order@ == first_seen(l));
            assert forall|j: int, k: int| 0 <= j < i + 1 && 0 <= k < 3 implies (
            #[trigger] out@[j][k]) < order@.len() && order@[out@[j][k] as int] == faces@[j][k] by {
                if j < i {
                    assert(out@[j][k] < o0.len());
                    assert(order@[out@[j][k] as int] == o0[out@[j][k] as int]);
                } else if k == 0 {
                    assert(order@[a as int] == o1[a as int]);
                } else if k == 1 {
                    assert(order@[b as int] == o2[b as int]);
                }
            }
        }
    }
    assert(faces@.take(faces@.len() as int) =~= faces@);
    let mut fresh: Vec<Point> = Vec::new();
    proof {
        lemma_used_in_range(faces@, verts@.len() as int);
    }
    for i in 0..order.len()
        invariant
            forall|j: int| 0 <= j < order@.len() ==> #[trigger] order@[j] < verts@.len(),
            fresh@.len() == i,
            forall|j: int| 0 <= j < i ==> #[trigger] fresh@[j] == verts@[order@[j] as int],
    {
        assert(order@[i as int] < verts@.len());
        fresh.push(verts[order[i] as usize]);
    }
    assert(fresh@ =~= used_vertices(faces@).map_values(|v: u32| verts@[v as int]));
    (fresh, out)
}

proof fn lemma_used_in_range(faces: Seq<Face>, n: int)
    requires
        in_range(faces, n),
    ensures
        forall|j: int|
            0 <= j < used_vertices(faces).len() ==> #[trigger] used_vertices(faces)[j] < n,
{
    let l = corner_list(faces);
    lemma_first_seen(l);
    assert forall|j: int| 0 <= j < used_vertices(faces).len() implies #[trigger] used_vertices(
        faces,
    )[j] < n by {
        let v = used_vertices(faces)[j];
        assert(used_vertices(faces).contains(v));
        let i = l.index_of(v);
        assert(l[i] == v);
        let r = lemma_half_edge_face(faces, i);
        assert(faces[r.0][r.1] < n);
    }
}

/// No orphans: every vertex of the fresh list is a corner of a face.
pub proof fn law_no_orphan_vertices(faces: Seq<Face>, out: Seq<Face>, p: int)
    requires
        renumbers(faces, out),
        0 <= p < used_vertices(faces).len(),
    ensures
        exists|i: int, k: int| 0 <= i < out.len() && 0 <= k < 3 && #[trigger] out[i][k] == p,
{
    let l = corner_list(faces);
    let o = used_vertices(faces);
    lemma_first_seen(l);
    let v = o[p];
    assert(o.contains(v));
    let i = l.index_of(v);
    assert(l[i] == v);
    let r = lemma_half_edge_face(faces, i);
    assert(faces[r.0][r.1] == v);
    assert(o[out[r.0][r.1] as int] == o[p]);
    assert(out[r.0][r.1] == p);
}

/// Renumbering keeps the uses: two old vertices share as many half-edges as their new numbers.
proof fn lemma_renumbered_uses(faces: Seq<Face>, out: Seq<Face>, n: int, a: u32, b: u32)
    requires
        renumbers(faces, out),
        0 <= n <= half_edges_of(faces).len(),
        a < used_vertices(faces).len(),
        b < used_vertices(faces).len(),
    ensures
        half_edges_of(out).len() == half_edges_of(faces).len(),
        uses(half_edges_of(out).take(n), edge_of(a, b)) == uses(
            half_edges_of(faces).take(n),
            edge_of(used_vertices(faces)[a as int], used_vertices(faces)[b as int]),
        ),
    decreases n,
{
    let h = half_edges_of(faces);
    let g = half_edges_of(out);
    let o = used_vertices(faces);
    lemma_half_edges_len(faces);
    lemma_half_edges_len(out);
    lemma_first_seen(corner_list(faces));
    if n > 0 {
        lemma_renumbered_uses(faces, out, n - 1, a, b);
        assert(h.take(n).drop_last() =~= h.take(n - 1));
        assert(g.take(n).drop_last() =~= g.take(n - 1));
        let r = lemma_half_edge_face(faces, n - 1);
        lemma_half_edges_index(out, r.0, r.1);
        let f = faces[r.0];
        let q = out[r.0];
        assert(o[q[0] as int] == f[0] && o[q[1] as int] == f[1] && o[q[2] as int] == f[2]);
        assert(g.take(n).last() == face_half_edges(q)[r.1]);
        assert(h.take(n).last() == face_half_edges(f)[r.1]);
        let x = g[n - 1];
        let y = h[n - 1];
        assert(x.0 < o.len() && x.1 < o.len());
        assert(o[x.0 as int] == y.0 && o[x.1 as int] == y.1);
        assert(edge_of(x.0, x.1) == edge_of(a, b) <==> edge_of(y.0, y.1) == edge_of(
            o[a as int],
            o[b as int],
        ));
    } else {
        assert(h.take(0) =~= Seq::<(u32, u32)>::empty());
        assert(g.take(0) =~= Seq::<(u32, u32)>::empty());
    }
}

/// Compacting keeps a mesh closed, or open, as it was.
pub proof fn law_compact_keeps_closed(faces: Seq<Face>, out: Seq<Face>)
    requires
        renumbers(faces, out),
    ensures
        closed_manifold(out) <==> closed_manifold(faces),
{
    let h = half_edges_of(faces);
    let g = half_edges_of(out);
    let o = used_vertices(faces);
    lemma_half_edges_len(faces);
    lemma_half_edges_len(out);
    assert(h.take(h.len() as int) =~= h);
    assert(g.take(g.len() as int) =~= g);
    if closed_manifold(faces) {
        assert forall|e: (u32, u32)| #[trigger] uses(g, e) == 0 || uses(g, e) == 2 by {
            lemma_uses_positive(g, e);
            if uses(g, e) > 0 {
                let i = choose|i: int|
                    0 <= i < g.len() && edge_of((#[trigger] g[i]).0, g[i].1) == e;
                let r = lemma_half_edge_face(out, i);
                let q = out[r.0];
                assert(q[0] < o.len() && q[1] < o.len() && q[2] < o.len());
                let (a, b) = g[i];
                lemma_renumbered_uses(faces, out, h.len() as int, a, b);
                let e2 = edge_of(o[a as int], o[b as int]);
                assert(uses(h, e2) == 0 || uses(h, e2) == 2);
            }
        }
    }
    if closed_manifold(out) {
        assert forall|e: (u32, u32)| #[trigger] uses(h, e) == 0 || uses(h, e) == 2 by {
            lemma_uses_positive(h, e);
            if uses(h, e) > 0 {
                let i = choose|i: int|
                    0 <= i < h.len() && edge_of((#[trigger] h[i]).0, h[i].1) == e;
                let r = lemma_half_edge_face(faces, i);
                lemma_half_edges_index(out, r.0, r.1);
                let q = out[r.0];
                let f = faces[r.0];
                assert(q[0] < o.len() && q[1] < o.len() && q[2] < o.len());
                assert(o[q[0] as int] == f[0] && o[q[1] as int] == f[1] && o[q[2] as int] == f[2]);
                let (a, b) = g[i];
                lemma_renumbered_uses(faces, out, h.len() as int, a, b);
                assert(edge_of(o[a as int], o[b as int]) == e);
                assert(uses(g, edge_of(a, b)) == 0 || uses(g, edge_of(a, b)) == 2);
            }
        }
    }
}

} // verus!
