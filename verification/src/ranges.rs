//! Every stage keeps the corners of a face apart and among the vertices.
use crate::audit::{is_clear, stripped};
use crate::capping::law_capped_loops_are_simple;
use crate::clean::{distinct_faces, law_duplicates_are_redundant};
use crate::closing::{
    law_loops_are_simple, lemma_loop_edges_contains, lemma_trace_below, loops_below,
    simple_loops,
};
use crate::debris::without;
use crate::force::{boundary, trace};
use crate::holes::{loop_fan, loop_fans, simple_holes};
use crate::hubs::{after, cycle_edges, hub_fan, hub_fans};
use crate::mesh::{
    all_proper, half_edges_of, in_range, is_nondegenerate, lemma_half_edge_face, Face,
};
use crate::orient::{flipped, oriented};
use crate::weld::{cell_reps, lemma_settled_range, remapped, settled, welded, Cell};
use vstd::prelude::*;

verus! {

/// Every face of `a` is one of `b`.
pub open spec fn part_of(a: Seq<Face>, b: Seq<Face>) -> bool {
    forall|i: int| 0 <= i < a.len() ==> b.contains(#[trigger] a[i])
}

/// A part of a list keeps its range and its proper corners.
pub proof fn lemma_part_range(a: Seq<Face>, b: Seq<Face>, n: int)
    requires
        part_of(a, b),
    ensures
        in_range(b, n) ==> in_range(a, n),
        all_proper(b) ==> all_proper(a),
{
    if in_range(b, n) {
        assert forall|i: int, k: int| 0 <= i < a.len() && 0 <= k < 3 implies #[trigger] a[i][k]
            < n by {
            assert(b.contains(a[i]));
            let j = b.index_of(a[i]);
            assert(b[j][k] < n);
        }
    }
    if all_proper(b) {
        assert forall|i: int| 0 <= i < a.len() implies is_nondegenerate(#[trigger] a[i]) by {
            assert(b.contains(a[i]));
            let j = b.index_of(a[i]);
            assert(is_nondegenerate(b[j]));
        }
    }
}

/// Two lists with these properties make one.
pub proof fn lemma_add_keeps(a: Seq<Face>, b: Seq<Face>, n: int)
    requires
        in_range(a, n),
        in_range(b, n),
        all_proper(a),
        all_proper(b),
    ensures
        in_range(a + b, n),
        all_proper(a + b),
{
    let c = a + b;
    assert forall|i: int, k: int| 0 <= i < c.len() && 0 <= k < 3 implies #[trigger] c[i][k] < n by {
        if i < a.len() {
            assert(a[i][k] < n);
        } else {
            assert(b[i - a.len()][k] < n);
        }
    }
    assert forall|i: int| 0 <= i < c.len() implies is_nondegenerate(#[trigger] c[i]) by {
        if i < a.len() {
            assert(is_nondegenerate(a[i]));
        } else {
            assert(is_nondegenerate(b[i - a.len()]));
        }
    }
}

/// A filtered list is a part of the list.
pub proof fn lemma_filter_part(faces: Seq<Face>, keep: spec_fn(Face) -> bool)
    ensures
        part_of(faces.filter(keep), faces),
{
    assert forall|i: int| 0 <= i < faces.filter(keep).len() implies faces.contains(
        #[trigger] faces.filter(keep)[i],
    ) by {
        assert(faces.filter(keep).contains(faces.filter(keep)[i]));
        faces.lemma_filter_contains_rev(keep, faces.filter(keep)[i]);
    }
}

/// What stripping leaves is a part of the faces.
pub proof fn lemma_stripped_part(faces: Seq<Face>)
    ensures
        part_of(stripped(faces), faces),
{
    lemma_filter_part(faces, |f: Face| is_clear(half_edges_of(faces), f));
}

/// What dropping duplicates leaves is a part of the faces.
pub proof fn lemma_distinct_part(faces: Seq<Face>)
    ensures
        part_of(distinct_faces(faces), faces),
{
    law_duplicates_are_redundant(faces);
}

/// What dropping debris leaves is a part of the faces.
pub proof fn lemma_without_part(faces: Seq<Face>, roots: Seq<usize>, dropped: Set<usize>)
    ensures
        part_of(without(faces, roots, dropped), faces),
    decreases faces.len(),
{
    if faces.len() > 0 {
        let t = faces.drop_last();
        lemma_without_part(t, roots, dropped);
        let w = without(faces, roots, dropped);
        let v = without(t, roots, dropped);
        assert forall|i: int| 0 <= i < w.len() implies faces.contains(#[trigger] w[i]) by {
            if i < v.len() {
                assert(w[i] == v[i]);
                assert(t.contains(v[i]));
                let j = t.index_of(v[i]);
                assert(faces[j] == v[i]);
            } else {
                assert(faces[faces.len() - 1] == w[i]);
            }
        }
    }
}

/// Welded faces are proper and on vertices.
pub proof fn lemma_welded_range(cells: Seq<Cell>, faces: Seq<Face>)
    requires
        cells.len() <= 0x1_0000_0000,
        in_range(faces, cells.len() as int),
    ensures
        in_range(welded(faces, settled(faces, cell_reps(cells))), cells.len() as int),
        all_proper(welded(faces, settled(faces, cell_reps(cells)))),
        welded(faces, settled(faces, cell_reps(cells))).len() <= faces.len(),
{
    let rep = settled(faces, cell_reps(cells));
    let n = cells.len() as int;
    lemma_settled_range(cells, faces);
    let keep = |f: Face| is_nondegenerate(f);
    let m = faces.map_values(|f: Face| remapped(f, rep));
    m.lemma_filter_len(keep);
    assert(in_range(m, n)) by {
        assert forall|i: int, k: int| 0 <= i < m.len() && 0 <= k < 3 implies #[trigger] m[i][k]
            < n by {
            assert(faces[i][k] < n);
            assert(m[i] == remapped(faces[i], rep));
            assert(rep[faces[i][k] as int] < n);
        }
    }
    lemma_filter_part(m, keep);
    lemma_part_range(m.filter(keep), m, n);
    assert forall|i: int| 0 <= i < m.filter(keep).len() implies is_nondegenerate(
        #[trigger] m.filter(keep)[i],
    ) by {
        m.lemma_filter_pred(keep, i);
    }
}

/// Fans over simple loops on these vertices.
proof fn lemma_fans(loops: Seq<Seq<u32>>, n: int)
    requires
        simple_loops(loops),
        loops_below(loops, n),
    ensures
        in_range(loop_fans(loops), n),
        all_proper(loop_fans(loops)),
    decreases loops.len(),
{
    if loops.len() > 0 {
        let front = loops.drop_last();
        let c = loops.last();
        assert(loops[loops.len() - 1] == c);
        lemma_front(loops, n);
        lemma_fans(front, n);
        let fan = loop_fan(c);
        assert forall|w: int| 0 <= w < c.len() implies #[trigger] c[w] < n by {
            assert(loops[loops.len() - 1][w] < n);
        }
        assert forall|i: int, k: int| 0 <= i < fan.len() && 0 <= k < 3 implies #[trigger] fan[i][k]
            < n by {
            assert(fan[i] == [c[0], c[i + 2], c[i + 1]]);
        }
        lemma_add_keeps(loop_fans(front), fan, n);
    }
}

proof fn lemma_front(loops: Seq<Seq<u32>>, n: int)
    requires
        loops.len() > 0,
        simple_loops(loops),
        loops_below(loops, n),
    ensures
        simple_loops(loops.drop_last()),
        loops_below(loops.drop_last(), n),
{
    let front = loops.drop_last();
    assert forall|k: int| 0 <= k < front.len() implies (#[trigger] front[k]).len() >= 3
        && front[k].no_duplicates() by {
        assert(front[k] == loops[k]);
    }
    assert forall|k: int, w: int| 0 <= k < front.len() && 0 <= w < front[k].len() implies #[trigger]
        front[k][w] < n by {
        assert(front[k] == loops[k]);
        assert(loops[k][w] < n);
    }
}

/// The fan caps of a mesh are proper faces on its vertices.
pub proof fn lemma_loop_fans_range(faces: Seq<Face>, n: int)
    requires
        in_range(faces, n),
    ensures
        in_range(loop_fans(simple_holes(faces)), n),
        all_proper(loop_fans(simple_holes(faces))),
{
    let loops = simple_holes(faces);
    let h = half_edges_of(faces);
    law_capped_loops_are_simple(faces);
    assert forall|k: int, w: int| 0 <= k < loops.len() && 0 <= w < loops[k].len() implies #[trigger]
        loops[k][w] < n by {
        lemma_loop_edges_contains(loops, k, w);
        let d = cycle_edges(loops[k])[w];
        assert(boundary(h).contains(d));
        let i = h.index_of(d);
        assert(h[i] == d);
        let r = lemma_half_edge_face(faces, i);
        assert(faces[r.0][r.1] < n);
    }
    lemma_fans(loops, n);
}

proof fn lemma_hubs(base: int, loops: Seq<Seq<u32>>)
    requires
        simple_loops(loops),
        loops_below(loops, base),
        0 <= base,
        base + loops.len() <= 0x1_0000_0000,
    ensures
        in_range(hub_fans(base, loops), base + loops.len()),
        all_proper(hub_fans(base, loops)),
    decreases loops.len(),
{
    if loops.len() > 0 {
        let front = loops.drop_last();
        let c = loops.last();
        let n = base + loops.len();
        let hub = (n - 1) as u32;
        assert(loops[loops.len() - 1] == c);
        lemma_front(loops, base);
        lemma_hubs(base, front);
        let fan = hub_fan(hub, c);
        assert forall|w: int| 0 <= w < c.len() implies #[trigger] c[w] < base by {
            assert(loops[loops.len() - 1][w] < base);
        }
        assert forall|i: int, k: int| 0 <= i < fan.len() && 0 <= k < 3 implies #[trigger] fan[i][k]
            < n by {
            assert(fan[i] == [hub, after(c, i), c[i]]);
        }
        assert forall|i: int| 0 <= i < fan.len() implies is_nondegenerate(#[trigger] fan[i]) by {
            assert(fan[i] == [hub, after(c, i), c[i]]);
        }
        assert forall|i: int, k: int|
            0 <= i < hub_fans(base, front).len() && 0 <= k < 3 implies #[trigger] hub_fans(
            base,
            front,
        )[i][k] < n by {
            assert(hub_fans(base, front)[i][k] < base + front.len());
        }
        lemma_add_keeps(hub_fans(base, front), fan, n);
    }
}

/// The hub fans of a mesh are proper faces on its vertices and the hubs.
pub proof fn lemma_hub_fans_range(faces: Seq<Face>, base: int)
    requires
        in_range(faces, base),
        0 <= base,
        base + trace(boundary(half_edges_of(faces))).len() <= 0x1_0000_0000,
    ensures
        in_range(
            hub_fans(base, trace(boundary(half_edges_of(faces)))),
            base + trace(boundary(half_edges_of(faces))).len(),
        ),
        all_proper(hub_fans(base, trace(boundary(half_edges_of(faces))))),
{
    law_loops_are_simple(faces);
    lemma_trace_below(faces, base);
    lemma_hubs(base, trace(boundary(half_edges_of(faces))));
}

/// Turned faces stay proper and on their vertices.
pub proof fn lemma_oriented_range(
    faces: Seq<Face>,
    roots: Seq<usize>,
    inward: Set<usize>,
    n: int,
)
    requires
        in_range(faces, n),
    ensures
        in_range(oriented(faces, roots, inward), n),
{
    let o = oriented(faces, roots, inward);
    assert forall|i: int, k: int| 0 <= i < o.len() && 0 <= k < 3 implies #[trigger] o[i][k] < n by {
        assert(faces[i][0] < n && faces[i][1] < n && faces[i][2] < n);
        assert(o[i] == faces[i] || o[i] == flipped(faces[i]));
    }
}

} // verus!
