//! What the words for edges, holes and components come down to, vertex by vertex.
use crate::audit::{open_edges, overloaded_edges};
use crate::closing::loop_edges;
use crate::components::{
    component_roots, connected, edge_at, first_on_edge, is_chain, labels_after,
    law_same_root_iff_connected, lemma_first_on_edge, lemma_labels_range, share_edge,
};
use crate::debris::{dropped, Measure};
use crate::force::boundary;
use crate::holes::{
    is_simple_hole, lemma_boundary_holes, lemma_one_enters, lemma_one_leaves, loop_fans,
    simple_holes,
};
use crate::hubs::{after, cycle_edges};
use crate::kept::runs_between;
use crate::mesh::{
    closed_manifold, edge_code, edge_of, face_half_edges, half_edges_of, lemma_edge_code_injective,
    lemma_half_edges_index, lemma_half_edges_len, lemma_uses_positive, up_to_three, uses, Face,
};
use crate::sealing::leaky;
use crate::weld::merged;
use crate::winding::step_at;
use vstd::prelude::*;

verus! {

/// Two half-edges lie on one edge if and only if they have the same two ends. The edge names its
/// smaller end first.
pub proof fn law_edge_is_a_pair_of_ends(a: u32, b: u32, c: u32, d: u32)
    ensures
        edge_of(a, b) == edge_of(c, d) <==> (a == c && b == d) || (a == d && b == c),
        edge_of(a, b).0 <= edge_of(a, b).1,
        edge_of(a, b) == (a, b) || edge_of(a, b) == (b, a),
{
}

/// Each face has three half-edges, from each corner to the next one, and from the last to the
/// first; those of a list stand face after face.
pub proof fn law_half_edges_run_round_the_faces(faces: Seq<Face>, i: int)
    requires
        0 <= i < faces.len(),
    ensures
        half_edges_of(faces).len() == 3 * faces.len(),
        half_edges_of(faces)[3 * i] == (faces[i][0], faces[i][1]),
        half_edges_of(faces)[3 * i + 1] == (faces[i][1], faces[i][2]),
        half_edges_of(faces)[3 * i + 2] == (faces[i][2], faces[i][0]),
{
    lemma_half_edges_len(faces);
    lemma_half_edges_index(faces, i, 0);
    lemma_half_edges_index(faces, i, 1);
    lemma_half_edges_index(faces, i, 2);
}

/// The places of a list at which a half-edge between two given vertices stands.
pub open spec fn places_between(h: Seq<(u32, u32)>, a: u32, b: u32) -> Set<int> {
    Set::new(|p: int| 0 <= p < h.len() && (h[p] == (a, b) || h[p] == (b, a)))
}

/// The uses of an edge are the places at which a half-edge runs between its ends, one way or the
/// other.
pub proof fn law_uses_count_the_half_edges(h: Seq<(u32, u32)>, a: u32, b: u32)
    ensures
        places_between(h, a, b).finite(),
        uses(h, edge_of(a, b)) == places_between(h, a, b).len(),
    decreases h.len(),
{
    let s = places_between(h, a, b);
    if h.len() == 0 {
        assert(s =~= Set::empty());
    } else {
        let t = h.drop_last();
        let n = t.len() as int;
        let u = places_between(t, a, b);
        law_uses_count_the_half_edges(t, a, b);
        if h.last() == (a, b) || h.last() == (b, a) {
            assert(s =~= u.insert(n));
        } else {
            assert(s =~= u);
        }
    }
}

/// The audit: an open edge has one use, an overloaded one three or more, and a mesh is closed if
/// and only if every half-edge of it lies on an edge with two.
pub proof fn law_audit_goes_by_uses(faces: Seq<Face>, a: u32, b: u32)
    ensures
        open_edges(faces).contains(edge_of(a, b)) <==> uses(half_edges_of(faces), edge_of(a, b))
            == 1,
        overloaded_edges(faces).contains(edge_of(a, b)) <==> uses(
            half_edges_of(faces),
            edge_of(a, b),
        ) >= 3,
        a > b ==> !open_edges(faces).contains((a, b)) && !overloaded_edges(faces).contains((a, b)),
        closed_manifold(faces) <==> forall|p: int|
            0 <= p < half_edges_of(faces).len() ==> uses(
                half_edges_of(faces),
                edge_of((#[trigger] half_edges_of(faces)[p]).0, half_edges_of(faces)[p].1),
            ) == 2,
{
    let h = half_edges_of(faces);
    if a > b {
        lemma_uses_positive(h, (a, b));
    }
    if closed_manifold(faces) {
        assert forall|p: int| 0 <= p < h.len() implies uses(
            h,
            edge_of((#[trigger] h[p]).0, h[p].1),
        ) == 2 by {
            lemma_uses_positive(h, edge_of(h[p].0, h[p].1));
            let e = edge_of(h[p].0, h[p].1);
            assert(uses(h, e) == 0 || uses(h, e) == 2);
        }
    } else {
        let e = choose|e: (u32, u32)| !(#[trigger] uses(h, e) == 0 || uses(h, e) == 2);
        lemma_uses_positive(h, e);
        let p = choose|p: int| 0 <= p < h.len() && edge_of((#[trigger] h[p]).0, h[p].1) == e;
        assert(uses(h, edge_of(h[p].0, h[p].1)) != 2);
    }
}

/// What a tally tells of an edge is how many uses it has, up to two; beyond that it tells three.
pub proof fn law_tally_tells_up_to_three(n: nat)
    ensures
        n <= 3 ==> up_to_three(n) == n,
        n > 3 ==> up_to_three(n) == 3,
{
}

/// Edges have the same key if and only if they have the same ends.
pub proof fn law_edge_keys_tell_edges_apart(a: u32, b: u32, c: u32, d: u32)
    ensures
        edge_code(edge_of(a, b)) == edge_code(edge_of(c, d)) <==> (a == c && b == d) || (a == d && b
            == c),
{
    if edge_code(edge_of(a, b)) == edge_code(edge_of(c, d)) {
        lemma_edge_code_injective(edge_of(a, b), edge_of(c, d));
    }
}

/// The boundary consists of the half-edges whose ends no other half-edge runs between.
pub proof fn law_boundary_half_edges_are_alone(h: Seq<(u32, u32)>, d: (u32, u32))
    ensures
        boundary(h).contains(d) <==> h.contains(d) && places_between(h, d.0, d.1).len() == 1,
{
    law_uses_count_the_half_edges(h, d.0, d.1);
}

/// The half-edges of a list of loops are the steps of its loops.
pub proof fn law_loop_edges_are_steps(loops: Seq<Seq<u32>>, d: (u32, u32))
    ensures
        loop_edges(loops).contains(d) <==> exists|k: int, w: int|
            0 <= k < loops.len() && 0 <= w < loops[k].len() && #[trigger] step_at(loops[k], w) == d,
{
    if loop_edges(loops).contains(d) {
        let r = crate::capping::lemma_loop_edges_source(loops, d);
        assert(step_at(loops[r.0], r.1) == d);
    }
    if exists|k: int, w: int|
        0 <= k < loops.len() && 0 <= w < loops[k].len() && #[trigger] step_at(loops[k], w) == d {
        let (k, w) = choose|k: int, w: int|
            0 <= k < loops.len() && 0 <= w < loops[k].len() && #[trigger] step_at(loops[k], w) == d;
        crate::closing::lemma_loop_edges_contains(loops, k, w);
        assert(cycle_edges(loops[k])[w] == d);
    }
}

proof fn lemma_edge_between(f: Face, a: u32, b: u32) -> (k: int)
    requires
        runs_between(f, a, b),
    ensures
        0 <= k < 3,
        edge_at(f, k) == edge_of(a, b),
{
    if (f[0] == a && f[1] == b) || (f[0] == b && f[1] == a) {
        0
    } else if (f[1] == a && f[2] == b) || (f[1] == b && f[2] == a) {
        1
    } else {
        2
    }
}

/// Half-edges of both faces run between the same two vertices.
pub open spec fn are_neighbours(f: Face, g: Face) -> bool {
    exists|a: u32, b: u32| #[trigger] runs_between(f, a, b) && runs_between(g, a, b)
}

proof fn lemma_neighbours(f: Face, g: Face)
    ensures
        are_neighbours(f, g) <==> share_edge(f, g),
{
    if are_neighbours(f, g) {
        let (a, b) = choose|a: u32, b: u32| #[trigger] runs_between(f, a, b) && runs_between(
            g,
            a,
            b,
        );
        let k = lemma_edge_between(f, a, b);
        let l = lemma_edge_between(g, a, b);
        assert(edge_at(f, k) == edge_at(g, l));
    }
    if share_edge(f, g) {
        let (k, l) = choose|k: int, l: int|
            0 <= k < 3 && 0 <= l < 3 && #[trigger] edge_at(f, k) == #[trigger] edge_at(g, l);
        let a = face_half_edges(f)[k].0;
        let b = face_half_edges(f)[k].1;
        assert(runs_between(f, a, b));
        assert(runs_between(g, a, b));
    }
}

/// Neighbours are in one component.
pub proof fn law_neighbours_are_in_one_component(faces: Seq<Face>, i: int, j: int)
    requires
        0 <= i < faces.len(),
        0 <= j < faces.len(),
        are_neighbours(faces[i], faces[j]),
    ensures
        component_roots(faces)[i] == component_roots(faces)[j],
{
    lemma_neighbours(faces[i], faces[j]);
    let chain = seq![i, j];
    assert(is_chain(faces, chain));
    assert(chain.first() == i && chain.last() == j);
    assert(connected(faces, i, j));
    law_same_root_iff_connected(faces, i, j);
}

/// Components are no larger than that: a set of faces that holds, with each face, all its
/// neighbours, holds all of a component or none of it.
pub proof fn law_component_is_the_smallest_such_set(
    faces: Seq<Face>,
    group: Set<int>,
    i: int,
    j: int,
)
    requires
        forall|k: int, l: int|
            0 <= k < faces.len() && 0 <= l < faces.len() && #[trigger] group.contains(k)
                && #[trigger] are_neighbours(faces[k], faces[l]) ==> group.contains(l),
        0 <= i < faces.len(),
        0 <= j < faces.len(),
        component_roots(faces)[i] == component_roots(faces)[j],
    ensures
        group.contains(i) <==> group.contains(j),
{
    law_same_root_iff_connected(faces, i, j);
    law_same_root_iff_connected(faces, j, i);
    let c = choose|c: Seq<int>| #[trigger] is_chain(faces, c) && c.first() == i && c.last() == j;
    let d = choose|d: Seq<int>| #[trigger] is_chain(faces, d) && d.first() == j && d.last() == i;
    if group.contains(i) {
        lemma_chain_stays(faces, group, c, c.len() - 1);
    }
    if group.contains(j) {
        lemma_chain_stays(faces, group, d, d.len() - 1);
    }
}

proof fn lemma_chain_stays(faces: Seq<Face>, group: Set<int>, c: Seq<int>, n: int)
    requires
        forall|k: int, l: int|
            0 <= k < faces.len() && 0 <= l < faces.len() && #[trigger] group.contains(k)
                && #[trigger] are_neighbours(faces[k], faces[l]) ==> group.contains(l),
        is_chain(faces, c),
        group.contains(c.first()),
        0 <= n < c.len(),
    ensures
        group.contains(c[n]),
    decreases n,
{
    if n > 0 {
        lemma_chain_stays(faces, group, c, n - 1);
        let f = faces[c[n - 1]];
        let g = faces[c[n]];
        assert(0 <= c[n] < faces.len());
        assert(share_edge(f, faces[c[n - 1 + 1]]));
        lemma_neighbours(f, g);
    }
}

/// How components get their names: at first each face bears its own number. The half-edges are
/// gone through in order, and at each the faces that bear the name of its face take the name of
/// the face whose half-edge was the first between the same two vertices.
pub proof fn law_components_are_named_half_edge_by_half_edge(faces: Seq<Face>) -> (names: Seq<
    Seq<int>,
>)
    ensures
        names.len() == 3 * faces.len() + 1,
        names.last() == component_roots(faces),
        forall|f: int| 0 <= f < faces.len() ==> #[trigger] names[0][f] == f,
        forall|p: int, q: int, f: int|
            0 <= q <= p < 3 * faces.len() && 0 <= f < faces.len() && #[trigger] is_first_between(
                half_edges_of(faces),
                p,
                q,
            ) ==> #[trigger] names[p + 1][f] == (if names[p][f] == names[p][p / 3] {
                names[p][q / 3]
            } else {
                names[p][f]
            }),
{
    let h = half_edges_of(faces);
    let n = faces.len();
    lemma_half_edges_len(faces);
    let names = Seq::new(3 * n + 1, |i: int| labels_after(h, n, i));
    assert forall|p: int, q: int, f: int|
        0 <= q <= p < 3 * n && 0 <= f < n && #[trigger] is_first_between(h, p, q) implies
        #[trigger] names[p + 1][f] == (if names[p][f] == names[p][p / 3] {
        names[p][q / 3]
    } else {
        names[p][f]
    }) by {
        lemma_labels_range(h, n, p);
        assert(first_on_edge(h, p, q)) by {
            assert forall|k: int| 0 <= k < q implies edge_of((#[trigger] h[k]).0, h[k].1)
                != edge_of(h[p].0, h[p].1) by {
                assert(h[k] != h[p]);
            }
        }
        lemma_first_on_edge(h, p, q);
    }
    names
}

/// Place `q` is the first at which a half-edge runs between the two vertices of the one at `p`.
pub open spec fn is_first_between(h: Seq<(u32, u32)>, p: int, q: int) -> bool {
    &&& h[q] == h[p] || h[q] == (h[p].1, h[p].0)
    &&& forall|k: int| 0 <= k < q ==> #[trigger] h[k] != h[p] && h[k] != (h[p].1, h[p].0)
}

/// A component is dropped in the end if and only if one of its faces has an edge that does not
/// have two uses.
pub proof fn law_leaky_components(faces: Seq<Face>, roots: Seq<usize>, r: usize)
    ensures
        leaky(faces, roots).contains(r) <==> exists|i: int|
            0 <= i < faces.len() && #[trigger] roots[i] == r && (uses(
                half_edges_of(faces),
                edge_of(faces[i][0], faces[i][1]),
            ) != 2 || uses(half_edges_of(faces), edge_of(faces[i][1], faces[i][2])) != 2 || uses(
                half_edges_of(faces),
                edge_of(faces[i][2], faces[i][0]),
            ) != 2),
{
}

/// A component counts as dropped debris if and only if it has faces, an entry puts it below the
/// floor, and it is not the component of the biggest entry.
pub proof fn law_dropped_debris(
    roots: Seq<usize>,
    areas: Seq<Measure>,
    floor: u64,
    big: int,
    r: usize,
)
    requires
        0 <= big < areas.len(),
        forall|a: int| 0 <= a < areas.len() ==> (#[trigger] areas[a]).1 <= areas[big].1,
        forall|a: int| big < a < areas.len() ==> (#[trigger] areas[a]).1 < areas[big].1,
    ensures
        dropped(roots, areas, floor).contains(r) <==> roots.contains(r) && r != areas[big].0
            && exists|a: int|
            0 <= a < areas.len() && (#[trigger] areas[a]).0 == r && areas[a].1 < floor,
{
    assert(crate::debris::is_biggest(areas, big));
    if dropped(roots, areas, floor).contains(r) {
        let (a, b) = choose|a: int, b: int|
            0 <= a < areas.len() && #[trigger] crate::debris::is_biggest(areas, b)
                && (#[trigger] areas[a]).0 == r && areas[a].1 < floor && r != areas[b].0;
        if b < big {
            assert(areas[big].1 < areas[b].1);
            assert(areas[b].1 <= areas[big].1);
        }
        if big < b {
            assert(areas[b].1 < areas[big].1);
            assert(areas[big].1 <= areas[b].1);
        }
        assert(areas[a].0 == r);
    }
}

/// The vertices that count as welded are those that stand under another one.
pub proof fn law_merged_vertices_stand_under_others(rep: Seq<u32>, i: int)
    ensures
        merged(rep).contains(i) <==> 0 <= i < rep.len() && rep[i] as int != i,
{
}

/// Which loops are capped with a fan: those of three vertices or more, none twice, that run along
/// the boundary and at none of whose vertices another half-edge of the boundary comes or goes.
/// Each is told once, from its smallest vertex on, and they stand in the order of that vertex.
pub proof fn law_capped_loops(faces: Seq<Face>, c: Seq<u32>)
    ensures
        simple_holes(faces).contains(c) <==> {
            let b = boundary(half_edges_of(faces));
            &&& c.len() >= 3
            &&& forall|v: int, w: int| 0 <= v < w < c.len() ==> #[trigger] c[v] != #[trigger] c[w]
            &&& forall|w: int| 0 <= w < c.len() ==> b.contains(#[trigger] step_at(c, w))
            &&& forall|d: (u32, u32), w: int|
                #[trigger] b.contains(d) && 0 <= w < c.len() && (d.0 == #[trigger] c[w] || d.1
                    == c[w]) ==> exists|v: int| 0 <= v < c.len() && #[trigger] step_at(c, v) == d
            &&& forall|w: int| 0 <= w < c.len() ==> c[0] <= #[trigger] c[w]
        },
        forall|i: int, j: int|
            0 <= i < j < simple_holes(faces).len() ==> (#[trigger] simple_holes(faces)[i])[0] < (
            #[trigger] simple_holes(faces)[j])[0],
{
    let b = boundary(half_edges_of(faces));
    lemma_boundary_holes(faces);
    if is_simple_hole(b, c) {
        assert forall|w: int| 0 <= w < c.len() implies b.contains(#[trigger] step_at(c, w)) by {
            assert(step_at(c, w) == (c[w], after(c, w)));
        }
        assert forall|d: (u32, u32), w: int|
            #[trigger] b.contains(d) && 0 <= w < c.len() && (d.0 == #[trigger] c[w] || d.1 == c[w])
            implies exists|v: int| 0 <= v < c.len() && #[trigger] step_at(c, v) == d by {
            lemma_one_leaves(b, c[w]);
            lemma_one_enters(b, c[w]);
            assert(crate::holes::is_plain(b, c[w]));
            assert(b.contains((d.0, d.1)));
            if d.0 == c[w] {
                assert(b.contains((c[w], after(c, w))));
                assert(step_at(c, w) == d);
            } else {
                let v = if w > 0 {
                    w - 1
                } else {
                    c.len() - 1
                };
                assert(b.contains((c[v], after(c, v))));
                assert(after(c, v) == c[w]);
                assert(step_at(c, v) == d);
            }
        }
    }
    if {
        &&& c.len() >= 3
        &&& forall|v: int, w: int| 0 <= v < w < c.len() ==> #[trigger] c[v] != #[trigger] c[w]
        &&& forall|w: int| 0 <= w < c.len() ==> b.contains(#[trigger] step_at(c, w))
        &&& forall|d: (u32, u32), w: int|
            #[trigger] b.contains(d) && 0 <= w < c.len() && (d.0 == #[trigger] c[w] || d.1 == c[w])
                ==> exists|v: int| 0 <= v < c.len() && #[trigger] step_at(c, v) == d
        &&& forall|w: int| 0 <= w < c.len() ==> c[0] <= #[trigger] c[w]
    } {
        assert forall|w: int| 0 <= w < c.len() implies b.contains((c[w], #[trigger] after(c, w)))
            by {
            assert(step_at(c, w) == (c[w], after(c, w)));
        }
        assert forall|w: int| 0 <= w < c.len() implies crate::holes::is_plain(
            b,
            #[trigger] c[w],
        ) by {
            lemma_plain(b, c, w);
        }
        assert(c.no_duplicates());
        assert(is_simple_hole(b, c));
    }
}

proof fn lemma_plain(b: Set<(u32, u32)>, c: Seq<u32>, w: int)
    requires
        b.finite(),
        0 <= w < c.len(),
        forall|v: int, w: int| 0 <= v < w < c.len() ==> #[trigger] c[v] != #[trigger] c[w],
        forall|w: int| 0 <= w < c.len() ==> b.contains((c[w], #[trigger] after(c, w))),
        forall|d: (u32, u32), w: int|
            #[trigger] b.contains(d) && 0 <= w < c.len() && (d.0 == #[trigger] c[w] || d.1 == c[w])
                ==> exists|v: int| 0 <= v < c.len() && #[trigger] step_at(c, v) == d,
    ensures
        crate::holes::is_plain(b, c[w]),
{
    let u = if w > 0 {
        w - 1
    } else {
        c.len() - 1
    };
    assert(b.contains((c[w], after(c, w))));
    assert(b.contains((c[u], after(c, u))));
    assert(after(c, u) == c[w]);
    lemma_one_leaves(b, c[w]);
    lemma_one_enters(b, c[w]);
    assert forall|x: u32, y: u32| #[trigger] b.contains((c[w], x)) && #[trigger] b.contains(
        (c[w], y),
    ) implies x == y by {
        let p = choose|v: int| 0 <= v < c.len() && #[trigger] step_at(c, v) == (c[w], x);
        let q = choose|v: int| 0 <= v < c.len() && #[trigger] step_at(c, v) == (c[w], y);
        assert(c[p] == c[w] && c[q] == c[w]);
        assert(p == w && q == w);
    }
    assert forall|x: u32, y: u32| #[trigger] b.contains((x, c[w])) && #[trigger] b.contains(
        (y, c[w]),
    ) implies x == y by {
        let p = choose|v: int| 0 <= v < c.len() && #[trigger] step_at(c, v) == (x, c[w]);
        let q = choose|v: int| 0 <= v < c.len() && #[trigger] step_at(c, v) == (y, c[w]);
        let p1 = if p == c.len() - 1 {
            0
        } else {
            p + 1
        };
        let q1 = if q == c.len() - 1 {
            0
        } else {
            q + 1
        };
        assert(c[p1] == c[w] && c[q1] == c[w]);
        assert(p1 == w && q1 == w);
    }
}

/// The fans over several loops stand in the order of the loops. Each loop has a face for every
/// vertex but two, in their order: its first vertex, and two that follow each other on it, the
/// later one first.
pub proof fn law_fans_cover_every_loop(loops: Seq<Seq<u32>>, k: int, w: int)
    requires
        forall|k: int| 0 <= k < loops.len() ==> (#[trigger] loops[k]).len() >= 2,
        0 <= k < loops.len(),
        1 <= w < loops[k].len() - 1,
    ensures
        0 <= loop_edges(loops.take(k)).len() - 2 * k + w - 1 < loop_fans(loops).len(),
        loop_fans(loops)[loop_edges(loops.take(k)).len() - 2 * k + w - 1] == [
            loops[k][0],
            loops[k][w + 1],
            loops[k][w],
        ],
    decreases loops.len(),
{
    let front = loops.drop_last();
    let c = loops.last();
    let f = [loops[k][0], loops[k][w + 1], loops[k][w]];
    assert forall|k: int| 0 <= k < front.len() implies (#[trigger] front[k]).len() >= 2 by {
        assert(front[k] == loops[k]);
    }
    law_fans_have_no_further_faces(front);
    if k < front.len() {
        assert(front[k] == loops[k]);
        law_fans_cover_every_loop(front, k, w);
        assert(front.take(k) =~= loops.take(k));
    } else {
        assert(loops.take(k) =~= front);
        assert(crate::holes::loop_fan(c)[w - 1] == f);
        assert(loop_fans(loops)[loop_fans(front).len() + w - 1] == f);
    }
}

/// The fans over several loops have no further faces.
pub proof fn law_fans_have_no_further_faces(loops: Seq<Seq<u32>>)
    requires
        forall|k: int| 0 <= k < loops.len() ==> (#[trigger] loops[k]).len() >= 2,
    ensures
        loop_fans(loops).len() + 2 * loops.len() == loop_edges(loops).len(),
    decreases loops.len(),
{
    if loops.len() > 0 {
        let front = loops.drop_last();
        assert forall|k: int| 0 <= k < front.len() implies (#[trigger] front[k]).len() >= 2 by {
            assert(front[k] == loops[k]);
        }
        assert(loops[loops.len() - 1].len() >= 2);
        law_fans_have_no_further_faces(front);
    }
}

} // verus!
