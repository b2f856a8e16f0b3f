//! What the fan caps do to the edges of a mesh.
use crate::audit::open_edges;
use crate::closing::{
    entering, leaving, lemma_boundary_one_way, lemma_concat_contains, lemma_loop_edges_contains,
    lemma_loop_uses, loop_edges, simple_loops,
};
use crate::force::boundary;
use crate::holes::{
    has_hole, hole_at, holes_below, is_plain, is_simple_hole, lemma_boundary_holes,
    lemma_hole_unique, lemma_holes_below, lemma_one_enters, lemma_one_leaves, loop_fan, loop_fans,
    simple_holes,
};
use crate::hubs::{after, cycle_edges};
use crate::mesh::{
    all_proper, edge_of, face_half_edges, half_edges_of, lemma_face_uses, lemma_half_edges_add,
    lemma_half_edges_index, lemma_uses_add, lemma_uses_positive, lemma_uses_two, uses, Face,
};
use vstd::prelude::*;

verus! {

/// An edge from the first vertex of a loop across it.
pub open spec fn is_diagonal(c: Seq<u32>, e: (u32, u32)) -> bool {
    exists|w: int| 2 <= w <= c.len() - 2 && e == edge_of(c[0], #[trigger] c[w])
}

/// A fan uses each edge of its loop as the loop does, and each diagonal twice.
pub proof fn law_fan_uses(c: Seq<u32>, e: (u32, u32))
    requires
        c.len() >= 3,
        c.no_duplicates(),
    ensures
        uses(half_edges_of(loop_fan(c)), e) == uses(cycle_edges(c), e) + (if is_diagonal(c, e) {
            2nat
        } else {
            0nat
        }),
    decreases c.len(),
{
    let n = c.len() as int;
    let f = [c[0], c[n - 1], c[n - 2]];
    let fan = loop_fan(c);
    assert(fan.last() == f);
    assert(half_edges_of(fan) == half_edges_of(fan.drop_last()) + face_half_edges(f));
    lemma_uses_add(half_edges_of(fan.drop_last()), face_half_edges(f), e);
    lemma_face_uses(f, e);
    let g = cycle_edges(c);
    assert(g.last() == (c[n - 1], c[0]));
    assert(g.drop_last().last() == (c[n - 2], c[n - 1]));
    assert(uses(g.drop_last(), e) == uses(g.drop_last().drop_last(), e) + (if edge_of(
        c[n - 2],
        c[n - 1],
    ) == e {
        1nat
    } else {
        0nat
    }));
    assert(edge_of(c[n - 2], c[n - 1]) == edge_of(c[n - 1], c[n - 2]));
    assert(edge_of(c[n - 1], c[0]) == edge_of(c[0], c[n - 1]));
    if c.len() == 3 {
        assert(fan.drop_last() =~= Seq::<Face>::empty());
        assert(uses(half_edges_of(fan.drop_last()), e) == 0);
        assert(g.drop_last().drop_last() =~= seq![(c[0], c[1])]);
        assert(g.drop_last().drop_last().drop_last() =~= Seq::<(u32, u32)>::empty());
        reveal_with_fuel(uses, 4);
    } else {
        let d = c.drop_last();
        law_fan_uses(d, e);
        assert(loop_fan(d) =~= fan.drop_last());
        let k = cycle_edges(d);
        assert(k.last() == (c[n - 2], c[0]));
        assert(k.drop_last() =~= g.drop_last().drop_last());
        assert(uses(k, e) == uses(k.drop_last(), e) + (if edge_of(c[n - 2], c[0]) == e {
            1nat
        } else {
            0nat
        }));
        if edge_of(c[n - 2], c[0]) == e {
            assert(edge_of(c[0], c[n - 2]) == e);
            assert(is_diagonal(c, e));
            assert(!is_diagonal(d, e));
        } else {
            if is_diagonal(c, e) {
                let w = choose|w: int| 2 <= w <= c.len() - 2 && e == edge_of(c[0], #[trigger] c[w]);
                assert(w != n - 2);
                assert(d[w] == c[w]);
            }
            if is_diagonal(d, e) {
                let w = choose|w: int| 2 <= w <= d.len() - 2 && e == edge_of(d[0], #[trigger] d[w]);
                assert(c[w] == d[w]);
            }
        }
    }
}

/// A fan supplies the half-edges that its loop misses: the reverse of every half-edge of the loop
/// is a half-edge of the fan.
pub proof fn law_fan_supplies_reverse(c: Seq<u32>, w: int)
    requires
        c.len() >= 3,
        0 <= w < c.len(),
    ensures
        half_edges_of(loop_fan(c)).contains((after(c, w), c[w])),
{
    let fan = loop_fan(c);
    let h = half_edges_of(fan);
    if w == 0 {
        lemma_half_edges_index(fan, 0, 2);
        assert(h[2] == (c[1], c[0]));
    } else if w + 1 < c.len() {
        lemma_half_edges_index(fan, w - 1, 1);
        assert(h[3 * (w - 1) + 1] == (c[w + 1], c[w]));
    } else {
        lemma_half_edges_index(fan, w - 2, 0);
        assert(h[3 * (w - 2)] == (c[0], c[w]));
    }
}

/// Two simple boundary loops that share a vertex share the first vertex of one.
proof fn lemma_shared_vertex(b: Set<(u32, u32)>, c: Seq<u32>, d: Seq<u32>, i: int, j: int)
    requires
        b.finite(),
        is_simple_hole(b, c),
        is_simple_hole(b, d),
        0 <= i < c.len(),
        0 <= j < d.len(),
        c[i] == d[j],
    ensures
        d.contains(c[0]),
    decreases c.len() - i,
{
    lemma_one_leaves(b, c[i]);
    assert(is_plain(b, c[i]));
    assert(b.contains((c[i], after(c, i))) && b.contains((d[j], after(d, j))));
    assert(after(c, i) == after(d, j));
    let k = if j + 1 < d.len() {
        j + 1
    } else {
        0
    };
    assert(d[k] == after(c, i));
    if i + 1 < c.len() {
        lemma_shared_vertex(b, c, d, i + 1, k);
    }
}

/// Two simple boundary loops that share a vertex are the same.
proof fn lemma_holes_apart(b: Set<(u32, u32)>, c: Seq<u32>, d: Seq<u32>, i: int, j: int)
    requires
        b.finite(),
        is_simple_hole(b, c),
        is_simple_hole(b, d),
        0 <= i < c.len(),
        0 <= j < d.len(),
        c[i] == d[j],
    ensures
        c == d,
{
    lemma_shared_vertex(b, c, d, i, j);
    lemma_shared_vertex(b, d, c, j, i);
    let p = d.index_of(c[0]);
    let q = c.index_of(d[0]);
    assert(d[0] <= d[p] && c[0] <= c[q]);
    lemma_hole_unique(b, c, d);
}

/// Every half-edge of a list of loops is on one of them.
pub proof fn lemma_loop_edges_source(loops: Seq<Seq<u32>>, d: (u32, u32)) -> (r: (int, int))
    requires
        loop_edges(loops).contains(d),
    ensures
        0 <= r.0 < loops.len(),
        0 <= r.1 < loops[r.0].len(),
        cycle_edges(loops[r.0])[r.1] == d,
    decreases loops.len(),
{
    if loops.len() == 0 {
        (0, 0)
    } else {
        let front = loops.drop_last();
        let g = cycle_edges(loops.last());
        lemma_concat_contains(loop_edges(front), g, d);
        if loop_edges(front).contains(d) {
            let r = lemma_loop_edges_source(front, d);
            assert(front[r.0] == loops[r.0]);
            r
        } else {
            let w = g.index_of(d);
            assert(g[w] == d);
            (loops.len() - 1, w)
        }
    }
}

proof fn lemma_holes_edges(b: Set<(u32, u32)>, n: int)
    requires
        b.finite(),
    ensures
        simple_loops(holes_below(b, n)),
        loop_edges(holes_below(b, n)).no_duplicates(),
    decreases n,
{
    let all = holes_below(b, n);
    lemma_holes_below(b, n);
    assert forall|k: int| 0 <= k < all.len() implies (#[trigger] all[k]).len() >= 3
        && all[k].no_duplicates() by {
        assert(all.contains(all[k]));
    }
    if n <= 0 {
        assert(loop_edges(all) =~= Seq::<(u32, u32)>::empty());
    } else {
        lemma_holes_edges(b, n - 1);
        if has_hole(b, n - 1) {
            let front = holes_below(b, n - 1);
            let c = hole_at(b, n - 1);
            let a = loop_edges(front);
            let g = cycle_edges(c);
            lemma_holes_below(b, n - 1);
            assert(all.drop_last() =~= front);
            assert(is_simple_hole(b, c) && c[0] == n - 1);
            assert forall|i: int, j: int| 0 <= i < j < (a + g).len() implies (a + g)[i] != (a
                + g)[j] by {
                if i >= a.len() {
                    assert(c[i - a.len()] != c[j - a.len()]);
                } else if j >= a.len() && a[i] == g[j - a.len()] {
                    assert(a.contains(a[i]));
                    let r = lemma_loop_edges_source(front, a[i]);
                    assert(front.contains(front[r.0]));
                    lemma_holes_apart(b, front[r.0], c, r.1, j - a.len());
                }
            }
        }
    }
}

/// The loops that get a fan cap: each visits three vertices or more and none of them twice, each
/// runs along boundary half-edges, and no half-edge is on two loops.
pub proof fn law_capped_loops_are_simple(faces: Seq<Face>)
    ensures
        simple_loops(simple_holes(faces)),
        loop_edges(simple_holes(faces)).no_duplicates(),
        forall|d: (u32, u32)| #[trigger]
            loop_edges(simple_holes(faces)).contains(d) ==> boundary(half_edges_of(faces)).contains(
                d,
            ),
{
    let b = boundary(half_edges_of(faces));
    let loops = simple_holes(faces);
    lemma_boundary_holes(faces);
    lemma_holes_edges(b, 0x1_0000_0000);
    assert forall|d: (u32, u32)| #[trigger] loop_edges(loops).contains(d) implies b.contains(d) by {
        let r = lemma_loop_edges_source(loops, d);
        let c = loops[r.0];
        assert(loops.contains(c));
        assert(b.contains((c[r.1], after(c, r.1))));
    }
}

/// Frayed boundaries are left alone: at every vertex of a capped loop, exactly one boundary
/// half-edge leaves and exactly one enters.
pub proof fn law_frayed_boundaries_are_left(faces: Seq<Face>, c: Seq<u32>, v: u32)
    requires
        simple_holes(faces).contains(c),
        c.contains(v),
    ensures
        leaving(boundary(half_edges_of(faces)), v).len() == 1,
        entering(boundary(half_edges_of(faces)), v).len() == 1,
{
    lemma_boundary_holes(faces);
    let w = c.index_of(v);
    assert(is_plain(boundary(half_edges_of(faces)), c[w]));
}

/// A loop told from its place `k` on.
pub open spec fn rotated(c: Seq<u32>, k: int) -> Seq<u32> {
    c.skip(k) + c.take(k)
}

proof fn lemma_least(c: Seq<u32>) -> (k: int)
    requires
        c.len() > 0,
    ensures
        0 <= k < c.len(),
        forall|w: int| 0 <= w < c.len() ==> c[k] <= #[trigger] c[w],
    decreases c.len(),
{
    if c.len() == 1 {
        0
    } else {
        let k = lemma_least(c.drop_last());
        assert forall|w: int| 0 <= w < c.len() - 1 implies c[k] <= #[trigger] c[w] by {
            assert(c.drop_last()[w] == c[w]);
        }
        if c[k] <= c.last() {
            k
        } else {
            c.len() - 1
        }
    }
}

/// Every simple boundary loop is capped: one that runs along the boundary, visits three vertices
/// or more and none twice, and at whose vertices the boundary does not branch, is among the
/// capped loops, told from its smallest vertex on.
pub proof fn law_every_simple_loop_is_capped(faces: Seq<Face>, c: Seq<u32>) -> (k: int)
    requires
        c.len() >= 3,
        c.no_duplicates(),
        forall|w: int|
            0 <= w < c.len() ==> boundary(half_edges_of(faces)).contains(
                (c[w], #[trigger] after(c, w)),
            ),
        forall|w: int|
            0 <= w < c.len() ==> is_plain(boundary(half_edges_of(faces)), #[trigger] c[w]),
    ensures
        0 <= k < c.len(),
        simple_holes(faces).contains(rotated(c, k)),
{
    let b = boundary(half_edges_of(faces));
    let k = lemma_least(c);
    let d = rotated(c, k);
    let n = c.len() as int;
    lemma_boundary_holes(faces);
    assert forall|w: int| 0 <= w < d.len() implies b.contains((d[w], #[trigger] after(d, w))) by {
        let p = if w < n - k {
            w + k
        } else {
            w - (n - k)
        };
        assert(d[w] == c[p]);
        assert(after(d, w) == after(c, p));
    }
    assert forall|w: int| 0 <= w < d.len() implies is_plain(b, #[trigger] d[w]) && d[0] <= d[w] by {
        let p = if w < n - k {
            w + k
        } else {
            w - (n - k)
        };
        assert(d[w] == c[p]);
        assert(is_plain(b, c[p]));
    }
    assert(is_simple_hole(b, d));
    k
}

/// The boundary branches nowhere and ends nowhere: at most one half-edge leaves each vertex, and
/// as many enter it.
pub open spec fn is_tame(b: Set<(u32, u32)>) -> bool {
    forall|v: u32|
        (#[trigger] leaving(b, v)).len() <= 1 && entering(b, v).len() == leaving(b, v).len()
}

/// In a boundary that neither branches nor ends, a vertex that is left or entered is plain.
proof fn lemma_tame_is_plain(b: Set<(u32, u32)>, d: (u32, u32))
    requires
        b.finite(),
        is_tame(b),
        b.contains(d),
    ensures
        is_plain(b, d.0),
        is_plain(b, d.1),
{
    assert(leaving(b, d.0).contains(d));
    assert(leaving(b, d.0).len() > 0);
    assert(entering(b, d.1).contains(d));
    assert(entering(b, d.1).len() > 0);
    assert(leaving(b, d.1).len() <= 1);
}

/// A path along half-edges of the set: distinct vertices, each leading to the one after it.
spec fn is_path(b: Set<(u32, u32)>, p: Seq<u32>) -> bool {
    &&& p.len() > 0
    &&& p.no_duplicates()
    &&& forall|w: int| 0 <= w < p.len() - 1 ==> b.contains((p[w], #[trigger] after(p, w)))
}

/// A path has at most as many vertices as the set has half-edges.
proof fn lemma_path_len(b: Set<(u32, u32)>, p: Seq<u32>, cur: u32)
    requires
        b.finite(),
        is_path(b, p),
        b.contains((p.last(), cur)),
    ensures
        p.len() <= b.len(),
{
    let q = Seq::new(
        p.len(),
        |k: int|
            (p[k], if k + 1 < p.len() {
                after(p, k)
            } else {
                cur
            }),
    );
    assert(q.no_duplicates()) by {
        assert forall|i: int, j: int| 0 <= i < j < q.len() implies q[i] != q[j] by {
            assert(p[i] != p[j]);
        }
    }
    q.unique_seq_to_set();
    vstd::seq_lib::seq_to_set_is_finite(q);
    assert forall|d: (u32, u32)| q.to_set().contains(d) implies b.contains(d) by {
        let k = q.index_of(d);
        assert(q[k] == d);
    }
    vstd::set_lib::lemma_len_subset(q.to_set(), b);
}

/// In a boundary that neither branches nor ends, a path never comes back but to its start.
proof fn lemma_path_fresh(b: Set<(u32, u32)>, p: Seq<u32>, cur: u32)
    requires
        b.finite(),
        is_tame(b),
        is_path(b, p),
        b.contains((p.last(), cur)),
        cur != p[0],
    ensures
        !p.contains(cur),
{
    if p.contains(cur) {
        let i = p.index_of(cur);
        assert(p[i] == cur);
        lemma_tame_is_plain(b, (p.last(), cur));
        lemma_one_enters(b, cur);
        assert(after(p, i - 1) == cur);
        assert(b.contains((p[i - 1], after(p, i - 1))));
        assert(p[i - 1] == p.last());
        assert(p[i - 1] == p[p.len() - 1]);
    }
}

/// In a boundary that neither branches nor ends, a path comes back to its start.
proof fn lemma_orbit(b: Set<(u32, u32)>, p: Seq<u32>, cur: u32) -> (c: Seq<u32>)
    requires
        b.finite(),
        is_tame(b),
        is_path(b, p),
        b.contains((p.last(), cur)),
    ensures
        c.len() > 0,
        c[0] == p[0],
        c.no_duplicates(),
        forall|w: int| 0 <= w < c.len() ==> b.contains((c[w], #[trigger] after(c, w))),
    decreases b.len() + 1 - p.len(),
{
    lemma_path_len(b, p, cur);
    if cur == p[0] {
        p
    } else {
        lemma_path_fresh(b, p, cur);
        lemma_tame_is_plain(b, (p.last(), cur));
        lemma_one_leaves(b, cur);
        let nxt = choose|x: u32| b.contains((cur, x));
        let p1 = p.push(cur);
        assert forall|w: int| 0 <= w < p1.len() - 1 implies b.contains(
            (p1[w], #[trigger] after(p1, w)),
        ) by {
            if w + 1 < p.len() {
                assert(after(p1, w) == after(p, w));
                assert(p1[w] == p[w]);
            }
        }
        lemma_orbit(b, p1, nxt)
    }
}

/// In a boundary that neither branches nor ends, every half-edge is on a capped loop.
proof fn lemma_all_capped(faces: Seq<Face>, d: (u32, u32))
    requires
        all_proper(faces),
        is_tame(boundary(half_edges_of(faces))),
        boundary(half_edges_of(faces)).contains(d),
    ensures
        loop_edges(simple_holes(faces)).contains(d),
{
    let b = boundary(half_edges_of(faces));
    let loops = simple_holes(faces);
    lemma_boundary_holes(faces);
    lemma_boundary_one_way(faces);
    let p = seq![d.0];
    let c = lemma_orbit(b, p, d.1);
    assert(b.contains((c[0], after(c, 0))));
    if c.len() == 2 {
        assert(b.contains((c[1], after(c, 1))));
    }
    assert forall|w: int| 0 <= w < c.len() implies is_plain(b, #[trigger] c[w]) by {
        assert(b.contains((c[w], after(c, w))));
        lemma_tame_is_plain(b, (c[w], after(c, w)));
    }
    let k = law_every_simple_loop_is_capped(faces, c);
    let e = rotated(c, k);
    let i = loops.index_of(e);
    let w = if k == 0 {
        0
    } else {
        c.len() - k
    };
    assert(e[w] == c[0]);
    assert(is_simple_hole(b, e));
    lemma_loop_edges_contains(loops, i, w);
    lemma_one_leaves(b, d.0);
    assert(is_plain(b, c[0]));
    assert(b.contains((e[w], after(e, w))));
    assert(cycle_edges(e)[w] == d);
}

proof fn lemma_fans_len(loops: Seq<Seq<u32>>)
    requires
        simple_loops(loops),
    ensures
        loop_fans(loops).len() + 2 * loops.len() == loop_edges(loops).len(),
    decreases loops.len(),
{
    if loops.len() > 0 {
        let front = loops.drop_last();
        assert(loops[loops.len() - 1] == loops.last());
        assert forall|k: int| 0 <= k < front.len() implies (#[trigger] front[k]).len() >= 3
            && front[k].no_duplicates() by {
            assert(front[k] == loops[k]);
        }
        lemma_fans_len(front);
    }
}

/// Open edges are counted by the boundary half-edges, one each.
proof fn lemma_open_edges_count(faces: Seq<Face>)
    ensures
        open_edges(faces).len() == boundary(half_edges_of(faces)).len(),
{
    let h = half_edges_of(faces);
    let b = boundary(h);
    let f = |d: (u32, u32)| edge_of(d.0, d.1);
    vstd::seq_lib::seq_to_set_is_finite(h);
    assert forall|x: (u32, u32), y: (u32, u32)|
        #![trigger f(x), f(y)]
        b.contains(x) && b.contains(y) && f(x) == f(y) implies x == y by {
        let i = h.index_of(x);
        let j = h.index_of(y);
        assert(h[i] == x && h[j] == y);
        if i < j {
            lemma_uses_two(h, i, j);
        }
        if j < i {
            lemma_uses_two(h, j, i);
        }
    }
    assert(b.map(f) =~= open_edges(faces)) by {
        assert forall|e: (u32, u32)| open_edges(faces).contains(e) implies b.map(f).contains(e) by {
            lemma_uses_positive(h, e);
            let i = choose|i: int| 0 <= i < h.len() && edge_of((#[trigger] h[i]).0, h[i].1) == e;
            assert(h.contains(h[i]));
            assert(b.contains(h[i]));
            assert(f(h[i]) == e);
        }
    }
    vstd::set_lib::lemma_map_size(b, open_edges(faces), f);
}

/// Where all boundary loops are simple, the fan caps close every one of them, each with two faces
/// fewer than it has edges: no edge stays open, and the caps and the loops account for the open
/// edges that there were.
pub proof fn law_simple_boundary_is_closed(faces: Seq<Face>)
    requires
        all_proper(faces),
        is_tame(boundary(half_edges_of(faces))),
    ensures
        open_edges(faces + loop_fans(simple_holes(faces))).len() == 0,
        loop_fans(simple_holes(faces)).len() + 2 * simple_holes(faces).len() == open_edges(
            faces,
        ).len(),
{
    let h = half_edges_of(faces);
    let b = boundary(h);
    let loops = simple_holes(faces);
    let l = loop_edges(loops);
    let full = faces + loop_fans(loops);
    law_capped_loops_are_simple(faces);
    lemma_boundary_holes(faces);
    assert forall|d: (u32, u32)| b.contains(d) implies #[trigger] l.contains(d) by {
        lemma_all_capped(faces, d);
    }
    assert(open_edges(full) =~= Set::empty()) by {
        assert forall|e: (u32, u32)| !open_edges(full).contains(e) by {
            law_fan_caps_uses(faces, e);
            lemma_loop_uses(h, l, e);
        }
    }
    lemma_fans_len(loops);
    lemma_open_edges_count(faces);
    l.unique_seq_to_set();
    assert(l.to_set() =~= b);
}

/// How many of the loops an edge is a diagonal of.
pub open spec fn diagonals(loops: Seq<Seq<u32>>, e: (u32, u32)) -> nat
    decreases loops.len(),
{
    if loops.len() == 0 {
        0
    } else {
        diagonals(loops.drop_last(), e) + (if is_diagonal(loops.last(), e) {
            1nat
        } else {
            0nat
        })
    }
}

proof fn lemma_fans_uses(loops: Seq<Seq<u32>>, e: (u32, u32))
    requires
        simple_loops(loops),
    ensures
        uses(half_edges_of(loop_fans(loops)), e) == uses(loop_edges(loops), e) + 2 * diagonals(
            loops,
            e,
        ),
    decreases loops.len(),
{
    if loops.len() > 0 {
        let front = loops.drop_last();
        let c = loops.last();
        assert(loops[loops.len() - 1] == c);
        assert(simple_loops(front)) by {
            assert forall|k: int| 0 <= k < front.len() implies (#[trigger] front[k]).len() >= 3
                && front[k].no_duplicates() by {
                assert(front[k] == loops[k]);
            }
        }
        lemma_fans_uses(front, e);
        law_fan_uses(c, e);
        lemma_half_edges_add(loop_fans(front), loop_fan(c));
        lemma_uses_add(half_edges_of(loop_fans(front)), half_edges_of(loop_fan(c)), e);
        lemma_uses_add(loop_edges(front), cycle_edges(c), e);
    }
}

/// Fan caps, edge by edge: an edge gains one use where it is on a capped loop, and two for each
/// loop that it is a diagonal of. Only boundary edges are on a capped loop, each on one.
pub proof fn law_fan_caps_uses(faces: Seq<Face>, e: (u32, u32))
    ensures
        uses(half_edges_of(faces + loop_fans(simple_holes(faces))), e) == uses(
            half_edges_of(faces),
            e,
        ) + uses(loop_edges(simple_holes(faces)), e) + 2 * diagonals(simple_holes(faces), e),
        uses(loop_edges(simple_holes(faces)), e) <= 1,
        uses(half_edges_of(faces), e) != 1 ==> uses(loop_edges(simple_holes(faces)), e) == 0,
{
    let h = half_edges_of(faces);
    let loops = simple_holes(faces);
    law_capped_loops_are_simple(faces);
    lemma_fans_uses(loops, e);
    lemma_half_edges_add(faces, loop_fans(loops));
    lemma_uses_add(h, half_edges_of(loop_fans(loops)), e);
    lemma_loop_uses(h, loop_edges(loops), e);
}

/// Fan caps open nothing, and no edge of a capped loop stays open.
pub proof fn law_fan_caps_open_nothing(faces: Seq<Face>, e: (u32, u32))
    ensures
        uses(half_edges_of(faces + loop_fans(simple_holes(faces))), e) == 1 ==> uses(
            half_edges_of(faces),
            e,
        ) == 1 && uses(loop_edges(simple_holes(faces)), e) == 0,
{
    law_fan_caps_uses(faces, e);
}

} // verus!
