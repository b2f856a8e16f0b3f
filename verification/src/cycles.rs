//! The walks find every boundary loop: what they leave over has no cycle.
use crate::closing::{
    law_loops_are_simple, lemma_boundary_finite, lemma_boundary_one_way, lemma_caps_uses,
    lemma_concat_contains, lemma_cut, lemma_loop_edges_add, lemma_loop_edges_contains,
    lemma_loop_edges_prepend, lemma_sweep_loops,
    lemma_path_edges_push, loop_edges, one_way, path_edges, simple_loops,
};
use crate::force::{
    boundary, exit, has_exit, least_source, lemma_exit, lemma_least_source, lemma_walk_shrinks,
    missed, sweep, trace, walk,
};
use crate::hubs::{after, cycle_edges, hub_fans};
use crate::mesh::{
    all_proper, edge_of, half_edges_of, in_range, lemma_half_edges_add, lemma_half_edges_len,
    lemma_uses_positive, Face,
};
use vstd::prelude::*;

verus! {

/// A closed walk along half-edges of the set.
pub open spec fn is_cycle(s: Set<(u32, u32)>, c: Seq<u32>) -> bool {
    c.len() > 0 && forall|w: int| 0 <= w < c.len() ==> s.contains((c[w], #[trigger] after(c, w)))
}

/// No closed walk runs along half-edges of the set.
pub open spec fn acyclic(s: Set<(u32, u32)>) -> bool {
    forall|c: Seq<u32>| !#[trigger] is_cycle(s, c)
}

/// No half-edge of `e` goes on where one of `a` ends.
spec fn spent(a: Set<(u32, u32)>, e: Set<(u32, u32)>) -> bool {
    forall|d: (u32, u32), x: u32| #[trigger] a.contains(d) ==> !#[trigger] e.contains((d.1, x))
}

/// A part of a set without cycles has none.
proof fn lemma_acyclic_part(a: Set<(u32, u32)>, b: Set<(u32, u32)>)
    requires
        acyclic(b),
        a.subset_of(b),
    ensures
        acyclic(a),
{
    assert forall|c: Seq<u32>| !#[trigger] is_cycle(a, c) by {
        if is_cycle(a, c) {
            assert(is_cycle(b, c));
        }
    }
}

/// A half-edge whose source no half-edge of the set enters closes no cycle.
proof fn lemma_acyclic_insert(a: Set<(u32, u32)>, d: (u32, u32))
    requires
        acyclic(a),
        d.0 != d.1,
        forall|x: (u32, u32)| #[trigger] a.contains(x) ==> x.1 != d.0,
    ensures
        acyclic(a.insert(d)),
{
    let b = a.insert(d);
    assert forall|c: Seq<u32>| !#[trigger] is_cycle(b, c) by {
        if is_cycle(b, c) {
            if forall|w: int| 0 <= w < c.len() ==> (c[w], #[trigger] after(c, w)) != d {
                assert forall|w: int| 0 <= w < c.len() implies a.contains(
                    (c[w], #[trigger] after(c, w)),
                ) by {
                    assert(b.contains((c[w], after(c, w))));
                }
                assert(is_cycle(a, c));
            } else {
                let w = choose|w: int| 0 <= w < c.len() && (c[w], #[trigger] after(c, w)) == d;
                let v = if w == 0 {
                    c.len() - 1
                } else {
                    w - 1
                };
                assert(after(c, v) == c[w]);
                assert(b.contains((c[v], after(c, v))));
            }
        }
    }
}

/// The half-edges that a walk neither leaves nor hands out in a loop hold no cycle, together with
/// such half-edges of earlier walks.
proof fn lemma_walk_acyclic(
    e: Set<(u32, u32)>,
    path: Seq<u32>,
    cur: u32,
    a: Set<(u32, u32)>,
) -> (r: Set<(u32, u32)>)
    requires
        e.finite(),
        path.no_duplicates(),
        !path.contains(cur),
        one_way(e.union(path_edges(path, cur))),
        acyclic(a),
        spent(a, e.union(path_edges(path, cur))),
    ensures
        acyclic(r),
        spent(r, walk(e, path, cur, true).0),
        forall|d: (u32, u32)|
            e.contains(d) || path_edges(path, cur).contains(d) || a.contains(d) ==> walk(
                e,
                path,
                cur,
                true,
            ).0.contains(d) || #[trigger] r.contains(d) || loop_edges(
                walk(e, path, cur, true).1,
            ).contains(d),
    decreases e.len(), path.len(),
{
    let s = e.union(path_edges(path, cur));
    let w = walk(e, path, cur, true);
    if !has_exit(e, cur) {
        if path.len() == 0 {
            assert(path_edges(path, cur) =~= Set::empty());
            assert(s =~= e);
            a
        } else {
            let front = path.drop_last();
            let back = path.last();
            let step = (back, cur);
            let s1 = e.union(path_edges(front, back));
            assert(front.push(back) =~= path);
            assert forall|d: (u32, u32)| #[trigger] path_edges(path, cur).contains(d) <==> path_edges(
                front,
                back,
            ).contains(d) || d == step by {
                lemma_path_edges_push(front, back, cur, d);
            }
            assert(path_edges(path, cur).contains(step));
            assert(s.contains((back, cur)));
            assert(path[path.len() - 1] == back);
            assert(path.contains(back));
            lemma_acyclic_insert(a, step);
            let a1 = a.insert(step);
            assert forall|d: (u32, u32), x: u32| #[trigger] a1.contains(d) implies !#[trigger]
                s1.contains((d.1, x)) by {
                if s1.contains((d.1, x)) {
                    assert(path_edges(front, back).contains((d.1, x)) ==> path_edges(
                        path,
                        cur,
                    ).contains((d.1, x)));
                    assert(s.contains((d.1, x)));
                    if d == step {
                        if e.contains((cur, x)) {
                            assert(has_exit(e, cur));
                        } else {
                            lemma_path_source(path, cur, (cur, x));
                        }
                    }
                }
            }
            assert forall|d: (u32, u32)| #[trigger] s1.contains(d) implies d.0 != d.1
                && !s1.contains((d.1, d.0)) by {
                let z = (d.1, d.0);
                assert(path_edges(front, back).contains(d) ==> path_edges(path, cur).contains(d));
                assert(path_edges(front, back).contains(z) ==> path_edges(path, cur).contains(z));
                assert(s.contains(d));
            }
            let r = lemma_walk_acyclic(e, front, back, a1);
            assert forall|d: (u32, u32)|
                e.contains(d) || path_edges(path, cur).contains(d) || a.contains(d) implies
                w.0.contains(d) || #[trigger] r.contains(d) || loop_edges(w.1).contains(d) by {
                assert(e.contains(d) || path_edges(front, back).contains(d) || a1.contains(d));
            }
            r
        }
    } else {
        lemma_exit(e, cur);
        let nxt = exit(e, cur);
        let step = (cur, nxt);
        let e1 = e.remove(step);
        let p1 = path.push(cur);
        assert forall|d: (u32, u32)| #[trigger] path_edges(p1, nxt).contains(d) <==> path_edges(
            path,
            cur,
        ).contains(d) || d == step by {
            lemma_path_edges_push(path, cur, nxt, d);
        }
        assert(e1.union(path_edges(p1, nxt)) =~= s);
        if p1.contains(nxt) {
            let p = p1.index_of(nxt);
            assert(p1[p] == nxt);
            let c = p1.skip(p);
            let q = p1.take(p);
            let g = cycle_edges(c);
            lemma_cut(p1, p);
            let s1 = e1.union(path_edges(q, nxt));
            assert forall|d: (u32, u32)| #[trigger] s1.contains(d) implies s.contains(d) by {
                if path_edges(q, nxt).contains(d) {
                    assert(path_edges(p1, nxt).contains(d));
                }
            }
            assert forall|d: (u32, u32), x: u32| #[trigger] a.contains(d) implies !#[trigger]
                s1.contains((d.1, x)) by {
                assert(!s.contains((d.1, x)));
            }
            assert forall|d: (u32, u32)| #[trigger] s1.contains(d) implies d.0 != d.1
                && !s1.contains((d.1, d.0)) by {
                assert(s.contains(d));
            }
            let r = lemma_walk_acyclic(e1, q, nxt, a);
            let rest = walk(e1, q, nxt, true);
            assert forall|d: (u32, u32)| #[trigger] g.contains(d) implies s.contains(d) by {
                assert(path_edges(p1, nxt).contains(d));
            }
            assert(c.len() >= 3) by {
                assert(g[0] == (c[0], after(c, 0)));
                assert(g.contains(g[0]));
                assert(s.contains(g[0]));
                if c.len() == 2 {
                    assert(g[1] == (g[0].1, g[0].0));
                    assert(g.contains(g[1]));
                    assert(s.contains((g[0].1, g[0].0)));
                }
            }
            lemma_loop_edges_prepend(c, rest.1);
            assert forall|d: (u32, u32)|
                e.contains(d) || path_edges(path, cur).contains(d) || a.contains(d) implies
                w.0.contains(d) || #[trigger] r.contains(d) || loop_edges(w.1).contains(d) by {
                lemma_concat_contains(g, loop_edges(rest.1), d);
                if !a.contains(d) {
                    assert(e1.contains(d) || path_edges(p1, nxt).contains(d));
                }
            }
            r
        } else {
            assert(p1.no_duplicates());
            let r = lemma_walk_acyclic(e1, p1, nxt, a);
            assert forall|d: (u32, u32)|
                e.contains(d) || path_edges(path, cur).contains(d) || a.contains(d) implies
                w.0.contains(d) || #[trigger] r.contains(d) || loop_edges(w.1).contains(d) by {
                assert(e1.contains(d) || path_edges(p1, nxt).contains(d) || a.contains(d));
            }
            r
        }
    }
}

/// A path leaves only its own vertices.
proof fn lemma_path_source(path: Seq<u32>, cur: u32, d: (u32, u32))
    requires
        path_edges(path, cur).contains(d),
    ensures
        path.contains(d.0),
{
    let i = choose|i: int|
        0 <= i < path.len() && d.0 == #[trigger] path[i] && d.1 == (if i + 1 < path.len() {
            path[i + 1]
        } else {
            cur
        });
    assert(path[i] == d.0);
}

proof fn lemma_sweep_acyclic(e: Set<(u32, u32)>, a: Set<(u32, u32)>) -> (r: Set<(u32, u32)>)
    requires
        e.finite(),
        one_way(e),
        acyclic(a),
        spent(a, e),
    ensures
        acyclic(r),
        forall|d: (u32, u32)|
            e.contains(d) || a.contains(d) ==> #[trigger] r.contains(d) || loop_edges(
                sweep(e, true),
            ).contains(d),
    decreases e.len(),
{
    if e.is_empty() {
        a
    } else {
        let s = least_source(e);
        let none = path_edges(Seq::empty(), s);
        lemma_least_source(e);
        lemma_walk_shrinks(e, Seq::empty(), s, true);
        assert(none =~= Set::empty());
        assert(e.union(none) =~= e);
        let a1 = lemma_walk_acyclic(e, Seq::empty(), s, a);
        let w = walk(e, Seq::empty(), s, true);
        assert forall|d: (u32, u32)| #[trigger] w.0.contains(d) implies d.0 != d.1
            && !w.0.contains((d.1, d.0)) by {
            assert(e.contains(d));
        }
        let r = lemma_sweep_acyclic(w.0, a1);
        lemma_loop_edges_add(w.1, sweep(w.0, true));
        assert forall|d: (u32, u32)| e.contains(d) || a.contains(d) implies #[trigger] r.contains(d)
            || loop_edges(sweep(e, true)).contains(d) by {
            lemma_concat_contains(loop_edges(w.1), loop_edges(sweep(w.0, true)), d);
            assert(w.0.contains(d) || a1.contains(d) || loop_edges(w.1).contains(d));
        }
        r
    }
}

/// The boundary half-edges that are on none of the loops hold no cycle: no boundary loop is
/// missed, on a frayed boundary or elsewhere.
pub proof fn law_no_loop_is_missed(faces: Seq<Face>)
    requires
        all_proper(faces),
    ensures
        acyclic(
            boundary(half_edges_of(faces)).difference(
                loop_edges(trace(boundary(half_edges_of(faces)))).to_set(),
            ),
        ),
{
    let b = boundary(half_edges_of(faces));
    let l = loop_edges(trace(b));
    lemma_boundary_finite(half_edges_of(faces));
    lemma_boundary_one_way(faces);
    let none = Set::<(u32, u32)>::empty();
    assert forall|c: Seq<u32>| !#[trigger] is_cycle(none, c) by {
        if is_cycle(none, c) {
            assert(none.contains((c[0], after(c, 0))));
        }
    }
    let m = missed(b);
    assert forall|d: (u32, u32)| #[trigger] m.contains(d) implies d.0 != d.1 && !m.contains(
        (d.1, d.0),
    ) by {
        assert(b.contains(d));
    }
    let r = lemma_sweep_acyclic(m, none);
    lemma_loop_edges_add(sweep(b, false), sweep(m, true));
    assert forall|d: (u32, u32)| b.difference(l.to_set()).contains(d) implies r.contains(d) by {
        lemma_concat_contains(loop_edges(sweep(b, false)), loop_edges(sweep(m, true)), d);
        assert(m.contains(d));
        assert(r.contains(d) || loop_edges(sweep(m, true)).contains(d));
    }
    lemma_acyclic_part(b.difference(l.to_set()), r);
}

proof fn lemma_loops_len(loops: Seq<Seq<u32>>)
    requires
        simple_loops(loops),
    ensures
        3 * loops.len() <= loop_edges(loops).len(),
    decreases loops.len(),
{
    if loops.len() > 0 {
        let front = loops.drop_last();
        assert(loops[loops.len() - 1] == loops.last());
        assert forall|k: int| 0 <= k < front.len() implies (#[trigger] front[k]).len() >= 3
            && front[k].no_duplicates() by {
            assert(front[k] == loops[k]);
        }
        lemma_loops_len(front);
    }
}

/// There are at most as many loops as faces: each loop takes three boundary half-edges or more,
/// and each face has three.
pub proof fn law_loops_are_no_more_than_faces(faces: Seq<Face>)
    ensures
        trace(boundary(half_edges_of(faces))).len() <= faces.len(),
{
    let h = half_edges_of(faces);
    let loops = trace(boundary(h));
    let l = loop_edges(loops);
    law_loops_are_simple(faces);
    lemma_loops_len(loops);
    lemma_half_edges_len(faces);
    l.unique_seq_to_set();
    vstd::seq_lib::seq_to_set_is_finite(h);
    h.lemma_cardinality_of_set();
    assert(l.to_set().subset_of(h.to_set()));
    vstd::set_lib::lemma_len_subset(l.to_set(), h.to_set());
}

/// The second sweep is for what the first misses: where the first leaves no cycle over, its loops
/// are all there are.
pub proof fn law_second_sweep_finds_only_what_was_missed(faces: Seq<Face>)
    requires
        acyclic(missed(boundary(half_edges_of(faces)))),
    ensures
        trace(boundary(half_edges_of(faces))) == sweep(boundary(half_edges_of(faces)), false),
{
    let b = boundary(half_edges_of(faces));
    let m = missed(b);
    let loops = sweep(m, true);
    lemma_boundary_finite(half_edges_of(faces));
    lemma_sweep_loops(m, true);
    if loops.len() > 0 {
        let c = loops[0];
        assert forall|w: int| 0 <= w < c.len() implies m.contains((c[w], #[trigger] after(c, w))) by {
            lemma_loop_edges_contains(loops, 0, w);
            assert(cycle_edges(c)[w] == (c[w], after(c, w)));
        }
        assert(is_cycle(m, c));
    }
    assert(trace(b) =~= sweep(b, false));
}

/// Once the hub fans are added, the boundary holds no cycle: every boundary loop is closed,
/// frayed ones too.
pub proof fn law_hub_fans_leave_no_loop(faces: Seq<Face>, base: int)
    requires
        all_proper(faces),
        in_range(faces, base),
        0 <= base,
        base + trace(boundary(half_edges_of(faces))).len() <= 0x1_0000_0000,
    ensures
        acyclic(
            boundary(
                half_edges_of(faces + hub_fans(base, trace(boundary(half_edges_of(faces))))),
            ),
        ),
{
    let h = half_edges_of(faces);
    let loops = trace(boundary(h));
    let l = loop_edges(loops);
    let caps = half_edges_of(hub_fans(base, loops));
    let all = half_edges_of(faces + hub_fans(base, loops));
    law_no_loop_is_missed(faces);
    law_loops_are_simple(faces);
    lemma_half_edges_add(faces, hub_fans(base, loops));
    let left = boundary(h).difference(l.to_set());
    assert forall|d: (u32, u32)| boundary(all).contains(d) implies left.contains(d) by {
        let e = edge_of(d.0, d.1);
        lemma_caps_uses(faces, base, e);
        lemma_concat_contains(h, caps, d);
        lemma_uses_positive(h, e);
        lemma_uses_positive(caps, e);
        lemma_uses_positive(l, e);
        if caps.contains(d) {
            let i = caps.index_of(d);
            assert(edge_of(caps[i].0, caps[i].1) == e);
        }
        if l.contains(d) {
            let i = l.index_of(d);
            assert(edge_of(l[i].0, l[i].1) == e);
        }
    }
    lemma_acyclic_part(boundary(all), left);
}

} // verus!
