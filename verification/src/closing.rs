//! Why the hub fans close a mesh: the walks use up every boundary half-edge, each in one loop.
use crate::force::{
    boundary, exit, has_exit, least_source, lemma_exit, lemma_least_source, lemma_walk_shrinks,
    missed, sweep, trace, walk,
};
use crate::hubs::{after, cycle_edges, hub_fan, hub_fans};
use crate::mesh::{
    all_proper, closed_manifold, edge_of, face_half_edges, half_edges_of, in_range,
    is_nondegenerate, lemma_face_uses, lemma_half_edge_face, lemma_half_edges_add, lemma_uses_add, lemma_uses_pair,
    lemma_uses_positive, lemma_uses_two, uses, Face,
};
use vstd::prelude::*;

verus! {

/// The half-edges of a list of loops, loop after loop.
pub open spec fn loop_edges(loops: Seq<Seq<u32>>) -> Seq<(u32, u32)>
    decreases loops.len(),
{
    if loops.len() == 0 {
        Seq::empty()
    } else {
        loop_edges(loops.drop_last()) + cycle_edges(loops.last())
    }
}

/// Every loop has three vertices or more and visits none twice.
pub open spec fn simple_loops(loops: Seq<Seq<u32>>) -> bool {
    forall|k: int|
        0 <= k < loops.len() ==> (#[trigger] loops[k]).len() >= 3 && loops[k].no_duplicates()
}

/// The half-edges that leave a vertex.
pub open spec fn leaving(s: Set<(u32, u32)>, v: u32) -> Set<(u32, u32)> {
    s.filter(|d: (u32, u32)| d.0 == v)
}

/// The half-edges that enter a vertex.
pub open spec fn entering(s: Set<(u32, u32)>, v: u32) -> Set<(u32, u32)> {
    s.filter(|d: (u32, u32)| d.1 == v)
}

/// As many half-edges leave each vertex as enter it.
pub open spec fn balanced(s: Set<(u32, u32)>) -> bool {
    forall|v: u32| (#[trigger] leaving(s, v)).len() == entering(s, v).len()
}

/// No half-edge is a point and none has its reverse in the set.
pub open spec fn one_way(s: Set<(u32, u32)>) -> bool {
    forall|d: (u32, u32)| #[trigger] s.contains(d) ==> d.0 != d.1 && !s.contains((d.1, d.0))
}

/// The half-edges that a path has taken, up to the vertex it stands at.
pub open spec fn path_edges(path: Seq<u32>, cur: u32) -> Set<(u32, u32)> {
    Set::new(
        |d: (u32, u32)|
            exists|i: int|
                0 <= i < path.len() && d.0 == #[trigger] path[i] && d.1 == (if i + 1 < path.len() {
                    path[i + 1]
                } else {
                    cur
                }),
    )
}

/// The half-edges of a loop and of the loops after it.
pub proof fn lemma_loop_edges_prepend(c: Seq<u32>, rest: Seq<Seq<u32>>)
    ensures
        loop_edges(seq![c] + rest) == cycle_edges(c) + loop_edges(rest),
    decreases rest.len(),
{
    if rest.len() == 0 {
        assert(seq![c] + rest =~= seq![c]);
        assert(seq![c].drop_last() =~= Seq::<Seq<u32>>::empty());
        assert(loop_edges(seq![c].drop_last()) =~= Seq::<(u32, u32)>::empty());
        assert(seq![c].last() == c);
        assert(loop_edges(seq![c]) =~= cycle_edges(c));
        assert(loop_edges(rest) =~= Seq::<(u32, u32)>::empty());
    } else {
        lemma_loop_edges_prepend(c, rest.drop_last());
        assert((seq![c] + rest).drop_last() =~= seq![c] + rest.drop_last());
        assert(loop_edges(seq![c] + rest) =~= cycle_edges(c) + loop_edges(rest));
    }
}

/// The half-edges of two lists of loops, one after the other.
pub proof fn lemma_loop_edges_add(a: Seq<Seq<u32>>, b: Seq<Seq<u32>>)
    ensures
        loop_edges(a + b) == loop_edges(a) + loop_edges(b),
    decreases b.len(),
{
    if b.len() == 0 {
        assert(a + b =~= a);
    } else {
        lemma_loop_edges_add(a, b.drop_last());
        assert((a + b).drop_last() =~= a + b.drop_last());
        assert(loop_edges(a + b) =~= loop_edges(a) + loop_edges(b));
    }
}

/// A path that has come back to its place `p` is the path up to there and a cycle.
pub proof fn lemma_cut(path: Seq<u32>, p: int)
    requires
        path.no_duplicates(),
        0 <= p < path.len(),
    ensures
        forall|d: (u32, u32)| #[trigger]
            path_edges(path, path[p]).contains(d) <==> path_edges(path.take(p), path[p]).contains(d)
                || cycle_edges(path.skip(p)).contains(d),
        forall|d: (u32, u32)| #[trigger]
            path_edges(path.take(p), path[p]).contains(d) ==> !cycle_edges(path.skip(p)).contains(
                d,
            ),
        path.skip(p).no_duplicates(),
        path.take(p).no_duplicates(),
        !path.take(p).contains(path[p]),
{
    let q = path.take(p);
    let c = path.skip(p);
    let nxt = path[p];
    assert forall|d: (u32, u32)| #[trigger] path_edges(path, nxt).contains(d) <==> path_edges(
        q,
        nxt,
    ).contains(d) || cycle_edges(c).contains(d) by {
        if path_edges(path, nxt).contains(d) {
            let i = choose|i: int|
                0 <= i < path.len() && d.0 == #[trigger] path[i] && d.1 == (if i + 1 < path.len() {
                    path[i + 1]
                } else {
                    nxt
                });
            if i < p {
                assert(q[i] == path[i]);
            } else {
                assert(cycle_edges(c)[i - p] == d);
            }
        }
        if path_edges(q, nxt).contains(d) {
            let i = choose|i: int|
                0 <= i < q.len() && d.0 == #[trigger] q[i] && d.1 == (if i + 1 < q.len() {
                    q[i + 1]
                } else {
                    nxt
                });
            assert(path[i] == d.0);
        }
        if cycle_edges(c).contains(d) {
            let w = cycle_edges(c).index_of(d);
            assert(cycle_edges(c)[w] == d);
            assert(path[p + w] == d.0);
        }
    }
    assert forall|d: (u32, u32)| #[trigger] path_edges(q, nxt).contains(d) implies !cycle_edges(
        c,
    ).contains(d) by {
        let i = choose|i: int|
            0 <= i < q.len() && d.0 == #[trigger] q[i] && d.1 == (if i + 1 < q.len() {
                q[i + 1]
            } else {
                nxt
            });
        if cycle_edges(c).contains(d) {
            let w = cycle_edges(c).index_of(d);
            assert(cycle_edges(c)[w] == d);
            assert(path[p + w] == path[i]);
        }
    }
}

/// The half-edges of a simple cycle all differ: no two leave the same vertex.
proof fn lemma_cycle_edges_distinct(c: Seq<u32>)
    requires
        c.no_duplicates(),
    ensures
        cycle_edges(c).no_duplicates(),
        forall|i: int, j: int|
            0 <= i < j < c.len() ==> (#[trigger] cycle_edges(c)[i]).1 != (
            #[trigger] cycle_edges(c)[j]).1,
{
}

/// Taking a simple cycle out keeps the balance.
pub proof fn lemma_balance_cycle(s: Set<(u32, u32)>, c: Seq<u32>)
    requires
        s.finite(),
        balanced(s),
        c.no_duplicates(),
        forall|d: (u32, u32)| #[trigger] cycle_edges(c).contains(d) ==> s.contains(d),
    ensures
        balanced(s.difference(cycle_edges(c).to_set())),
{
    let g = cycle_edges(c);
    let r = s.difference(g.to_set());
    lemma_cycle_edges_distinct(c);
    assert forall|v: u32| (#[trigger] leaving(r, v)).len() == entering(r, v).len() by {
        let so = leaving(s, v);
        let si = entering(s, v);
        let ro = leaving(r, v);
        let ri = entering(r, v);
        assert(so.finite() && si.finite());
        assert(so.len() == si.len());
        if c.contains(v) {
            let j = c.index_of(v);
            assert(c[j] == v);
            let i = if j == 0 {
                c.len() - 1
            } else {
                j - 1
            };
            let out = g[j];
            let into = g[i];
            assert(into.1 == v);
            assert(g.contains(out) && g.contains(into));
            assert(ro =~= so.remove(out)) by {
                assert forall|d: (u32, u32)| ro.contains(d) <==> so.remove(out).contains(d) by {
                    if so.remove(out).contains(d) && g.contains(d) {
                        let k = g.index_of(d);
                        assert(g[k] == d);
                        assert(c[k] == v);
                    }
                }
            }
            assert(ri =~= si.remove(into)) by {
                assert forall|d: (u32, u32)| ri.contains(d) <==> si.remove(into).contains(d) by {
                    if si.remove(into).contains(d) && g.contains(d) {
                        let k = g.index_of(d);
                        assert(g[k] == d);
                        assert(k == i);
                    }
                }
            }
        } else {
            assert(ro =~= so) by {
                assert forall|d: (u32, u32)| so.contains(d) implies ro.contains(d) by {
                    if g.contains(d) {
                        let k = g.index_of(d);
                        assert(g[k] == d);
                        assert(c[k] == v);
                    }
                }
            }
            assert(ri =~= si) by {
                assert forall|d: (u32, u32)| si.contains(d) implies ri.contains(d) by {
                    if g.contains(d) {
                        let k = g.index_of(d);
                        assert(g[k] == d);
                        if k + 1 < c.len() {
                            assert(c[k + 1] == v);
                        } else {
                            assert(c[0] == v);
                        }
                    }
                }
            }
        }
    }
}

/// What a walk hands out: simple loops, no half-edge in two places, none of them left over. In a
/// balanced set without points and two-way edges, nothing else is used up and the rest stays
/// balanced.
proof fn lemma_walk_loops(e: Set<(u32, u32)>, path: Seq<u32>, cur: u32, back: bool)
    requires
        e.finite(),
        path.no_duplicates(),
        !path.contains(cur),
        forall|d: (u32, u32)| #[trigger] path_edges(path, cur).contains(d) ==> !e.contains(d),
    ensures
        simple_loops(walk(e, path, cur, back).1),
        loop_edges(walk(e, path, cur, back).1).no_duplicates(),
        forall|d: (u32, u32)| #[trigger]
            loop_edges(walk(e, path, cur, back).1).contains(d) ==> (e.contains(d) || path_edges(
                path,
                cur,
            ).contains(d)) && !walk(e, path, cur, back).0.contains(d),
        balanced(e.union(path_edges(path, cur))) && one_way(e.union(path_edges(path, cur))) ==> {
            &&& balanced(walk(e, path, cur, back).0)
            &&& forall|d: (u32, u32)|
                e.contains(d) || path_edges(path, cur).contains(d) ==> walk(
                    e,
                    path,
                    cur,
                    back,
                ).0.contains(d) || #[trigger] loop_edges(walk(e, path, cur, back).1).contains(d)
        },
    decreases e.len(), path.len(),
{
    let s = e.union(path_edges(path, cur));
    let w = walk(e, path, cur, back);
    if !has_exit(e, cur) {
        if path.len() == 0 || !back {
            assert(loop_edges(w.1) =~= Seq::<(u32, u32)>::empty());
        } else {
            let front = path.drop_last();
            let prev = path.last();
            assert(front.push(prev) =~= path);
            assert forall|d: (u32, u32)| #[trigger] path_edges(path, cur).contains(d) <==> path_edges(
                front,
                prev,
            ).contains(d) || d == (prev, cur) by {
                lemma_path_edges_push(front, prev, cur, d);
            }
            assert forall|d: (u32, u32)| #[trigger] path_edges(front, prev).contains(
                d,
            ) implies !e.contains(d) by {
                assert(path_edges(path, cur).contains(d));
            }
            lemma_walk_loops(e, front, prev, back);
            assert forall|d: (u32, u32)| #[trigger] loop_edges(w.1).contains(d) implies (e.contains(
                d,
            ) || path_edges(path, cur).contains(d)) && !w.0.contains(d) by {
                assert(e.contains(d) || path_edges(front, prev).contains(d));
                assert(path_edges(front, prev).contains(d) ==> path_edges(path, cur).contains(d));
            }
        }
        if balanced(s) {
            if path.len() > 0 {
                let last = (path.last(), cur);
                assert(path[path.len() - 1] == path.last());
                assert(path_edges(path, cur).contains(last));
                assert(entering(s, cur).contains(last));
                lemma_path_edges_finite(path, cur);
                assert(entering(s, cur).finite());
                assert(leaving(s, cur) =~= Set::empty()) by {
                    assert forall|d: (u32, u32)| !leaving(s, cur).contains(d) by {
                        if leaving(s, cur).contains(d) {
                            if e.contains(d) {
                                assert(e.contains((cur, d.1)));
                            } else {
                                let i = choose|i: int|
                                    0 <= i < path.len() && d.0 == #[trigger] path[i] && d.1 == (if i
                                        + 1 < path.len() {
                                        path[i + 1]
                                    } else {
                                        cur
                                    });
                                assert(path.contains(cur));
                            }
                        }
                    }
                }
                assert(leaving(s, cur).len() == 0);
                assert(entering(s, cur).len() == leaving(s, cur).len());
                assert(false);
            }
            assert(path_edges(path, cur) =~= Set::empty());
            assert(s =~= e);
        }
    } else {
        lemma_exit(e, cur);
        let nxt = exit(e, cur);
        let step = (cur, nxt);
        let e1 = e.remove(step);
        let p1 = path.push(cur);
        assert forall|d: (u32, u32)| #[trigger] path_edges(p1, nxt).contains(d) <==> path_edges(
            path,
            cur,
        ).contains(d) || d == step by {
            lemma_path_edges_push(path, cur, nxt, d);
        }
        assert(e1.union(path_edges(p1, nxt)) =~= s);
        if p1.contains(nxt) {
            let p = p1.index_of(nxt);
            assert(p1[p] == nxt);
            let c = p1.skip(p);
            let q = p1.take(p);
            lemma_cut(p1, p);
            assert forall|d: (u32, u32)| #[trigger] path_edges(q, nxt).contains(
                d,
            ) implies !e1.contains(d) by {
                assert(path_edges(p1, nxt).contains(d));
            }
            lemma_walk_loops(e1, q, nxt, back);
            let rest = walk(e1, q, nxt, back);
            let g = cycle_edges(c);
            lemma_cycle_edges_distinct(c);
            lemma_walk_shrinks(e1, q, nxt, back);
            lemma_loop_edges_prepend(c, rest.1);
            assert forall|d: (u32, u32)| #[trigger] g.contains(d) implies !rest.0.contains(d)
                && !loop_edges(rest.1).contains(d) && s.contains(d) by {
                assert(path_edges(p1, nxt).contains(d));
            }
            assert(loop_edges(seq![c] + rest.1).no_duplicates()) by {
                assert forall|i: int, j: int| 0 <= i < j < (g + loop_edges(rest.1)).len() implies (
                g + loop_edges(rest.1))[i] != (g + loop_edges(rest.1))[j] by {
                    let t = g + loop_edges(rest.1);
                    if i < g.len() && j >= g.len() {
                        assert(g.contains(g[i]));
                        assert(loop_edges(rest.1).contains(loop_edges(rest.1)[j - g.len()]));
                    }
                }
            }
            assert forall|d: (u32, u32)| #[trigger] loop_edges(seq![c] + rest.1).contains(
                d,
            ) <==> g.contains(d) || loop_edges(rest.1).contains(d) by {
                lemma_concat_contains(g, loop_edges(rest.1), d);
            }
            if balanced(s) && one_way(s) {
                lemma_path_edges_finite(path, cur);
                lemma_balance_cycle(s, c);
                assert(s.difference(g.to_set()) =~= e1.union(path_edges(q, nxt))) by {
                    assert forall|d: (u32, u32)| s.difference(g.to_set()).contains(d)
                        <==> e1.union(path_edges(q, nxt)).contains(d) by {
                        if e1.contains(d) && g.contains(d) {
                            assert(path_edges(p1, nxt).contains(d));
                        }
                    }
                }
                assert(c.len() >= 3) by {
                    assert(g[0] == (c[0], after(c, 0)));
                    assert(g.contains(g[0]));
                    assert(s.contains(g[0]));
                    if c.len() == 2 {
                        assert(g[1] == (g[0].1, g[0].0));
                        assert(g.contains(g[1]));
                        assert(s.contains((g[0].1, g[0].0)));
                    }
                }
            }
            if balanced(s) && one_way(s) {
                assert forall|d: (u32, u32)|
                    e.contains(d) || path_edges(path, cur).contains(d) implies w.0.contains(d)
                    || #[trigger] loop_edges(w.1).contains(d) by {
                    assert(s.contains(d));
                    if !g.contains(d) {
                        assert(s.difference(g.to_set()).contains(d));
                        assert(e1.contains(d) || path_edges(q, nxt).contains(d));
                        assert(rest.0.contains(d) || loop_edges(rest.1).contains(d));
                    }
                }
            }
            if c.len() >= 3 {
                assert(w.1 == seq![c] + rest.1);
                assert forall|k: int| 0 <= k < w.1.len() implies (#[trigger] w.1[k]).len() >= 3
                    && w.1[k].no_duplicates() by {
                    if k > 0 {
                        assert(w.1[k] == rest.1[k - 1]);
                    }
                }
            }
        } else {
            assert(p1.no_duplicates());
            lemma_walk_loops(e1, p1, nxt, back);
            if balanced(s) && one_way(s) {
                assert forall|d: (u32, u32)|
                    e.contains(d) || path_edges(path, cur).contains(d) implies w.0.contains(d)
                    || #[trigger] loop_edges(w.1).contains(d) by {
                    assert(e1.contains(d) || path_edges(p1, nxt).contains(d));
                }
            }
        }
    }
}

/// What two lists hold together.
pub proof fn lemma_concat_contains(a: Seq<(u32, u32)>, b: Seq<(u32, u32)>, d: (u32, u32))
    ensures
        (a + b).contains(d) <==> a.contains(d) || b.contains(d),
{
    let t = a + b;
    if a.contains(d) {
        let i = a.index_of(d);
        assert(t[i] == d);
    }
    if b.contains(d) {
        let i = b.index_of(d);
        assert(t[a.len() + i] == d);
    }
    if t.contains(d) {
        let i = t.index_of(d);
        if i < a.len() {
            assert(a[i] == d);
        } else {
            assert(b[i - a.len()] == d);
        }
    }
}

/// A step adds its half-edge to those of the path.
pub proof fn lemma_path_edges_push(path: Seq<u32>, cur: u32, nxt: u32, d: (u32, u32))
    ensures
        path_edges(path.push(cur), nxt).contains(d) <==> path_edges(path, cur).contains(d) || d == (
            cur,
            nxt,
        ),
{
    let p1 = path.push(cur);
    if path_edges(p1, nxt).contains(d) {
        let i = choose|i: int|
            0 <= i < p1.len() && d.0 == #[trigger] p1[i] && d.1 == (if i + 1 < p1.len() {
                p1[i + 1]
            } else {
                nxt
            });
        if i < path.len() {
            assert(path[i] == d.0);
        }
    }
    if path_edges(path, cur).contains(d) {
        let i = choose|i: int|
            0 <= i < path.len() && d.0 == #[trigger] path[i] && d.1 == (if i + 1 < path.len() {
                path[i + 1]
            } else {
                cur
            });
        assert(p1[i] == d.0);
    }
    if d == (cur, nxt) {
        assert(p1[path.len() as int] == d.0);
    }
}

proof fn lemma_path_edges_finite(path: Seq<u32>, cur: u32)
    ensures
        path_edges(path, cur).finite(),
{
    let l = Seq::new(
        path.len(),
        |i: int|
            (path[i], if i + 1 < path.len() {
                path[i + 1]
            } else {
                cur
            }),
    );
    vstd::seq_lib::seq_to_set_is_finite(l);
    assert(path_edges(path, cur) =~= l.to_set()) by {
        assert forall|d: (u32, u32)| path_edges(path, cur).contains(d) implies l.to_set().contains(
            d,
        ) by {
            let i = choose|i: int|
                0 <= i < path.len() && d.0 == #[trigger] path[i] && d.1 == (if i + 1 < path.len() {
                    path[i + 1]
                } else {
                    cur
                });
            assert(l[i] == d);
        }
        assert forall|d: (u32, u32)| l.to_set().contains(d) implies path_edges(path, cur).contains(
            d,
        ) by {
            let i = l.index_of(d);
            assert(l[i] == d);
            assert(path[i] == d.0);
        }
    }
}

/// The loops of a sweep are simple and share no half-edge. In a balanced set without points and
/// two-way edges, every half-edge is on one of them.
pub proof fn lemma_sweep_loops(e: Set<(u32, u32)>, back: bool)
    requires
        e.finite(),
    ensures
        simple_loops(sweep(e, back)),
        loop_edges(sweep(e, back)).no_duplicates(),
        forall|d: (u32, u32)| #[trigger] loop_edges(sweep(e, back)).contains(d) ==> e.contains(d),
        balanced(e) && one_way(e) ==> forall|d: (u32, u32)|
            e.contains(d) ==> #[trigger] loop_edges(sweep(e, back)).contains(d),
    decreases e.len(),
{
    if e.is_empty() {
        assert(loop_edges(sweep(e, back)) =~= Seq::<(u32, u32)>::empty());
    } else {
        let s = least_source(e);
        lemma_least_source(e);
        lemma_walk_shrinks(e, Seq::empty(), s, back);
        let none = path_edges(Seq::empty(), s);
        assert(none =~= Set::empty());
        assert(e.union(none) =~= e);
        lemma_walk_loops(e, Seq::empty(), s, back);
        let w = walk(e, Seq::empty(), s, back);
        lemma_sweep_loops(w.0, back);
        let a = loop_edges(w.1);
        let b = loop_edges(sweep(w.0, back));
        lemma_loop_edges_add(w.1, sweep(w.0, back));
        assert forall|d: (u32, u32)| #[trigger] loop_edges(sweep(e, back)).contains(d) <==> a.contains(d)
            || b.contains(d) by {
            lemma_concat_contains(a, b, d);
        }
        assert forall|i: int, j: int| 0 <= i < j < (a + b).len() implies (a + b)[i] != (a + b)[j] by {
            if i < a.len() && j >= a.len() {
                assert(a.contains(a[i]));
                assert(b.contains(b[j - a.len()]));
            }
        }
        assert forall|k: int| 0 <= k < sweep(e, back).len() implies (#[trigger] sweep(e, back)[k]).len() >= 3
            && sweep(e, back)[k].no_duplicates() by {
            if k < w.1.len() {
                assert(sweep(e, back)[k] == w.1[k]);
            } else {
                assert(sweep(e, back)[k] == sweep(w.0, back)[k - w.1.len()]);
            }
        }
        if balanced(e) && one_way(e) {
            assert(one_way(w.0)) by {
                assert forall|d: (u32, u32)| #[trigger] w.0.contains(d) implies d.0 != d.1
                    && !w.0.contains((d.1, d.0)) by {
                    assert(e.contains(d));
                }
            }
        }
    }
}

/// The loops of both sweeps are simple and share no half-edge. In a balanced set without points
/// and two-way edges, every half-edge is on one of them.
proof fn lemma_trace_loops(e: Set<(u32, u32)>)
    requires
        e.finite(),
    ensures
        simple_loops(trace(e)),
        loop_edges(trace(e)).no_duplicates(),
        forall|d: (u32, u32)| #[trigger] loop_edges(trace(e)).contains(d) ==> e.contains(d),
        balanced(e) && one_way(e) ==> forall|d: (u32, u32)|
            e.contains(d) ==> #[trigger] loop_edges(trace(e)).contains(d),
{
    let x = sweep(e, false);
    let y = sweep(missed(e), true);
    let a = loop_edges(x);
    let b = loop_edges(y);
    lemma_sweep_loops(e, false);
    lemma_sweep_loops(missed(e), true);
    lemma_loop_edges_add(x, y);
    assert forall|d: (u32, u32)| #[trigger] loop_edges(trace(e)).contains(d) <==> a.contains(d)
        || b.contains(d) by {
        lemma_concat_contains(a, b, d);
    }
    assert forall|i: int, j: int| 0 <= i < j < (a + b).len() implies (a + b)[i] != (a + b)[j] by {
        if i < a.len() && j >= a.len() {
            assert(a.contains(a[i]));
            assert(b.contains(b[j - a.len()]));
        }
    }
    assert forall|k: int| 0 <= k < trace(e).len() implies (#[trigger] trace(e)[k]).len() >= 3
        && trace(e)[k].no_duplicates() by {
        if k < x.len() {
            assert(trace(e)[k] == x[k]);
        } else {
            assert(trace(e)[k] == y[k - x.len()]);
        }
    }
}

/// The boundary is finite.
pub proof fn lemma_boundary_finite(h: Seq<(u32, u32)>)
    ensures
        boundary(h).finite(),
{
    vstd::seq_lib::seq_to_set_is_finite(h);
}

/// The boundary of faces with three different corners has no points and no two-way edges.
pub proof fn lemma_boundary_one_way(faces: Seq<Face>)
    requires
        all_proper(faces),
    ensures
        one_way(boundary(half_edges_of(faces))),
{
    let h = half_edges_of(faces);
    let b = boundary(h);
    assert forall|d: (u32, u32)| #[trigger] b.contains(d) implies d.0 != d.1 && !b.contains(
        (d.1, d.0),
    ) by {
        let i = h.index_of(d);
        assert(h[i] == d);
        let r = lemma_half_edge_face(faces, i);
        assert(is_nondegenerate(faces[r.0]));
        if b.contains((d.1, d.0)) {
            let j = h.index_of((d.1, d.0));
            assert(h[j] == (d.1, d.0));
            if i < j {
                lemma_uses_two(h, i, j);
            } else {
                lemma_uses_two(h, j, i);
            }
        }
    }
}

/// The uses that the first `m` faces of a fan make of an edge.
proof fn lemma_fan_prefix(hub: u32, c: Seq<u32>, m: int, e: (u32, u32))
    requires
        c.len() >= 3,
        c.no_duplicates(),
        !c.contains(hub),
        0 <= m <= c.len(),
    ensures
        e.0 != hub && e.1 != hub ==> uses(half_edges_of(hub_fan(hub, c).take(m)), e) == uses(
            cycle_edges(c).take(m),
            e,
        ),
        forall|j: int|
            0 <= j < c.len() && e == edge_of(hub, #[trigger] c[j]) ==> uses(
                half_edges_of(hub_fan(hub, c).take(m)),
                e,
            ) == (if j < m {
                1nat
            } else {
                0nat
            }) + (if 1 <= j <= m || j == 0 && m == c.len() {
                1nat
            } else {
                0nat
            }),
        (e.0 == hub || e.1 == hub) && (forall|j: int|
            0 <= j < c.len() ==> e != edge_of(hub, #[trigger] c[j])) ==> uses(
            half_edges_of(hub_fan(hub, c).take(m)),
            e,
        ) == 0,
    decreases m,
{
    let fan = hub_fan(hub, c);
    if m > 0 {
        lemma_fan_prefix(hub, c, m - 1, e);
        let f = fan[m - 1];
        let a = c[m - 1];
        let b = after(c, m - 1);
        assert(f == [hub, b, a]);
        assert(fan.take(m).drop_last() =~= fan.take(m - 1));
        assert(fan.take(m).last() == f);
        lemma_uses_add(half_edges_of(fan.take(m - 1)), face_half_edges(f), e);
        lemma_face_uses(f, e);
        let g = cycle_edges(c);
        assert(g.take(m).drop_last() =~= g.take(m - 1));
        assert(g.take(m).last() == (a, b));
        assert(c.contains(a)) by {
            assert(c[m - 1] == a);
        }
        let bi = if m < c.len() {
            m
        } else {
            0
        };
        assert(c[bi] == b);
        assert(c.contains(b));
        assert(a != b);
        assert(edge_of(hub, a) == edge_of(a, hub));
        assert(edge_of(a, b) == edge_of(b, a));
        assert forall|j: int| 0 <= j < c.len() && e == edge_of(hub, #[trigger] c[j]) implies uses(
            half_edges_of(fan.take(m)),
            e,
        ) == (if j < m {
            1nat
        } else {
            0nat
        }) + (if 1 <= j <= m || j == 0 && m == c.len() {
            1nat
        } else {
            0nat
        }) by {
            assert(c.contains(c[j]));
        }
    } else {
        assert(fan.take(0) =~= Seq::<Face>::empty());
        assert(cycle_edges(c).take(0) =~= Seq::<(u32, u32)>::empty());
    }
}

/// A fan uses each edge of its cycle as the cycle does and each of its spokes twice.
proof fn lemma_fan_uses(hub: u32, c: Seq<u32>, e: (u32, u32))
    requires
        c.len() >= 3,
        c.no_duplicates(),
        !c.contains(hub),
    ensures
        e.0 != hub && e.1 != hub ==> uses(half_edges_of(hub_fan(hub, c)), e) == uses(
            cycle_edges(c),
            e,
        ),
        e.0 == hub || e.1 == hub ==> uses(half_edges_of(hub_fan(hub, c)), e) == 0 || uses(
            half_edges_of(hub_fan(hub, c)),
            e,
        ) == 2,
        (e.0 == hub || e.1 == hub) && uses(half_edges_of(hub_fan(hub, c)), e) > 0 ==> exists|j: int|
            0 <= j < c.len() && e == edge_of(hub, #[trigger] c[j]),
{
    lemma_fan_prefix(hub, c, c.len() as int, e);
    assert(hub_fan(hub, c).take(c.len() as int) =~= hub_fan(hub, c));
    assert(cycle_edges(c).take(c.len() as int) =~= cycle_edges(c));
    if (e.0 == hub || e.1 == hub) && exists|j: int|
        0 <= j < c.len() && e == edge_of(hub, #[trigger] c[j]) {
        let j = choose|j: int| 0 <= j < c.len() && e == edge_of(hub, #[trigger] c[j]);
        assert(e == edge_of(hub, c[j]));
    }
}

/// Every vertex of every loop is below `base`.
pub open spec fn loops_below(loops: Seq<Seq<u32>>, base: int) -> bool {
    forall|k: int, w: int|
        0 <= k < loops.len() && 0 <= w < loops[k].len() ==> #[trigger] loops[k][w] < base
}

/// The fans together use an edge between old vertices as the loops do, and an edge at a hub
/// twice or not at all.
proof fn lemma_fans_uses(base: int, loops: Seq<Seq<u32>>, e: (u32, u32))
    requires
        simple_loops(loops),
        loops_below(loops, base),
        0 <= base,
        base + loops.len() <= 0x1_0000_0000,
    ensures
        e.0 < base && e.1 < base ==> uses(half_edges_of(hub_fans(base, loops)), e) == uses(
            loop_edges(loops),
            e,
        ),
        e.0 >= base || e.1 >= base ==> uses(half_edges_of(hub_fans(base, loops)), e) == 0 || uses(
            half_edges_of(hub_fans(base, loops)),
            e,
        ) == 2,
        e.0 >= base + loops.len() || e.1 >= base + loops.len() ==> uses(
            half_edges_of(hub_fans(base, loops)),
            e,
        ) == 0,
    decreases loops.len(),
{
    if loops.len() > 0 {
        let front = loops.drop_last();
        let c = loops.last();
        let hub = (base + loops.len() - 1) as u32;
        assert(simple_loops(front)) by {
            assert forall|k: int| 0 <= k < front.len() implies (#[trigger] front[k]).len() >= 3
                && front[k].no_duplicates() by {
                assert(front[k] == loops[k]);
            }
        }
        assert(loops_below(front, base)) by {
            assert forall|k: int, w: int|
                0 <= k < front.len() && 0 <= w < front[k].len() implies #[trigger] front[k][w]
                < base by {
                assert(front[k] == loops[k]);
                assert(loops[k][w] < base);
            }
        }
        lemma_fans_uses(base, front, e);
        assert(loops[loops.len() - 1] == c);
        assert forall|w: int| 0 <= w < c.len() implies #[trigger] c[w] < base by {
            assert(loops[loops.len() - 1][w] < base);
        }
        assert(!c.contains(hub));
        lemma_fan_uses(hub, c, e);
        lemma_half_edges_add(hub_fans(base, front), hub_fan(hub, c));
        lemma_uses_add(half_edges_of(hub_fans(base, front)), half_edges_of(hub_fan(hub, c)), e);
        lemma_uses_add(loop_edges(front), cycle_edges(c), e);
        if e.0 >= base || e.1 >= base {
            lemma_uses_positive(cycle_edges(c), e);
            assert(uses(cycle_edges(c), e) == 0);
        }
    }
}

/// Loops that share no half-edge and run along the boundary use each boundary edge at most once
/// and no other edge.
pub proof fn lemma_loop_uses(h: Seq<(u32, u32)>, d: Seq<(u32, u32)>, e: (u32, u32))
    requires
        d.no_duplicates(),
        forall|x: (u32, u32)| #[trigger] d.contains(x) ==> boundary(h).contains(x),
    ensures
        uses(d, e) <= 1,
        uses(h, e) != 1 ==> uses(d, e) == 0,
        (forall|x: (u32, u32)| boundary(h).contains(x) ==> #[trigger] d.contains(x)) && uses(h, e)
            == 1 ==> uses(d, e) == 1,
{
    if uses(d, e) >= 2 {
        let r = lemma_uses_pair(d, e);
        assert(d.contains(d[r.0]) && d.contains(d[r.1]));
        let i = h.index_of(d[r.0]);
        let j = h.index_of(d[r.1]);
        assert(h[i] == d[r.0] && h[j] == d[r.1]);
        if i < j {
            lemma_uses_two(h, i, j);
        } else {
            lemma_uses_two(h, j, i);
        }
    }
    lemma_uses_positive(d, e);
    if uses(d, e) > 0 {
        let i = choose|i: int| 0 <= i < d.len() && edge_of((#[trigger] d[i]).0, d[i].1) == e;
        assert(d.contains(d[i]));
    }
    if uses(h, e) == 1 && forall|x: (u32, u32)| boundary(h).contains(x) ==> #[trigger] d.contains(x) {
        lemma_uses_positive(h, e);
        let i = choose|i: int| 0 <= i < h.len() && edge_of((#[trigger] h[i]).0, h[i].1) == e;
        assert(h.contains(h[i]));
        assert(boundary(h).contains(h[i]));
        assert(d.contains(h[i]));
        let k = d.index_of(h[i]);
        assert(edge_of(d[k].0, d[k].1) == e);
    }
}

/// The loops of a mesh run over its own vertices.
pub proof fn lemma_trace_below(faces: Seq<Face>, base: int)
    requires
        in_range(faces, base),
    ensures
        loops_below(trace(boundary(half_edges_of(faces))), base),
{
    let h = half_edges_of(faces);
    let loops = trace(boundary(h));
    lemma_boundary_finite(h);
    lemma_trace_loops(boundary(h));
    assert forall|k: int, w: int| 0 <= k < loops.len() && 0 <= w < loops[k].len() implies #[trigger]
        loops[k][w] < base by {
        lemma_loop_edges_contains(loops, k, w);
        let d = cycle_edges(loops[k])[w];
        assert(boundary(h).contains(d));
        let i = h.index_of(d);
        assert(h[i] == d);
        let r = lemma_half_edge_face(faces, i);
        assert(faces[r.0][r.1] < base);
    }
}

/// Each half-edge of each loop is among the half-edges of the loops.
pub proof fn lemma_loop_edges_contains(loops: Seq<Seq<u32>>, k: int, w: int)
    requires
        0 <= k < loops.len(),
        0 <= w < loops[k].len(),
    ensures
        loop_edges(loops).contains(cycle_edges(loops[k])[w]),
    decreases loops.len(),
{
    let front = loops.drop_last();
    let d = cycle_edges(loops[k])[w];
    lemma_concat_contains(loop_edges(front), cycle_edges(loops.last()), d);
    if k < front.len() {
        assert(front[k] == loops[k]);
        lemma_loop_edges_contains(front, k, w);
    } else {
        assert(cycle_edges(loops.last()).contains(d));
    }
}

/// The loops that the hub fans are built on: each visits three vertices or more and none of them
/// twice, each runs along boundary half-edges, and no half-edge is on two loops or twice on one.
pub proof fn law_loops_are_simple(faces: Seq<Face>)
    ensures
        simple_loops(trace(boundary(half_edges_of(faces)))),
        loop_edges(trace(boundary(half_edges_of(faces)))).no_duplicates(),
        forall|d: (u32, u32)| #[trigger]
            loop_edges(trace(boundary(half_edges_of(faces)))).contains(d) ==> boundary(
                half_edges_of(faces),
            ).contains(d),
{
    lemma_boundary_finite(half_edges_of(faces));
    lemma_trace_loops(boundary(half_edges_of(faces)));
}

/// Hub fans forge no edge with three faces or more: every edge that they touch ends up with
/// exactly two half-edges, every other edge keeps what it had.
pub proof fn law_hub_fans_forge_nothing(faces: Seq<Face>, base: int, e: (u32, u32))
    requires
        in_range(faces, base),
        0 <= base,
        base + trace(boundary(half_edges_of(faces))).len() <= 0x1_0000_0000,
    ensures
        uses(
            half_edges_of(faces + hub_fans(base, trace(boundary(half_edges_of(faces))))),
            e,
        ) == uses(half_edges_of(faces), e) || uses(
            half_edges_of(faces + hub_fans(base, trace(boundary(half_edges_of(faces))))),
            e,
        ) == 2,
{
    lemma_caps_uses(faces, base, e);
}

/// What hub fans do to one edge.
pub proof fn lemma_caps_uses(faces: Seq<Face>, base: int, e: (u32, u32))
    requires
        in_range(faces, base),
        0 <= base,
        base + trace(boundary(half_edges_of(faces))).len() <= 0x1_0000_0000,
    ensures
        ({
            let h = half_edges_of(faces);
            let loops = trace(boundary(h));
            let n = uses(half_edges_of(faces + hub_fans(base, loops)), e);
            &&& uses(h, e) >= 2 ==> n == uses(h, e)
            &&& n == uses(h, e) || n == 2
            &&& uses(h, e) == 1 && (forall|x: (u32, u32)|
                boundary(h).contains(x) ==> #[trigger] loop_edges(loops).contains(x)) ==> n == 2
            &&& uses(h, e) == 0 ==> n == 0 || n == 2
            &&& n == uses(h, e) + uses(half_edges_of(hub_fans(base, loops)), e)
            &&& uses(loop_edges(loops), e) > 0 ==> n == 2
        }),
{
    let h = half_edges_of(faces);
    let loops = trace(boundary(h));
    let caps = hub_fans(base, loops);
    law_loops_are_simple(faces);
    lemma_trace_below(faces, base);
    lemma_fans_uses(base, loops, e);
    lemma_half_edges_add(faces, caps);
    lemma_uses_add(h, half_edges_of(caps), e);
    lemma_loop_uses(h, loop_edges(loops), e);
    if e.0 >= base || e.1 >= base {
        lemma_uses_positive(h, e);
        if uses(h, e) > 0 {
            let i = choose|i: int| 0 <= i < h.len() && edge_of((#[trigger] h[i]).0, h[i].1) == e;
            let r = lemma_half_edge_face(faces, i);
            assert(faces[r.0][0] < base && faces[r.0][1] < base && faces[r.0][2] < base);
        }
    }
}

/// Hub fans close a mesh: where no edge has more than two half-edges, every face has three
/// different corners, and as many boundary half-edges leave each vertex as enter it, every edge
/// has exactly two half-edges once the fans are added.
pub proof fn law_hub_fans_close(faces: Seq<Face>, base: int)
    requires
        in_range(faces, base),
        0 <= base,
        base + trace(boundary(half_edges_of(faces))).len() <= 0x1_0000_0000,
        all_proper(faces),
        forall|e: (u32, u32)| #[trigger] uses(half_edges_of(faces), e) <= 2,
        balanced(boundary(half_edges_of(faces))),
    ensures
        closed_manifold(faces + hub_fans(base, trace(boundary(half_edges_of(faces))))),
{
    let h = half_edges_of(faces);
    let loops = trace(boundary(h));
    let all = faces + hub_fans(base, loops);
    lemma_boundary_finite(h);
    lemma_boundary_one_way(faces);
    lemma_trace_loops(boundary(h));
    assert forall|e: (u32, u32)| #[trigger] uses(half_edges_of(all), e) == 0 || uses(
        half_edges_of(all),
        e,
    ) == 2 by {
        lemma_caps_uses(faces, base, e);
        assert(uses(h, e) <= 2);
    }
}

/// How many half-edges of a list leave a vertex.
spec fn leave_count(h: Seq<(u32, u32)>, v: u32) -> nat
    decreases h.len(),
{
    if h.len() == 0 {
        0
    } else {
        leave_count(h.drop_last(), v) + (if h.last().0 == v {
            1nat
        } else {
            0nat
        })
    }
}

/// How many half-edges of a list enter a vertex.
spec fn enter_count(h: Seq<(u32, u32)>, v: u32) -> nat
    decreases h.len(),
{
    if h.len() == 0 {
        0
    } else {
        enter_count(h.drop_last(), v) + (if h.last().1 == v {
            1nat
        } else {
            0nat
        })
    }
}

proof fn lemma_faces_balance(faces: Seq<Face>, v: u32)
    ensures
        leave_count(half_edges_of(faces), v) == enter_count(half_edges_of(faces), v),
    decreases faces.len(),
{
    if faces.len() > 0 {
        lemma_faces_balance(faces.drop_last(), v);
        let h0 = half_edges_of(faces.drop_last());
        let f = faces.last();
        let h = half_edges_of(faces);
        assert(h.drop_last() =~= h0 + seq![(f[0], f[1]), (f[1], f[2])]);
        assert(h.drop_last().drop_last() =~= h0 + seq![(f[0], f[1])]);
        assert(h.drop_last().drop_last().drop_last() =~= h0);
        reveal_with_fuel(leave_count, 4);
        reveal_with_fuel(enter_count, 4);
    }
}

proof fn lemma_counts_are_sizes(h: Seq<(u32, u32)>, v: u32)
    requires
        h.no_duplicates(),
    ensures
        leaving(h.to_set(), v).len() == leave_count(h, v),
        entering(h.to_set(), v).len() == enter_count(h, v),
    decreases h.len(),
{
    vstd::seq_lib::seq_to_set_is_finite(h);
    if h.len() == 0 {
        assert(leaving(h.to_set(), v) =~= Set::empty());
        assert(entering(h.to_set(), v) =~= Set::empty());
    } else {
        let t = h.drop_last();
        let d = h.last();
        vstd::seq_lib::seq_to_set_is_finite(t);
        lemma_counts_are_sizes(t, v);
        assert forall|x: (u32, u32)| h.to_set().contains(x) <==> t.to_set().contains(x) || x == d by {
            if t.contains(x) {
                let i = t.index_of(x);
                assert(h[i] == x);
            }
            if h.contains(x) {
                let i = h.index_of(x);
                if i < t.len() {
                    assert(t[i] == x);
                }
            }
            assert(h[h.len() - 1] == d);
        }
        assert(!t.to_set().contains(d)) by {
            if t.contains(d) {
                let i = t.index_of(d);
                assert(h[i] == h[h.len() - 1]);
            }
        }
        if d.0 == v {
            assert(leaving(h.to_set(), v) =~= leaving(t.to_set(), v).insert(d));
        } else {
            assert(leaving(h.to_set(), v) =~= leaving(t.to_set(), v));
        }
        if d.1 == v {
            assert(entering(h.to_set(), v) =~= entering(t.to_set(), v).insert(d));
        } else {
            assert(entering(h.to_set(), v) =~= entering(t.to_set(), v));
        }
    }
}

/// In a mesh that is wound in one sense, where no half-edge occurs twice and no edge has more
/// than two, as many boundary half-edges leave each vertex as enter it.
pub proof fn law_consistent_winding_is_balanced(faces: Seq<Face>)
    requires
        half_edges_of(faces).no_duplicates(),
        forall|e: (u32, u32)| #[trigger] uses(half_edges_of(faces), e) <= 2,
    ensures
        balanced(boundary(half_edges_of(faces))),
{
    let h = half_edges_of(faces);
    let all = h.to_set();
    let b = boundary(h);
    let inner = all.difference(b);
    vstd::seq_lib::seq_to_set_is_finite(h);
    assert forall|d: (u32, u32)| #[trigger] inner.contains(d) implies inner.contains((d.1, d.0)) by {
        let e = edge_of(d.0, d.1);
        assert(edge_of(d.1, d.0) == e);
        let i = h.index_of(d);
        assert(h[i] == d);
        lemma_uses_positive(h, e);
        assert(uses(h, e) == 2);
        let r = lemma_uses_pair(h, e);
        assert(h.contains(h[r.0]) && h.contains(h[r.1]));
        assert(h[r.0] != h[r.1]);
        assert(h.contains((d.1, d.0)));
    }
    let swap = |d: (u32, u32)| (d.1, d.0);
    assert forall|v: u32| (#[trigger] leaving(b, v)).len() == entering(b, v).len() by {
        lemma_faces_balance(faces, v);
        lemma_counts_are_sizes(h, v);
        assert(leaving(inner, v).map(swap) =~= entering(inner, v)) by {
            assert forall|d: (u32, u32)| entering(inner, v).contains(d) implies leaving(
                inner,
                v,
            ).map(swap).contains(d) by {
                let x = (d.1, d.0);
                assert(inner.contains(x));
                assert(leaving(inner, v).contains(x));
                assert(swap(x) == d);
            }
        }
        vstd::set_lib::lemma_map_size(leaving(inner, v), entering(inner, v), swap);
        assert(leaving(all, v) =~= leaving(b, v).union(leaving(inner, v)));
        assert(entering(all, v) =~= entering(b, v).union(entering(inner, v)));
        vstd::set_lib::lemma_set_disjoint_lens(leaving(b, v), leaving(inner, v));
        vstd::set_lib::lemma_set_disjoint_lens(entering(b, v), entering(inner, v));
    }
}

} // verus!
