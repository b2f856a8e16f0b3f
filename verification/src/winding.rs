//! Which way round the faces run that close holes or turn shells.
use crate::capping::{
    is_diagonal, law_capped_loops_are_simple, law_fan_supplies_reverse, law_fan_uses,
    lemma_loop_edges_source,
};
use crate::closing::{
    law_loops_are_simple, lemma_concat_contains, lemma_trace_below, loop_edges, loops_below,
    simple_loops,
};
use crate::force::{boundary, trace};
use crate::holes::{loop_fan, loop_fans, simple_holes};
use crate::hubs::{after, cycle_edges, hub_fan, hub_fans};
use crate::mesh::{
    edge_of, face_half_edges, half_edges_of, in_range, lemma_half_edge_face, lemma_half_edges_add,
    lemma_half_edges_index, lemma_half_edges_len, lemma_uses_add, lemma_uses_positive,
    lemma_uses_two, uses, Face,
};
use crate::orient::oriented;
use crate::sealing::{lemma_edge_root, root_list};
use vstd::prelude::*;

verus! {

/// The half-edge of a loop that leaves its place `w`.
pub open spec fn step_at(c: Seq<u32>, w: int) -> (u32, u32) {
    (c[w], if w == c.len() - 1 {
        c[0]
    } else {
        c[w + 1]
    })
}

/// Face `w` of a hub fan lies on half-edge `w` of the loop, runs against it, and starts at the
/// hub. On a loop of three vertices or more that visits none twice, no face of the fan runs along
/// with it.
pub proof fn law_hub_fan_runs_against_its_loop(hub: u32, c: Seq<u32>, w: int)
    requires
        0 <= w < c.len(),
    ensures
        hub_fan(hub, c).len() == c.len(),
        hub_fan(hub, c)[w][0] == hub,
        face_half_edges(hub_fan(hub, c)[w]).contains((step_at(c, w).1, step_at(c, w).0)),
        half_edges_of(hub_fan(hub, c)).contains((step_at(c, w).1, step_at(c, w).0)),
        c.len() >= 3 && c.no_duplicates() && !c.contains(hub) ==> !half_edges_of(
            hub_fan(hub, c),
        ).contains(step_at(c, w)),
{
    let fan = hub_fan(hub, c);
    let h = half_edges_of(fan);
    let d = step_at(c, w);
    lemma_half_edges_index(fan, w, 1);
    assert(h[3 * w + 1] == (d.1, d.0));
    assert(face_half_edges(fan[w])[1] == (d.1, d.0));
    if c.len() >= 3 && c.no_duplicates() && !c.contains(hub) && h.contains(d) {
        let i = h.index_of(d);
        let r = lemma_half_edge_face(fan, i);
        let v = r.0;
        assert(fan[v] == [hub, after(c, v), c[v]]);
        assert(c.contains(c[w]));
        assert(c.contains(d.1));
        assert(after(c, v) == c[w] && c[v] == d.1);
    }
}

/// The half-edges of a hub fan: every one of the loop backwards, and every spoke both ways, each
/// once.
pub proof fn law_hub_fan_half_edges(hub: u32, c: Seq<u32>)
    requires
        c.no_duplicates(),
        !c.contains(hub),
    ensures
        half_edges_of(hub_fan(hub, c)).no_duplicates(),
        forall|d: (u32, u32)| #[trigger]
            half_edges_of(hub_fan(hub, c)).contains(d) <==> cycle_edges(c).contains((d.1, d.0)) || (
            d.0 == hub && c.contains(d.1)) || (d.1 == hub && c.contains(d.0)),
{
    let fan = hub_fan(hub, c);
    let h = half_edges_of(fan);
    lemma_half_edges_len(fan);
    assert forall|d: (u32, u32)| #[trigger] h.contains(d) <==> cycle_edges(c).contains(
        (d.1, d.0),
    ) || (d.0 == hub && c.contains(d.1)) || (d.1 == hub && c.contains(d.0)) by {
        if h.contains(d) {
            let i = h.index_of(d);
            let r = lemma_half_edge_face(fan, i);
            let v = r.0;
            assert(fan[v] == [hub, after(c, v), c[v]]);
            assert(cycle_edges(c)[v] == (c[v], after(c, v)));
            assert(c.contains(c[v]));
            if v + 1 < c.len() {
                assert(c.contains(c[v + 1]));
            } else {
                assert(c.contains(c[0]));
            }
        }
        if cycle_edges(c).contains((d.1, d.0)) {
            let w = cycle_edges(c).index_of((d.1, d.0));
            lemma_half_edges_index(fan, w, 1);
            assert(h[3 * w + 1] == d);
        }
        if d.0 == hub && c.contains(d.1) {
            let w = c.index_of(d.1);
            let v = if w > 0 {
                w - 1
            } else {
                c.len() - 1
            };
            lemma_half_edges_index(fan, v, 0);
            assert(after(c, v) == c[w]);
            assert(h[3 * v] == d);
        }
        if d.1 == hub && c.contains(d.0) {
            let w = c.index_of(d.0);
            lemma_half_edges_index(fan, w, 2);
            assert(h[3 * w + 2] == d);
        }
    }
    assert forall|i: int, j: int| 0 <= i < h.len() && 0 <= j < h.len() && i != j implies h[i]
        != h[j] by {
        let r = lemma_half_edge_face(fan, i);
        let s = lemma_half_edge_face(fan, j);
        assert(fan[r.0] == [hub, after(c, r.0), c[r.0]]);
        assert(fan[s.0] == [hub, after(c, s.0), c[s.0]]);
        lemma_after(c, r.0, s.0);
        assert(c.contains(c[r.0]) && c.contains(c[s.0]));
        assert(c.contains(after(c, r.0)) && c.contains(after(c, s.0)));
    }
}

/// No two places of a loop are followed by the same vertex.
proof fn lemma_after(c: Seq<u32>, i: int, j: int)
    requires
        c.no_duplicates(),
        0 <= i < c.len(),
        0 <= j < c.len(),
    ensures
        after(c, i) == after(c, j) ==> i == j,
        c.contains(after(c, i)),
        c.contains(after(c, j)),
{
    let p = if i + 1 < c.len() {
        i + 1
    } else {
        0
    };
    let q = if j + 1 < c.len() {
        j + 1
    } else {
        0
    };
    assert(after(c, i) == c[p] && after(c, j) == c[q]);
}

/// What the fans over several loops are made of.
proof fn lemma_hub_fans_half_edges(base: int, loops: Seq<Seq<u32>>)
    requires
        simple_loops(loops),
        loops_below(loops, base),
        loop_edges(loops).no_duplicates(),
        0 <= base,
        base + loops.len() <= 0x1_0000_0000,
    ensures
        half_edges_of(hub_fans(base, loops)).no_duplicates(),
        forall|d: (u32, u32)| #[trigger]
            half_edges_of(hub_fans(base, loops)).contains(d) ==> d.0 < base + loops.len() && d.1
                < base + loops.len() && (d.0 < base && d.1 < base ==> loop_edges(loops).contains(
                (d.1, d.0),
            )),
    decreases loops.len(),
{
    let h = half_edges_of(hub_fans(base, loops));
    if loops.len() == 0 {
        assert(h =~= Seq::<(u32, u32)>::empty());
    } else {
        let front = loops.drop_last();
        let c = loops.last();
        let hub = (base + loops.len() - 1) as u32;
        let a = half_edges_of(hub_fans(base, front));
        let b = half_edges_of(hub_fan(hub, c));
        let g = loop_edges(front);
        let k = cycle_edges(c);
        assert(loops[loops.len() - 1] == c);
        assert(simple_loops(front)) by {
            assert forall|i: int| 0 <= i < front.len() implies (#[trigger] front[i]).len() >= 3
                && front[i].no_duplicates() by {
                assert(front[i] == loops[i]);
            }
        }
        assert(loops_below(front, base)) by {
            assert forall|i: int, w: int| 0 <= i < front.len() && 0 <= w < front[i].len() implies
                #[trigger] front[i][w] < base by {
                assert(loops[i][w] < base);
            }
        }
        assert forall|v: u32| c.contains(v) implies v < base by {
            let w = c.index_of(v);
            assert(loops[loops.len() - 1][w] < base);
        }
        lemma_no_duplicates_parts(g, k);
        lemma_hub_fans_half_edges(base, front);
        law_hub_fan_half_edges(hub, c);
        lemma_half_edges_add(hub_fans(base, front), hub_fan(hub, c));
        assert(h == a + b);
        assert forall|d: (u32, u32)| a.contains(d) implies !b.contains(d) by {
            if b.contains(d) {
                assert(d.0 != hub && d.1 != hub);
                assert(k.contains((d.1, d.0)));
                let w = k.index_of((d.1, d.0));
                assert(c.contains(c[w]));
                lemma_after(c, w, w);
                assert(g.contains((d.1, d.0)));
            }
        }
        lemma_no_duplicates_whole(a, b);
        assert forall|d: (u32, u32)| #[trigger] h.contains(d) implies d.0 < base + loops.len()
            && d.1 < base + loops.len() && (d.0 < base && d.1 < base ==> loop_edges(
            loops,
        ).contains((d.1, d.0))) by {
            lemma_concat_contains(a, b, d);
            lemma_concat_contains(g, k, (d.1, d.0));
            if b.contains(d) && k.contains((d.1, d.0)) {
                let w = k.index_of((d.1, d.0));
                assert(c.contains(c[w]));
                lemma_after(c, w, w);
            }
        }
    }
}

/// Two parts of a list without repetitions have none and nothing in common.
proof fn lemma_no_duplicates_parts(a: Seq<(u32, u32)>, b: Seq<(u32, u32)>)
    requires
        (a + b).no_duplicates(),
    ensures
        a.no_duplicates(),
        b.no_duplicates(),
        forall|d: (u32, u32)| a.contains(d) ==> !b.contains(d),
{
    let t = a + b;
    assert forall|i: int, j: int| 0 <= i < a.len() && 0 <= j < a.len() && i != j implies a[i]
        != a[j] by {
        assert(t[i] == a[i] && t[j] == a[j]);
    }
    assert forall|i: int, j: int| 0 <= i < b.len() && 0 <= j < b.len() && i != j implies b[i]
        != b[j] by {
        assert(t[a.len() + i] == b[i] && t[a.len() + j] == b[j]);
    }
    assert forall|d: (u32, u32)| a.contains(d) implies !b.contains(d) by {
        if b.contains(d) {
            let i = a.index_of(d);
            let j = b.index_of(d);
            assert(t[i] == d && t[a.len() + j] == d);
        }
    }
}

/// Two lists without repetitions and with nothing in common make one without repetitions.
proof fn lemma_no_duplicates_whole(a: Seq<(u32, u32)>, b: Seq<(u32, u32)>)
    requires
        a.no_duplicates(),
        b.no_duplicates(),
        forall|d: (u32, u32)| a.contains(d) ==> !b.contains(d),
    ensures
        (a + b).no_duplicates(),
{
    let t = a + b;
    assert forall|i: int, j: int| 0 <= i < t.len() && 0 <= j < t.len() && i != j implies t[i]
        != t[j] by {
        if i < a.len() {
            assert(a.contains(t[i]));
        } else {
            assert(b.contains(t[i]));
        }
        if j < a.len() {
            assert(a.contains(t[j]));
        } else {
            assert(b.contains(t[j]));
        }
    }
}

/// Where a boundary half-edge runs one way, none of the list runs the other way.
proof fn lemma_boundary_has_no_reverse(h: Seq<(u32, u32)>, d: (u32, u32))
    requires
        boundary(h).contains((d.1, d.0)),
        d.0 != d.1,
    ensures
        !h.contains(d),
{
    if h.contains(d) {
        let i = h.index_of(d);
        let j = h.index_of((d.1, d.0));
        assert(h[i] == d && h[j] == (d.1, d.0));
        assert(edge_of(d.0, d.1) == edge_of(d.1, d.0));
        if i < j {
            lemma_uses_two(h, i, j);
        } else {
            lemma_uses_two(h, j, i);
        }
    }
}

/// The two ends of a half-edge of a simple loop differ.
proof fn lemma_loop_edge_ends(loops: Seq<Seq<u32>>, d: (u32, u32))
    requires
        simple_loops(loops),
        loop_edges(loops).contains(d),
    ensures
        d.0 != d.1,
{
    let r = lemma_loop_edges_source(loops, d);
    let c = loops[r.0];
    assert(c.len() >= 3 && c.no_duplicates());
}

/// Hub fans fit the faces that they close: where no half-edge occurs twice among the faces, none
/// does with the fans added, so the new faces run the way of their neighbours.
pub proof fn law_hub_fans_keep_winding(faces: Seq<Face>, base: int)
    requires
        in_range(faces, base),
        0 <= base,
        base + trace(boundary(half_edges_of(faces))).len() <= 0x1_0000_0000,
        half_edges_of(faces).no_duplicates(),
    ensures
        half_edges_of(
            faces + hub_fans(base, trace(boundary(half_edges_of(faces)))),
        ).no_duplicates(),
{
    let h = half_edges_of(faces);
    let loops = trace(boundary(h));
    let f = half_edges_of(hub_fans(base, loops));
    law_loops_are_simple(faces);
    lemma_trace_below(faces, base);
    lemma_hub_fans_half_edges(base, loops);
    lemma_half_edges_add(faces, hub_fans(base, loops));
    assert forall|d: (u32, u32)| h.contains(d) implies !f.contains(d) by {
        if f.contains(d) {
            let i = h.index_of(d);
            let r = lemma_half_edge_face(faces, i);
            assert(faces[r.0][0] < base && faces[r.0][1] < base && faces[r.0][2] < base);
            assert(loop_edges(loops).contains((d.1, d.0)));
            lemma_loop_edge_ends(loops, (d.1, d.0));
            lemma_boundary_has_no_reverse(h, d);
        }
    }
    lemma_no_duplicates_whole(h, f);
}

/// The fans over several loops stand in the order of the loops. The fan over loop `k` has
/// `base + k` for its hub and one face on every half-edge of the loop, in their order and wound
/// against it.
pub proof fn law_hub_fans_cover_every_loop(base: int, loops: Seq<Seq<u32>>, k: int, w: int)
    requires
        0 <= base,
        base + loops.len() <= 0x1_0000_0000,
        0 <= k < loops.len(),
        0 <= w < loops[k].len(),
    ensures
        hub_fans(base, loops).len() == loop_edges(loops).len(),
        loop_edges(loops.take(k)).len() + w < loop_edges(loops).len(),
        hub_fans(base, loops)[loop_edges(loops.take(k)).len() + w] == [
            (base + k) as u32,
            step_at(loops[k], w).1,
            step_at(loops[k], w).0,
        ],
    decreases loops.len(),
{
    let front = loops.drop_last();
    let c = loops.last();
    let hub = (base + loops.len() - 1) as u32;
    let f = [(base + k) as u32, step_at(loops[k], w).1, step_at(loops[k], w).0];
    lemma_hub_fans_len(base, loops);
    if k < front.len() {
        assert(front[k] == loops[k]);
        law_hub_fans_cover_every_loop(base, front, k, w);
        lemma_hub_fans_len(base, front);
        assert(front.take(k) =~= loops.take(k));
    } else {
        lemma_hub_fans_len(base, front);
        assert(loops.take(k) =~= front);
        assert(hub_fan(hub, c)[w] == f);
        assert(hub_fans(base, loops)[hub_fans(base, front).len() + w] == f);
    }
}

proof fn lemma_hub_fans_len(base: int, loops: Seq<Seq<u32>>)
    ensures
        hub_fans(base, loops).len() == loop_edges(loops).len(),
    decreases loops.len(),
{
    if loops.len() > 0 {
        lemma_hub_fans_len(base, loops.drop_last());
    }
}

/// A fan without a hub runs against its loop: it has every half-edge of the loop backwards and
/// none of them forwards.
pub proof fn law_fan_runs_against_its_loop(c: Seq<u32>, w: int)
    requires
        c.no_duplicates(),
        c.len() >= 3,
        0 <= w < c.len(),
    ensures
        loop_fan(c).len() == c.len() - 2,
        half_edges_of(loop_fan(c)).contains((step_at(c, w).1, step_at(c, w).0)),
        !half_edges_of(loop_fan(c)).contains(step_at(c, w)),
        forall|i: int| 0 <= i < loop_fan(c).len() ==> (#[trigger] loop_fan(c)[i])[0] == c[0],
{
    let d = step_at(c, w);
    law_fan_supplies_reverse(c, w);
    lemma_fan_half_edges(c);
    if half_edges_of(loop_fan(c)).contains(d) {
        let v = cycle_edges(c).index_of((d.1, d.0));
        if cycle_edges(c).contains((d.1, d.0)) {
            assert(cycle_edges(c)[v] == (d.1, d.0));
            assert(c[v] == d.1 && after(c, v) == c[w]);
        } else {
            let m = choose|m: int|
                2 <= m <= c.len() - 2 && edge_of(d.0, d.1) == edge_of(c[0], #[trigger] c[m]);
            assert((d.0 == c[0] && d.1 == c[m]) || (d.0 == c[m] && d.1 == c[0]));
        }
    }
}

/// What a fan without a hub is made of: the loop backwards, and diagonals.
proof fn lemma_fan_half_edges(c: Seq<u32>)
    requires
        c.no_duplicates(),
        c.len() >= 3,
    ensures
        half_edges_of(loop_fan(c)).no_duplicates(),
        forall|d: (u32, u32)| #[trigger]
            half_edges_of(loop_fan(c)).contains(d) ==> cycle_edges(c).contains((d.1, d.0))
                || is_diagonal(c, edge_of(d.0, d.1)),
{
    let fan = loop_fan(c);
    let h = half_edges_of(fan);
    let n = c.len() as int;
    lemma_half_edges_len(fan);
    assert forall|d: (u32, u32)| #[trigger] h.contains(d) implies cycle_edges(c).contains(
        (d.1, d.0),
    ) || is_diagonal(c, edge_of(d.0, d.1)) by {
        let i = h.index_of(d);
        let r = lemma_half_edge_face(fan, i);
        let v = r.0;
        assert(fan[v] == [c[0], c[v + 2], c[v + 1]]);
        if r.1 == 1 {
            assert(cycle_edges(c)[v + 1] == (d.1, d.0));
        } else if r.1 == 0 {
            if v + 2 == n - 1 {
                assert(cycle_edges(c)[n - 1] == (d.1, d.0));
            } else {
                assert(edge_of(d.0, d.1) == edge_of(c[0], c[v + 2]));
            }
        } else {
            if v == 0 {
                assert(cycle_edges(c)[0] == (d.1, d.0));
            } else {
                assert(edge_of(d.0, d.1) == edge_of(c[0], c[v + 1]));
            }
        }
    }
    assert forall|i: int, j: int| 0 <= i < h.len() && 0 <= j < h.len() && i != j implies h[i]
        != h[j] by {
        let r = lemma_half_edge_face(fan, i);
        let s = lemma_half_edge_face(fan, j);
        assert(fan[r.0] == [c[0], c[r.0 + 2], c[r.0 + 1]]);
        assert(fan[s.0] == [c[0], c[s.0 + 2], c[s.0 + 1]]);
    }
}

/// What the fans over several loops are made of, and how often they use a diagonal.
proof fn lemma_fans_half_edges(loops: Seq<Seq<u32>>, d: (u32, u32))
    requires
        simple_loops(loops),
        half_edges_of(loop_fans(loops)).contains(d),
    ensures
        loop_edges(loops).contains((d.1, d.0)) || uses(
            half_edges_of(loop_fans(loops)),
            edge_of(d.0, d.1),
        ) >= 2,
    decreases loops.len(),
{
    if loops.len() == 0 {
        assert(half_edges_of(loop_fans(loops)) =~= Seq::<(u32, u32)>::empty());
    } else {
        let front = loops.drop_last();
        let c = loops.last();
        let a = half_edges_of(loop_fans(front));
        let b = half_edges_of(loop_fan(c));
        let e = edge_of(d.0, d.1);
        assert(loops[loops.len() - 1] == c);
        assert(simple_loops(front)) by {
            assert forall|i: int| 0 <= i < front.len() implies (#[trigger] front[i]).len() >= 3
                && front[i].no_duplicates() by {
                assert(front[i] == loops[i]);
            }
        }
        lemma_half_edges_add(loop_fans(front), loop_fan(c));
        lemma_concat_contains(a, b, d);
        lemma_concat_contains(loop_edges(front), cycle_edges(c), (d.1, d.0));
        lemma_uses_add(a, b, e);
        if a.contains(d) {
            lemma_fans_half_edges(front, d);
        } else {
            lemma_fan_half_edges(c);
            law_fan_uses(c, e);
        }
    }
}

/// An edge that a half-edge of the list lies on is used.
proof fn lemma_contains_uses(h: Seq<(u32, u32)>, d: (u32, u32))
    requires
        h.contains(d),
    ensures
        uses(h, edge_of(d.0, d.1)) >= 1,
{
    let i = h.index_of(d);
    lemma_uses_positive(h, edge_of(d.0, d.1));
    assert(edge_of(h[i].0, h[i].1) == edge_of(d.0, d.1));
}

proof fn lemma_fans_keep_winding(h: Seq<(u32, u32)>, loops: Seq<Seq<u32>>)
    requires
        h.no_duplicates(),
        simple_loops(loops),
        loop_edges(loops).no_duplicates(),
        forall|d: (u32, u32)| #[trigger]
            loop_edges(loops).contains(d) ==> boundary(h).contains(d),
        forall|e: (u32, u32)| #[trigger] uses(h + half_edges_of(loop_fans(loops)), e) <= 2,
    ensures
        (h + half_edges_of(loop_fans(loops))).no_duplicates(),
    decreases loops.len(),
{
    if loops.len() == 0 {
        assert(h + half_edges_of(loop_fans(loops)) =~= h);
    } else {
        let front = loops.drop_last();
        let c = loops.last();
        let a = half_edges_of(loop_fans(front));
        let b = half_edges_of(loop_fan(c));
        let g = loop_edges(front);
        let k = cycle_edges(c);
        assert(loops[loops.len() - 1] == c);
        assert(simple_loops(front)) by {
            assert forall|i: int| 0 <= i < front.len() implies (#[trigger] front[i]).len() >= 3
                && front[i].no_duplicates() by {
                assert(front[i] == loops[i]);
            }
        }
        lemma_no_duplicates_parts(g, k);
        lemma_half_edges_add(loop_fans(front), loop_fan(c));
        assert(h + half_edges_of(loop_fans(loops)) =~= (h + a) + b);
        assert forall|d: (u32, u32)| #[trigger] g.contains(d) implies boundary(h).contains(d) by {
            lemma_concat_contains(g, k, d);
            assert(loop_edges(loops).contains(d));
        }
        assert forall|e: (u32, u32)| #[trigger] uses(h + a, e) <= 2 by {
            lemma_uses_add(h + a, b, e);
            assert(uses(h + half_edges_of(loop_fans(loops)), e) <= 2);
        }
        lemma_fans_keep_winding(h, front);
        lemma_fan_half_edges(c);
        assert forall|d: (u32, u32)| (h + a).contains(d) implies !b.contains(d) by {
            if b.contains(d) {
                let e = edge_of(d.0, d.1);
                lemma_concat_contains(h, a, d);
                lemma_uses_add(h + a, b, e);
                lemma_uses_add(h, a, e);
                assert(uses(h + half_edges_of(loop_fans(loops)), e) <= 2);
                lemma_contains_uses(h + a, d);
                lemma_contains_uses(b, d);
                law_fan_uses(c, e);
                assert(k.contains((d.1, d.0)));
                lemma_concat_contains(g, k, (d.1, d.0));
                assert(loop_edges(loops).contains((d.1, d.0)));
                lemma_loop_edge_ends(loops, (d.1, d.0));
                lemma_boundary_has_no_reverse(h, d);
                lemma_fans_half_edges(front, d);
            }
        }
        lemma_no_duplicates_whole(h + a, b);
    }
}

/// Fan caps fit the faces that they close: where no half-edge occurs twice among the faces, and no
/// edge has more than two uses once the caps are there, no half-edge occurs twice then either.
pub proof fn law_fan_caps_keep_winding(faces: Seq<Face>)
    requires
        half_edges_of(faces).no_duplicates(),
        forall|e: (u32, u32)| #[trigger]
            uses(half_edges_of(faces + loop_fans(simple_holes(faces))), e) <= 2,
    ensures
        half_edges_of(faces + loop_fans(simple_holes(faces))).no_duplicates(),
{
    let loops = simple_holes(faces);
    law_capped_loops_are_simple(faces);
    lemma_half_edges_add(faces, loop_fans(loops));
    lemma_fans_keep_winding(half_edges_of(faces), loops);
}

/// A face whose shell is turned has the reverses of the half-edges that it had, and starts at the
/// same corner; every other face is as it was.
pub proof fn law_turned_shells_are_reversed(
    faces: Seq<Face>,
    roots: Seq<usize>,
    inward: Set<usize>,
    i: int,
)
    requires
        0 <= i < faces.len(),
    ensures
        oriented(faces, roots, inward).len() == faces.len(),
        oriented(faces, roots, inward)[i][0] == faces[i][0],
        !inward.contains(roots[i]) ==> oriented(faces, roots, inward)[i] == faces[i],
        inward.contains(roots[i]) ==> forall|a: u32, b: u32| #[trigger]
            face_half_edges(oriented(faces, roots, inward)[i]).contains((a, b))
                <==> face_half_edges(faces[i]).contains((b, a)),
{
    let f = faces[i];
    let o = oriented(faces, roots, inward)[i];
    if inward.contains(roots[i]) {
        let s = face_half_edges(o);
        let t = face_half_edges(f);
        assert(s[0] == (t[2].1, t[2].0) && s[1] == (t[1].1, t[1].0) && s[2] == (t[0].1, t[0].0));
        assert forall|a: u32, b: u32| #[trigger] s.contains((a, b)) <==> t.contains((b, a)) by {
            if s.contains((a, b)) {
                let k = s.index_of((a, b));
                assert(t[2 - k] == (b, a));
            }
            if t.contains((b, a)) {
                let k = t.index_of((b, a));
                assert(s[2 - k] == (a, b));
            }
        }
    }
}

/// Turning whole components keeps the winding consistent: where no half-edge occurs twice, none
/// does afterwards.
pub proof fn law_turning_components_keeps_winding(faces: Seq<Face>, inward: Set<usize>)
    requires
        half_edges_of(faces).no_duplicates(),
    ensures
        half_edges_of(oriented(faces, root_list(faces), inward)).no_duplicates(),
{
    let roots = root_list(faces);
    let o = oriented(faces, roots, inward);
    let h = half_edges_of(faces);
    let g = half_edges_of(o);
    lemma_half_edges_len(faces);
    lemma_half_edges_len(o);
    assert forall|i: int, j: int| 0 <= i < g.len() && 0 <= j < g.len() && i != j implies g[i]
        != g[j] by {
        let r = lemma_half_edge_face(o, i);
        let s = lemma_half_edge_face(o, j);
        let p = if inward.contains(roots[r.0]) {
            2 - r.1
        } else {
            r.1
        };
        let q = if inward.contains(roots[s.0]) {
            2 - s.1
        } else {
            s.1
        };
        lemma_half_edges_index(faces, r.0, p);
        lemma_half_edges_index(faces, s.0, q);
        if g[i] == g[j] {
            let e = edge_of(g[i].0, g[i].1);
            assert(edge_of(h[3 * r.0 + p].0, h[3 * r.0 + p].1) == e);
            assert(edge_of(h[3 * s.0 + q].0, h[3 * s.0 + q].1) == e);
            lemma_uses_positive(face_half_edges(faces[r.0]), e);
            lemma_uses_positive(face_half_edges(faces[s.0]), e);
            assert(edge_of(
                face_half_edges(faces[r.0])[p].0,
                face_half_edges(faces[r.0])[p].1,
            ) == e);
            assert(edge_of(
                face_half_edges(faces[s.0])[q].0,
                face_half_edges(faces[s.0])[q].1,
            ) == e);
            lemma_edge_root(faces, r.0, s.0, e);
            assert(h[3 * r.0 + p] == h[3 * s.0 + q]);
            assert(3 * r.0 + p == 3 * s.0 + q);
        }
    }
}

} // verus!
