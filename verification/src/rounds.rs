//! When one round of capping closes a mesh.
use crate::audit::{law_audit_is_clean_iff_closed, open_edges, overloaded_edges};
use crate::capping::{
    diagonals, law_capped_loops_are_simple, law_fan_caps_open_nothing, law_fan_caps_uses,
};
use crate::closing::{
    balanced, law_consistent_winding_is_balanced, law_hub_fans_close, lemma_balance_cycle,
    lemma_boundary_finite, lemma_concat_contains, loop_edges, simple_loops,
};
use crate::force::{boundary, trace};
use crate::holes::{loop_fans, simple_holes};
use crate::hubs::cycle_edges;
use crate::mesh::{
    all_proper, closed_manifold, edge_of, half_edges_of, in_range, lemma_half_edges_add,
    lemma_uses_add, lemma_uses_positive, lemma_uses_two, uses, Face,
};
use crate::pipeline::{with_fan_caps, with_hub_caps};
use crate::ranges::{lemma_add_keeps, lemma_loop_fans_range};
use vstd::prelude::*;

verus! {

/// Taking simple loops that share no half-edge out of a balanced set keeps the balance.
proof fn lemma_balance_loops(s: Set<(u32, u32)>, loops: Seq<Seq<u32>>)
    requires
        s.finite(),
        balanced(s),
        simple_loops(loops),
        loop_edges(loops).no_duplicates(),
        forall|d: (u32, u32)| #[trigger] loop_edges(loops).contains(d) ==> s.contains(d),
    ensures
        balanced(s.difference(loop_edges(loops).to_set())),
    decreases loops.len(),
{
    if loops.len() == 0 {
        assert(s.difference(loop_edges(loops).to_set()) =~= s);
    } else {
        let front = loops.drop_last();
        let c = loops.last();
        let a = loop_edges(front);
        let g = cycle_edges(c);
        let all = loop_edges(loops);
        assert(all == a + g);
        assert(loops[loops.len() - 1] == c);
        assert forall|d: (u32, u32)| #[trigger] all.contains(d) <==> a.contains(d) || g.contains(
            d,
        ) by {
            lemma_concat_contains(a, g, d);
        }
        assert(simple_loops(front)) by {
            assert forall|k: int| 0 <= k < front.len() implies (#[trigger] front[k]).len() >= 3
                && front[k].no_duplicates() by {
                assert(front[k] == loops[k]);
            }
        }
        assert(a.no_duplicates()) by {
            assert forall|i: int, j: int| 0 <= i < j < a.len() implies a[i] != a[j] by {
                assert(all[i] == a[i] && all[j] == a[j]);
            }
        }
        assert forall|d: (u32, u32)| #[trigger] a.contains(d) implies s.contains(d) by {
            assert(all.contains(d));
        }
        lemma_balance_loops(s, front);
        let s1 = s.difference(a.to_set());
        assert forall|d: (u32, u32)| #[trigger] g.contains(d) implies s1.contains(d) by {
            assert(all.contains(d));
            if a.contains(d) {
                let i = a.index_of(d);
                let j = g.index_of(d);
                assert(all[i] == d);
                assert(all[a.len() + j] == d);
            }
        }
        lemma_balance_cycle(s1, c);
        assert(s1.difference(g.to_set()) =~= s.difference(all.to_set())) by {
            assert forall|d: (u32, u32)| s1.difference(g.to_set()).contains(d) <==> s.difference(
                all.to_set(),
            ).contains(d) by {
                assert(all.contains(d) <==> a.contains(d) || g.contains(d));
            }
        }
    }
}

/// Fan caps that overload no edge take exactly the capped loops out of the boundary.
proof fn lemma_capped_boundary(faces: Seq<Face>)
    requires
        forall|e: (u32, u32)| #[trigger] uses(half_edges_of(with_fan_caps(faces)), e) <= 2,
    ensures
        boundary(half_edges_of(with_fan_caps(faces))) == boundary(half_edges_of(faces)).difference(
            loop_edges(simple_holes(faces)).to_set(),
        ),
{
    let h = half_edges_of(faces);
    let caps = loop_fans(simple_holes(faces));
    let full = with_fan_caps(faces);
    let hf = half_edges_of(full);
    let l = loop_edges(simple_holes(faces));
    lemma_half_edges_add(faces, caps);
    law_capped_loops_are_simple(faces);
    assert forall|d: (u32, u32)| boundary(hf).contains(d) <==> boundary(h).difference(
        l.to_set(),
    ).contains(d) by {
        let e = edge_of(d.0, d.1);
        law_fan_caps_uses(faces, e);
        law_fan_caps_open_nothing(faces, e);
        lemma_uses_add(h, half_edges_of(caps), e);
        lemma_uses_positive(l, e);
        lemma_uses_positive(half_edges_of(caps), e);
        assert(uses(hf, e) <= 2);
        lemma_concat_contains(h, half_edges_of(caps), d);
        if boundary(hf).contains(d) {
            if half_edges_of(caps).contains(d) {
                let i = half_edges_of(caps).index_of(d);
                assert(half_edges_of(caps)[i] == d);
            }
            if l.contains(d) {
                let i = l.index_of(d);
                assert(l[i] == d);
            }
        }
        if boundary(h).difference(l.to_set()).contains(d) {
            if uses(l, e) > 0 {
                let i = choose|i: int| 0 <= i < l.len() && edge_of((#[trigger] l[i]).0, l[i].1) == e;
                assert(l.contains(l[i]));
                let p = h.index_of(d);
                let q = h.index_of(l[i]);
                assert(h[p] == d && h[q] == l[i]);
                if p < q {
                    lemma_uses_two(h, p, q);
                }
                if q < p {
                    lemma_uses_two(h, q, p);
                }
                assert(l[i] == d);
            }
            assert(diagonals(simple_holes(faces), e) == 0);
        }
    }
    assert(boundary(hf) =~= boundary(h).difference(l.to_set()));
}

/// One round closes a mesh that is wound in one sense, where no half-edge occurs twice and no
/// edge has more than two, provided that the fan caps overload no edge: once the hub caps are
/// added as well, every edge has exactly two half-edges and the audit is clean.
pub proof fn law_round_closes_consistent_mesh(faces: Seq<Face>, base: int)
    requires
        0 <= base,
        in_range(faces, base),
        all_proper(faces),
        half_edges_of(faces).no_duplicates(),
        forall|e: (u32, u32)| #[trigger] uses(half_edges_of(faces), e) <= 2,
        forall|e: (u32, u32)| #[trigger] uses(half_edges_of(with_fan_caps(faces)), e) <= 2,
        base + trace(boundary(half_edges_of(with_fan_caps(faces)))).len() <= 0x1_0000_0000,
    ensures
        closed_manifold(with_hub_caps(with_fan_caps(faces), base)),
        open_edges(with_hub_caps(with_fan_caps(faces), base)).len() == 0,
        overloaded_edges(with_hub_caps(with_fan_caps(faces), base)).len() == 0,
{
    let full = with_fan_caps(faces);
    law_consistent_winding_is_balanced(faces);
    law_capped_loops_are_simple(faces);
    lemma_boundary_finite(half_edges_of(faces));
    lemma_balance_loops(boundary(half_edges_of(faces)), simple_holes(faces));
    lemma_capped_boundary(faces);
    lemma_loop_fans_range(faces, base);
    lemma_add_keeps(faces, loop_fans(simple_holes(faces)), base);
    law_hub_fans_close(full, base);
    law_audit_is_clean_iff_closed(with_hub_caps(full, base));
}

} // verus!
