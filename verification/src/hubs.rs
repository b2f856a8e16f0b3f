//! Fans of faces around a hub, one for each boundary loop, and what they do to the edges.
use crate::force::{boundary, force_loops, trace, views};
use crate::mesh::{half_edges_of, Face};
use vstd::prelude::*;

verus! {

/// The vertex after place `w` of a cycle; after the last one comes the first.
pub open spec fn after(cycle: Seq<u32>, w: int) -> u32 {
    if w + 1 < cycle.len() {
        cycle[w + 1]
    } else {
        cycle[0]
    }
}

/// The half-edges of a cycle, each vertex to the one after it.
pub open spec fn cycle_edges(cycle: Seq<u32>) -> Seq<(u32, u32)> {
    Seq::new(cycle.len(), |w: int| (cycle[w], after(cycle, w)))
}

/// A fan around a hub: one face on each half-edge of the cycle, wound against it.
pub open spec fn hub_fan(hub: u32, cycle: Seq<u32>) -> Seq<Face> {
    Seq::new(cycle.len(), |w: int| [hub, after(cycle, w), cycle[w]])
}

/// The fans of a list of loops, whose hubs are numbered from `base` on.
pub open spec fn hub_fans(base: int, loops: Seq<Seq<u32>>) -> Seq<Face>
    decreases loops.len(),
{
    if loops.len() == 0 {
        Seq::empty()
    } else {
        hub_fans(base, loops.drop_last()) + hub_fan(
            (base + loops.len() - 1) as u32,
            loops.last(),
        )
    }
}

/// The faces that close the loops, with hubs numbered from `base` on.
pub fn hub_caps(loops: &Vec<Vec<u32>>, base: u32) -> (fill: Vec<Face>)
    requires
        base + loops@.len() <= 0x1_0000_0000,
    ensures
        fill@ == hub_fans(base as int, views(loops@)),
{
    let mut fill: Vec<Face> = Vec::new();
    let ghost all = views(loops@);
    for k in 0..loops.len()
        invariant
            base + loops@.len() <= 0x1_0000_0000,
            all == views(loops@),
            fill@ == hub_fans(base as int, all.take(k as int)),
    {
        let cycle = &loops[k];
        let hub = base + k as u32;
        let n = cycle.len();
        let ghost done = fill@;
        for w in 0..n
            invariant
                n == cycle@.len(),
                fill@ == done + hub_fan(hub, cycle@).take(w as int),
        {
            let a = cycle[w];
            let b = if w + 1 < n {
                cycle[w + 1]
            } else {
                cycle[0]
            };
            fill.push([hub, b, a]);
            assert(fill@ =~= done + hub_fan(hub, cycle@).take(w + 1));
        }
        proof {
            assert(hub_fan(hub, cycle@).take(n as int) =~= hub_fan(hub, cycle@));
            assert(all.take(k + 1).drop_last() =~= all.take(k as int));
            assert(all.take(k + 1).last() == cycle@);
        }
    }
    assert(all.take(loops.len() as int) =~= all);
    fill
}

/// Closes every boundary loop, frayed ones included, with a fan around a fresh hub. Hands out
/// the loops (hub `base + k` belongs at the centroid of loop `k`), the faces of the fans, and
/// how many loops were closed.
pub fn cap_faces_force(faces: &[Face], base: u32) -> (r: (Vec<Vec<u32>>, Vec<Face>, usize))
    requires
        base + trace(boundary(half_edges_of(faces@))).len() <= 0x1_0000_0000,
    ensures
        views(r.0@) == trace(boundary(half_edges_of(faces@))),
        r.1@ == hub_fans(base as int, trace(boundary(half_edges_of(faces@)))),
        r.2 == trace(boundary(half_edges_of(faces@))).len(),
{
    let loops = force_loops(faces);
    assert(views(loops@).len() == loops@.len());
    let fill = hub_caps(&loops, base);
    let holes = loops.len();
    (loops, fill, holes)
}

} // verus!
