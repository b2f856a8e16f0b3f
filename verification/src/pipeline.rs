//! The repair pipeline. Geometry is measured outside: each stage stops where a measurement is
//! needed, and goes on when it is handed in.
use crate::audit::{
    edge_audit, law_audit_is_clean_iff_closed, law_strip_keeps_clean_mesh, lemma_filter_all,
    open_edges, overloaded_edges, strip_nonmanifold, stripped,
};
use crate::clean::{
    corners, distinct_faces, drop_degenerate, drop_duplicates, law_distinct_list_is_kept,
    proper_faces,
};
use crate::compact::{compact, law_compact_keeps_closed, renumbers, used_vertices, Point};
use crate::components::{component_roots, components};
use crate::debris::{
    debris, drop_small_components, dropped, law_dropped_components_had_faces,
    law_no_debris_keeps_all, without, Measure,
};
use crate::force::{boundary, force_loops, trace, views};
use crate::holes::{cap_faces, is_simple_hole, lemma_boundary_holes, loop_fans, simple_holes};
use crate::hubs::{after, hub_caps, hub_fans};
use crate::mesh::{
    all_proper, closed_manifold, edge_of, half_edges_of, in_range, is_nondegenerate, uses, Face,
};
use crate::orient::{law_orient_keeps_closed, orient_shells, oriented};
use crate::ranges::{
    lemma_add_keeps, lemma_hub_fans_range, lemma_loop_fans_range, lemma_oriented_range,
    lemma_part_range, lemma_stripped_part, lemma_distinct_part, lemma_welded_range,
    lemma_without_part,
};
use crate::sealing::{
    law_closed_mesh_is_kept, law_sealed_mesh_is_closed, law_sealing_counts_components, leaky,
    root_list, seal, sealed,
};
use crate::weld::{
    cell_reps, law_weld_keeps_distinct_vertices, lemma_settled_range, merged, remapped, settled,
    weld_faces, weld_map, welded, Cell,
};
use vstd::prelude::*;

verus! {

/// Everything the pipeline did, and what the result looks like.
#[derive(Clone, Copy, Debug, PartialEq, Eq)]
pub struct RepairReport {
    pub degenerate_dropped: usize,
    pub welded: usize,
    pub duplicate_faces_dropped: usize,
    pub nonmanifold_faces_removed: usize,
    pub components_dropped: usize,
    pub holes_filled: usize,
    pub cap_faces_added: usize,
    pub shells_flipped: usize,
    pub open_edges_left: usize,
    pub nonmanifold_edges_left: usize,
    pub closed: bool,
}

/// What the stages so far did. Counts that run over the rounds stop at the largest `usize`.
#[derive(Clone, Copy, Debug, PartialEq, Eq)]
pub struct Totals {
    pub degenerate_dropped: usize,
    pub welded: usize,
    pub duplicate_faces_dropped: usize,
    pub nonmanifold_faces_removed: usize,
    pub components_dropped: usize,
    pub holes_filled: usize,
    pub cap_faces_added: usize,
}

/// How many rounds of cutting and capping there are at most.
pub const MAX_ROUNDS: u8 = 6;

/// The vertices can be numbered, every face has three different corners and all are vertices.
pub open spec fn valid_mesh(verts: Seq<Point>, faces: Seq<Face>) -> bool {
    verts.len() <= 0x1_0000_0000 && in_range(faces, verts.len() as int) && all_proper(faces)
}

/// The roots are the components of the faces.
pub open spec fn roots_match(roots: Seq<usize>, faces: Seq<Face>) -> bool {
    roots.len() == faces.len() && forall|f: int|
        0 <= f < faces.len() ==> #[trigger] roots[f] == component_roots(faces)[f]
}

/// None of the totals that run over the rounds has reached its limit.
pub open spec fn below_limit(t: Totals) -> bool {
    t.nonmanifold_faces_removed < usize::MAX && t.components_dropped < usize::MAX
        && t.cap_faces_added < usize::MAX
}

/// The books balance: of the faces that came in and the caps that were added, each is left, or
/// was dropped as degenerate or duplicate, or was cut, or went with a dropped component, which
/// took one face at least.
pub open spec fn accounts(input: int, left: int, t: Totals) -> bool {
    below_limit(t) ==> {
        let seen = left + t.degenerate_dropped + t.duplicate_faces_dropped
            + t.nonmanifold_faces_removed;
        &&& seen + t.components_dropped <= input + t.cap_faces_added
        &&& t.components_dropped == 0 ==> seen == input + t.cap_faces_added
    }
}

/// The totals that a report gives.
pub open spec fn totals_of(r: RepairReport) -> Totals {
    Totals {
        degenerate_dropped: r.degenerate_dropped,
        welded: r.welded,
        duplicate_faces_dropped: r.duplicate_faces_dropped,
        nonmanifold_faces_removed: r.nonmanifold_faces_removed,
        components_dropped: r.components_dropped,
        holes_filled: r.holes_filled,
        cap_faces_added: r.cap_faces_added,
    }
}

/// A round has begun: overloaded edges are cut, and the areas of the components are needed.
#[derive(Debug, PartialEq, Eq)]
pub struct AwaitAreas {
    input: usize,
    verts: Vec<Point>,
    faces: Vec<Face>,
    roots: Vec<usize>,
    round: u8,
    totals: Totals,
}

/// The simple holes are capped, and a place is needed for the hub of each loop.
#[derive(Debug, PartialEq, Eq)]
pub struct AwaitHubs {
    input: usize,
    verts: Vec<Point>,
    faces: Vec<Face>,
    loops: Vec<Vec<u32>>,
    round: u8,
    totals: Totals,
}

/// The rounds are over, every component that is left is closed, and the shells that face inward
/// are needed.
#[derive(Debug, PartialEq, Eq)]
pub struct AwaitVolumes {
    input: usize,
    verts: Vec<Point>,
    faces: Vec<Face>,
    roots: Vec<usize>,
    totals: Totals,
}

/// What follows a round: another one, or the last stage.
#[derive(Debug, PartialEq, Eq)]
pub enum Next {
    Again(AwaitAreas),
    Orient(AwaitVolumes),
}

/// What `AwaitAreas` amounts to. `input` counts the faces that came in.
pub struct AreasModel {
    pub input: int,
    pub verts: Seq<Point>,
    pub faces: Seq<Face>,
    pub roots: Seq<usize>,
    pub round: int,
    pub totals: Totals,
}

/// What `AwaitHubs` amounts to.
pub struct HubsModel {
    pub input: int,
    pub verts: Seq<Point>,
    pub faces: Seq<Face>,
    pub loops: Seq<Seq<u32>>,
    pub round: int,
    pub totals: Totals,
}

/// What `AwaitVolumes` amounts to.
pub struct VolumesModel {
    pub input: int,
    pub verts: Seq<Point>,
    pub faces: Seq<Face>,
    pub roots: Seq<usize>,
    pub totals: Totals,
}

impl AreasModel {
    pub open spec fn wf(self) -> bool {
        &&& valid_mesh(self.verts, self.faces)
        &&& roots_match(self.roots, self.faces)
        &&& 1 <= self.round <= MAX_ROUNDS
        &&& accounts(self.input, self.faces.len() as int, self.totals)
    }
}

impl HubsModel {
    pub open spec fn wf(self) -> bool {
        &&& valid_mesh(self.verts, self.faces)
        &&& self.loops == trace(boundary(half_edges_of(self.faces)))
        &&& 1 <= self.round <= MAX_ROUNDS
        &&& accounts(self.input, self.faces.len() as int, self.totals)
    }
}

impl VolumesModel {
    pub open spec fn wf(self) -> bool {
        &&& valid_mesh(self.verts, self.faces)
        &&& roots_match(self.roots, self.faces)
        &&& closed_manifold(self.faces)
        &&& accounts(self.input, self.faces.len() as int, self.totals)
    }
}

impl View for AwaitAreas {
    type V = AreasModel;

    closed spec fn view(&self) -> AreasModel {
        AreasModel {
            input: self.input as int,
            verts: self.verts@,
            faces: self.faces@,
            roots: self.roots@,
            round: self.round as int,
            totals: self.totals,
        }
    }
}

impl View for AwaitHubs {
    type V = HubsModel;

    closed spec fn view(&self) -> HubsModel {
        HubsModel {
            input: self.input as int,
            verts: self.verts@,
            faces: self.faces@,
            loops: views(self.loops@),
            round: self.round as int,
            totals: self.totals,
        }
    }
}

impl View for AwaitVolumes {
    type V = VolumesModel;

    closed spec fn view(&self) -> VolumesModel {
        VolumesModel {
            input: self.input as int,
            verts: self.verts@,
            faces: self.faces@,
            roots: self.roots@,
            totals: self.totals,
        }
    }
}

impl AwaitAreas {
    #[verifier::type_invariant]
    spec fn inv(self) -> bool {
        self@.wf()
    }

    /// The vertices.
    pub fn verts(&self) -> (r: &Vec<Point>)
        ensures
            r@ == self@.verts,
    {
        &self.verts
    }

    /// The faces.
    pub fn faces(&self) -> (r: &Vec<Face>)
        ensures
            r@ == self@.faces,
    {
        &self.faces
    }

    /// The component of each face.
    pub fn roots(&self) -> (r: &Vec<usize>)
        ensures
            r@ == self@.roots,
            r@.len() == self@.faces.len(),
    {
        proof {
            use_type_invariant(self);
        }
        &self.roots
    }

    /// Which round this is, counted from one.
    pub fn round(&self) -> (r: u8)
        ensures
            r == self@.round,
            1 <= r <= MAX_ROUNDS,
    {
        proof {
            use_type_invariant(self);
        }
        self.round
    }
}

impl AwaitHubs {
    #[verifier::type_invariant]
    spec fn inv(self) -> bool {
        self@.wf()
    }

    /// The vertices.
    pub fn verts(&self) -> (r: &Vec<Point>)
        ensures
            r@ == self@.verts,
    {
        &self.verts
    }

    /// The faces.
    pub fn faces(&self) -> (r: &Vec<Face>)
        ensures
            r@ == self@.faces,
    {
        &self.faces
    }

    /// The loops that need a hub.
    pub fn loops(&self) -> (r: &Vec<Vec<u32>>)
        ensures
            views(r@) == self@.loops,
    {
        &self.loops
    }
}

impl AwaitVolumes {
    #[verifier::type_invariant]
    spec fn inv(self) -> bool {
        self@.wf()
    }

    /// The vertices.
    pub fn verts(&self) -> (r: &Vec<Point>)
        ensures
            r@ == self@.verts,
    {
        &self.verts
    }

    /// The faces.
    pub fn faces(&self) -> (r: &Vec<Face>)
        ensures
            r@ == self@.faces,
    {
        &self.faces
    }

    /// The component of each face.
    pub fn roots(&self) -> (r: &Vec<usize>)
        ensures
            r@ == self@.roots,
            r@.len() == self@.faces.len(),
    {
        proof {
            use_type_invariant(self);
        }
        &self.roots
    }
}

/// How many vertices are merged into another.
fn count_merged(rep: &Vec<u32>) -> (n: usize)
    requires
        rep@.len() <= 0x1_0000_0000,
    ensures
        n == merged(rep@).len(),
{
    let mut n: usize = 0;
    assert(merged(rep@.take(0)) =~= Set::empty());
    for i in 0..rep.len()
        invariant
            rep@.len() <= 0x1_0000_0000,
            n <= i,
            merged(rep@.take(i as int)).finite(),
            n == merged(rep@.take(i as int)).len(),
    {
        let ghost a = merged(rep@.take(i as int));
        let ghost b = merged(rep@.take(i + 1));
        if rep[i] != i as u32 {
            proof {
                assert(b =~= a.insert(i as int));
                assert(!a.contains(i as int));
            }
            n = n + 1;
        } else {
            proof {
                assert(b =~= a);
            }
        }
    }
    assert(rep@.take(rep@.len() as int) =~= rep@);
    n
}

/// The faces once repeated corners, merges and repeated faces are dealt with.
pub open spec fn cleaned(cells: Seq<Cell>, faces: Seq<Face>) -> Seq<Face> {
    distinct_faces(
        welded(proper_faces(faces), settled(proper_faces(faces), cell_reps(cells))),
    )
}

/// Starts the repair: drops degenerate faces, welds vertices that share a grid cell, drops
/// duplicate faces, and begins the first round by cutting the faces on overloaded edges.
pub fn repair_mesh(verts: Vec<Point>, cells: &Vec<Cell>, faces0: &[Face]) -> (r: AwaitAreas)
    requires
        verts@.len() <= 0x1_0000_0000,
        cells@.len() == verts@.len(),
        in_range(proper_faces(faces0@), verts@.len() as int),
    ensures
        r@.wf(),
        r@.input == faces0@.len(),
        r@.verts == verts@,
        r@.faces == stripped(cleaned(cells@, faces0@)),
        r@.round == 1,
        ({
            let f1 = proper_faces(faces0@);
            let rep = settled(f1, cell_reps(cells@));
            let f2 = welded(f1, rep);
            let f3 = distinct_faces(f2);
            &&& r@.faces == stripped(f3)
            &&& r@.totals.degenerate_dropped == faces0@.len() - f2.len()
            &&& r@.totals.welded == merged(rep).len()
            &&& r@.totals.duplicate_faces_dropped == f2.len() - f3.len()
            &&& r@.totals.nonmanifold_faces_removed == f3.len() - stripped(f3).len()
            &&& r@.totals.components_dropped == 0
            &&& r@.totals.holes_filled == 0
            &&& r@.totals.cap_faces_added == 0
        }),
{
    let f1 = drop_degenerate(faces0);
    let rep = weld_map(cells, f1.as_slice());
    let merges = count_merged(&rep);
    let f2 = weld_faces(f1.as_slice(), &rep);
    proof {
        lemma_welded_range(cells@, f1@);
    }
    let mut faces = drop_duplicates(f2.as_slice());
    let ghost f3 = faces@;
    let duplicates = f2.len() - faces.len();
    let cut = strip_nonmanifold(&mut faces);
    proof {
        lemma_distinct_part(f2@);
        lemma_part_range(f3, f2@, verts@.len() as int);
        lemma_stripped_part(f3);
        lemma_part_range(faces@, f3, verts@.len() as int);
    }
    let roots = components(faces.as_slice());
    AwaitAreas {
        input: faces0.len(),
        verts,
        faces,
        roots,
        round: 1,
        totals: Totals {
            degenerate_dropped: faces0.len() - f2.len(),
            welded: merges,
            duplicate_faces_dropped: duplicates,
            nonmanifold_faces_removed: cut,
            components_dropped: 0,
            holes_filled: 0,
            cap_faces_added: 0,
        },
    }
}

/// The faces once the debris is dropped.
pub open spec fn after_debris(
    faces: Seq<Face>,
    roots: Seq<usize>,
    has_area: bool,
    areas: Seq<Measure>,
    floor: u64,
) -> Seq<Face> {
    if faces.len() > 0 && has_area {
        without(faces, roots, debris(areas, floor))
    } else {
        faces
    }
}

/// The faces with their simple holes capped.
pub open spec fn with_fan_caps(faces: Seq<Face>) -> Seq<Face> {
    faces + loop_fans(simple_holes(faces))
}

/// The faces with all their boundary loops closed around hubs that are numbered from `base` on.
pub open spec fn with_hub_caps(faces: Seq<Face>, base: int) -> Seq<Face> {
    faces + hub_fans(base, trace(boundary(half_edges_of(faces))))
}

impl AwaitAreas {
    /// Takes the areas of the components, each as a number that grows with the area, and the
    /// floor in the same numbers; `has_area` says whether the mesh has any area at all. Drops the
    /// debris, caps the simple holes, and finds the loops that are left.
    pub fn areas_measured(self, has_area: bool, areas: &Vec<Measure>, floor: u64) -> (r: AwaitHubs)
        ensures
            r@.wf(),
            r@.input == self@.input,
            r@.verts == self@.verts,
            r@.round == self@.round,
            ({
                let kept = after_debris(self@.faces, self@.roots, has_area, areas@, floor);
                let t = self@.totals;
                &&& r@.faces == with_fan_caps(kept)
                &&& r@.faces == kept + loop_fans(simple_holes(kept))
                &&& r@.totals == (Totals {
                    components_dropped: t.components_dropped.saturating_add(
                        if self@.faces.len() > 0 && has_area {
                            dropped(self@.roots, areas@, floor).len() as usize
                        } else {
                            0
                        },
                    ),
                    holes_filled: t.holes_filled.saturating_add(simple_holes(kept).len() as usize),
                    cap_faces_added: t.cap_faces_added.saturating_add(
                        loop_fans(simple_holes(kept)).len() as usize,
                    ),
                    ..t
                })
            }),
            self@.faces.len() > 0 && has_area ==> dropped(self@.roots, areas@, floor).len()
                <= usize::MAX,
    {
        proof {
            use_type_invariant(&self);
        }
        let AwaitAreas { input, verts, faces, roots, round, totals } = self;
        let mut faces = faces;
        let mut totals = totals;
        let ghost n = verts@.len() as int;
        let ghost f0 = faces@;
        let gone = drop_small_components(&mut faces, &roots, has_area, areas, floor);
        proof {
            if f0.len() > 0 && has_area {
                law_dropped_components_had_faces(f0, roots@, debris(areas@, floor));
                lemma_without_part(f0, roots@, debris(areas@, floor));
                lemma_part_range(faces@, f0, n);
            }
        }
        totals.components_dropped = totals.components_dropped.saturating_add(gone);
        let (mut caps, holes) = cap_faces(faces.as_slice());
        proof {
            lemma_loop_fans_range(faces@, n);
            lemma_add_keeps(faces@, caps@, n);
        }
        totals.holes_filled = totals.holes_filled.saturating_add(holes);
        totals.cap_faces_added = totals.cap_faces_added.saturating_add(caps.len());
        faces.append(&mut caps);
        let loops = force_loops(faces.as_slice());
        AwaitHubs { input, verts, faces, loops, round, totals }
    }
}

impl AwaitHubs {
    /// Takes the hub of each loop, closes the loops around them, and audits the result. A clean
    /// mesh goes on to the last stage, and so does any mesh after the last round, without the
    /// components that are still not closed; otherwise the next round begins by cutting the faces
    /// on overloaded edges.
    pub fn hubs_placed(self, hubs: &Vec<Point>) -> (r: Next)
        requires
            hubs@.len() == self@.loops.len(),
            self@.verts.len() + self@.loops.len() <= 0x1_0000_0000,
        ensures
            ({
                let full = with_hub_caps(self@.faces, self@.verts.len() as int);
                let t = self@.totals;
                let grown = (Totals {
                    holes_filled: t.holes_filled.saturating_add(self@.loops.len() as usize),
                    cap_faces_added: t.cap_faces_added.saturating_add(
                        (full.len() - self@.faces.len()) as usize,
                    ),
                    ..t
                });
                let clean = open_edges(full).len() == 0 && overloaded_edges(full).len() == 0;
                &&& full == self@.faces + hub_fans(self@.verts.len() as int, self@.loops)
                &&& match r {
                    Next::Orient(v) => {
                        &&& clean || self@.round == 6
                        &&& clean || self@.round == MAX_ROUNDS
                        &&& v@.wf()
                        &&& v@.input == self@.input
                        &&& v@.verts == self@.verts + hubs@
                        &&& v@.faces == sealed(full)
                        &&& v@.totals == (Totals {
                            components_dropped: grown.components_dropped.saturating_add(
                                leaky(full, root_list(full)).len() as usize,
                            ),
                            ..grown
                        })
                    },
                    Next::Again(a) => {
                        &&& !clean && self@.round < 6
                        &&& !clean && self@.round < MAX_ROUNDS
                        &&& a@.wf()
                        &&& a@.input == self@.input
                        &&& a@.verts == self@.verts + hubs@
                        &&& a@.faces == stripped(full)
                        &&& a@.round == self@.round + 1
                        &&& a@.totals == (Totals {
                            nonmanifold_faces_removed: grown.nonmanifold_faces_removed.saturating_add(
                                (full.len() - stripped(full).len()) as usize,
                            ),
                            ..grown
                        })
                    },
                }
            }),
    {
        proof {
            use_type_invariant(&self);
        }
        let AwaitHubs { input, verts, faces, loops, round, totals } = self;
        let mut verts = verts;
        let mut faces = faces;
        let mut totals = totals;
        let ghost before = verts@;
        let ghost base = verts@.len() as int;
        let ghost f0 = faces@;
        proof {
            assert(views(loops@).len() == loops@.len());
            lemma_hub_fans_range(f0, base);
        }
        let mut fill: Vec<Face> = Vec::new();
        if loops.len() > 0 {
            fill = hub_caps(&loops, verts.len() as u32);
        } else {
            assert(fill@ =~= hub_fans(base, views(loops@)));
        }
        let ghost n = base + loops@.len();
        for i in 0..hubs.len()
            invariant
                verts@ == before + hubs@.take(i as int),
        {
            verts.push(hubs[i]);
            assert(verts@ =~= before + hubs@.take(i + 1));
        }
        assert(hubs@.take(hubs@.len() as int) =~= hubs@);
        totals.holes_filled = totals.holes_filled.saturating_add(loops.len());
        totals.cap_faces_added = totals.cap_faces_added.saturating_add(fill.len());
        proof {
            assert forall|i: int, k: int| 0 <= i < f0.len() && 0 <= k < 3 implies #[trigger] f0[i][k]
                < n by {
                assert(f0[i][k] < base);
            }
            lemma_add_keeps(f0, fill@, n);
        }
        faces.append(&mut fill);
        let ghost full = faces@;
        let (open, over) = edge_audit(faces.as_slice());
        if open == 0 && over == 0 || round >= MAX_ROUNDS {
            let roots = components(faces.as_slice());
            assert(roots@ =~= root_list(full));
            let dropped = seal(&mut faces, &roots);
            totals.components_dropped = totals.components_dropped.saturating_add(dropped);
            proof {
                lemma_without_part(full, roots@, leaky(full, roots@));
                lemma_part_range(faces@, full, n);
                law_sealed_mesh_is_closed(full);
                law_sealing_counts_components(full);
            }
            let roots = components(faces.as_slice());
            Next::Orient(AwaitVolumes { input, verts, faces, roots, totals })
        } else {
            let cut = strip_nonmanifold(&mut faces);
            totals.nonmanifold_faces_removed = totals.nonmanifold_faces_removed.saturating_add(cut);
            proof {
                lemma_stripped_part(full);
                lemma_part_range(faces@, full, n);
            }
            let roots = components(faces.as_slice());
            Next::Again(AwaitAreas { input, verts, faces, roots, round: round + 1, totals })
        }
    }
}

impl AwaitVolumes {
    /// Takes the shells that face inward, by their roots. Turns them, audits the result, and
    /// moves it onto a fresh vertex list without orphans.
    pub fn volumes_measured(self, inward: &Vec<usize>) -> (r: (Vec<Point>, Vec<Face>, RepairReport))
        ensures
            ({
                let turned = oriented(self@.faces, self@.roots, inward@.to_set());
                let t = self@.totals;
                &&& r.0@ == used_vertices(turned).map_values(|v: u32| self@.verts[v as int])
                &&& renumbers(turned, r.1@)
                &&& r.2.degenerate_dropped == t.degenerate_dropped
                &&& r.2.welded == t.welded
                &&& r.2.duplicate_faces_dropped == t.duplicate_faces_dropped
                &&& r.2.nonmanifold_faces_removed == t.nonmanifold_faces_removed
                &&& r.2.components_dropped == t.components_dropped
                &&& r.2.holes_filled == t.holes_filled
                &&& r.2.cap_faces_added == t.cap_faces_added
                &&& r.2.shells_flipped == (if turned.len() == 0 {
                    0
                } else {
                    inward@.to_set().len()
                })
                &&& r.2.open_edges_left == open_edges(turned).len()
                &&& r.2.nonmanifold_edges_left == overloaded_edges(turned).len()
                &&& r.2.closed == (turned.len() > 0 && open_edges(turned).len() == 0
                    && overloaded_edges(turned).len() == 0)
            }),
            in_range(r.1@, r.0@.len() as int),
            closed_manifold(r.1@),
            r.1@.len() > 0 ==> r.2.closed,
            r.2.closed <==> r.1@.len() > 0 && closed_manifold(r.1@),
            r.2.open_edges_left == open_edges(r.1@).len(),
            r.2.nonmanifold_edges_left == overloaded_edges(r.1@).len(),
            accounts(self@.input, r.1@.len() as int, totals_of(r.2)),
    {
        proof {
            use_type_invariant(&self);
        }
        let AwaitVolumes { input: _, verts, faces, roots, totals } = self;
        let mut faces = faces;
        let ghost n = verts@.len() as int;
        let ghost f0 = faces@;
        let flips = orient_shells(&mut faces, &roots, inward);
        proof {
            lemma_oriented_range(f0, roots@, inward@.to_set(), n);
        }
        let (open, over) = edge_audit(faces.as_slice());
        let (out_verts, out_faces) = compact(&verts, &faces);
        proof {
            law_orient_keeps_closed(f0, roots@, inward@.to_set());
            law_audit_is_clean_iff_closed(faces@);
            law_compact_keeps_closed(faces@, out_faces@);
            law_audit_is_clean_iff_closed(out_faces@);
        }
        let report = RepairReport {
            degenerate_dropped: totals.degenerate_dropped,
            welded: totals.welded,
            duplicate_faces_dropped: totals.duplicate_faces_dropped,
            nonmanifold_faces_removed: totals.nonmanifold_faces_removed,
            components_dropped: totals.components_dropped,
            holes_filled: totals.holes_filled,
            cap_faces_added: totals.cap_faces_added,
            shells_flipped: flips,
            open_edges_left: open,
            nonmanifold_edges_left: over,
            closed: !faces.is_empty() && open == 0 && over == 0,
        };
        (out_verts, out_faces, report)
    }
}

/// A mesh with nothing to repair: no two vertices in one cell, no face that repeats a corner or
/// another face, and every edge between exactly two faces.
pub open spec fn is_sound(cells: Seq<Cell>, faces: Seq<Face>) -> bool {
    &&& cells.len() <= 0x1_0000_0000
    &&& cells.no_duplicates()
    &&& in_range(faces, cells.len() as int)
    &&& all_proper(faces)
    &&& closed_manifold(faces)
    &&& forall|i: int, j: int|
        0 <= i < j < faces.len() ==> corners(#[trigger] faces[i]) != corners(#[trigger] faces[j])
}

/// The clean-up stages leave a sound mesh alone.
proof fn lemma_sound_weld(cells: Seq<Cell>, faces: Seq<Face>)
    requires
        cells.len() <= 0x1_0000_0000,
        cells.no_duplicates(),
        in_range(faces, cells.len() as int),
        all_proper(faces),
    ensures
        proper_faces(faces) == faces,
        merged(settled(faces, cell_reps(cells))).len() == 0,
        welded(faces, settled(faces, cell_reps(cells))) == faces,
{
    let rep = settled(faces, cell_reps(cells));
    lemma_filter_all(faces, |f: Face| is_nondegenerate(f));
    lemma_settled_range(cells, faces);
    assert forall|i: int| 0 <= i < rep.len() implies #[trigger] rep[i] == i by {
        law_weld_keeps_distinct_vertices(cells, faces, i);
    }
    assert(merged(rep) =~= Set::empty());
    let m = faces.map_values(|f: Face| remapped(f, rep));
    assert forall|i: int| 0 <= i < faces.len() implies #[trigger] m[i] == faces[i] by {
        assert(faces[i][0] < cells.len() && faces[i][1] < cells.len() && faces[i][2] < cells.len());
        assert(remapped(faces[i], rep) =~= faces[i]);
    }
    assert(m =~= faces);
}

/// A closed mesh has no holes.
proof fn lemma_closed_has_no_holes(faces: Seq<Face>, base: int)
    requires
        closed_manifold(faces),
    ensures
        simple_holes(faces).len() == 0,
        with_fan_caps(faces) == faces,
        trace(boundary(half_edges_of(faces))).len() == 0,
        with_hub_caps(faces, base) == faces,
{
    let h = half_edges_of(faces);
    assert(boundary(h) =~= Set::empty()) by {
        assert forall|d: (u32, u32)| !boundary(h).contains(d) by {
            assert(uses(h, edge_of(d.0, d.1)) == 0 || uses(h, edge_of(d.0, d.1)) == 2);
        }
    }
    assert(trace(boundary(h)) =~= Seq::<Seq<u32>>::empty());
    lemma_boundary_holes(faces);
    if simple_holes(faces).len() > 0 {
        let c = simple_holes(faces)[0];
        assert(simple_holes(faces).contains(c));
        assert(is_simple_hole(boundary(h), c));
        assert(boundary(h).contains((c[0], after(c, 0))));
    }
    assert(simple_holes(faces) =~= Seq::<Seq<u32>>::empty());
    assert(with_fan_caps(faces) =~= faces);
    assert(with_hub_caps(faces, base) =~= faces);
}

/// On a sound mesh whose components all reach the floor, every stage does nothing: no face is
/// dropped or cut, no vertex is merged, no component is debris, no hole is found, and the first
/// audit is clean.
pub proof fn law_sound_mesh_is_untouched(
    cells: Seq<Cell>,
    faces: Seq<Face>,
    roots: Seq<usize>,
    has_area: bool,
    areas: Seq<Measure>,
    floor: u64,
)
    requires
        is_sound(cells, faces),
        forall|i: int| 0 <= i < areas.len() ==> (#[trigger] areas[i]).1 >= floor,
    ensures
        after_debris(faces, roots, has_area, areas, floor) == faces,
        proper_faces(faces) == faces,
        merged(settled(faces, cell_reps(cells))).len() == 0,
        welded(faces, settled(faces, cell_reps(cells))) == faces,
        cleaned(cells, faces) == faces,
        stripped(faces) == faces,
        simple_holes(faces).len() == 0,
        with_fan_caps(faces) == faces,
        trace(boundary(half_edges_of(faces))).len() == 0,
        with_hub_caps(faces, cells.len() as int) == faces,
        sealed(faces) == faces,
        open_edges(faces).len() == 0,
        overloaded_edges(faces).len() == 0,
{
    lemma_sound_weld(cells, faces);
    law_distinct_list_is_kept(faces);
    law_audit_is_clean_iff_closed(faces);
    let h = half_edges_of(faces);
    assert forall|e: (u32, u32)| #[trigger] uses(h, e) <= 2 by {
        assert(uses(h, e) == 0 || uses(h, e) == 2);
    }
    law_strip_keeps_clean_mesh(faces);
    assert(debris(areas, floor) =~= Set::empty());
    law_no_debris_keeps_all(faces, roots);
    lemma_closed_has_no_holes(faces, cells.len() as int);
    law_closed_mesh_is_kept(faces);
}

} // verus!
