//! The report is complete: what is not counted was not done.
use crate::audit::{is_clear, stripped};
use crate::clean::{distinct_faces, proper_faces};
use crate::debris::{debris, dropped, law_dropped_components_had_faces, Measure};
use crate::mesh::{half_edges_of, in_range, is_nondegenerate, Face};
use crate::orient::oriented;
use crate::pipeline::{after_debris, cleaned, with_fan_caps, with_hub_caps};
use crate::sealing::{law_sealing_counts_components, leaky, root_list, sealed};
use crate::weld::{cell_reps, lemma_settled_range, merged, remapped, settled, welded, Cell};
use vstd::prelude::*;

verus! {

/// A filter that shortens nothing changes nothing.
proof fn lemma_filter_same_len(faces: Seq<Face>, keep: spec_fn(Face) -> bool)
    ensures
        faces.filter(keep).len() <= faces.len(),
        faces.filter(keep).len() == faces.len() ==> faces.filter(keep) == faces,
    decreases faces.len(),
{
    reveal(Seq::filter);
    if faces.len() > 0 {
        lemma_filter_same_len(faces.drop_last(), keep);
        assert(faces.drop_last().push(faces.last()) =~= faces);
    } else {
        assert(faces.filter(keep) =~= faces);
    }
}

proof fn lemma_distinct_same_len(faces: Seq<Face>)
    ensures
        distinct_faces(faces).len() <= faces.len(),
        distinct_faces(faces).len() == faces.len() ==> distinct_faces(faces) == faces,
    decreases faces.len(),
{
    if faces.len() > 0 {
        lemma_distinct_same_len(faces.drop_last());
        assert(faces.drop_last().push(faces.last()) =~= faces);
    } else {
        assert(distinct_faces(faces) =~= faces);
    }
}

/// Where the stages before the first cap count nothing, they changed nothing.
pub proof fn law_clean_up_counts_every_edit(cells: Seq<Cell>, faces: Seq<Face>)
    requires
        cells.len() <= 0x1_0000_0000,
        in_range(proper_faces(faces), cells.len() as int),
        ({
            let f1 = proper_faces(faces);
            let rep = settled(f1, cell_reps(cells));
            let f2 = welded(f1, rep);
            let f3 = distinct_faces(f2);
            &&& faces.len() - f2.len() == 0
            &&& merged(rep).len() == 0
            &&& f2.len() - f3.len() == 0
            &&& f3.len() - stripped(f3).len() == 0
        }),
    ensures
        cleaned(cells, faces) == faces,
        stripped(cleaned(cells, faces)) == faces,
{
    let f1 = proper_faces(faces);
    let rep = settled(f1, cell_reps(cells));
    let mapped = f1.map_values(|f: Face| remapped(f, rep));
    let f2 = welded(f1, rep);
    let f3 = distinct_faces(f2);
    lemma_filter_same_len(faces, |f: Face| is_nondegenerate(f));
    lemma_filter_same_len(mapped, |f: Face| is_nondegenerate(f));
    lemma_distinct_same_len(f2);
    lemma_filter_same_len(f3, |f: Face| is_clear(half_edges_of(f3), f));
    lemma_settled_range(cells, f1);
    let all = vstd::set_lib::set_int_range(0, rep.len() as int);
    vstd::set_lib::lemma_int_range(0, rep.len() as int);
    assert(merged(rep).subset_of(all));
    vstd::set_lib::lemma_set_subset_finite(all, merged(rep));
    assert(merged(rep) =~= Set::empty());
    assert forall|i: int| 0 <= i < f1.len() implies #[trigger] mapped[i] == f1[i] by {
        assert(f1[i][0] < cells.len() && f1[i][1] < cells.len() && f1[i][2] < cells.len());
        assert(!merged(rep).contains(f1[i][0] as int));
        assert(!merged(rep).contains(f1[i][1] as int));
        assert(!merged(rep).contains(f1[i][2] as int));
        assert(remapped(f1[i], rep) =~= f1[i]);
    }
    assert(mapped =~= f1);
}

/// Where a round drops no component and adds no cap, it leaves the faces as they are once the
/// overloaded edges are cut. Where no component is dropped for not being closed, and no shell is
/// turned, the faces stay as they are too.
pub proof fn law_rounds_count_every_edit(
    faces: Seq<Face>,
    roots: Seq<usize>,
    has_area: bool,
    areas: Seq<Measure>,
    floor: u64,
    base: int,
)
    requires
        roots.len() == faces.len(),
    ensures
        dropped(roots, areas, floor).len() == 0 ==> after_debris(
            faces,
            roots,
            has_area,
            areas,
            floor,
        ) == faces,
        with_fan_caps(faces).len() - faces.len() == 0 ==> with_fan_caps(faces) == faces,
        with_hub_caps(faces, base).len() - faces.len() == 0 ==> with_hub_caps(faces, base) == faces,
        leaky(faces, root_list(faces)).len() == 0 ==> sealed(faces) == faces,
        oriented(faces, roots, Set::empty()) == faces,
{
    law_dropped_components_had_faces(faces, roots, debris(areas, floor));
    law_sealing_counts_components(faces);
    if with_fan_caps(faces).len() == faces.len() {
        assert(with_fan_caps(faces) =~= faces);
    }
    if with_hub_caps(faces, base).len() == faces.len() {
        assert(with_hub_caps(faces, base) =~= faces);
    }
    assert(oriented(faces, roots, Set::empty()) =~= faces);
}

} // verus!
