//! Dropping the components that are too small to matter.
use crate::mesh::Face;
use std::collections::HashSet;
use vstd::prelude::*;

verus! {

broadcast use vstd::std_specs::hash::group_hash_axioms;

/// A component, named by its root, and a number that grows with its area.
pub type Measure = (usize, u64);

/// Entry `b` is the biggest: none is above it, and none after it is level with it.
pub open spec fn is_biggest(areas: Seq<Measure>, b: int) -> bool {
    &&& 0 <= b < areas.len()
    &&& forall|i: int| 0 <= i < areas.len() ==> #[trigger] areas[i].1 <= areas[b].1
    &&& forall|i: int| b < i < areas.len() ==> #[trigger] areas[i].1 < areas[b].1
}

/// The components below the floor, except the biggest of all.
pub open spec fn debris(areas: Seq<Measure>, floor: u64) -> Set<usize> {
    Set::new(
        |r: usize|
            exists|i: int, b: int|
                0 <= i < areas.len() && #[trigger] is_biggest(areas, b) && (#[trigger] areas[i]).0
                    == r && areas[i].1 < floor && r != areas[b].0,
    )
}

/// The components that the debris takes with it.
pub open spec fn dropped(roots: Seq<usize>, areas: Seq<Measure>, floor: u64) -> Set<usize> {
    debris(areas, floor).intersect(roots.to_set())
}

/// The faces whose component is not dropped, in their order.
pub open spec fn without(faces: Seq<Face>, roots: Seq<usize>, dropped: Set<usize>) -> Seq<Face>
    decreases faces.len(),
{
    if faces.len() == 0 {
        Seq::empty()
    } else {
        let rest = without(faces.drop_last(), roots, dropped);
        if dropped.contains(roots[faces.len() - 1]) {
            rest
        } else {
            rest.push(faces.last())
        }
    }
}

proof fn lemma_biggest_unique(areas: Seq<Measure>, a: int, b: int)
    requires
        is_biggest(areas, a),
        is_biggest(areas, b),
    ensures
        a == b,
{
    if a < b {
        assert(areas[b].1 < areas[a].1);
        assert(areas[a].1 <= areas[b].1);
    }
    if b < a {
        assert(areas[a].1 < areas[b].1);
        assert(areas[b].1 <= areas[a].1);
    }
}

/// The entry of the biggest component.
fn biggest(areas: &Vec<Measure>) -> (b: usize)
    requires
        areas@.len() > 0,
    ensures
        is_biggest(areas@, b as int),
{
    let mut b: usize = 0;
    for i in 1..areas.len()
        invariant
            0 <= b < i <= areas@.len(),
            forall|j: int| 0 <= j < i ==> #[trigger] areas@[j].1 <= areas@[b as int].1,
            forall|j: int| b < j < i ==> #[trigger] areas@[j].1 < areas@[b as int].1,
    {
        if areas[i].1 >= areas[b].1 {
            b = i;
        }
    }
    b
}

/// The components below the floor, except the biggest of all.
fn find_debris(areas: &Vec<Measure>, floor: u64) -> (dropped: HashSet<usize>)
    ensures
        dropped@ == debris(areas@, floor),
{
    let mut dropped: HashSet<usize> = HashSet::new();
    if areas.len() > 0 {
        let b = biggest(areas);
        let top = areas[b].0;
        for i in 0..areas.len()
            invariant
                is_biggest(areas@, b as int),
                top == areas@[b as int].0,
                forall|r: usize| #[trigger]
                    dropped@.contains(r) <==> exists|j: int|
                        0 <= j < i && (#[trigger] areas@[j]).0 == r && areas@[j].1 < floor && r
                            != top,
        {
            let (r, s) = areas[i];
            let ghost before = dropped@;
            if s < floor && r != top {
                dropped.insert(r);
            }
            proof {
                assert forall|q: usize| #[trigger] dropped@.contains(q) <==> exists|j: int|
                    0 <= j < i + 1 && (#[trigger] areas@[j]).0 == q && areas@[j].1 < floor && q
                        != top by {
                    if before.contains(q) {
                        let j = choose|j: int|
                            0 <= j < i && (#[trigger] areas@[j]).0 == q && areas@[j].1 < floor && q
                                != top;
                        assert(areas@[j].0 == q);
                    }
                    if q == r && s < floor && r != top {
                        assert(areas@[i as int].0 == q);
                    }
                }
            }
        }
        proof {
            assert forall|r: usize| dropped@.contains(r) <==> debris(areas@, floor).contains(r) by {
                if dropped@.contains(r) {
                    let j = choose|j: int|
                        0 <= j < areas@.len() && (#[trigger] areas@[j]).0 == r && areas@[j].1
                            < floor && r != top;
                    assert(is_biggest(areas@, b as int) && areas@[j].0 == r);
                }
                if debris(areas@, floor).contains(r) {
                    let (j, c) = choose|i: int, b: int|
                        0 <= i < areas@.len() && #[trigger] is_biggest(areas@, b) && (
                        #[trigger] areas@[i]).0 == r && areas@[i].1 < floor && r != areas@[b].0;
                    lemma_biggest_unique(areas@, b as int, c);
                    assert(areas@[j].0 == r);
                }
            }
            assert(dropped@ =~= debris(areas@, floor));
        }
    } else {
        assert(dropped@ =~= debris(areas@, floor));
    }
    dropped
}

/// Drops the components whose area is below the floor, but never the biggest, and says how many
/// were dropped. `areas` measures each component by a number that grows with its area, as
/// `floor` measures the floor. A mesh without area is left alone.
pub fn drop_small_components(
    faces: &mut Vec<Face>,
    roots: &Vec<usize>,
    has_area: bool,
    areas: &Vec<Measure>,
    floor: u64,
) -> (n: usize)
    requires
        roots@.len() == old(faces)@.len(),
    ensures
        old(faces)@.len() > 0 && has_area ==> final(faces)@ == without(
            old(faces)@,
            roots@,
            debris(areas@, floor),
        ) && n == dropped(roots@, areas@, floor).len(),
        old(faces)@.len() == 0 || !has_area ==> final(faces)@ == old(faces)@ && n == 0,
{
    if faces.is_empty() || !has_area {
        return 0;
    }
    let small = find_debris(areas, floor);
    let ghost all = faces@;
    let mut kept: Vec<Face> = Vec::new();
    let mut gone: HashSet<usize> = HashSet::new();
    assert(gone@ =~= small@.intersect(roots@.take(0).to_set()));
    for i in 0..faces.len()
        invariant
            faces@ == all,
            roots@.len() == all.len(),
            kept@ == without(all.take(i as int), roots@, small@),
            gone@ == small@.intersect(roots@.take(i as int).to_set()),
    {
        proof {
            assert(all.take(i + 1).drop_last() =~= all.take(i as int));
            lemma_take_to_set(roots@, i as int);
        }
        if small.contains(&roots[i]) {
            gone.insert(roots[i]);
        } else {
            kept.push(faces[i]);
        }
        assert(gone@ =~= small@.intersect(roots@.take(i + 1).to_set()));
    }
    assert(all.take(all.len() as int) =~= all);
    assert(roots@.take(all.len() as int) =~= roots@);
    *faces = kept;
    gone.len()
}

/// One more entry of a list.
proof fn lemma_take_to_set(roots: Seq<usize>, i: int)
    requires
        0 <= i < roots.len(),
    ensures
        roots.take(i + 1).to_set() == roots.take(i).to_set().insert(roots[i]),
{
    let a = roots.take(i);
    let b = roots.take(i + 1);
    assert forall|r: usize| b.to_set().contains(r) <==> a.to_set().insert(roots[i]).contains(r) by {
        if a.contains(r) {
            let k = a.index_of(r);
            assert(b[k] == r);
        }
        if b.contains(r) {
            let k = b.index_of(r);
            if k < i {
                assert(a[k] == r);
            }
        }
        assert(b[i] == roots[i]);
    }
    assert(b.to_set() =~= a.to_set().insert(roots[i]));
}

proof fn lemma_without_prefix(faces: Seq<Face>, roots: Seq<usize>, gone: Set<usize>)
    requires
        faces.len() <= roots.len(),
    ensures
        gone.intersect(roots.take(faces.len() as int).to_set()).finite(),
        without(faces, roots, gone).len() + gone.intersect(
            roots.take(faces.len() as int).to_set(),
        ).len() <= faces.len(),
        gone.intersect(roots.take(faces.len() as int).to_set()).len() == 0 ==> without(
            faces,
            roots,
            gone,
        ) == faces,
    decreases faces.len(),
{
    let n = faces.len() as int;
    let here = gone.intersect(roots.take(n).to_set());
    if n == 0 {
        assert(here =~= Set::empty());
        assert(without(faces, roots, gone) =~= faces);
    } else {
        let t = faces.drop_last();
        let before = gone.intersect(roots.take(n - 1).to_set());
        lemma_without_prefix(t, roots, gone);
        lemma_take_to_set(roots, n - 1);
        if gone.contains(roots[n - 1]) {
            assert(here =~= before.insert(roots[n - 1]));
            assert(here.contains(roots[n - 1]));
        } else {
            assert(here =~= before);
            assert(t.push(faces.last()) =~= faces);
        }
    }
}

/// Every component that is dropped takes a face with it, and where none is dropped, no face is.
pub proof fn law_dropped_components_had_faces(
    faces: Seq<Face>,
    roots: Seq<usize>,
    gone: Set<usize>,
)
    requires
        roots.len() == faces.len(),
    ensures
        gone.intersect(roots.to_set()).finite(),
        without(faces, roots, gone).len() + gone.intersect(roots.to_set()).len() <= faces.len(),
        gone.intersect(roots.to_set()).len() == 0 ==> without(faces, roots, gone) == faces,
{
    lemma_without_prefix(faces, roots, gone);
    assert(roots.take(faces.len() as int) =~= roots);
}

/// The biggest component survives, so a mesh made of small parts does not vanish.
pub proof fn law_biggest_survives(areas: Seq<Measure>, floor: u64, b: int)
    requires
        is_biggest(areas, b),
    ensures
        !debris(areas, floor).contains(areas[b].0),
{
    if debris(areas, floor).contains(areas[b].0) {
        let (i, c) = choose|i: int, c: int|
            0 <= i < areas.len() && #[trigger] is_biggest(areas, c) && (#[trigger] areas[i]).0
                == areas[b].0 && areas[i].1 < floor && areas[b].0 != areas[c].0;
        lemma_biggest_unique(areas, b, c);
    }
}

/// A component whose every entry reaches the floor survives.
pub proof fn law_large_components_survive(areas: Seq<Measure>, floor: u64, r: usize)
    requires
        forall|i: int| 0 <= i < areas.len() && (#[trigger] areas[i]).0 == r ==> areas[i].1 >= floor,
    ensures
        !debris(areas, floor).contains(r),
{
}

/// Where no component is dropped, no face is.
pub proof fn law_no_debris_keeps_all(faces: Seq<Face>, roots: Seq<usize>)
    ensures
        without(faces, roots, Set::empty()) == faces,
    decreases faces.len(),
{
    if faces.len() > 0 {
        law_no_debris_keeps_all(faces.drop_last(), roots);
        assert(faces.drop_last().push(faces.last()) =~= faces);
    } else {
        assert(without(faces, roots, Set::empty()) =~= faces);
    }
}

} // verus!
