//! Which faces each stage keeps, place by place, and in which order.
use crate::audit::{is_clear, stripped};
use crate::clean::{corners, distinct_faces, proper_faces};
use crate::components::{connected, law_root_is_in_component, law_same_root_iff_connected};
use crate::debris::{debris, dropped, is_biggest, law_no_debris_keeps_all, without, Measure};
use crate::mesh::{edge_of, half_edges_of, is_nondegenerate, uses, Face};
use crate::pipeline::after_debris;
use crate::sealing::{is_tight, leaky, root_list, sealed};
use crate::weld::{remapped, welded};
use vstd::prelude::*;

verus! {

/// `part` is `whole` at the places `at`, which ascend.
pub open spec fn picks(part: Seq<Face>, whole: Seq<Face>, at: Seq<int>) -> bool {
    &&& part.len() == at.len()
    &&& forall|k: int| 0 <= k < at.len() ==> 0 <= #[trigger] at[k] < whole.len() && part[k]
        == whole[at[k]]
    &&& forall|k: int, l: int| 0 <= k < l < at.len() ==> #[trigger] at[k] < #[trigger] at[l]
}

/// The vertices of a face.
pub open spec fn vertex_set(f: Face) -> Set<u32> {
    Set::empty().insert(f[0]).insert(f[1]).insert(f[2])
}

/// A half-edge of the face runs between two given vertices, one way or the other.
pub open spec fn runs_between(f: Face, a: u32, b: u32) -> bool {
    ||| (f[0] == a && f[1] == b) || (f[0] == b && f[1] == a)
    ||| (f[1] == a && f[2] == b) || (f[1] == b && f[2] == a)
    ||| (f[2] == a && f[0] == b) || (f[2] == b && f[0] == a)
}

/// The same three corners in some order.
pub open spec fn same_corners(f: Face, g: Face) -> bool {
    ||| f[0] == g[0] && f[1] == g[1] && f[2] == g[2]
    ||| f[0] == g[0] && f[1] == g[2] && f[2] == g[1]
    ||| f[0] == g[1] && f[1] == g[0] && f[2] == g[2]
    ||| f[0] == g[1] && f[1] == g[2] && f[2] == g[0]
    ||| f[0] == g[2] && f[1] == g[0] && f[2] == g[1]
    ||| f[0] == g[2] && f[1] == g[1] && f[2] == g[0]
}

/// One more place at the end.
proof fn lemma_at_push(at: Seq<int>, n: int)
    ensures
        forall|i: int| #[trigger] at.push(n).contains(i) <==> at.contains(i) || i == n,
{
    assert forall|i: int| #[trigger] at.push(n).contains(i) <==> at.contains(i) || i == n by {
        if at.contains(i) {
            let k = at.index_of(i);
            assert(at.push(n)[k] == i);
        }
        assert(at.push(n)[at.len() as int] == n);
        if at.push(n).contains(i) {
            let k = at.push(n).index_of(i);
            if k < at.len() {
                assert(at[k] == i);
            }
        }
    }
}

/// What is picked from a list is picked from a longer one.
proof fn lemma_picks_grow(part: Seq<Face>, whole: Seq<Face>, at: Seq<int>, f: Face)
    requires
        picks(part, whole, at),
    ensures
        picks(part, whole.push(f), at),
        picks(part.push(f), whole.push(f), at.push(whole.len() as int)),
{
    let n = whole.len() as int;
    assert forall|k: int| 0 <= k < at.len() implies 0 <= #[trigger] at[k] < whole.push(f).len()
        && part[k] == whole.push(f)[at[k]] by {
        assert(0 <= at[k] < whole.len());
    }
    let at1 = at.push(n);
    assert forall|k: int| 0 <= k < at1.len() implies 0 <= #[trigger] at1[k] < whole.push(f).len()
        && part.push(f)[k] == whole.push(f)[at1[k]] by {
        if k < at.len() {
            assert(at1[k] == at[k]);
        }
    }
    assert forall|k: int, l: int| 0 <= k < l < at1.len() implies #[trigger] at1[k]
        < #[trigger] at1[l] by {
        assert(at1[k] == at[k]);
        if l < at.len() {
            assert(at1[l] == at[l]);
        }
    }
}

proof fn lemma_filter_picks(faces: Seq<Face>, keep: spec_fn(Face) -> bool) -> (at: Seq<int>)
    ensures
        picks(faces.filter(keep), faces, at),
        forall|i: int|
            0 <= i < faces.len() ==> (#[trigger] at.contains(i) <==> keep(faces[i])),
    decreases faces.len(),
{
    reveal(Seq::filter);
    if faces.len() == 0 {
        Seq::empty()
    } else {
        let t = faces.drop_last();
        let f = faces.last();
        let n = t.len() as int;
        let at = lemma_filter_picks(t, keep);
        lemma_picks_grow(t.filter(keep), t, at, f);
        lemma_at_push(at, n);
        assert(t.push(f) =~= faces);
        let r = if keep(f) {
            at.push(n)
        } else {
            at
        };
        assert forall|i: int| 0 <= i < faces.len() implies (#[trigger] r.contains(i) <==> keep(
            faces[i],
        )) by {
            assert(at.push(n).contains(i) <==> at.contains(i) || i == n);
            if i < n {
                assert(at.contains(i) <==> keep(t[i]));
                assert(t[i] == faces[i]);
            } else if at.contains(i) {
                let k = at.index_of(i);
                assert(at[k] == n);
            }
        }
        r
    }
}

/// Exactly the faces with a repeated corner are dropped, and the others keep their order.
pub proof fn law_only_degenerate_faces_are_dropped(faces: Seq<Face>) -> (at: Seq<int>)
    ensures
        picks(proper_faces(faces), faces, at),
        forall|i: int|
            0 <= i < faces.len() ==> (#[trigger] at.contains(i) <==> vertex_set(faces[i]).len()
                == 3),
{
    let at = lemma_filter_picks(faces, |f: Face| is_nondegenerate(f));
    assert forall|i: int| 0 <= i < faces.len() implies (#[trigger] at.contains(i)
        <==> vertex_set(faces[i]).len() == 3) by {
        lemma_vertex_set_len(faces[i]);
        assert(at.contains(i) <==> is_nondegenerate(faces[i]));
    }
    at
}

/// A face has three vertices exactly where no two corners are the same.
proof fn lemma_vertex_set_len(f: Face)
    ensures
        vertex_set(f).finite(),
        vertex_set(f).len() == 3 <==> f[0] != f[1] && f[1] != f[2] && f[0] != f[2],
{
    let a = Set::<u32>::empty().insert(f[0]);
    let b = a.insert(f[1]);
    assert(a.len() == 1);
    assert(f[1] == f[0] ==> b =~= a);
    assert(b.contains(f[2]) ==> b.insert(f[2]) =~= b);
}

/// Exactly the faces with an edge that three half-edges or more lie on are cut, and the others
/// keep their order.
pub proof fn law_only_faces_on_overloaded_edges_are_cut(faces: Seq<Face>) -> (at: Seq<int>)
    ensures
        picks(stripped(faces), faces, at),
        forall|i: int|
            0 <= i < faces.len() ==> (#[trigger] at.contains(i) <==> forall|a: u32, b: u32|
                #[trigger] runs_between(faces[i], a, b) ==> uses(
                    half_edges_of(faces),
                    edge_of(a, b),
                ) <= 2),
{
    let h = half_edges_of(faces);
    let at = lemma_filter_picks(faces, |f: Face| is_clear(half_edges_of(faces), f));
    assert forall|i: int| 0 <= i < faces.len() implies (#[trigger] at.contains(i) <==> forall|
        a: u32,
        b: u32,
    |
        #[trigger] runs_between(faces[i], a, b) ==> uses(h, edge_of(a, b)) <= 2) by {
        let f = faces[i];
        assert(at.contains(i) <==> is_clear(h, f));
        assert(runs_between(f, f[0], f[1]) && runs_between(f, f[1], f[2]) && runs_between(
            f,
            f[2],
            f[0],
        ));
        if is_clear(h, f) {
            assert forall|a: u32, b: u32| #[trigger] runs_between(f, a, b) implies uses(
                h,
                edge_of(a, b),
            ) <= 2 by {
                assert(edge_of(a, b) == edge_of(b, a));
            }
        }
    }
    at
}

/// Exactly the faces of the components that are to go are dropped, and the others keep their
/// order.
pub proof fn law_whole_components_are_dropped(
    faces: Seq<Face>,
    roots: Seq<usize>,
    gone: Set<usize>,
) -> (at: Seq<int>)
    ensures
        picks(without(faces, roots, gone), faces, at),
        forall|i: int|
            0 <= i < faces.len() ==> (#[trigger] at.contains(i) <==> !gone.contains(roots[i])),
    decreases faces.len(),
{
    if faces.len() == 0 {
        Seq::empty()
    } else {
        let t = faces.drop_last();
        let f = faces.last();
        let n = t.len() as int;
        let at = law_whole_components_are_dropped(t, roots, gone);
        lemma_picks_grow(without(t, roots, gone), t, at, f);
        lemma_at_push(at, n);
        assert(t.push(f) =~= faces);
        let r = if gone.contains(roots[n]) {
            at
        } else {
            at.push(n)
        };
        assert forall|i: int| 0 <= i < faces.len() implies (#[trigger] r.contains(i)
            <==> !gone.contains(roots[i])) by {
            assert(at.push(n).contains(i) <==> at.contains(i) || i == n);
            if i < n {
                assert(at.contains(i) <==> !gone.contains(roots[i]));
            } else if at.contains(i) {
                let k = at.index_of(i);
                assert(at[k] == n);
            }
        }
        r
    }
}

/// Exactly the faces of small components go: those that an entry puts below the floor, and that
/// are not the component of the biggest entry, which of equal ones is the last. The other faces
/// keep their order. A mesh without area is left alone.
pub proof fn law_only_debris_is_dropped(
    faces: Seq<Face>,
    roots: Seq<usize>,
    has_area: bool,
    areas: Seq<Measure>,
    floor: u64,
    big: int,
) -> (at: Seq<int>)
    requires
        roots.len() == faces.len(),
        0 <= big < areas.len(),
        forall|a: int| 0 <= a < areas.len() ==> (#[trigger] areas[a]).1 <= areas[big].1,
        forall|a: int| big < a < areas.len() ==> (#[trigger] areas[a]).1 < areas[big].1,
    ensures
        !has_area ==> after_debris(faces, roots, has_area, areas, floor) == faces,
        has_area ==> picks(after_debris(faces, roots, has_area, areas, floor), faces, at),
        forall|i: int|
            0 <= i < faces.len() ==> (#[trigger] at.contains(i) <==> (roots[i] == areas[big].0
                || forall|a: int|
                0 <= a < areas.len() && (#[trigger] areas[a]).0 == roots[i] ==> areas[a].1
                    >= floor)),
{
    let gone = debris(areas, floor);
    let at = law_whole_components_are_dropped(faces, roots, gone);
    assert(is_biggest(areas, big));
    assert forall|i: int| 0 <= i < faces.len() implies (#[trigger] at.contains(i) <==> (roots[i]
        == areas[big].0 || forall|a: int|
        0 <= a < areas.len() && (#[trigger] areas[a]).0 == roots[i] ==> areas[a].1 >= floor)) by {
        assert(at.contains(i) <==> !gone.contains(roots[i]));
        if gone.contains(roots[i]) {
            let (a, b) = choose|a: int, b: int|
                0 <= a < areas.len() && #[trigger] is_biggest(areas, b) && (#[trigger] areas[a]).0
                    == roots[i] && areas[a].1 < floor && roots[i] != areas[b].0;
            if b < big {
                assert(areas[big].1 < areas[b].1);
                assert(areas[b].1 <= areas[big].1);
            }
            if big < b {
                assert(areas[b].1 < areas[big].1);
                assert(areas[big].1 <= areas[b].1);
            }
            assert(areas[a].0 == roots[i]);
        } else if roots[i] != areas[big].0 {
            assert forall|a: int|
                0 <= a < areas.len() && (#[trigger] areas[a]).0 == roots[i] implies areas[a].1
                >= floor by {
                if areas[a].1 < floor {
                    assert(is_biggest(areas, big));
                    assert(gone.contains(roots[i]));
                }
            }
        }
    }
    if faces.len() == 0 {
        assert(without(faces, roots, gone) =~= faces);
    }
    at
}

/// Two faces have the same corner key if and only if they have the same corners in some order.
pub proof fn law_corner_key_is_the_corners(f: Face, g: Face)
    ensures
        corners(f) == corners(g) <==> same_corners(f, g),
{
}

/// Of the faces on the same corners, whatever their winding, the first is kept and no other, and
/// what is kept keeps its order.
pub proof fn law_first_face_on_the_same_corners_is_kept(faces: Seq<Face>) -> (at: Seq<int>)
    ensures
        picks(distinct_faces(faces), faces, at),
        forall|i: int|
            0 <= i < faces.len() ==> (#[trigger] at.contains(i) <==> forall|j: int|
                0 <= j < i ==> !same_corners(#[trigger] faces[j], faces[i])),
{
    let at = lemma_distinct_picks(faces);
    assert forall|i: int| 0 <= i < faces.len() implies (#[trigger] at.contains(i) <==> forall|
        j: int,
    |
        0 <= j < i ==> !same_corners(#[trigger] faces[j], faces[i])) by {
        assert(at.contains(i) <==> forall|j: int|
            0 <= j < i ==> corners(#[trigger] faces[j]) != corners(faces[i]));
        assert forall|j: int| 0 <= j < i implies (same_corners(#[trigger] faces[j], faces[i])
            <==> corners(faces[j]) == corners(faces[i])) by {
            law_corner_key_is_the_corners(faces[j], faces[i]);
        }
    }
    at
}

/// Where no component is measured, none is dropped.
pub proof fn law_unmeasured_components_stay(
    faces: Seq<Face>,
    roots: Seq<usize>,
    has_area: bool,
    floor: u64,
)
    requires
        roots.len() == faces.len(),
    ensures
        after_debris(faces, roots, has_area, Seq::empty(), floor) == faces,
        dropped(roots, Seq::empty(), floor).len() == 0,
{
    let none = Seq::<Measure>::empty();
    assert(debris(none, floor) =~= Set::empty());
    assert(dropped(roots, none, floor) =~= Set::empty());
    law_no_debris_keeps_all(faces, roots);
}

/// Two faces with three vertices each have the same corner key exactly where they have the same
/// vertices.
pub proof fn law_corner_key_is_the_vertex_set(f: Face, g: Face)
    requires
        vertex_set(f).len() == 3,
        vertex_set(g).len() == 3,
    ensures
        corners(f) == corners(g) <==> vertex_set(f) == vertex_set(g),
{
    let s = vertex_set(f);
    let t = vertex_set(g);
    lemma_vertex_set_len(f);
    lemma_vertex_set_len(g);
    assert(s.contains(f[0]) && s.contains(f[1]) && s.contains(f[2]));
    assert(t.contains(g[0]) && t.contains(g[1]) && t.contains(g[2]));
    if corners(f) == corners(g) {
        assert(s =~= t);
    }
    if s == t {
        assert(t.contains(f[0]) && t.contains(f[1]) && t.contains(f[2]));
        assert(s.contains(g[0]) && s.contains(g[1]) && s.contains(g[2]));
    }
}

/// The corner key of a face is its corners in ascending order.
pub proof fn law_corner_key_is_sorted(f: Face)
    ensures
        corners(f).0 <= corners(f).1 <= corners(f).2,
        forall|v: u32|
            #![trigger vertex_set(f).contains(v)]
            vertex_set(f).contains(v) <==> v == corners(f).0 || v == corners(f).1 || v == corners(
                f,
            ).2,
        corners(f).0 + corners(f).1 + corners(f).2 == f[0] + f[1] + f[2],
{
}

proof fn lemma_distinct_picks(faces: Seq<Face>) -> (at: Seq<int>)
    ensures
        picks(distinct_faces(faces), faces, at),
        forall|i: int|
            0 <= i < faces.len() ==> (#[trigger] at.contains(i) <==> forall|j: int|
                0 <= j < i ==> corners(#[trigger] faces[j]) != corners(faces[i])),
    decreases faces.len(),
{
    if faces.len() == 0 {
        Seq::empty()
    } else {
        let t = faces.drop_last();
        let f = faces.last();
        let n = t.len() as int;
        let at = lemma_distinct_picks(t);
        lemma_picks_grow(distinct_faces(t), t, at, f);
        lemma_at_push(at, n);
        assert(t.push(f) =~= faces);
        let again = exists|i: int| 0 <= i < t.len() && corners(#[trigger] t[i]) == corners(f);
        let r = if again {
            at
        } else {
            at.push(n)
        };
        assert forall|i: int| 0 <= i < faces.len() implies (#[trigger] r.contains(i) <==> forall|
            j: int,
        |
            0 <= j < i ==> corners(#[trigger] faces[j]) != corners(faces[i])) by {
            assert(at.push(n).contains(i) <==> at.contains(i) || i == n);
            if i < n {
                assert(at.contains(i) <==> forall|j: int|
                    0 <= j < i ==> corners(#[trigger] t[j]) != corners(t[i]));
                if forall|j: int| 0 <= j < i ==> corners(#[trigger] t[j]) != corners(t[i]) {
                    assert forall|j: int| 0 <= j < i implies corners(#[trigger] faces[j]) != corners(
                        faces[i],
                    ) by {
                        assert(t[j] == faces[j]);
                    }
                } else {
                    let j = choose|j: int| 0 <= j < i && corners(#[trigger] t[j]) == corners(t[i]);
                    assert(faces[j] == t[j]);
                }
            } else {
                if at.contains(i) {
                    let k = at.index_of(i);
                    assert(at[k] == n);
                }
                if again {
                    let j = choose|j: int| 0 <= j < t.len() && corners(#[trigger] t[j]) == corners(f);
                    assert(faces[j] == t[j]);
                } else {
                    assert forall|j: int| 0 <= j < i implies corners(#[trigger] faces[j]) != corners(
                        faces[i],
                    ) by {
                        assert(t[j] == faces[j]);
                    }
                }
            }
        }
        r
    }
}

/// Of the faces on one set of vertices, whatever their winding, the first is kept and no other,
/// and what is kept keeps its order.
pub proof fn law_first_face_on_each_vertex_set_is_kept(faces: Seq<Face>) -> (at: Seq<int>)
    requires
        forall|i: int| 0 <= i < faces.len() ==> vertex_set(#[trigger] faces[i]).len() == 3,
    ensures
        picks(distinct_faces(faces), faces, at),
        forall|i: int|
            0 <= i < faces.len() ==> (#[trigger] at.contains(i) <==> forall|j: int|
                0 <= j < i ==> vertex_set(#[trigger] faces[j]) != vertex_set(faces[i])),
        forall|k: int, l: int|
            0 <= k < l < distinct_faces(faces).len() ==> vertex_set(
                #[trigger] distinct_faces(faces)[k],
            ) != vertex_set(#[trigger] distinct_faces(faces)[l]),
{
    let d = distinct_faces(faces);
    let at = lemma_distinct_picks(faces);
    assert forall|i: int| 0 <= i < faces.len() implies (#[trigger] at.contains(i) <==> forall|
        j: int,
    |
        0 <= j < i ==> vertex_set(#[trigger] faces[j]) != vertex_set(faces[i])) by {
        assert(at.contains(i) <==> forall|j: int|
            0 <= j < i ==> corners(#[trigger] faces[j]) != corners(faces[i]));
        assert forall|j: int| 0 <= j < i implies (vertex_set(#[trigger] faces[j]) == vertex_set(
            faces[i],
        ) <==> corners(faces[j]) == corners(faces[i])) by {
            law_corner_key_is_the_vertex_set(faces[j], faces[i]);
        }
    }
    assert forall|k: int, l: int| 0 <= k < l < d.len() implies vertex_set(#[trigger] d[k])
        != vertex_set(#[trigger] d[l]) by {
        assert(at[k] < at[l]);
        assert(at.contains(at[l]));
        assert(faces[at[k]] == d[k] && faces[at[l]] == d[l]);
    }
    at
}

/// The weld moves every corner to its representative. Exactly the faces whose corners then no
/// longer differ are dropped, and the others keep their order.
pub proof fn law_weld_moves_corners(faces: Seq<Face>, rep: Seq<u32>) -> (at: Seq<int>)
    ensures
        at.len() == welded(faces, rep).len(),
        forall|k: int|
            0 <= k < at.len() ==> 0 <= #[trigger] at[k] < faces.len() && (forall|c: int|
                0 <= c < 3 ==> #[trigger] welded(faces, rep)[k][c] == rep[faces[at[k]][c] as int]),
        forall|k: int, l: int| 0 <= k < l < at.len() ==> #[trigger] at[k] < #[trigger] at[l],
        forall|i: int|
            0 <= i < faces.len() ==> (#[trigger] at.contains(i) <==> (rep[faces[i][0] as int]
                != rep[faces[i][1] as int] && rep[faces[i][1] as int] != rep[faces[i][2] as int]
                && rep[faces[i][0] as int] != rep[faces[i][2] as int])),
{
    let m = faces.map_values(|f: Face| remapped(f, rep));
    let at = lemma_filter_picks(m, |f: Face| is_nondegenerate(f));
    assert forall|k: int| 0 <= k < at.len() implies 0 <= #[trigger] at[k] < faces.len() && (forall|
        c: int,
    |
        0 <= c < 3 ==> #[trigger] welded(faces, rep)[k][c] == rep[faces[at[k]][c] as int]) by {
        assert(welded(faces, rep)[k] == m[at[k]]);
        assert(m[at[k]] == remapped(faces[at[k]], rep));
    }
    assert forall|i: int| 0 <= i < faces.len() implies (#[trigger] at.contains(i) <==> (
    rep[faces[i][0] as int] != rep[faces[i][1] as int] && rep[faces[i][1] as int]
        != rep[faces[i][2] as int] && rep[faces[i][0] as int] != rep[faces[i][2] as int])) by {
        assert(at.contains(i) <==> is_nondegenerate(m[i]));
        assert(m[i] == remapped(faces[i], rep));
    }
    at
}

/// After the last round exactly the faces of closed components are left, in their order: those
/// from which every face that hangs together with them has two half-edges on each of its edges.
pub proof fn law_only_closed_components_are_left(faces: Seq<Face>) -> (at: Seq<int>)
    requires
        faces.len() <= usize::MAX,
    ensures
        picks(sealed(faces), faces, at),
        forall|i: int|
            0 <= i < faces.len() ==> (#[trigger] at.contains(i) <==> forall|j: int|
                0 <= j < faces.len() && #[trigger] connected(faces, i, j) ==> uses(
                    half_edges_of(faces),
                    edge_of(faces[j][0], faces[j][1]),
                ) == 2 && uses(half_edges_of(faces), edge_of(faces[j][1], faces[j][2])) == 2
                    && uses(half_edges_of(faces), edge_of(faces[j][2], faces[j][0])) == 2),
{
    let h = half_edges_of(faces);
    let roots = root_list(faces);
    let gone = leaky(faces, roots);
    let at = law_whole_components_are_dropped(faces, roots, gone);
    assert forall|i: int| 0 <= i < faces.len() implies (#[trigger] at.contains(i) <==> forall|
        j: int,
    |
        0 <= j < faces.len() && #[trigger] connected(faces, i, j) ==> uses(
            h,
            edge_of(faces[j][0], faces[j][1]),
        ) == 2 && uses(h, edge_of(faces[j][1], faces[j][2])) == 2 && uses(
            h,
            edge_of(faces[j][2], faces[j][0]),
        ) == 2) by {
        assert(at.contains(i) <==> !gone.contains(roots[i]));
        law_root_is_in_component(faces, i);
        if gone.contains(roots[i]) {
            let j = choose|j: int|
                0 <= j < faces.len() && #[trigger] roots[j] == roots[i] && !is_tight(h, faces[j]);
            law_root_is_in_component(faces, j);
            law_same_root_iff_connected(faces, i, j);
            assert(connected(faces, i, j));
        } else {
            assert forall|j: int|
                0 <= j < faces.len() && #[trigger] connected(faces, i, j) implies is_tight(
                h,
                faces[j],
            ) by {
                law_same_root_iff_connected(faces, i, j);
                assert(roots[j] == roots[i]);
            }
        }
    }
    at
}

} // verus!
