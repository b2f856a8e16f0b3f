//! Dropping faces that repeat a corner or another face.
use crate::mesh::{is_nondegenerate, nondegenerate, Face};
use std::collections::HashSet;
use vstd::prelude::*;

verus! {

broadcast use vstd::std_specs::hash::group_hash_axioms;

/// The faces with three different corners, in their order.
pub open spec fn proper_faces(faces: Seq<Face>) -> Seq<Face> {
    faces.filter(|f: Face| is_nondegenerate(f))
}

/// Keeps the faces with three different corners.
pub fn drop_degenerate(faces: &[Face]) -> (kept: Vec<Face>)
    ensures
        kept@ == proper_faces(faces@),
        kept@.len() <= faces@.len(),
{
    let ghost keep = |f: Face| is_nondegenerate(f);
    let mut kept: Vec<Face> = Vec::new();
    proof {
        assert(faces@.take(0) =~= Seq::<Face>::empty());
        assert(kept@ =~= faces@.take(0).filter(keep)) by {
            reveal(Seq::filter);
        }
    }
    for i in 0..faces.len()
        invariant
            keep == (|f: Face| is_nondegenerate(f)),
            kept@ == faces@.take(i as int).filter(keep),
    {
        let f = faces[i];
        proof {
            assert(faces@.take(i + 1) =~= faces@.take(i as int).push(f));
            faces@.take(i as int).lemma_filter_push(f, keep);
        }
        if nondegenerate(&f) {
            kept.push(f);
        }
    }
    proof {
        assert(faces@.take(faces@.len() as int) =~= faces@);
        faces@.lemma_filter_len(keep);
    }
    kept
}

/// The corners of a face in ascending order.
pub open spec fn corners(f: Face) -> (u32, u32, u32) {
    let lo = if f[0] < f[1] {
        f[0]
    } else {
        f[1]
    };
    let hi = if f[0] < f[1] {
        f[1]
    } else {
        f[0]
    };
    if f[2] < lo {
        (f[2], lo, hi)
    } else if f[2] < hi {
        (lo, f[2], hi)
    } else {
        (lo, hi, f[2])
    }
}

/// The first face on each set of corners, in their order.
pub open spec fn distinct_faces(faces: Seq<Face>) -> Seq<Face>
    decreases faces.len(),
{
    if faces.len() == 0 {
        Seq::empty()
    } else {
        let t = faces.drop_last();
        let f = faces.last();
        if exists|i: int| 0 <= i < t.len() && corners(#[trigger] t[i]) == corners(f) {
            distinct_faces(t)
        } else {
            distinct_faces(t).push(f)
        }
    }
}

spec fn corner_code(c: (u32, u32, u32)) -> u128 {
    (c.0 * 0x1_0000_0000_0000_0000 + c.1 * 0x1_0000_0000 + c.2) as u128
}

proof fn lemma_corner_code(c: (u32, u32, u32), d: (u32, u32, u32))
    requires
        corner_code(c) == corner_code(d),
    ensures
        c == d,
{
    assert(c.0 * 0x1_0000_0000_0000_0000 + c.1 * 0x1_0000_0000 + c.2 <= u128::MAX);
    assert(d.0 * 0x1_0000_0000_0000_0000 + d.1 * 0x1_0000_0000 + d.2 <= u128::MAX);
}

fn corner_key(f: &Face) -> (k: u128)
    ensures
        k == corner_code(corners(*f)),
{
    let (a, b, c) = (f[0], f[1], f[2]);
    let (lo, hi) = if a < b {
        (a, b)
    } else {
        (b, a)
    };
    let (x, y, z) = if c < lo {
        (c, lo, hi)
    } else if c < hi {
        (lo, c, hi)
    } else {
        (lo, hi, c)
    };
    (x as u128) * 0x1_0000_0000_0000_0000 + (y as u128) * 0x1_0000_0000 + (z as u128)
}

/// Keeps the first face on each set of corners, whatever the winding.
pub fn drop_duplicates(faces: &[Face]) -> (kept: Vec<Face>)
    ensures
        kept@ == distinct_faces(faces@),
        kept@.len() <= faces@.len(),
{
    let mut seen: HashSet<u128> = HashSet::new();
    let mut kept: Vec<Face> = Vec::new();
    proof {
        assert(seen@ =~= Set::<u128>::empty());
    }
    for i in 0..faces.len()
        invariant
            kept@ == distinct_faces(faces@.take(i as int)),
            kept@.len() <= i,
            forall|c: (u32, u32, u32)|
                seen@.contains(#[trigger] corner_code(c)) <==> exists|j: int|
                    0 <= j < i && corners(#[trigger] faces@[j]) == c,
    {
        let f = faces[i];
        let key = corner_key(&f);
        let ghost before = seen@;
        let fresh = seen.insert(key);
        proof {
            let t = faces@.take(i as int);
            let c0 = corners(f);
            assert(faces@.take(i + 1).drop_last() =~= t);
            assert(fresh <==> !before.contains(corner_code(c0)));
            if !fresh {
                let j = choose|j: int| 0 <= j < i && corners(#[trigger] faces@[j]) == c0;
                assert(t[j] == faces@[j]);
            }
            if exists|j: int| 0 <= j < t.len() && corners(#[trigger] t[j]) == c0 {
                let j = choose|j: int| 0 <= j < t.len() && corners(#[trigger] t[j]) == c0;
                assert(corners(faces@[j]) == c0);
                assert(before.contains(corner_code(c0)));
            }
            assert forall|c: (u32, u32, u32)|
                seen@.contains(#[trigger] corner_code(c)) <==> exists|j: int|
                    0 <= j < i + 1 && corners(#[trigger] faces@[j]) == c by {
                if corner_code(c) == key {
                    lemma_corner_code(c, c0);
                    assert(corners(faces@[i as int]) == c);
                }
                if before.contains(corner_code(c)) {
                    let j = choose|j: int| 0 <= j < i && corners(#[trigger] faces@[j]) == c;
                    assert(corners(faces@[j]) == c);
                }
            }
        }
        if fresh {
            kept.push(f);
        }
    }
    assert(faces@.take(faces@.len() as int) =~= faces@);
    kept
}

/// Dropping duplicates invents no face and loses no set of corners.
pub proof fn law_duplicates_are_redundant(faces: Seq<Face>)
    ensures
        forall|i: int|
            0 <= i < distinct_faces(faces).len() ==> faces.contains(
                #[trigger] distinct_faces(faces)[i],
            ),
        forall|i: int|
            0 <= i < faces.len() ==> exists|j: int|
                0 <= j < distinct_faces(faces).len() && corners(#[trigger] distinct_faces(faces)[j])
                    == corners(#[trigger] faces[i]),
    decreases faces.len(),
{
    if faces.len() > 0 {
        let t = faces.drop_last();
        let f = faces.last();
        let d = distinct_faces(t);
        let r = distinct_faces(faces);
        law_duplicates_are_redundant(t);
        let again = exists|i: int| 0 <= i < t.len() && corners(#[trigger] t[i]) == corners(f);
        assert forall|i: int| 0 <= i < r.len() implies faces.contains(#[trigger] r[i]) by {
            if i < d.len() {
                assert(r[i] == d[i]);
                let k = t.index_of(d[i]);
                assert(t.contains(d[i]));
                assert(faces[k] == d[i]);
            } else {
                assert(faces[faces.len() - 1] == f);
            }
        }
        assert forall|i: int| 0 <= i < faces.len() implies exists|j: int|
            0 <= j < r.len() && corners(#[trigger] r[j]) == corners(#[trigger] faces[i]) by {
            if i < t.len() {
                assert(t[i] == faces[i]);
                let j = choose|j: int| 0 <= j < d.len() && corners(#[trigger] d[j]) == corners(t[i]);
                assert(r[j] == d[j]);
            } else if again {
                let k = choose|k: int| 0 <= k < t.len() && corners(#[trigger] t[k]) == corners(f);
                let j = choose|j: int| 0 <= j < d.len() && corners(#[trigger] d[j]) == corners(t[k]);
                assert(r[j] == d[j]);
            } else {
                assert(r[d.len() as int] == f);
            }
        }
    }
}

/// No two of the faces kept have the same corners.
pub proof fn law_kept_faces_differ(faces: Seq<Face>, i: int, j: int)
    requires
        0 <= i < j < distinct_faces(faces).len(),
    ensures
        corners(distinct_faces(faces)[i]) != corners(distinct_faces(faces)[j]),
    decreases faces.len(),
{
    if faces.len() > 0 {
        let t = faces.drop_last();
        let f = faces.last();
        let d = distinct_faces(t);
        if j < d.len() {
            law_kept_faces_differ(t, i, j);
            assert(distinct_faces(faces)[i] == d[i]);
            assert(distinct_faces(faces)[j] == d[j]);
        } else {
            law_duplicates_are_redundant(t);
            assert(t.contains(d[i]));
            let k = t.index_of(d[i]);
            assert(t[k] == d[i]);
        }
    }
}

/// A list without duplicates is kept as it is.
pub proof fn law_distinct_list_is_kept(faces: Seq<Face>)
    requires
        forall|i: int, j: int|
            0 <= i < j < faces.len() ==> corners(#[trigger] faces[i]) != corners(
                #[trigger] faces[j],
            ),
    ensures
        distinct_faces(faces) == faces,
    decreases faces.len(),
{
    if faces.len() > 0 {
        let t = faces.drop_last();
        assert forall|i: int, j: int| 0 <= i < j < t.len() implies corners(#[trigger] t[i])
            != corners(#[trigger] t[j]) by {
            assert(t[i] == faces[i] && t[j] == faces[j]);
        }
        law_distinct_list_is_kept(t);
        if exists|i: int| 0 <= i < t.len() && corners(#[trigger] t[i]) == corners(faces.last()) {
            let i = choose|i: int|
                0 <= i < t.len() && corners(#[trigger] t[i]) == corners(faces.last());
            assert(faces[i] == t[i]);
            assert(corners(faces[i]) != corners(faces[faces.len() - 1]));
        }
        assert(t.push(faces.last()) =~= faces);
    } else {
        assert(distinct_faces(faces) =~= faces);
    }
}

} // verus!
