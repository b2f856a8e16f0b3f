//! Triangle faces, their edges, and how often a mesh uses each edge.
use std::collections::HashMap;
use vstd::prelude::*;

verus! {

broadcast use vstd::std_specs::hash::group_hash_axioms;

/// A triangle: three vertex indices in winding order.
pub type Face = [u32; 3];

/// The undirected edge between two vertices: the smaller index first.
pub open spec fn edge_of(a: u32, b: u32) -> (u32, u32) {
    if a < b {
        (a, b)
    } else {
        (b, a)
    }
}

/// The undirected edge between two vertices.
pub fn norm(a: u32, b: u32) -> (e: (u32, u32))
    ensures
        e == edge_of(a, b),
        e.0 <= e.1,
        e == (a, b) || e == (b, a),
{
    if a < b {
        (a, b)
    } else {
        (b, a)
    }
}

/// A face with three different corners.
pub open spec fn is_nondegenerate(f: Face) -> bool {
    f[0] != f[1] && f[1] != f[2] && f[0] != f[2]
}

/// Whether the three corners of a face all differ.
pub fn nondegenerate(f: &Face) -> (r: bool)
    ensures
        r == is_nondegenerate(*f),
        r <==> f[0] != f[1] && f[1] != f[2] && f[2] != f[0],
{
    f[0] != f[1] && f[1] != f[2] && f[0] != f[2]
}

/// Every corner of every face is below `n`.
pub open spec fn in_range(faces: Seq<Face>, n: int) -> bool {
    forall|i: int, k: int| 0 <= i < faces.len() && 0 <= k < 3 ==> #[trigger] faces[i][k] < n
}

/// Every face has three different corners.
pub open spec fn all_proper(faces: Seq<Face>) -> bool {
    forall|i: int| 0 <= i < faces.len() ==> is_nondegenerate(#[trigger] faces[i])
}

/// The half-edges of one face, in winding order.
pub open spec fn face_half_edges(f: Face) -> Seq<(u32, u32)> {
    seq![(f[0], f[1]), (f[1], f[2]), (f[2], f[0])]
}

/// The half-edges of a list of faces, face after face.
pub open spec fn half_edges_of(faces: Seq<Face>) -> Seq<(u32, u32)>
    decreases faces.len(),
{
    if faces.len() == 0 {
        Seq::empty()
    } else {
        half_edges_of(faces.drop_last()) + face_half_edges(faces.last())
    }
}

/// Every edge that the faces use belongs to exactly two of their half-edges.
pub open spec fn closed_manifold(faces: Seq<Face>) -> bool {
    forall|e: (u32, u32)| #[trigger]
        uses(half_edges_of(faces), e) == 0 || uses(half_edges_of(faces), e) == 2
}

/// How many half-edges of the list lie on the undirected edge `e`.
pub open spec fn uses(h: Seq<(u32, u32)>, e: (u32, u32)) -> nat
    decreases h.len(),
{
    if h.len() == 0 {
        0
    } else {
        uses(h.drop_last(), e) + (if edge_of(h.last().0, h.last().1) == e {
            1nat
        } else {
            0nat
        })
    }
}

/// The half-edges of a list of faces, face after face.
pub fn half_edges(faces: &[Face]) -> (h: Vec<(u32, u32)>)
    ensures
        h@ == half_edges_of(faces@),
{
    let mut h: Vec<(u32, u32)> = Vec::new();
    for i in 0..faces.len()
        invariant
            h@ == half_edges_of(faces@.take(i as int)),
    {
        let f = faces[i];
        h.push((f[0], f[1]));
        h.push((f[1], f[2]));
        h.push((f[2], f[0]));
        assert(faces@.take(i + 1).drop_last() == faces@.take(i as int));
    }
    assert(faces@.take(faces.len() as int) == faces@);
    h
}

/// The half-edge list grows by three for each face.
pub proof fn lemma_half_edges_len(faces: Seq<Face>)
    ensures
        half_edges_of(faces).len() == 3 * faces.len(),
    decreases faces.len(),
{
    if faces.len() > 0 {
        lemma_half_edges_len(faces.drop_last());
    }
}

/// Half-edge `k` of face `i` stands at `3 * i + k`.
pub proof fn lemma_half_edges_index(faces: Seq<Face>, i: int, k: int)
    requires
        0 <= i < faces.len(),
        0 <= k < 3,
    ensures
        3 * i + k < half_edges_of(faces).len(),
        half_edges_of(faces)[3 * i + k] == face_half_edges(faces[i])[k],
    decreases faces.len(),
{
    lemma_half_edges_len(faces);
    lemma_half_edges_len(faces.drop_last());
    if i < faces.len() - 1 {
        lemma_half_edges_index(faces.drop_last(), i, k);
    }
}

/// The half-edges of two lists of faces, one after the other.
pub proof fn lemma_half_edges_add(a: Seq<Face>, b: Seq<Face>)
    ensures
        half_edges_of(a + b) == half_edges_of(a) + half_edges_of(b),
    decreases b.len(),
{
    if b.len() == 0 {
        assert(a + b == a);
    } else {
        lemma_half_edges_add(a, b.drop_last());
        assert((a + b).drop_last() == a + b.drop_last());
    }
}

/// Uses add up over two lists of half-edges.
pub proof fn lemma_uses_add(a: Seq<(u32, u32)>, b: Seq<(u32, u32)>, e: (u32, u32))
    ensures
        uses(a + b, e) == uses(a, e) + uses(b, e),
    decreases b.len(),
{
    if b.len() == 0 {
        assert(a + b == a);
    } else {
        lemma_uses_add(a, b.drop_last(), e);
        assert((a + b).drop_last() == a + b.drop_last());
    }
}

/// An edge is used exactly when some half-edge of the list lies on it.
pub proof fn lemma_uses_positive(h: Seq<(u32, u32)>, e: (u32, u32))
    ensures
        uses(h, e) > 0 <==> exists|i: int|
            0 <= i < h.len() && edge_of((#[trigger] h[i]).0, h[i].1) == e,
    decreases h.len(),
{
    if h.len() > 0 {
        let t = h.drop_last();
        lemma_uses_positive(t, e);
        if uses(t, e) > 0 {
            let i = choose|i: int| 0 <= i < t.len() && edge_of((#[trigger] t[i]).0, t[i].1) == e;
            assert(h[i] == t[i]);
        }
        if edge_of(h.last().0, h.last().1) == e {
            assert(edge_of(h[h.len() - 1].0, h[h.len() - 1].1) == e);
        }
        if exists|i: int| 0 <= i < h.len() && edge_of((#[trigger] h[i]).0, h[i].1) == e {
            let i = choose|i: int| 0 <= i < h.len() && edge_of((#[trigger] h[i]).0, h[i].1) == e;
            if i < t.len() {
                assert(t[i] == h[i]);
            }
        }
    }
}

/// Two half-edges on the same edge make at least two uses.
pub proof fn lemma_uses_two(h: Seq<(u32, u32)>, i: int, j: int)
    requires
        0 <= i < j < h.len(),
        edge_of(h[i].0, h[i].1) == edge_of(h[j].0, h[j].1),
    ensures
        uses(h, edge_of(h[i].0, h[i].1)) >= 2,
    decreases h.len(),
{
    let e = edge_of(h[i].0, h[i].1);
    let t = h.drop_last();
    if j < t.len() {
        assert(t[i] == h[i] && t[j] == h[j]);
        lemma_uses_two(t, i, j);
    } else {
        assert(t[i] == h[i]);
        lemma_uses_positive(t, e);
    }
}

/// Two or more uses come from two half-edges on the same edge.
pub proof fn lemma_uses_pair(h: Seq<(u32, u32)>, e: (u32, u32)) -> (r: (int, int))
    requires
        uses(h, e) >= 2,
    ensures
        0 <= r.0 < r.1 < h.len(),
        edge_of(h[r.0].0, h[r.0].1) == e,
        edge_of(h[r.1].0, h[r.1].1) == e,
    decreases h.len(),
{
    let t = h.drop_last();
    if uses(t, e) >= 2 {
        let r = lemma_uses_pair(t, e);
        assert(t[r.0] == h[r.0] && t[r.1] == h[r.1]);
        r
    } else {
        lemma_uses_positive(t, e);
        let i = choose|i: int| 0 <= i < t.len() && edge_of((#[trigger] t[i]).0, t[i].1) == e;
        assert(t[i] == h[i]);
        (i, h.len() - 1)
    }
}

/// The uses that one face makes of an edge.
pub proof fn lemma_face_uses(f: Face, e: (u32, u32))
    ensures
        uses(face_half_edges(f), e) == (if edge_of(f[0], f[1]) == e {
            1nat
        } else {
            0nat
        }) + (if edge_of(f[1], f[2]) == e {
            1nat
        } else {
            0nat
        }) + (if edge_of(f[2], f[0]) == e {
            1nat
        } else {
            0nat
        }),
{
    let h = face_half_edges(f);
    assert(h.drop_last() =~= seq![(f[0], f[1]), (f[1], f[2])]);
    assert(h.drop_last().drop_last() =~= seq![(f[0], f[1])]);
    assert(h.drop_last().drop_last().drop_last() =~= Seq::<(u32, u32)>::empty());
    reveal_with_fuel(uses, 5);
}

/// Every half-edge of a list belongs to one of its faces.
pub proof fn lemma_half_edge_face(faces: Seq<Face>, i: int) -> (r: (int, int))
    requires
        0 <= i < half_edges_of(faces).len(),
    ensures
        0 <= r.0 < faces.len(),
        0 <= r.1 < 3,
        i == 3 * r.0 + r.1,
        half_edges_of(faces)[i] == face_half_edges(faces[r.0])[r.1],
{
    lemma_half_edges_len(faces);
    lemma_half_edges_index(faces, i / 3, i % 3);
    (i / 3, i % 3)
}

/// One number per undirected edge.
pub open spec fn edge_code(e: (u32, u32)) -> u64 {
    (e.0 * 0x1_0000_0000 + e.1) as u64
}

/// One number per undirected edge.
pub fn edge_key(a: u32, b: u32) -> (k: u64)
    ensures
        k == edge_code(edge_of(a, b)),
{
    let e = norm(a, b);
    (e.0 as u64) * 0x1_0000_0000 + (e.1 as u64)
}

/// Two edges with the same number are the same edge.
pub proof fn lemma_edge_code_injective(e: (u32, u32), g: (u32, u32))
    requires
        edge_code(e) == edge_code(g),
    ensures
        e == g,
{
    assert(e.0 * 0x1_0000_0000 + e.1 <= u64::MAX);
    assert(g.0 * 0x1_0000_0000 + g.1 <= u64::MAX);
}

/// Uses counted up to three, which is all that any rule of the repair looks at.
pub open spec fn up_to_three(n: nat) -> nat {
    if n < 3 {
        n
    } else {
        3
    }
}

/// How often a mesh uses each edge, counted up to three.
pub struct EdgeTally {
    counts: HashMap<u64, u8>,
}

impl EdgeTally {
    /// The count that is held for an edge; an edge that was never seen has zero.
    pub closed spec fn held(&self, e: (u32, u32)) -> nat {
        if self.counts@.contains_key(edge_code(e)) {
            self.counts@[edge_code(e)] as nat
        } else {
            0
        }
    }

    /// The tally of exactly these half-edges.
    pub open spec fn tallies(&self, h: Seq<(u32, u32)>) -> bool {
        forall|e: (u32, u32)| #[trigger] self.held(e) == up_to_three(uses(h, e))
    }

    /// Counts the uses of every edge.
    pub fn of(h: &Vec<(u32, u32)>) -> (t: EdgeTally)
        ensures
            t.tallies(h@),
    {
        let mut t = EdgeTally { counts: HashMap::new() };
        for i in 0..h.len()
            invariant
                t.tallies(h@.take(i as int)),
        {
            let ghost before = t;
            let (a, b) = h[i];
            let k = edge_key(a, b);
            let c: u8 = match t.counts.get(&k) {
                Some(c) => *c,
                None => 0,
            };
            if c < 3 {
                t.counts.insert(k, c + 1);
            }
            proof {
                let e0 = edge_of(a, b);
                assert(h@.take(i + 1).drop_last() == h@.take(i as int));
                assert(c == before.held(e0));
                assert forall|e: (u32, u32)| #[trigger] t.held(e) == up_to_three(
                    uses(h@.take(i + 1), e),
                ) by {
                    assert(before.held(e) == up_to_three(uses(h@.take(i as int), e)));
                    if e != e0 && edge_code(e) == edge_code(e0) {
                        lemma_edge_code_injective(e, e0);
                    }
                }
            }
        }
        assert(h@.take(h.len() as int) == h@);
        t
    }

    /// The uses of the edge between two vertices, counted up to three.
    pub fn get(&self, a: u32, b: u32) -> (n: u8)
        ensures
            n == self.held(edge_of(a, b)),
    {
        match self.counts.get(&edge_key(a, b)) {
            Some(c) => *c,
            None => 0,
        }
    }
}

} // verus!
