//! The audit looks at the shape of a mesh alone: not at the order of its faces, nor at their
//! winding, nor at how the vertices are numbered.
use crate::audit::{lemma_audit_finite, open_edges, overloaded_edges};
use crate::mesh::{
    edge_of, face_half_edges, half_edges_of, lemma_face_uses, lemma_half_edge_face,
    lemma_half_edges_add, lemma_uses_add, lemma_uses_positive, uses, Face,
};
use vstd::prelude::*;

verus! {

/// The vertex is a corner of one of the faces.
pub open spec fn is_corner(faces: Seq<Face>, v: u32) -> bool {
    exists|i: int, k: int| 0 <= i < faces.len() && 0 <= k < 3 && #[trigger] faces[i][k] == v
}

/// A face with its corners renamed.
pub open spec fn renamed(f: Face, name: spec_fn(u32) -> u32) -> Face {
    [name(f[0]), name(f[1]), name(f[2])]
}

/// The same three corners, in one order or another.
pub open spec fn rearranged(p: Face, q: Face) -> bool {
    ||| p[0] == q[0] && p[1] == q[1] && p[2] == q[2]
    ||| p[0] == q[1] && p[1] == q[2] && p[2] == q[0]
    ||| p[0] == q[2] && p[1] == q[0] && p[2] == q[1]
    ||| p[0] == q[0] && p[1] == q[2] && p[2] == q[1]
    ||| p[0] == q[1] && p[1] == q[0] && p[2] == q[2]
    ||| p[0] == q[2] && p[1] == q[1] && p[2] == q[0]
}

/// The list names every place below `n` once.
pub open spec fn is_order(order: Seq<int>, n: nat) -> bool {
    order.len() == n && order.no_duplicates() && forall|i: int|
        0 <= i < n ==> 0 <= #[trigger] order[i] < n
}

/// No two corners get the same name.
pub open spec fn names_apart(faces: Seq<Face>, name: spec_fn(u32) -> u32) -> bool {
    forall|a: u32, b: u32| #[trigger]
        is_corner(faces, a) && #[trigger] is_corner(faces, b) && name(a) == name(b) ==> a == b
}

/// `g` is the same mesh as `faces`: the faces in another order, their corners in any order, and
/// the vertices under other names.
pub open spec fn same_shape(
    faces: Seq<Face>,
    g: Seq<Face>,
    order: Seq<int>,
    name: spec_fn(u32) -> u32,
) -> bool {
    &&& g.len() == faces.len()
    &&& is_order(order, faces.len())
    &&& names_apart(faces, name)
    &&& forall|i: int|
        0 <= i < g.len() ==> rearranged(#[trigger] g[i], renamed(faces[order[i]], name))
}

/// The uses of a list of faces are those of one of them and of the others.
proof fn lemma_remove_uses(faces: Seq<Face>, j: int, e: (u32, u32))
    requires
        0 <= j < faces.len(),
    ensures
        uses(half_edges_of(faces), e) == uses(half_edges_of(faces.remove(j)), e) + uses(
            face_half_edges(faces[j]),
            e,
        ),
{
    let a = faces.take(j);
    let f = seq![faces[j]];
    let b = faces.skip(j + 1);
    assert(faces =~= a + f + b);
    assert(faces.remove(j) =~= a + b);
    lemma_half_edges_add(a, f);
    lemma_half_edges_add(a + f, b);
    lemma_half_edges_add(a, b);
    assert(f.drop_last() =~= Seq::<Face>::empty());
    assert(half_edges_of(f.drop_last()) =~= Seq::<(u32, u32)>::empty());
    assert(f.last() == faces[j]);
    assert(half_edges_of(f) =~= face_half_edges(faces[j]));
    lemma_uses_add(half_edges_of(a), half_edges_of(f), e);
    lemma_uses_add(half_edges_of(a + f), half_edges_of(b), e);
    lemma_uses_add(half_edges_of(a), half_edges_of(b), e);
}

/// The faces in another order.
spec fn reordered(faces: Seq<Face>, order: Seq<int>) -> Seq<Face> {
    Seq::new(order.len(), |i: int| faces[order[i]])
}

/// The order of the faces does not change what they use.
proof fn lemma_reordered_uses(faces: Seq<Face>, order: Seq<int>, e: (u32, u32))
    requires
        is_order(order, faces.len()),
    ensures
        uses(half_edges_of(reordered(faces, order)), e) == uses(half_edges_of(faces), e),
    decreases faces.len(),
{
    let g = reordered(faces, order);
    if faces.len() == 0 {
        assert(g =~= faces);
    } else {
        let j = order.last();
        assert(order[order.len() - 1] == j);
        let less = faces.remove(j);
        let rest = Seq::new(
            (order.len() - 1) as nat,
            |i: int|
                if order[i] > j {
                    order[i] - 1
                } else {
                    order[i]
                },
        );
        assert forall|i: int| 0 <= i < rest.len() implies 0 <= #[trigger] rest[i] < less.len() by {
            assert(order[i] != order[order.len() - 1]);
            assert(0 <= order[i] < faces.len());
        }
        assert(rest.no_duplicates()) by {
            assert forall|a: int, b: int| 0 <= a < b < rest.len() implies rest[a] != rest[b] by {
                assert(order[a] != order[b]);
                assert(order[a] != order[order.len() - 1]);
                assert(order[b] != order[order.len() - 1]);
            }
        }
        lemma_reordered_uses(less, rest, e);
        assert(reordered(less, rest) =~= g.drop_last()) by {
            assert forall|i: int| 0 <= i < rest.len() implies reordered(less, rest)[i]
                == g.drop_last()[i] by {
                assert(order[i] != order[order.len() - 1]);
                assert(0 <= order[i] < faces.len());
            }
        }
        lemma_remove_uses(faces, j, e);
        lemma_uses_add(half_edges_of(g.drop_last()), face_half_edges(g.last()), e);
    }
}

/// What one face uses, under other names and in another order of its corners.
proof fn lemma_face_shape(
    f: Face,
    g: Face,
    name: spec_fn(u32) -> u32,
    faces: Seq<Face>,
    a: u32,
    b: u32,
)
    requires
        names_apart(faces, name),
        is_corner(faces, f[0]),
        is_corner(faces, f[1]),
        is_corner(faces, f[2]),
        is_corner(faces, a),
        is_corner(faces, b),
        rearranged(g, renamed(f, name)),
    ensures
        uses(face_half_edges(g), edge_of(name(a), name(b))) == uses(
            face_half_edges(f),
            edge_of(a, b),
        ),
{
    lemma_face_uses(f, edge_of(a, b));
    lemma_face_uses(g, edge_of(name(a), name(b)));
    lemma_edge_names(faces, name, f[0], f[1], a, b);
    lemma_edge_names(faces, name, f[1], f[2], a, b);
    lemma_edge_names(faces, name, f[2], f[0], a, b);
    let q = renamed(f, name);
    assert(edge_of(q[0], q[1]) == edge_of(q[1], q[0]));
    assert(edge_of(q[1], q[2]) == edge_of(q[2], q[1]));
    assert(edge_of(q[2], q[0]) == edge_of(q[0], q[2]));
}

/// Edges between corners are the same exactly where they are under their names.
proof fn lemma_edge_names(
    faces: Seq<Face>,
    name: spec_fn(u32) -> u32,
    x: u32,
    y: u32,
    a: u32,
    b: u32,
)
    requires
        names_apart(faces, name),
        is_corner(faces, x),
        is_corner(faces, y),
        is_corner(faces, a),
        is_corner(faces, b),
    ensures
        edge_of(name(x), name(y)) == edge_of(name(a), name(b)) <==> edge_of(x, y) == edge_of(a, b),
{
}

proof fn lemma_shape_prefix(
    faces: Seq<Face>,
    g: Seq<Face>,
    order: Seq<int>,
    name: spec_fn(u32) -> u32,
    n: int,
    a: u32,
    b: u32,
)
    requires
        same_shape(faces, g, order, name),
        is_corner(faces, a),
        is_corner(faces, b),
        0 <= n <= g.len(),
    ensures
        uses(half_edges_of(g.take(n)), edge_of(name(a), name(b))) == uses(
            half_edges_of(reordered(faces, order).take(n)),
            edge_of(a, b),
        ),
    decreases n,
{
    let f = reordered(faces, order);
    if n > 0 {
        lemma_shape_prefix(faces, g, order, name, n - 1, a, b);
        assert(g.take(n).drop_last() =~= g.take(n - 1));
        assert(f.take(n).drop_last() =~= f.take(n - 1));
        let j = order[n - 1];
        assert(faces[j][0] == faces[j][0] && faces[j][1] == faces[j][1] && faces[j][2]
            == faces[j][2]);
        assert(rearranged(g[n - 1], renamed(faces[order[n - 1]], name)));
        lemma_face_shape(faces[j], g[n - 1], name, faces, a, b);
        lemma_uses_add(
            half_edges_of(g.take(n - 1)),
            face_half_edges(g[n - 1]),
            edge_of(name(a), name(b)),
        );
        lemma_uses_add(half_edges_of(f.take(n - 1)), face_half_edges(f[n - 1]), edge_of(a, b));
    } else {
        assert(g.take(0) =~= Seq::<Face>::empty());
        assert(f.take(0) =~= Seq::<Face>::empty());
    }
}

/// An edge between corners has the uses that it has under their names.
proof fn lemma_shape_uses(
    faces: Seq<Face>,
    g: Seq<Face>,
    order: Seq<int>,
    name: spec_fn(u32) -> u32,
    a: u32,
    b: u32,
)
    requires
        same_shape(faces, g, order, name),
        is_corner(faces, a),
        is_corner(faces, b),
    ensures
        uses(half_edges_of(g), edge_of(name(a), name(b))) == uses(
            half_edges_of(faces),
            edge_of(a, b),
        ),
{
    lemma_shape_prefix(faces, g, order, name, g.len() as int, a, b);
    assert(g.take(g.len() as int) =~= g);
    assert(reordered(faces, order).take(g.len() as int) =~= reordered(faces, order));
    lemma_reordered_uses(faces, order, edge_of(a, b));
}

/// An edge that the faces use lies between two corners.
proof fn lemma_used_corners(faces: Seq<Face>, e: (u32, u32))
    requires
        uses(half_edges_of(faces), e) > 0,
    ensures
        is_corner(faces, e.0),
        is_corner(faces, e.1),
        edge_of(e.0, e.1) == e,
{
    let h = half_edges_of(faces);
    lemma_uses_positive(h, e);
    let i = choose|i: int| 0 <= i < h.len() && edge_of((#[trigger] h[i]).0, h[i].1) == e;
    let r = lemma_half_edge_face(faces, i);
    let f = faces[r.0];
    assert(faces[r.0][0] == f[0] && faces[r.0][1] == f[1] && faces[r.0][2] == f[2]);
    assert(is_corner(faces, f[0]) && is_corner(faces, f[1]) && is_corner(faces, f[2]));
}

/// An edge that the renamed faces use is one between two named corners.
proof fn lemma_used_names(
    faces: Seq<Face>,
    g: Seq<Face>,
    order: Seq<int>,
    name: spec_fn(u32) -> u32,
    e: (u32, u32),
) -> (r: (u32, u32))
    requires
        same_shape(faces, g, order, name),
        uses(half_edges_of(g), e) > 0,
    ensures
        is_corner(faces, r.0),
        is_corner(faces, r.1),
        edge_of(name(r.0), name(r.1)) == e,
{
    let h = half_edges_of(g);
    lemma_uses_positive(h, e);
    let i = choose|i: int| 0 <= i < h.len() && edge_of((#[trigger] h[i]).0, h[i].1) == e;
    let r = lemma_half_edge_face(g, i);
    let f = faces[order[r.0]];
    let j = order[r.0];
    assert(faces[j][0] == f[0] && faces[j][1] == f[1] && faces[j][2] == f[2]);
    assert(is_corner(faces, f[0]) && is_corner(faces, f[1]) && is_corner(faces, f[2]));
    assert(rearranged(g[r.0], renamed(faces[order[r.0]], name)));
    let q = renamed(f, name);
    let (x, y) = h[i];
    let a = if x == q[0] {
        f[0]
    } else if x == q[1] {
        f[1]
    } else {
        f[2]
    };
    let b = if y == q[0] {
        f[0]
    } else if y == q[1] {
        f[1]
    } else {
        f[2]
    };
    (a, b)
}

/// Edges that are used in some way are as many under other names.
proof fn lemma_shape_count(
    faces: Seq<Face>,
    g: Seq<Face>,
    order: Seq<int>,
    name: spec_fn(u32) -> u32,
    s: Set<(u32, u32)>,
    t: Set<(u32, u32)>,
    way: spec_fn(nat) -> bool,
)
    requires
        same_shape(faces, g, order, name),
        !way(0),
        s.finite(),
        forall|e: (u32, u32)| #[trigger] s.contains(e) <==> way(uses(half_edges_of(faces), e)),
        forall|e: (u32, u32)| #[trigger] t.contains(e) <==> way(uses(half_edges_of(g), e)),
    ensures
        s.len() == t.len(),
{
    let m = |e: (u32, u32)| edge_of(name(e.0), name(e.1));
    assert forall|x: (u32, u32), y: (u32, u32)|
        #![trigger m(x), m(y)]
        s.contains(x) && s.contains(y) && m(x) == m(y) implies x == y by {
        lemma_used_corners(faces, x);
        lemma_used_corners(faces, y);
        lemma_edge_names(faces, name, x.0, x.1, y.0, y.1);
    }
    assert(s.map(m) =~= t) by {
        assert forall|e: (u32, u32)| s.map(m).contains(e) implies t.contains(e) by {
            let x = choose|x: (u32, u32)| s.contains(x) && m(x) == e;
            lemma_used_corners(faces, x);
            lemma_shape_uses(faces, g, order, name, x.0, x.1);
        }
        assert forall|e: (u32, u32)| t.contains(e) implies s.map(m).contains(e) by {
            let r = lemma_used_names(faces, g, order, name, e);
            lemma_shape_uses(faces, g, order, name, r.0, r.1);
            let x = edge_of(r.0, r.1);
            assert(s.contains(x));
            assert(m(x) == e);
        }
    }
    vstd::set_lib::lemma_map_size(s, t, m);
}

/// The audit depends neither on the order of the faces, nor on their winding, nor on how the
/// vertices are numbered.
pub proof fn law_audit_sees_shape_alone(
    faces: Seq<Face>,
    g: Seq<Face>,
    order: Seq<int>,
    name: spec_fn(u32) -> u32,
)
    requires
        same_shape(faces, g, order, name),
    ensures
        open_edges(g).len() == open_edges(faces).len(),
        overloaded_edges(g).len() == overloaded_edges(faces).len(),
{
    lemma_audit_finite(faces);
    lemma_shape_count(faces, g, order, name, open_edges(faces), open_edges(g), |n: nat| n == 1);
    lemma_shape_count(
        faces,
        g,
        order,
        name,
        overloaded_edges(faces),
        overloaded_edges(g),
        |n: nat| n > 2,
    );
}

} // verus!
