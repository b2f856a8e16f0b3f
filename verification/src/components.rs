//! Components of a mesh: faces that hang together over shared edges.
use crate::mesh::{
    edge_code, edge_key, edge_of, face_half_edges, half_edges, half_edges_of,
    lemma_edge_code_injective, lemma_half_edge_face, lemma_half_edges_index, lemma_half_edges_len,
    Face,
};
use std::collections::HashMap;
use vstd::prelude::*;

verus! {

broadcast use vstd::std_specs::hash::group_hash_axioms;

/// `j` is the first half-edge on the edge of half-edge `i`.
pub open spec fn first_on_edge(h: Seq<(u32, u32)>, i: int, j: int) -> bool {
    0 <= j <= i && edge_of(h[j].0, h[j].1) == edge_of(h[i].0, h[i].1) && forall|k: int|
        0 <= k < j ==> edge_of((#[trigger] h[k]).0, h[k].1) != edge_of(h[i].0, h[i].1)
}

/// The first half-edge on the edge of half-edge `i`.
pub open spec fn first_use(h: Seq<(u32, u32)>, i: int) -> int {
    choose|j: int| first_on_edge(h, i, j)
}

/// Every label `a` becomes `b`.
pub open spec fn relabel(labels: Seq<int>, a: int, b: int) -> Seq<int> {
    labels.map_values(
        |x: int|
            if x == a {
                b
            } else {
                x
            },
    )
}

/// The labels of `n` faces after the first `i` half-edges: at first each face has its own; each
/// half-edge gives the component of its face the label of the face that came first on its edge.
pub open spec fn labels_after(h: Seq<(u32, u32)>, n: nat, i: int) -> Seq<int>
    decreases i,
{
    if i <= 0 {
        Seq::new(n, |f: int| f)
    } else {
        let before = labels_after(h, n, i - 1);
        relabel(before, before[(i - 1) / 3], before[first_use(h, i - 1) / 3])
    }
}

/// The label of each face's component: one of its faces.
pub open spec fn component_roots(faces: Seq<Face>) -> Seq<int> {
    labels_after(half_edges_of(faces), faces.len(), 3 * faces.len() as int)
}

/// The parent links form trees that lead to the labels: `depth` falls along them.
spec fn leads_to(parent: Seq<usize>, labels: Seq<int>, depth: Seq<nat>) -> bool {
    &&& parent.len() == labels.len()
    &&& depth.len() == labels.len()
    &&& forall|x: int|
        0 <= x < parent.len() ==> {
            let p = #[trigger] parent[x] as int;
            &&& p < parent.len()
            &&& labels[p] == labels[x]
            &&& p != x ==> depth[p] < depth[x]
            &&& p == x ==> labels[x] == x
        }
    &&& forall|x: int|
        0 <= x < labels.len() ==> 0 <= #[trigger] labels[x] < parent.len() && parent[labels[x]]
            == labels[x]
}

/// Follows the parent links to the root, and shortens them on the way.
fn find(
    parent: &mut Vec<usize>,
    x: usize,
    Ghost(labels): Ghost<Seq<int>>,
    Ghost(depth): Ghost<Seq<nat>>,
) -> (r: usize)
    requires
        leads_to(old(parent)@, labels, depth),
        x < labels.len(),
    ensures
        leads_to(final(parent)@, labels, depth),
        r == labels[x as int],
{
    let mut y = x;
    while parent[y] != y
        invariant
            leads_to(parent@, labels, depth),
            y < labels.len(),
            labels[y as int] == labels[x as int],
        decreases depth[y as int],
    {
        let p = parent[y];
        assert(parent@[y as int] as int == p);
        let g = parent[p];
        assert(parent@[p as int] as int == g);
        let ghost before = parent@;
        parent[y] = g;
        proof {
            assert forall|z: int| 0 <= z < parent@.len() implies {
                let q = #[trigger] parent@[z] as int;
                &&& q < parent@.len()
                &&& labels[q] == labels[z]
                &&& q != z ==> depth[q] < depth[z]
                &&& q == z ==> labels[z] == z
            } by {
                assert(before[z] < before.len());
            }
            assert forall|z: int| 0 <= z < labels.len() implies 0 <= #[trigger] labels[z]
                < parent@.len() && parent@[labels[z]] == labels[z] by {
                assert(before[labels[z]] == labels[z]);
            }
            assert(before[g as int] < before.len());
        }
        y = g;
    }
    assert(parent@[y as int] as int == y);
    y
}

/// There is one first half-edge on an edge.
pub proof fn lemma_first_on_edge(h: Seq<(u32, u32)>, i: int, j: int)
    requires
        first_on_edge(h, i, j),
    ensures
        first_use(h, i) == j,
{
    let k = first_use(h, i);
    if j < k {
        assert(edge_of(h[j].0, h[j].1) != edge_of(h[i].0, h[i].1));
    }
    if k < j {
        assert(edge_of(h[k].0, h[k].1) != edge_of(h[i].0, h[i].1));
    }
}

/// Every label is the number of a face.
pub proof fn lemma_labels_range(h: Seq<(u32, u32)>, n: nat, i: int)
    requires
        0 <= i <= h.len(),
        h.len() == 3 * n,
    ensures
        labels_after(h, n, i).len() == n,
        forall|f: int| 0 <= f < n ==> 0 <= #[trigger] labels_after(h, n, i)[f] < n,
    decreases i,
{
    if i > 0 {
        lemma_labels_range(h, n, i - 1);
        lemma_first_exists(h, i - 1, i - 1);
        let before = labels_after(h, n, i - 1);
        let j = first_use(h, i - 1);
        assert(0 <= before[j / 3] < n);
    }
}

proof fn lemma_first_exists(h: Seq<(u32, u32)>, i: int, j: int)
    requires
        0 <= j <= i < h.len(),
        edge_of(h[j].0, h[j].1) == edge_of(h[i].0, h[i].1),
    ensures
        exists|k: int| first_on_edge(h, i, k),
    decreases j,
{
    if exists|k: int|
        0 <= k < j && edge_of((#[trigger] h[k]).0, h[k].1) == edge_of(h[i].0, h[i].1) {
        let k = choose|k: int|
            0 <= k < j && edge_of((#[trigger] h[k]).0, h[k].1) == edge_of(h[i].0, h[i].1);
        lemma_first_exists(h, i, k);
    } else {
        assert(first_on_edge(h, i, j));
    }
}

/// Hanging one root under another relabels its tree.
proof fn lemma_hang(
    parent: Seq<usize>,
    labels: Seq<int>,
    depth: Seq<nat>,
    a: usize,
    b: usize,
) -> (d: Seq<nat>)
    requires
        leads_to(parent, labels, depth),
        a < labels.len(),
        b < labels.len(),
        labels[a as int] == a,
        labels[b as int] == b,
        a != b,
    ensures
        leads_to(parent.update(a as int, b), relabel(labels, a as int, b as int), d),
{
    let d = Seq::new(
        labels.len(),
        |x: int|
            if labels[x] == a {
                depth[x] + depth[b as int] + 1
            } else {
                depth[x]
            },
    );
    let p2 = parent.update(a as int, b);
    let l2 = relabel(labels, a as int, b as int);
    assert forall|x: int| 0 <= x < p2.len() implies {
        let p = #[trigger] p2[x] as int;
        &&& p < p2.len()
        &&& l2[p] == l2[x]
        &&& p != x ==> d[p] < d[x]
        &&& p == x ==> l2[x] == x
    } by {
        let p = parent[x] as int;
        assert(labels[p] == labels[x]);
    }
    assert forall|x: int| 0 <= x < l2.len() implies 0 <= #[trigger] l2[x] < p2.len() && p2[l2[x]]
        == l2[x] by {
        assert(0 <= labels[x] < parent.len());
        assert(parent[labels[x]] == labels[x]);
        assert(parent[labels[b as int]] == labels[b as int]);
    }
    d
}

/// Each face's component, named by one of its faces.
pub fn components(faces: &[Face]) -> (roots: Vec<usize>)
    ensures
        roots@.len() == faces@.len(),
        forall|f: int| 0 <= f < faces@.len() ==> #[trigger] roots@[f] == component_roots(faces@)[f],
{
    let n = faces.len();
    let h = half_edges(faces);
    let ghost nn = n as nat;
    let mut parent: Vec<usize> = Vec::new();
    for f in 0..n
        invariant
            parent@.len() == f,
            forall|g: int| 0 <= g < f ==> #[trigger] parent@[g] == g,
    {
        parent.push(f);
    }
    let mut seen: HashMap<u64, usize> = HashMap::new();
    let ghost mut depth: Seq<nat> = Seq::new(nn, |x: int| 0nat);
    proof {
        lemma_half_edges_len(faces@);
        assert(leads_to(parent@, labels_after(h@, nn, 0), depth));
    }
    for i in 0..h.len()
        invariant
            n == nn,
            h@.len() == 3 * n,
            leads_to(parent@, labels_after(h@, nn, i as int), depth),
            parent@.len() == n,
            forall|k: int|
                0 <= k < i ==> seen@.contains_key(
                    edge_code(edge_of((#[trigger] h@[k]).0, h@[k].1)),
                ),
            forall|e: (u32, u32)| #[trigger]
                seen@.contains_key(edge_code(e)) ==> seen@[edge_code(e)] < i && edge_of(
                    h@[seen@[edge_code(e)] as int].0,
                    h@[seen@[edge_code(e)] as int].1,
                ) == e && forall|k: int|
                    0 <= k < seen@[edge_code(e)] ==> edge_of((#[trigger] h@[k]).0, h@[k].1) != e,
    {
        let (a, b) = h[i];
        let key = edge_key(a, b);
        let ghost e = edge_of(a, b);
        let ghost labels = labels_after(h@, nn, i as int);
        let first: Option<usize> = match seen.get(&key) {
            Some(j) => Some(*j),
            None => None,
        };
        match first {
            Some(j) => {
                proof {
                    assert(seen@.contains_key(edge_code(e)));
                    assert(first_on_edge(h@, i as int, j as int));
                    lemma_first_on_edge(h@, i as int, j as int);
                    lemma_labels_range(h@, nn, i as int);
                }
                let ra = find(&mut parent, i / 3, Ghost(labels), Ghost(depth));
                let rb = find(&mut parent, j / 3, Ghost(labels), Ghost(depth));
                proof {
                    assert(parent@[labels[(i / 3) as int]] == labels[(i / 3) as int]);
                    assert(parent@[labels[(j / 3) as int]] == labels[(j / 3) as int]);
                    assert(parent@[ra as int] as int == ra);
                    assert(parent@[rb as int] as int == rb);
                }
                if ra != rb {
                    proof {
                        depth = lemma_hang(parent@, labels, depth, ra, rb);
                    }
                    parent[ra] = rb;
                } else {
                    assert(relabel(labels, ra as int, rb as int) =~= labels);
                }
            },
            None => {
                proof {
                    assert(first_on_edge(h@, i as int, i as int)) by {
                        assert forall|k: int| 0 <= k < i implies edge_of(
                            (#[trigger] h@[k]).0,
                            h@[k].1,
                        ) != e by {
                            assert(seen@.contains_key(
                                edge_code(edge_of(h@[k].0, h@[k].1)),
                            ));
                        }
                    }
                    lemma_first_on_edge(h@, i as int, i as int);
                    assert(relabel(labels, labels[(i / 3) as int], labels[(i / 3) as int])
                        =~= labels);
                }
                seen.insert(key, i);
                proof {
                    assert forall|x: (u32, u32)| #[trigger]
                        seen@.contains_key(edge_code(x)) implies seen@[edge_code(x)] < i + 1
                        && edge_of(
                        h@[seen@[edge_code(x)] as int].0,
                        h@[seen@[edge_code(x)] as int].1,
                    ) == x && forall|k: int|
                        0 <= k < seen@[edge_code(x)] ==> edge_of((#[trigger] h@[k]).0, h@[k].1)
                            != x by {
                        if edge_code(x) == key {
                            lemma_edge_code_injective(x, e);
                        }
                    }
                }
            },
        }
    }
    let mut roots: Vec<usize> = Vec::new();
    let ghost labels = labels_after(h@, nn, h@.len() as int);
    for f in 0..n
        invariant
            n == nn,
            leads_to(parent@, labels, depth),
            parent@.len() == n,
            roots@.len() == f,
            forall|g: int| 0 <= g < f ==> #[trigger] roots@[g] == labels[g],
    {
        let r = find(&mut parent, f, Ghost(labels), Ghost(depth));
        roots.push(r);
    }
    roots
}

/// Edge `k` of a face.
pub open spec fn edge_at(f: Face, k: int) -> (u32, u32) {
    edge_of(face_half_edges(f)[k].0, face_half_edges(f)[k].1)
}

/// Two faces have an edge in common.
pub open spec fn share_edge(a: Face, b: Face) -> bool {
    exists|k: int, l: int|
        0 <= k < 3 && 0 <= l < 3 && #[trigger] edge_at(a, k) == #[trigger] edge_at(b, l)
}

/// A chain of faces in which each has an edge in common with the next.
pub open spec fn is_chain(faces: Seq<Face>, chain: Seq<int>) -> bool {
    &&& chain.len() > 0
    &&& forall|i: int| 0 <= i < chain.len() ==> 0 <= #[trigger] chain[i] < faces.len()
    &&& forall|i: int|
        0 <= i && i + 1 < chain.len() ==> share_edge(
            faces[#[trigger] chain[i]],
            faces[chain[i + 1]],
        )
}

/// Two faces hang together: a chain leads from one to the other.
pub open spec fn connected(faces: Seq<Face>, f: int, g: int) -> bool {
    exists|chain: Seq<int>| #[trigger]
        is_chain(faces, chain) && chain.first() == f && chain.last() == g
}

proof fn lemma_connected_trans(faces: Seq<Face>, f: int, g: int, k: int)
    requires
        connected(faces, f, g),
        connected(faces, g, k),
    ensures
        connected(faces, f, k),
{
    let p = choose|c: Seq<int>| #[trigger] is_chain(faces, c) && c.first() == f && c.last() == g;
    let q = choose|c: Seq<int>| #[trigger] is_chain(faces, c) && c.first() == g && c.last() == k;
    let c = p + q.drop_first();
    assert forall|i: int| 0 <= i < c.len() implies 0 <= #[trigger] c[i] < faces.len() by {
        if i < p.len() {
            assert(c[i] == p[i]);
        } else {
            assert(c[i] == q[i - p.len() + 1]);
        }
    }
    assert forall|i: int| 0 <= i && i + 1 < c.len() implies share_edge(
        faces[#[trigger] c[i]],
        faces[c[i + 1]],
    ) by {
        if i + 1 < p.len() {
            assert(c[i] == p[i] && c[i + 1] == p[i + 1]);
        } else {
            assert(c[i] == q[i - p.len() + 1]);
            assert(c[i + 1] == q[i - p.len() + 2]);
        }
    }
    assert(is_chain(faces, c));
    assert(c.first() == p.first());
    if q.len() == 1 {
        assert(c =~= p);
    } else {
        assert(c.last() == q.last());
    }
}

proof fn lemma_connected_sym(faces: Seq<Face>, f: int, g: int)
    requires
        connected(faces, f, g),
    ensures
        connected(faces, g, f),
{
    let p = choose|c: Seq<int>| #[trigger] is_chain(faces, c) && c.first() == f && c.last() == g;
    let c = p.reverse();
    assert forall|i: int| 0 <= i < c.len() implies 0 <= #[trigger] c[i] < faces.len() by {
        assert(c[i] == p[p.len() - 1 - i]);
    }
    assert forall|i: int| 0 <= i && i + 1 < c.len() implies share_edge(
        faces[#[trigger] c[i]],
        faces[c[i + 1]],
    ) by {
        let j = p.len() - 2 - i;
        assert(c[i] == p[j + 1] && c[i + 1] == p[j]);
        assert(share_edge(faces[p[j]], faces[p[j + 1]]));
        let (k, l) = choose|k: int, l: int|
            0 <= k < 3 && 0 <= l < 3 && #[trigger] edge_at(faces[p[j]], k) == #[trigger] edge_at(
                faces[p[j + 1]],
                l,
            );
        assert(edge_at(faces[c[i]], l) == edge_at(faces[c[i + 1]], k));
    }
    assert(is_chain(faces, c));
}

proof fn lemma_connected_refl(faces: Seq<Face>, f: int)
    requires
        0 <= f < faces.len(),
    ensures
        connected(faces, f, f),
{
    let c = seq![f];
    assert(is_chain(faces, c));
    assert(c.first() == f && c.last() == f);
}

/// Two half-edges on one edge belong to faces that hang together.
proof fn lemma_connected_step(faces: Seq<Face>, i: int, j: int)
    requires
        0 <= i < half_edges_of(faces).len(),
        0 <= j < half_edges_of(faces).len(),
        edge_of(half_edges_of(faces)[i].0, half_edges_of(faces)[i].1) == edge_of(
            half_edges_of(faces)[j].0,
            half_edges_of(faces)[j].1,
        ),
    ensures
        connected(faces, i / 3, j / 3),
{
    let r = lemma_half_edge_face(faces, i);
    let q = lemma_half_edge_face(faces, j);
    assert(edge_at(faces[r.0], r.1) == edge_at(faces[q.0], q.1));
    let c = seq![r.0, q.0];
    assert(share_edge(faces[r.0], faces[q.0]));
    assert(is_chain(faces, c));
    assert(c.first() == r.0 && c.last() == q.0);
}

proof fn lemma_equal_labels_connected(faces: Seq<Face>, i: int, f: int, g: int)
    requires
        0 <= i <= half_edges_of(faces).len(),
        0 <= f < faces.len(),
        0 <= g < faces.len(),
        labels_after(half_edges_of(faces), faces.len(), i)[f] == labels_after(
            half_edges_of(faces),
            faces.len(),
            i,
        )[g],
    ensures
        connected(faces, f, g),
    decreases i,
{
    let h = half_edges_of(faces);
    let n = faces.len();
    lemma_half_edges_len(faces);
    if i <= 0 {
        lemma_connected_refl(faces, f);
    } else {
        let before = labels_after(h, n, i - 1);
        lemma_labels_range(h, n, i - 1);
        lemma_first_exists(h, i - 1, i - 1);
        let j = first_use(h, i - 1);
        assert(first_on_edge(h, i - 1, j));
        let a = (i - 1) / 3;
        let b = j / 3;
        if before[f] == before[g] {
            lemma_equal_labels_connected(faces, i - 1, f, g);
        } else {
            lemma_connected_step(faces, i - 1, j);
            if before[f] == before[a] {
                lemma_equal_labels_connected(faces, i - 1, f, a);
                lemma_equal_labels_connected(faces, i - 1, b, g);
                lemma_connected_trans(faces, f, a, b);
                lemma_connected_trans(faces, f, b, g);
            } else {
                lemma_equal_labels_connected(faces, i - 1, g, a);
                lemma_equal_labels_connected(faces, i - 1, b, f);
                lemma_connected_trans(faces, g, a, b);
                lemma_connected_trans(faces, g, b, f);
                lemma_connected_sym(faces, g, f);
            }
        }
    }
}

/// Labels that are equal stay equal.
proof fn lemma_labels_stay(h: Seq<(u32, u32)>, n: nat, i: int, j: int, f: int, g: int)
    requires
        0 <= i <= j <= h.len(),
        h.len() == 3 * n,
        0 <= f < n,
        0 <= g < n,
        labels_after(h, n, i)[f] == labels_after(h, n, i)[g],
    ensures
        labels_after(h, n, j)[f] == labels_after(h, n, j)[g],
    decreases j,
{
    if i < j {
        lemma_labels_stay(h, n, i, j - 1, f, g);
        lemma_labels_range(h, n, j - 1);
    }
}

proof fn lemma_edge_labels_equal(faces: Seq<Face>, i: int)
    requires
        0 <= i < half_edges_of(faces).len(),
    ensures
        component_roots(faces)[i / 3] == component_roots(faces)[first_use(half_edges_of(faces), i)
            / 3],
{
    let h = half_edges_of(faces);
    let n = faces.len();
    lemma_half_edges_len(faces);
    lemma_first_exists(h, i, i);
    let j = first_use(h, i);
    lemma_labels_range(h, n, i);
    assert(labels_after(h, n, i + 1)[i / 3] == labels_after(h, n, i + 1)[j / 3]);
    lemma_labels_stay(h, n, i + 1, h.len() as int, i / 3, j / 3);
}

/// Components are exactly what hangs together: two faces have the same root if and only if a chain
/// of faces leads from one to the other, each sharing an edge with the next.
pub proof fn law_same_root_iff_connected(faces: Seq<Face>, f: int, g: int)
    requires
        0 <= f < faces.len(),
        0 <= g < faces.len(),
    ensures
        component_roots(faces)[f] == component_roots(faces)[g] <==> connected(faces, f, g),
{
    let h = half_edges_of(faces);
    lemma_half_edges_len(faces);
    if component_roots(faces)[f] == component_roots(faces)[g] {
        lemma_equal_labels_connected(faces, h.len() as int, f, g);
    }
    if connected(faces, f, g) {
        let c = choose|c: Seq<int>| #[trigger] is_chain(faces, c) && c.first() == f && c.last() == g;
        lemma_chain_labels(faces, c);
    }
}

proof fn lemma_chain_labels(faces: Seq<Face>, c: Seq<int>)
    requires
        is_chain(faces, c),
    ensures
        component_roots(faces)[c.first()] == component_roots(faces)[c.last()],
    decreases c.len(),
{
    if c.len() > 1 {
        let d = c.drop_last();
        assert forall|i: int| 0 <= i < d.len() implies 0 <= #[trigger] d[i] < faces.len() by {
            assert(d[i] == c[i]);
        }
        assert forall|i: int| 0 <= i && i + 1 < d.len() implies share_edge(
            faces[#[trigger] d[i]],
            faces[d[i + 1]],
        ) by {
            assert(d[i] == c[i] && d[i + 1] == c[i + 1]);
        }
        lemma_chain_labels(faces, d);
        let a = c[c.len() - 2];
        let b = c[c.len() - 1];
        assert(share_edge(faces[a], faces[b]));
        let (k, l) = choose|k: int, l: int|
            0 <= k < 3 && 0 <= l < 3 && #[trigger] edge_at(faces[a], k) == #[trigger] edge_at(
                faces[b],
                l,
            );
        let h = half_edges_of(faces);
        lemma_half_edges_index(faces, a, k);
        lemma_half_edges_index(faces, b, l);
        let i = 3 * a + k;
        let j = 3 * b + l;
        lemma_edge_labels_equal(faces, i);
        lemma_edge_labels_equal(faces, j);
        lemma_first_exists(h, i, i);
        lemma_first_exists(h, j, j);
        let p = first_use(h, i);
        let q = first_use(h, j);
        assert(first_on_edge(h, i, p) && first_on_edge(h, j, q));
        if p < q {
            assert(edge_of(h[p].0, h[p].1) != edge_of(h[j].0, h[j].1));
        }
        if q < p {
            assert(edge_of(h[q].0, h[q].1) != edge_of(h[i].0, h[i].1));
        }
        assert(i / 3 == a && j / 3 == b);
    }
}

/// A component is named by one of its own faces.
pub proof fn law_root_is_in_component(faces: Seq<Face>, f: int)
    requires
        0 <= f < faces.len(),
    ensures
        0 <= component_roots(faces)[f] < faces.len(),
        component_roots(faces)[component_roots(faces)[f]] == component_roots(faces)[f],
{
    lemma_half_edges_len(faces);
    lemma_labels_range(half_edges_of(faces), faces.len(), 3 * faces.len() as int);
    lemma_labels_idempotent(half_edges_of(faces), faces.len(), 3 * faces.len() as int, f);
}

proof fn lemma_labels_idempotent(h: Seq<(u32, u32)>, n: nat, i: int, f: int)
    requires
        0 <= i <= h.len(),
        h.len() == 3 * n,
        0 <= f < n,
    ensures
        labels_after(h, n, i)[labels_after(h, n, i)[f]] == labels_after(h, n, i)[f],
    decreases i,
{
    if i > 0 {
        let before = labels_after(h, n, i - 1);
        lemma_labels_range(h, n, i - 1);
        lemma_first_exists(h, i - 1, i - 1);
        let b = first_use(h, i - 1) / 3;
        lemma_labels_idempotent(h, n, i - 1, f);
        lemma_labels_idempotent(h, n, i - 1, b);
        lemma_labels_idempotent(h, n, i - 1, (i - 1) / 3);
    }
}

} // verus!
