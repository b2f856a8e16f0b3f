//! Fan caps over the simple boundary loops of a mesh.
use crate::closing::{entering, leaving};
use crate::force::{boundary, has_exit, views};
use crate::hubs::after;
use crate::mesh::{
    edge_of, half_edges, half_edges_of, lemma_uses_two, up_to_three, uses, EdgeTally, Face,
};
use crate::trusted::sort_codes;
use std::collections::{HashMap, HashSet};
use vstd::prelude::*;

verus! {

broadcast use vstd::std_specs::hash::group_hash_axioms;

/// Exactly one half-edge of the boundary leaves the vertex, and exactly one enters it.
pub open spec fn is_plain(b: Set<(u32, u32)>, v: u32) -> bool {
    leaving(b, v).len() == 1 && entering(b, v).len() == 1
}

/// A simple boundary loop, told from its smallest vertex on: it runs along the boundary, visits
/// no vertex twice, and the boundary branches at none of its vertices.
pub open spec fn is_simple_hole(b: Set<(u32, u32)>, c: Seq<u32>) -> bool {
    &&& c.len() >= 3
    &&& c.no_duplicates()
    &&& forall|w: int| 0 <= w < c.len() ==> b.contains((c[w], #[trigger] after(c, w)))
    &&& forall|w: int| 0 <= w < c.len() ==> is_plain(b, #[trigger] c[w])
    &&& forall|w: int| 0 <= w < c.len() ==> c[0] <= #[trigger] c[w]
}

/// There is a simple boundary loop whose smallest vertex is `s`.
pub open spec fn has_hole(b: Set<(u32, u32)>, s: int) -> bool {
    exists|c: Seq<u32>| #[trigger] is_simple_hole(b, c) && c[0] == s
}

/// The simple boundary loop whose smallest vertex is `s`.
pub open spec fn hole_at(b: Set<(u32, u32)>, s: int) -> Seq<u32> {
    choose|c: Seq<u32>| #[trigger] is_simple_hole(b, c) && c[0] == s
}

/// The simple boundary loops whose smallest vertex is below `n`, in the order of that vertex.
pub open spec fn holes_below(b: Set<(u32, u32)>, n: int) -> Seq<Seq<u32>>
    decreases n,
{
    if n <= 0 {
        Seq::empty()
    } else if has_hole(b, n - 1) {
        holes_below(b, n - 1).push(hole_at(b, n - 1))
    } else {
        holes_below(b, n - 1)
    }
}

/// The simple boundary loops of a list of faces, in the order of their smallest vertices.
pub open spec fn simple_holes(faces: Seq<Face>) -> Seq<Seq<u32>> {
    holes_below(boundary(half_edges_of(faces)), 0x1_0000_0000)
}

/// A fan over a loop from its first vertex, wound against the loop.
pub open spec fn loop_fan(c: Seq<u32>) -> Seq<Face> {
    Seq::new((c.len() - 2) as nat, |w: int| [c[0], c[w + 2], c[w + 1]])
}

/// The fans over a list of loops.
pub open spec fn loop_fans(loops: Seq<Seq<u32>>) -> Seq<Face>
    decreases loops.len(),
{
    if loops.len() == 0 {
        Seq::empty()
    } else {
        loop_fans(loops.drop_last()) + loop_fan(loops.last())
    }
}

/// One half-edge leaves a vertex exactly where there is one and no other.
pub proof fn lemma_one_leaves(b: Set<(u32, u32)>, v: u32)
    requires
        b.finite(),
    ensures
        leaving(b, v).len() == 1 <==> has_exit(b, v) && forall|x: u32, y: u32| #[trigger]
            b.contains((v, x)) && #[trigger] b.contains((v, y)) ==> x == y,
{
    let s = leaving(b, v);
    if has_exit(b, v) {
        let x = choose|x: u32| b.contains((v, x));
        assert(s.contains((v, x)));
        if forall|x: u32, y: u32| #[trigger]
            b.contains((v, x)) && #[trigger] b.contains((v, y)) ==> x == y {
            assert(s =~= Set::empty().insert((v, x))) by {
                assert forall|d: (u32, u32)| s.contains(d) implies d == (v, x) by {
                    assert(b.contains((v, d.1)));
                }
            }
        } else {
            let (y, z) = choose|y: u32, z: u32| #[trigger]
                b.contains((v, y)) && #[trigger] b.contains((v, z)) && y != z;
            assert(s.contains((v, y)));
            assert(s.remove((v, y)).contains((v, z)));
            assert(s.remove((v, y)).len() > 0);
        }
    } else {
        assert(s =~= Set::empty()) by {
            assert forall|d: (u32, u32)| !s.contains(d) by {
                if s.contains(d) {
                    assert(b.contains((v, d.1)));
                }
            }
        }
    }
}

/// A half-edge enters the vertex.
pub open spec fn has_entry(b: Set<(u32, u32)>, v: u32) -> bool {
    exists|u: u32| b.contains((u, v))
}

/// One half-edge enters a vertex exactly where there is one and no other.
pub proof fn lemma_one_enters(b: Set<(u32, u32)>, v: u32)
    requires
        b.finite(),
    ensures
        entering(b, v).len() == 1 <==> has_entry(b, v) && forall|x: u32, y: u32| #[trigger]
            b.contains((x, v)) && #[trigger] b.contains((y, v)) ==> x == y,
{
    let s = entering(b, v);
    if has_entry(b, v) {
        let x = choose|x: u32| b.contains((x, v));
        assert(s.contains((x, v)));
        if forall|x: u32, y: u32| #[trigger]
            b.contains((x, v)) && #[trigger] b.contains((y, v)) ==> x == y {
            assert(s =~= Set::empty().insert((x, v))) by {
                assert forall|d: (u32, u32)| s.contains(d) implies d == (x, v) by {
                    assert(b.contains((d.0, v)));
                }
            }
        } else {
            let (y, z) = choose|y: u32, z: u32| #[trigger]
                b.contains((y, v)) && #[trigger] b.contains((z, v)) && y != z;
            assert(s.contains((y, v)));
            assert(s.remove((y, v)).contains((z, v)));
            assert(s.remove((y, v)).len() > 0);
        }
    } else {
        assert(s =~= Set::empty()) by {
            assert forall|d: (u32, u32)| !s.contains(d) by {
                if s.contains(d) {
                    assert(b.contains((d.0, v)));
                }
            }
        }
    }
}

/// From one vertex on, there is one simple boundary loop at most.
pub proof fn lemma_hole_unique(b: Set<(u32, u32)>, c: Seq<u32>, d: Seq<u32>)
    requires
        b.finite(),
        is_simple_hole(b, c),
        is_simple_hole(b, d),
        c[0] == d[0],
    ensures
        c == d,
{
    if c.len() <= d.len() {
        lemma_hole_prefix(b, c, d, c.len() as int);
        lemma_hole_ends(b, c, d);
    } else {
        lemma_hole_prefix(b, d, c, d.len() as int);
        lemma_hole_ends(b, d, c);
    }
}

proof fn lemma_hole_prefix(b: Set<(u32, u32)>, c: Seq<u32>, d: Seq<u32>, n: int)
    requires
        b.finite(),
        is_simple_hole(b, c),
        is_simple_hole(b, d),
        c[0] == d[0],
        1 <= n <= c.len() <= d.len(),
    ensures
        forall|i: int| 0 <= i < n ==> c[i] == d[i],
    decreases n,
{
    if n > 1 {
        lemma_hole_prefix(b, c, d, n - 1);
        lemma_one_leaves(b, c[n - 2]);
        assert(is_plain(b, c[n - 2]));
        assert(after(c, n - 2) == c[n - 1] && after(d, n - 2) == d[n - 1]);
        assert(b.contains((c[n - 2], c[n - 1])) && b.contains((c[n - 2], d[n - 1])));
    }
}

proof fn lemma_hole_ends(b: Set<(u32, u32)>, c: Seq<u32>, d: Seq<u32>)
    requires
        b.finite(),
        is_simple_hole(b, c),
        is_simple_hole(b, d),
        c.len() <= d.len(),
        forall|i: int| 0 <= i < c.len() ==> c[i] == d[i],
    ensures
        c == d,
{
    let n = c.len() as int;
    if n < d.len() {
        lemma_one_leaves(b, c[n - 1]);
        assert(is_plain(b, c[n - 1]));
        assert(after(c, n - 1) == c[0] && after(d, n - 1) == d[n]);
        assert(b.contains((c[n - 1], c[0])) && b.contains((c[n - 1], d[n])));
        assert(d[0] == d[n]);
    }
    assert(c =~= d);
}

/// The list holds the simple boundary loops, each once, and nothing else.
pub proof fn lemma_holes_below(b: Set<(u32, u32)>, n: int)
    requires
        b.finite(),
    ensures
        forall|c: Seq<u32>| #[trigger]
            holes_below(b, n).contains(c) <==> is_simple_hole(b, c) && c[0] < n,
        forall|i: int, j: int|
            0 <= i < j < holes_below(b, n).len() ==> (#[trigger] holes_below(b, n)[i])[0] < (
            #[trigger] holes_below(b, n)[j])[0],
    decreases n,
{
    let all = holes_below(b, n);
    if n > 0 {
        lemma_holes_below(b, n - 1);
        let front = holes_below(b, n - 1);
        let h = hole_at(b, n - 1);
        assert forall|c: Seq<u32>| #[trigger] all.contains(c) <==> is_simple_hole(b, c) && c[0]
            < n by {
            if has_hole(b, n - 1) {
                assert(all[all.len() - 1] == h);
                if front.contains(c) {
                    let k = front.index_of(c);
                    assert(all[k] == c);
                }
                if all.contains(c) {
                    let k = all.index_of(c);
                    if k < front.len() {
                        assert(front[k] == c);
                    }
                }
            }
            if is_simple_hole(b, c) && c[0] == n - 1 {
                assert(has_hole(b, n - 1));
                lemma_hole_unique(b, c, h);
            }
        }
        assert forall|i: int, j: int| 0 <= i < j < all.len() implies (#[trigger] all[i])[0] < (
        #[trigger] all[j])[0] by {
            assert(front.contains(front[i]));
            assert(all[i] == front[i]);
            if j < front.len() {
                assert(all[j] == front[j]);
            }
        }
    }
}

/// The boundary of a mesh is finite, and its holes are listed each once.
pub proof fn lemma_boundary_holes(faces: Seq<Face>)
    ensures
        boundary(half_edges_of(faces)).finite(),
        forall|c: Seq<u32>| #[trigger]
            simple_holes(faces).contains(c) <==> is_simple_hole(
                boundary(half_edges_of(faces)),
                c,
            ),
        forall|i: int, j: int|
            0 <= i < j < simple_holes(faces).len() ==> (#[trigger] simple_holes(faces)[i])[0] < (
            #[trigger] simple_holes(faces)[j])[0],
{
    vstd::seq_lib::seq_to_set_is_finite(half_edges_of(faces));
    lemma_holes_below(boundary(half_edges_of(faces)), 0x1_0000_0000);
}

/// Where no loop begins between two bounds, both bound the same list.
proof fn lemma_no_hole_between(b: Set<(u32, u32)>, m: int, n: int)
    requires
        0 <= m <= n,
        forall|s: int| m <= s < n ==> !#[trigger] has_hole(b, s),
    ensures
        holes_below(b, m) == holes_below(b, n),
    decreases n,
{
    if m < n {
        assert(!has_hole(b, n - 1));
        lemma_no_hole_between(b, m, n - 1);
    }
}

/// The boundary branches at the vertex.
spec fn is_forked(b: Set<(u32, u32)>, v: u32) -> bool {
    ||| exists|x: u32, y: u32| x != y && #[trigger] b.contains((v, x)) && #[trigger] b.contains((v, y))
    ||| exists|x: u32, y: u32| x != y && #[trigger] b.contains((x, v)) && #[trigger] b.contains((y, v))
}

proof fn lemma_fork_insert(b: Set<(u32, u32)>, d: (u32, u32), v: u32)
    requires
        !b.contains(d),
    ensures
        is_forked(b.insert(d), v) <==> is_forked(b, v) || (v == d.0 && has_exit(b, v)) || (v == d.1
            && has_entry(b, v)),
{
    let c = b.insert(d);
    if is_forked(b, v) {
        if exists|x: u32, y: u32|
            x != y && #[trigger] b.contains((v, x)) && #[trigger] b.contains((v, y)) {
            let (x, y) = choose|x: u32, y: u32|
                x != y && #[trigger] b.contains((v, x)) && #[trigger] b.contains((v, y));
            assert(c.contains((v, x)) && c.contains((v, y)));
        } else {
            let (x, y) = choose|x: u32, y: u32|
                x != y && #[trigger] b.contains((x, v)) && #[trigger] b.contains((y, v));
            assert(c.contains((x, v)) && c.contains((y, v)));
        }
    }
    if v == d.0 && has_exit(b, v) {
        let x = choose|x: u32| b.contains((v, x));
        assert(c.contains((v, x)) && c.contains((v, d.1)));
    }
    if v == d.1 && has_entry(b, v) {
        let x = choose|x: u32| b.contains((x, v));
        assert(c.contains((x, v)) && c.contains((d.0, v)));
    }
    if is_forked(c, v) {
        if exists|x: u32, y: u32|
            x != y && #[trigger] c.contains((v, x)) && #[trigger] c.contains((v, y)) {
            let (x, y) = choose|x: u32, y: u32|
                x != y && #[trigger] c.contains((v, x)) && #[trigger] c.contains((v, y));
            assert(b.contains((v, x)) || (v, x) == d);
            assert(b.contains((v, y)) || (v, y) == d);
        } else {
            let (x, y) = choose|x: u32, y: u32|
                x != y && #[trigger] c.contains((x, v)) && #[trigger] c.contains((y, v));
            assert(b.contains((x, v)) || (x, v) == d);
            assert(b.contains((y, v)) || (y, v) == d);
        }
    }
}

/// Where the boundary leads from each vertex, which vertices it enters, and where it branches.
struct Links {
    next: HashMap<u32, u32>,
    entered: HashSet<u32>,
    forked: HashSet<u32>,
}

impl Links {
    spec fn describes(&self, b: Set<(u32, u32)>) -> bool {
        &&& forall|v: u32| #[trigger] self.next@.contains_key(v) <==> has_exit(b, v)
        &&& forall|v: u32| #[trigger]
            self.next@.contains_key(v) ==> b.contains((v, self.next@[v]))
        &&& forall|v: u32| #[trigger] self.entered@.contains(v) <==> has_entry(b, v)
        &&& forall|v: u32| #[trigger] self.forked@.contains(v) <==> is_forked(b, v)
    }

    /// Where the boundary leads on from a vertex, if it does not branch there.
    fn plain_exit(&self, Ghost(b): Ghost<Set<(u32, u32)>>, v: u32) -> (r: Option<u32>)
        requires
            self.describes(b),
            b.finite(),
        ensures
            match r {
                Some(w) => is_plain(b, v) && b.contains((v, w)),
                None => !is_plain(b, v),
            },
    {
        proof {
            lemma_one_leaves(b, v);
            lemma_one_enters(b, v);
            assert(self.entered@.contains(v) <==> has_entry(b, v));
            assert(self.forked@.contains(v) <==> is_forked(b, v));
            assert(self.next@.contains_key(v) <==> has_exit(b, v));
        }
        if self.forked.contains(&v) || !self.entered.contains(&v) {
            return None;
        }
        match self.next.get(&v) {
            Some(w) => Some(*w),
            None => None,
        }
    }

    /// Takes in one more half-edge.
    fn link(&mut self, Ghost(b): Ghost<Set<(u32, u32)>>, u: u32, w: u32) -> (fresh: bool)
        requires
            old(self).describes(b),
            !b.contains((u, w)),
        ensures
            final(self).describes(b.insert((u, w))),
            fresh == !has_exit(b, u),
    {
        let ghost c = b.insert((u, w));
        proof {
            assert(self.next@.contains_key(u) <==> has_exit(b, u));
            assert(self.entered@.contains(w) <==> has_entry(b, w));
        }
        let fresh = !self.next.contains_key(&u);
        if fresh {
            self.next.insert(u, w);
        } else {
            self.forked.insert(u);
        }
        if self.entered.contains(&w) {
            self.forked.insert(w);
        } else {
            self.entered.insert(w);
        }
        proof {
            assert(c.contains((u, w)));
            assert forall|v: u32| #[trigger] self.next@.contains_key(v) <==> has_exit(c, v) by {
                assert(old(self).next@.contains_key(v) <==> has_exit(b, v));
                if has_exit(b, v) {
                    let x = choose|x: u32| b.contains((v, x));
                    assert(c.contains((v, x)));
                }
                if has_exit(c, v) && v != u {
                    let x = choose|x: u32| c.contains((v, x));
                    assert(b.contains((v, x)));
                }
            }
            assert forall|v: u32| #[trigger] self.next@.contains_key(v) implies c.contains(
                (v, self.next@[v]),
            ) by {
                assert(old(self).next@.contains_key(v) ==> b.contains((v, old(self).next@[v])));
            }
            assert forall|v: u32| #[trigger] self.entered@.contains(v) <==> has_entry(c, v) by {
                assert(old(self).entered@.contains(v) <==> has_entry(b, v));
                if has_entry(b, v) {
                    let x = choose|x: u32| b.contains((x, v));
                    assert(c.contains((x, v)));
                }
                if has_entry(c, v) && v != w {
                    let x = choose|x: u32| c.contains((x, v));
                    assert(b.contains((x, v)));
                }
            }
            assert forall|v: u32| #[trigger] self.forked@.contains(v) <==> is_forked(c, v) by {
                assert(old(self).forked@.contains(v) <==> is_forked(b, v));
                lemma_fork_insert(b, (u, w), v);
            }
        }
        fresh
    }
}

/// The links of the boundary, and the vertices it leaves in order.
fn boundary_links(h: &Vec<(u32, u32)>) -> (r: (Links, Vec<u32>))
    ensures
        r.0.describes(boundary(h@)),
        forall|i: int, j: int| 0 <= i < j < r.1@.len() ==> r.1@[i] < r.1@[j],
        forall|v: u32| has_exit(boundary(h@), v) <==> #[trigger] r.1@.contains(v),
{
    let tally = EdgeTally::of(h);
    let mut links = Links { next: HashMap::new(), entered: HashSet::new(), forked: HashSet::new() };
    let mut keys: Vec<u64> = Vec::new();
    let ghost mut seen: Set<(u32, u32)> = Set::empty();
    for i in 0..h.len()
        invariant
            tally.tallies(h@),
            forall|d: (u32, u32)| #[trigger]
                seen.contains(d) <==> uses(h@, edge_of(d.0, d.1)) == 1 && h@.take(
                    i as int,
                ).contains(d),
            links.describes(seen),
            keys@.no_duplicates(),
            forall|k: u64| #[trigger]
                keys@.contains(k) <==> k <= u32::MAX && has_exit(seen, k as u32),
    {
        let (a, b) = h[i];
        let ghost old_seen = seen;
        proof {
            assert(tally.held(edge_of(a, b)) == up_to_three(uses(h@, edge_of(a, b))));
            assert(h@.take(i + 1) =~= h@.take(i as int).push((a, b)));
            assert forall|d: (u32, u32)| #[trigger] h@.take(i + 1).contains(d) <==> h@.take(
                i as int,
            ).contains(d) || d == (a, b) by {
                if h@.take(i as int).contains(d) {
                    let k = h@.take(i as int).index_of(d);
                    assert(h@.take(i + 1)[k] == d);
                }
                assert(h@.take(i + 1)[i as int] == (a, b));
            }
        }
        if tally.get(a, b) == 1 {
            proof {
                if seen.contains((a, b)) {
                    let k = h@.take(i as int).index_of((a, b));
                    assert(h@[k] == (a, b));
                    lemma_uses_two(h@, k, i as int);
                }
            }
            let fresh = links.link(Ghost(seen), a, b);
            let ghost before = keys@;
            if fresh {
                keys.push(a as u64);
            }
            proof {
                seen = seen.insert((a, b));
                assert forall|k: u64| #[trigger] keys@.contains(k) <==> k <= u32::MAX && has_exit(
                    seen,
                    k as u32,
                ) by {
                    assert(before.contains(k) <==> k <= u32::MAX && has_exit(old_seen, k as u32));
                    if before.contains(k) {
                        let j = before.index_of(k);
                        assert(keys@[j] == k);
                        let v = k as u32;
                        let x = choose|x: u32| old_seen.contains((v, x));
                        assert(seen.contains((v, x)));
                    }
                    if k == a as u64 {
                        assert(seen.contains((a, b)));
                        if fresh {
                            assert(keys@[keys@.len() - 1] == k);
                        }
                    }
                    if k <= u32::MAX && k != a as u64 && has_exit(seen, k as u32) {
                        let v = k as u32;
                        let x = choose|x: u32| seen.contains((v, x));
                        assert(old_seen.contains((v, x)));
                    }
                }
                if fresh {
                    assert(!before.contains(a as u64));
                }
            }
        }
    }
    proof {
        assert(h@.take(h@.len() as int) =~= h@);
        assert(seen =~= boundary(h@));
    }
    let ghost raw = keys@;
    sort_codes(&mut keys);
    proof {
        raw.to_multiset_ensures();
        keys@.to_multiset_ensures();
        raw.lemma_multiset_has_no_duplicates();
        assert forall|c: u64| keys@.to_multiset().contains(c) implies keys@.to_multiset().count(c)
            == 1 by {
            assert(raw.to_multiset().contains(c));
        }
        keys@.lemma_multiset_has_no_duplicates_conv();
        assert forall|c: u64| #[trigger] keys@.contains(c) <==> raw.contains(c) by {
            assert(keys@.contains(c) <==> keys@.to_multiset().count(c) > 0);
            assert(raw.contains(c) <==> raw.to_multiset().count(c) > 0);
        }
    }
    let mut starts: Vec<u32> = Vec::new();
    for i in 0..keys.len()
        invariant
            forall|i: int, j: int| 0 <= i < j < keys@.len() ==> keys@[i] < keys@[j],
            forall|k: u64| #[trigger]
                keys@.contains(k) <==> k <= u32::MAX && has_exit(boundary(h@), k as u32),
            starts@.len() == i,
            forall|j: int| 0 <= j < i ==> #[trigger] starts@[j] == keys@[j],
    {
        proof {
            assert(keys@.contains(keys@[i as int]));
        }
        starts.push(keys[i] as u32);
    }
    proof {
        assert forall|v: u32| has_exit(boundary(h@), v) <==> #[trigger] starts@.contains(v) by {
            if has_exit(boundary(h@), v) {
                assert(keys@.contains(v as u64));
                let j = keys@.index_of(v as u64);
                assert(starts@[j] == v);
            }
            if starts@.contains(v) {
                let j = starts@.index_of(v);
                assert(starts@[j] == v);
                assert(keys@.contains(keys@[j]));
            }
        }
    }
    (links, starts)
}

/// A chain of plain vertices along the boundary from `s` up to `cur`.
spec fn is_chain(b: Set<(u32, u32)>, s: u32, chain: Seq<u32>, cur: u32) -> bool {
    &&& chain.no_duplicates()
    &&& chain.len() == 0 ==> cur == s
    &&& chain.len() > 0 ==> chain[0] == s && b.contains((chain.last(), cur))
    &&& forall|k: int| 0 <= k < chain.len() ==> is_plain(b, #[trigger] chain[k])
    &&& forall|k: int|
        0 <= k < chain.len() - 1 ==> b.contains((chain[k], #[trigger] after(chain, k)))
}

/// A chain from the first vertex of a loop runs along that loop.
proof fn lemma_chain_on_hole(
    b: Set<(u32, u32)>,
    s: u32,
    chain: Seq<u32>,
    cur: u32,
    d: Seq<u32>,
    n: int,
)
    requires
        b.finite(),
        is_chain(b, s, chain, cur),
        is_simple_hole(b, d),
        d[0] == s,
        0 <= n <= chain.len(),
    ensures
        n <= d.len(),
        forall|k: int| 0 <= k < n ==> chain[k] == d[k],
    decreases n,
{
    if n > 1 {
        lemma_chain_on_hole(b, s, chain, cur, d, n - 1);
        let v = chain[n - 2];
        lemma_one_leaves(b, v);
        assert(is_plain(b, v));
        assert(b.contains((chain[n - 2], after(chain, n - 2))));
        assert(b.contains((d[n - 2], after(d, n - 2))));
        assert(chain[n - 1] == after(d, n - 2));
        if n - 1 == d.len() {
            assert(chain[n - 1] == chain[0]);
        }
    }
}

/// A chain that meets a loop began on it.
proof fn lemma_chain_meets_hole(
    b: Set<(u32, u32)>,
    s: u32,
    chain: Seq<u32>,
    cur: u32,
    d: Seq<u32>,
    k: int,
)
    requires
        b.finite(),
        is_chain(b, s, chain, cur),
        is_simple_hole(b, d),
        0 <= k < chain.len(),
        d.contains(chain[k]),
    ensures
        d.contains(s),
    decreases k,
{
    if k > 0 {
        let v = chain[k];
        let j = d.index_of(v);
        let i = if j == 0 {
            d.len() - 1
        } else {
            j - 1
        };
        lemma_one_enters(b, v);
        assert(is_plain(b, v));
        assert(after(d, i) == v);
        assert(b.contains((d[i], after(d, i))));
        assert(b.contains((chain[k - 1], after(chain, k - 1))));
        assert(d[i] == chain[k - 1]);
        lemma_chain_meets_hole(b, s, chain, cur, d, k - 1);
    }
}

/// Follows the boundary from `s` over plain vertices that are not used, and uses them up.
fn follow_from(
    links: &Links,
    Ghost(b): Ghost<Set<(u32, u32)>>,
    used: &mut HashSet<u32>,
    s: u32,
    Ghost(all): Ghost<Set<u32>>,
) -> (r: (Vec<u32>, u32))
    requires
        links.describes(b),
        b.finite(),
        all.finite(),
        forall|v: u32| #[trigger] is_plain(b, v) ==> all.contains(v),
    ensures
        is_chain(b, s, r.0@, r.1),
        final(used)@ == old(used)@.union(r.0@.to_set()),
        forall|k: int| 0 <= k < r.0@.len() ==> !old(used)@.contains(#[trigger] r.0@[k]),
        !is_plain(b, r.1) || final(used)@.contains(r.1),
{
    let ghost u0 = used@;
    let mut chain: Vec<u32> = Vec::new();
    let mut cur = s;
    assert(used@ =~= u0.union(chain@.to_set()));
    loop
        invariant
            links.describes(b),
            b.finite(),
            all.finite(),
            forall|v: u32| #[trigger] is_plain(b, v) ==> all.contains(v),
            is_chain(b, s, chain@, cur),
            used@ == u0.union(chain@.to_set()),
            forall|k: int| 0 <= k < chain@.len() ==> !u0.contains(#[trigger] chain@[k]),
        ensures
            is_chain(b, s, chain@, cur),
            used@ == u0.union(chain@.to_set()),
            forall|k: int| 0 <= k < chain@.len() ==> !u0.contains(#[trigger] chain@[k]),
            !is_plain(b, cur) || used@.contains(cur),
        decreases all.difference(used@).len(),
    {
        if used.contains(&cur) {
            break;
        }
        let step = links.plain_exit(Ghost(b), cur);
        if step.is_none() {
            break;
        }
        let ghost c1 = chain@;
        let ghost u1 = used@;
        let ghost here = cur;
        used.insert(cur);
        chain.push(cur);
        cur = step.unwrap();
        proof {
            assert(chain@.to_set() =~= c1.to_set().insert(here)) by {
                assert forall|v: u32| chain@.contains(v) <==> c1.contains(v) || v == here by {
                    if c1.contains(v) {
                        let i = c1.index_of(v);
                        assert(chain@[i] == v);
                    }
                    assert(chain@[chain@.len() - 1] == here);
                }
            }
            assert(used@ =~= u0.union(chain@.to_set()));
            assert(!c1.contains(here)) by {
                if c1.contains(here) {
                    assert(c1.to_set().contains(here));
                }
            }
            assert(all.difference(used@) =~= all.difference(u1).remove(here));
            assert(all.difference(u1).contains(here));
            assert forall|k: int| 0 <= k < chain@.len() - 1 implies b.contains(
                (chain@[k], #[trigger] after(chain@, k)),
            ) by {
                if k + 1 < c1.len() {
                    assert(after(chain@, k) == after(c1, k));
                    assert(chain@[k] == c1[k]);
                }
            }
        }
    }
    (chain, cur)
}

/// What has been used up once every loop that begins below `n` has been found: the vertices of
/// those loops, of no other loop, and every plain vertex below `n`.
spec fn used_up(b: Set<(u32, u32)>, used: Set<u32>, n: int) -> bool {
    &&& forall|d: Seq<u32>, k: int|
        #[trigger] is_simple_hole(b, d) && 0 <= k < d.len() ==> (used.contains(#[trigger] d[k])
            <==> d[0] < n)
    &&& forall|v: u32| #[trigger] is_plain(b, v) && v < n ==> used.contains(v)
}

/// What a chain from `s` means: it is the loop that begins at `s`, where there is one.
proof fn lemma_chain_from(
    b: Set<(u32, u32)>,
    used: Set<u32>,
    n: int,
    s: u32,
    chain: Seq<u32>,
    cur: u32,
)
    requires
        b.finite(),
        used_up(b, used, n),
        0 <= n <= s,
        forall|v: u32| #[trigger] is_plain(b, v) && n <= v ==> s <= v,
        is_chain(b, s, chain, cur),
        forall|k: int| 0 <= k < chain.len() ==> !used.contains(#[trigger] chain[k]),
        !is_plain(b, cur) || used.contains(cur) || chain.contains(cur),
        used.contains(s) || !is_plain(b, s) || chain.len() > 0,
    ensures
        cur == s && chain.len() >= 3 <==> has_hole(b, s as int),
        has_hole(b, s as int) ==> chain == hole_at(b, s as int),
        used_up(b, used.union(chain.to_set()), s + 1),
{
    let after_used = used.union(chain.to_set());
    if has_hole(b, s as int) {
        let d = hole_at(b, s as int);
        assert(is_simple_hole(b, d) && d[0] == s);
        lemma_chain_on_hole(b, s, chain, cur, d, chain.len() as int);
        let m = chain.len() as int;
        if m == 0 {
            assert(is_plain(b, d[0]));
            assert(used.contains(d[0]) <==> d[0] < n);
        } else {
            assert(is_plain(b, chain[m - 1]));
            lemma_one_leaves(b, chain[m - 1]);
            assert(b.contains((d[m - 1], after(d, m - 1))));
            assert(cur == after(d, m - 1));
            if m < d.len() {
                assert(cur == d[m]);
                assert(is_plain(b, d[m]));
                assert(!used.contains(d[m]));
                if chain.contains(cur) {
                    let k = chain.index_of(cur);
                    assert(d[k] == d[m]);
                }
            }
        }
        assert(chain =~= d);
    } else if cur == s && chain.len() >= 3 {
        assert forall|w: int| 0 <= w < chain.len() implies b.contains(
            (chain[w], #[trigger] after(chain, w)),
        ) by {
            if w + 1 == chain.len() {
                assert(after(chain, w) == s);
            }
        }
        assert forall|w: int| 0 <= w < chain.len() implies chain[0] <= #[trigger] chain[w] by {
            assert(is_plain(b, chain[w]));
            assert(!used.contains(chain[w]));
        }
        assert(is_simple_hole(b, chain));
    }
    assert forall|d: Seq<u32>, k: int|
        #[trigger] is_simple_hole(b, d) && 0 <= k < d.len() implies (after_used.contains(
        #[trigger] d[k],
    ) <==> d[0] < s + 1) by {
        assert(used.contains(d[k]) <==> d[0] < n);
        assert(is_plain(b, d[0]));
        if d[0] == s {
            assert(has_hole(b, s as int));
            lemma_hole_unique(b, d, hole_at(b, s as int));
            assert(chain[k] == d[k]);
        } else if d[0] > s {
            if chain.contains(d[k]) {
                let i = chain.index_of(d[k]);
                lemma_chain_meets_hole(b, s, chain, cur, d, i);
                let j = d.index_of(s);
                assert(d[0] <= d[j]);
            }
        }
    }
    assert forall|v: u32| #[trigger] is_plain(b, v) && v < s + 1 implies after_used.contains(
        v,
    ) by {
        if v >= n {
            assert(v == s);
            if !used.contains(s) {
                assert(chain[0] == s);
                assert(chain.contains(s));
            }
        }
    }
}

/// The simple boundary loops of a list of faces.
fn find_loops(faces: &[Face]) -> (loops: Vec<Vec<u32>>)
    ensures
        views(loops@) == simple_holes(faces@),
{
    let h = half_edges(faces);
    let (links, starts) = boundary_links(&h);
    let ghost b = boundary(h@);
    let ghost all = starts@.to_set();
    let mut used: HashSet<u32> = HashSet::new();
    let mut loops: Vec<Vec<u32>> = Vec::new();
    let ghost mut n: int = 0;
    proof {
        vstd::seq_lib::seq_to_set_is_finite(h@);
        vstd::seq_lib::seq_to_set_is_finite(starts@);
        assert(views(loops@) =~= Seq::<Seq<u32>>::empty());
        assert forall|v: u32| #[trigger] is_plain(b, v) implies starts@.contains(v) by {
            lemma_one_leaves(b, v);
        }
    }
    for i in 0..starts.len()
        invariant
            b == boundary(h@),
            b.finite(),
            links.describes(b),
            all == starts@.to_set(),
            all.finite(),
            forall|i: int, j: int| 0 <= i < j < starts@.len() ==> starts@[i] < starts@[j],
            forall|v: u32| #[trigger] is_plain(b, v) ==> starts@.contains(v),
            n == (if i == 0 {
                0
            } else {
                starts@[i - 1] + 1
            }),
            views(loops@) == holes_below(b, n),
            used_up(b, used@, n),
    {
        let s = starts[i];
        let ghost u0 = used@;
        let ghost found = views(loops@);
        proof {
            assert forall|v: u32| #[trigger] is_plain(b, v) && n <= v implies s <= v by {
                let j = starts@.index_of(v);
                assert(starts@[j] == v);
            }
            assert forall|t: int| n <= t < s implies !#[trigger] has_hole(b, t) by {
                if has_hole(b, t) {
                    let c = hole_at(b, t);
                    assert(is_simple_hole(b, c) && c[0] == t);
                    assert(is_plain(b, c[0]));
                }
            }
            lemma_no_hole_between(b, n, s as int);
        }
        let (chain, end) = follow_from(&links, Ghost(b), &mut used, s, Ghost(all));
        proof {
            assert(chain@.to_set().contains(end) <==> chain@.contains(end));
            if chain@.len() == 0 {
                assert(chain@.to_set() =~= Set::empty());
                assert(used@ =~= u0);
            }
            lemma_chain_from(b, u0, n, s, chain@, end);
            n = s + 1;
        }
        if end == s && chain.len() >= 3 {
            loops.push(chain);
            proof {
                assert(views(loops@) =~= found.push(chain@));
            }
        }
    }
    proof {
        assert forall|t: int| n <= t < 0x1_0000_0000 implies !#[trigger] has_hole(b, t) by {
            if has_hole(b, t) {
                let c = hole_at(b, t);
                assert(is_simple_hole(b, c) && c[0] == t);
                assert(is_plain(b, c[0]));
                let j = starts@.index_of(c[0]);
                assert(starts@[j] == c[0]);
            }
        }
        lemma_no_hole_between(b, n, 0x1_0000_0000);
    }
    loops
}

/// Fan-triangulates every simple boundary loop. Hands out the cap faces and the number of loops;
/// boundaries that are not simple loops are left open.
pub fn cap_faces(faces: &[Face]) -> (r: (Vec<Face>, usize))
    ensures
        r.0@ == loop_fans(simple_holes(faces@)),
        r.1 == simple_holes(faces@).len(),
{
    let loops = find_loops(faces);
    let mut fill: Vec<Face> = Vec::new();
    let ghost all = views(loops@);
    proof {
        lemma_boundary_holes(faces@);
        assert(all.len() == loops@.len());
        assert forall|k: int| 0 <= k < all.len() implies (#[trigger] all[k]).len() >= 3 by {
            assert(simple_holes(faces@).contains(all[k]));
        }
    }
    for k in 0..loops.len()
        invariant
            all == views(loops@),
            forall|k: int| 0 <= k < all.len() ==> (#[trigger] all[k]).len() >= 3,
            fill@ == loop_fans(all.take(k as int)),
    {
        let c = &loops[k];
        let ghost done = fill@;
        proof {
            assert(all[k as int] == c@);
        }
        for w in 1..c.len() - 1
            invariant
                c@.len() >= 3,
                fill@ == done + loop_fan(c@).take(w - 1),
        {
            fill.push([c[0], c[w + 1], c[w]]);
            assert(fill@ =~= done + loop_fan(c@).take(w as int));
        }
        proof {
            assert(loop_fan(c@).take(c@.len() - 2) =~= loop_fan(c@));
            assert(all.take(k + 1).drop_last() =~= all.take(k as int));
        }
    }
    assert(all.take(loops.len() as int) =~= all);
    let holes = loops.len();
    (fill, holes)
}

} // verus!
