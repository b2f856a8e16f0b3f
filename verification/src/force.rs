//! Closing every boundary loop, frayed ones too, with a fan around a new hub vertex.
use crate::closing::loop_edges;
use crate::hubs::cycle_edges;
use crate::mesh::{
    edge_of, half_edges, half_edges_of, lemma_uses_two, up_to_three, uses, EdgeTally, Face,
};
use crate::trusted::sort_codes;
use std::collections::{HashMap, HashSet};
use vstd::prelude::*;

verus! {

broadcast use vstd::std_specs::hash::group_hash_axioms;

/// The boundary: the half-edges whose edge no other half-edge of the list lies on.
pub open spec fn boundary(h: Seq<(u32, u32)>) -> Set<(u32, u32)> {
    h.to_set().filter(|d: (u32, u32)| uses(h, edge_of(d.0, d.1)) == 1)
}

/// Whether a half-edge leaves the vertex.
pub open spec fn has_exit(e: Set<(u32, u32)>, v: u32) -> bool {
    exists|w: u32| e.contains((v, w))
}

/// `w` is the smallest vertex that a half-edge from `v` leads to.
pub open spec fn least_exit(e: Set<(u32, u32)>, v: u32, w: u32) -> bool {
    e.contains((v, w)) && forall|x: u32| #[trigger] e.contains((v, x)) ==> w <= x
}

/// The smallest vertex that a half-edge from `v` leads to.
pub open spec fn exit(e: Set<(u32, u32)>, v: u32) -> u32 {
    choose|w: u32| least_exit(e, v, w)
}

/// `s` is the smallest vertex that a half-edge leaves.
pub open spec fn is_least_source(e: Set<(u32, u32)>, s: u32) -> bool {
    has_exit(e, s) && forall|t: u32| #[trigger] has_exit(e, t) ==> s <= t
}

/// The smallest vertex that a half-edge leaves.
pub open spec fn least_source(e: Set<(u32, u32)>) -> u32 {
    choose|s: u32| is_least_source(e, s)
}

/// Walks from `cur` along the smallest exits, using up each half-edge it takes. Whenever it
/// comes back to a vertex of its path, the path since that vertex is cut off as a cycle; cycles
/// of three vertices or more are handed out, in the order in which they close. Where it finds no
/// exit, it gives its path up, or, if it may go back, steps back along it: the half-edge it came
/// by lies on no cycle. The result is the half-edges that are left at the end, and those cycles.
pub open spec fn walk(e: Set<(u32, u32)>, path: Seq<u32>, cur: u32, back: bool) -> (
    Set<(u32, u32)>,
    Seq<Seq<u32>>,
)
    decreases e.len(), path.len(),
    when e.finite()
{
    if !has_exit(e, cur) {
        if path.len() == 0 || !back {
            (e, Seq::empty())
        } else {
            walk(e, path.drop_last(), path.last(), back)
        }
    } else {
        let nxt = exit(e, cur);
        let e1 = e.remove((cur, nxt));
        let p1 = path.push(cur);
        proof {
            lemma_exit(e, cur);
        }
        if p1.contains(nxt) {
            let p = p1.index_of(nxt);
            let cycle = p1.skip(p);
            let rest = walk(e1, p1.take(p), nxt, back);
            (rest.0, if cycle.len() >= 3 {
                seq![cycle] + rest.1
            } else {
                rest.1
            })
        } else {
            walk(e1, p1, nxt, back)
        }
    }
}

/// The cycles that walks over a set of half-edges hand out: walks start at the smallest vertex
/// that still has an exit, until no half-edge is left.
pub open spec fn sweep(e: Set<(u32, u32)>, back: bool) -> Seq<Seq<u32>>
    decreases e.len(),
    when e.finite()
{
    if e.is_empty() {
        Seq::empty()
    } else {
        let s = least_source(e);
        let w = walk(e, Seq::empty(), s, back);
        proof {
            lemma_least_source(e);
            lemma_walk_shrinks(e, Seq::empty(), s, back);
        }
        w.1 + sweep(w.0, back)
    }
}

/// The half-edges that are on none of the cycles of the first sweep.
pub open spec fn missed(e: Set<(u32, u32)>) -> Set<(u32, u32)> {
    e.difference(loop_edges(sweep(e, false)).to_set())
}

/// All cycles of a set of half-edges: those of a first sweep, in which walks give up at dead ends,
/// and then those of a second one over what the first missed, in which they step back.
pub open spec fn trace(e: Set<(u32, u32)>) -> Seq<Seq<u32>> {
    sweep(e, false) + sweep(missed(e), true)
}

proof fn lemma_exit_below(e: Set<(u32, u32)>, v: u32, w: u32)
    requires
        e.contains((v, w)),
    ensures
        exists|x: u32| least_exit(e, v, x),
    decreases w,
{
    if exists|x: u32| x < w && e.contains((v, x)) {
        let x = choose|x: u32| x < w && e.contains((v, x));
        lemma_exit_below(e, v, x);
    } else {
        assert(least_exit(e, v, w));
    }
}

/// The smallest exit exists where any does.
pub proof fn lemma_exit(e: Set<(u32, u32)>, v: u32)
    requires
        has_exit(e, v),
    ensures
        least_exit(e, v, exit(e, v)),
{
    let w = choose|w: u32| e.contains((v, w));
    lemma_exit_below(e, v, w);
}

proof fn lemma_source_below(e: Set<(u32, u32)>, s: u32)
    requires
        has_exit(e, s),
    ensures
        exists|x: u32| is_least_source(e, x),
    decreases s,
{
    if exists|x: u32| x < s && has_exit(e, x) {
        let x = choose|x: u32| x < s && has_exit(e, x);
        lemma_source_below(e, x);
    } else {
        assert(is_least_source(e, s));
    }
}

/// The smallest source exists where any half-edge does.
pub proof fn lemma_least_source(e: Set<(u32, u32)>)
    requires
        !e.is_empty(),
    ensures
        is_least_source(e, least_source(e)),
{
    let d = choose|d: (u32, u32)| e.contains(d);
    assert(e.contains((d.0, d.1)));
    lemma_source_below(e, d.0);
}

/// A walk only uses half-edges up, and at least one where it can start.
pub proof fn lemma_walk_shrinks(e: Set<(u32, u32)>, path: Seq<u32>, cur: u32, back: bool)
    requires
        e.finite(),
    ensures
        walk(e, path, cur, back).0.subset_of(e),
        walk(e, path, cur, back).0.finite(),
        walk(e, path, cur, back).0.len() <= e.len(),
        has_exit(e, cur) ==> walk(e, path, cur, back).0.len() < e.len(),
    decreases e.len(), path.len(),
{
    if !has_exit(e, cur) && path.len() > 0 {
        lemma_walk_shrinks(e, path.drop_last(), path.last(), back);
    }
    if has_exit(e, cur) {
        lemma_exit(e, cur);
        let nxt = exit(e, cur);
        let e1 = e.remove((cur, nxt));
        let p1 = path.push(cur);
        if p1.contains(nxt) {
            lemma_walk_shrinks(e1, p1.take(p1.index_of(nxt)), nxt, back);
        } else {
            lemma_walk_shrinks(e1, p1, nxt, back);
        }
    }
}

/// One number per half-edge; numbers order half-edges by source, then by target.
pub open spec fn dir_code(d: (u32, u32)) -> u64 {
    (d.0 * 0x1_0000_0000 + d.1) as u64
}

/// The half-edge that a number stands for.
pub open spec fn dir_of(c: u64) -> (u32, u32) {
    ((c / 0x1_0000_0000) as u32, (c % 0x1_0000_0000) as u32)
}

proof fn lemma_dir_code(d: (u32, u32))
    ensures
        dir_of(dir_code(d)) == d,
{
    assert(d.0 * 0x1_0000_0000 + d.1 <= u64::MAX);
}

proof fn lemma_dir_of(c: u64)
    ensures
        dir_code(dir_of(c)) == c,
{
}

proof fn lemma_source_order(c: u64, d: u64)
    requires
        c <= d,
    ensures
        dir_of(c).0 <= dir_of(d).0,
        dir_of(c).0 == dir_of(d).0 && c < d ==> dir_of(c).1 < dir_of(d).1,
{
}

/// The boundary half-edges in order, with a cursor per source vertex: what stands before the
/// cursor has been used up.
struct Exits {
    codes: Vec<u64>,
    next: HashMap<u32, usize>,
}

impl Exits {
    spec fn wf(&self) -> bool {
        &&& forall|i: int, j: int|
            0 <= i < j < self.codes@.len() ==> self.codes@[i] < self.codes@[j]
        &&& forall|k: int|
            0 <= k < self.codes@.len() ==> self.next@.contains_key(
                dir_of(#[trigger] self.codes@[k]).0,
            )
        &&& forall|v: u32| #[trigger]
            self.next@.contains_key(v) ==> self.next@[v] <= self.codes@.len()
        &&& forall|v: u32, k: int|
            self.next@.contains_key(v) && self.next@[v] <= k < self.codes@.len() && dir_of(
                #[trigger] self.codes@[k],
            ).0 == v ==> dir_of(self.codes@[#[trigger] self.next@[v] as int]).0 == v
    }

    /// The half-edges that have not been used up.
    spec fn left(&self) -> Set<(u32, u32)> {
        Set::new(
            |d: (u32, u32)|
                exists|k: int|
                    0 <= k < self.codes@.len() && #[trigger] self.codes@[k] == dir_code(d)
                        && self.next@[d.0] <= k,
        )
    }

    proof fn lemma_left_finite(&self)
        ensures
            self.left().finite(),
    {
        let all = self.codes@.map_values(|c: u64| dir_of(c));
        vstd::seq_lib::seq_to_set_is_finite(all);
        assert(self.left().subset_of(all.to_set())) by {
            assert forall|d: (u32, u32)| self.left().contains(d) implies all.to_set().contains(
                d,
            ) by {
                let k = choose|k: int|
                    0 <= k < self.codes@.len() && #[trigger] self.codes@[k] == dir_code(d)
                        && self.next@[d.0] <= k;
                lemma_dir_code(d);
                assert(all[k] == d);
            }
        }
        vstd::set_lib::lemma_set_subset_finite(all.to_set(), self.left());
    }

    /// Whether the vertex has an exit that is not used up.
    fn any(&self, v: u32) -> (r: bool)
        requires
            self.wf(),
        ensures
            r == has_exit(self.left(), v),
    {
        let ghost e = self.left();
        proof {
            if has_exit(e, v) {
                let w = choose|w: u32| e.contains((v, w));
                lemma_dir_code((v, w));
            }
        }
        match self.next.get(&v) {
            Some(at) => {
                let at: usize = *at;
                if at < self.codes.len() && (self.codes[at] / 0x1_0000_0000) as u32 == v {
                    proof {
                        let c = self.codes@[at as int];
                        lemma_dir_of(c);
                        assert(e.contains((v, dir_of(c).1)));
                    }
                    true
                } else {
                    false
                }
            },
            None => false,
        }
    }

    /// Uses up the smallest exit of a vertex and says where it leads.
    fn take(&mut self, v: u32) -> (r: Option<u32>)
        requires
            old(self).wf(),
        ensures
            final(self).wf(),
            match r {
                None => !has_exit(old(self).left(), v) && *final(self) == *old(self),
                Some(w) => has_exit(old(self).left(), v) && w == exit(old(self).left(), v)
                    && final(self).left() == old(self).left().remove((v, w)),
            },
    {
        let ghost e = self.left();
        let at: usize = match self.next.get(&v) {
            Some(at) => *at,
            None => {
                proof {
                    if has_exit(e, v) {
                        let w = choose|w: u32| e.contains((v, w));
                        lemma_dir_code((v, w));
                    }
                }
                return None;
            },
        };
        if at >= self.codes.len() || (self.codes[at] / 0x1_0000_0000) as u32 != v {
            proof {
                if has_exit(e, v) {
                    let w = choose|w: u32| e.contains((v, w));
                    lemma_dir_code((v, w));
                }
            }
            return None;
        }
        let c = self.codes[at];
        let w = (c % 0x1_0000_0000) as u32;
        self.next.insert(v, at + 1);
        proof {
            lemma_dir_of(c);
            assert(dir_of(c) == (v, w));
            assert(e.contains((v, w)));
            assert forall|x: u32| #[trigger] e.contains((v, x)) implies w <= x by {
                lemma_dir_code((v, x));
                let k = choose|k: int|
                    0 <= k < self.codes@.len() && #[trigger] self.codes@[k] == dir_code((v, x))
                        && old(self).next@[v] <= k;
                lemma_source_order(c, self.codes@[k]);
            }
            assert(least_exit(e, v, w));
            lemma_exit(e, v);
            let x = exit(e, v);
            assert(e.contains((v, x)));
            assert(w == x);
            assert forall|u: u32, k: int|
                self.next@.contains_key(u) && self.next@[u] <= k < self.codes@.len() && dir_of(
                    #[trigger] self.codes@[k],
                ).0 == u implies dir_of(self.codes@[#[trigger] self.next@[u] as int]).0 == u by {
                if u == v {
                    lemma_source_order(c, self.codes@[at + 1]);
                    if k > at + 1 {
                        lemma_source_order(self.codes@[at + 1], self.codes@[k]);
                    }
                }
            }
            assert(self.left() =~= e.remove((v, w))) by {
                assert forall|d: (u32, u32)| self.left().contains(d) <==> e.remove(
                    (v, w),
                ).contains(d) by {
                    lemma_dir_code(d);
                    if self.left().contains(d) {
                        let k = choose|k: int|
                            0 <= k < self.codes@.len() && #[trigger] self.codes@[k] == dir_code(d)
                                && self.next@[d.0] <= k;
                        assert(e.contains(d));
                    }
                    if e.remove((v, w)).contains(d) {
                        let k = choose|k: int|
                            0 <= k < self.codes@.len() && #[trigger] self.codes@[k] == dir_code(d)
                                && old(self).next@[d.0] <= k;
                        if d.0 == v && k == at {
                            assert(dir_of(self.codes@[k]) == d);
                        }
                        assert(self.next@[d.0] <= k);
                    }
                }
            }
        }
        Some(w)
    }
}

/// The half-edges that numbers stand for.
spec fn dirs(codes: Seq<u64>) -> Set<(u32, u32)> {
    Set::new(|d: (u32, u32)| codes.contains(dir_code(d)))
}

/// The numbers of the boundary half-edges, in no particular order.
fn boundary_codes(h: &Vec<(u32, u32)>) -> (codes: Vec<u64>)
    ensures
        codes@.no_duplicates(),
        dirs(codes@) == boundary(h@),
{
    let tally = EdgeTally::of(h);
    let mut codes: Vec<u64> = Vec::new();
    for i in 0..h.len()
        invariant
            tally.tallies(h@),
            codes@.no_duplicates(),
            forall|c: u64| #[trigger]
                codes@.contains(c) <==> exists|k: int|
                    0 <= k < i && #[trigger] h@[k] == dir_of(c) && uses(
                        h@,
                        edge_of(dir_of(c).0, dir_of(c).1),
                    ) == 1,
    {
        let (a, b) = h[i];
        let ghost before = codes@;
        let c = (a as u64) * 0x1_0000_0000 + (b as u64);
        proof {
            lemma_dir_code((a, b));
            assert(dir_of(c) == (a, b));
            assert(tally.held(edge_of(a, b)) == up_to_three(uses(h@, edge_of(a, b))));
        }
        if tally.get(a, b) == 1 {
            codes.push(c);
            proof {
                if before.contains(c) {
                    let k = choose|k: int|
                        0 <= k < i && #[trigger] h@[k] == dir_of(c) && uses(
                            h@,
                            edge_of(dir_of(c).0, dir_of(c).1),
                        ) == 1;
                    lemma_uses_two(h@, k, i as int);
                }
                assert(codes@.last() == c);
                assert forall|x: u64| #[trigger]
                    codes@.contains(x) <==> before.contains(x) || x == c by {
                    if before.contains(x) {
                        let j = before.index_of(x);
                        assert(codes@[j] == x);
                    }
                    if x == c {
                        assert(codes@[codes@.len() - 1] == c);
                    }
                }
            }
        }
        proof {
            assert forall|x: u64| #[trigger] codes@.contains(x) <==> exists|k: int|
                0 <= k < i + 1 && #[trigger] h@[k] == dir_of(x) && uses(
                    h@,
                    edge_of(dir_of(x).0, dir_of(x).1),
                ) == 1 by {
                lemma_dir_of(x);
                if before.contains(x) {
                    let k = choose|k: int|
                        0 <= k < i && #[trigger] h@[k] == dir_of(x) && uses(
                            h@,
                            edge_of(dir_of(x).0, dir_of(x).1),
                        ) == 1;
                    assert(h@[k] == dir_of(x));
                }
                if x == c {
                    assert(h@[i as int] == dir_of(x));
                }
                if dir_of(x) == (a, b) {
                    assert(x == c);
                }
            }
        }
    }
    proof {
        assert forall|c: u64| #[trigger] codes@.contains(c) <==> boundary(h@).contains(
            dir_of(c),
        ) by {
            if h@.contains(dir_of(c)) {
                let k = h@.index_of(dir_of(c));
                assert(h@[k] == dir_of(c));
            }
        }
        assert forall|d: (u32, u32)| dirs(codes@).contains(d) <==> boundary(h@).contains(d) by {
            lemma_dir_code(d);
        }
        assert(dirs(codes@) =~= boundary(h@));
    }
    codes
}

/// The numbers of the half-edges of loops.
fn loop_codes(loops: &Vec<Vec<u32>>) -> (taken: HashSet<u64>)
    ensures
        forall|c: u64| #[trigger]
            taken@.contains(c) <==> loop_edges(views(loops@)).contains(dir_of(c)),
{
    let mut taken: HashSet<u64> = HashSet::new();
    let ghost all = views(loops@);
    assert(all.take(0) =~= Seq::empty());
    for k in 0..loops.len()
        invariant
            all == views(loops@),
            forall|c: u64| #[trigger]
                taken@.contains(c) <==> loop_edges(all.take(k as int)).contains(dir_of(c)),
    {
        let l = &loops[k];
        let ghost done = loop_edges(all.take(k as int));
        let ghost g = cycle_edges(l@);
        assert(g.take(0) =~= Seq::empty());
        assert(done + g.take(0) =~= done);
        for w in 0..l.len()
            invariant
                g == cycle_edges(l@),
                forall|c: u64| #[trigger]
                    taken@.contains(c) <==> (done + g.take(w as int)).contains(dir_of(c)),
        {
            let a = l[w];
            let b = if w + 1 < l.len() {
                l[w + 1]
            } else {
                l[0]
            };
            let code = (a as u64) * 0x1_0000_0000 + (b as u64);
            let ghost before = taken@;
            taken.insert(code);
            proof {
                lemma_dir_code((a, b));
                assert(code == dir_code((a, b)));
                let old_list = done + g.take(w as int);
                let new_list = done + g.take(w + 1);
                assert(new_list =~= old_list.push((a, b)));
                assert forall|c: u64| #[trigger] taken@.contains(c) <==> new_list.contains(
                    dir_of(c),
                ) by {
                    lemma_dir_of(c);
                    if old_list.contains(dir_of(c)) {
                        let i = old_list.index_of(dir_of(c));
                        assert(new_list[i] == dir_of(c));
                    }
                    assert(new_list[new_list.len() - 1] == (a, b));
                    assert(before.contains(c) <==> old_list.contains(dir_of(c)));
                }
            }
        }
        proof {
            assert(g.take(l@.len() as int) =~= g);
            assert(all.take(k + 1).drop_last() =~= all.take(k as int));
            assert(all.take(k + 1).last() == l@);
        }
    }
    assert(all.take(loops@.len() as int) =~= all);
    taken
}

/// The numbers of the half-edges that are on none of the loops.
fn codes_off_loops(codes: &Vec<u64>, loops: &Vec<Vec<u32>>) -> (rest: Vec<u64>)
    requires
        codes@.no_duplicates(),
    ensures
        rest@.no_duplicates(),
        dirs(rest@) == dirs(codes@).difference(loop_edges(views(loops@)).to_set()),
{
    let taken = loop_codes(loops);
    let ghost l = loop_edges(views(loops@));
    let mut rest: Vec<u64> = Vec::new();
    for i in 0..codes.len()
        invariant
            codes@.no_duplicates(),
            l == loop_edges(views(loops@)),
            forall|c: u64| #[trigger] taken@.contains(c) <==> l.contains(dir_of(c)),
            rest@.no_duplicates(),
            forall|c: u64| #[trigger]
                rest@.contains(c) <==> codes@.take(i as int).contains(c) && !l.contains(dir_of(c)),
    {
        let c = codes[i];
        let ghost before = rest@;
        let ghost part = codes@.take(i as int);
        let ghost next = codes@.take(i + 1);
        proof {
            assert(next =~= part.push(c));
            assert(!part.contains(c)) by {
                if part.contains(c) {
                    let k = part.index_of(c);
                    assert(codes@[k] == codes@[i as int]);
                }
            }
            assert forall|x: u64| #[trigger] next.contains(x) <==> part.contains(x) || x == c by {
                if part.contains(x) {
                    let k = part.index_of(x);
                    assert(next[k] == x);
                }
                assert(next[i as int] == c);
            }
        }
        if !taken.contains(&c) {
            assert(!before.contains(c));
            rest.push(c);
            proof {
                assert forall|x: u64| #[trigger] rest@.contains(x) <==> before.contains(x) || x
                    == c by {
                    if before.contains(x) {
                        let k = before.index_of(x);
                        assert(rest@[k] == x);
                    }
                    assert(rest@[rest@.len() - 1] == c);
                }
            }
        }
    }
    proof {
        assert(codes@.take(codes@.len() as int) =~= codes@);
        assert forall|d: (u32, u32)| dirs(rest@).contains(d) <==> dirs(codes@).difference(
            l.to_set(),
        ).contains(d) by {
            lemma_dir_code(d);
        }
        assert(dirs(rest@) =~= dirs(codes@).difference(l.to_set()));
    }
    rest
}

impl Exits {
    /// The exits along half-edges, none used up yet, and the vertices that have one in order.
    fn of(list: &Vec<u64>) -> (r: (Exits, Vec<u32>))
        requires
            list@.no_duplicates(),
        ensures
            r.0.wf(),
            r.0.left() == dirs(list@),
            forall|i: int, j: int| 0 <= i < j < r.1@.len() ==> r.1@[i] < r.1@[j],
            forall|v: u32| has_exit(dirs(list@), v) ==> #[trigger] r.1@.contains(v),
    {
        let mut codes: Vec<u64> = Vec::new();
        for i in 0..list.len()
            invariant
                codes@ == list@.take(i as int),
        {
            codes.push(list[i]);
            assert(codes@ =~= list@.take(i + 1));
        }
        assert(list@.take(list@.len() as int) =~= list@);
        let ghost raw = codes@;
        sort_codes(&mut codes);
        proof {
            raw.to_multiset_ensures();
            codes@.to_multiset_ensures();
            raw.lemma_multiset_has_no_duplicates();
            assert forall|c: u64| codes@.to_multiset().contains(c) implies codes@.to_multiset().count(
                c,
            ) == 1 by {
                assert(raw.to_multiset().contains(c));
            }
            codes@.lemma_multiset_has_no_duplicates_conv();
            assert forall|c: u64| #[trigger] codes@.contains(c) <==> list@.contains(c) by {
                assert(codes@.contains(c) <==> codes@.to_multiset().count(c) > 0);
                assert(raw.contains(c) <==> raw.to_multiset().count(c) > 0);
            }
        }
        let mut next: HashMap<u32, usize> = HashMap::new();
        let mut sources: Vec<u32> = Vec::new();
        for k in 0..codes.len()
            invariant
                forall|i: int, j: int| 0 <= i < j < codes@.len() ==> codes@[i] < codes@[j],
                forall|j: int|
                    0 <= j < k ==> next@.contains_key(dir_of(#[trigger] codes@[j]).0)
                        && next@[dir_of(codes@[j]).0] <= j && sources@.contains(
                        dir_of(codes@[j]).0,
                    ),
                forall|v: u32| #[trigger]
                    next@.contains_key(v) ==> next@[v] < k && dir_of(codes@[next@[v] as int]).0
                        == v,
                forall|i: int, j: int| 0 <= i < j < sources@.len() ==> sources@[i] < sources@[j],
                k == 0 ==> sources@.len() == 0,
                k > 0 ==> sources@.len() > 0 && sources@.last() == dir_of(codes@[k - 1]).0,
        {
            let s = (codes[k] / 0x1_0000_0000) as u32;
            let fresh = k == 0 || (codes[k - 1] / 0x1_0000_0000) as u32 != s;
            let ghost seen = sources@;
            if fresh {
                next.insert(s, k);
                sources.push(s);
            }
            proof {
                if k > 0 {
                    lemma_source_order(codes@[k - 1], codes@[k as int]);
                }
                assert forall|j: int| 0 <= j < k + 1 implies next@.contains_key(
                    dir_of(#[trigger] codes@[j]).0,
                ) && next@[dir_of(codes@[j]).0] <= j && sources@.contains(dir_of(codes@[j]).0) by {
                    if j < k {
                        lemma_source_order(codes@[j], codes@[k - 1]);
                        let i = seen.index_of(dir_of(codes@[j]).0);
                        assert(sources@[i] == seen[i]);
                    } else if fresh {
                        assert(sources@[sources@.len() - 1] == s);
                    } else {
                        assert(next@.contains_key(dir_of(codes@[k - 1]).0));
                    }
                }
            }
        }
        let x = Exits { codes, next };
        proof {
            assert(x.left() =~= dirs(list@)) by {
                assert forall|d: (u32, u32)| x.left().contains(d) <==> dirs(list@).contains(
                    d,
                ) by {
                    lemma_dir_code(d);
                    if dirs(list@).contains(d) {
                        assert(x.codes@.contains(dir_code(d)));
                        let k = x.codes@.index_of(dir_code(d));
                        assert(x.codes@[k] == dir_code(d));
                    }
                    if x.left().contains(d) {
                        assert(x.codes@.contains(dir_code(d)));
                    }
                }
            }
            assert forall|v: u32| has_exit(dirs(list@), v) implies #[trigger] sources@.contains(
                v,
            ) by {
                let w = choose|w: u32| dirs(list@).contains((v, w));
                lemma_dir_code((v, w));
                assert(x.codes@.contains(dir_code((v, w))));
                let k = x.codes@.index_of(dir_code((v, w)));
                assert(dir_of(x.codes@[k]).0 == v);
            }
        }
        (x, sources)
    }
}

/// The vertex sequences of a list of loops.
pub open spec fn views(loops: Seq<Vec<u32>>) -> Seq<Seq<u32>> {
    loops.map_values(|l: Vec<u32>| l@)
}

/// `pos` gives the place of every vertex of the path, and of no other.
spec fn places(pos: Map<u32, usize>, path: Seq<u32>) -> bool {
    &&& forall|i: int|
        0 <= i < path.len() ==> pos.contains_key(#[trigger] path[i]) && pos[path[i]] == i
    &&& forall|v: u32| #[trigger]
        pos.contains_key(v) ==> pos[v] < path.len() && path[pos[v] as int] == v
}

/// Cuts the path back to its first `p` vertices.
fn cut_back(path: &mut Vec<u32>, pos: &mut HashMap<u32, usize>, p: usize)
    requires
        places(old(pos)@, old(path)@),
        p <= old(path)@.len(),
    ensures
        final(path)@ == old(path)@.take(p as int),
        places(final(pos)@, final(path)@),
{
    while path.len() > p
        invariant
            places(pos@, path@),
            p <= path@.len() <= old(path)@.len(),
            path@ == old(path)@.take(path@.len() as int),
        decreases path@.len(),
    {
        let ghost before = path@;
        let last = path.len() - 1;
        let v = path[last];
        path.truncate(last);
        pos.remove(&v);
        proof {
            assert(path@ == before.take(last as int));
            assert forall|i: int| 0 <= i < path@.len() implies pos@.contains_key(
                #[trigger] path@[i],
            ) && pos@[path@[i]] == i by {
                assert(path@[i] == before[i]);
            }
        }
    }
}

/// Walks from `s` until no exit is left and adds the cycles it closes to `loops`.
fn walk_from(x: &mut Exits, s: u32, back: bool, loops: &mut Vec<Vec<u32>>)
    requires
        old(x).wf(),
    ensures
        final(x).wf(),
        final(x).left() == walk(old(x).left(), Seq::empty(), s, back).0,
        views(final(loops)@) == views(old(loops)@) + walk(old(x).left(), Seq::empty(), s, back).1,
{
    let ghost e0 = x.left();
    let ghost l0 = views(loops@);
    let ghost whole = walk(e0, Seq::empty(), s, back);
    let mut path: Vec<u32> = Vec::new();
    let mut pos: HashMap<u32, usize> = HashMap::new();
    let mut cur = s;
    proof {
        assert(path@ == Seq::<u32>::empty());
    }
    loop
        invariant
            x.wf(),
            places(pos@, path@),
            !path@.contains(cur),
            whole.0 == walk(x.left(), path@, cur, back).0,
            l0 + whole.1 == views(loops@) + walk(x.left(), path@, cur, back).1,
        ensures
            x.wf(),
            x.left() == whole.0,
            views(loops@) == l0 + whole.1,
        decreases x.left().len(), path@.len(),
    {
        let ghost e = x.left();
        let ghost p0 = path@;
        let ghost found = views(loops@);
        let ghost here = walk(e, p0, cur, back);
        proof {
            x.lemma_left_finite();
        }
        let step = x.take(cur);
        if step.is_none() {
            if path.len() == 0 || !back {
                proof {
                    assert(here.1 =~= Seq::<Seq<u32>>::empty());
                    assert(found + here.1 =~= found);
                }
                break;
            }
            let last = path.len() - 1;
            cur = path[last];
            cut_back(&mut path, &mut pos, last);
            proof {
                assert(path@ =~= p0.drop_last());
                assert forall|i: int| 0 <= i < path@.len() implies path@[i] != cur by {
                    assert(path@[i] == p0[i]);
                }
            }
            continue;
        }
        let nxt: u32 = step.unwrap();
        proof {
            lemma_exit(e, cur);
        }
        pos.insert(cur, path.len());
        path.push(cur);
        let ghost p1 = path@;
        proof {
            assert(p1 == p0.push(cur));
            assert forall|i: int| 0 <= i < p1.len() implies pos@.contains_key(#[trigger] p1[i])
                && pos@[p1[i]] == i by {
                if i < p0.len() {
                    assert(p1[i] == p0[i]);
                    assert(p0.contains(p0[i]));
                }
            }
        }
        cur = nxt;
        let place: Option<usize> = match pos.get(&cur) {
            Some(p) => Some(*p),
            None => None,
        };
        if let Some(p) = place {
            proof {
                assert(p1[p as int] == cur);
                let q = p1.index_of(nxt);
                assert(p1.contains(nxt));
                assert(pos@[p1[q]] == q);
                assert(q == p);
            }
            if path.len() - p >= 3 {
                let mut cycle: Vec<u32> = Vec::new();
                let mut k: usize = p;
                while k < path.len()
                    invariant
                        p <= k <= path@.len(),
                        cycle@ == path@.subrange(p as int, k as int),
                    decreases path@.len() - k,
                {
                    cycle.push(path[k]);
                    k = k + 1;
                }
                proof {
                    assert(cycle@ =~= p1.skip(p as int));
                }
                loops.push(cycle);
                proof {
                    let rest = walk(x.left(), p1.take(p as int), nxt, back);
                    assert(views(loops@) =~= found.push(p1.skip(p as int)));
                    assert(here.1 == seq![p1.skip(p as int)] + rest.1);
                    assert(found + here.1 =~= views(loops@) + rest.1);
                }
            }
            cut_back(&mut path, &mut pos, p);
            proof {
                assert forall|i: int| 0 <= i < path@.len() implies path@[i] != cur by {
                    assert(pos@.contains_key(path@[i]));
                    assert(path@[i] == p1[i]);
                }
            }
        } else {
            proof {
                if p1.contains(nxt) {
                    let q = p1.index_of(nxt);
                    assert(pos@.contains_key(p1[q]));
                }
            }
        }
    }
}

/// Walks from `s` again and again until no half-edge leaves it.
fn drain(x: &mut Exits, s: u32, back: bool, loops: &mut Vec<Vec<u32>>)
    requires
        old(x).wf(),
        forall|t: u32| #[trigger] has_exit(old(x).left(), t) ==> s <= t,
    ensures
        final(x).wf(),
        final(x).left().subset_of(old(x).left()),
        !has_exit(final(x).left(), s),
        views(final(loops)@) + sweep(final(x).left(), back) == views(old(loops)@) + sweep(
            old(x).left(),
            back,
        ),
{
    let ghost e0 = x.left();
    let ghost all = views(loops@) + sweep(e0, back);
    while x.any(s)
        invariant
            x.wf(),
            forall|t: u32| #[trigger] has_exit(x.left(), t) ==> s <= t,
            x.left().subset_of(e0),
            views(loops@) + sweep(x.left(), back) == all,
        decreases x.left().len(),
    {
        let ghost e = x.left();
        let ghost found = views(loops@);
        proof {
            x.lemma_left_finite();
            let t = choose|t: u32| e.contains((s, t));
            assert(!e.is_empty());
            lemma_least_source(e);
            assert(least_source(e) == s);
            lemma_walk_shrinks(e, Seq::empty(), s, back);
        }
        walk_from(x, s, back, loops);
        proof {
            let w = walk(e, Seq::empty(), s, back);
            assert(sweep(e, back) == w.1 + sweep(w.0, back));
            assert(views(loops@) + sweep(x.left(), back) =~= found + sweep(e, back));
            assert forall|t: u32| #[trigger] has_exit(x.left(), t) implies s <= t by {
                let y = choose|y: u32| x.left().contains((t, y));
                assert(e.contains((t, y)));
                assert(has_exit(e, t));
            }
        }
    }
}

/// Walks over half-edges from the smallest vertex on, and adds the cycles to `loops`.
fn sweep_codes(codes: &Vec<u64>, back: bool, loops: &mut Vec<Vec<u32>>)
    requires
        codes@.no_duplicates(),
    ensures
        views(final(loops)@) == views(old(loops)@) + sweep(dirs(codes@), back),
{
    let (mut x, sources) = Exits::of(codes);
    let ghost all = views(loops@) + sweep(dirs(codes@), back);
    proof {
        assert forall|t: u32| #[trigger] has_exit(x.left(), t) implies exists|j: int|
            0 <= j < sources@.len() && #[trigger] sources@[j] == t by {
            assert(sources@.contains(t));
        }
    }
    for i in 0..sources.len()
        invariant
            x.wf(),
            forall|i: int, j: int| 0 <= i < j < sources@.len() ==> sources@[i] < sources@[j],
            forall|t: u32| #[trigger]
                has_exit(x.left(), t) ==> exists|j: int|
                    i <= j < sources@.len() && #[trigger] sources@[j] == t,
            all == views(loops@) + sweep(x.left(), back),
    {
        let s = sources[i];
        let ghost e = x.left();
        proof {
            assert forall|t: u32| #[trigger] has_exit(e, t) implies s <= t by {
                let j = choose|j: int| i <= j < sources@.len() && #[trigger] sources@[j] == t;
                assert(sources@[i as int] <= sources@[j]);
            }
        }
        drain(&mut x, s, back, loops);
        proof {
            assert forall|t: u32| #[trigger] has_exit(x.left(), t) implies exists|j: int|
                i + 1 <= j < sources@.len() && #[trigger] sources@[j] == t by {
                let y = choose|y: u32| x.left().contains((t, y));
                assert(e.contains((t, y)));
                assert(has_exit(e, t));
                let j = choose|j: int| i <= j < sources@.len() && #[trigger] sources@[j] == t;
                assert(j != i);
            }
        }
    }
    proof {
        x.lemma_left_finite();
        if !x.left().is_empty() {
            let d = choose|d: (u32, u32)| x.left().contains(d);
            assert(x.left().contains((d.0, d.1)));
            assert(has_exit(x.left(), d.0));
        }
        assert(sweep(x.left(), back) =~= Seq::<Seq<u32>>::empty());
        assert(views(loops@) + sweep(x.left(), back) =~= views(loops@));
    }
}

/// All boundary loops of a list of faces, frayed ones too: the boundary half-edges are walked
/// from the smallest vertex on, always along the smallest exit, and split into simple cycles.
/// What that misses is walked once more, with a step back at every dead end.
pub fn force_loops(faces: &[Face]) -> (loops: Vec<Vec<u32>>)
    ensures
        views(loops@) == trace(boundary(half_edges_of(faces@))),
{
    let h = half_edges(faces);
    let codes = boundary_codes(&h);
    let mut loops: Vec<Vec<u32>> = Vec::new();
    assert(views(loops@) =~= Seq::<Seq<u32>>::empty());
    sweep_codes(&codes, false, &mut loops);
    assert(views(loops@) =~= sweep(boundary(h@), false));
    let rest = codes_off_loops(&codes, &loops);
    sweep_codes(&rest, true, &mut loops);
    loops
}

} // verus!
