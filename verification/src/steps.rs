//! The walks along a boundary, step by step.
use crate::force::{
    exit, has_exit, least_source, lemma_exit, lemma_least_source, lemma_walk_shrinks, missed,
    sweep, trace, walk,
};
use crate::meaning::law_loop_edges_are_steps;
use crate::winding::step_at;
use vstd::prelude::*;

verus! {

/// Where a walk stands: the half-edges that are left, the vertices behind it, its own vertex, and
/// the loops that were handed out so far.
#[verifier::ext_equal]
pub struct Stand {
    pub left: Set<(u32, u32)>,
    pub path: Seq<u32>,
    pub cur: u32,
    pub loops: Seq<Seq<u32>>,
}

/// No half-edge leads on.
pub open spec fn is_stuck(a: Stand) -> bool {
    forall|w: u32| !#[trigger] a.left.contains((a.cur, w))
}

/// One step on to `w`, the smallest vertex that a half-edge leads to, which uses that half-edge
/// up. Where `w` is new, the path grows. Where it is on the path, the path is cut back to before
/// it, and what is cut off is handed out as a loop if it has three vertices or more.
pub open spec fn steps_to(a: Stand, b: Stand, w: u32) -> bool {
    let behind = a.path.push(a.cur);
    &&& a.left.contains((a.cur, w))
    &&& forall|x: u32| #[trigger] a.left.contains((a.cur, x)) ==> w <= x
    &&& b.left == a.left.remove((a.cur, w))
    &&& b.cur == w
    &&& !behind.contains(w) ==> b.path == behind && b.loops == a.loops
    &&& behind.contains(w) ==> exists|p: int|
        0 <= p < behind.len() && #[trigger] behind[p] == w && b.path == behind.take(p) && b.loops
            == (if behind.len() - p >= 3 {
            a.loops.push(behind.skip(p))
        } else {
            a.loops
        })
}

/// One step back to the last vertex of the path, from where no half-edge leads on.
pub open spec fn steps_back(a: Stand, b: Stand) -> bool {
    &&& is_stuck(a)
    &&& a.path.len() > 0
    &&& b == (Stand { left: a.left, path: a.path.drop_last(), cur: a.path.last(), loops: a.loops })
}

/// A new walk from the smallest vertex that any half-edge leaves.
pub open spec fn sets_out(a: Stand, b: Stand) -> bool {
    &&& b.left == a.left
    &&& b.path.len() == 0
    &&& b.loops == a.loops
    &&& !is_stuck(b)
    &&& forall|d: (u32, u32)| #[trigger] b.left.contains(d) ==> b.cur <= d.0
}

/// A step of a sweep. A walk that is stuck steps back, if the sweep lets it and there is a path
/// behind it; otherwise a new walk sets out.
pub open spec fn is_step(a: Stand, b: Stand, back: bool) -> bool {
    ||| exists|w: u32| #[trigger] steps_to(a, b, w)
    ||| back && steps_back(a, b)
    ||| is_stuck(a) && (!back || a.path.len() == 0) && sets_out(a, b)
}

/// Each stand follows from the one before it by a step.
pub open spec fn is_walk(course: Seq<Stand>, back: bool) -> bool {
    forall|n: int, m: int|
        0 <= n && m == n + 1 && m < course.len() ==> #[trigger] is_step(course[n], course[m], back)
}

proof fn lemma_walks_join(p: Seq<Stand>, q: Seq<Stand>, back: bool)
    requires
        p.len() > 0,
        q.len() > 0,
        is_walk(p, back),
        is_walk(q, back),
        is_step(p.last(), q[0], back),
    ensures
        is_walk(p + q, back),
{
    let c = p + q;
    assert forall|n: int, m: int| 0 <= n && m == n + 1 && m < c.len() implies #[trigger] is_step(
        c[n],
        c[m],
        back,
    ) by {
        if m < p.len() {
            assert(is_step(p[n], p[m], back));
        } else if n >= p.len() {
            assert(is_step(q[n - p.len()], q[m - p.len()], back));
        }
    }
}

/// The stands of one walk.
proof fn lemma_walk_course(a: Stand, back: bool) -> (course: Seq<Stand>)
    requires
        a.left.finite(),
    ensures
        course.len() > 0,
        course[0] == a,
        is_walk(course, back),
        is_stuck(course.last()),
        !back || course.last().path.len() == 0,
        course.last().left == walk(a.left, a.path, a.cur, back).0,
        course.last().loops == a.loops + walk(a.left, a.path, a.cur, back).1,
    decreases a.left.len(), a.path.len(),
{
    if !has_exit(a.left, a.cur) {
        if a.path.len() == 0 || !back {
            assert(a.loops + Seq::<Seq<u32>>::empty() =~= a.loops);
            seq![a]
        } else {
            let b = Stand {
                left: a.left,
                path: a.path.drop_last(),
                cur: a.path.last(),
                loops: a.loops,
            };
            let rest = lemma_walk_course(b, back);
            lemma_walks_join(seq![a], rest, back);
            assert((seq![a] + rest).last() == rest.last());
            seq![a] + rest
        }
    } else {
        let w = exit(a.left, a.cur);
        lemma_exit(a.left, a.cur);
        let behind = a.path.push(a.cur);
        let left = a.left.remove((a.cur, w));
        if behind.contains(w) {
            let p = behind.index_of(w);
            let cycle = behind.skip(p);
            let loops = if cycle.len() >= 3 {
                a.loops.push(cycle)
            } else {
                a.loops
            };
            let b = Stand { left, path: behind.take(p), cur: w, loops };
            assert(behind[p] == w);
            assert(steps_to(a, b, w));
            let rest = lemma_walk_course(b, back);
            lemma_walks_join(seq![a], rest, back);
            let tail = walk(left, behind.take(p), w, back).1;
            assert(a.loops.push(cycle) + tail =~= a.loops + (seq![cycle] + tail));
            assert((seq![a] + rest).last() == rest.last());
            seq![a] + rest
        } else {
            let b = Stand { left, path: behind, cur: w, loops: a.loops };
            assert(steps_to(a, b, w));
            let rest = lemma_walk_course(b, back);
            lemma_walks_join(seq![a], rest, back);
            assert((seq![a] + rest).last() == rest.last());
            seq![a] + rest
        }
    }
}

proof fn lemma_sweep_course(e: Set<(u32, u32)>, back: bool, loops: Seq<Seq<u32>>) -> (course: Seq<
    Stand,
>)
    requires
        e.finite(),
        !e.is_empty(),
    ensures
        course.len() > 0,
        course[0].left == e,
        course[0].path.len() == 0,
        course[0].loops == loops,
        !is_stuck(course[0]),
        forall|d: (u32, u32)| #[trigger] e.contains(d) ==> course[0].cur <= d.0,
        is_walk(course, back),
        course.last().left.is_empty(),
        course.last().loops == loops + sweep(e, back),
    decreases e.len(),
{
    let s = least_source(e);
    lemma_least_source(e);
    lemma_walk_shrinks(e, Seq::empty(), s, back);
    let a = Stand { left: e, path: Seq::empty(), cur: s, loops };
    let x = choose|x: u32| e.contains((s, x));
    assert(a.left.contains((a.cur, x)));
    assert forall|d: (u32, u32)| #[trigger] e.contains(d) implies s <= d.0 by {
        assert(e.contains((d.0, d.1)));
        assert(has_exit(e, d.0));
    }
    let first = lemma_walk_course(a, back);
    let w = walk(e, Seq::empty(), s, back);
    if w.0.is_empty() {
        assert(sweep(w.0, back) =~= Seq::empty());
        assert(sweep(e, back) =~= w.1);
        first
    } else {
        let rest = lemma_sweep_course(w.0, back, loops + w.1);
        lemma_walks_join(first, rest, back);
        assert((first + rest).last() == rest.last());
        assert((loops + w.1) + sweep(w.0, back) =~= loops + sweep(e, back));
        first + rest
    }
}

/// A sweep sets out from the smallest vertex that a half-edge leaves and goes on step by step until
/// no half-edge is left. Its loops are those that were handed out, in that order.
pub proof fn law_sweep_goes_step_by_step(e: Set<(u32, u32)>, back: bool) -> (course: Seq<Stand>)
    requires
        e.finite(),
        !e.is_empty(),
    ensures
        course.len() > 0,
        course[0].left == e,
        course[0].path.len() == 0,
        course[0].loops.len() == 0,
        !is_stuck(course[0]),
        forall|d: (u32, u32)| #[trigger] e.contains(d) ==> course[0].cur <= d.0,
        is_walk(course, back),
        course.last().left.is_empty(),
        course.last().loops == sweep(e, back),
{
    let course = lemma_sweep_course(e, back, Seq::empty());
    assert(Seq::<Seq<u32>>::empty() + sweep(e, back) =~= sweep(e, back));
    course
}

/// Nothing is traced where there is no half-edge.
pub proof fn law_nothing_to_sweep(back: bool)
    ensures
        sweep(Set::empty(), back).len() == 0,
        trace(Set::empty()).len() == 0,
{
    let none = Set::<(u32, u32)>::empty();
    assert(none.is_empty());
    assert(missed(none) =~= none);
}

/// The loops of a boundary: those of a sweep whose walks do not step back, and behind them those
/// of a sweep whose walks do, over the half-edges that are on no loop of the first.
pub proof fn law_two_sweeps_follow_each_other(e: Set<(u32, u32)>, rest: Set<(u32, u32)>)
    requires
        forall|d: (u32, u32)| #[trigger]
            rest.contains(d) <==> e.contains(d) && !(exists|k: int, w: int|
                0 <= k < sweep(e, false).len() && 0 <= w < sweep(e, false)[k].len()
                    && #[trigger] step_at(sweep(e, false)[k], w) == d),
    ensures
        trace(e) == sweep(e, false) + sweep(rest, true),
{
    assert forall|d: (u32, u32)| missed(e).contains(d) <==> #[trigger] rest.contains(d) by {
        law_loop_edges_are_steps(sweep(e, false), d);
    }
    assert(missed(e) =~= rest);
}

} // verus!
