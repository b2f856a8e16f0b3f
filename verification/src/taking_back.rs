//! Which merges of a weld are taken back, and why.
use crate::mesh::{half_edges_of, uses, Face};
use crate::weld::{
    cell_reps, lemma_cell_reps, lemma_unmerged_shrinks, merged, overloaded_ends, settled,
    unmerged, welded, Cell,
};
use vstd::prelude::*;

verus! {

/// Vertex `v` is an end of an edge that three half-edges or more of the welded faces lie on.
pub open spec fn is_crowded(faces: Seq<Face>, rep: Seq<u32>, v: u32) -> bool {
    exists|e: (u32, u32)|
        (e.0 == v || e.1 == v) && #[trigger] uses(half_edges_of(welded(faces, rep)), e) > 2
}

/// One round: a vertex that is merged into a crowded one stands for itself again, and nothing
/// else changes.
pub open spec fn is_round(faces: Seq<Face>, before: Seq<u32>, next: Seq<u32>) -> bool {
    &&& next.len() == before.len()
    &&& forall|i: int|
        0 <= i < before.len() && before[i] != i && is_crowded(faces, before, before[i])
            ==> #[trigger] next[i] == i
    &&& forall|i: int|
        0 <= i < before.len() && (before[i] == i || !is_crowded(faces, before, before[i]))
            ==> #[trigger] next[i] == before[i]
}

/// The course of a weld: at first every vertex stands under the first one of its cell, each step
/// is a round, and after the last step no vertex is merged into a crowded one.
pub open spec fn is_course(cells: Seq<Cell>, faces: Seq<Face>, course: Seq<Seq<u32>>) -> bool {
    &&& course.len() > 0
    &&& course[0].len() == cells.len()
    &&& forall|i: int|
        0 <= i < cells.len() ==> #[trigger] course[0][i] <= i && cells[course[0][i] as int]
            == cells[i]
    &&& forall|i: int, k: int|
        0 <= k < course[0][i] && 0 <= i < cells.len() ==> #[trigger] cells[k]
            != #[trigger] cells[i]
    &&& forall|n: int, m: int|
        0 <= n < course.len() - 1 && m == n + 1 ==> #[trigger] is_round(
            faces,
            course[n],
            course[m],
        )
    &&& forall|i: int|
        0 <= i < cells.len() && #[trigger] course.last()[i] != i ==> !is_crowded(
            faces,
            course.last(),
            course.last()[i],
        )
}

proof fn lemma_round(faces: Seq<Face>, rep: Seq<u32>)
    requires
        rep.len() <= 0x1_0000_0000,
    ensures
        is_round(faces, rep, unmerged(faces, rep)),
        forall|next: Seq<u32>|
            #[trigger] is_round(faces, rep, next) ==> next == unmerged(faces, rep),
{
    assert forall|v: u32| #[trigger] overloaded_ends(faces, rep).contains(v) <==> is_crowded(
        faces,
        rep,
        v,
    ) by {}
    let u = unmerged(faces, rep);
    assert forall|i: int| 0 <= i < rep.len() implies (if rep[i] != i && is_crowded(
        faces,
        rep,
        rep[i],
    ) {
        #[trigger] u[i] == i
    } else {
        u[i] == rep[i]
    }) by {
        assert(overloaded_ends(faces, rep).contains(rep[i]) <==> is_crowded(faces, rep, rep[i]));
    }
    assert forall|next: Seq<u32>| #[trigger] is_round(faces, rep, next) implies next == u by {
        assert forall|i: int| 0 <= i < rep.len() implies next[i] == #[trigger] u[i] by {
            assert(overloaded_ends(faces, rep).contains(rep[i]) <==> is_crowded(
                faces,
                rep,
                rep[i],
            ));
            assert(next[i] == i || next[i] == rep[i]);
        }
        assert(next =~= u);
    }
}

/// The steps from one list of representatives to where they settle.
proof fn lemma_course_from(faces: Seq<Face>, start: Seq<u32>) -> (course: Seq<Seq<u32>>)
    requires
        start.len() <= 0x1_0000_0000,
    ensures
        course.len() > 0,
        course[0] == start,
        forall|n: int, m: int|
            0 <= n < course.len() - 1 && m == n + 1 ==> #[trigger] is_round(
                faces,
                course[n],
                course[m],
            ),
        course.last() == settled(faces, start),
        course.last().len() == start.len(),
        unmerged(faces, course.last()) == course.last(),
    decreases merged(start).len(),
{
    let next = unmerged(faces, start);
    if next == start {
        seq![start]
    } else {
        lemma_unmerged_shrinks(faces, start);
        lemma_round(faces, start);
        let rest = lemma_course_from(faces, next);
        let course = seq![start] + rest;
        assert forall|n: int, m: int|
            0 <= n < course.len() - 1 && m == n + 1 implies #[trigger] is_round(
            faces,
            course[n],
            course[m],
        ) by {
            if n > 0 {
                assert(is_round(faces, rest[n - 1], rest[m - 1]));
            } else {
                assert(course[1] == rest[0]);
            }
        }
        assert(course.last() == rest.last());
        course
    }
}

/// The weld runs such a course, and its result is where the course ends.
pub proof fn law_weld_takes_merges_back_in_rounds(cells: Seq<Cell>, faces: Seq<Face>) -> (course:
    Seq<Seq<u32>>)
    requires
        cells.len() <= 0x1_0000_0000,
    ensures
        is_course(cells, faces, course),
        course.last() == settled(faces, cell_reps(cells)),
{
    let start = cell_reps(cells);
    let course = lemma_course_from(faces, start);
    assert forall|i: int| 0 <= i < cells.len() implies #[trigger] course[0][i] <= i
        && cells[course[0][i] as int] == cells[i] by {
        lemma_cell_reps(cells, i);
    }
    assert forall|i: int, k: int| 0 <= k < course[0][i] && 0 <= i < cells.len() implies
        #[trigger] cells[k] != #[trigger] cells[i] by {
        lemma_cell_reps(cells, i);
    }
    let last = course.last();
    lemma_round(faces, last);
    assert forall|i: int| 0 <= i < cells.len() && #[trigger] last[i] != i implies !is_crowded(
        faces,
        last,
        last[i],
    ) by {
        assert(is_round(faces, last, last));
    }
    course
}

/// Every round keeps the number of vertices.
proof fn lemma_course_len(cells: Seq<Cell>, faces: Seq<Face>, course: Seq<Seq<u32>>, n: int)
    requires
        is_course(cells, faces, course),
        0 <= n < course.len(),
    ensures
        course[n].len() == cells.len(),
    decreases n,
{
    if n > 0 {
        lemma_course_len(cells, faces, course, n - 1);
        assert(is_round(faces, course[n - 1], course[n]));
    }
}

proof fn lemma_course_settles(cells: Seq<Cell>, faces: Seq<Face>, course: Seq<Seq<u32>>, n: int)
    requires
        cells.len() <= 0x1_0000_0000,
        is_course(cells, faces, course),
        0 <= n < course.len(),
    ensures
        settled(faces, course[n]) == settled(faces, cell_reps(cells)),
    decreases n,
{
    if n == 0 {
        assert forall|i: int| 0 <= i < cells.len() implies #[trigger] cell_reps(cells)[i]
            == course[0][i] by {
            lemma_cell_reps(cells, i);
            let j = cell_reps(cells)[i] as int;
            let k = course[0][i] as int;
            if j < k {
                assert(cells[j] != cells[i]);
            }
            if k < j {
                assert(cells[k] != cells[i]);
            }
        }
        assert(course[0] =~= cell_reps(cells));
    } else {
        lemma_course_settles(cells, faces, course, n - 1);
        lemma_course_len(cells, faces, course, n - 1);
        lemma_round(faces, course[n - 1]);
        assert(is_round(faces, course[n - 1], course[n]));
    }
}

/// Every such course ends at the result of the weld.
pub proof fn law_weld_has_one_outcome(cells: Seq<Cell>, faces: Seq<Face>, course: Seq<Seq<u32>>)
    requires
        cells.len() <= 0x1_0000_0000,
        is_course(cells, faces, course),
    ensures
        settled(faces, cell_reps(cells)) == course.last(),
{
    let last = course.last();
    let n = course.len() - 1;
    lemma_course_settles(cells, faces, course, n);
    lemma_course_len(cells, faces, course, n);
    lemma_round(faces, last);
    assert(is_round(faces, last, last));
}

/// The round in which vertex `i` leaves `j`.
proof fn lemma_leaves(
    cells: Seq<Cell>,
    faces: Seq<Face>,
    course: Seq<Seq<u32>>,
    i: int,
    j: u32,
    n: int,
) -> (m: int)
    requires
        is_course(cells, faces, course),
        0 <= i < cells.len(),
        j != i,
        course[0][i] == j,
        0 <= n < course.len(),
        course[n][i] != j,
    ensures
        0 <= m < n,
        course[m][i] == j,
        is_crowded(faces, course[m], j),
    decreases n,
{
    lemma_course_len(cells, faces, course, n - 1);
    if course[n - 1][i] != j {
        lemma_leaves(cells, faces, course, i, j, n - 1)
    } else {
        assert(is_round(faces, course[n - 1], course[n]));
        assert(course[n][i] == course[n - 1][i] || is_crowded(faces, course[n - 1], j));
        n - 1
    }
}

/// A merge is taken back only for cause: where a vertex ends up as its own representative
/// although another one, `j`, is the first of its cell, there was a round in which it still stood
/// under `j` and `j` was an end of an edge with more than two uses.
pub proof fn law_merges_are_taken_back_for_cause(
    cells: Seq<Cell>,
    faces: Seq<Face>,
    course: Seq<Seq<u32>>,
    i: int,
    j: u32,
) -> (r: (int, (u32, u32)))
    requires
        cells.len() <= 0x1_0000_0000,
        is_course(cells, faces, course),
        j < i < cells.len(),
        cells[j as int] == cells[i],
        forall|k: int| 0 <= k < j ==> #[trigger] cells[k] != cells[i],
        settled(faces, cell_reps(cells))[i] == i,
    ensures
        0 <= r.0 < course.len(),
        course[r.0][i] == j,
        r.1.0 == j || r.1.1 == j,
        uses(half_edges_of(welded(faces, course[r.0])), r.1) > 2,
{
    law_weld_has_one_outcome(cells, faces, course);
    lemma_first_is(cells, faces, course, i, j);
    let m = lemma_leaves(cells, faces, course, i, j, course.len() - 1);
    let e = choose|e: (u32, u32)|
        (e.0 == j || e.1 == j) && #[trigger] uses(half_edges_of(welded(faces, course[m])), e) > 2;
    (m, e)
}

proof fn lemma_first_is(
    cells: Seq<Cell>,
    faces: Seq<Face>,
    course: Seq<Seq<u32>>,
    i: int,
    j: u32,
)
    requires
        is_course(cells, faces, course),
        j <= i < cells.len(),
        cells[j as int] == cells[i],
        forall|k: int| 0 <= k < j ==> #[trigger] cells[k] != cells[i],
    ensures
        course[0][i] == j,
{
    let k = course[0][i] as int;
    assert(course[0][i] <= i);
    if k < j {
        assert(cells[k] != cells[i]);
    }
    if j < k {
        assert(cells[j as int] != cells[i]);
    }
}

/// Where the first vertex `j` of a cell is an end of no edge with more than two uses in any round,
/// every vertex of its cell is represented by it, whatever is overloaded elsewhere.
pub proof fn law_calm_cells_stay_merged(
    cells: Seq<Cell>,
    faces: Seq<Face>,
    course: Seq<Seq<u32>>,
    i: int,
    j: u32,
)
    requires
        cells.len() <= 0x1_0000_0000,
        is_course(cells, faces, course),
        j <= i < cells.len(),
        cells[j as int] == cells[i],
        forall|k: int| 0 <= k < j ==> #[trigger] cells[k] != cells[i],
        forall|n: int, e: (u32, u32)|
            0 <= n < course.len() && (e.0 == j || e.1 == j) ==> #[trigger] uses(
                half_edges_of(welded(faces, course[n])),
                e,
            ) <= 2,
    ensures
        settled(faces, cell_reps(cells))[i] == j,
{
    law_weld_has_one_outcome(cells, faces, course);
    lemma_first_is(cells, faces, course, i, j);
    if j == i {
        lemma_stands(cells, faces, course, i, course.len() - 1);
    } else if course.last()[i] != j {
        let m = lemma_leaves(cells, faces, course, i, j, course.len() - 1);
        let e = choose|e: (u32, u32)|
            (e.0 == j || e.1 == j) && #[trigger] uses(half_edges_of(welded(faces, course[m])), e)
                > 2;
        assert(uses(half_edges_of(welded(faces, course[m])), e) <= 2);
    }
}

/// A vertex that stands for itself goes on standing for itself.
proof fn lemma_stands(
    cells: Seq<Cell>,
    faces: Seq<Face>,
    course: Seq<Seq<u32>>,
    i: int,
    n: int,
)
    requires
        is_course(cells, faces, course),
        0 <= i < cells.len(),
        course[0][i] == i,
        0 <= n < course.len(),
    ensures
        course[n][i] == i,
    decreases n,
{
    if n > 0 {
        lemma_stands(cells, faces, course, i, n - 1);
        lemma_course_len(cells, faces, course, n - 1);
        assert(is_round(faces, course[n - 1], course[n]));
    }
}

} // verus!
