//! Merging vertices that share a grid cell, without forging overloaded edges.
use crate::audit::law_dropping_lowers_uses;
use crate::mesh::{
    edge_of, face_half_edges, half_edges, half_edges_of, in_range, is_nondegenerate,
    lemma_face_uses, lemma_uses_add, lemma_uses_positive, nondegenerate, up_to_three, uses,
    EdgeTally, Face,
};
use std::collections::{HashMap, HashSet};
use vstd::prelude::*;

verus! {

broadcast use vstd::std_specs::hash::group_hash_axioms;

/// A cell of the weld grid.
pub type Cell = (i64, i64, i64);

/// `j` is the first vertex in the cell of vertex `i`.
pub open spec fn is_first(cells: Seq<Cell>, i: int, j: int) -> bool {
    0 <= j <= i && cells[j] == cells[i] && forall|k: int|
        0 <= k < j ==> #[trigger] cells[k] != cells[i]
}

/// Each vertex with the first vertex of its cell for a representative.
pub open spec fn cell_reps(cells: Seq<Cell>) -> Seq<u32> {
    Seq::new(cells.len(), |i: int| (choose|j: int| is_first(cells, i, j)) as u32)
}

/// A face with every corner replaced by its representative.
pub open spec fn remapped(f: Face, rep: Seq<u32>) -> Face {
    [rep[f[0] as int], rep[f[1] as int], rep[f[2] as int]]
}

/// The faces on the representatives, without those that a merge has collapsed.
pub open spec fn welded(faces: Seq<Face>, rep: Seq<u32>) -> Seq<Face> {
    faces.map_values(|f: Face| remapped(f, rep)).filter(|f: Face| is_nondegenerate(f))
}

/// The ends of the edges that the welded faces overload.
pub open spec fn overloaded_ends(faces: Seq<Face>, rep: Seq<u32>) -> Set<u32> {
    Set::new(
        |v: u32|
            exists|e: (u32, u32)|
                (e.0 == v || e.1 == v) && #[trigger] uses(half_edges_of(welded(faces, rep)), e) > 2,
    )
}

/// Every merge into an end of an overloaded edge is taken back.
pub open spec fn unmerged(faces: Seq<Face>, rep: Seq<u32>) -> Seq<u32> {
    Seq::new(
        rep.len(),
        |i: int|
            if rep[i] != i && overloaded_ends(faces, rep).contains(rep[i]) {
                i as u32
            } else {
                rep[i]
            },
    )
}

/// The vertices that are merged into another.
pub open spec fn merged(rep: Seq<u32>) -> Set<int> {
    Set::new(|i: int| 0 <= i < rep.len() && rep[i] != i)
}

/// Merges are taken back until nothing changes.
pub open spec fn settled(faces: Seq<Face>, rep: Seq<u32>) -> Seq<u32>
    decreases merged(rep).len(),
    when rep.len() <= 0x1_0000_0000
{
    if unmerged(faces, rep) == rep {
        rep
    } else {
        proof {
            lemma_unmerged_shrinks(faces, rep);
        }
        settled(faces, unmerged(faces, rep))
    }
}

/// The merged vertices are finitely many.
pub proof fn lemma_merged_finite(rep: Seq<u32>)
    ensures
        merged(rep).finite(),
        merged(rep).len() <= rep.len(),
{
    vstd::set_lib::lemma_int_range(0, rep.len() as int);
    assert(merged(rep).subset_of(vstd::set_lib::set_int_range(0, rep.len() as int)));
    vstd::set_lib::lemma_len_subset(
        merged(rep),
        vstd::set_lib::set_int_range(0, rep.len() as int),
    );
    vstd::set_lib::lemma_set_subset_finite(
        vstd::set_lib::set_int_range(0, rep.len() as int),
        merged(rep),
    );
}

/// Taking merges back only ever shrinks them.
pub proof fn lemma_unmerged_shrinks(faces: Seq<Face>, rep: Seq<u32>)
    requires
        rep.len() <= 0x1_0000_0000,
        unmerged(faces, rep) != rep,
    ensures
        merged(unmerged(faces, rep)).len() < merged(rep).len(),
{
    let next = unmerged(faces, rep);
    lemma_merged_finite(rep);
    lemma_merged_finite(next);
    assert(exists|i: int| 0 <= i < rep.len() && next[i] != rep[i]) by {
        if forall|i: int| 0 <= i < rep.len() ==> next[i] == rep[i] {
            assert(next =~= rep);
        }
    }
    let i = choose|i: int| 0 <= i < rep.len() && next[i] != rep[i];
    assert(merged(rep).contains(i));
    assert(!merged(next).contains(i));
    assert(merged(next).subset_of(merged(rep).remove(i)));
    vstd::set_lib::lemma_len_subset(merged(next), merged(rep).remove(i));
}

/// One number for a pair: the first part counts whole blocks of the second.
spec fn pair_code(a: int, b: i64) -> int {
    a * 0x1_0000_0000_0000_0000 + (b + 0x8000_0000_0000_0000)
}

proof fn lemma_pair_code(a: int, b: i64, c: int, d: i64)
    requires
        pair_code(a, b) == pair_code(c, d),
    ensures
        a == c,
        b == d,
{
}

fn pair_key(a: i64, b: i64) -> (k: i128)
    ensures
        k == pair_code(a as int, b),
{
    (a as i128) * 0x1_0000_0000_0000_0000 + ((b as i128) + 0x8000_0000_0000_0000)
}

/// The state of the grouping after the first `n` vertices: `columns` numbers the pairs of the
/// first two coordinates, `firsts` gives the first vertex for a column and a third coordinate.
spec fn groups(
    cells: Seq<Cell>,
    n: int,
    columns: Map<i128, u32>,
    firsts: Map<i128, u32>,
    next: int,
) -> bool {
    &&& forall|j: int|
        0 <= j < n ==> columns.contains_key(
            pair_code((#[trigger] cells[j]).0 as int, cells[j].1) as i128,
        )
    &&& forall|k: i128| #[trigger] columns.contains_key(k) ==> columns[k] < next
    &&& forall|k: i128, l: i128|
        #![trigger columns[k], columns[l]]
        columns.contains_key(k) && columns.contains_key(l) && columns[k] == columns[l] ==> k == l
    &&& forall|j: int|
        0 <= j < n ==> firsts.contains_key(cell_code(columns, #[trigger] cells[j])) && is_first(
            cells,
            j,
            firsts[cell_code(columns, cells[j])] as int,
        )
    &&& forall|k: i128| #[trigger]
        firsts.contains_key(k) ==> exists|j: int|
            0 <= j < n && cell_code(columns, #[trigger] cells[j]) == k
}

spec fn cell_code(columns: Map<i128, u32>, c: Cell) -> i128 {
    pair_code(columns[pair_code(c.0 as int, c.1) as i128] as int, c.2) as i128
}

/// Each vertex with the first vertex of its cell for a representative.
fn group_by_cell(cells: &Vec<Cell>) -> (rep: Vec<u32>)
    requires
        cells@.len() <= 0x1_0000_0000,
    ensures
        rep@ == cell_reps(cells@),
{
    let mut columns: HashMap<i128, u32> = HashMap::new();
    let mut firsts: HashMap<i128, u32> = HashMap::new();
    let mut next: u64 = 0;
    let mut rep: Vec<u32> = Vec::new();
    for i in 0..cells.len()
        invariant
            cells@.len() <= 0x1_0000_0000,
            groups(cells@, i as int, columns@, firsts@, next as int),
            next <= i,
            rep@.len() == i,
            forall|j: int| 0 <= j < i ==> is_first(cells@, j, #[trigger] rep@[j] as int),
    {
        let c = cells[i];
        let ghost col0 = columns@;
        let ghost first0 = firsts@;
        let k = pair_key(c.0, c.1);
        let column: u32 = match columns.get(&k) {
            Some(id) => *id,
            None => {
                let id = next as u32;
                columns.insert(k, id);
                next = next + 1;
                id
            },
        };
        proof {
            assert forall|j: int| 0 <= j < i implies cell_code(columns@, #[trigger] cells@[j])
                == cell_code(col0, cells@[j]) by {
                assert(col0.contains_key(
                    pair_code(cells@[j].0 as int, cells@[j].1) as i128,
                ));
            }
            assert(cell_code(columns@, c) == pair_code(column as int, c.2));
        }
        let l = (column as i128) * 0x1_0000_0000_0000_0000 + ((c.2 as i128)
            + 0x8000_0000_0000_0000);
        assert(l == cell_code(columns@, c));
        let first: u32 = match firsts.get(&l) {
            Some(v) => *v,
            None => {
                firsts.insert(l, i as u32);
                i as u32
            },
        };
        rep.push(first);
        proof {
            assert forall|j: int| 0 <= j < i && cells@[j] != c implies cell_code(
                columns@,
                #[trigger] cells@[j],
            ) != l by {
                let kj = pair_code(cells@[j].0 as int, cells@[j].1) as i128;
                assert(columns@.contains_key(kj) && columns@.contains_key(k));
                if cell_code(columns@, cells@[j]) == l {
                    assert(columns@[kj] == columns@[k]);
                    lemma_pair_code(columns@[kj] as int, cells@[j].2, columns@[k] as int, c.2);
                    assert(kj == k);
                    lemma_pair_code(cells@[j].0 as int, cells@[j].1, c.0 as int, c.1);
                }
            }
            if first0.contains_key(l) {
                let j = choose|j: int| 0 <= j < i && cell_code(col0, #[trigger] cells@[j]) == l;
                assert(cells@[j] == c);
                assert(is_first(cells@, j, first as int));
                assert(is_first(cells@, i as int, first as int));
            } else {
                assert forall|j: int| 0 <= j < i implies #[trigger] cells@[j] != c by {
                    assert(first0.contains_key(cell_code(col0, cells@[j])));
                }
                assert(is_first(cells@, i as int, i as int));
            }
            assert forall|q: i128| #[trigger] firsts@.contains_key(q) implies exists|j: int|
                0 <= j < i + 1 && cell_code(columns@, #[trigger] cells@[j]) == q by {
                if first0.contains_key(q) {
                    let j = choose|j: int| 0 <= j < i && cell_code(col0, #[trigger] cells@[j]) == q;
                    assert(cell_code(columns@, cells@[j]) == q);
                } else {
                    assert(cell_code(columns@, cells@[i as int]) == q);
                }
            }
            assert forall|j: int| 0 <= j < i + 1 implies firsts@.contains_key(
                cell_code(columns@, #[trigger] cells@[j]),
            ) && is_first(cells@, j, firsts@[cell_code(columns@, cells@[j])] as int) by {
                if j < i {
                    assert(first0.contains_key(cell_code(col0, cells@[j])));
                }
            }
        }
    }
    proof {
        assert forall|i: int| 0 <= i < cells@.len() implies #[trigger] rep@[i] == cell_reps(
            cells@,
        )[i] by {
            assert(is_first(cells@, i, rep@[i] as int));
            let j = choose|j: int| is_first(cells@, i, j);
            lemma_first_unique(cells@, i, j, rep@[i] as int);
        }
        assert(rep@ =~= cell_reps(cells@));
    }
    rep
}

proof fn lemma_first_unique(cells: Seq<Cell>, i: int, j: int, k: int)
    requires
        is_first(cells, i, j),
        is_first(cells, i, k),
    ensures
        j == k,
{
    if j < k {
        assert(cells[j] != cells[i]);
    }
    if k < j {
        assert(cells[k] != cells[i]);
    }
}

/// The faces on the representatives, without those that a merge has collapsed.
pub fn weld_faces(faces: &[Face], rep: &Vec<u32>) -> (w: Vec<Face>)
    requires
        in_range(faces@, rep@.len() as int),
    ensures
        w@ == welded(faces@, rep@),
{
    let ghost keep = |f: Face| is_nondegenerate(f);
    let ghost mapped = faces@.map_values(|f: Face| remapped(f, rep@));
    let mut w: Vec<Face> = Vec::new();
    proof {
        assert(mapped.take(0) =~= Seq::<Face>::empty());
        assert(w@ =~= mapped.take(0).filter(keep)) by {
            reveal(Seq::filter);
        }
    }
    for i in 0..faces.len()
        invariant
            in_range(faces@, rep@.len() as int),
            keep == (|f: Face| is_nondegenerate(f)),
            mapped == faces@.map_values(|f: Face| remapped(f, rep@)),
            w@ == mapped.take(i as int).filter(keep),
    {
        let f = faces[i];
        proof {
            assert(faces@[i as int][0] < rep@.len());
            assert(faces@[i as int][1] < rep@.len());
            assert(faces@[i as int][2] < rep@.len());
        }
        let g: Face = [rep[f[0] as usize], rep[f[1] as usize], rep[f[2] as usize]];
        proof {
            assert(g == mapped[i as int]);
            assert(mapped.take(i + 1) =~= mapped.take(i as int).push(g));
            mapped.take(i as int).lemma_filter_push(g, keep);
        }
        if nondegenerate(&g) {
            w.push(g);
        }
    }
    assert(mapped.take(faces@.len() as int) =~= mapped);
    w
}

/// The ends of the edges that a list of faces overloads.
fn overloaded(faces: &[Face]) -> (bad: HashSet<u32>)
    ensures
        forall|v: u32| #[trigger]
            bad@.contains(v) <==> exists|e: (u32, u32)|
                (e.0 == v || e.1 == v) && #[trigger] uses(half_edges_of(faces@), e) > 2,
{
    let h = half_edges(faces);
    let tally = EdgeTally::of(&h);
    let mut bad: HashSet<u32> = HashSet::new();
    proof {
        assert(bad@ =~= Set::<u32>::empty());
    }
    for i in 0..h.len()
        invariant
            h@ == half_edges_of(faces@),
            tally.tallies(h@),
            forall|v: u32| #[trigger]
                bad@.contains(v) ==> exists|e: (u32, u32)|
                    (e.0 == v || e.1 == v) && #[trigger] uses(h@, e) > 2,
            forall|k: int|
                0 <= k < i && uses(h@, edge_of((#[trigger] h@[k]).0, h@[k].1)) > 2
                    ==> bad@.contains(h@[k].0) && bad@.contains(h@[k].1),
    {
        let (a, b) = h[i];
        let ghost e = edge_of(a, b);
        let ghost before = bad@;
        assert(tally.held(e) == up_to_three(uses(h@, e)));
        if tally.get(a, b) > 2 {
            bad.insert(a);
            bad.insert(b);
            proof {
                assert forall|v: u32| #[trigger] bad@.contains(v) implies exists|e: (u32, u32)|
                    (e.0 == v || e.1 == v) && #[trigger] uses(h@, e) > 2 by {
                    if !before.contains(v) {
                        assert((e.0 == v || e.1 == v) && uses(h@, e) > 2);
                    }
                }
            }
        }
    }
    proof {
        assert forall|v: u32| (exists|e: (u32, u32)|
            (e.0 == v || e.1 == v) && #[trigger] uses(h@, e) > 2) implies #[trigger] bad@.contains(
            v,
        ) by {
            let e = choose|e: (u32, u32)| (e.0 == v || e.1 == v) && #[trigger] uses(h@, e) > 2;
            lemma_uses_positive(h@, e);
            let i = choose|i: int|
                0 <= i < h@.len() && edge_of((#[trigger] h@[i]).0, h@[i].1) == e;
            assert(bad@.contains(h@[i].0) && bad@.contains(h@[i].1));
        }
    }
    bad
}

/// Maps each vertex to a representative: first all vertices of a grid cell are merged, then every
/// merge into an end of an edge that the merges overload is taken back, until none is left.
pub fn weld_map(cells: &Vec<Cell>, faces: &[Face]) -> (rep: Vec<u32>)
    requires
        cells@.len() <= 0x1_0000_0000,
        in_range(faces@, cells@.len() as int),
    ensures
        rep@ == settled(faces@, cell_reps(cells@)),
        rep@.len() == cells@.len(),
{
    let mut rep = group_by_cell(cells);
    let ghost goal = settled(faces@, cell_reps(cells@));
    loop
        invariant
            cells@.len() <= 0x1_0000_0000,
            in_range(faces@, cells@.len() as int),
            rep@.len() == cells@.len(),
            settled(faces@, rep@) == goal,
        ensures
            rep@.len() == cells@.len(),
            rep@ == goal,
        decreases merged(rep@).len(),
    {
        let w = weld_faces(faces, &rep);
        let bad = overloaded(w.as_slice());
        let mut next: Vec<u32> = Vec::new();
        let mut changed = false;
        assert(next@ =~= rep@.take(0));
        for i in 0..rep.len()
            invariant
                rep@.len() <= 0x1_0000_0000,
                forall|v: u32| #[trigger]
                    bad@.contains(v) <==> overloaded_ends(faces@, rep@).contains(v),
                next@ == unmerged(faces@, rep@).take(i as int),
                changed <==> next@ != rep@.take(i as int),
        {
            let r = rep[i];
            let ghost before = next@;
            if r != i as u32 && bad.contains(&r) {
                next.push(i as u32);
                changed = true;
            } else {
                next.push(r);
            }
            proof {
                assert(unmerged(faces@, rep@).take(i + 1) =~= unmerged(faces@, rep@).take(
                    i as int,
                ).push(next@.last()));
                assert(next@ == before.push(next@.last()));
                assert(rep@.take(i + 1) =~= rep@.take(i as int).push(rep@[i as int]));
                assert(next@.drop_last() =~= before);
                assert(rep@.take(i + 1).drop_last() =~= rep@.take(i as int));
                if next@.last() == rep@[i as int] && before == rep@.take(i as int) {
                    assert(next@ =~= rep@.take(i + 1));
                } else {
                    if next@ == rep@.take(i + 1) {
                        assert(next@.drop_last() == rep@.take(i + 1).drop_last());
                        assert(next@.last() == rep@.take(i + 1).last());
                    }
                }
            }
        }
        proof {
            assert(unmerged(faces@, rep@).take(rep@.len() as int) =~= unmerged(faces@, rep@));
            assert(rep@.take(rep@.len() as int) =~= rep@);
        }
        if !changed {
            break;
        }
        proof {
            lemma_unmerged_shrinks(faces@, rep@);
        }
        rep = next;
    }
    rep
}

/// What every round of taking merges back keeps.
proof fn lemma_settled(faces: Seq<Face>, start: Seq<u32>)
    requires
        start.len() <= 0x1_0000_0000,
    ensures
        settled(faces, start).len() == start.len(),
        forall|i: int|
            0 <= i < start.len() ==> #[trigger] settled(faces, start)[i] == i || settled(
                faces,
                start,
            )[i] == start[i],
        unmerged(faces, settled(faces, start)) == settled(faces, start),
    decreases merged(start).len(),
{
    if unmerged(faces, start) != start {
        let next = unmerged(faces, start);
        lemma_unmerged_shrinks(faces, start);
        lemma_settled(faces, next);
        let end = settled(faces, next);
        assert forall|i: int| 0 <= i < start.len() implies #[trigger] settled(faces, start)[i] == i
            || settled(faces, start)[i] == start[i] by {
            assert(end[i] == i || end[i] == next[i]);
        }
    }
}

/// The weld guard: an edge that is overloaded after the weld was not forged by it, since no other
/// vertex is merged into either of its ends.
pub proof fn law_weld_forges_no_overload(
    cells: Seq<Cell>,
    faces: Seq<Face>,
    e: (u32, u32),
    i: int,
)
    requires
        cells.len() <= 0x1_0000_0000,
        0 <= i < cells.len(),
        uses(half_edges_of(welded(faces, settled(faces, cell_reps(cells)))), e) > 2,
        settled(faces, cell_reps(cells))[i] == e.0 || settled(faces, cell_reps(cells))[i] == e.1,
    ensures
        settled(faces, cell_reps(cells))[i] == i,
{
    let rep = settled(faces, cell_reps(cells));
    lemma_settled(faces, cell_reps(cells));
    assert(overloaded_ends(faces, rep).contains(rep[i]));
    assert(unmerged(faces, rep)[i] == rep[i]);
}

/// A vertex is represented by itself or by the first vertex of its own cell, and that one stands
/// for itself.
pub proof fn law_weld_merges_within_cells(cells: Seq<Cell>, faces: Seq<Face>, i: int)
    requires
        cells.len() <= 0x1_0000_0000,
        0 <= i < cells.len(),
    ensures
        ({
            let rep = settled(faces, cell_reps(cells));
            &&& 0 <= rep[i] <= i
            &&& rep[i] == i || is_first(cells, i, rep[i] as int)
            &&& rep[rep[i] as int] == rep[i]
        }),
{
    let rep = settled(faces, cell_reps(cells));
    lemma_settled(faces, cell_reps(cells));
    lemma_cell_reps(cells, i);
    let r = rep[i] as int;
    lemma_cell_reps(cells, r);
    if r != i {
        let q = cell_reps(cells)[r] as int;
        if q != r {
            assert(q < r);
            assert(cells[q] != cells[i]);
        }
    }
}

proof fn lemma_first_exists(cells: Seq<Cell>, i: int, j: int)
    requires
        0 <= j <= i < cells.len(),
        cells[j] == cells[i],
    ensures
        exists|k: int| is_first(cells, i, k),
    decreases j,
{
    if exists|k: int| 0 <= k < j && cells[k] == cells[i] {
        let k = choose|k: int| 0 <= k < j && cells[k] == cells[i];
        lemma_first_exists(cells, i, k);
    } else {
        assert(is_first(cells, i, j));
    }
}

/// The representative that a vertex has at first is the first vertex of its cell.
pub proof fn lemma_cell_reps(cells: Seq<Cell>, i: int)
    requires
        cells.len() <= 0x1_0000_0000,
        0 <= i < cells.len(),
    ensures
        is_first(cells, i, cell_reps(cells)[i] as int),
{
    lemma_first_exists(cells, i, i);
}

/// Safe seams are kept: where merging whole cells overloads no edge, every vertex stands under the
/// first vertex of its cell.
pub proof fn law_weld_keeps_safe_seams(cells: Seq<Cell>, faces: Seq<Face>)
    requires
        cells.len() <= 0x1_0000_0000,
        forall|e: (u32, u32)| #[trigger]
            uses(half_edges_of(welded(faces, cell_reps(cells))), e) <= 2,
    ensures
        settled(faces, cell_reps(cells)) == cell_reps(cells),
{
    let rep = cell_reps(cells);
    assert forall|i: int| 0 <= i < rep.len() implies #[trigger] unmerged(faces, rep)[i] == rep[i] by {
        assert(!overloaded_ends(faces, rep).contains(rep[i]));
    }
    assert(unmerged(faces, rep) =~= rep);
}

/// Where no two vertices share a cell, every vertex stands for itself.
pub proof fn law_weld_keeps_distinct_vertices(cells: Seq<Cell>, faces: Seq<Face>, i: int)
    requires
        cells.len() <= 0x1_0000_0000,
        cells.no_duplicates(),
        0 <= i < cells.len(),
    ensures
        settled(faces, cell_reps(cells))[i] == i,
{
    law_weld_merges_within_cells(cells, faces, i);
}

/// The weld keeps every representative among the vertices.
pub proof fn lemma_settled_range(cells: Seq<Cell>, faces: Seq<Face>)
    requires
        cells.len() <= 0x1_0000_0000,
    ensures
        settled(faces, cell_reps(cells)).len() == cells.len(),
        forall|i: int|
            0 <= i < cells.len() ==> #[trigger] settled(faces, cell_reps(cells))[i] < cells.len(),
{
    lemma_settled(faces, cell_reps(cells));
    assert forall|i: int| 0 <= i < cells.len() implies #[trigger] settled(
        faces,
        cell_reps(cells),
    )[i] < cells.len() by {
        law_weld_merges_within_cells(cells, faces, i);
    }
}

proof fn lemma_mapped_uses(faces: Seq<Face>, rep: Seq<u32>, e: (u32, u32))
    requires
        in_range(faces, rep.len() as int),
        forall|i: int|
            0 <= i < rep.len() && (#[trigger] rep[i] == e.0 || rep[i] == e.1) ==> rep[i] == i,
    ensures
        uses(half_edges_of(faces.map_values(|f: Face| remapped(f, rep))), e) <= uses(
            half_edges_of(faces),
            e,
        ),
    decreases faces.len(),
{
    let m = faces.map_values(|f: Face| remapped(f, rep));
    if faces.len() > 0 {
        let t = faces.drop_last();
        let f = faces.last();
        let g = remapped(f, rep);
        assert forall|i: int, k: int| 0 <= i < t.len() && 0 <= k < 3 implies #[trigger] t[i][k]
            < rep.len() by {
            assert(faces[i][k] < rep.len());
        }
        lemma_mapped_uses(t, rep, e);
        assert(m.drop_last() =~= t.map_values(|f: Face| remapped(f, rep)));
        assert(m.last() == g);
        assert(faces[faces.len() - 1][0] < rep.len() && faces[faces.len() - 1][1] < rep.len()
            && faces[faces.len() - 1][2] < rep.len());
        assert(rep[f[0] as int] == g[0] && rep[f[1] as int] == g[1] && rep[f[2] as int] == g[2]);
        lemma_face_uses(f, e);
        lemma_face_uses(g, e);
        lemma_uses_add(half_edges_of(t), face_half_edges(f), e);
        lemma_uses_add(half_edges_of(m.drop_last()), face_half_edges(g), e);
    } else {
        assert(m =~= faces);
    }
}

/// Every edge that is overloaded after the weld was overloaded before it: the weld breaks no mesh
/// that was fine.
pub proof fn law_overloads_were_there_before_the_weld(
    cells: Seq<Cell>,
    faces: Seq<Face>,
    e: (u32, u32),
)
    requires
        cells.len() <= 0x1_0000_0000,
        in_range(faces, cells.len() as int),
        uses(half_edges_of(welded(faces, settled(faces, cell_reps(cells)))), e) > 2,
    ensures
        uses(half_edges_of(faces), e) >= uses(
            half_edges_of(welded(faces, settled(faces, cell_reps(cells)))),
            e,
        ),
{
    let rep = settled(faces, cell_reps(cells));
    lemma_settled_range(cells, faces);
    assert forall|i: int|
        0 <= i < rep.len() && (#[trigger] rep[i] == e.0 || rep[i] == e.1) implies rep[i] == i by {
        law_weld_forges_no_overload(cells, faces, e, i);
    }
    lemma_mapped_uses(faces, rep, e);
    law_dropping_lowers_uses(
        faces.map_values(|f: Face| remapped(f, rep)),
        |f: Face| is_nondegenerate(f),
        e,
    );
}

} // verus!
