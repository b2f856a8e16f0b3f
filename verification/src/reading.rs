//! What reading an OBJ text makes of its characters, lines and words.
use crate::digits::law_written_integer_reads_back;
use crate::number::{integer, is_float};
use crate::obj::{
    after_lines, before_slash, coord_fault, corner, lemma_before_slash, lines, parsed, polygon,
    triangles, with_words, words, ObjError, ObjFault, ObjMesh, ObjModel,
};
use crate::text::{decimal, signed, white};
use vstd::prelude::*;

verus! {

/// Lines put together again, with a line feed between each two.
pub open spec fn joined(ls: Seq<Seq<char>>) -> Seq<char>
    decreases ls.len(),
{
    if ls.len() == 0 {
        Seq::empty()
    } else if ls.len() == 1 {
        ls[0]
    } else {
        joined(ls.drop_last()).push('\n') + ls.last()
    }
}

/// The lines of a text, put together again, are the text, and no line holds a line feed.
pub proof fn law_lines_join_back(text: Seq<char>)
    ensures
        lines(text).len() > 0,
        joined(lines(text)) == text,
        forall|k: int, i: int|
            0 <= k < lines(text).len() && 0 <= i < lines(text)[k].len() ==> #[trigger] lines(
                text,
            )[k][i] != '\n',
    decreases text.len(),
{
    let ls = lines(text);
    if text.len() == 0 {
        assert(joined(ls) =~= text);
    } else {
        let t = text.drop_last();
        let before = lines(t);
        law_lines_join_back(t);
        assert(text =~= t.push(text.last()));
        if text.last() == '\n' {
            assert(ls.drop_last() =~= before);
            assert(joined(ls) =~= joined(before).push('\n'));
            assert forall|k: int, i: int| 0 <= k < ls.len() && 0 <= i < ls[k].len() implies
                #[trigger] ls[k][i] != '\n' by {
                if k < before.len() {
                    assert(before[k][i] != '\n');
                }
            }
        } else {
            assert(ls.drop_last() =~= before.drop_last());
            assert(joined(ls) =~= joined(before).push(text.last()));
            assert forall|k: int, i: int| 0 <= k < ls.len() && 0 <= i < ls[k].len() implies
                #[trigger] ls[k][i] != '\n' by {
                if k < before.len() - 1 {
                    assert(before[k][i] != '\n');
                } else if i < before.last().len() {
                    assert(before[before.len() - 1][i] != '\n');
                }
            }
        }
    }
}

/// Words by where they stand in a line: from the first number of a pair up to the second. They
/// hold no white space, stand in order, and have white space or an end of the line on both sides;
/// every character that is no white space is in one of them.
pub open spec fn are_spans(line: Seq<char>, ws: Seq<Seq<char>>, spans: Seq<(int, int)>) -> bool {
    &&& ws.len() == spans.len()
    &&& forall|k: int|
        0 <= k < spans.len() ==> 0 <= (#[trigger] spans[k]).0 < spans[k].1 <= line.len() && ws[k]
            == line.subrange(spans[k].0, spans[k].1)
    &&& forall|k: int|
        0 <= k < spans.len() ==> (#[trigger] spans[k]).0 == 0 || white(line[spans[k].0 - 1])
    &&& forall|k: int|
        0 <= k < spans.len() ==> (#[trigger] spans[k]).1 == line.len() || white(line[spans[k].1])
    &&& forall|k: int, l: int|
        0 <= k < l < spans.len() ==> (#[trigger] spans[k]).1 < (#[trigger] spans[l]).0
    &&& forall|k: int, i: int|
        0 <= k < spans.len() && (#[trigger] spans[k]).0 <= i < spans[k].1 ==> !white(
            #[trigger] line[i],
        )
    &&& forall|i: int|
        0 <= i < line.len() && !white(#[trigger] line[i]) ==> exists|k: int|
            0 <= k < spans.len() && (#[trigger] spans[k]).0 <= i < spans[k].1
}

/// The words of a line are its longest stretches without white space, in order, and all of them.
pub proof fn law_words_are_the_stretches(line: Seq<char>) -> (spans: Seq<(int, int)>)
    ensures
        are_spans(line, words(line), spans),
    decreases line.len(),
{
    if line.len() == 0 {
        Seq::empty()
    } else {
        let t = line.drop_last();
        let n = t.len() as int;
        let old_spans = law_words_are_the_stretches(t);
        let before = words(t);
        let c = line.last();
        assert(forall|i: int| 0 <= i < n ==> t[i] == #[trigger] line[i]);
        if white(c) {
            lemma_spans_white(line, before, old_spans);
            old_spans
        } else if line.len() == 1 || white(line[line.len() - 2]) {
            lemma_spans_new(line, before, old_spans);
            old_spans.push((n, n + 1))
        } else {
            lemma_spans_longer(line, before, old_spans);
            old_spans.drop_last().push((old_spans.last().0, n + 1))
        }
    }
}

proof fn lemma_spans_white(line: Seq<char>, ws: Seq<Seq<char>>, spans: Seq<(int, int)>)
    requires
        line.len() > 0,
        white(line.last()),
        are_spans(line.drop_last(), ws, spans),
    ensures
        are_spans(line, ws, spans),
{
    let t = line.drop_last();
    let n = t.len() as int;
    assert forall|k: int| 0 <= k < spans.len() implies 0 <= (#[trigger] spans[k]).0 < spans[k].1
        <= line.len() && ws[k] == line.subrange(spans[k].0, spans[k].1) && (spans[k].0 == 0
        || white(line[spans[k].0 - 1])) && (spans[k].1 == line.len() || white(line[spans[k].1])) by {
        assert(t.subrange(spans[k].0, spans[k].1) =~= line.subrange(spans[k].0, spans[k].1));
        if spans[k].0 > 0 {
            assert(white(t[spans[k].0 - 1]));
        }
        if spans[k].1 < n {
            assert(white(t[spans[k].1]));
        }
    }
    assert forall|k: int, i: int| 0 <= k < spans.len() && (#[trigger] spans[k]).0 <= i < spans[k].1
        implies !white(#[trigger] line[i]) by {
        assert(!white(t[i]));
    }
    assert forall|i: int| 0 <= i < line.len() && !white(#[trigger] line[i]) implies exists|k: int|
        0 <= k < spans.len() && (#[trigger] spans[k]).0 <= i < spans[k].1 by {
        assert(!white(t[i]));
    }
}

proof fn lemma_spans_new(line: Seq<char>, ws: Seq<Seq<char>>, spans: Seq<(int, int)>)
    requires
        line.len() > 0,
        !white(line.last()),
        line.len() == 1 || white(line[line.len() - 2]),
        are_spans(line.drop_last(), ws, spans),
    ensures
        are_spans(
            line,
            ws.push(seq![line.last()]),
            spans.push((line.len() - 1, line.len() as int)),
        ),
{
    let t = line.drop_last();
    let n = t.len() as int;
    let sp = spans.push((n, n + 1));
    let wp = ws.push(seq![line.last()]);
    assert forall|k: int| 0 <= k < spans.len() implies (#[trigger] spans[k]).1 < n by {
        if spans[k].1 == n {
            assert(spans[k].0 <= n - 1 < spans[k].1);
            assert(!white(t[n - 1]));
            assert(t[n - 1] == line[line.len() - 2]);
        }
    }
    assert forall|k: int| 0 <= k < sp.len() implies 0 <= (#[trigger] sp[k]).0 < sp[k].1
        <= line.len() && wp[k] == line.subrange(sp[k].0, sp[k].1) && (sp[k].0 == 0 || white(
        line[sp[k].0 - 1],
    )) && (sp[k].1 == line.len() || white(line[sp[k].1])) by {
        if k < spans.len() {
            assert(sp[k] == spans[k]);
            assert(t.subrange(sp[k].0, sp[k].1) =~= line.subrange(sp[k].0, sp[k].1));
            if sp[k].0 > 0 {
                assert(white(t[sp[k].0 - 1]));
            }
            assert(white(t[sp[k].1]));
        } else {
            assert(line.subrange(n, n + 1) =~= seq![line.last()]);
        }
    }
    assert forall|k: int, l: int| 0 <= k < l < sp.len() implies (#[trigger] sp[k]).1
        < (#[trigger] sp[l]).0 by {
        assert(sp[k] == spans[k]);
        if l < spans.len() {
            assert(sp[l] == spans[l]);
        }
    }
    assert forall|k: int, i: int| 0 <= k < sp.len() && (#[trigger] sp[k]).0 <= i < sp[k].1 implies
        !white(#[trigger] line[i]) by {
        if k < spans.len() {
            assert(sp[k] == spans[k]);
            assert(!white(t[i]));
        }
    }
    assert forall|i: int| 0 <= i < line.len() && !white(#[trigger] line[i]) implies exists|k: int|
        0 <= k < sp.len() && (#[trigger] sp[k]).0 <= i < sp[k].1 by {
        if i < n {
            assert(!white(t[i]));
            let k = choose|k: int|
                0 <= k < spans.len() && (#[trigger] spans[k]).0 <= i < spans[k].1;
            assert(sp[k] == spans[k]);
        } else {
            assert(sp[spans.len() as int] == (n, n + 1));
        }
    }
}

proof fn lemma_spans_longer(line: Seq<char>, ws: Seq<Seq<char>>, spans: Seq<(int, int)>)
    requires
        line.len() > 1,
        !white(line.last()),
        !white(line[line.len() - 2]),
        are_spans(line.drop_last(), ws, spans),
    ensures
        spans.len() > 0,
        are_spans(
            line,
            ws.drop_last().push(ws.last().push(line.last())),
            spans.drop_last().push((spans.last().0, line.len() as int)),
        ),
{
    let t = line.drop_last();
    let n = t.len() as int;
    assert(!white(t[n - 1]));
    let m = choose|k: int| 0 <= k < spans.len() && (#[trigger] spans[k]).0 <= n - 1 < spans[k].1;
    let z = spans.len() - 1;
    assert(spans[m].1 == n);
    if m < z {
        assert(spans[m].1 < spans[z].0);
    }
    let sp = spans.drop_last().push((spans.last().0, n + 1));
    let wp = ws.drop_last().push(ws.last().push(line.last()));
    assert forall|k: int| 0 <= k < sp.len() implies 0 <= (#[trigger] sp[k]).0 < sp[k].1
        <= line.len() && wp[k] == line.subrange(sp[k].0, sp[k].1) && (sp[k].0 == 0 || white(
        line[sp[k].0 - 1],
    )) && (sp[k].1 == line.len() || white(line[sp[k].1])) by {
        assert(sp[k].0 == spans[k].0);
        if sp[k].0 > 0 {
            assert(white(t[sp[k].0 - 1]));
        }
        if k < z {
            assert(sp[k] == spans[k]);
            assert(spans[k].1 < spans[z].0);
            assert(t.subrange(sp[k].0, sp[k].1) =~= line.subrange(sp[k].0, sp[k].1));
            assert(white(t[sp[k].1]));
        } else {
            assert(ws[z] == t.subrange(spans[z].0, n));
            assert(line.subrange(sp[k].0, n + 1) =~= ws.last().push(line.last()));
        }
    }
    assert forall|k: int, l: int| 0 <= k < l < sp.len() implies (#[trigger] sp[k]).1
        < (#[trigger] sp[l]).0 by {
        assert(sp[k] == spans[k]);
        assert(sp[l].0 == spans[l].0);
    }
    assert forall|k: int, i: int| 0 <= k < sp.len() && (#[trigger] sp[k]).0 <= i < sp[k].1 implies
        !white(#[trigger] line[i]) by {
        if i < n {
            assert(spans[k].0 == sp[k].0);
            assert(!white(t[i]));
        }
    }
    assert forall|i: int| 0 <= i < line.len() && !white(#[trigger] line[i]) implies exists|k: int|
        0 <= k < sp.len() && (#[trigger] sp[k]).0 <= i < sp[k].1 by {
        if i < n {
            assert(!white(t[i]));
            let k = choose|k: int|
                0 <= k < spans.len() && (#[trigger] spans[k]).0 <= i < spans[k].1;
            assert(sp[k].0 == spans[k].0 && sp[k].1 >= spans[k].1);
        } else {
            assert(sp[z] == (spans.last().0, n + 1));
        }
    }
}

/// What stands before the first slash is the longest beginning of a word without a slash.
pub proof fn law_slash_ends_the_number(word: Seq<char>)
    ensures
        before_slash(word).len() <= word.len(),
        before_slash(word) == word.take(before_slash(word).len() as int),
        !before_slash(word).contains('/'),
        before_slash(word).len() < word.len() ==> word[before_slash(word).len() as int] == '/',
{
    let k = lemma_first_slash(word, 0);
    lemma_before_slash(word, k);
}

proof fn lemma_first_slash(word: Seq<char>, from: int) -> (k: int)
    requires
        0 <= from <= word.len(),
        forall|j: int| 0 <= j < from ==> word[j] != '/',
    ensures
        0 <= k <= word.len(),
        forall|j: int| 0 <= j < k ==> word[j] != '/',
        k < word.len() ==> word[k] == '/',
    decreases word.len() - from,
{
    if from < word.len() && word[from] != '/' {
        lemma_first_slash(word, from + 1)
    } else {
        from
    }
}

/// A corner is a vertex exactly where the integer before its first slash counts one: from one on
/// from the front, or below zero from the back. Each other case has its own fault, which names
/// the line, and the whole word or the integer.
pub proof fn law_corner_counts_from_either_end(word: Seq<char>, count: nat, line: int)
    requires
        count <= 0x1_0000_0000,
    ensures
        match corner(word, count, line) {
            Ok(v) => v < count && (integer(before_slash(word)) == Some(v as int + 1) || integer(
                before_slash(word),
            ) == Some(v as int - count)),
            Err(ObjFault::BadIndex { line: l, token }) => l == line && token == word && integer(
                before_slash(word),
            ) is None,
            Err(ObjFault::ZeroIndex { line: l }) => l == line && integer(before_slash(word))
                == Some(0int),
            Err(ObjFault::OutOfRange { line: l, index }) => l == line && integer(
                before_slash(word),
            ) == Some(index) && (index > count || index < -count),
            Err(_) => false,
        },
{
}

/// The vertex with the number `v` is named from the front and from the back, with or without
/// something behind a slash.
pub proof fn law_vertex_has_two_names(v: u32, count: nat, rest: Seq<char>, line: int)
    requires
        v < count <= 0x1_0000_0000,
        rest.len() > 0 ==> rest[0] == '/',
    ensures
        corner(decimal(v as nat + 1) + rest, count, line) == Ok::<u32, ObjFault>(v),
        corner(signed(v - count) + rest, count, line) == Ok::<u32, ObjFault>(v),
{
    let a = signed(v + 1);
    let b = signed(v - count);
    law_written_integer_reads_back(v + 1);
    law_written_integer_reads_back(v - count);
    lemma_name(a, rest);
    lemma_name(b, rest);
}

proof fn lemma_name(name: Seq<char>, rest: Seq<char>)
    requires
        integer(name) is Some,
        rest.len() > 0 ==> rest[0] == '/',
    ensures
        before_slash(name + rest) == name,
{
    let w = name + rest;
    let r = crate::digits::law_integers_are_signed_digits(name);
    assert forall|j: int| 0 <= j < name.len() implies w[j] != '/' by {
        assert(w[j] == name[j]);
        if j >= r.0.len() {
            assert(name[j] == r.1[j - r.0.len()]);
            assert(48 <= r.1[j - r.0.len()] as u32 <= 57);
        }
    }
    lemma_before_slash(w, name.len() as int);
    assert(w.take(name.len() as int) =~= name);
}

/// The corners of a face are those of its words, one by one; where one has a fault, the first such
/// fault is the fault of the face.
pub proof fn law_first_bad_corner_is_named(ws: Seq<Seq<char>>, count: nat, line: int) -> (bad: int)
    ensures
        match polygon(ws, count, line) {
            Ok(vs) => vs.len() == ws.len() && forall|i: int|
                0 <= i < ws.len() ==> #[trigger] corner(ws[i], count, line) == Ok::<u32, ObjFault>(
                    vs[i],
                ),
            Err(e) => 0 <= bad < ws.len() && corner(ws[bad], count, line) == Err::<u32, ObjFault>(e)
                && forall|i: int|
                0 <= i < bad ==> (#[trigger] corner(ws[i], count, line)) is Ok,
        },
    decreases ws.len(),
{
    if ws.len() == 0 {
        0
    } else {
        let front = ws.drop_last();
        let bad = law_first_bad_corner_is_named(front, count, line);
        assert(forall|i: int| 0 <= i < front.len() ==> front[i] == #[trigger] ws[i]);
        match polygon(front, count, line) {
            Err(e) => {
                assert forall|i: int| 0 <= i < bad implies (#[trigger] corner(
                    ws[i],
                    count,
                    line,
                )) is Ok by {
                    assert(corner(front[i], count, line) is Ok);
                }
                bad
            },
            Ok(vs) => {
                assert forall|i: int| 0 <= i < front.len() implies #[trigger] corner(
                    ws[i],
                    count,
                    line,
                ) == Ok::<u32, ObjFault>(vs[i]) by {
                    assert(corner(front[i], count, line) == Ok::<u32, ObjFault>(vs[i]));
                }
                front.len() as int
            },
        }
    }
}

/// The line of a vertex adds that vertex, as written, if and only if three floating point numbers
/// follow; what comes behind them does not matter. Otherwise the first word that is none is named,
/// or, where all that follow are some, that there are too few.
pub proof fn law_vertex_line(mesh: ObjModel, ws: Seq<Seq<char>>, line: int)
    requires
        ws.len() > 0,
        ws[0] == "v"@,
    ensures
        match with_words(mesh, ws, line) {
            Ok(next) => {
                &&& ws.len() >= 4
                &&& is_float(ws[1]) && is_float(ws[2]) && is_float(ws[3])
                &&& next.faces == mesh.faces
                &&& next.vertices.len() == mesh.vertices.len() + 1
                &&& next.vertices.last() == (ws[1], ws[2], ws[3])
                &&& forall|i: int|
                    0 <= i < mesh.vertices.len() ==> #[trigger] next.vertices[i]
                        == mesh.vertices[i]
            },
            Err(ObjFault::BadFloat { line: l, token }) => l == line && exists|k: int|
                1 <= k <= 3 && k < ws.len() && token == #[trigger] ws[k] && !is_float(ws[k])
                    && forall|j: int| 1 <= j < k ==> is_float(#[trigger] ws[j]),
            Err(ObjFault::VertexNeedsCoords { line: l }) => l == line && ws.len() <= 3 && forall|
                k: int,
            |
                1 <= k < ws.len() ==> is_float(#[trigger] ws[k]),
            Err(_) => false,
        },
{
    reveal_with_fuel(coord_fault, 5);
    if ws.len() > 1 && !is_float(ws[1]) {
        assert(forall|j: int| 1 <= j < 1 ==> is_float(#[trigger] ws[j]));
    } else if ws.len() > 2 && !is_float(ws[2]) {
        assert(forall|j: int| 1 <= j < 2 ==> is_float(#[trigger] ws[j]));
    } else if ws.len() > 3 && !is_float(ws[3]) {
        assert(forall|j: int| 1 <= j < 3 ==> is_float(#[trigger] ws[j]));
    }
}

/// The line of a face adds its triangles if and only if all its corners are vertices and it has
/// three or more. A bad corner is named before a want of corners.
pub proof fn law_face_line(mesh: ObjModel, ws: Seq<Seq<char>>, line: int) -> (bad: int)
    requires
        ws.len() > 0,
        ws[0] == "f"@,
    ensures
        match with_words(mesh, ws, line) {
            Ok(next) => {
                &&& ws.len() >= 4
                &&& next.vertices == mesh.vertices
                &&& next.faces.len() == mesh.faces.len() + ws.len() - 3
                &&& forall|i: int|
                    0 <= i < mesh.faces.len() ==> #[trigger] next.faces[i] == mesh.faces[i]
                &&& forall|i: int|
                    mesh.faces.len() <= i < next.faces.len() ==> {
                        let k = i - mesh.faces.len();
                        let f = #[trigger] next.faces[i];
                        let n = mesh.vertices.len();
                        &&& corner(ws[1], n, line) == Ok::<u32, ObjFault>(f[0])
                        &&& corner(ws[k + 2], n, line) == Ok::<u32, ObjFault>(f[1])
                        &&& corner(ws[k + 3], n, line) == Ok::<u32, ObjFault>(f[2])
                    }
            },
            Err(ObjFault::FaceNeedsVertices { line: l }) => l == line && ws.len() <= 3 && forall|
                i: int,
            |
                1 <= i < ws.len() ==> (#[trigger] corner(ws[i], mesh.vertices.len(), line)) is Ok,
            Err(e) => 1 <= bad < ws.len() && corner(ws[bad], mesh.vertices.len(), line) == Err::<
                u32,
                ObjFault,
            >(e) && forall|i: int|
                1 <= i < bad ==> (#[trigger] corner(ws[i], mesh.vertices.len(), line)) is Ok,
        },
{
    reveal_strlit("v");
    reveal_strlit("f");
    assert("v"@[0] != "f"@[0]);
    let n = mesh.vertices.len();
    let tail = ws.skip(1);
    let bad = law_first_bad_corner_is_named(tail, n, line);
    assert(forall|i: int| 0 <= i < tail.len() ==> #[trigger] tail[i] == ws[i + 1]);
    match polygon(tail, n, line) {
        Ok(vs) => {
            assert forall|i: int| 1 <= i < ws.len() implies #[trigger] corner(ws[i], n, line)
                == Ok::<u32, ObjFault>(vs[i - 1]) by {
                assert(corner(tail[i - 1], n, line) == Ok::<u32, ObjFault>(vs[i - 1]));
            }
            if vs.len() >= 3 {
                let next = with_words(mesh, ws, line)->Ok_0;
                assert forall|i: int| mesh.faces.len() <= i < next.faces.len() implies {
                    let k = i - mesh.faces.len();
                    let f = #[trigger] next.faces[i];
                    &&& corner(ws[1], n, line) == Ok::<u32, ObjFault>(f[0])
                    &&& corner(ws[k + 2], n, line) == Ok::<u32, ObjFault>(f[1])
                    &&& corner(ws[k + 3], n, line) == Ok::<u32, ObjFault>(f[2])
                } by {
                    let k = i - mesh.faces.len();
                    assert(next.faces[i] == triangles(vs)[k]);
                }
            }
        },
        Err(e) => {
            assert forall|i: int| 1 <= i < bad + 1 implies (#[trigger] corner(ws[i], n, line)) is Ok
                by {
                assert(corner(tail[i - 1], n, line) is Ok);
            }
            assert(tail[bad] == ws[bad + 1]);
            assert(corner(tail[bad], n, line) == Err::<u32, ObjFault>(e));
        },
    }
    bad + 1
}

/// A line without words, or whose first word is neither of the two, changes nothing.
pub proof fn law_other_line(mesh: ObjModel, ws: Seq<Seq<char>>, line: int)
    requires
        ws.len() == 0 || (ws[0] != "v"@ && ws[0] != "f"@),
    ensures
        with_words(mesh, ws, line) == Ok::<ObjModel, ObjFault>(mesh),
{
}

/// A mesh that was read amounts to its vertices, each with its three coordinates in order, and its
/// faces.
pub proof fn law_mesh_amounts_to_its_parts(mesh: ObjMesh, i: int)
    requires
        0 <= i < mesh.vertices@.len(),
    ensures
        mesh@.vertices.len() == mesh.vertices@.len(),
        mesh@.vertices[i].0 == mesh.vertices@[i][0]@,
        mesh@.vertices[i].1 == mesh.vertices@[i][1]@,
        mesh@.vertices[i].2 == mesh.vertices@[i][2]@,
        mesh@.faces == mesh.faces@,
{
}

/// An error amounts to the fault of its kind, with the same line, word or index.
pub proof fn law_error_amounts_to_its_fault(e: ObjError)
    ensures
        match (e, e@) {
            (
                ObjError::VertexNeedsCoords { line },
                ObjFault::VertexNeedsCoords { line: l },
            ) => l == line,
            (ObjError::BadFloat { line, token }, ObjFault::BadFloat { line: l, token: t }) => l
                == line && t == token@,
            (ObjError::BadIndex { line, token }, ObjFault::BadIndex { line: l, token: t }) => l
                == line && t == token@,
            (ObjError::ZeroIndex { line }, ObjFault::ZeroIndex { line: l }) => l == line,
            (
                ObjError::OutOfRange { line, index },
                ObjFault::OutOfRange { line: l, index: i },
            ) => l == line && i == index,
            (
                ObjError::FaceNeedsVertices { line },
                ObjFault::FaceNeedsVertices { line: l },
            ) => l == line,
            (ObjError::NoGeometry, ObjFault::NoGeometry) => true,
            _ => false,
        },
{
}

/// A file is read line by line from an empty mesh on, and the first line with a fault, under its
/// number from one on, is the fault of the file.
pub proof fn law_lines_are_read_in_order(ls: Seq<Seq<char>>) -> (course: Seq<ObjModel>)
    ensures
        course.len() > 0,
        course.len() <= ls.len() + 1,
        course[0].vertices.len() == 0 && course[0].faces.len() == 0,
        forall|n: int, m: int|
            0 <= n && m == n + 1 && m < course.len() ==> #[trigger] with_words(
                course[n],
                words(ls[n]),
                m,
            ) == Ok::<ObjModel, ObjFault>(course[m]),
        match after_lines(ls) {
            Ok(mesh) => course.len() == ls.len() + 1 && course.last() == mesh,
            Err(e) => course.len() <= ls.len() && with_words(
                course.last(),
                words(ls[course.len() - 1]),
                course.len() as int,
            ) == Err::<ObjModel, ObjFault>(e),
        },
    decreases ls.len(),
{
    if ls.len() == 0 {
        seq![ObjModel { vertices: Seq::empty(), faces: Seq::empty() }]
    } else {
        let front = ls.drop_last();
        let course = law_lines_are_read_in_order(front);
        assert(forall|n: int| 0 <= n < front.len() ==> front[n] == #[trigger] ls[n]);
        match after_lines(ls) {
            Ok(mesh) => {
                let next = course.push(mesh);
                assert forall|n: int, m: int|
                    0 <= n && m == n + 1 && m < next.len() implies #[trigger] with_words(
                    next[n],
                    words(ls[n]),
                    m,
                ) == Ok::<ObjModel, ObjFault>(next[m]) by {
                    if m < course.len() {
                        assert(with_words(course[n], words(front[n]), m) == Ok::<
                            ObjModel,
                            ObjFault,
                        >(course[m]));
                    }
                }
                next
            },
            Err(e) => {
                assert forall|n: int, m: int|
                    0 <= n && m == n + 1 && m < course.len() implies #[trigger] with_words(
                    course[n],
                    words(ls[n]),
                    m,
                ) == Ok::<ObjModel, ObjFault>(course[m]) by {
                    assert(with_words(course[n], words(front[n]), m) == Ok::<ObjModel, ObjFault>(
                        course[m],
                    ));
                }
                course
            },
        }
    }
}

/// A text without a fault in its lines holds the mesh that they give, unless that has no vertices
/// or no faces; a text with a fault in its lines has that fault.
pub proof fn law_text_without_geometry(text: Seq<char>)
    ensures
        match after_lines(lines(text)) {
            Ok(mesh) => if mesh.vertices.len() > 0 && mesh.faces.len() > 0 {
                parsed(text) == Ok::<ObjModel, ObjFault>(mesh)
            } else {
                parsed(text) == Err::<ObjModel, ObjFault>(ObjFault::NoGeometry)
            },
            Err(e) => parsed(text) == Err::<ObjModel, ObjFault>(e),
        },
{
}

} // verus!
