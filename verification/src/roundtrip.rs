//! What is written as an OBJ file reads back as the same mesh.
use crate::mesh::{in_range, Face};
use crate::number::{
    all_digits, digits_end, exponent_or_end, in_small, integer, is_digit, is_float, is_number,
    lemma_digits_end, small, unsigned, value,
};
use crate::obj::{
    after_lines, all_coords, before_slash, coord_fault, coords, corner, lemma_lines_grow, lines,
    parsed, polygon, triangles, with_line, words, ObjFault, ObjModel,
};
use crate::pipeline::RepairReport;
use crate::report::{
    cleanup_line, destructive_line, face_line, face_lines, filling_line, header, obj_text,
    result_line, tool_line, vertex_line, vertex_lines,
};
use crate::text::{decimal, white};
use vstd::prelude::*;

verus! {

/// No line ends within the text.
pub open spec fn no_break(s: Seq<char>) -> bool {
    forall|k: int| 0 <= k < s.len() ==> #[trigger] s[k] != '\n'
}

/// One line with the line feed behind it.
spec fn one_line(s: Seq<char>) -> bool {
    s.len() > 0 && s.last() == '\n' && no_break(s.drop_last())
}

/// A text without white space.
spec fn is_token(s: Seq<char>) -> bool {
    s.len() > 0 && forall|k: int| 0 <= k < s.len() ==> !white(#[trigger] s[k])
}

/// A text of whole lines that hold a mesh.
spec fn holds(text: Seq<char>, mesh: ObjModel) -> bool {
    lines(text).last() == Seq::<char>::empty() && after_lines(lines(text).drop_last()) == Ok::<
        ObjModel,
        ObjFault,
    >(mesh)
}

proof fn lemma_some_line(text: Seq<char>)
    ensures
        lines(text).len() > 0,
{
    assert(text.take(text.len() as int) =~= text);
    lemma_lines_grow(text, text.len() as int);
}

proof fn lemma_lines_append(a: Seq<char>, l: Seq<char>)
    requires
        no_break(l),
    ensures
        lines(a + l) == lines(a).drop_last().push(lines(a).last() + l),
    decreases l.len(),
{
    lemma_some_line(a);
    if l.len() == 0 {
        assert(a + l =~= a);
        assert(lines(a).last() + l =~= lines(a).last());
        assert(lines(a).drop_last().push(lines(a).last()) =~= lines(a));
    } else {
        let shorter = l.drop_last();
        lemma_lines_append(a, shorter);
        assert((a + l).drop_last() =~= a + shorter);
        assert((a + l).last() == l.last());
        let before = lines(a + shorter);
        assert(before.drop_last() =~= lines(a).drop_last());
        assert(before.last().push(l.last()) =~= lines(a).last() + l);
    }
}

/// One more line of which the mesh after it is known.
proof fn lemma_holds_line(text: Seq<char>, mesh: ObjModel, s: Seq<char>, next: ObjModel)
    requires
        holds(text, mesh),
        one_line(s),
        forall|n: int| #[trigger]
            with_line(mesh, s.drop_last(), n) == Ok::<ObjModel, ObjFault>(next),
    ensures
        holds(text + s, next),
{
    let l = s.drop_last();
    lemma_some_line(text);
    lemma_lines_append(text, l);
    assert((text + s).drop_last() =~= text + l);
    assert((text + s).last() == '\n');
    assert(lines(text).last() + l =~= l);
    let done = lines(text).drop_last();
    assert(lines(text + s).drop_last() =~= done.push(l));
    assert(done.push(l).drop_last() =~= done);
    assert(with_line(mesh, l, done.push(l).len() as int) == Ok::<ObjModel, ObjFault>(next));
}

proof fn lemma_words_white(a: Seq<char>, c: char)
    requires
        white(c),
    ensures
        words(a.push(c)) == words(a),
{
    assert(a.push(c).drop_last() =~= a);
}

proof fn lemma_words_token(a: Seq<char>, t: Seq<char>)
    requires
        is_token(t),
        a.len() == 0 || white(a.last()),
    ensures
        words(a + t) == words(a).push(t),
    decreases t.len(),
{
    let whole = a + t;
    let shorter = t.drop_last();
    assert(whole.drop_last() =~= a + shorter);
    assert(whole.last() == t.last());
    if t.len() == 1 {
        assert(a + shorter =~= a);
        assert(a.len() > 0 ==> whole[whole.len() - 2] == a.last());
        assert(seq![t.last()] =~= t);
    } else {
        assert(is_token(shorter));
        lemma_words_token(a, shorter);
        assert(whole[whole.len() - 2] == t[t.len() - 2]);
        assert(words(a).push(shorter).drop_last() =~= words(a));
        assert(shorter.push(t.last()) =~= t);
    }
}

proof fn lemma_comment(l: Seq<char>)
    requires
        l.len() > 0,
        l[0] == '#',
    ensures
        words(l).len() > 0,
        words(l)[0].len() > 0,
        words(l)[0][0] == '#',
    decreases l.len(),
{
    let before = words(l.drop_last());
    if l.len() > 1 {
        assert(l.drop_last()[0] == '#');
        lemma_comment(l.drop_last());
        assert(before.drop_last().push(before.last().push(l.last()))[0][0] == '#');
        assert(before.push(seq![l.last()])[0] == before[0]);
    } else {
        assert(words(l) =~= before.push(seq![l.last()]));
        assert(before =~= Seq::<Seq<char>>::empty());
    }
}

/// A comment adds nothing.
proof fn lemma_holds_comment(text: Seq<char>, mesh: ObjModel, s: Seq<char>)
    requires
        holds(text, mesh),
        one_line(s),
        s[0] == '#',
    ensures
        holds(text + s, mesh),
{
    let l = s.drop_last();
    assert(l.len() > 0 && l[0] == '#');
    lemma_comment(l);
    reveal_strlit("v");
    reveal_strlit("f");
    assert(words(l)[0] != "v"@ && words(l)[0] != "f"@) by {
        assert("v"@[0] == 'v' && "f"@[0] == 'f');
    }
    lemma_holds_line(text, mesh, s, mesh);
}

/// A number in decimal consists of digits and reads back as itself.
pub proof fn lemma_decimal(n: nat)
    ensures
        decimal(n).len() > 0,
        all_digits(decimal(n)),
        value(decimal(n)) == n,
    decreases n,
{
    if n >= 10 {
        lemma_decimal(n / 10);
        assert(decimal(n).drop_last() =~= decimal(n / 10));
    } else {
        assert(decimal(n).drop_last() =~= Seq::<char>::empty());
        assert(value(Seq::<char>::empty()) == 0);
    }
}

proof fn lemma_decimal_token(n: nat)
    ensures
        is_token(decimal(n)),
        no_break(decimal(n)),
{
    lemma_decimal(n);
    assert forall|k: int| 0 <= k < decimal(n).len() implies !white(#[trigger] decimal(n)[k])
        && decimal(n)[k] != '\n' by {
        assert(is_digit(decimal(n)[k]));
    }
}

proof fn lemma_join(a: Seq<char>, b: Seq<char>)
    requires
        no_break(a),
        a.len() > 0,
    ensures
        no_break(b) ==> no_break(a + b),
        one_line(b) ==> one_line(a + b),
        (a + b)[0] == a[0],
{
    if b.len() > 0 {
        assert((a + b).drop_last() =~= a + b.drop_last());
    }
}

proof fn lemma_tool_line(version: Seq<char>)
    requires
        no_break(version),
    ensures
        one_line(tool_line(version)),
        tool_line(version)[0] == '#',
{
    reveal_strlit("# repaired by spectral3d-cli v");
    reveal_strlit("\n");
    lemma_join("# repaired by spectral3d-cli v"@, version);
    assert(one_line("\n"@));
    lemma_join("# repaired by spectral3d-cli v"@ + version, "\n"@);
}

proof fn lemma_cleanup_line(r: RepairReport)
    ensures
        one_line(cleanup_line(r)),
        cleanup_line(r)[0] == '#',
{
    reveal_strlit("# dropped ");
    reveal_strlit(" degenerate face(s), welded ");
    reveal_strlit(" vertex/vertices, dropped ");
    reveal_strlit(" duplicate face(s)\n");
    let d1 = decimal(r.degenerate_dropped as nat);
    let d2 = decimal(r.welded as nat);
    let d3 = decimal(r.duplicate_faces_dropped as nat);
    lemma_decimal_token(r.degenerate_dropped as nat);
    lemma_decimal_token(r.welded as nat);
    lemma_decimal_token(r.duplicate_faces_dropped as nat);
    let p0 = "# dropped "@;
    let p1 = p0 + d1;
    let p2 = p1 + " degenerate face(s), welded "@;
    let p3 = p2 + d2;
    let p4 = p3 + " vertex/vertices, dropped "@;
    let p5 = p4 + d3;
    lemma_join(p0, d1);
    lemma_join(p1, " degenerate face(s), welded "@);
    lemma_join(p2, d2);
    lemma_join(p3, " vertex/vertices, dropped "@);
    lemma_join(p4, d3);
    assert(one_line(" duplicate face(s)\n"@));
    lemma_join(p5, " duplicate face(s)\n"@);
}

proof fn lemma_destructive_line(r: RepairReport)
    ensures
        destructive_line(r).len() > 0 ==> one_line(destructive_line(r)) && destructive_line(r)[0]
            == '#',
{
    reveal_strlit("# destructive: cut ");
    reveal_strlit(" non-manifold face(s), dropped ");
    reveal_strlit(" debris component(s)\n");
    let d1 = decimal(r.nonmanifold_faces_removed as nat);
    let d2 = decimal(r.components_dropped as nat);
    lemma_decimal_token(r.nonmanifold_faces_removed as nat);
    lemma_decimal_token(r.components_dropped as nat);
    let p0 = "# destructive: cut "@;
    let p1 = p0 + d1;
    let p2 = p1 + " non-manifold face(s), dropped "@;
    let p3 = p2 + d2;
    lemma_join(p0, d1);
    lemma_join(p1, " non-manifold face(s), dropped "@);
    lemma_join(p2, d2);
    assert(one_line(" debris component(s)\n"@));
    lemma_join(p3, " debris component(s)\n"@);
}

proof fn lemma_filling_line(r: RepairReport)
    ensures
        one_line(filling_line(r)),
        filling_line(r)[0] == '#',
{
    reveal_strlit("# filled ");
    reveal_strlit(" hole(s) (+");
    reveal_strlit(" faces), flipped ");
    reveal_strlit(" shell(s)\n");
    let d1 = decimal(r.holes_filled as nat);
    let d2 = decimal(r.cap_faces_added as nat);
    let d3 = decimal(r.shells_flipped as nat);
    lemma_decimal_token(r.holes_filled as nat);
    lemma_decimal_token(r.cap_faces_added as nat);
    lemma_decimal_token(r.shells_flipped as nat);
    let p0 = "# filled "@;
    let p1 = p0 + d1;
    let p2 = p1 + " hole(s) (+"@;
    let p3 = p2 + d2;
    let p4 = p3 + " faces), flipped "@;
    let p5 = p4 + d3;
    lemma_join(p0, d1);
    lemma_join(p1, " hole(s) (+"@);
    lemma_join(p2, d2);
    lemma_join(p3, " faces), flipped "@);
    lemma_join(p4, d3);
    assert(one_line(" shell(s)\n"@));
    lemma_join(p5, " shell(s)\n"@);
}

proof fn lemma_result_line(r: RepairReport)
    ensures
        one_line(result_line(r)),
        result_line(r)[0] == '#',
{
    reveal_strlit("# result: closed=");
    reveal_strlit("true");
    reveal_strlit("false");
    reveal_strlit(", ");
    reveal_strlit(" open edge(s), ");
    reveal_strlit(" non-manifold edge(s)\n");
    let b = crate::report::flag(r.closed);
    let d1 = decimal(r.open_edges_left as nat);
    let d2 = decimal(r.nonmanifold_edges_left as nat);
    lemma_decimal_token(r.open_edges_left as nat);
    lemma_decimal_token(r.nonmanifold_edges_left as nat);
    let p0 = "# result: closed="@;
    let p1 = p0 + b;
    let p2 = p1 + ", "@;
    let p3 = p2 + d1;
    let p4 = p3 + " open edge(s), "@;
    let p5 = p4 + d2;
    lemma_join(p0, b);
    lemma_join(p1, ", "@);
    lemma_join(p2, d1);
    lemma_join(p3, " open edge(s), "@);
    lemma_join(p4, d2);
    assert(one_line(" non-manifold edge(s)\n"@));
    lemma_join(p5, " non-manifold edge(s)\n"@);
}

/// The header holds no geometry.
proof fn lemma_header(version: Seq<char>, r: RepairReport)
    requires
        no_break(version),
    ensures
        holds(header(version, r), ObjModel { vertices: Seq::empty(), faces: Seq::empty() }),
{
    let none = ObjModel { vertices: Seq::empty(), faces: Seq::empty() };
    let h0 = Seq::<char>::empty();
    assert(lines(h0).drop_last() =~= Seq::<Seq<char>>::empty());
    assert(holds(h0, none));
    lemma_tool_line(version);
    lemma_holds_comment(h0, none, tool_line(version));
    let h1 = tool_line(version);
    assert(h0 + h1 =~= h1);
    lemma_cleanup_line(r);
    lemma_holds_comment(h1, none, cleanup_line(r));
    let h2 = h1 + cleanup_line(r);
    lemma_destructive_line(r);
    let h3 = h2 + destructive_line(r);
    if destructive_line(r).len() > 0 {
        lemma_holds_comment(h2, none, destructive_line(r));
    } else {
        assert(h3 =~= h2);
    }
    lemma_filling_line(r);
    lemma_holds_comment(h3, none, filling_line(r));
    let h4 = h3 + filling_line(r);
    lemma_result_line(r);
    lemma_holds_comment(h4, none, result_line(r));
    let h5 = h4 + result_line(r);
    reveal_strlit("\n");
    assert("\n"@.drop_last() =~= Seq::<char>::empty());
    lemma_holds_line(h5, none, "\n"@, none);
}

/// Up to where the digits end there are digits.
pub proof fn lemma_digit_run(s: Seq<char>, i: int, k: int)
    requires
        0 <= i <= k < digits_end(s, i),
        i <= s.len(),
    ensures
        k < s.len(),
        is_digit(s[k]),
    decreases s.len() - i,
{
    lemma_digits_end(s, i);
    if k > i {
        lemma_digit_run(s, i + 1, k);
    }
}

proof fn lemma_exponent_is_token(s: Seq<char>, i: int, k: int)
    requires
        0 <= i <= k < s.len(),
        exponent_or_end(s, i),
    ensures
        !white(s[k]),
{
    let from = if i + 1 < s.len() && (s[i + 1] == '+' || s[i + 1] == '-') {
        i + 2
    } else {
        i + 1
    };
    if k >= from {
        lemma_digit_run(s, from, k);
    }
}

proof fn lemma_number_is_token(s: Seq<char>)
    requires
        is_number(s),
    ensures
        is_token(s),
{
    let whole = digits_end(s, 0);
    lemma_digits_end(s, 0);
    assert forall|k: int| 0 <= k < s.len() implies !white(#[trigger] s[k]) by {
        if k < whole {
            lemma_digit_run(s, 0, k);
        } else if whole < s.len() && s[whole] == '.' {
            let end = digits_end(s, whole + 1);
            lemma_digits_end(s, whole + 1);
            if whole < k < end {
                lemma_digit_run(s, whole + 1, k);
            } else if k >= end {
                lemma_exponent_is_token(s, end, k);
            }
        } else {
            lemma_exponent_is_token(s, whole, k);
        }
    }
}

proof fn lemma_letters_are_token(s: Seq<char>)
    requires
        s.len() > 0,
        forall|k: int| 0 <= k < s.len() ==> 97 <= #[trigger] in_small(s)[k] as u32 <= 122,
    ensures
        is_token(s),
{
    assert forall|k: int| 0 <= k < s.len() implies !white(#[trigger] s[k]) by {
        assert(in_small(s)[k] == small(s[k]));
    }
}

/// A floating point number is written without white space.
pub proof fn lemma_float_is_token(s: Seq<char>)
    requires
        is_float(s),
    ensures
        s.len() > 0,
        forall|k: int| 0 <= k < s.len() ==> !white(#[trigger] s[k]),
{
    reveal_strlit("inf");
    reveal_strlit("infinity");
    reveal_strlit("nan");
    let rest = unsigned(s);
    assert(is_token(rest)) by {
        if is_number(rest) {
            lemma_number_is_token(rest);
        } else {
            assert(in_small(rest).len() == rest.len());
            lemma_letters_are_token(rest);
        }
    }
    assert forall|k: int| 0 <= k < s.len() implies !white(#[trigger] s[k]) by {
        if rest.len() < s.len() && k > 0 {
            assert(s[k] == rest[k - 1]);
        } else if rest.len() == s.len() {
            assert(s[k] == rest[k]);
        }
    }
}

/// The words of a line that begins with a letter and a space and goes on with three tokens.
proof fn lemma_line_words(
    start: Seq<char>,
    letter: Seq<char>,
    a: Seq<char>,
    b: Seq<char>,
    c: Seq<char>,
)
    requires
        is_token(letter),
        start == letter.push(' '),
        is_token(a),
        is_token(b),
        is_token(c),
    ensures
        words(start + a + " "@ + b + " "@ + c) == seq![letter, a, b, c],
        no_break(start + a + " "@ + b + " "@ + c),
        start[0] == letter[0],
{
    reveal_strlit(" ");
    let none = Seq::<char>::empty();
    assert(none + letter =~= letter);
    lemma_words_token(none, letter);
    lemma_words_white(letter, ' ');
    let p1 = start + a;
    lemma_words_token(start, a);
    let p2 = p1 + " "@;
    assert(p2 =~= p1.push(' '));
    lemma_words_white(p1, ' ');
    let p3 = p2 + b;
    lemma_words_token(p2, b);
    let p4 = p3 + " "@;
    assert(p4 =~= p3.push(' '));
    lemma_words_white(p3, ' ');
    lemma_words_token(p4, c);
    assert(words(p4 + c) =~= seq![letter, a, b, c]);
    lemma_token_no_break(letter);
    lemma_token_no_break(a);
    lemma_token_no_break(b);
    lemma_token_no_break(c);
    assert(no_break(start));
    assert(no_break(p1));
    assert(no_break(p2));
    assert(no_break(p3));
    assert(no_break(p4));
}

proof fn lemma_token_no_break(s: Seq<char>)
    requires
        is_token(s),
    ensures
        no_break(s),
{
    assert forall|k: int| 0 <= k < s.len() implies #[trigger] s[k] != '\n' by {
        assert(!white(s[k]));
    }
}

/// The line of a vertex adds that vertex.
proof fn lemma_vertex_line(text: Seq<char>, mesh: ObjModel, v: [String; 3])
    requires
        holds(text, mesh),
        forall|k: int| 0 <= k < 3 ==> is_float(#[trigger] v[k]@),
    ensures
        holds(
            text + vertex_line(v),
            ObjModel { vertices: mesh.vertices.push(coords(v)), faces: mesh.faces },
        ),
{
    lemma_float_is_token(v[0]@);
    lemma_float_is_token(v[1]@);
    lemma_float_is_token(v[2]@);
    reveal_strlit("v ");
    reveal_strlit("v");
    reveal_strlit("\n");
    assert("v "@ =~= "v"@.push(' '));
    lemma_line_words("v "@, "v"@, v[0]@, v[1]@, v[2]@);
    let l = "v "@ + v[0]@ + " "@ + v[1]@ + " "@ + v[2]@;
    assert(vertex_line(v).drop_last() =~= l);
    let next = ObjModel { vertices: mesh.vertices.push(coords(v)), faces: mesh.faces };
    assert forall|n: int| #[trigger] with_line(mesh, l, n) == Ok::<ObjModel, ObjFault>(next) by {
        reveal_with_fuel(coord_fault, 5);
        let ws = words(l);
        assert(ws[0] == "v"@ && ws[1] == v[0]@ && ws[2] == v[1]@ && ws[3] == v[2]@);
        assert(coord_fault(ws, 1, n) is None);
    }
    lemma_holds_line(text, mesh, vertex_line(v), next);
}

/// A number in decimal names the vertex before it in the count from nought.
proof fn lemma_corner(i: u32, count: nat, line: int)
    requires
        i < count,
    ensures
        corner(decimal(i as nat + 1), count, line) == Ok::<u32, ObjFault>(i),
{
    let d = decimal(i as nat + 1);
    lemma_decimal(i as nat + 1);
    assert(!d.contains('/')) by {
        if d.contains('/') {
            let k = choose|k: int| 0 <= k < d.len() && d[k] == '/';
            assert(is_digit(d[k]));
        }
    }
    assert(before_slash(d) == d);
    assert(is_digit(d[0]));
    assert(unsigned(d) == d);
    assert(integer(d) == Some(i as int + 1));
}

/// The line of a face adds that face.
proof fn lemma_face_line(text: Seq<char>, mesh: ObjModel, f: Face)
    requires
        holds(text, mesh),
        forall|k: int| 0 <= k < 3 ==> #[trigger] f[k] < mesh.vertices.len(),
    ensures
        holds(
            text + face_line(f),
            ObjModel { vertices: mesh.vertices, faces: mesh.faces.push(f) },
        ),
{
    let d0 = decimal(f[0] as nat + 1);
    let d1 = decimal(f[1] as nat + 1);
    let d2 = decimal(f[2] as nat + 1);
    lemma_decimal_token(f[0] as nat + 1);
    lemma_decimal_token(f[1] as nat + 1);
    lemma_decimal_token(f[2] as nat + 1);
    reveal_strlit("f ");
    reveal_strlit("f");
    reveal_strlit("v");
    reveal_strlit("\n");
    assert("f "@ =~= "f"@.push(' '));
    lemma_line_words("f "@, "f"@, d0, d1, d2);
    let l = "f "@ + d0 + " "@ + d1 + " "@ + d2;
    assert(face_line(f).drop_last() =~= l);
    let next = ObjModel { vertices: mesh.vertices, faces: mesh.faces.push(f) };
    let count = mesh.vertices.len();
    assert forall|n: int| #[trigger] with_line(mesh, l, n) == Ok::<ObjModel, ObjFault>(next) by {
        let ws = words(l);
        assert(ws[0] == "f"@);
        assert("f"@[0] == 'f' && "v"@[0] == 'v');
        lemma_corner(f[0], count, n);
        lemma_corner(f[1], count, n);
        lemma_corner(f[2], count, n);
        let t3 = ws.skip(1);
        let t2 = t3.drop_last();
        let t1 = t2.drop_last();
        assert(t3.last() == d2 && t2.last() == d1 && t1.last() == d0);
        assert(t1.drop_last() =~= Seq::<Seq<char>>::empty());
        assert(polygon(t1.drop_last(), count, n) == Ok::<Seq<u32>, ObjFault>(Seq::empty()));
        let c1 = Seq::<u32>::empty().push(f[0]);
        assert(polygon(t1, count, n) == Ok::<Seq<u32>, ObjFault>(c1));
        let c2 = c1.push(f[1]);
        assert(polygon(t2, count, n) == Ok::<Seq<u32>, ObjFault>(c2));
        let c3 = c2.push(f[2]);
        assert(polygon(t3, count, n) == Ok::<Seq<u32>, ObjFault>(c3));
        assert([c3[0], c3[1], c3[2]] =~= f);
        assert(mesh.faces + triangles(c3) =~= mesh.faces.push(f));
    }
    lemma_holds_line(text, mesh, face_line(f), next);
}

proof fn lemma_vertex_lines(text: Seq<char>, verts: Seq<[String; 3]>)
    requires
        holds(text, ObjModel { vertices: Seq::empty(), faces: Seq::empty() }),
        all_floats(verts),
    ensures
        holds(
            text + vertex_lines(verts),
            ObjModel { vertices: all_coords(verts), faces: Seq::empty() },
        ),
    decreases verts.len(),
{
    if verts.len() == 0 {
        assert(text + vertex_lines(verts) =~= text);
        assert(all_coords(verts) =~= Seq::empty());
    } else {
        let before = verts.drop_last();
        assert forall|i: int, k: int| 0 <= i < before.len() && 0 <= k < 3 implies is_float(
            #[trigger] before[i][k]@,
        ) by {
            assert(is_float(verts[i][k]@));
        }
        lemma_vertex_lines(text, before);
        assert forall|k: int| 0 <= k < 3 implies is_float(#[trigger] verts.last()[k]@) by {
            assert(is_float(verts[verts.len() - 1][k]@));
        }
        lemma_vertex_line(
            text + vertex_lines(before),
            ObjModel { vertices: all_coords(before), faces: Seq::empty() },
            verts.last(),
        );
        assert(text + vertex_lines(verts) =~= text + vertex_lines(before) + vertex_line(
            verts.last(),
        ));
        assert(all_coords(verts) =~= all_coords(before).push(coords(verts.last())));
    }
}

proof fn lemma_face_lines(text: Seq<char>, mesh: ObjModel, faces: Seq<Face>)
    requires
        holds(text, mesh),
        mesh.faces.len() == 0,
        in_range(faces, mesh.vertices.len() as int),
    ensures
        holds(text + face_lines(faces), ObjModel { vertices: mesh.vertices, faces }),
    decreases faces.len(),
{
    if faces.len() == 0 {
        assert(text + face_lines(faces) =~= text);
        assert(mesh.faces =~= faces);
    } else {
        let before = faces.drop_last();
        assert forall|i: int, k: int| 0 <= i < before.len() && 0 <= k < 3 implies
            #[trigger] before[i][k] < mesh.vertices.len() by {
            assert(faces[i][k] < mesh.vertices.len());
        }
        lemma_face_lines(text, mesh, before);
        assert forall|k: int| 0 <= k < 3 implies #[trigger] faces.last()[k]
            < mesh.vertices.len() by {
            assert(faces[faces.len() - 1][k] < mesh.vertices.len());
        }
        lemma_face_line(
            text + face_lines(before),
            ObjModel { vertices: mesh.vertices, faces: before },
            faces.last(),
        );
        assert(text + face_lines(faces) =~= text + face_lines(before) + face_line(faces.last()));
        assert(before.push(faces.last()) =~= faces);
    }
}

/// Every coordinate is written as a floating point number.
pub open spec fn all_floats(verts: Seq<[String; 3]>) -> bool {
    forall|i: int, k: int| 0 <= i < verts.len() && 0 <= k < 3 ==> is_float(#[trigger] verts[i][k]@)
}

/// A mesh that is written as an OBJ file reads back as the same mesh: the same vertices, to the
/// letter, and the same faces. The report above them leaves no trace.
pub proof fn law_written_mesh_reads_back(
    version: Seq<char>,
    verts: Seq<[String; 3]>,
    faces: Seq<Face>,
    r: RepairReport,
)
    requires
        no_break(version),
        all_floats(verts),
        in_range(faces, verts.len() as int),
        faces.len() > 0,
    ensures
        parsed(obj_text(version, verts, faces, r)) == Ok::<ObjModel, ObjFault>(
            ObjModel { vertices: all_coords(verts), faces },
        ),
{
    let text = obj_text(version, verts, faces, r);
    let mesh = ObjModel { vertices: all_coords(verts), faces };
    lemma_header(version, r);
    lemma_vertex_lines(header(version, r), verts);
    lemma_face_lines(
        header(version, r) + vertex_lines(verts),
        ObjModel { vertices: all_coords(verts), faces: Seq::empty() },
        faces,
    );
    assert(holds(text, mesh));
    lemma_some_line(text);
    assert(words(Seq::<char>::empty()).len() == 0);
    assert(with_line(mesh, lines(text).last(), lines(text).len() as int) == Ok::<
        ObjModel,
        ObjFault,
    >(mesh));
    assert(faces[0][0] < verts.len());
}

} // verus!
