//! What the printed lines say, and which answers count as a yes.
use crate::mesh::Face;
use crate::number::is_digit;
use crate::pipeline::RepairReport;
use crate::report::{
    agrees, cleanup_line, destructive_line, edits, face_lines, filling_line, flag, obj_text, outcome,
    result_line, tool_line, vertex_lines,
};
use crate::roundtrip::lemma_decimal;
use crate::text::{decimal, trimmed, white};
use vstd::prelude::*;

verus! {

/// The characters that count as white space.
pub proof fn law_white_space(c: char)
    ensures
        white(c) <==> c == '\t' || c == '\n' || c == '\u{b}' || c == '\u{c}' || c == '\r' || c == ' '
            || c == '\u{85}' || c == '\u{a0}' || c == '\u{1680}' || c == '\u{2000}' || c
            == '\u{2001}' || c == '\u{2002}' || c == '\u{2003}' || c == '\u{2004}' || c
            == '\u{2005}' || c == '\u{2006}' || c == '\u{2007}' || c == '\u{2008}' || c
            == '\u{2009}' || c == '\u{200a}' || c == '\u{2028}' || c == '\u{2029}' || c
            == '\u{202f}' || c == '\u{205f}' || c == '\u{3000}',
{
}

/// Every character is white space.
pub open spec fn is_blank(s: Seq<char>) -> bool {
    forall|i: int| 0 <= i < s.len() ==> white(#[trigger] s[i])
}

/// A trimmed text is the text without blanks before and behind it, and has none at its own ends.
pub proof fn law_trimming_takes_the_blanks(s: Seq<char>) -> (r: (Seq<char>, Seq<char>))
    ensures
        s == r.0 + trimmed(s) + r.1,
        is_blank(r.0),
        is_blank(r.1),
        trimmed(s).len() > 0 ==> !white(trimmed(s)[0]) && !white(trimmed(s).last()),
    decreases s.len(),
{
    let none = Seq::<char>::empty();
    if s.len() == 0 {
        assert(s =~= none + s + none);
        (none, none)
    } else if white(s[0]) {
        let r = law_trimming_takes_the_blanks(s.drop_first());
        let a = seq![s[0]] + r.0;
        assert(s =~= seq![s[0]] + s.drop_first());
        assert(s =~= a + trimmed(s) + r.1);
        assert forall|i: int| 0 <= i < a.len() implies white(#[trigger] a[i]) by {
            if i > 0 {
                assert(a[i] == r.0[i - 1]);
            }
        }
        (a, r.1)
    } else if white(s.last()) {
        let r = law_trimming_takes_the_blanks(s.drop_last());
        let b = r.1.push(s.last());
        assert(s =~= s.drop_last().push(s.last()));
        assert(s =~= r.0 + trimmed(s) + b);
        assert forall|i: int| 0 <= i < b.len() implies white(#[trigger] b[i]) by {
            if i < r.1.len() {
                assert(b[i] == r.1[i]);
            }
        }
        (r.0, b)
    } else {
        assert(s =~= none + s + none);
        (none, none)
    }
}

/// Blanks around a word that has none at its ends are all that trimming takes.
pub proof fn law_blanks_around_do_not_matter(a: Seq<char>, word: Seq<char>, b: Seq<char>)
    requires
        is_blank(a),
        is_blank(b),
        word.len() > 0 ==> !white(word[0]) && !white(word.last()),
    ensures
        trimmed(a + word + b) == word,
    decreases a.len() + b.len(),
{
    let s = a + word + b;
    if a.len() > 0 {
        let rest = a.drop_first();
        assert(s[0] == a[0]);
        assert(white(a[0]));
        assert(s.drop_first() =~= rest + word + b);
        assert forall|i: int| 0 <= i < rest.len() implies white(#[trigger] rest[i]) by {
            assert(rest[i] == a[i + 1]);
        }
        law_blanks_around_do_not_matter(rest, word, b);
    } else if word.len() == 0 {
        assert(s =~= b);
        lemma_blank(b);
        assert(word =~= Seq::<char>::empty());
    } else if b.len() > 0 {
        let rest = b.drop_last();
        assert(s.last() == b.last());
        assert(white(b[b.len() - 1]));
        assert(s[0] == word[0]);
        assert(s.drop_last() =~= a + word + rest);
        assert forall|i: int| 0 <= i < rest.len() implies white(#[trigger] rest[i]) by {
            assert(rest[i] == b[i]);
        }
        law_blanks_around_do_not_matter(a, word, rest);
    } else {
        assert(s =~= word);
    }
}

proof fn lemma_blank(s: Seq<char>)
    requires
        is_blank(s),
    ensures
        trimmed(s) == Seq::<char>::empty(),
    decreases s.len(),
{
    if s.len() > 0 {
        assert(white(s[0]));
        let t = s.drop_first();
        assert forall|i: int| 0 <= i < t.len() implies white(#[trigger] t[i]) by {
            assert(t[i] == s[i + 1]);
        }
        lemma_blank(t);
    } else {
        assert(s =~= Seq::<char>::empty());
    }
}

/// The four words for yes.
pub open spec fn is_yes_word(w: Seq<char>) -> bool {
    w == seq!['y'] || w == seq!['Y'] || w == seq!['y', 'e', 's'] || w == seq!['Y', 'e', 's']
}

/// An answer agrees if and only if it is one of the four words with nothing but white space around
/// it.
pub proof fn law_only_a_yes_agrees(answer: Seq<char>)
    ensures
        agrees(answer) <==> exists|a: Seq<char>, w: Seq<char>, b: Seq<char>|
            is_blank(a) && is_yes_word(w) && is_blank(b) && answer == #[trigger] (a + w + b),
{
    lemma_yes_words(trimmed(answer));
    if agrees(answer) {
        let r = law_trimming_takes_the_blanks(answer);
        assert(answer == r.0 + trimmed(answer) + r.1);
        assert(is_blank(r.0) && is_yes_word(trimmed(answer)) && is_blank(r.1));
    }
    if exists|a: Seq<char>, w: Seq<char>, b: Seq<char>|
        is_blank(a) && is_yes_word(w) && is_blank(b) && answer == #[trigger] (a + w + b) {
        let (a, w, b) = choose|a: Seq<char>, w: Seq<char>, b: Seq<char>|
            is_blank(a) && is_yes_word(w) && is_blank(b) && answer == #[trigger] (a + w + b);
        law_blanks_around_do_not_matter(a, w, b);
    }
}

proof fn lemma_yes_words(w: Seq<char>)
    ensures
        is_yes_word(w) <==> w == "y"@ || w == "Y"@ || w == "yes"@ || w == "Yes"@,
{
    reveal_strlit("y");
    reveal_strlit("Y");
    reveal_strlit("yes");
    reveal_strlit("Yes");
    assert("y"@ =~= seq!['y']);
    assert("Y"@ =~= seq!['Y']);
    assert("yes"@ =~= seq!['y', 'e', 's']);
    assert("Yes"@ =~= seq!['Y', 'e', 's']);
}

/// The numbers that a text holds, from left to right: its longest stretches of digits.
pub open spec fn numbers_in(s: Seq<char>) -> Seq<nat>
    decreases s.len(),
{
    if s.len() == 0 {
        Seq::empty()
    } else {
        let before = numbers_in(s.drop_last());
        let d = (s.last() as u32 - 48) as nat;
        if !is_digit(s.last()) {
            before
        } else if s.len() == 1 || !is_digit(s[s.len() - 2]) {
            before.push(d)
        } else {
            before.drop_last().push(before.last() * 10 + d)
        }
    }
}

/// A text without digits.
pub open spec fn no_digits(s: Seq<char>) -> bool {
    forall|i: int| 0 <= i < s.len() ==> !is_digit(#[trigger] s[i])
}

proof fn lemma_numbers_words(s: Seq<char>, t: Seq<char>)
    requires
        no_digits(t),
    ensures
        numbers_in(s + t) == numbers_in(s),
    decreases t.len(),
{
    if t.len() == 0 {
        assert(s + t =~= s);
    } else {
        let u = t.drop_last();
        assert(no_digits(u)) by {
            assert forall|i: int| 0 <= i < u.len() implies !is_digit(#[trigger] u[i]) by {
                assert(u[i] == t[i]);
            }
        }
        lemma_numbers_words(s, u);
        assert((s + t).drop_last() =~= s + u);
        assert(!is_digit(t[t.len() - 1]));
        assert((s + t).last() == t[t.len() - 1]);
    }
}

proof fn lemma_numbers_decimal(s: Seq<char>, n: nat)
    requires
        s.len() > 0,
        !is_digit(s.last()),
    ensures
        numbers_in(s + decimal(n)) == numbers_in(s).push(n),
    decreases n,
{
    let d = decimal(n);
    let t = s + d;
    lemma_decimal(n);
    assert(is_digit(d[d.len() - 1]));
    assert(t.last() == d[d.len() - 1]);
    if n < 10 {
        assert(t.drop_last() =~= s);
        assert(t[t.len() - 2] == s.last());
    } else {
        let e = decimal(n / 10);
        lemma_decimal(n / 10);
        lemma_numbers_decimal(s, n / 10);
        assert(t.drop_last() =~= s + e);
        assert(t[t.len() - 2] == e[e.len() - 1]);
        assert(is_digit(e[e.len() - 1]));
        let before = numbers_in(s).push(n / 10);
        assert(before.drop_last() =~= numbers_in(s));
    }
}

/// One more count and the words behind it.
proof fn lemma_numbers_next(s: Seq<char>, n: nat, t: Seq<char>)
    requires
        s.len() > 0,
        !is_digit(s.last()),
        no_digits(t),
        t.len() > 0,
    ensures
        numbers_in(s + decimal(n) + t) == numbers_in(s).push(n),
        (s + decimal(n) + t).len() > 0,
        !is_digit((s + decimal(n) + t).last()),
{
    lemma_numbers_decimal(s, n);
    lemma_numbers_words(s + decimal(n), t);
    assert(!is_digit(t[t.len() - 1]));
}

proof fn lemma_numbers_start(t: Seq<char>)
    requires
        no_digits(t),
        t.len() > 0,
    ensures
        numbers_in(t) == Seq::<nat>::empty(),
        !is_digit(t.last()),
{
    lemma_numbers_words(Seq::empty(), t);
    assert(Seq::<char>::empty() + t =~= t);
    assert(!is_digit(t[t.len() - 1]));
}

/// The console line gives the eight counts of edits, in the order in which the repair makes them.
pub proof fn law_edits_line_gives_every_count(r: RepairReport)
    ensures
        numbers_in(edits(r)) == seq![
            r.degenerate_dropped as nat,
            r.welded as nat,
            r.duplicate_faces_dropped as nat,
            r.nonmanifold_faces_removed as nat,
            r.components_dropped as nat,
            r.holes_filled as nat,
            r.cap_faces_added as nat,
            r.shells_flipped as nat,
        ],
{
    reveal_strlit("dropped ");
    reveal_strlit(" degenerate, welded ");
    reveal_strlit(", dropped ");
    reveal_strlit(" dup faces; cut ");
    reveal_strlit(" non-manifold, dropped ");
    reveal_strlit(" debris; filled ");
    reveal_strlit(" holes (+");
    reveal_strlit("), flipped ");
    reveal_strlit(" shell(s)");
    let s0 = "dropped "@;
    let s1 = s0 + decimal(r.degenerate_dropped as nat) + " degenerate, welded "@;
    let s2 = s1 + decimal(r.welded as nat) + ", dropped "@;
    let s3 = s2 + decimal(r.duplicate_faces_dropped as nat) + " dup faces; cut "@;
    let s4 = s3 + decimal(r.nonmanifold_faces_removed as nat) + " non-manifold, dropped "@;
    let s5 = s4 + decimal(r.components_dropped as nat) + " debris; filled "@;
    let s6 = s5 + decimal(r.holes_filled as nat) + " holes (+"@;
    let s7 = s6 + decimal(r.cap_faces_added as nat) + "), flipped "@;
    lemma_numbers_start(s0);
    lemma_numbers_next(s0, r.degenerate_dropped as nat, " degenerate, welded "@);
    lemma_numbers_next(s1, r.welded as nat, ", dropped "@);
    lemma_numbers_next(s2, r.duplicate_faces_dropped as nat, " dup faces; cut "@);
    lemma_numbers_next(s3, r.nonmanifold_faces_removed as nat, " non-manifold, dropped "@);
    lemma_numbers_next(s4, r.components_dropped as nat, " debris; filled "@);
    lemma_numbers_next(s5, r.holes_filled as nat, " holes (+"@);
    lemma_numbers_next(s6, r.cap_faces_added as nat, "), flipped "@);
    lemma_numbers_next(s7, r.shells_flipped as nat, " shell(s)"@);
}

/// The header of the file gives the same counts, those of destructive edits only where there were
/// any, and what is left of open and overloaded edges.
pub proof fn law_header_gives_every_count(r: RepairReport)
    ensures
        numbers_in(cleanup_line(r)) == seq![
            r.degenerate_dropped as nat,
            r.welded as nat,
            r.duplicate_faces_dropped as nat,
        ],
        r.nonmanifold_faces_removed == 0 && r.components_dropped == 0 <==> destructive_line(r).len()
            == 0,
        destructive_line(r).len() > 0 ==> numbers_in(destructive_line(r)) == seq![
            r.nonmanifold_faces_removed as nat,
            r.components_dropped as nat,
        ],
        numbers_in(filling_line(r)) == seq![
            r.holes_filled as nat,
            r.cap_faces_added as nat,
            r.shells_flipped as nat,
        ],
        numbers_in(result_line(r)) == seq![
            r.open_edges_left as nat,
            r.nonmanifold_edges_left as nat,
        ],
{
    lemma_cleanup_numbers(r);
    lemma_destructive_numbers(r);
    lemma_filling_numbers(r);
    lemma_result_numbers(r);
}

proof fn lemma_cleanup_numbers(r: RepairReport)
    ensures
        numbers_in(cleanup_line(r)) == seq![
            r.degenerate_dropped as nat,
            r.welded as nat,
            r.duplicate_faces_dropped as nat,
        ],
{
    reveal_strlit("# dropped ");
    reveal_strlit(" degenerate face(s), welded ");
    reveal_strlit(" vertex/vertices, dropped ");
    reveal_strlit(" duplicate face(s)\n");
    let s0 = "# dropped "@;
    let s1 = s0 + decimal(r.degenerate_dropped as nat) + " degenerate face(s), welded "@;
    let s2 = s1 + decimal(r.welded as nat) + " vertex/vertices, dropped "@;
    lemma_numbers_start(s0);
    lemma_numbers_next(s0, r.degenerate_dropped as nat, " degenerate face(s), welded "@);
    lemma_numbers_next(s1, r.welded as nat, " vertex/vertices, dropped "@);
    lemma_numbers_next(s2, r.duplicate_faces_dropped as nat, " duplicate face(s)\n"@);
}

proof fn lemma_destructive_numbers(r: RepairReport)
    ensures
        r.nonmanifold_faces_removed == 0 && r.components_dropped == 0 <==> destructive_line(r).len()
            == 0,
        destructive_line(r).len() > 0 ==> numbers_in(destructive_line(r)) == seq![
            r.nonmanifold_faces_removed as nat,
            r.components_dropped as nat,
        ],
{
    reveal_strlit("# destructive: cut ");
    reveal_strlit(" non-manifold face(s), dropped ");
    reveal_strlit(" debris component(s)\n");
    let s0 = "# destructive: cut "@;
    let s1 = s0 + decimal(r.nonmanifold_faces_removed as nat) + " non-manifold face(s), dropped "@;
    lemma_numbers_start(s0);
    lemma_numbers_next(
        s0,
        r.nonmanifold_faces_removed as nat,
        " non-manifold face(s), dropped "@,
    );
    lemma_numbers_next(s1, r.components_dropped as nat, " debris component(s)\n"@);
}

proof fn lemma_filling_numbers(r: RepairReport)
    ensures
        numbers_in(filling_line(r)) == seq![
            r.holes_filled as nat,
            r.cap_faces_added as nat,
            r.shells_flipped as nat,
        ],
{
    reveal_strlit("# filled ");
    reveal_strlit(" hole(s) (+");
    reveal_strlit(" faces), flipped ");
    reveal_strlit(" shell(s)\n");
    let s0 = "# filled "@;
    let s1 = s0 + decimal(r.holes_filled as nat) + " hole(s) (+"@;
    let s2 = s1 + decimal(r.cap_faces_added as nat) + " faces), flipped "@;
    lemma_numbers_start(s0);
    lemma_numbers_next(s0, r.holes_filled as nat, " hole(s) (+"@);
    lemma_numbers_next(s1, r.cap_faces_added as nat, " faces), flipped "@);
    lemma_numbers_next(s2, r.shells_flipped as nat, " shell(s)\n"@);
}

proof fn lemma_result_numbers(r: RepairReport)
    ensures
        numbers_in(result_line(r)) == seq![
            r.open_edges_left as nat,
            r.nonmanifold_edges_left as nat,
        ],
{
    reveal_strlit("# result: closed=");
    reveal_strlit("true");
    reveal_strlit("false");
    reveal_strlit(", ");
    reveal_strlit(" open edge(s), ");
    reveal_strlit(" non-manifold edge(s)\n");
    let f = flag(r.closed);
    let s0 = "# result: closed="@ + f + ", "@;
    let s1 = s0 + decimal(r.open_edges_left as nat) + " open edge(s), "@;
    lemma_numbers_start("# result: closed="@);
    lemma_numbers_words("# result: closed="@, f);
    lemma_numbers_words("# result: closed="@ + f, ", "@);
    lemma_numbers_next(s0, r.open_edges_left as nat, " open edge(s), "@);
    lemma_numbers_next(s1, r.nonmanifold_edges_left as nat, " non-manifold edge(s)\n"@);
}

/// The header says that the result is closed if and only if it is.
pub proof fn law_header_says_closed(r: RepairReport)
    ensures
        "# result: closed=true,"@.is_prefix_of(result_line(r)) <==> r.closed,
        "# result: closed=false,"@.is_prefix_of(result_line(r)) <==> !r.closed,
{
    reveal_strlit("# result: closed=");
    reveal_strlit("# result: closed=true,");
    reveal_strlit("# result: closed=false,");
    reveal_strlit("true");
    reveal_strlit("false");
    reveal_strlit(", ");
    let l = result_line(r);
    let yes = "# result: closed=true,"@;
    let no = "# result: closed=false,"@;
    if r.closed {
        assert(l.subrange(0, yes.len() as int) =~= yes);
        assert(l[17] == 't' && no[17] == 'f');
        assert(l.subrange(0, no.len() as int)[17] == l[17]);
    } else {
        assert(l.subrange(0, no.len() as int) =~= no);
        assert(l[17] == 'f' && yes[17] == 't');
        assert(l.subrange(0, yes.len() as int)[17] == l[17]);
    }
}

/// The file: who wrote it, the edits, the state of the result, and then the vertices and faces.
pub proof fn law_file_layout(
    version: Seq<char>,
    verts: Seq<[String; 3]>,
    faces: Seq<Face>,
    r: RepairReport,
)
    ensures
        obj_text(version, verts, faces, r) == tool_line(version) + cleanup_line(r)
            + destructive_line(r) + filling_line(r) + result_line(r) + "\n"@ + vertex_lines(verts)
            + face_lines(faces),
        "# repaired by "@.is_prefix_of(tool_line(version)),
        "# dropped "@.is_prefix_of(cleanup_line(r)),
        destructive_line(r).len() > 0 ==> "# destructive: cut "@.is_prefix_of(destructive_line(r)),
        "# filled "@.is_prefix_of(filling_line(r)),
{
    reveal_strlit("# repaired by ");
    reveal_strlit("# repaired by spectral3d-cli v");
    let t = tool_line(version);
    assert(t.subrange(0, 14) =~= "# repaired by "@);
    let c = cleanup_line(r);
    let p = "# dropped "@;
    assert(c.subrange(0, p.len() as int) =~= p);
    let d = destructive_line(r);
    let q = "# destructive: cut "@;
    if d.len() > 0 {
        assert(d.subrange(0, q.len() as int) =~= q);
    }
    let f = filling_line(r);
    let u = "# filled "@;
    assert(f.subrange(0, u.len() as int) =~= u);
}

/// Each vertex has a line of its own behind those before it: its letter and its three coordinates,
/// as they are given, with single spaces between them.
pub proof fn law_each_vertex_has_its_line(verts: Seq<[String; 3]>, v: [String; 3])
    ensures
        vertex_lines(Seq::empty()).len() == 0,
        vertex_lines(verts.push(v)) == vertex_lines(verts) + ("v "@ + v[0]@ + " "@ + v[1]@ + " "@
            + v[2]@ + "\n"@),
{
    assert(verts.push(v).drop_last() =~= verts);
}

/// Each face has a line of its own behind those before it: its letter and its three corners,
/// counted from one, with single spaces between them.
pub proof fn law_each_face_has_its_line(faces: Seq<Face>, f: Face)
    ensures
        face_lines(Seq::empty()).len() == 0,
        face_lines(faces.push(f)) == face_lines(faces) + ("f "@ + decimal((f[0] + 1) as nat) + " "@
            + decimal((f[1] + 1) as nat) + " "@ + decimal((f[2] + 1) as nat) + "\n"@),
{
    assert(faces.push(f).drop_last() =~= faces);
}

/// The last console line: nothing solid is left, or the result is closed, or how much is open and
/// overloaded; each exactly where it holds.
pub proof fn law_outcome_tells_the_three_cases_apart(r: RepairReport, faces: nat)
    ensures
        "nothing solid survived"@.is_prefix_of(outcome(r, faces)) <==> faces == 0,
        "result is now a closed manifold"@ == outcome(r, faces) <==> faces > 0 && r.closed,
        "still not closed: "@.is_prefix_of(outcome(r, faces)) <==> faces > 0 && !r.closed,
        faces > 0 && !r.closed ==> numbers_in(outcome(r, faces)) == seq![
            r.open_edges_left as nat,
            r.nonmanifold_edges_left as nat,
        ],
{
    reveal_strlit("nothing solid survived");
    reveal_strlit(
        "nothing solid survived: the input has no closed-solid geometry (e.g. flat cards)",
    );
    reveal_strlit("result is now a closed manifold");
    reveal_strlit("still not closed: ");
    reveal_strlit(" open edge(s), ");
    reveal_strlit(" non-manifold edge(s) left");
    let o = outcome(r, faces);
    let a = "nothing solid survived"@;
    let b = "result is now a closed manifold"@;
    let c = "still not closed: "@;
    assert(a[0] == 'n' && b[0] == 'r' && c[0] == 's');
    if faces == 0 {
        assert(o.subrange(0, a.len() as int) =~= a);
        assert(o[0] == 'n');
        assert(o.subrange(0, c.len() as int)[0] == o[0]);
    } else if r.closed {
        assert(o.subrange(0, a.len() as int)[0] == o[0]);
        assert(o.subrange(0, c.len() as int)[0] == o[0]);
    } else {
        let s1 = c + decimal(r.open_edges_left as nat) + " open edge(s), "@;
        lemma_numbers_start(c);
        lemma_numbers_next(c, r.open_edges_left as nat, " open edge(s), "@);
        lemma_numbers_next(s1, r.nonmanifold_edges_left as nat, " non-manifold edge(s) left"@);
        assert(o.subrange(0, c.len() as int) =~= c);
        assert(o[0] == 's');
        assert(o.subrange(0, a.len() as int)[0] == o[0]);
    }
}

} // verus!
