//! What is written and printed: the repaired OBJ file, the summary lines and the file names.
use crate::mesh::{in_range, Face};
use crate::pipeline::RepairReport;
use crate::text::{chars_of, decimal, push_decimal, spells, trim_bounds, trimmed};
use vstd::prelude::*;
use vstd::string::StringExecFns;

verus! {

/// A count within a text.
fn push_count(out: &mut String, n: usize)
    ensures
        final(out)@ == old(out)@ + decimal(n as nat),
{
    push_decimal(out, n as u64);
}

/// A text that begins with given words.
fn start(words: &str) -> (s: String)
    ensures
        s@ == words@,
{
    let mut s = String::new();
    s.append(words);
    assert(Seq::<char>::empty() + words@ =~= words@);
    s
}

/// The header line that names the tool.
pub open spec fn tool_line(version: Seq<char>) -> Seq<char> {
    "# repaired by spectral3d-cli v"@ + version + "\n"@
}

/// The header line on the edits that keep the shape.
pub open spec fn cleanup_line(r: RepairReport) -> Seq<char> {
    "# dropped "@ + decimal(r.degenerate_dropped as nat) + " degenerate face(s), welded "@
        + decimal(r.welded as nat) + " vertex/vertices, dropped "@ + decimal(
        r.duplicate_faces_dropped as nat,
    ) + " duplicate face(s)\n"@
}

/// The header line on the edits that take geometry away. It stands only where there were any.
pub open spec fn destructive_line(r: RepairReport) -> Seq<char> {
    if r.nonmanifold_faces_removed > 0 || r.components_dropped > 0 {
        "# destructive: cut "@ + decimal(r.nonmanifold_faces_removed as nat)
            + " non-manifold face(s), dropped "@ + decimal(r.components_dropped as nat)
            + " debris component(s)\n"@
    } else {
        Seq::empty()
    }
}

/// The header line on the edits that add geometry or turn it.
pub open spec fn filling_line(r: RepairReport) -> Seq<char> {
    "# filled "@ + decimal(r.holes_filled as nat) + " hole(s) (+"@ + decimal(
        r.cap_faces_added as nat,
    ) + " faces), flipped "@ + decimal(r.shells_flipped as nat) + " shell(s)\n"@
}

/// `true` or `false`.
pub open spec fn flag(b: bool) -> Seq<char> {
    if b {
        "true"@
    } else {
        "false"@
    }
}

/// The header line on the state of the result.
pub open spec fn result_line(r: RepairReport) -> Seq<char> {
    "# result: closed="@ + flag(r.closed) + ", "@ + decimal(r.open_edges_left as nat)
        + " open edge(s), "@ + decimal(r.nonmanifold_edges_left as nat)
        + " non-manifold edge(s)\n"@
}

/// All that stands above the geometry.
pub open spec fn header(version: Seq<char>, r: RepairReport) -> Seq<char> {
    tool_line(version) + cleanup_line(r) + destructive_line(r) + filling_line(r) + result_line(r)
        + "\n"@
}

/// The line of a vertex whose coordinates are written as given.
pub open spec fn vertex_line(v: [String; 3]) -> Seq<char> {
    "v "@ + v[0]@ + " "@ + v[1]@ + " "@ + v[2]@ + "\n"@
}

/// The line of a face. Numbers in the file begin at one.
pub open spec fn face_line(f: Face) -> Seq<char> {
    "f "@ + decimal(f[0] as nat + 1) + " "@ + decimal(f[1] as nat + 1) + " "@ + decimal(
        f[2] as nat + 1,
    ) + "\n"@
}

/// The lines of the vertices, in order.
pub open spec fn vertex_lines(verts: Seq<[String; 3]>) -> Seq<char>
    decreases verts.len(),
{
    if verts.len() == 0 {
        Seq::empty()
    } else {
        vertex_lines(verts.drop_last()) + vertex_line(verts.last())
    }
}

/// The lines of the faces, in order.
pub open spec fn face_lines(faces: Seq<Face>) -> Seq<char>
    decreases faces.len(),
{
    if faces.len() == 0 {
        Seq::empty()
    } else {
        face_lines(faces.drop_last()) + face_line(faces.last())
    }
}

/// The whole OBJ file of a repaired mesh.
pub open spec fn obj_text(
    version: Seq<char>,
    verts: Seq<[String; 3]>,
    faces: Seq<Face>,
    r: RepairReport,
) -> Seq<char> {
    header(version, r) + vertex_lines(verts) + face_lines(faces)
}

fn write_header(version: &str, r: &RepairReport) -> (out: String)
    ensures
        out@ == header(version@, *r),
{
    let mut tool = start("# repaired by spectral3d-cli v");
    tool.append(version);
    tool.append("\n");

    let mut cleanup = start("# dropped ");
    push_count(&mut cleanup, r.degenerate_dropped);
    cleanup.append(" degenerate face(s), welded ");
    push_count(&mut cleanup, r.welded);
    cleanup.append(" vertex/vertices, dropped ");
    push_count(&mut cleanup, r.duplicate_faces_dropped);
    cleanup.append(" duplicate face(s)\n");

    let mut destructive = String::new();
    if r.nonmanifold_faces_removed > 0 || r.components_dropped > 0 {
        destructive = start("# destructive: cut ");
        push_count(&mut destructive, r.nonmanifold_faces_removed);
        destructive.append(" non-manifold face(s), dropped ");
        push_count(&mut destructive, r.components_dropped);
        destructive.append(" debris component(s)\n");
    }
    let mut filling = start("# filled ");
    push_count(&mut filling, r.holes_filled);
    filling.append(" hole(s) (+");
    push_count(&mut filling, r.cap_faces_added);
    filling.append(" faces), flipped ");
    push_count(&mut filling, r.shells_flipped);
    filling.append(" shell(s)\n");

    let mut result = start("# result: closed=");
    if r.closed {
        result.append("true");
    } else {
        result.append("false");
    }
    result.append(", ");
    push_count(&mut result, r.open_edges_left);
    result.append(" open edge(s), ");
    push_count(&mut result, r.nonmanifold_edges_left);
    result.append(" non-manifold edge(s)\n");

    let mut out = tool;
    out.append(cleanup.as_str());
    out.append(destructive.as_str());
    out.append(filling.as_str());
    out.append(result.as_str());
    out.append("\n");
    out
}

fn write_vertex(v: &[String; 3]) -> (s: String)
    ensures
        s@ == vertex_line(*v),
{
    let mut s = start("v ");
    s.append(v[0].as_str());
    s.append(" ");
    s.append(v[1].as_str());
    s.append(" ");
    s.append(v[2].as_str());
    s.append("\n");
    s
}

fn write_face(f: &Face) -> (s: String)
    ensures
        s@ == face_line(*f),
{
    let mut s = start("f ");
    push_decimal(&mut s, f[0] as u64 + 1);
    s.append(" ");
    push_decimal(&mut s, f[1] as u64 + 1);
    s.append(" ");
    push_decimal(&mut s, f[2] as u64 + 1);
    s.append("\n");
    s
}

/// Writes a repaired mesh as an OBJ file: a header of comments that reports every edit, then the
/// vertices, whose coordinates are given as text, then the faces.
pub fn to_obj(version: &str, verts: &[[String; 3]], faces: &[Face], r: &RepairReport) -> (out:
    String)
    requires
        in_range(faces@, u32::MAX as int),
    ensures
        out@ == obj_text(version@, verts@, faces@, *r),
        ({
            let tool = "# repaired by spectral3d-cli v"@ + version@ + "\n"@;
            let cleanup = "# dropped "@ + decimal(r.degenerate_dropped as nat)
                + " degenerate face(s), welded "@ + decimal(r.welded as nat)
                + " vertex/vertices, dropped "@ + decimal(r.duplicate_faces_dropped as nat)
                + " duplicate face(s)\n"@;
            let destructive = if r.nonmanifold_faces_removed > 0 || r.components_dropped > 0 {
                "# destructive: cut "@ + decimal(r.nonmanifold_faces_removed as nat)
                    + " non-manifold face(s), dropped "@ + decimal(r.components_dropped as nat)
                    + " debris component(s)\n"@
            } else {
                Seq::empty()
            };
            let filling = "# filled "@ + decimal(r.holes_filled as nat) + " hole(s) (+"@ + decimal(
                r.cap_faces_added as nat,
            ) + " faces), flipped "@ + decimal(r.shells_flipped as nat) + " shell(s)\n"@;
            let closed = if r.closed {
                "true"@
            } else {
                "false"@
            };
            let result = "# result: closed="@ + closed + ", "@ + decimal(r.open_edges_left as nat)
                + " open edge(s), "@ + decimal(r.nonmanifold_edges_left as nat)
                + " non-manifold edge(s)\n"@;
            out@ == tool + cleanup + destructive + filling + result + "\n"@ + vertex_lines(verts@)
                + face_lines(faces@)
        }),
{
    let mut out = write_header(version, r);
    let ghost head = out@;
    let mut i: usize = 0;
    assert(head + vertex_lines(verts@.take(0)) =~= head);
    while i < verts.len()
        invariant
            i <= verts@.len(),
            out@ == head + vertex_lines(verts@.take(i as int)),
        decreases verts@.len() - i,
    {
        let line = write_vertex(&verts[i]);
        out.append(line.as_str());
        proof {
            let next = verts@.take(i + 1);
            assert(next.drop_last() =~= verts@.take(i as int));
            assert(out@ =~= head + vertex_lines(next));
        }
        i += 1;
    }
    assert(verts@.take(i as int) =~= verts@);
    let ghost head = out@;
    let mut j: usize = 0;
    assert(head + face_lines(faces@.take(0)) =~= head);
    while j < faces.len()
        invariant
            j <= faces@.len(),
            out@ == head + face_lines(faces@.take(j as int)),
        decreases faces@.len() - j,
    {
        let line = write_face(&faces[j]);
        out.append(line.as_str());
        proof {
            let next = faces@.take(j + 1);
            assert(next.drop_last() =~= faces@.take(j as int));
            assert(out@ =~= head + face_lines(next));
        }
        j += 1;
    }
    assert(faces@.take(j as int) =~= faces@);
    out
}

/// The console line that counts the edits.
pub open spec fn edits(r: RepairReport) -> Seq<char> {
    "dropped "@ + decimal(r.degenerate_dropped as nat) + " degenerate, welded "@ + decimal(
        r.welded as nat,
    ) + ", dropped "@ + decimal(r.duplicate_faces_dropped as nat) + " dup faces; cut "@ + decimal(
        r.nonmanifold_faces_removed as nat,
    ) + " non-manifold, dropped "@ + decimal(r.components_dropped as nat) + " debris; filled "@
        + decimal(r.holes_filled as nat) + " holes (+"@ + decimal(r.cap_faces_added as nat)
        + "), flipped "@ + decimal(r.shells_flipped as nat) + " shell(s)"@
}

/// The console line that says how the repair ended.
pub open spec fn outcome(r: RepairReport, faces: nat) -> Seq<char> {
    if faces == 0 {
        "nothing solid survived: the input has no closed-solid geometry (e.g. flat cards)"@
    } else if r.closed {
        "result is now a closed manifold"@
    } else {
        "still not closed: "@ + decimal(r.open_edges_left as nat) + " open edge(s), "@ + decimal(
            r.nonmanifold_edges_left as nat,
        ) + " non-manifold edge(s) left"@
    }
}

/// Counts the edits for the console.
pub fn edits_line(r: &RepairReport) -> (s: String)
    ensures
        s@ == edits(*r),
        s@ == "dropped "@ + decimal(r.degenerate_dropped as nat) + " degenerate, welded "@
            + decimal(r.welded as nat) + ", dropped "@ + decimal(r.duplicate_faces_dropped as nat)
            + " dup faces; cut "@ + decimal(r.nonmanifold_faces_removed as nat)
            + " non-manifold, dropped "@ + decimal(r.components_dropped as nat)
            + " debris; filled "@ + decimal(r.holes_filled as nat) + " holes (+"@ + decimal(
            r.cap_faces_added as nat,
        ) + "), flipped "@ + decimal(r.shells_flipped as nat) + " shell(s)"@,
{
    let mut s = start("dropped ");
    push_count(&mut s, r.degenerate_dropped);
    s.append(" degenerate, welded ");
    push_count(&mut s, r.welded);
    s.append(", dropped ");
    push_count(&mut s, r.duplicate_faces_dropped);
    s.append(" dup faces; cut ");
    push_count(&mut s, r.nonmanifold_faces_removed);
    s.append(" non-manifold, dropped ");
    push_count(&mut s, r.components_dropped);
    s.append(" debris; filled ");
    push_count(&mut s, r.holes_filled);
    s.append(" holes (+");
    push_count(&mut s, r.cap_faces_added);
    s.append("), flipped ");
    push_count(&mut s, r.shells_flipped);
    s.append(" shell(s)");
    s
}

/// Says for the console how a repair that left `faces` faces ended.
pub fn outcome_line(r: &RepairReport, faces: usize) -> (s: String)
    ensures
        s@ == outcome(*r, faces as nat),
        faces == 0 ==> s@
            == "nothing solid survived: the input has no closed-solid geometry (e.g. flat cards)"@,
        faces > 0 && r.closed ==> s@ == "result is now a closed manifold"@,
        faces > 0 && !r.closed ==> s@ == "still not closed: "@ + decimal(r.open_edges_left as nat)
            + " open edge(s), "@ + decimal(r.nonmanifold_edges_left as nat)
            + " non-manifold edge(s) left"@,
{
    if faces == 0 {
        return start(
            "nothing solid survived: the input has no closed-solid geometry (e.g. flat cards)",
        );
    }
    if r.closed {
        return start("result is now a closed manifold");
    }
    let mut s = start("still not closed: ");
    push_count(&mut s, r.open_edges_left);
    s.append(" open edge(s), ");
    push_count(&mut s, r.nonmanifold_edges_left);
    s.append(" non-manifold edge(s) left");
    s
}

/// The name of the file that a repair writes.
pub fn repair_name(stem: &str) -> (s: String)
    ensures
        s@ == stem@ + "-repair.obj"@,
{
    let mut s = start(stem);
    s.append("-repair.obj");
    s
}

/// The name of the file that a registration writes.
pub fn register_name(stem: &str) -> (s: String)
    ensures
        s@ == stem@ + "-register.json"@,
{
    let mut s = start(stem);
    s.append("-register.json");
    s
}

/// What to do about the file that is to be written.
#[derive(Clone, Copy, Debug, PartialEq, Eq)]
pub enum Overwrite {
    /// Nothing stands there: write.
    Write,
    /// A file stands there and somebody can be asked.
    Ask,
    /// A file stands there and nobody can be asked.
    Refuse,
}

/// Decides about the file that is to be written. What stands there is never lost unasked.
pub fn overwrite_plan(exists: bool, terminal: bool) -> (plan: Overwrite)
    ensures
        plan == (if !exists {
            Overwrite::Write
        } else if terminal {
            Overwrite::Ask
        } else {
            Overwrite::Refuse
        }),
{
    if !exists {
        Overwrite::Write
    } else if terminal {
        Overwrite::Ask
    } else {
        Overwrite::Refuse
    }
}

/// The answers that allow a file to be overwritten.
pub open spec fn agrees(answer: Seq<char>) -> bool {
    let word = trimmed(answer);
    word == "y"@ || word == "Y"@ || word == "yes"@ || word == "Yes"@
}

/// Whether an answer, up to the white space around it, allows a file to be overwritten.
pub fn is_yes(answer: &str) -> (r: bool)
    ensures
        r == agrees(answer@),
{
    let chars = chars_of(answer);
    let (lo, hi) = trim_bounds(&chars);
    spells(&chars, lo, hi, "y") || spells(&chars, lo, hi, "Y") || spells(&chars, lo, hi, "yes")
        || spells(&chars, lo, hi, "Yes")
}

} // verus!
