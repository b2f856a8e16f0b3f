//! Reading Wavefront OBJ text. `v` lines become vertices, `f` lines are cut into triangles, and
//! everything else is ignored.
use crate::mesh::{in_range, Face};
use crate::number::{integer, is_float, parse_integer, reads_as_float};
use crate::text::{chars_of, decimal, is_white, push_decimal, push_signed, signed, spells, text_of, white};
use crate::trusted::{decode_lossy, lossy_text};
use vstd::prelude::*;
use vstd::string::StringExecFns;
use vstd::utf8::{decode_utf8, valid_utf8};

verus! {

/// A triangle mesh as the file gives it. Coordinates stay as they are written.
#[derive(Debug, PartialEq, Eq)]
pub struct ObjMesh {
    pub vertices: Vec<[String; 3]>,
    pub faces: Vec<Face>,
}

/// Why a text is no mesh. Lines are counted from one.
#[derive(Debug, PartialEq, Eq)]
pub enum ObjError {
    VertexNeedsCoords { line: usize },
    BadFloat { line: usize, token: String },
    BadIndex { line: usize, token: String },
    ZeroIndex { line: usize },
    OutOfRange { line: usize, index: i64 },
    FaceNeedsVertices { line: usize },
    NoGeometry,
}

/// The three coordinates of a vertex, as text.
pub type Coords = (Seq<char>, Seq<char>, Seq<char>);

/// What a mesh in a file amounts to.
#[verifier::ext_equal]
pub struct ObjModel {
    pub vertices: Seq<Coords>,
    pub faces: Seq<Face>,
}

/// What an error amounts to.
pub enum ObjFault {
    VertexNeedsCoords { line: int },
    BadFloat { line: int, token: Seq<char> },
    BadIndex { line: int, token: Seq<char> },
    ZeroIndex { line: int },
    OutOfRange { line: int, index: int },
    FaceNeedsVertices { line: int },
    NoGeometry,
}

/// The coordinates of a vertex as they are written.
pub open spec fn coords(v: [String; 3]) -> Coords {
    (v[0]@, v[1]@, v[2]@)
}

/// The coordinates of vertices as they are written.
pub open spec fn all_coords(vs: Seq<[String; 3]>) -> Seq<Coords> {
    Seq::new(vs.len(), |i: int| coords(vs[i]))
}

impl View for ObjMesh {
    type V = ObjModel;

    open spec fn view(&self) -> ObjModel {
        ObjModel { vertices: all_coords(self.vertices@), faces: self.faces@ }
    }
}

impl View for ObjError {
    type V = ObjFault;

    open spec fn view(&self) -> ObjFault {
        match *self {
            ObjError::VertexNeedsCoords { line } => ObjFault::VertexNeedsCoords {
                line: line as int,
            },
            ObjError::BadFloat { line, token } => ObjFault::BadFloat {
                line: line as int,
                token: token@,
            },
            ObjError::BadIndex { line, token } => ObjFault::BadIndex {
                line: line as int,
                token: token@,
            },
            ObjError::ZeroIndex { line } => ObjFault::ZeroIndex { line: line as int },
            ObjError::OutOfRange { line, index } => ObjFault::OutOfRange {
                line: line as int,
                index: index as int,
            },
            ObjError::FaceNeedsVertices { line } => ObjFault::FaceNeedsVertices {
                line: line as int,
            },
            ObjError::NoGeometry => ObjFault::NoGeometry,
        }
    }
}

/// How a fault is put into words.
pub open spec fn fault_text(fault: ObjFault) -> Seq<char> {
    match fault {
        ObjFault::VertexNeedsCoords { line } => line_start(line) + "vertex needs 3 coords"@,
        ObjFault::BadFloat { line, token } => line_start(line) + "bad float '"@ + token + "'"@,
        ObjFault::BadIndex { line, token } => line_start(line) + "bad index '"@ + token + "'"@,
        ObjFault::ZeroIndex { line } => line_start(line) + "zero index"@,
        ObjFault::OutOfRange { line, index } => line_start(line) + "index "@ + signed(index)
            + " out of range"@,
        ObjFault::FaceNeedsVertices { line } => line_start(line) + "face needs >= 3 vertices"@,
        ObjFault::NoGeometry => "no geometry"@,
    }
}

/// How a message on a line begins.
pub open spec fn line_start(line: int) -> Seq<char> {
    "line "@ + decimal(line as nat) + ": "@
}

fn start_line(line: usize) -> (s: String)
    ensures
        s@ == line_start(line as int),
{
    let mut s = String::new();
    s.append("line ");
    push_decimal(&mut s, line as u64);
    s.append(": ");
    assert(Seq::<char>::empty() + "line "@ =~= "line "@);
    s
}

impl ObjError {
    /// Puts the error into words.
    pub fn message(&self) -> (s: String)
        ensures
            s@ == fault_text(self@),
            match *self {
                ObjError::VertexNeedsCoords { line } => s@ == "line "@ + decimal(line as nat)
                    + ": "@ + "vertex needs 3 coords"@,
                ObjError::BadFloat { line, token } => s@ == "line "@ + decimal(line as nat) + ": "@
                    + "bad float '"@ + token@ + "'"@,
                ObjError::BadIndex { line, token } => s@ == "line "@ + decimal(line as nat) + ": "@
                    + "bad index '"@ + token@ + "'"@,
                ObjError::ZeroIndex { line } => s@ == "line "@ + decimal(line as nat) + ": "@
                    + "zero index"@,
                ObjError::OutOfRange { line, index } => s@ == "line "@ + decimal(line as nat)
                    + ": "@ + "index "@ + signed(index as int) + " out of range"@,
                ObjError::FaceNeedsVertices { line } => s@ == "line "@ + decimal(line as nat)
                    + ": "@ + "face needs >= 3 vertices"@,
                ObjError::NoGeometry => s@ == "no geometry"@,
            },
    {
        match self {
            ObjError::VertexNeedsCoords { line } => {
                let mut s = start_line(*line);
                s.append("vertex needs 3 coords");
                s
            },
            ObjError::BadFloat { line, token } => {
                let mut s = start_line(*line);
                s.append("bad float '");
                s.append(token.as_str());
                s.append("'");
                s
            },
            ObjError::BadIndex { line, token } => {
                let mut s = start_line(*line);
                s.append("bad index '");
                s.append(token.as_str());
                s.append("'");
                s
            },
            ObjError::ZeroIndex { line } => {
                let mut s = start_line(*line);
                s.append("zero index");
                s
            },
            ObjError::OutOfRange { line, index } => {
                let mut s = start_line(*line);
                s.append("index ");
                push_signed(&mut s, *index);
                s.append(" out of range");
                s
            },
            ObjError::FaceNeedsVertices { line } => {
                let mut s = start_line(*line);
                s.append("face needs >= 3 vertices");
                s
            },
            ObjError::NoGeometry => {
                let mut s = String::new();
                s.append("no geometry");
                assert(Seq::<char>::empty() + "no geometry"@ =~= "no geometry"@);
                s
            },
        }
    }
}

/// The lines of a text. A line ends before a line feed or at the end of the text.
pub open spec fn lines(text: Seq<char>) -> Seq<Seq<char>>
    decreases text.len(),
{
    if text.len() == 0 {
        seq![Seq::empty()]
    } else {
        let before = lines(text.drop_last());
        if text.last() == '\n' {
            before.push(Seq::empty())
        } else {
            before.drop_last().push(before.last().push(text.last()))
        }
    }
}

/// The words of a line: its longest stretches without white space.
pub open spec fn words(line: Seq<char>) -> Seq<Seq<char>>
    decreases line.len(),
{
    if line.len() == 0 {
        Seq::empty()
    } else {
        let before = words(line.drop_last());
        if white(line.last()) {
            before
        } else if line.len() == 1 || white(line[line.len() - 2]) {
            before.push(seq![line.last()])
        } else {
            before.drop_last().push(before.last().push(line.last()))
        }
    }
}

/// The first thing wrong with the coordinates that stand behind a `v`.
pub open spec fn coord_fault(words: Seq<Seq<char>>, k: int, line: int) -> Option<ObjFault>
    decreases 4 - k,
{
    if k > 3 {
        None
    } else if words.len() <= k {
        Some(ObjFault::VertexNeedsCoords { line })
    } else if !is_float(words[k]) {
        Some(ObjFault::BadFloat { line, token: words[k] })
    } else {
        coord_fault(words, k + 1, line)
    }
}

/// What stands before the first slash.
pub open spec fn before_slash(word: Seq<char>) -> Seq<char>
    decreases word.len(),
{
    if word.contains('/') {
        before_slash(word.drop_last())
    } else {
        word
    }
}

/// The vertex that a corner names, when `count` vertices were read: numbers from one on count
/// from the first vertex, numbers below zero count back from the last.
pub open spec fn corner(word: Seq<char>, count: nat, line: int) -> Result<u32, ObjFault> {
    match integer(before_slash(word)) {
        None => Err(ObjFault::BadIndex { line, token: word }),
        Some(i) => {
            let place = if i > 0 {
                i - 1
            } else {
                count + i
            };
            if i == 0 {
                Err(ObjFault::ZeroIndex { line })
            } else if place < 0 || place >= count {
                Err(ObjFault::OutOfRange { line, index: i })
            } else {
                Ok(place as u32)
            }
        },
    }
}

/// The vertices that corners name, or the first fault among them.
pub open spec fn polygon(words: Seq<Seq<char>>, count: nat, line: int) -> Result<
    Seq<u32>,
    ObjFault,
>
    decreases words.len(),
{
    if words.len() == 0 {
        Ok(Seq::empty())
    } else {
        match polygon(words.drop_last(), count, line) {
            Err(e) => Err(e),
            Ok(before) => match corner(words.last(), count, line) {
                Err(e) => Err(e),
                Ok(v) => Ok(before.push(v)),
            },
        }
    }
}

/// A polygon cut into triangles around its first corner.
pub open spec fn triangles(corners: Seq<u32>) -> Seq<Face> {
    Seq::new((corners.len() - 2) as nat, |k: int| [corners[0], corners[k + 1], corners[k + 2]])
}

/// The mesh after one more line.
pub open spec fn with_line(mesh: ObjModel, line: Seq<char>, number: int) -> Result<
    ObjModel,
    ObjFault,
> {
    with_words(mesh, words(line), number)
}

/// The mesh after a line of these words.
pub open spec fn with_words(mesh: ObjModel, ws: Seq<Seq<char>>, number: int) -> Result<
    ObjModel,
    ObjFault,
> {
    if ws.len() > 0 && ws[0] == "v"@ {
        match coord_fault(ws, 1, number) {
            Some(e) => Err(e),
            None => Ok(
                ObjModel { vertices: mesh.vertices.push((ws[1], ws[2], ws[3])), faces: mesh.faces },
            ),
        }
    } else if ws.len() > 0 && ws[0] == "f"@ {
        match polygon(ws.skip(1), mesh.vertices.len(), number) {
            Err(e) => Err(e),
            Ok(corners) => if corners.len() < 3 {
                Err(ObjFault::FaceNeedsVertices { line: number })
            } else {
                Ok(ObjModel { vertices: mesh.vertices, faces: mesh.faces + triangles(corners) })
            },
        }
    } else {
        Ok(mesh)
    }
}

/// The mesh after some lines, or the first fault in them.
pub open spec fn after_lines(ls: Seq<Seq<char>>) -> Result<ObjModel, ObjFault>
    decreases ls.len(),
{
    if ls.len() == 0 {
        Ok(ObjModel { vertices: Seq::empty(), faces: Seq::empty() })
    } else {
        match after_lines(ls.drop_last()) {
            Err(e) => Err(e),
            Ok(mesh) => with_line(mesh, ls.last(), ls.len() as int),
        }
    }
}

/// The mesh that a text holds, or why it holds none.
pub open spec fn parsed(text: Seq<char>) -> Result<ObjModel, ObjFault> {
    match after_lines(lines(text)) {
        Err(e) => Err(e),
        Ok(mesh) => if mesh.vertices.len() == 0 || mesh.faces.len() == 0 {
            Err(ObjFault::NoGeometry)
        } else {
            Ok(mesh)
        },
    }
}

/// A result by the views of what it holds.
pub open spec fn result_view(r: Result<ObjMesh, ObjError>) -> Result<ObjModel, ObjFault> {
    match r {
        Ok(mesh) => Ok(mesh@),
        Err(e) => Err(e@),
    }
}

/// The views of words.
pub open spec fn spelled(ws: Seq<Vec<char>>) -> Seq<Seq<char>> {
    Seq::new(ws.len(), |i: int| ws[i]@)
}

/// Cuts a line into its words.
fn split_words(chars: &[char], from: usize, to: usize) -> (ws: Vec<Vec<char>>)
    requires
        from <= to <= chars@.len(),
    ensures
        spelled(ws@) == words(chars@.subrange(from as int, to as int)),
{
    let mut ws: Vec<Vec<char>> = Vec::new();
    let mut word: Vec<char> = Vec::new();
    let mut i: usize = from;
    assert(spelled(ws@) =~= words(chars@.subrange(from as int, from as int)));
    while i < to
        invariant
            from <= i <= to <= chars@.len(),
            word@.len() > 0 <==> i > from && !white(chars@[i - 1]),
            word@.len() == 0 ==> spelled(ws@) == words(chars@.subrange(from as int, i as int)),
            word@.len() > 0 ==> spelled(ws@).push(word@) == words(
                chars@.subrange(from as int, i as int),
            ),
        decreases to - i,
    {
        let c = chars[i];
        let ghost line = chars@.subrange(from as int, i + 1);
        let ghost before = spelled(ws@);
        let ghost part = word@;
        assert(line.drop_last() =~= chars@.subrange(from as int, i as int));
        assert(line.last() == c);
        assert(i > from ==> line[line.len() - 2] == chars@[i - 1]);
        if is_white(c) {
            if word.len() > 0 {
                ws.push(word);
                assert(spelled(ws@) =~= before.push(part));
                word = Vec::new();
            }
        } else {
            word.push(c);
            proof {
                if part.len() > 0 {
                    assert(before.push(part).drop_last() =~= before);
                    assert(before.push(part).last() == part);
                } else {
                    assert(word@ =~= seq![c]);
                }
            }
        }
        i += 1;
    }
    if word.len() > 0 {
        let ghost before = spelled(ws@);
        let ghost part = word@;
        ws.push(word);
        assert(spelled(ws@) =~= before.push(part));
    }
    ws
}

/// Reads the line of a vertex.
fn read_vertex(ws: &Vec<Vec<char>>, line: usize) -> (r: Result<[String; 3], ObjError>)
    ensures
        match r {
            Ok(v) => ws@.len() > 3 && coord_fault(spelled(ws@), 1, line as int) is None && coords(v)
                == (ws@[1]@, ws@[2]@, ws@[3]@),
            Err(e) => coord_fault(spelled(ws@), 1, line as int) == Some(e@),
        },
{
    let mut k: usize = 1;
    while k <= 3
        invariant
            1 <= k <= 4,
            k == 4 ==> ws@.len() > 3,
            coord_fault(spelled(ws@), k as int, line as int) == coord_fault(
                spelled(ws@),
                1,
                line as int,
            ),
        decreases 4 - k,
    {
        if ws.len() <= k {
            return Err(ObjError::VertexNeedsCoords { line });
        }
        assert(spelled(ws@)[k as int] == ws@[k as int]@);
        if !reads_as_float(&ws[k]) {
            let token = text_of(&ws[k], 0, ws[k].len());
            assert(token@ =~= ws@[k as int]@);
            return Err(ObjError::BadFloat { line, token });
        }
        k += 1;
    }
    let x = text_of(&ws[1], 0, ws[1].len());
    let y = text_of(&ws[2], 0, ws[2].len());
    let z = text_of(&ws[3], 0, ws[3].len());
    assert(x@ =~= ws@[1]@ && y@ =~= ws@[2]@ && z@ =~= ws@[3]@);
    Ok([x, y, z])
}

/// What stands before the first slash, where that stands at `k` or nowhere.
pub proof fn lemma_before_slash(word: Seq<char>, k: int)
    requires
        0 <= k <= word.len(),
        forall|j: int| 0 <= j < k ==> word[j] != '/',
        k < word.len() ==> word[k] == '/',
    ensures
        before_slash(word) == word.take(k),
    decreases word.len(),
{
    if k < word.len() {
        assert(word.contains(word[k]));
        let shorter = word.drop_last();
        assert(shorter.take(k) =~= word.take(k));
        lemma_before_slash(shorter, k);
    } else {
        assert(word.take(k) =~= word);
    }
}

/// Reads one corner of a face.
fn read_corner(word: &Vec<char>, count: usize, line: usize) -> (r: Result<u32, ObjError>)
    ensures
        match r {
            Ok(v) => corner(word@, count as nat, line as int) == Ok::<u32, ObjFault>(v),
            Err(e) => corner(word@, count as nat, line as int) == Err::<u32, ObjFault>(e@),
        },
{
    let mut k: usize = 0;
    while k < word.len() && word[k] != '/'
        invariant
            k <= word@.len(),
            forall|j: int| 0 <= j < k ==> word@[j] != '/',
        decreases word@.len() - k,
    {
        k += 1;
    }
    proof {
        lemma_before_slash(word@, k as int);
    }
    let number = vstd::slice::slice_subrange(word, 0, k);
    assert(number@ =~= word@.take(k as int));
    match parse_integer(number) {
        None => {
            let token = text_of(word, 0, word.len());
            assert(token@ =~= word@);
            Err(ObjError::BadIndex { line, token })
        },
        Some(i) => {
            if i == 0 {
                return Err(ObjError::ZeroIndex { line });
            }
            let place: i128 = if i > 0 {
                i as i128 - 1
            } else {
                count as i128 + i as i128
            };
            if place < 0 || place >= count as i128 {
                return Err(ObjError::OutOfRange { line, index: i });
            }
            Ok(
                #[verifier::truncate]
                (place as u32),
            )
        },
    }
}

/// Reads the corners of a face.
fn read_polygon(ws: &Vec<Vec<char>>, count: usize, line: usize) -> (r: Result<Vec<u32>, ObjError>)
    requires
        ws@.len() > 0,
    ensures
        match r {
            Ok(corners) => polygon(spelled(ws@).skip(1), count as nat, line as int) == Ok::<
                Seq<u32>,
                ObjFault,
            >(corners@),
            Err(e) => polygon(spelled(ws@).skip(1), count as nat, line as int) == Err::<
                Seq<u32>,
                ObjFault,
            >(e@),
        },
{
    let ghost tokens = spelled(ws@).skip(1);
    let mut corners: Vec<u32> = Vec::new();
    let mut k: usize = 1;
    assert(tokens.take(0) =~= Seq::empty());
    while k < ws.len()
        invariant
            1 <= k <= ws@.len(),
            tokens == spelled(ws@).skip(1),
            polygon(tokens.take(k - 1), count as nat, line as int) == Ok::<Seq<u32>, ObjFault>(
                corners@,
            ),
        decreases ws@.len() - k,
    {
        let ghost next = tokens.take(k as int);
        assert(next.drop_last() =~= tokens.take(k - 1));
        assert(next.last() == ws@[k as int]@);
        match read_corner(&ws[k], count, line) {
            Ok(v) => {
                corners.push(v);
            },
            Err(e) => {
                proof {
                    lemma_polygon_fault(tokens, k as int, count as nat, line as int);
                }
                return Err(e);
            },
        }
        k += 1;
    }
    assert(tokens.take(k - 1) =~= tokens);
    Ok(corners)
}

/// A fault among the first corners is the fault of all of them.
proof fn lemma_polygon_fault(tokens: Seq<Seq<char>>, k: int, count: nat, line: int)
    requires
        0 <= k <= tokens.len(),
        polygon(tokens.take(k), count, line) is Err,
    ensures
        polygon(tokens, count, line) == polygon(tokens.take(k), count, line),
    decreases tokens.len(),
{
    if k < tokens.len() {
        assert(tokens.drop_last().take(k) =~= tokens.take(k));
        lemma_polygon_fault(tokens.drop_last(), k, count, line);
    } else {
        assert(tokens.take(k) =~= tokens);
    }
}

/// Reads one line into the mesh.
fn read_line(mesh: &mut ObjMesh, chars: &[char], from: usize, to: usize, line: usize) -> (r: Result<
    (),
    ObjError,
>)
    requires
        from <= to <= chars@.len(),
    ensures
        match r {
            Ok(_) => with_line(
                old(mesh)@,
                chars@.subrange(from as int, to as int),
                line as int,
            ) == Ok::<ObjModel, ObjFault>(final(mesh)@),
            Err(e) => with_line(
                old(mesh)@,
                chars@.subrange(from as int, to as int),
                line as int,
            ) == Err::<ObjModel, ObjFault>(e@),
        },
{
    let ws = split_words(chars, from, to);
    let ghost before = mesh@;
    if ws.len() == 0 {
        return Ok(());
    }
    assert(spelled(ws@)[0] == ws@[0]@);
    assert(ws@[0]@.subrange(0, ws@[0]@.len() as int) =~= ws@[0]@);
    if spells(&ws[0], 0, ws[0].len(), "v") {
        match read_vertex(&ws, line) {
            Err(e) => {
                return Err(e);
            },
            Ok(v) => {
                mesh.vertices.push(v);
                assert(mesh@.vertices =~= before.vertices.push(coords(v)));
            },
        }
    } else if spells(&ws[0], 0, ws[0].len(), "f") {
        match read_polygon(&ws, mesh.vertices.len(), line) {
            Err(e) => {
                return Err(e);
            },
            Ok(corners) => {
                if corners.len() < 3 {
                    return Err(ObjError::FaceNeedsVertices { line });
                }
                let mut k: usize = 1;
                while k < corners.len() - 1
                    invariant
                        3 <= corners@.len(),
                        1 <= k < corners@.len(),
                        all_coords(mesh.vertices@) == before.vertices,
                        mesh.faces@ == before.faces + triangles(corners@).take(k - 1),
                    decreases corners@.len() - k,
                {
                    mesh.faces.push([corners[0], corners[k], corners[k + 1]]);
                    assert(triangles(corners@).take(k as int) =~= triangles(corners@).take(
                        k - 1,
                    ).push(triangles(corners@)[k - 1]));
                    assert(mesh.faces@.last() =~= triangles(corners@)[k - 1]);
                    assert(mesh.faces@ =~= before.faces + triangles(corners@).take(k as int));
                    k += 1;
                }
                assert(triangles(corners@).take(k - 1) =~= triangles(corners@));
            },
        }
    }
    Ok(())
}

/// What follows does not change the lines that are complete.
pub proof fn lemma_lines_grow(text: Seq<char>, i: int)
    requires
        0 <= i <= text.len(),
    ensures
        1 <= lines(text.take(i)).len() <= lines(text).len(),
        lines(text).take(lines(text.take(i)).len() - 1) == lines(text.take(i)).drop_last(),
    decreases text.len(),
{
    let part = lines(text.take(i));
    if i < text.len() {
        let shorter = text.drop_last();
        assert(shorter.take(i) =~= text.take(i));
        lemma_lines_grow(shorter, i);
        assert(lines(text).take(part.len() - 1) =~= lines(shorter).take(part.len() - 1));
    } else {
        assert(text.take(i) =~= text);
        if text.len() > 0 {
            assert(text.drop_last().take(text.len() - 1) =~= text.drop_last());
            lemma_lines_grow(text.drop_last(), text.len() - 1);
        }
        assert(part.take(part.len() - 1) =~= part.drop_last());
    }
}

/// A fault in the first lines is the fault of all of them.
proof fn lemma_lines_fault(ls: Seq<Seq<char>>, k: int)
    requires
        0 <= k <= ls.len(),
        after_lines(ls.take(k)) is Err,
    ensures
        after_lines(ls) == after_lines(ls.take(k)),
    decreases ls.len(),
{
    if k < ls.len() {
        assert(ls.drop_last().take(k) =~= ls.take(k));
        lemma_lines_fault(ls.drop_last(), k);
    } else {
        assert(ls.take(k) =~= ls);
    }
}

/// Reads the mesh that a text holds.
///
/// Corners count from one on from the first vertex, or below zero back from the last one read. A
/// corner `v/vt/vn` keeps only its position. Polygons are cut around their first corner.
pub fn parse_text(text: &str) -> (r: Result<ObjMesh, ObjError>)
    ensures
        result_view(r) == parsed(text@),
{
    let chars = chars_of(text);
    let mut mesh = ObjMesh { vertices: Vec::new(), faces: Vec::new() };
    let mut from: usize = 0;
    let mut number: usize = 0;
    let mut i: usize = 0;
    let ghost mut done: Seq<Seq<char>> = Seq::empty();
    proof {
        assert(text@.take(0) =~= Seq::<char>::empty());
        assert(lines(text@.take(0)) =~= done.push(text@.subrange(0, 0)));
        assert(mesh@ =~= ObjModel { vertices: Seq::empty(), faces: Seq::empty() });
    }
    while i < chars.len()
        invariant
            chars@ == text@,
            from <= i <= chars@.len(),
            number == done.len() <= from,
            lines(text@.take(i as int)) == done.push(text@.subrange(from as int, i as int)),
            after_lines(done) == Ok::<ObjModel, ObjFault>(mesh@),
        decreases chars@.len() - i,
    {
        let ghost part = text@.take(i + 1);
        let ghost cur = text@.subrange(from as int, i as int);
        proof {
            assert(part.drop_last() =~= text@.take(i as int));
            assert(part.last() == chars@[i as int]);
            assert(done.push(cur).drop_last() =~= done);
            assert(done.push(cur).last() == cur);
        }
        if chars[i] == '\n' {
            match read_line(&mut mesh, &chars, from, i, number + 1) {
                Ok(_) => {},
                Err(e) => {
                    proof {
                        lemma_lines_grow(text@, i + 1);
                        assert(lines(part).drop_last() =~= done.push(cur));
                        lemma_lines_fault(lines(text@), done.len() as int + 1);
                    }
                    return Err(e);
                },
            }
            proof {
                done = done.push(cur);
                assert(text@.subrange(i + 1, i + 1) =~= Seq::<char>::empty());
            }
            number += 1;
            from = i + 1;
        } else {
            assert(text@.subrange(from as int, i + 1) =~= cur.push(chars@[i as int]));
        }
        i += 1;
    }
    let ghost cur = text@.subrange(from as int, i as int);
    proof {
        assert(text@.take(i as int) =~= text@);
        assert(done.push(cur).drop_last() =~= done);
    }
    if from < i {
        match read_line(&mut mesh, &chars, from, i, number + 1) {
            Ok(_) => {},
            Err(e) => {
                return Err(e);
            },
        }
    }
    if mesh.vertices.len() == 0 || mesh.faces.len() == 0 {
        return Err(ObjError::NoGeometry);
    }
    Ok(mesh)
}

/// Reads the mesh that the bytes of a file hold. Bytes that are no UTF-8 are read as the
/// replacement character.
pub fn parse(bytes: &[u8]) -> (r: Result<ObjMesh, ObjError>)
    ensures
        result_view(r) == parsed(lossy_text(bytes@)),
        valid_utf8(bytes@) ==> result_view(r) == parsed(decode_utf8(bytes@)),
{
    let text = decode_lossy(bytes);
    parse_text(text.as_str())
}

proof fn lemma_polygon_range(words: Seq<Seq<char>>, count: nat, line: int)
    requires
        polygon(words, count, line) is Ok,
    ensures
        polygon(words, count, line)->Ok_0.len() == words.len(),
        forall|k: int|
            0 <= k < words.len() ==> #[trigger] polygon(words, count, line)->Ok_0[k] < count,
    decreases words.len(),
{
    if words.len() > 0 {
        lemma_polygon_range(words.drop_last(), count, line);
    }
}

proof fn lemma_lines_range(ls: Seq<Seq<char>>)
    requires
        after_lines(ls) is Ok,
    ensures
        in_range(after_lines(ls)->Ok_0.faces, after_lines(ls)->Ok_0.vertices.len() as int),
    decreases ls.len(),
{
    if ls.len() > 0 {
        let before = after_lines(ls.drop_last())->Ok_0;
        let after = after_lines(ls)->Ok_0;
        let count = before.vertices.len();
        let number = ls.len() as int;
        let ws = words(ls.last());
        assert(after == with_words(before, ws, number)->Ok_0);
        lemma_lines_range(ls.drop_last());
        assert forall|i: int, k: int| 0 <= i < after.faces.len() && 0 <= k < 3 implies
            #[trigger] after.faces[i][k] < after.vertices.len() by {
            if i < before.faces.len() {
                assert(after.faces[i] == before.faces[i]);
                assert(before.faces[i][k] < count);
            } else {
                let corners = polygon(ws.skip(1), count, number)->Ok_0;
                lemma_polygon_range(ws.skip(1), count, number);
                assert(after.faces[i] == triangles(corners)[i - before.faces.len()]);
            }
        }
    }
}

/// A mesh that is read has vertices and faces, and every corner of a face is one of its vertices.
pub proof fn law_parsed_mesh_is_whole(text: Seq<char>)
    requires
        parsed(text) is Ok,
    ensures
        parsed(text)->Ok_0.vertices.len() > 0,
        parsed(text)->Ok_0.faces.len() > 0,
        in_range(parsed(text)->Ok_0.faces, parsed(text)->Ok_0.vertices.len() as int),
{
    lemma_lines_range(lines(text));
}

/// A line whose first word is neither `v` nor `f`, or one without words.
pub open spec fn is_other(line: Seq<char>) -> bool {
    words(line).len() == 0 || (words(line)[0] != "v"@ && words(line)[0] != "f"@)
}

/// The lines of a text that say something about a mesh.
pub open spec fn telling_lines(ls: Seq<Seq<char>>) -> Seq<Seq<char>> {
    ls.filter(|l: Seq<char>| !is_other(l))
}

/// Both are the same mesh, or both are none. A fault names its line, so faults may differ.
pub open spec fn same_mesh(a: Result<ObjModel, ObjFault>, b: Result<ObjModel, ObjFault>) -> bool {
    match (a, b) {
        (Ok(x), Ok(y)) => x == y,
        (Err(_), Err(_)) => true,
        _ => false,
    }
}

proof fn lemma_polygon_line(words: Seq<Seq<char>>, count: nat, a: int, b: int)
    ensures
        match (polygon(words, count, a), polygon(words, count, b)) {
            (Ok(x), Ok(y)) => x == y,
            (Err(_), Err(_)) => true,
            _ => false,
        },
    decreases words.len(),
{
    if words.len() > 0 {
        lemma_polygon_line(words.drop_last(), count, a, b);
    }
}

/// The number of a line matters to the faults alone.
proof fn lemma_line_number(mesh: ObjModel, line: Seq<char>, a: int, b: int)
    ensures
        same_mesh(with_line(mesh, line, a), with_line(mesh, line, b)),
{
    let ws = words(line);
    reveal_with_fuel(coord_fault, 5);
    lemma_polygon_line(ws.skip(1), mesh.vertices.len(), a, b);
}

proof fn lemma_telling_lines(ls: Seq<Seq<char>>)
    ensures
        same_mesh(after_lines(ls), after_lines(telling_lines(ls))),
    decreases ls.len(),
{
    reveal(Seq::filter);
    if ls.len() > 0 {
        let front = ls.drop_last();
        let kept = telling_lines(front);
        lemma_telling_lines(front);
        if is_other(ls.last()) {
            assert(telling_lines(ls) == kept);
        } else {
            let all = telling_lines(ls);
            assert(all == kept.push(ls.last()));
            assert(all.drop_last() =~= kept);
            if after_lines(front) is Ok {
                lemma_line_number(
                    after_lines(front)->Ok_0,
                    ls.last(),
                    ls.len() as int,
                    all.len() as int,
                );
            }
        }
    } else {
        assert(telling_lines(ls) =~= ls);
    }
}

/// Lines that begin with neither `v` nor `f` are ignored, wherever they stand: two texts that
/// agree in their other lines hold the same mesh, or neither holds one.
pub proof fn law_other_lines_are_ignored(a: Seq<char>, b: Seq<char>)
    requires
        telling_lines(lines(a)) == telling_lines(lines(b)),
    ensures
        same_mesh(parsed(a), parsed(b)),
{
    lemma_telling_lines(lines(a));
    lemma_telling_lines(lines(b));
}

/// A face of `n` corners becomes `n - 2` triangles, which all have its first corner.
pub proof fn law_polygons_fan_out(corners: Seq<u32>)
    requires
        corners.len() >= 3,
    ensures
        triangles(corners).len() == corners.len() - 2,
        forall|k: int|
            0 <= k < corners.len() - 2 ==> #[trigger] triangles(corners)[k][0] == corners[0]
                && triangles(corners)[k][1] == corners[k + 1] && triangles(corners)[k][2]
                == corners[k + 2],
{
}

} // verus!
