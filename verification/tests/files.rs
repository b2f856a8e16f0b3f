use spectral3d_cli::mesh::Face;
use spectral3d_cli::number::{parse_integer, reads_as_float};
use spectral3d_cli::obj::{parse, parse_text, ObjError, ObjMesh};
use spectral3d_cli::pipeline::RepairReport;
use spectral3d_cli::report::{
    edits_line, is_yes, outcome_line, overwrite_plan, register_name, repair_name, to_obj, Overwrite,
};
use spectral3d_cli::text::{chars_of, is_white, push_decimal, push_signed, spells, text_of, trim_bounds};

fn coords(x: &str, y: &str, z: &str) -> [String; 3] {
    [x.to_string(), y.to_string(), z.to_string()]
}

fn message(text: &str) -> String {
    match parse_text(text) {
        Ok(_) => panic!("read as a mesh: {}", text),
        Err(e) => e.message(),
    }
}

fn report() -> RepairReport {
    RepairReport {
        degenerate_dropped: 3,
        welded: 12,
        duplicate_faces_dropped: 1,
        nonmanifold_faces_removed: 0,
        components_dropped: 0,
        holes_filled: 2,
        cap_faces_added: 40,
        shells_flipped: 0,
        open_edges_left: 0,
        nonmanifold_edges_left: 0,
        closed: true,
    }
}

#[test]
fn numbers_are_written_in_decimal() {
    for n in [0u64, 7, 10, 99, 100, 4294967296, u64::MAX] {
        let mut s = String::from("n=");
        push_decimal(&mut s, n);
        assert_eq!(s, format!("n={}", n));
    }
    for n in [0i64, -1, 42, i64::MIN, i64::MAX] {
        let mut s = String::new();
        push_signed(&mut s, n);
        assert_eq!(s, n.to_string());
    }
}

#[test]
fn white_space_is_that_of_unicode() {
    for n in 0..0x110000u32 {
        if let Some(c) = char::from_u32(n) {
            assert_eq!(is_white(c), c.is_whitespace(), "{:x}", n);
        }
    }
}

#[test]
fn texts_are_trimmed_and_compared() {
    let chars = chars_of(" \tye s\u{2003}");
    assert_eq!(trim_bounds(&chars), (2, 6));
    assert_eq!(text_of(&chars, 2, 6), "ye s");
    assert!(spells(&chars, 2, 4, "ye"));
    assert!(!spells(&chars, 2, 4, "yes"));
    assert!(!spells(&chars, 2, 4, "yo"));
    assert_eq!(trim_bounds(&chars_of("  ")).0, trim_bounds(&chars_of("  ")).1);
}

#[test]
fn integers_are_read_as_by_std() {
    for s in [
        "", "+", "-", "0", "-0", "+7", "007", "12", "-12", "1 2", "1.0", "0x1", "--1", "+-1", "１",
        "9223372036854775807", "9223372036854775808", "-9223372036854775808",
        "-9223372036854775809", "00000000000000000000000000000000000001",
        "99999999999999999999999999999999999999999999999", "12a",
    ] {
        assert_eq!(parse_integer(&chars_of(s)), s.parse::<i64>().ok(), "{}", s);
    }
}

#[test]
fn floats_are_recognised_as_by_std() {
    for s in [
        "", "+", "-", ".", "e", "e5", "0", "1", "-1", "+1", "1.", ".5", "1.5", "-.5", "+.5e3", "1e5",
        "1E5", "1e+5", "1e-5", "1e", "1e+", "1.e5", ".e5", "1..5", "1.5.2", "1e5.0", "inf", "-inf",
        "+INF", "infinity", "InFiNiTy", "infinit", "nan", "NaN", "-nan", "nano", "in", "0x10", "1_0",
        "1,5", "--1", "+-1", "1f", "1e99999", "000.000", "١",
    ] {
        assert_eq!(reads_as_float(&chars_of(s)), s.parse::<f64>().is_ok(), "{}", s);
    }
}

#[test]
fn polygons_are_cut_around_their_first_corner() {
    let text = "# cube corner\n\nv 0 0 0\nv 1 0 0 9 9\n  v\t0 1e0 0\r\nv 0 0 +1.\nvn 0 0 1\ng part\nf 1 2 3\nf 1//1 2/2/2 -1 3\n";
    let expected = ObjMesh {
        vertices: vec![
            coords("0", "0", "0"),
            coords("1", "0", "0"),
            coords("0", "1e0", "0"),
            coords("0", "0", "+1."),
        ],
        faces: vec![[0, 1, 2], [0, 1, 3], [0, 3, 2]],
    };
    assert_eq!(parse_text(text), Ok(expected));
}

#[test]
fn corners_count_from_what_was_read_so_far() {
    let text = "v 0 0 0\nv 1 0 0\nv 0 1 0\nf -3 -2 -1\nv 5 5 5\nf -1 1 2";
    match parse_text(text) {
        Ok(mesh) => assert_eq!(mesh.faces, vec![[0, 1, 2], [3, 0, 1]]),
        Err(e) => panic!("{}", e.message()),
    }
    assert_eq!(message("v 0 0 0\nv 1 0 0\nf 1 2 3\nv 0 1 0"), "line 3: index 3 out of range");
}

#[test]
fn other_lines_are_ignored_wherever_they_stand() {
    let bare = "v 0 0 0\nv 1 0 0\nv 0 1 0\nf 1 2 3\n";
    let wordy = "mtllib m\n# v 9 9 9\nv 0 0 0\n\nvt 0 0\nv 1 0 0\n   \nv 0 1 0\no f\nf 1 2 3\ns off";
    assert_eq!(parse_text(wordy), parse_text(bare));
    assert!(parse_text("g\nv 0 0\n").is_err() && parse_text("v 0 0\n").is_err());
}

#[test]
fn faults_name_their_line() {
    assert_eq!(message("v 0 0"), "line 1: vertex needs 3 coords");
    assert_eq!(message("\nv 0 zero 0"), "line 2: bad float 'zero'");
    assert_eq!(message("v 0 x"), "line 1: bad float 'x'");
    assert_eq!(message("v 0 0 0\nf 1/2 a/1 1"), "line 2: bad index 'a/1'");
    assert_eq!(message("v 0 0 0\nf /1 1 1"), "line 2: bad index '/1'");
    assert_eq!(message("v 0 0 0\nf 1 0 1"), "line 2: zero index");
    assert_eq!(message("v 0 0 0\nf 1 -2 1"), "line 2: index -2 out of range");
    assert_eq!(message("v 0 0 0\nf 1 1"), "line 2: face needs >= 3 vertices");
    assert_eq!(message("v 0 0 0\nf"), "line 2: face needs >= 3 vertices");
    assert_eq!(message(""), "no geometry");
    assert_eq!(message("v 0 0 0\n"), "no geometry");
    assert_eq!(message("# only words\n"), "no geometry");
}

#[test]
fn first_fault_counts() {
    assert_eq!(
        parse_text("v 1 2\nf 9 9 9\n"),
        Err(ObjError::VertexNeedsCoords { line: 1 })
    );
}

#[test]
fn bytes_outside_utf8_do_no_harm_in_comments() {
    let mut bytes = b"# caf\xe9 \xff\n".to_vec();
    bytes.extend_from_slice(b"v 0 0 0\nv 1 0 0\nv 0 1 0\nf 1 2 3\n");
    match parse(&bytes) {
        Ok(mesh) => assert_eq!((mesh.vertices.len(), mesh.faces), (3, vec![[0, 1, 2]])),
        Err(e) => panic!("{}", e.message()),
    }
    assert_eq!(
        parse(b"v 0 \xff 0"),
        Err(ObjError::BadFloat { line: 1, token: "\u{fffd}".to_string() })
    );
}

#[test]
fn repaired_mesh_is_written_with_its_report() {
    let verts = [coords("0", "0.5", "-1"), coords("1", "0", "0"), coords("0", "1", "0")];
    let out = to_obj("0.1.0", &verts, &[[0, 2, 1]], &report());
    assert_eq!(
        out,
        "# repaired by spectral3d-cli v0.1.0\n\
         # dropped 3 degenerate face(s), welded 12 vertex/vertices, dropped 1 duplicate face(s)\n\
         # filled 2 hole(s) (+40 faces), flipped 0 shell(s)\n\
         # result: closed=true, 0 open edge(s), 0 non-manifold edge(s)\n\
         \n\
         v 0 0.5 -1\n\
         v 1 0 0\n\
         v 0 1 0\n\
         f 1 3 2\n"
    );
}

#[test]
fn destructive_edits_get_a_line() {
    let r = RepairReport {
        nonmanifold_faces_removed: 5,
        closed: false,
        open_edges_left: 4,
        nonmanifold_edges_left: 1,
        ..report()
    };
    let out = to_obj("1", &[], &[], &r);
    assert!(out.contains("# destructive: cut 5 non-manifold face(s), dropped 0 debris component(s)\n"));
    assert!(out.contains("# result: closed=false, 4 open edge(s), 1 non-manifold edge(s)\n"));
    let r = RepairReport { components_dropped: 2, ..report() };
    assert!(to_obj("1", &[], &[], &r)
        .contains("# destructive: cut 0 non-manifold face(s), dropped 2 debris component(s)\n"));
}

#[test]
fn written_mesh_reads_back() {
    let verts = vec![
        coords("0", "-0.125", "1e-7"),
        coords("NaN", "inf", "-inf"),
        coords("179769313486231570000", "0", "1"),
    ];
    let faces: Vec<Face> = vec![[0, 1, 2], [2, 1, 0]];
    let text = to_obj("0.1.0", &verts, &faces, &report());
    assert_eq!(parse_text(&text), Ok(ObjMesh { vertices: verts, faces }));
}

#[test]
fn console_lines() {
    assert_eq!(
        edits_line(&report()),
        "dropped 3 degenerate, welded 12, dropped 1 dup faces; cut 0 non-manifold, dropped 0 debris; filled 2 holes (+40), flipped 0 shell(s)"
    );
    assert_eq!(outcome_line(&report(), 4), "result is now a closed manifold");
    assert_eq!(
        outcome_line(&report(), 0),
        "nothing solid survived: the input has no closed-solid geometry (e.g. flat cards)"
    );
    let r = RepairReport { closed: false, open_edges_left: 4, nonmanifold_edges_left: 2, ..report() };
    assert_eq!(
        outcome_line(&r, 4),
        "still not closed: 4 open edge(s), 2 non-manifold edge(s) left"
    );
    assert_eq!(repair_name("model"), "model-repair.obj");
    assert_eq!(register_name("model"), "model-register.json");
}

#[test]
fn files_are_overwritten_only_on_consent() {
    assert_eq!(overwrite_plan(false, false), Overwrite::Write);
    assert_eq!(overwrite_plan(false, true), Overwrite::Write);
    assert_eq!(overwrite_plan(true, true), Overwrite::Ask);
    assert_eq!(overwrite_plan(true, false), Overwrite::Refuse);
    for yes in ["y", "Y\n", " yes\r\n", "Yes"] {
        assert!(is_yes(yes), "{}", yes);
    }
    for no in ["", "\n", "n", "YES", "yEs", "yes!", "y e s", "no"] {
        assert!(!is_yes(no), "{}", no);
    }
}
