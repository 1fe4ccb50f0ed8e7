//! Reading and writing: `.poly`, `.node` and `.ele` text, OBJ and STL meshes.

use rsnav::io::{
    normalize_vertex_index, parse_int, parse_real, parse_usize, poly_needs_node, read_node,
    read_poly, IoError, TokenLines,
};
use rsnav::obj::{read_obj, ObjError};
use rsnav::predicates::Vertex;
use rsnav::pslg::{Pslg, PslgHole, PslgSegment, PslgVertex};
use rsnav::scene::{scene_options, FpsKeys, MoveKey, SceneChoice};
use rsnav::stl::{read_binary_stl, widened};
use rsnav::text::{chars_of, push_signed, read_int, split_lines, text_of};
use rsnav::write::{format_ele, format_node, format_poly, WriteOptions};

fn v(x: f64, y: f64) -> Vertex {
    Vertex::new(x.to_bits(), y.to_bits())
}

fn read_real(tok: &Vec<char>) -> Option<u64> {
    let s: String = tok.iter().collect();
    s.parse::<f64>().ok().map(|x| x.to_bits())
}

fn write_real(bits: u64) -> String {
    format!("{}", f64::from_bits(bits))
}

fn poly(src: &str) -> Result<Pslg, IoError> {
    read_poly(&read_real, src, "")
}

fn chars(s: &str) -> Vec<char> {
    s.chars().collect()
}

const POLY: &str = "\
# A unit square with one square hole.
4 2 0 0
1 0.0 0.0
2 4.0 0.0
3 4.0 4.0
4 0.0 4.0
4 0
1 1 2
2 2 3
3 3 4
4 4 1
1
1 2.0 2.0
";

#[test]
fn read_inline_poly() {
    let p = poly(POLY).unwrap();
    assert_eq!(p.vertices.len(), 4);
    assert_eq!(p.vertices[0].position, v(0.0, 0.0));
    assert_eq!(p.vertices[3].position, v(0.0, 4.0));
    assert_eq!(p.segments.len(), 4);
    assert_eq!(p.segments[0], PslgSegment::new(0, 1));
    assert_eq!(p.segments[3], PslgSegment::new(3, 0));
    assert_eq!(p.holes.len(), 1);
    assert_eq!(p.holes[0].point, v(2.0, 2.0));
}

#[test]
fn zero_based_indices_also_work() {
    let txt = "\
4 2 0 0
0 0 0
1 1 0
2 1 1
3 0 1
4 0
0 0 1
1 1 2
2 2 3
3 3 0
0
";
    let p = poly(txt).unwrap();
    assert_eq!(p.vertices.len(), 4);
    assert_eq!(p.segments[0], PslgSegment::new(0, 1));
    assert_eq!(p.segments[3], PslgSegment::new(3, 0));
}

#[test]
fn attributes_and_markers_are_read() {
    let txt = "2 2 1 1\n1 0.2 -0.7764 -0.57 3\n2 1 1 2.5 0\n1 1\n1 1 2 9\n0\n";
    let p = poly(txt).unwrap();
    assert_eq!(p.vertices[0].position, v(0.2, -0.7764));
    assert_eq!(p.vertices[0].attributes, vec![(-0.57f64).to_bits()]);
    assert_eq!(p.vertices[0].marker, 3);
    assert_eq!(p.segments, vec![PslgSegment { a: 0, b: 1, marker: 9 }]);
}

#[test]
fn a_poly_without_vertices_takes_them_from_its_node_file() {
    let src = "0 2 0 0\n1 0\n1 1 2\n0\n";
    assert!(poly_needs_node(src));
    assert!(!poly_needs_node(POLY));
    let p = read_poly(&read_real, src, "2 2 0 0\n1 0 0\n2 1 0\n").unwrap();
    assert_eq!(p.vertices.len(), 2);
    assert_eq!(p.segments, vec![PslgSegment::new(0, 1)]);
}

#[test]
fn format_node_round_trips() {
    let pslg = Pslg {
        vertices: vec![
            PslgVertex::new(v(0.0, 0.0)),
            PslgVertex::new(v(1.0, 1.0)).with_marker(2),
        ],
        segments: Vec::new(),
        holes: Vec::new(),
    };
    let s = format_node(&write_real, &pslg, WriteOptions::default());
    let back = read_node(&read_real, &s).unwrap();
    assert_eq!(back.vertices, pslg.vertices);
}

fn square() -> Pslg {
    Pslg {
        vertices: vec![
            PslgVertex::new(v(0.0, 0.0)),
            PslgVertex::new(v(1.0, 0.0)),
            PslgVertex::new(v(1.0, 1.0)),
            PslgVertex::new(v(0.0, 1.0)),
        ],
        segments: vec![
            PslgSegment::new(0, 1),
            PslgSegment::new(1, 2),
            PslgSegment::new(2, 3),
            PslgSegment::new(3, 0),
        ],
        holes: vec![PslgHole { point: v(0.5, 0.5) }],
    }
}

#[test]
fn format_poly_round_trips() {
    let pslg = square();
    let s = format_poly(&write_real, &pslg, WriteOptions::default());
    let back = poly(&s).unwrap();
    assert_eq!(back, pslg);
}

#[test]
fn graphs_round_trip_under_every_option() {
    for index_base in [0, 1] {
        for emit_vertex_markers in [false, true] {
            for emit_segment_markers in [false, true] {
                let opts = WriteOptions { index_base, emit_vertex_markers, emit_segment_markers };
                let s = format_poly(&write_real, &square(), opts);
                assert_eq!(poly(&s).unwrap(), square());
            }
        }
    }
}

#[test]
fn format_ele_uses_index_base() {
    let s = format_ele(
        &vec![[0, 1, 2], [0, 2, 3]],
        WriteOptions { index_base: 1, ..Default::default() },
    );
    let mut lines = s.lines();
    assert_eq!(lines.next().unwrap().trim(), "2  3  0");
    assert!(lines.next().unwrap().contains("1    2    3"));
    assert!(lines.next().unwrap().contains("1    3    4"));
}

#[test]
fn each_error_of_a_poly_file_is_reported() {
    assert!(matches!(poly("# nothing\n"), Err(IoError::UnexpectedEof { .. })));
    assert!(matches!(poly("x 2 0 0\n"), Err(IoError::Parse { line: 1, .. })));
    assert!(matches!(poly("1 2\n"), Err(IoError::BadColumnCount { line: 1, found: 2, .. })));
    assert!(matches!(poly("1 3 0 0\n"), Err(IoError::UnsupportedDimension { line: 1, dim: 3 })));
    assert!(matches!(
        poly("1 2 0 0\n1 0 0\n1 0\n1 1 7\n0\n"),
        Err(IoError::VertexOutOfRange { line: 4, index: 7, vertex_count: 1, .. })
    ));
}

#[test]
fn errors_say_what_happened() {
    let e = poly("x 2 0 0\n").unwrap_err();
    assert_eq!(e.message(), "line 1: failed to parse vertex count token 'x'");
    let e = poly("1 3 0 0\n").unwrap_err();
    assert_eq!(e.message(), "line 1: only 2D is supported (file declares dimension 3)");
    let e = IoError::Io { message: "gone".to_string() };
    assert_eq!(e.message(), "io error: gone");
    let e = IoError::InconsistentAttributes { line: 4, expected: 2, found: 1 };
    assert_eq!(e.message(), "line 4: expected 2 per-vertex attributes, found 1");
    let e = IoError::VertexOutOfRange {
        line: 9,
        context: "segment",
        index: -3,
        vertex_count: 4,
    };
    assert_eq!(e.message(), "line 9: segment references vertex -3 but only 4 vertices exist");
    let e = poly("").unwrap_err();
    assert!(e.message().starts_with("unexpected end of file while reading "));
    let e = poly("1 2\n").unwrap_err();
    assert!(e.message().starts_with("line 1: "));
    assert!(e.message().ends_with(" columns, found 2"));
}

#[test]
fn words_are_parsed_one_by_one() {
    assert_eq!(parse_int(&chars("-12"), 1, "x").unwrap(), -12);
    assert!(parse_int(&chars("1.5"), 1, "x").is_err());
    assert_eq!(parse_usize(&chars("7"), 1, "x").unwrap(), 7);
    assert!(parse_usize(&chars("-7"), 1, "x").is_err());
    assert_eq!(parse_real(&read_real, &chars("0.25"), 1, "x").unwrap(), 0.25f64.to_bits());
    assert!(parse_real(&read_real, &chars("a"), 1, "x").is_err());
    assert_eq!(normalize_vertex_index(4, 1, 1, "x", 4).unwrap(), 3);
    assert!(normalize_vertex_index(0, 1, 1, "x", 4).is_err());
    assert!(normalize_vertex_index(5, 1, 1, "x", 4).is_err());
}

#[test]
fn lines_skip_comments_and_blanks() {
    let mut it = TokenLines::new("\n# all comment\n1 2 # tail\n\n3\n");
    let l = it.next().unwrap();
    assert_eq!((l.number, l.tokens.len()), (3, 2));
    let l = it.next().unwrap();
    assert_eq!((l.number, l.tokens.clone()), (5, vec![vec!['3']]));
    assert!(it.next().is_none());
    assert_eq!(split_lines(&chars("a b\nc")).len(), 2);
}

#[test]
fn integers_are_read_and_written() {
    for n in [0i64, 7, -7, 1234567, i64::MAX, i64::MIN] {
        let mut s = String::new();
        push_signed(&mut s, n);
        assert_eq!(s, format!("{}", n));
        assert_eq!(read_int(&chars(&s)), Some(n));
    }
    assert_eq!(read_int(&chars("+5")), Some(5));
    assert_eq!(read_int(&chars("9223372036854775808")), None);
    assert_eq!(read_int(&chars("")), None);
    assert_eq!(read_int(&chars("-")), None);
    assert_eq!(text_of(&chars_of("caf\u{e9} 7")), "caf\u{e9} 7");
}

// --- OBJ --------------------------------------------------------------------

#[test]
fn obj_faces_become_fans() {
    let src = "# quad\nv 0 0 0\nv 1 0 0.5\nv 1 1 0\nv 0 1 0\nvn 0 0 1\nf 1/1/1 2//2 3 4\nf -4 -3 -2\n";
    let soup = read_obj(&read_real, &chars(src)).unwrap();
    assert_eq!(soup.vertex_count(), 4);
    assert_eq!(soup.vertices[1].z, 0.5f64.to_bits());
    assert_eq!(soup.triangles, vec![[0, 1, 2], [0, 2, 3], [0, 1, 2]]);
    assert!(soup.validate().is_ok());
}

#[test]
fn obj_errors_name_their_line() {
    let obj = |s: &str| read_obj(&read_real, &chars(s));
    assert!(matches!(obj("v 0 0\n"), Err(ObjError::MissingFloat { line: 1 })));
    assert!(matches!(obj("\nv 0 q 0\n"), Err(ObjError::BadFloat { line: 2, .. })));
    assert!(matches!(obj("v 0 0 0\nf 1 x 1\n"), Err(ObjError::BadIndex { line: 2, .. })));
    assert!(matches!(obj("v 0 0 0\nf 1 2 1\n"), Err(ObjError::IndexOutOfRange { line: 2 })));
}

// --- STL --------------------------------------------------------------------

fn stl_bytes(triangles: &[[[f32; 3]; 3]]) -> Vec<u8> {
    let mut out = vec![0u8; 80];
    out.extend((triangles.len() as u32).to_le_bytes());
    for t in triangles {
        out.extend([0u8; 12]);
        for c in t {
            for x in c {
                out.extend(x.to_le_bytes());
            }
        }
        out.extend([0u8; 2]);
    }
    out
}

#[test]
fn binary_stl_is_read() {
    let t = [[0.0f32, 0.0, 0.0], [1.5, 0.0, -0.25], [0.0, 1e-3, 7.0]];
    let bytes = stl_bytes(&[t, t]);
    let soup = read_binary_stl(&bytes).unwrap();
    assert_eq!(soup.triangle_count(), 2);
    for k in 0..3 {
        let p = soup.vertices[soup.triangles[0][k] as usize];
        assert_eq!(f64::from_bits(p.x), t[k][0] as f64);
        assert_eq!(f64::from_bits(p.y), t[k][1] as f64);
        assert_eq!(f64::from_bits(p.z), t[k][2] as f64);
    }
    assert!(read_binary_stl(&bytes[..bytes.len() - 1].to_vec()).is_none());
    assert!(read_binary_stl(&vec![0u8; 83]).is_none());
}

#[test]
fn single_precision_widens_exactly() {
    for x in [0.0f32, -0.0, 1.0, -2.5, 3.4e38, 1e-40, f32::MIN_POSITIVE, f32::from_bits(1)] {
        assert_eq!(widened(x.to_bits()), (x as f64).to_bits(), "{}", x);
    }
    assert_eq!(widened(f32::INFINITY.to_bits()), f64::INFINITY.to_bits());
    assert!(f64::from_bits(widened(f32::NAN.to_bits())).is_nan());
}

// --- Scenes -----------------------------------------------------------------

#[test]
fn scenes_have_labels_and_files() {
    let all = scene_options();
    assert_eq!(all.len(), 8);
    assert_eq!(SceneChoice::Plane.label(), "Plane (1 quad)");
    for s in all {
        assert_eq!(s.is_imported(), s.file().is_some());
    }
    assert_eq!(SceneChoice::StlLand.file(), Some("Land/Land1.stl"));
    let o = SceneChoice::ObjDungeon.default_import_options();
    assert_eq!(f64::from_bits(o.scale), 1.0);
}

#[test]
fn keys_hold_while_they_are_down() {
    let mut k = FpsKeys::new();
    assert!(k.apply(MoveKey::W, true));
    assert!(k.forward && !k.back);
    assert!(k.apply(MoveKey::W, false));
    assert_eq!(k, FpsKeys::new());
    assert!(!k.apply(MoveKey::Other, true));
    assert_eq!(k, FpsKeys::new());
}
