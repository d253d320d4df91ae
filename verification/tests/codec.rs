use obj_codec::binary::BinError;
use obj_codec::mesh::{Face, Normal, Vertex, OBJ};
use obj_codec::render::render_i32;
use obj_codec::text::{extract_face_from_line, parse_i32, parse_text, tokenize, TextError, Tok3};

/// Parses a coordinate token the way the command-line front end does:
/// decimal float text to its IEEE 754 bit pattern.
fn bits(tok: &Vec<u8>) -> u32 {
    let s = String::from_utf8(tok.clone()).expect("token is not UTF-8");
    s.parse::<f32>().expect("token is not a float").to_bits()
}

/// Builds a mesh from parsed text records, converting coordinate tokens.
fn mesh_of_text(input: &[u8]) -> OBJ {
    let raw = parse_text(input).expect("parse failed");
    let mut mesh = OBJ::new();
    for t in &raw.vertex_tokens {
        mesh.append_vertex(Vertex { x: bits(&t.a), y: bits(&t.b), z: bits(&t.c) });
    }
    for t in &raw.normal_tokens {
        mesh.append_normal(Normal { x: bits(&t.a), y: bits(&t.b), z: bits(&t.c) });
    }
    for f in &raw.faces {
        mesh.append_face(*f);
    }
    mesh
}

/// Renders the coordinate tokens of a mesh the way the front end does.
fn coord_tokens(mesh: &OBJ) -> (Vec<Tok3>, Vec<Tok3>) {
    let mut vtoks: Vec<Tok3> = Vec::new();
    for i in 0..mesh.vertex_count() as usize {
        let v = mesh.vertex(i);
        vtoks.push(Tok3 {
            a: f32::from_bits(v.x).to_string().into_bytes(),
            b: f32::from_bits(v.y).to_string().into_bytes(),
            c: f32::from_bits(v.z).to_string().into_bytes(),
        });
    }
    let mut ntoks: Vec<Tok3> = Vec::new();
    for i in 0..mesh.normal_count() as usize {
        let n = mesh.normal(i);
        ntoks.push(Tok3 {
            a: f32::from_bits(n.x).to_string().into_bytes(),
            b: f32::from_bits(n.y).to_string().into_bytes(),
            c: f32::from_bits(n.z).to_string().into_bytes(),
        });
    }
    (vtoks, ntoks)
}

#[test]
fn concrete_text_to_binary() {
    let input = b"v 1.0 2.0 3.0\nvn 0.0 0.0 1.0\nf 1 2 3\n".to_vec();
    let mesh = mesh_of_text(&input);
    let bytes = mesh.WriteAsBinary();
    let mut expected: Vec<u8> = Vec::new();
    expected.extend_from_slice(&1i32.to_le_bytes());
    expected.extend_from_slice(&1.0f32.to_le_bytes());
    expected.extend_from_slice(&2.0f32.to_le_bytes());
    expected.extend_from_slice(&3.0f32.to_le_bytes());
    expected.extend_from_slice(&1i32.to_le_bytes());
    expected.extend_from_slice(&0.0f32.to_le_bytes());
    expected.extend_from_slice(&0.0f32.to_le_bytes());
    expected.extend_from_slice(&1.0f32.to_le_bytes());
    expected.extend_from_slice(&1i32.to_le_bytes());
    expected.extend_from_slice(&1i32.to_le_bytes());
    expected.extend_from_slice(&2i32.to_le_bytes());
    expected.extend_from_slice(&3i32.to_le_bytes());
    assert_eq!(bytes, expected);
    assert_eq!(bytes[0..4], [0x01, 0x00, 0x00, 0x00]);
}

#[test]
fn binary_round_trip_is_byte_identical() {
    let input = b"v 0.5 -1.25 3.0\nv 7.0 8.0 9.5\nvn 0.0 1.0 0.0\nf 1 2 3\nf -3 2 1\n".to_vec();
    let bytes = mesh_of_text(&input).WriteAsBinary();
    let mut mesh = OBJ::new();
    assert!(mesh.ReadBinary(&bytes).is_ok());
    let again = mesh.WriteAsBinary();
    assert_eq!(bytes, again);
}

#[test]
fn text_binary_text_round_trip() {
    let input = b"v 1.5 -2.25 0.125\nv 4.0 5.0 6.0\nvn 0.0 0.0 1.0\nf 1 2 3\n".to_vec();
    let mesh = mesh_of_text(&input);
    let bytes = mesh.WriteAsBinary();
    let mut mesh2 = OBJ::new();
    assert!(mesh2.ReadBinary(&bytes).is_ok());
    let (vtoks, ntoks) = coord_tokens(&mesh2);
    let text = mesh2.WriteAsText(&vtoks, &ntoks);
    let mesh3 = mesh_of_text(&text);
    assert_eq!(mesh3.vertex_count(), mesh.vertex_count());
    assert_eq!(mesh3.normal_count(), mesh.normal_count());
    assert_eq!(mesh3.face_count(), mesh.face_count());
    for i in 0..mesh.vertex_count() as usize {
        assert_eq!(mesh3.vertex(i), mesh.vertex(i));
    }
    for i in 0..mesh.normal_count() as usize {
        assert_eq!(mesh3.normal(i), mesh.normal(i));
    }
    for i in 0..mesh.face_count() as usize {
        assert_eq!(mesh3.face(i), mesh.face(i));
    }
}

#[test]
fn counts_equal_lengths_after_reads() {
    let input = b"v 1 2 3\nv 4 5 6\nvn 0 0 1\nf 1 2 3\nf 3 2 1\nf 1 1 1\n".to_vec();
    let mesh = mesh_of_text(&input);
    assert_eq!(mesh.vertex_count(), 2);
    assert_eq!(mesh.normal_count(), 1);
    assert_eq!(mesh.face_count(), 3);
    let bytes = mesh.WriteAsBinary();
    let mut mesh2 = OBJ::new();
    assert!(mesh2.ReadBinary(&bytes).is_ok());
    assert_eq!(mesh2.vertex_count(), 2);
    assert_eq!(mesh2.normal_count(), 1);
    assert_eq!(mesh2.face_count(), 3);
}

#[test]
fn order_is_preserved() {
    let input = b"v 1 0 0\nv 2 0 0\nv 3 0 0\nf 3 2 1\nf 1 3 2\n".to_vec();
    let mesh = mesh_of_text(&input);
    assert_eq!(mesh.vertex(0).x, 1.0f32.to_bits());
    assert_eq!(mesh.vertex(1).x, 2.0f32.to_bits());
    assert_eq!(mesh.vertex(2).x, 3.0f32.to_bits());
    assert_eq!(mesh.face(0), Face { v1: 3, v2: 2, v3: 1 });
    assert_eq!(mesh.face(1), Face { v1: 1, v2: 3, v3: 2 });
    let bytes = mesh.WriteAsBinary();
    let mut mesh2 = OBJ::new();
    assert!(mesh2.ReadBinary(&bytes).is_ok());
    for i in 0..3 {
        assert_eq!(mesh2.vertex(i), mesh.vertex(i));
    }
    assert_eq!(mesh2.face(0), Face { v1: 3, v2: 2, v3: 1 });
    assert_eq!(mesh2.face(1), Face { v1: 1, v2: 3, v3: 2 });
}

#[test]
fn vn_is_not_a_vertex_and_v_is_not_a_normal() {
    let raw = parse_text(b"vn 1.0 2.0 3.0\n").unwrap();
    assert_eq!(raw.normal_tokens.len(), 1);
    assert_eq!(raw.vertex_tokens.len(), 0);
    assert_eq!(raw.faces.len(), 0);
    let raw = parse_text(b"v 1.0 2.0 3.0\n").unwrap();
    assert_eq!(raw.vertex_tokens.len(), 1);
    assert_eq!(raw.normal_tokens.len(), 0);
    assert_eq!(raw.faces.len(), 0);
}

#[test]
fn unrecognized_lines_contribute_nothing() {
    let raw = parse_text(b"# comment\nvt 0.5 0.5\n\ng group\nusemtl m\n").unwrap();
    assert_eq!(raw.vertex_tokens.len(), 0);
    assert_eq!(raw.normal_tokens.len(), 0);
    assert_eq!(raw.faces.len(), 0);
}

#[test]
fn truncated_binary_is_rejected() {
    let mut bytes: Vec<u8> = Vec::new();
    bytes.extend_from_slice(&5i32.to_le_bytes());
    for _ in 0..2 {
        bytes.extend_from_slice(&1.0f32.to_le_bytes());
        bytes.extend_from_slice(&2.0f32.to_le_bytes());
        bytes.extend_from_slice(&3.0f32.to_le_bytes());
    }
    let mut mesh = OBJ::new();
    assert_eq!(mesh.ReadBinary(&bytes), Err(BinError::Truncated));
    assert_eq!(mesh.vertex_count(), 0);
}

#[test]
fn missing_count_field_is_truncation() {
    let mut bytes: Vec<u8> = Vec::new();
    bytes.extend_from_slice(&0i32.to_le_bytes());
    bytes.extend_from_slice(&0i32.to_le_bytes());
    let mut mesh = OBJ::new();
    assert_eq!(mesh.ReadBinary(&bytes), Err(BinError::Truncated));
}

#[test]
fn negative_count_is_rejected() {
    let mut bytes: Vec<u8> = Vec::new();
    bytes.extend_from_slice(&(-1i32).to_le_bytes());
    let mut mesh = OBJ::new();
    assert_eq!(mesh.ReadBinary(&bytes), Err(BinError::NegativeCount));
}

#[test]
fn trailing_bytes_are_rejected() {
    let mut bytes: Vec<u8> = Vec::new();
    bytes.extend_from_slice(&0i32.to_le_bytes());
    bytes.extend_from_slice(&0i32.to_le_bytes());
    bytes.extend_from_slice(&0i32.to_le_bytes());
    bytes.push(0);
    let mut mesh = OBJ::new();
    assert_eq!(mesh.ReadBinary(&bytes), Err(BinError::TrailingBytes));
}

#[test]
fn empty_mesh_binary_round_trip() {
    let mut bytes: Vec<u8> = Vec::new();
    bytes.extend_from_slice(&0i32.to_le_bytes());
    bytes.extend_from_slice(&0i32.to_le_bytes());
    bytes.extend_from_slice(&0i32.to_le_bytes());
    let mut mesh = OBJ::new();
    assert!(mesh.ReadBinary(&bytes).is_ok());
    assert_eq!(mesh.WriteAsBinary(), bytes);
}

#[test]
fn record_line_with_too_few_fields_fails() {
    assert!(matches!(parse_text(b"v 1 2\n"), Err(TextError::MissingFields)));
    assert!(matches!(parse_text(b"vn 1\n"), Err(TextError::MissingFields)));
    assert!(matches!(parse_text(b"f 1 2\n"), Err(TextError::MissingFields)));
}

#[test]
fn face_with_bad_integer_fails() {
    assert!(matches!(parse_text(b"f 1 2 x\n"), Err(TextError::BadInteger)));
    assert!(matches!(parse_text(b"f 1.5 2 3\n"), Err(TextError::BadInteger)));
    assert!(matches!(parse_text(b"f 1 2 2147483648\n"), Err(TextError::BadInteger)));
}

#[test]
fn extra_fields_are_ignored() {
    let raw = parse_text(b"v 1.0 2.0 3.0 4.0 5.0\nf 1 2 3 4\n").unwrap();
    assert_eq!(raw.vertex_tokens.len(), 1);
    assert_eq!(raw.vertex_tokens[0].c, b"3.0".to_vec());
    assert_eq!(raw.faces, vec![Face { v1: 1, v2: 2, v3: 3 }]);
}

#[test]
fn parse_i32_accepts_valid_integers() {
    assert_eq!(parse_i32(b"0"), Some(0));
    assert_eq!(parse_i32(b"12"), Some(12));
    assert_eq!(parse_i32(b"-45"), Some(-45));
    assert_eq!(parse_i32(b"+7"), Some(7));
    assert_eq!(parse_i32(b"2147483647"), Some(i32::MAX));
    assert_eq!(parse_i32(b"-2147483648"), Some(i32::MIN));
    assert_eq!(parse_i32(b"007"), Some(7));
}

#[test]
fn parse_i32_rejects_invalid_tokens() {
    assert_eq!(parse_i32(b""), None);
    assert_eq!(parse_i32(b"-"), None);
    assert_eq!(parse_i32(b"+"), None);
    assert_eq!(parse_i32(b"abc"), None);
    assert_eq!(parse_i32(b"1.5"), None);
    assert_eq!(parse_i32(b"12a"), None);
    assert_eq!(parse_i32(b"2147483648"), None);
    assert_eq!(parse_i32(b"-2147483649"), None);
    assert_eq!(parse_i32(b"99999999999999999999"), None);
}

#[test]
fn render_i32_matches_display() {
    for v in [0i32, 7, -17, 42, 1000000, i32::MAX, i32::MIN] {
        assert_eq!(render_i32(v), v.to_string().into_bytes());
    }
}

#[test]
fn tokenize_splits_on_whitespace_runs() {
    let toks = tokenize(b"  v \t 1.0\t2.0   3.0 \r");
    let expected: Vec<Vec<u8>> = vec![
        b"v".to_vec(),
        b"1.0".to_vec(),
        b"2.0".to_vec(),
        b"3.0".to_vec(),
    ];
    assert_eq!(toks, expected);
}

#[test]
fn extract_face_from_line_reads_indices() {
    let line = String::from("f 10 -20 30");
    assert_eq!(extract_face_from_line(&line), Face { v1: 10, v2: -20, v3: 30 });
}

#[test]
fn crlf_lines_are_handled() {
    let raw = parse_text(b"v 1.0 2.0 3.0\r\nf 1 2 3\r\n").unwrap();
    assert_eq!(raw.vertex_tokens.len(), 1);
    assert_eq!(raw.vertex_tokens[0].c, b"3.0".to_vec());
    assert_eq!(raw.faces, vec![Face { v1: 1, v2: 2, v3: 3 }]);
}

#[test]
fn last_line_without_newline_counts() {
    let raw = parse_text(b"v 1.0 2.0 3.0").unwrap();
    assert_eq!(raw.vertex_tokens.len(), 1);
}

#[test]
fn write_as_text_groups_and_orders_lines() {
    let input = b"f 9 8 7\nv 1 2 3\nvn 0 0 1\nv 4 5 6\n".to_vec();
    let mesh = mesh_of_text(&input);
    let (vtoks, ntoks) = coord_tokens(&mesh);
    let text = mesh.WriteAsText(&vtoks, &ntoks);
    assert_eq!(
        String::from_utf8(text).unwrap(),
        "v 1 2 3\nv 4 5 6\nvn 0 0 1\nf 9 8 7\n"
    );
}

#[test]
fn reset_clears_everything() {
    let input = b"v 1 2 3\nf 1 2 3\n".to_vec();
    let mut mesh = mesh_of_text(&input);
    mesh.reset();
    assert_eq!(mesh.vertex_count(), 0);
    assert_eq!(mesh.normal_count(), 0);
    assert_eq!(mesh.face_count(), 0);
    assert_eq!(
        mesh.WriteAsBinary(),
        {
            let mut b: Vec<u8> = Vec::new();
            b.extend_from_slice(&0i32.to_le_bytes());
            b.extend_from_slice(&0i32.to_le_bytes());
            b.extend_from_slice(&0i32.to_le_bytes());
            b
        }
    );
}
