use tinyrenderer::obj::parse_obj;
use tinyrenderer::obj::Face;

fn parse(text: &str) -> (Vec<tinyrenderer::obj::VertexTokens>, Vec<Face>) {
    parse_obj(&text.as_bytes().to_vec())
}

#[test]
fn minimal_mesh_round_trip() {
    let (vertices, faces) = parse("v 0 0 0\nv 1 0 0\nv 0 1 0\nf 1 2 3\n");
    assert_eq!(vertices.len(), 3);
    assert_eq!(faces.len(), 1);
    assert_eq!(faces[0], Face { v0: 0, v1: 1, v2: 2 });
}

#[test]
fn vertex_tokens_are_kept_verbatim() {
    let (vertices, _) = parse("v 1.5 -2.25 0.0\n");
    assert_eq!(vertices.len(), 1);
    assert_eq!(vertices[0].x, b"1.5".to_vec());
    assert_eq!(vertices[0].y, b"-2.25".to_vec());
    assert_eq!(vertices[0].z, b"0.0".to_vec());
}

#[test]
fn face_tokens_use_only_the_position_index() {
    let (_, faces) = parse("f 1/4/7 2//8 3/5\n");
    assert_eq!(faces.len(), 1);
    assert_eq!(faces[0], Face { v0: 0, v1: 1, v2: 2 });
}

#[test]
fn unparsable_face_index_defaults_to_zero() {
    let (_, faces) = parse("f x 2 3\n");
    assert_eq!(faces, vec![Face { v0: 0, v1: 1, v2: 2 }]);
}

#[test]
fn non_positive_face_index_clamps_to_zero() {
    let (_, faces) = parse("f -7 0 2\n");
    assert_eq!(faces, vec![Face { v0: 0, v1: 0, v2: 1 }]);
}

#[test]
fn overflowing_face_index_defaults_to_zero() {
    let (_, faces) = parse("f 99999999999999999999 2 3\n");
    assert_eq!(faces, vec![Face { v0: 0, v1: 1, v2: 2 }]);
}

#[test]
fn other_lines_are_ignored() {
    let text = "# comment\nvt 0.5 0.5\nvn 0 0 1\ng group\nv 1 2 3\nf 1 1 1\ns off\n";
    let (vertices, faces) = parse(text);
    assert_eq!(vertices.len(), 1);
    assert_eq!(faces.len(), 1);
}

#[test]
fn short_vertex_and_face_lines_are_ignored() {
    let (vertices, faces) = parse("v 1 2\nf 1 2\nv\nf\n");
    assert_eq!(vertices.len(), 0);
    assert_eq!(faces.len(), 0);
}

#[test]
fn extra_tokens_beyond_three_are_ignored() {
    let (vertices, faces) = parse("v 1 2 3 4 5\nf 1 2 3 4\n");
    assert_eq!(vertices.len(), 1);
    assert_eq!(vertices[0].z, b"3".to_vec());
    assert_eq!(faces, vec![Face { v0: 0, v1: 1, v2: 2 }]);
}

#[test]
fn blank_lines_and_windows_line_endings_are_handled() {
    let (vertices, faces) = parse("\r\nv 1 2 3\r\n\nf 1 1 1\r\n");
    assert_eq!(vertices.len(), 1);
    assert_eq!(faces.len(), 1);
    assert_eq!(vertices[0].z, b"3".to_vec());
}

#[test]
fn tabs_separate_tokens() {
    let (vertices, _) = parse("v\t4\t5\t6\n");
    assert_eq!(vertices.len(), 1);
    assert_eq!(vertices[0].x, b"4".to_vec());
}

#[test]
fn empty_text_has_no_mesh() {
    let (vertices, faces) = parse("");
    assert_eq!(vertices.len(), 0);
    assert_eq!(faces.len(), 0);
}

#[test]
fn plus_signed_face_index_parses() {
    let (_, faces) = parse("f +2 1 1\n");
    assert_eq!(faces[0].v0, 1);
}
