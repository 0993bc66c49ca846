use jaali::vtk::parse_tri_mesh_text;

fn chars(s: &str) -> Vec<char> {
    s.chars().collect()
}

fn field_texts(text: &[char], spans: &[(usize, usize)]) -> Vec<String> {
    spans.iter().map(|&(s, e)| text[s..e].iter().collect()).collect()
}

const SQUARE: &str = "# vtk DataFile Version 3.0\nsquare\nASCII\nDATASET UNSTRUCTURED_GRID\nPOINTS 4 double\n0 0 0\n1 0 0\n1 1 0\n0 1 0\nCELLS 2 8\n3 0 1 2\n3 0 2 3\nCELL_TYPES 2\n5\n5\n";

#[test]
fn reads_square_of_two_triangles() {
    let text = chars(SQUARE);
    let m = parse_tri_mesh_text(&text).expect("well-formed");
    assert_eq!(m.point_fields.len(), 4);
    assert_eq!(field_texts(&text, &m.point_fields[2]), vec!["1", "1", "0"]);
    assert_eq!(m.t0, vec![0, 0]);
    assert_eq!(m.t1, vec![1, 2]);
    assert_eq!(m.t2, vec![2, 3]);
}

#[test]
fn crlf_lines_and_extra_whitespace() {
    let s = "h1\r\nh2\r\nh3\r\nh4\r\n  POINTS\t+3 float\r\n0.5 -1e3\r\n 2  3 \r\n4\u{a0}5\r\nCELLS 1 4\r\n3 2 1 0";
    let text = chars(s);
    let m = parse_tri_mesh_text(&text).expect("well-formed");
    assert_eq!(field_texts(&text, &m.point_fields[0]), vec!["0.5", "-1e3"]);
    assert_eq!(field_texts(&text, &m.point_fields[1]), vec!["2", "3"]);
    // A no-break space separates fields as `split_whitespace` does.
    assert_eq!(field_texts(&text, &m.point_fields[2]), vec!["4", "5"]);
    assert_eq!((m.t0, m.t1, m.t2), (vec![2], vec![1], vec![0]));
}

#[test]
fn empty_mesh_sections() {
    let text = chars("a\nb\nc\nd\nPOINTS 0 double\nCELLS 0 0\n");
    let m = parse_tri_mesh_text(&text).expect("well-formed");
    assert!(m.point_fields.is_empty());
    assert!(m.t0.is_empty());
}

#[test]
fn malformed_texts_are_refused() {
    // Missing header lines.
    assert!(parse_tri_mesh_text(&chars("a\nb\nc\n")).is_none());
    // Count that is not a number.
    assert!(parse_tri_mesh_text(&chars("a\nb\nc\nd\nPOINTS x double\n")).is_none());
    // Negative count.
    assert!(parse_tri_mesh_text(&chars("a\nb\nc\nd\nPOINTS -1 double\nCELLS 0 0\n")).is_none());
    // Fewer point lines than declared.
    assert!(parse_tri_mesh_text(&chars("a\nb\nc\nd\nPOINTS 2 double\n0 0\nCELLS 0 0\n")).is_none());
    // Point line with one field.
    assert!(parse_tri_mesh_text(&chars("a\nb\nc\nd\nPOINTS 1 double\n7\nCELLS 0 0\n")).is_none());
    // Cell that is not a triangle.
    assert!(parse_tri_mesh_text(&chars("a\nb\nc\nd\nPOINTS 0 double\nCELLS 1 5\n4 0 1 2 3\n")).is_none());
    // Cell with too few corners.
    assert!(parse_tri_mesh_text(&chars("a\nb\nc\nd\nPOINTS 0 double\nCELLS 1 3\n3 0 1\n")).is_none());
    // Corner that is not a number.
    assert!(parse_tri_mesh_text(&chars("a\nb\nc\nd\nPOINTS 0 double\nCELLS 1 4\n3 0 1 z\n")).is_none());
    // Count too large for usize.
    assert!(parse_tri_mesh_text(&chars("a\nb\nc\nd\nPOINTS 99999999999999999999999 d\n")).is_none());
    // Missing cell lines.
    assert!(parse_tri_mesh_text(&chars("a\nb\nc\nd\nPOINTS 0 double\nCELLS 2 8\n3 0 1 2\n")).is_none());
}

#[test]
fn trailing_newline_adds_no_line() {
    // The cells header is the sixth line; a final newline does not add an
    // empty seventh line that could be read as a cell.
    assert!(parse_tri_mesh_text(&chars("a\nb\nc\nd\nPOINTS 0 d\nCELLS 1 4\n")).is_none());
    assert!(parse_tri_mesh_text(&chars("a\nb\nc\nd\nPOINTS 0 d\nCELLS 1 4\n3 0 0 0")).is_some());
}
