use rustrast::obj::{parse_vertex_line, read_vertex_records, split_tokens, LoadError, VertexFields, VertexLine};

fn lines_of(text: &str) -> Vec<Vec<u8>> {
    text.lines().map(|l| l.as_bytes().to_vec()).collect()
}

fn text(b: &[u8]) -> &str {
    std::str::from_utf8(b).unwrap()
}

#[test]
fn vertex_and_other_lines() {
    let lines = lines_of("v 1.0 2.0 3.0\n v 4 5 6 0.5\n f 1 2 3\n# comment");
    let vs: Vec<VertexFields> = read_vertex_records(&lines).unwrap();
    assert_eq!(vs.len(), 2);
    assert_eq!(text(&vs[0].x), "1.0");
    assert_eq!(text(&vs[0].y), "2.0");
    assert_eq!(text(&vs[0].z), "3.0");
    assert!(vs[0].w.is_none());
    assert_eq!(text(&vs[1].x), "4");
    assert_eq!(text(&vs[1].y), "5");
    assert_eq!(text(&vs[1].z), "6");
    assert_eq!(text(vs[1].w.as_ref().unwrap()), "0.5");
}

#[test]
fn two_fields_is_a_load_error() {
    let lines = lines_of("v 1 2 3\nv 1.0 2.0\nv 4 5 6");
    assert_eq!(read_vertex_records(&lines).err(), Some(LoadError::TooFewFields { line: 1 }));
}

#[test]
fn bare_v_is_a_load_error() {
    let lines = lines_of("v");
    assert_eq!(read_vertex_records(&lines).err(), Some(LoadError::TooFewFields { line: 0 }));
}

#[test]
fn empty_text_has_no_vertices() {
    let lines: Vec<Vec<u8>> = Vec::new();
    assert_eq!(read_vertex_records(&lines).unwrap().len(), 0);
}

#[test]
fn first_token_must_be_exactly_v() {
    assert!(matches!(parse_vertex_line(b"vn 0 0 1"), VertexLine::Ignored));
    assert!(matches!(parse_vertex_line(b"vt 0.5 0.5"), VertexLine::Ignored));
    assert!(matches!(parse_vertex_line(b""), VertexLine::Ignored));
    assert!(matches!(parse_vertex_line(b"   \t "), VertexLine::Ignored));
    assert!(matches!(parse_vertex_line(b"x v 1 2 3"), VertexLine::Ignored));
    assert!(matches!(parse_vertex_line(b"\tv 1 2"), VertexLine::TooFewFields));
}

#[test]
fn fields_past_the_fourth_are_ignored() {
    match parse_vertex_line(b"v\t-1e3  2\t3 4 5 6\r") {
        VertexLine::Vertex(f) => {
            assert_eq!(text(&f.x), "-1e3");
            assert_eq!(text(&f.y), "2");
            assert_eq!(text(&f.z), "3");
            assert_eq!(text(f.w.as_ref().unwrap()), "4");
        }
        _ => panic!("not a vertex"),
    }
}

#[test]
fn tokens_are_maximal_runs() {
    let ts = split_tokens(b"  ab c\t\tdef  ");
    let ts: Vec<&str> = ts.iter().map(|t| text(t)).collect();
    assert_eq!(ts, vec!["ab", "c", "def"]);
    assert!(split_tokens(b"").is_empty());
    assert!(split_tokens(b" \t\r\n\x0b\x0c").is_empty());
}

#[test]
fn non_numeric_fields_are_passed_on_as_text() {
    match parse_vertex_line(b"v a b c") {
        VertexLine::Vertex(f) => {
            assert_eq!(text(&f.x), "a");
            assert!(text(&f.x).parse::<f32>().is_err());
        }
        _ => panic!("not a vertex"),
    }
}
