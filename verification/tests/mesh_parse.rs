use renderer::{Mesh, MeshError};

fn coords(mesh: &Mesh, i: usize) -> Vec<f32> {
    mesh.positions[i].position.iter().map(|s| s.parse::<f32>().unwrap()).collect()
}

#[test]
fn parse_single_vertex() {
    let obj = r#"v 1.0 2.0 3.0"#;

    let mesh = Mesh::parse(obj);

    assert!(mesh.is_ok());

    let mesh = mesh.unwrap();

    assert_eq!(mesh.positions.len(), 1);
    assert_eq!(coords(&mesh, 0), vec![1.0, 2.0, 3.0]);
}

#[test]
fn parse_simple_face() {
    let obj = r#"
        v 0.0 0.0 0.0
        v 1.0 0.0 0.0
        v 0.0 1.0 0.0

        f 1 2 3
        "#;

    let mesh = Mesh::parse(obj);
    assert!(mesh.is_ok());

    let mesh = mesh.unwrap();

    assert_eq!(mesh.indices.len(), 3);
    assert_eq!(mesh.positions.len(), 3);

    assert_eq!(mesh.indices[0], 0);
    assert_eq!(mesh.indices[1], 1);
    assert_eq!(mesh.indices[2], 2);
}

#[test]
fn parse_normals_face() {
    let obj = r#"
        v 0.0 0.0 0.0
        v 1.0 0.0 0.0
        v 0.0 1.0 0.0

        f 1//1 2//1 3//1
        "#;

    let mesh = Mesh::parse(obj);
    assert!(mesh.is_ok());

    let mesh = mesh.unwrap();

    assert_eq!(mesh.indices.len(), 3);
    assert_eq!(mesh.positions.len(), 3);

    assert_eq!(mesh.indices[0], 0);
    assert_eq!(mesh.indices[1], 1);
    assert_eq!(mesh.indices[2], 2);
}

#[test]
fn ignores_comments() {
    let obj = r#"
        v 0.0 0.0 0.0
        # comment
        v 1.0 0.0 0.0
        v 0.0 1.0 0.0
        # another comment
        f 1 2 3
        "#;

    let mesh = Mesh::parse(obj);
    assert!(mesh.is_ok());

    let mesh = mesh.unwrap();

    assert_eq!(mesh.indices.len(), 3);
    assert_eq!(mesh.positions.len(), 3);

    assert_eq!(mesh.indices[0], 0);
    assert_eq!(mesh.indices[1], 1);
    assert_eq!(mesh.indices[2], 2);
}

#[test]
fn vertex_texts_kept_as_written() {
    let mesh = Mesh::parse("v -1.5e2 +0.25 7\n").unwrap();
    assert_eq!(mesh.positions.len(), 1);
    assert_eq!(mesh.positions[0].position, ["-1.5e2".to_string(), "+0.25".to_string(), "7".to_string()]);
    assert_eq!(coords(&mesh, 0), vec![-150.0, 0.25, 7.0]);
}

#[test]
fn short_vertex_record_skipped() {
    let mesh = Mesh::parse("v 1 2\nv 3 4 5 6\n").unwrap();
    assert_eq!(mesh.positions.len(), 1);
    assert_eq!(coords(&mesh, 0), vec![3.0, 4.0, 5.0]);
}

#[test]
fn face_stops_at_unreadable_word() {
    let mesh = Mesh::parse("f 4 +5 x 6\nf 7/1/2\n").unwrap();
    assert_eq!(mesh.indices, vec![3, 4, 6]);
}

#[test]
fn other_records_and_tabs() {
    let text = "vn 0 0 1\n\tv\t1 2 3 \r\nvt 0 0\n  f  1  \r\n#v 9 9 9\nf -1 2\n";
    let mesh = Mesh::parse(text).unwrap();
    assert_eq!(mesh.positions.len(), 1);
    assert_eq!(mesh.indices, vec![0]);
}

#[test]
fn zero_index_detected() {
    assert!(Mesh::has_zero_index("v 1 2 3\nf 1 0 2\n"));
    assert!(!Mesh::has_zero_index("v 1 2 3\nf 1 x 0\n"));
    assert!(!Mesh::has_zero_index("# f 0\nv 1 2 3\n"));
}

#[test]
fn index_overflow_stops_face() {
    let mesh = Mesh::parse("f 2 99999999999999999999999 3\n").unwrap();
    assert_eq!(mesh.indices, vec![1]);
}

#[test]
fn parse_index_reads_decimal() {
    let word = |s: &str| s.chars().collect::<Vec<char>>();
    assert_eq!(renderer::mesh::parse_index(&word("42")), Some(42));
    assert_eq!(renderer::mesh::parse_index(&word("+7")), Some(7));
    assert_eq!(renderer::mesh::parse_index(&word("+")), None);
    assert_eq!(renderer::mesh::parse_index(&word("")), None);
    assert_eq!(renderer::mesh::parse_index(&word("-1")), None);
    assert_eq!(renderer::mesh::parse_index(&word("007")), Some(7));
    assert_eq!(renderer::mesh::parse_index(&word("1a")), None);
}

#[test]
fn white_space_set() {
    assert!(renderer::mesh::is_white_space(' '));
    assert!(renderer::mesh::is_white_space('\u{3000}'));
    assert!(!renderer::mesh::is_white_space('\u{200b}'));
    for c in ['\t', '\n', '\u{0b}', '\u{0c}', '\r', '\u{85}', '\u{a0}', '\u{1680}', '\u{2000}', '\u{200a}', '\u{2028}', '\u{2029}', '\u{202f}', '\u{205f}', 'a', '#', '\u{180e}'] {
        assert_eq!(renderer::mesh::is_white_space(c), c.is_whitespace(), "{:?}", c);
    }
}

#[test]
fn missing_data_error_kind() {
    assert_ne!(MeshError::MissingData, MeshError::InvalidIndex);
}

#[test]
fn unreadable_vertex_records_skipped() {
    let text = "v 1.0 2.0\nv 4.0 5.0 6.0\nv a b c";
    let mesh = Mesh::parse(text);
    assert!(mesh.is_ok());
    let mesh = mesh.unwrap();
    assert_eq!(mesh.positions.len(), 1);
    assert_eq!(coords(&mesh, 0), vec![4.0, 5.0, 6.0]);
    assert!(mesh.indices.is_empty());
}

#[test]
fn vertex_records_with_special_numbers() {
    let mesh = Mesh::parse("v inf -NaN +Infinity\nv 1e 2 3\nv .5 5. -1E+3\nv 1 2 x 4\n").unwrap();
    assert_eq!(mesh.positions.len(), 2);
    assert_eq!(coords(&mesh, 1), vec![0.5, 5.0, -1000.0]);
}

#[test]
fn float_literal_matches_std() {
    let long = "9".repeat(60);
    let words = [
        "1", "1.", ".5", ".", "", "+", "-", "+1", "-1.5e3", "1e", "1e+", "1e-7", "1E5", "e5", "1.2.3", "1e5e",
        "inf", "INF", "-inf", "infinity", "Infinity", "infin", "nan", "NaN", "-nan", "+nAn", "nana", "0x10",
        "1_000", "12abc", "007", "00.00", "1.e5", ".e5", "++1", "+-1", "1e+-2", "\u{664}", long.as_str(),
        "1e400", "-0",
    ];
    for w in words {
        let chars: Vec<char> = w.chars().collect();
        assert_eq!(renderer::mesh::is_float_literal(&chars), w.parse::<f32>().is_ok(), "{:?}", w);
    }
}

fn same_mesh(a: &str, b: &str) {
    let ma = Mesh::parse(a).unwrap();
    let mb = Mesh::parse(b).unwrap();
    let pa: Vec<_> = ma.positions.iter().map(|v| v.position.clone()).collect();
    let pb: Vec<_> = mb.positions.iter().map(|v| v.position.clone()).collect();
    assert_eq!(pa, pb);
    assert_eq!(ma.indices, mb.indices);
}

#[test]
fn comment_lines_removed_anywhere() {
    let plain = "v 1 2 3\nv 4 5 6\nf 1 2";
    same_mesh("# head\nv 1 2 3\nv 4 5 6\nf 1 2", plain);
    same_mesh("v 1 2 3\n   \nv 4 5 6\n#f 9\nf 1 2", plain);
    same_mesh("v 1 2 3\nv 4 5 6\nf 1 2\n# tail", plain);
}

#[test]
fn line_padding_ignored() {
    same_mesh(" \t v 1 2 3\u{3000}\nf\t1 1  \r\n", "v 1 2 3\nf 1 1\n");
}
