use quick_renderer::meshio::{
    format_index, parse_corner, parse_index, split_bytes, CornerText, MeshIO, MeshIOError,
};

const SAMPLE: [&str; 20] = [
    "# a pyramid without a base",
    "o Pyramid",
    "v 0.778921 1.572047 -0.878382",
    "v 1.0 0.0 0.0",
    "v 0.0 1.0 0.0",
    "v -1 0 0",
    "v 0 -1 0",
    "vt 0.0 0.0",
    "vt 1.0 0.0",
    "vt 0.5 1.0",
    "vt 0.25 0.25",
    "vt 0.75 0.25",
    "vt 0.5 0.75",
    "vn 0.0 0.0 1.0",
    "vn 0.0 1.0 0.0",
    "s off",
    "f 1/1/1 2/2/1 3/3/1",
    "f 1/4/2 3/5/2 4/6/2",
    "l 4 5",
    "",
];

fn text(bytes: &[u8]) -> &str {
    std::str::from_utf8(bytes).unwrap()
}

#[test]
fn reads_a_file() {
    let data = MeshIO::from_lines(&SAMPLE).unwrap();
    assert_eq!(data.positions.len(), 5);
    assert_eq!(data.uvs.len(), 6);
    assert_eq!(data.normals.len(), 2);
    assert_eq!(data.face_indices.len(), 2);
    assert_eq!(data.face_indices[0].len(), 3);
    let first: Vec<&str> = data.positions[0].iter().map(|n| text(n)).collect();
    assert_eq!(first, vec!["0.778921", "1.572047", "-0.878382"]);
    assert_eq!(data.line_indices.len(), 1);
    assert_eq!(data.line_indices[0].len(), 2);
    assert_eq!(data.line_indices[0], vec![3, 4]);
    assert_eq!(data.face_indices[0], vec![(0, 0, 0), (1, 1, 0), (2, 2, 0)]);
    assert_eq!(data.face_indices[1], vec![(0, 3, 1), (2, 4, 1), (3, 5, 1)]);
    assert!(data.face_has_uv);
    assert!(data.face_has_normal);
    assert_eq!(data.uvs[2].len(), 2);
    assert_eq!(text(&data.uvs[2][1]), "1.0");
}

#[test]
fn corner_forms() {
    let data = MeshIO::from_lines(&["f 1 2 3"]).unwrap();
    let m = usize::MAX;
    assert_eq!(data.face_indices[0], vec![(0, m, m), (1, m, m), (2, m, m)]);
    assert!(!data.face_has_uv && !data.face_has_normal);
    let data = MeshIO::from_lines(&["f 1/4 2/5 3/6"]).unwrap();
    assert_eq!(data.face_indices[0], vec![(0, 3, m), (1, 4, m), (2, 5, m)]);
    assert!(data.face_has_uv && !data.face_has_normal);
    let data = MeshIO::from_lines(&["f 1//7 2//8 3//9 +4//10"]).unwrap();
    assert_eq!(
        data.face_indices[0],
        vec![(0, m, 6), (1, m, 7), (2, m, 8), (3, m, 9)]
    );
    assert!(data.face_has_uv && data.face_has_normal);
    assert!(matches!(
        parse_corner(&b"3/4/5".to_vec()),
        CornerText::Good((2, 3, 4), true, true)
    ));
    assert!(matches!(parse_corner(&b"0".to_vec()), CornerText::Broken));
    assert!(matches!(parse_corner(&b"1/x".to_vec()), CornerText::Broken));
    assert!(matches!(parse_corner(&b"1/2/".to_vec()), CornerText::Broken));
    assert!(matches!(
        parse_corner(&b"1/2/3/4".to_vec()),
        CornerText::TooMany
    ));
}

#[test]
fn invalid_file() {
    match MeshIO::from_lines(&["v 1 2 3", "f 1/1/1/1 2/2/2/2 3/3/3/3", "v 4 5 6"]) {
        Err(error) => match error {
            MeshIOError::InvalidFile => (),
            _ => panic!("Should have gotten an invalid file error"),
        },
        Ok(_) => panic!("Should have gotten an invalid file error"),
    }
    // the first invalid line ends the reading, broken lines after it or not
    assert!(matches!(
        MeshIO::try_from_lines(&["f 1 2 3/3/3/3", "v 1 2"]),
        Some(Err(MeshIOError::InvalidFile))
    ));
}

#[test]
fn broken_lines() {
    assert!(MeshIO::try_from_lines(&["v 1 2"]).is_none());
    assert!(MeshIO::try_from_lines(&["v 1 2 3 4"]).is_none());
    assert!(MeshIO::try_from_lines(&["v  1 2 3"]).is_none());
    assert!(MeshIO::try_from_lines(&["vn 1 2"]).is_none());
    assert!(MeshIO::try_from_lines(&["vt 1 2 3"]).is_none());
    assert!(MeshIO::try_from_lines(&["f 1 2"]).is_none());
    assert!(MeshIO::try_from_lines(&["f 1 2 x"]).is_none());
    assert!(MeshIO::try_from_lines(&["f 1 2 0"]).is_none());
    assert!(MeshIO::try_from_lines(&["f 1 2 3/0"]).is_none());
    assert!(MeshIO::try_from_lines(&["f a 2 3/3/3/3"]).is_none());
    assert!(MeshIO::try_from_lines(&["l 1"]).is_none());
    assert!(MeshIO::try_from_lines(&["l 1 -2"]).is_none());
    assert!(MeshIO::try_from_lines(&["l 1 0"]).is_none());
    assert!(MeshIO::try_from_lines(&["v 1 2 3", "l 1 2"]).unwrap().is_ok());
    assert!(MeshIO::try_from_lines(&["#v 1", " v 1", "g x", ""]).unwrap().is_ok());
}

#[test]
fn splitting() {
    let parts = split_bytes(b"a bc  d ", b' ');
    let parts: Vec<&str> = parts.iter().map(|p| text(p)).collect();
    assert_eq!(parts, vec!["a", "bc", "", "d", ""]);
    assert_eq!(split_bytes(b"", b'/'), vec![Vec::<u8>::new()]);
    assert_eq!(split_bytes(b"//", b'/').len(), 3);
}

#[test]
fn indices() {
    assert_eq!(parse_index(&b"0".to_vec()), Some(0));
    assert_eq!(parse_index(&b"007".to_vec()), Some(7));
    assert_eq!(parse_index(&b"+12".to_vec()), Some(12));
    assert_eq!(parse_index(&b"".to_vec()), None);
    assert_eq!(parse_index(&b"+".to_vec()), None);
    assert_eq!(parse_index(&b"-1".to_vec()), None);
    assert_eq!(parse_index(&b"1.0".to_vec()), None);
    assert_eq!(parse_index(&b"12a".to_vec()), None);
    let max = usize::MAX.to_string();
    assert_eq!(parse_index(&max.clone().into_bytes()), Some(usize::MAX));
    let over = format!("{}0", max);
    assert_eq!(parse_index(&over.into_bytes()), None);
    let one_more = "18446744073709551616";
    assert_eq!(parse_index(&one_more.as_bytes().to_vec()), one_more.parse::<usize>().ok());
    for v in [0usize, 9, 10, 99, 100, 12345, usize::MAX] {
        assert_eq!(text(&format_index(v)), v.to_string());
        assert_eq!(parse_index(&format_index(v)), Some(v));
    }
}

#[test]
fn writes_a_file() {
    let data = MeshIO::from_lines(&SAMPLE).unwrap();
    let lines = data.write(Some("obj")).unwrap();
    let lines: Vec<&str> = lines.iter().map(|l| text(l)).collect();
    assert_eq!(
        lines,
        vec![
            "v 0.778921 1.572047 -0.878382",
            "v 1.0 0.0 0.0",
            "v 0.0 1.0 0.0",
            "v -1 0 0",
            "v 0 -1 0",
            "vt 0.0 0.0",
            "vt 1.0 0.0",
            "vt 0.5 1.0",
            "vt 0.25 0.25",
            "vt 0.75 0.25",
            "vt 0.5 0.75",
            "vn 0.0 0.0 1.0",
            "vn 0.0 1.0 0.0",
            "f 1/1/1 2/2/1 3/3/1",
            "f 1/4/2 3/5/2 4/6/2",
            "l 4 5",
        ]
    );
    // what is written reads back as the same mesh
    let again = MeshIO::from_lines(&lines).unwrap();
    assert_eq!(again.positions, data.positions);
    assert_eq!(again.uvs, data.uvs);
    assert_eq!(again.normals, data.normals);
    assert_eq!(again.face_indices, data.face_indices);
    assert_eq!(again.line_indices, data.line_indices);
    assert!(matches!(data.write(Some("stl")), Err(MeshIOError::Unknown)));
    assert!(matches!(data.write(None), Err(MeshIOError::Unknown)));
}

#[test]
fn reads_by_extension() {
    let data = MeshIO::read(Some("obj"), &SAMPLE).unwrap();
    assert_eq!(data.positions.len(), 5);
    assert!(matches!(
        MeshIO::read(Some("ply"), &SAMPLE),
        Err(MeshIOError::Unknown)
    ));
    assert!(matches!(
        MeshIO::read(Some("OBJ"), &SAMPLE),
        Err(MeshIOError::Unknown)
    ));
    assert!(matches!(MeshIO::read(None, &SAMPLE), Err(MeshIOError::Unknown)));
    let empty = MeshIO::new();
    assert!(empty.positions.is_empty() && empty.face_indices.is_empty());
    assert!(!empty.face_has_uv && !empty.face_has_normal);
    assert_eq!(empty.write(Some("obj")).unwrap().len(), 0);
}

// The three files of these tests are kept as lines.

#[test]
fn meshreader_read_obj_test_01() {
    let data = MeshIO::read(Some("obj"), &SAMPLE).unwrap();
    assert_eq!(data.positions.len(), 5);
    assert_eq!(data.uvs.len(), 6);
    assert_eq!(data.normals.len(), 2);
    assert_eq!(data.face_indices.len(), 2);
    assert_eq!(data.face_indices[0].len(), 3);
    let first: Vec<f64> = data.positions[0]
        .iter()
        .map(|n| text(n).parse().unwrap())
        .collect();
    assert_eq!(first, vec![0.778921, 1.572047, -0.878382]);
    assert_eq!(data.line_indices.len(), 1);
    assert_eq!(data.line_indices[0].len(), 2);
}

#[test]
fn meshreader_read_obj_test_02() {
    let lines = ["v 0 0 0", "v 1 0 0", "v 0 1 0", "f 1/1/1/1 2/2/2/2 3/3/3/3"];
    match MeshIO::read(Some("obj"), &lines) {
        Err(error) => match error {
            MeshIOError::InvalidFile => (),
            _ => panic!("Should have gotten an invalid file error"),
        },
        Ok(_) => panic!("Should have gotten an invalid file error"),
    }
}

#[test]
fn meshreader_read_obj_test_03() {
    let lines = [
        "# a square",
        "v -1 0 -1",
        "v 1 0 -1",
        "v 1 0 1",
        "v -1 0 1",
        "vn 0 1 0",
        "f 1//1 2//1 3//1 4//1",
    ];
    MeshIO::read(Some("obj"), &lines).unwrap();
}
