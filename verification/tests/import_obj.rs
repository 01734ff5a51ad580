use raylib::util::import::from_obj;
use raylib::util::import::obj::{absorb, Corner, Face, MeshData, ObjError, ObjErrorKind, Pair, Triple};
use raylib::util::text::{find_byte, get_field, next_word, skip_spaces, skip_word};

fn triple(x: &str, y: &str, z: &str) -> Triple {
    Triple { x: x.as_bytes().to_vec(), y: y.as_bytes().to_vec(), z: z.as_bytes().to_vec() }
}

fn pair(u: &str, v: &str) -> Pair {
    Pair { u: u.as_bytes().to_vec(), v: v.as_bytes().to_vec() }
}

fn corner(position: usize, tex_coord: Option<usize>, normal: usize) -> Corner {
    Corner { position, tex_coord, normal }
}

fn refused(line: usize, kind: ObjErrorKind) -> Result<MeshData, ObjError> {
    Err(ObjError { line, kind })
}

const SQUARE: &str = "# a square of two triangles\n\
v 0 0 0\n\
v 1.0 0 0\n\
v 1.0 1.0 0\r\n\
v 0 1e0 -0.0\n\
\n\
vt 0 0\n\
vt 1 0\n\
vt 1 1\n\
vt 0 1\n\
vn 0 0 1\n\
g square\n\
usemtl none\n\
f 1/1/1 2/2/1 3/3/1\n\
f 1/1/1 3/3/1 4/4/1 2/2/1";

#[test]
fn reads_positions_normals_texture_coordinates_and_faces() {
    let mesh = from_obj(SQUARE.as_bytes()).unwrap();
    assert_eq!(
        mesh.positions,
        vec![triple("0", "0", "0"), triple("1.0", "0", "0"), triple("1.0", "1.0", "0"), triple("0", "1e0", "-0.0")]
    );
    assert_eq!(mesh.tex_coords, vec![pair("0", "0"), pair("1", "0"), pair("1", "1"), pair("0", "1")]);
    assert_eq!(mesh.normals, vec![triple("0", "0", "1")]);
    assert_eq!(
        mesh.faces,
        vec![
            Face { a: corner(0, Some(0), 0), b: corner(1, Some(1), 0), c: corner(2, Some(2), 0) },
            Face { a: corner(0, Some(0), 0), b: corner(2, Some(2), 0), c: corner(3, Some(3), 0) },
        ]
    );
}

#[test]
fn face_without_texture_indices_is_untextured() {
    let mesh = from_obj(b"v 0 0 0\nv 1 0 0\nv 0 1 0\nvn 0 0 1\nvn 0 0 -1\nf 1//1 2//2 3//1\n").unwrap();
    assert_eq!(
        mesh.faces,
        vec![Face { a: corner(0, None, 0), b: corner(1, None, 1), c: corner(2, None, 0) }]
    );
    assert!(mesh.tex_coords.is_empty());
}

#[test]
fn first_corner_decides_whether_a_face_is_textured() {
    let text = b"v 0 0 0\nvt 0 0\nvn 0 0 1\nf 1//1 1/1/1 1/9/1\n";
    let mesh = from_obj(text).unwrap();
    assert_eq!(mesh.faces, vec![Face { a: corner(0, None, 0), b: corner(0, None, 0), c: corner(0, None, 0) }]);
    let text = b"v 0 0 0\nvt 0 0\nvn 0 0 1\nf 1/1/1 1//1 1/1/1\n";
    assert_eq!(from_obj(text), refused(4, ObjErrorKind::MissingIndex));
    let text = b"v 0 0 0\nvt 0 0\nvn 0 0 1\nf 1/x/1 1/1/1 1/1/1\n";
    assert_eq!(from_obj(text).unwrap().faces[0].a.tex_coord, None);
}

#[test]
fn empty_text_is_an_empty_mesh() {
    let empty = MeshData { positions: vec![], tex_coords: vec![], normals: vec![], faces: vec![] };
    assert_eq!(from_obj(b""), Ok(empty.clone()));
    assert_eq!(from_obj(b"\n\n  \t \r\n# nothing\no name\n"), Ok(empty.clone()));
    assert_eq!(from_obj(b"vx 1 2 3\nvtt 1\nff 1 2 3\nV 1 2 3\n"), Ok(empty));
}

#[test]
fn numbers_beyond_the_needed_ones_are_not_read() {
    let mesh = from_obj(b"v 1 2 3 4 5\nvt 0.5 0.25 0\nvn 1 2 3 4").unwrap();
    assert_eq!(mesh.positions, vec![triple("1", "2", "3")]);
    assert_eq!(mesh.tex_coords, vec![pair("0.5", "0.25")]);
    assert_eq!(mesh.normals, vec![triple("1", "2", "3")]);
}

#[test]
fn line_with_too_few_fields_is_refused() {
    assert_eq!(from_obj(b"v 1 2\n"), refused(1, ObjErrorKind::MissingField));
    assert_eq!(from_obj(b"v 1 2 3\nv\n"), refused(2, ObjErrorKind::MissingField));
    assert_eq!(from_obj(b"\n\nvt 1\n"), refused(3, ObjErrorKind::MissingField));
    assert_eq!(from_obj(b"vn 1 2"), refused(1, ObjErrorKind::MissingField));
    assert_eq!(from_obj(b"v 0 0 0\nvn 0 0 1\nf 1//1 1//1\n"), refused(3, ObjErrorKind::MissingField));
    assert_eq!(from_obj(b"f\n"), refused(1, ObjErrorKind::MissingField));
}

#[test]
fn corner_without_an_index_is_refused() {
    let head = "v 0 0 0\nvt 0 0\nvn 0 0 1\n";
    for face in ["f 1 1 1", "f 1/1 1/1 1/1", "f /1/1 1/1/1 1/1/1", "f 1/1/ 1/1/1 1/1/1", "f 1/1/1 1/1/1 1/1/x", "f 1/1/1 x/1/1 1/1/1", "f 1//1 1 1//1", "f 1/1/1 1/-1/1 1/1/1"] {
        let text = format!("{}{}\n", head, face);
        assert_eq!(from_obj(text.as_bytes()), refused(4, ObjErrorKind::MissingIndex), "{}", face);
    }
}

#[test]
fn index_out_of_range_is_refused() {
    let head = "v 0 0 0\nvt 0 0\nvn 0 0 1\n";
    for face in ["f 2/1/1 1/1/1 1/1/1", "f 1/2/1 1/1/1 1/1/1", "f 1/1/2 1/1/1 1/1/1", "f 0/1/1 1/1/1 1/1/1", "f 1/0/1 1/1/1 1/1/1", "f 1/1/1 1/1/1 1/1/0", "f 1/1/1 1/1/1 18446744073709551615/1/1"] {
        let text = format!("{}{}\n", head, face);
        assert_eq!(from_obj(text.as_bytes()), refused(4, ObjErrorKind::IndexOutOfRange), "{}", face);
    }
}

#[test]
fn face_may_only_name_what_came_before() {
    assert_eq!(
        from_obj(b"vn 0 0 1\nv 0 0 0\nf 1//1 2//1 1//1\nv 1 1 1\n"),
        refused(3, ObjErrorKind::IndexOutOfRange)
    );
    let mesh = from_obj(b"vn 0 0 1\nv 0 0 0\nv 1 1 1\nf 1//1 2//1 +1//+1\n").unwrap();
    assert_eq!(mesh.faces, vec![Face { a: corner(0, None, 0), b: corner(1, None, 0), c: corner(0, None, 0) }]);
}

#[test]
fn refused_line_leaves_the_mesh_as_it_was() {
    let mut mesh = from_obj(b"v 0 0 0\nvn 0 0 1\n").unwrap();
    let before = mesh.clone();
    assert_eq!(absorb(&mut mesh, b"f 1//1 1//1 2//1"), Err(ObjErrorKind::IndexOutOfRange));
    assert_eq!(mesh, before);
    assert_eq!(absorb(&mut mesh, b"v 1 2"), Err(ObjErrorKind::MissingField));
    assert_eq!(mesh, before);
    assert_eq!(absorb(&mut mesh, b"  f   1//1\t1//1 1//1  "), Ok(()));
    assert_eq!(mesh.faces.len(), 1);
    assert_eq!(absorb(&mut mesh, b""), Ok(()));
    assert_eq!(absorb(&mut mesh, b"# v 1 2 3"), Ok(()));
    assert_eq!(mesh.positions.len(), 1);
}

#[test]
fn words_and_fields_are_split() {
    let line = b"  f 1/2/3\t4//6 \r";
    assert_eq!(skip_spaces(line, 0), 2);
    assert_eq!(skip_word(line, 2), 3);
    assert_eq!(find_byte(line, 0, b'/'), 5);
    assert_eq!(find_byte(line, 6, b'/'), 7);
    assert_eq!(find_byte(line, 0, b'#'), line.len());
    let (word, rest) = next_word(line, 0).unwrap();
    assert_eq!((word, rest), (&b"f"[..], 3));
    let (word, rest) = next_word(line, rest).unwrap();
    assert_eq!((word, rest), (&b"1/2/3"[..], 9));
    assert_eq!(get_field(word, 0), Some(&b"1"[..]));
    assert_eq!(get_field(word, 2), Some(&b"3"[..]));
    assert_eq!(get_field(word, 3), None);
    let (word, rest) = next_word(line, rest).unwrap();
    assert_eq!((word, rest), (&b"4//6"[..], 14));
    assert_eq!(get_field(word, 1), Some(&b""[..]));
    assert_eq!(next_word(line, rest), None);
    assert_eq!(get_field(b"", 0), Some(&b""[..]));
    assert_eq!(get_field(b"", 1), None);
    assert_eq!(get_field(b"/", 1), Some(&b""[..]));
}

#[test]
fn coordinate_that_is_no_number_is_refused() {
    assert_eq!(from_obj(b"v 1 2 x\n"), refused(1, ObjErrorKind::BadNumber));
    assert_eq!(from_obj(b"v 1 2 3\nv 1,5 2 3\n"), refused(2, ObjErrorKind::BadNumber));
    assert_eq!(from_obj(b"vt 0.5 0.5.5\n"), refused(1, ObjErrorKind::BadNumber));
    assert_eq!(from_obj(b"vn 0 1e 0\n"), refused(1, ObjErrorKind::BadNumber));
    assert_eq!(from_obj(b"vn 0 0\n"), refused(1, ObjErrorKind::MissingField));
    let mesh = from_obj(b"v 1 2 3 x\nv -1.5e3 +.5 1.\nvt inf NaN junk\n").unwrap();
    assert_eq!(mesh.positions, vec![triple("1", "2", "3"), triple("-1.5e3", "+.5", "1.")]);
    assert_eq!(mesh.tex_coords, vec![pair("inf", "NaN")]);
    for t in mesh.positions.iter() {
        for text in [&t.x, &t.y, &t.z] {
            assert!(std::str::from_utf8(text).unwrap().parse::<f64>().is_ok());
        }
    }
}
