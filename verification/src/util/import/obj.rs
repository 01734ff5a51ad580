//! Reading meshes from Wavefront OBJ text.

use crate::util::decimal::{is_float, is_float_text, parse_usize, parsed_usize};
use crate::util::text::{field, find_byte, get_field, next_byte, next_word, words, words_from, LINE_FEED};
use vstd::prelude::*;
use vstd::slice::{slice_subrange, slice_to_vec};

verus! {

/// One corner of a triangle: where its position, its normal and, on a
/// textured face, its texture coordinates stand in the lists of the mesh.
/// Indices count from 0.
#[derive(Clone, Copy, Debug, PartialEq, Eq)]
pub struct Corner {
    pub position: usize,
    pub tex_coord: Option<usize>,
    pub normal: usize,
}

/// A triangle, as three corners in the order of the file.
#[derive(Clone, Copy, Debug, PartialEq, Eq)]
pub struct Face {
    pub a: Corner,
    pub b: Corner,
    pub c: Corner,
}

/// Three numbers as the file writes them.
#[derive(Clone, Debug, PartialEq, Eq)]
pub struct Triple {
    pub x: Vec<u8>,
    pub y: Vec<u8>,
    pub z: Vec<u8>,
}

/// Two numbers as the file writes them.
#[derive(Clone, Debug, PartialEq, Eq)]
pub struct Pair {
    pub u: Vec<u8>,
    pub v: Vec<u8>,
}

/// What an OBJ file says of a mesh. Numbers are kept as their text, which is
/// known to be the text of a floating-point number: turning it into one is
/// left to the caller.
#[derive(Clone, Debug, PartialEq, Eq)]
pub struct MeshData {
    pub positions: Vec<Triple>,
    pub tex_coords: Vec<Pair>,
    pub normals: Vec<Triple>,
    pub faces: Vec<Face>,
}

/// Why a line of an OBJ file was refused.
#[derive(Clone, Copy, Debug, PartialEq, Eq)]
pub enum ObjErrorKind {
    /// A `v` or `vn` line with fewer than three numbers, a `vt` line with
    /// fewer than two, or an `f` line with fewer than three corners.
    MissingField,
    /// A coordinate that is not a floating-point number as `str::parse`
    /// takes it.
    BadNumber,
    /// A corner without a position or normal index, or, on a textured face,
    /// without a texture index.
    MissingIndex,
    /// An index that is 0 or beyond what the file has defined so far.
    IndexOutOfRange,
}

/// A refused line, counted from 1, and the reason.
#[derive(Clone, Copy, Debug, PartialEq, Eq)]
pub struct ObjError {
    pub line: usize,
    pub kind: ObjErrorKind,
}

/// The mathematical content of a [`MeshData`].
pub struct MeshText {
    pub positions: Seq<(Seq<u8>, Seq<u8>, Seq<u8>)>,
    pub tex_coords: Seq<(Seq<u8>, Seq<u8>)>,
    pub normals: Seq<(Seq<u8>, Seq<u8>, Seq<u8>)>,
    pub faces: Seq<Face>,
}

impl View for Triple {
    type V = (Seq<u8>, Seq<u8>, Seq<u8>);

    open spec fn view(&self) -> Self::V {
        (self.x@, self.y@, self.z@)
    }
}

impl View for Pair {
    type V = (Seq<u8>, Seq<u8>);

    open spec fn view(&self) -> Self::V {
        (self.u@, self.v@)
    }
}

impl View for MeshData {
    type V = MeshText;

    open spec fn view(&self) -> MeshText {
        MeshText {
            positions: self.positions@.map_values(|t: Triple| t@),
            tex_coords: self.tex_coords@.map_values(|p: Pair| p@),
            normals: self.normals@.map_values(|t: Triple| t@),
            faces: self.faces@,
        }
    }
}

impl MeshText {
    /// A mesh with nothing in it.
    pub open spec fn empty() -> MeshText {
        MeshText {
            positions: Seq::empty(),
            tex_coords: Seq::empty(),
            normals: Seq::empty(),
            faces: Seq::empty(),
        }
    }

    /// Whether a corner points at entries that exist.
    pub open spec fn holds(self, c: Corner) -> bool {
        &&& c.position < self.positions.len()
        &&& c.normal < self.normals.len()
        &&& c.tex_coord matches Some(t) ==> t < self.tex_coords.len()
    }

    /// Whether three texts are numbers.
    pub open spec fn numbers3(t: (Seq<u8>, Seq<u8>, Seq<u8>)) -> bool {
        is_float_text(t.0) && is_float_text(t.1) && is_float_text(t.2)
    }

    /// Whether two texts are numbers.
    pub open spec fn numbers2(t: (Seq<u8>, Seq<u8>)) -> bool {
        is_float_text(t.0) && is_float_text(t.1)
    }

    /// Every coordinate is the text of a number, every corner of every face
    /// points at entries that exist, and a face is textured at all three
    /// corners or at none.
    pub open spec fn well_formed(self) -> bool {
        &&& forall|i: int| 0 <= i < self.positions.len() ==> MeshText::numbers3(#[trigger] self.positions[i])
        &&& forall|i: int| 0 <= i < self.normals.len() ==> MeshText::numbers3(#[trigger] self.normals[i])
        &&& forall|i: int| 0 <= i < self.tex_coords.len() ==> MeshText::numbers2(#[trigger] self.tex_coords[i])
        &&& forall|i: int|
            0 <= i < self.faces.len() ==> {
                let f = #[trigger] self.faces[i];
                &&& self.holds(f.a)
                &&& self.holds(f.b)
                &&& self.holds(f.c)
                &&& f.a.tex_coord.is_some() == f.b.tex_coord.is_some()
                &&& f.a.tex_coord.is_some() == f.c.tex_coord.is_some()
            }
    }
}

/// The keyword of a position line.
pub open spec fn keyword_position() -> Seq<u8> {
    seq![118u8]
}

/// The keyword of a texture coordinate line.
pub open spec fn keyword_tex_coord() -> Seq<u8> {
    seq![118u8, 116u8]
}

/// The keyword of a normal line.
pub open spec fn keyword_normal() -> Seq<u8> {
    seq![118u8, 110u8]
}

/// The keyword of a face line.
pub open spec fn keyword_face() -> Seq<u8> {
    seq![102u8]
}

/// The entry that an index field names in a list of `count` entries. The file
/// counts from 1, the result from 0.
pub open spec fn resolved(text: Option<Seq<u8>>, count: nat) -> Result<usize, ObjErrorKind> {
    match text {
        None => Err(ObjErrorKind::MissingIndex),
        Some(t) => match parsed_usize(t) {
            None => Err(ObjErrorKind::MissingIndex),
            Some(n) => if 1 <= n <= count {
                Ok((n - 1) as usize)
            } else {
                Err(ObjErrorKind::IndexOutOfRange)
            },
        },
    }
}

/// Whether a face is textured. Its first corner decides: the face is textured
/// when that corner's second field is a number.
pub open spec fn textured(word: Seq<u8>) -> Result<bool, ObjErrorKind> {
    match field(word, 1) {
        None => Err(ObjErrorKind::MissingIndex),
        Some(t) => Ok(parsed_usize(t).is_some()),
    }
}

/// The corner that the word `position/texture/normal` names in a mesh.
pub open spec fn corner(word: Seq<u8>, with_texture: bool, m: MeshText) -> Result<
    Corner,
    ObjErrorKind,
> {
    match resolved(field(word, 0), m.positions.len()) {
        Err(e) => Err(e),
        Ok(position) => match resolved(field(word, 1), m.tex_coords.len()) {
            Err(e) if with_texture => Err(e),
            tex => match resolved(field(word, 2), m.normals.len()) {
                Err(e) => Err(e),
                Ok(normal) => Ok(
                    Corner {
                        position,
                        tex_coord: if with_texture {
                            Some(tex->Ok_0)
                        } else {
                            None
                        },
                        normal,
                    },
                ),
            },
        },
    }
}

/// The face that the words of an `f` line name in a mesh. Corners after the
/// third are not read.
pub open spec fn face(w: Seq<Seq<u8>>, m: MeshText) -> Result<Face, ObjErrorKind> {
    if w.len() < 4 {
        Err(ObjErrorKind::MissingField)
    } else {
        match textured(w[1]) {
            Err(e) => Err(e),
            Ok(t) => match corner(w[1], t, m) {
                Err(e) => Err(e),
                Ok(a) => match corner(w[2], t, m) {
                    Err(e) => Err(e),
                    Ok(b) => match corner(w[3], t, m) {
                        Err(e) => Err(e),
                        Ok(c) => Ok(Face { a, b, c }),
                    },
                },
            },
        }
    }
}

/// The mesh after one more line, given by its words. A line adds a position,
/// a texture coordinate, a normal or a face; a line without words or with
/// another keyword adds nothing. Of a `v` or `vn` line the first three
/// words after the keyword are read and have to be numbers, of a `vt` line
/// the first two.
pub open spec fn absorbed(m: MeshText, w: Seq<Seq<u8>>) -> Result<MeshText, ObjErrorKind> {
    if w.len() == 0 {
        Ok(m)
    } else if w[0] == keyword_position() {
        if w.len() < 4 {
            Err(ObjErrorKind::MissingField)
        } else if !MeshText::numbers3((w[1], w[2], w[3])) {
            Err(ObjErrorKind::BadNumber)
        } else {
            Ok(MeshText { positions: m.positions.push((w[1], w[2], w[3])), ..m })
        }
    } else if w[0] == keyword_tex_coord() {
        if w.len() < 3 {
            Err(ObjErrorKind::MissingField)
        } else if !MeshText::numbers2((w[1], w[2])) {
            Err(ObjErrorKind::BadNumber)
        } else {
            Ok(MeshText { tex_coords: m.tex_coords.push((w[1], w[2])), ..m })
        }
    } else if w[0] == keyword_normal() {
        if w.len() < 4 {
            Err(ObjErrorKind::MissingField)
        } else if !MeshText::numbers3((w[1], w[2], w[3])) {
            Err(ObjErrorKind::BadNumber)
        } else {
            Ok(MeshText { normals: m.normals.push((w[1], w[2], w[3])), ..m })
        }
    } else if w[0] == keyword_face() {
        match face(w, m) {
            Err(e) => Err(e),
            Ok(f) => Ok(MeshText { faces: m.faces.push(f), ..m }),
        }
    } else {
        Ok(m)
    }
}

/// The mesh after the lines of `data` from index `start` on, when `done`
/// lines came before and gave `m`. Lines end at a line feed or at the end of
/// the data; the first line that is refused ends the reading.
pub open spec fn parsed_lines(data: Seq<u8>, start: int, done: nat, m: MeshText) -> Result<
    MeshText,
    ObjError,
>
    decreases data.len() + 1 - start,
    via parsed_lines_decreases
{
    if start < 0 || start >= data.len() {
        Ok(m)
    } else {
        let end = next_byte(data, start, LINE_FEED);
        match absorbed(m, words(data.subrange(start, end))) {
            Err(kind) => Err(ObjError { line: #[verifier::truncate] ((done + 1) as usize), kind }),
            Ok(next) => parsed_lines(data, end + 1, done + 1, next),
        }
    }
}

#[via_fn]
proof fn parsed_lines_decreases(data: Seq<u8>, start: int, done: nat, m: MeshText) {
    if 0 <= start < data.len() {
        crate::util::text::lemma_next_byte(data, start, LINE_FEED);
    }
}

/// What the OBJ text `data` says: a mesh, or the first line that is refused.
pub open spec fn parsed_obj(data: Seq<u8>) -> Result<MeshText, ObjError> {
    parsed_lines(data, 0, 0, MeshText::empty())
}


/// A line that is taken keeps a well-formed mesh well formed.
pub proof fn lemma_absorbed_well_formed(m: MeshText, w: Seq<Seq<u8>>)
    requires
        m.well_formed(),
        absorbed(m, w).is_ok(),
    ensures
        absorbed(m, w).unwrap().well_formed(),
{
    let next = absorbed(m, w).unwrap();
    assert forall|i: int| 0 <= i < next.positions.len() implies MeshText::numbers3(
        #[trigger] next.positions[i],
    ) by {
        if i < m.positions.len() {
            assert(next.positions[i] == m.positions[i]);
        }
    }
    assert forall|i: int| 0 <= i < next.normals.len() implies MeshText::numbers3(
        #[trigger] next.normals[i],
    ) by {
        if i < m.normals.len() {
            assert(next.normals[i] == m.normals[i]);
        }
    }
    assert forall|i: int| 0 <= i < next.tex_coords.len() implies MeshText::numbers2(
        #[trigger] next.tex_coords[i],
    ) by {
        if i < m.tex_coords.len() {
            assert(next.tex_coords[i] == m.tex_coords[i]);
        }
    }
    assert forall|i: int| 0 <= i < next.faces.len() implies {
        let f = #[trigger] next.faces[i];
        &&& next.holds(f.a)
        &&& next.holds(f.b)
        &&& next.holds(f.c)
        &&& f.a.tex_coord.is_some() == f.b.tex_coord.is_some()
        &&& f.a.tex_coord.is_some() == f.c.tex_coord.is_some()
    } by {
        if i < m.faces.len() {
            assert(next.faces[i] == m.faces[i]);
        }
    }
}

/// Whatever `parsed_lines` accepts from a well-formed mesh is well formed.
pub proof fn lemma_parsed_lines_well_formed(data: Seq<u8>, start: int, done: nat, m: MeshText)
    requires
        m.well_formed(),
        parsed_lines(data, start, done, m).is_ok(),
    ensures
        parsed_lines(data, start, done, m).unwrap().well_formed(),
    decreases data.len() + 1 - start,
{
    if 0 <= start < data.len() {
        crate::util::text::lemma_next_byte(data, start, LINE_FEED);
        let end = next_byte(data, start, LINE_FEED);
        let w = words(data.subrange(start, end));
        lemma_absorbed_well_formed(m, w);
        lemma_parsed_lines_well_formed(data, end + 1, done + 1, absorbed(m, w).unwrap());
    }
}

/// The first `n` words of `line` from index `from` on, or `None` when there
/// are fewer.
fn first_words<'a>(line: &'a [u8], from: usize, n: usize) -> (r: Option<Vec<&'a [u8]>>)
    requires
        from <= line@.len(),
    ensures
        match r {
            Some(v) => {
                &&& v@.len() == n
                &&& words_from(line@, from as int).len() >= n
                &&& forall|k: int|
                    0 <= k < n ==> (#[trigger] v@[k])@ == words_from(line@, from as int)[k]
            },
            None => words_from(line@, from as int).len() < n,
        },
{
    let mut found: Vec<&'a [u8]> = Vec::new();
    let mut pos: usize = from;
    while found.len() < n
        invariant
            pos <= line@.len(),
            found@.len() <= n,
            words_from(line@, from as int) == found@.map_values(|w: &[u8]| w@) + words_from(
                line@,
                pos as int,
            ),
        decreases n - found@.len(),
    {
        match next_word(line, pos) {
            None => {
                return None;
            },
            Some((word, rest)) => {
                proof {
                    let before = found@.map_values(|w: &[u8]| w@);
                    let after = found@.push(word).map_values(|w: &[u8]| w@);
                    assert(after =~= before + seq![word@]);
                    assert(before + (seq![word@] + words_from(line@, rest as int)) =~= after
                        + words_from(line@, rest as int));
                }
                found.push(word);
                pos = rest;
            },
        }
    }
    proof {
        let texts = found@.map_values(|w: &[u8]| w@);
        assert forall|k: int| 0 <= k < n implies (#[trigger] found@[k])@ == words_from(
            line@,
            from as int,
        )[k] by {
            assert(texts[k] == found@[k]@);
        }
    }
    Some(found)
}

/// Reads field `k` of a corner as an index into a list of `count` entries.
fn index_field(word: &[u8], k: usize, count: usize) -> (r: Result<usize, ObjErrorKind>)
    ensures
        r == resolved(field(word@, k as nat), count as nat),
{
    match get_field(word, k) {
        None => Err(ObjErrorKind::MissingIndex),
        Some(text) => match parse_usize(text) {
            None => Err(ObjErrorKind::MissingIndex),
            Some(n) => if 1 <= n && n <= count {
                Ok(n - 1)
            } else {
                Err(ObjErrorKind::IndexOutOfRange)
            },
        },
    }
}

/// Whether the first corner of a face makes the face textured.
fn is_textured(word: &[u8]) -> (r: Result<bool, ObjErrorKind>)
    ensures
        r == textured(word@),
{
    match get_field(word, 1) {
        None => Err(ObjErrorKind::MissingIndex),
        Some(text) => Ok(parse_usize(text).is_some()),
    }
}

/// Reads one corner of a face.
fn read_corner(word: &[u8], with_texture: bool, mesh: &MeshData) -> (r: Result<
    Corner,
    ObjErrorKind,
>)
    ensures
        r == corner(word@, with_texture, mesh@),
{
    let position: usize = match index_field(word, 0, mesh.positions.len()) {
        Ok(i) => i,
        Err(e) => {
            return Err(e);
        },
    };
    let tex_coord: Option<usize> = if with_texture {
        match index_field(word, 1, mesh.tex_coords.len()) {
            Ok(i) => Some(i),
            Err(e) => {
                return Err(e);
            },
        }
    } else {
        None
    };
    let normal: usize = match index_field(word, 2, mesh.normals.len()) {
        Ok(i) => i,
        Err(e) => {
            return Err(e);
        },
    };
    Ok(Corner { position, tex_coord, normal })
}

/// Reads the face whose corners are the first three words of `line` from
/// index `from` on, where `from` is the index behind the keyword.
fn read_face(line: &[u8], from: usize, mesh: &MeshData) -> (r: Result<Face, ObjErrorKind>)
    requires
        from <= line@.len(),
        words(line@).len() >= 1,
        words(line@) == seq![words(line@)[0]] + words_from(line@, from as int),
    ensures
        r == face(words(line@), mesh@),
{
    let corners: Vec<&[u8]> = match first_words(line, from, 3) {
        Some(v) => v,
        None => {
            return Err(ObjErrorKind::MissingField);
        },
    };
    proof {
        let rest = words_from(line@, from as int);
        assert(words(line@)[1] == rest[0]);
        assert(words(line@)[2] == rest[1]);
        assert(words(line@)[3] == rest[2]);
    }
    let with_texture: bool = match is_textured(corners[0]) {
        Ok(t) => t,
        Err(e) => {
            return Err(e);
        },
    };
    let a: Corner = match read_corner(corners[0], with_texture, mesh) {
        Ok(c) => c,
        Err(e) => {
            return Err(e);
        },
    };
    let b: Corner = match read_corner(corners[1], with_texture, mesh) {
        Ok(c) => c,
        Err(e) => {
            return Err(e);
        },
    };
    let c: Corner = match read_corner(corners[2], with_texture, mesh) {
        Ok(c) => c,
        Err(e) => {
            return Err(e);
        },
    };
    Ok(Face { a, b, c })
}

/// The first three words of `line` from index `from` on, as a triple of
/// numbers.
fn read_triple(line: &[u8], from: usize) -> (r: Result<Triple, ObjErrorKind>)
    requires
        from <= line@.len(),
    ensures
        ({
            let w = words_from(line@, from as int);
            match r {
                Ok(t) => w.len() >= 3 && MeshText::numbers3(t@) && t@ == (w[0], w[1], w[2]),
                Err(e) => if w.len() < 3 {
                    e == ObjErrorKind::MissingField
                } else {
                    e == ObjErrorKind::BadNumber && !MeshText::numbers3((w[0], w[1], w[2]))
                },
            }
        }),
{
    match first_words(line, from, 3) {
        None => Err(ObjErrorKind::MissingField),
        Some(v) => if is_float(v[0]) && is_float(v[1]) && is_float(v[2]) {
            Ok(Triple { x: slice_to_vec(v[0]), y: slice_to_vec(v[1]), z: slice_to_vec(v[2]) })
        } else {
            Err(ObjErrorKind::BadNumber)
        },
    }
}

/// The first two words of `line` from index `from` on, as a pair of numbers.
fn read_pair(line: &[u8], from: usize) -> (r: Result<Pair, ObjErrorKind>)
    requires
        from <= line@.len(),
    ensures
        ({
            let w = words_from(line@, from as int);
            match r {
                Ok(p) => w.len() >= 2 && MeshText::numbers2(p@) && p@ == (w[0], w[1]),
                Err(e) => if w.len() < 2 {
                    e == ObjErrorKind::MissingField
                } else {
                    e == ObjErrorKind::BadNumber && !MeshText::numbers2((w[0], w[1]))
                },
            }
        }),
{
    match first_words(line, from, 2) {
        None => Err(ObjErrorKind::MissingField),
        Some(v) => if is_float(v[0]) && is_float(v[1]) {
            Ok(Pair { u: slice_to_vec(v[0]), v: slice_to_vec(v[1]) })
        } else {
            Err(ObjErrorKind::BadNumber)
        },
    }
}

/// Whether `word` is the one byte `a`, or the two bytes `a`, `b` when `b` is
/// given.
fn is_keyword(word: &[u8], a: u8, b: Option<u8>) -> (r: bool)
    ensures
        r == (word@ == match b {
            None => seq![a],
            Some(second) => seq![a, second],
        }),
{
    match b {
        None => {
            let r: bool = word.len() == 1 && word[0] == a;
            proof {
                if r {
                    assert(word@ =~= seq![a]);
                } else if word@.len() == 1 {
                    assert(seq![a][0] == a);
                } else {
                    assert(seq![a].len() == 1);
                }
            }
            r
        },
        Some(second) => {
            let r: bool = word.len() == 2 && word[0] == a && word[1] == second;
            proof {
                if r {
                    assert(word@ =~= seq![a, second]);
                } else if word@.len() == 2 {
                    assert(seq![a, second][0] == a);
                    assert(seq![a, second][1] == second);
                } else {
                    assert(seq![a, second].len() == 2);
                }
            }
            r
        },
    }
}

/// Adds what one line says to a mesh. A refused line leaves the mesh as it
/// was.
pub fn absorb(mesh: &mut MeshData, line: &[u8]) -> (r: Result<(), ObjErrorKind>)
    ensures
        match r {
            Ok(()) => absorbed(old(mesh)@, words(line@)) == Ok::<MeshText, ObjErrorKind>(
                final(mesh)@,
            ),
            Err(e) => absorbed(old(mesh)@, words(line@)) == Err::<MeshText, ObjErrorKind>(e)
                && *final(mesh) == *old(mesh),
        },
{
    let ghost w = words(line@);
    let ghost before = mesh@;
    let (keyword, from) = match next_word(line, 0) {
        None => {
            return Ok(());
        },
        Some(found) => found,
    };
    let ghost rest = words_from(line@, from as int);
    assert(w == seq![keyword@] + rest);
    assert(w[0] == keyword@);
    assert(w.len() == 1 + rest.len());
    proof {
        assert(seq![118u8, 116u8] != seq![118u8]) by {
            assert(seq![118u8, 116u8].len() == 2);
        }
        assert(seq![118u8, 110u8] != seq![118u8]) by {
            assert(seq![118u8, 110u8].len() == 2);
        }
        assert(seq![118u8, 110u8] != seq![118u8, 116u8]) by {
            assert(seq![118u8, 110u8][1] == 110u8);
            assert(seq![118u8, 116u8][1] == 116u8);
        }
        assert(seq![102u8] != seq![118u8]) by {
            assert(seq![102u8][0] == 102u8);
            assert(seq![118u8][0] == 118u8);
        }
        assert(seq![102u8] != seq![118u8, 116u8]) by {
            assert(seq![118u8, 116u8].len() == 2);
        }
        assert(seq![102u8] != seq![118u8, 110u8]) by {
            assert(seq![118u8, 110u8].len() == 2);
        }
    }
    if is_keyword(keyword, 118, None) {
        match read_triple(line, from) {
            Err(e) => Err(e),
            Ok(t) => {
                mesh.positions.push(t);
                proof {
                    assert(w[1] == rest[0] && w[2] == rest[1] && w[3] == rest[2]);
                    assert(mesh@.positions =~= before.positions.push((w[1], w[2], w[3])));
                }
                Ok(())
            },
        }
    } else if is_keyword(keyword, 118, Some(116)) {
        match read_pair(line, from) {
            Err(e) => Err(e),
            Ok(p) => {
                mesh.tex_coords.push(p);
                proof {
                    assert(w[1] == rest[0] && w[2] == rest[1]);
                    assert(mesh@.tex_coords =~= before.tex_coords.push((w[1], w[2])));
                }
                Ok(())
            },
        }
    } else if is_keyword(keyword, 118, Some(110)) {
        match read_triple(line, from) {
            Err(e) => Err(e),
            Ok(t) => {
                mesh.normals.push(t);
                proof {
                    assert(w[1] == rest[0] && w[2] == rest[1] && w[3] == rest[2]);
                    assert(mesh@.normals =~= before.normals.push((w[1], w[2], w[3])));
                }
                Ok(())
            },
        }
    } else if is_keyword(keyword, 102, None) {
        match read_face(line, from, mesh) {
            Err(e) => Err(e),
            Ok(f) => {
                mesh.faces.push(f);
                Ok(())
            },
        }
    } else {
        Ok(())
    }
}

/// Reads a mesh from OBJ text.
///
/// Lines are read in order. `v`, `vt` and `vn` lines add a position, a
/// texture coordinate and a normal, kept as the text of their numbers, which
/// have to be floating-point numbers as `str::parse` takes them. An `f`
/// line adds a triangle from its first three corners, each written
/// `position/texture/normal` with indices that count from 1 and may only name
/// what earlier lines defined. Other lines are passed over. The first line
/// that cannot be read is reported with its number.
///
/// Words are separated by ASCII white space only. A line that separates
/// them by other white space, such as a no-break space, is read as the words
/// that ASCII white space leaves, and refused where those are no numbers.
pub fn from_obj(data: &[u8]) -> (r: Result<MeshData, ObjError>)
    ensures
        match r {
            Ok(mesh) => parsed_obj(data@) == Ok::<MeshText, ObjError>(mesh@)
                && mesh@.well_formed(),
            Err(e) => parsed_obj(data@) == Err::<MeshText, ObjError>(e),
        },
{
    let mut mesh = MeshData {
        positions: Vec::new(),
        tex_coords: Vec::new(),
        normals: Vec::new(),
        faces: Vec::new(),
    };
    assert(mesh@ =~= MeshText::empty()) by {
        assert(mesh@.positions =~= Seq::empty());
        assert(mesh@.tex_coords =~= Seq::empty());
        assert(mesh@.normals =~= Seq::empty());
    }
    let mut start: usize = 0;
    let mut done: usize = 0;
    while start < data.len()
        invariant
            done <= start,
            parsed_obj(data@) == parsed_lines(data@, start as int, done as nat, mesh@),
        decreases data@.len() + 1 - start,
    {
        let end: usize = find_byte(data, start, LINE_FEED);
        let line: &[u8] = slice_subrange(data, start, end);
        match absorb(&mut mesh, line) {
            Err(kind) => {
                return Err(ObjError { line: done + 1, kind });
            },
            Ok(()) => {},
        }
        if end >= data.len() {
            proof {
                assert(parsed_lines(data@, end + 1, (done + 1) as nat, mesh@) == parsed_lines(
                    data@,
                    end as int,
                    (done + 1) as nat,
                    mesh@,
                ));
            }
            start = end;
        } else {
            start = end + 1;
        }
        done = done + 1;
    }
    proof {
        lemma_parsed_lines_well_formed(data@, 0, 0, MeshText::empty());
    }
    Ok(mesh)
}

} // verus!
