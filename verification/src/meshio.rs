//! Meshes in the Wavefront OBJ format: the lines of a file on the one
//! side, positions, texture coordinates, normals, faces and lines on the
//! other.
//!
//! A number is kept as the file writes it. Indices count from one in the
//! file and from zero in the mesh.

use vstd::prelude::*;
use vstd::string::StringSliceAdditionalSpecFns;

verus! {

/// What reading or writing a mesh can fail with.
#[derive(Debug, Clone, Copy, PartialEq, Eq, Structural)]
pub enum MeshIOError {
    /// The file could not be read or written.
    Io,
    /// The file does not follow the format.
    InvalidFile,
    /// The format is not known.
    Unknown,
}

impl MeshIOError {
    /// The text that describes this error.
    pub open spec fn spec_message(self) -> Seq<char> {
        match self {
            MeshIOError::Io => "io error"@,
            MeshIOError::InvalidFile => "invalid file"@,
            MeshIOError::Unknown => "unknown error"@,
        }
    }

    /// The text that describes this error.
    pub fn message(&self) -> (r: &'static str)
        ensures
            r@ == self.spec_message(),
    {
        match self {
            MeshIOError::Io => "io error",
            MeshIOError::InvalidFile => "invalid file",
            MeshIOError::Unknown => "unknown error",
        }
    }
}

/// A number as the file writes it: the bytes of its text.
pub type Number = Vec<u8>;

/// The position, texture coordinate and normal index of a face corner.
pub type Corner = (usize, usize, usize);

/// A mesh as an OBJ file holds it. Indices count from zero, and an index
/// that the file leaves out is `usize::MAX`.
#[derive(Debug)]
pub struct MeshIO {
    /// The three coordinates of each position.
    pub positions: Vec<Vec<Number>>,
    /// The two coordinates of each texture coordinate.
    pub uvs: Vec<Vec<Number>>,
    /// The three coordinates of each normal.
    pub normals: Vec<Vec<Number>>,
    /// For each face, its corners.
    pub face_indices: Vec<Vec<Corner>>,
    pub face_has_uv: bool,
    pub face_has_normal: bool,
    /// For each line, the position indices of its points.
    pub line_indices: Vec<Vec<usize>>,
}

/// What a mesh holds.
pub struct MeshView {
    pub positions: Seq<Seq<Seq<u8>>>,
    pub uvs: Seq<Seq<Seq<u8>>>,
    pub normals: Seq<Seq<Seq<u8>>>,
    pub face_indices: Seq<Seq<Corner>>,
    pub face_has_uv: bool,
    pub face_has_normal: bool,
    pub line_indices: Seq<Seq<usize>>,
}

/// The bytes of each of `parts`.
pub open spec fn texts(parts: Seq<Vec<u8>>) -> Seq<Seq<u8>> {
    Seq::new(parts.len(), |i: int| parts[i]@)
}

/// The numbers of each of `rows`.
pub open spec fn rows(rows: Seq<Vec<Number>>) -> Seq<Seq<Seq<u8>>> {
    Seq::new(rows.len(), |i: int| texts(rows[i]@))
}

/// The entries of each of `lists`.
pub open spec fn lists<T>(lists: Seq<Vec<T>>) -> Seq<Seq<T>> {
    Seq::new(lists.len(), |i: int| lists[i]@)
}

impl View for MeshIO {
    type V = MeshView;

    open spec fn view(&self) -> MeshView {
        MeshView {
            positions: rows(self.positions@),
            uvs: rows(self.uvs@),
            normals: rows(self.normals@),
            face_indices: lists(self.face_indices@),
            face_has_uv: self.face_has_uv,
            face_has_normal: self.face_has_normal,
            line_indices: lists(self.line_indices@),
        }
    }
}

/// The mesh that holds nothing.
pub open spec fn empty_mesh() -> MeshView {
    MeshView {
        positions: Seq::empty(),
        uvs: Seq::empty(),
        normals: Seq::empty(),
        face_indices: Seq::empty(),
        face_has_uv: false,
        face_has_normal: false,
        line_indices: Seq::empty(),
    }
}

impl MeshIO {
    /// Creates a mesh that holds nothing.
    pub fn new() -> (r: Self)
        ensures
            r@ == empty_mesh(),
    {
        let r = Self {
            positions: Vec::new(),
            uvs: Vec::new(),
            normals: Vec::new(),
            face_indices: Vec::new(),
            face_has_uv: false,
            face_has_normal: false,
            line_indices: Vec::new(),
        };
        proof {
            assert(rows(r.positions@) =~= Seq::<Seq<Seq<u8>>>::empty());
            assert(rows(r.uvs@) =~= Seq::<Seq<Seq<u8>>>::empty());
            assert(rows(r.normals@) =~= Seq::<Seq<Seq<u8>>>::empty());
            assert(lists(r.face_indices@) =~= Seq::<Seq<Corner>>::empty());
            assert(lists(r.line_indices@) =~= Seq::<Seq<usize>>::empty());
        }
        r
    }
}

impl Default for MeshIO {
    /// The mesh that holds nothing.
    fn default() -> (r: Self)
        ensures
            r@ == empty_mesh(),
    {
        Self::new()
    }
}

/// The byte of a space.
pub const SPACE: u8 = 32;

/// The byte that starts a comment.
pub const HASH: u8 = 35;

/// The byte of a plus sign.
pub const PLUS: u8 = 43;

/// The byte between the indices of a face corner.
pub const SLASH: u8 = 47;

/// The byte of the digit 0.
pub const DIGIT_0: u8 = 48;

/// The byte of the digit 9.
pub const DIGIT_9: u8 = 57;

/// The parts of `s` between the bytes `sep`: one more part than `s` has
/// such bytes, empty parts among them.
pub open spec fn split(s: Seq<u8>, sep: u8) -> Seq<Seq<u8>>
    decreases s.len(),
{
    if s.len() == 0 {
        seq![Seq::<u8>::empty()]
    } else {
        let before = split(s.drop_last(), sep);
        if s.last() == sep {
            before.push(Seq::empty())
        } else {
            before.update(before.len() - 1, before.last().push(s.last()))
        }
    }
}

/// `split` gives at least one part.
pub proof fn lemma_split_len(s: Seq<u8>, sep: u8)
    ensures
        split(s, sep).len() >= 1,
    decreases s.len(),
{
    if s.len() > 0 {
        lemma_split_len(s.drop_last(), sep);
    }
}

/// Splits `s` at every byte `sep`.
pub fn split_bytes(s: &[u8], sep: u8) -> (parts: Vec<Vec<u8>>)
    ensures
        texts(parts@) == split(s@, sep),
        parts@.len() >= 1,
{
    let mut parts: Vec<Vec<u8>> = Vec::new();
    let mut current: Vec<u8> = Vec::new();
    let mut i: usize = 0;
    proof {
        assert(s@.take(0) =~= Seq::<u8>::empty());
        assert(texts(parts@).push(current@) =~= split(s@.take(0), sep));
    }
    while i < s.len()
        invariant
            i <= s@.len(),
            texts(parts@).push(current@) == split(s@.take(i as int), sep),
        decreases s@.len() - i,
    {
        let ghost before = texts(parts@).push(current@);
        let ghost seen = s@.take(i as int);
        let ghost next = s@.take(i + 1);
        proof {
            assert(next.drop_last() =~= seen);
            assert(next.last() == s@[i as int]);
        }
        let byte = s[i];
        if byte == sep {
            parts.push(current);
            current = Vec::new();
            proof {
                assert(texts(parts@) =~= before);
                assert(texts(parts@).push(current@) =~= before.push(Seq::empty()));
            }
        } else {
            let ghost old_current = current@;
            current.push(byte);
            proof {
                assert(texts(parts@).push(current@) =~= before.update(
                    before.len() - 1,
                    before.last().push(byte),
                ));
            }
        }
        i = i + 1;
    }
    let ghost before = texts(parts@).push(current@);
    parts.push(current);
    proof {
        assert(s@.take(s@.len() as int) =~= s@);
        assert(texts(parts@) =~= before);
    }
    parts
}

/// The number that the decimal digits `d` write, if they are all digits.
pub open spec fn digits_value(d: Seq<u8>) -> Option<int>
    decreases d.len(),
{
    if d.len() == 0 {
        Some(0)
    } else {
        match digits_value(d.drop_last()) {
            Some(v) => if DIGIT_0 <= d.last() <= DIGIT_9 {
                Some(v * 10 + (d.last() - DIGIT_0))
            } else {
                None
            },
            None => None,
        }
    }
}

/// The digits of `token`: the token without a leading plus sign.
pub open spec fn digits_of(token: Seq<u8>) -> Seq<u8> {
    if token.len() > 0 && token[0] == PLUS {
        token.skip(1)
    } else {
        token
    }
}

/// The index that `token` writes: one or more decimal digits, after a plus
/// sign or not, of a number that fits the machine.
pub open spec fn index_of(token: Seq<u8>) -> Option<usize> {
    let digits = digits_of(token);
    if digits.len() == 0 {
        None
    } else {
        match digits_value(digits) {
            Some(v) => if v <= usize::MAX {
                Some(v as usize)
            } else {
                None
            },
            None => None,
        }
    }
}

/// The digits so far never write more than all the digits do.
pub proof fn lemma_digits_grow(d: Seq<u8>, n: int)
    requires
        0 <= n <= d.len(),
    ensures
        digits_value(d).is_some() ==> digits_value(d.take(n)).is_some() && 0 <= digits_value(
            d.take(n),
        ).unwrap() <= digits_value(d).unwrap(),
    decreases d.len() - n,
{
    if n == d.len() {
        assert(d.take(n) =~= d);
        lemma_digits_nonnegative(d);
    } else {
        lemma_digits_grow(d, n + 1);
        let longer = d.take(n + 1);
        assert(longer.drop_last() =~= d.take(n));
        lemma_digits_nonnegative(d.take(n));
    }
}

/// Digits write no negative number.
pub proof fn lemma_digits_nonnegative(d: Seq<u8>)
    ensures
        digits_value(d).is_some() ==> digits_value(d).unwrap() >= 0,
    decreases d.len(),
{
    if d.len() > 0 {
        lemma_digits_nonnegative(d.drop_last());
    }
}

/// Reads the index that `token` writes.
pub fn parse_index(token: &Vec<u8>) -> (r: Option<usize>)
    ensures
        r == index_of(token@),
{
    let start: usize = if token.len() > 0 && token[0] == PLUS {
        1
    } else {
        0
    };
    let ghost digits = digits_of(token@);
    if start == token.len() {
        return None;
    }
    let mut value: usize = 0;
    let mut i: usize = start;
    proof {
        assert(digits.take(0) =~= Seq::<u8>::empty());
    }
    while i < token.len()
        invariant
            start <= i <= token@.len(),
            digits == digits_of(token@),
            digits.len() == token@.len() - start,
            forall|k: int| 0 <= k < digits.len() ==> digits[k] == token@[k + start],
            digits_value(digits.take(i - start)) == Some(value as int),
        decreases token@.len() - i,
    {
        let byte = token[i];
        let ghost seen = digits.take(i - start);
        let ghost next = digits.take(i - start + 1);
        proof {
            assert(next.drop_last() =~= seen);
            assert(next.last() == byte);
            lemma_digits_grow(digits, i - start + 1);
            lemma_digits_grow(digits, i - start);
        }
        if byte < DIGIT_0 || byte > DIGIT_9 {
            proof {
                assert(digits_value(next).is_none());
            }
            return None;
        }
        let digit: usize = (byte - DIGIT_0) as usize;
        let scaled = match value.checked_mul(10) {
            Some(v) => v,
            None => {
                return None;
            },
        };
        value = match scaled.checked_add(digit) {
            Some(v) => v,
            None => {
                return None;
            },
        };
        i = i + 1;
    }
    proof {
        assert(digits.take(digits.len() as int) =~= digits);
    }
    Some(value)
}

/// What the text of a face corner amounts to.
pub enum CornerText {
    /// An index is missing, is no number, or is zero.
    Broken,
    /// More than three indices.
    TooMany,
    /// A corner, and whether it names a texture coordinate and a normal.
    Good(Corner, bool, bool),
}

/// An index as the mesh counts it, from the index `v` that the file
/// writes, which counts from one.
pub open spec fn from_one(v: Option<usize>) -> Option<usize> {
    match v {
        Some(i) => if i >= 1 {
            Some((i - 1) as usize)
        } else {
            None
        },
        None => None,
    }
}

/// The corner that `text` writes: a position index alone, a position and
/// a texture coordinate index, or these and a normal index, separated by
/// slashes; of three indices the second may be left out.
pub open spec fn corner_of(text: Seq<u8>) -> CornerText {
    let parts = split(text, SLASH);
    if parts.len() == 1 {
        match from_one(index_of(parts[0])) {
            Some(p) => CornerText::Good((p, usize::MAX, usize::MAX), false, false),
            None => CornerText::Broken,
        }
    } else if parts.len() == 2 {
        match (from_one(index_of(parts[0])), from_one(index_of(parts[1]))) {
            (Some(p), Some(u)) => CornerText::Good((p, u, usize::MAX), true, false),
            _ => CornerText::Broken,
        }
    } else if parts.len() == 3 {
        let uv = if parts[1].len() == 0 || index_of(parts[1]) == Some(usize::MAX) {
            Some(usize::MAX)
        } else {
            from_one(index_of(parts[1]))
        };
        match (from_one(index_of(parts[0])), uv, from_one(index_of(parts[2]))) {
            (Some(p), Some(u), Some(n)) => CornerText::Good((p, u, n), true, true),
            _ => CornerText::Broken,
        }
    } else {
        CornerText::TooMany
    }
}

/// Reads the corner that `text` writes.
pub fn parse_corner(text: &Vec<u8>) -> (r: CornerText)
    ensures
        r == corner_of(text@),
{
    let parts = split_bytes(text.as_slice(), SLASH);
    proof {
        assert(texts(parts@).len() == parts@.len());
        assert forall|i: int| 0 <= i < parts@.len() implies #[trigger] texts(parts@)[i]
            == parts@[i]@ by {}
    }
    if parts.len() == 1 {
        match parse_index(&parts[0]) {
            Some(p) => if p >= 1 {
                CornerText::Good((p - 1, usize::MAX, usize::MAX), false, false)
            } else {
                CornerText::Broken
            },
            None => CornerText::Broken,
        }
    } else if parts.len() == 2 {
        let pos_index = parse_index(&parts[0]);
        let uv_index = parse_index(&parts[1]);
        match (pos_index, uv_index) {
            (Some(p), Some(u)) => if p >= 1 && u >= 1 {
                CornerText::Good((p - 1, u - 1, usize::MAX), true, false)
            } else {
                CornerText::Broken
            },
            _ => CornerText::Broken,
        }
    } else if parts.len() == 3 {
        let pos_index = parse_index(&parts[0]);
        let uv_index = if parts[1].len() != 0 {
            parse_index(&parts[1])
        } else {
            Some(usize::MAX)
        };
        let normal_index = parse_index(&parts[2]);
        match (pos_index, uv_index, normal_index) {
            (Some(p), Some(u), Some(n)) => if p >= 1 && n >= 1 && u >= 1 {
                if u == usize::MAX {
                    CornerText::Good((p - 1, u, n - 1), true, true)
                } else {
                    CornerText::Good((p - 1, u - 1, n - 1), true, true)
                }
            } else {
                CornerText::Broken
            },
            _ => CornerText::Broken,
        }
    } else {
        CornerText::TooMany
    }
}

/// What the corners of a face line amount to.
pub enum FaceText {
    /// A corner is broken: reading stops without a result.
    Broken,
    /// A corner has too many indices.
    Invalid,
    /// The corners, and whether any names a texture coordinate and a
    /// normal.
    Good(Seq<Corner>, bool, bool),
}

/// The corners that the values `vals[1..n]` of a face line write.
pub open spec fn face_of(vals: Seq<Seq<u8>>, n: int) -> FaceText
    decreases n,
{
    if n <= 1 {
        FaceText::Good(Seq::empty(), false, false)
    } else {
        match face_of(vals, n - 1) {
            FaceText::Good(corners, uv, normal) => match corner_of(vals[n - 1]) {
                CornerText::Good(c, u, m) => FaceText::Good(corners.push(c), uv || u, normal || m),
                CornerText::TooMany => FaceText::Invalid,
                CornerText::Broken => FaceText::Broken,
            },
            other => other,
        }
    }
}

/// The indices that the values `vals[1..n]` of a line of points write,
/// unless one is broken.
pub open spec fn points_of(vals: Seq<Seq<u8>>, n: int) -> Option<Seq<usize>>
    decreases n,
{
    if n <= 1 {
        Some(Seq::empty())
    } else {
        match (points_of(vals, n - 1), from_one(index_of(vals[n - 1]))) {
            (Some(points), Some(p)) => Some(points.push(p)),
            _ => None,
        }
    }
}

/// What a line of the file does to the mesh `m`: a comment and a line of
/// an unknown kind leave it as it is; `v`, `vn` and `vt` add a position,
/// a normal and a texture coordinate; `f` adds a face and `l` a line.
/// `None` where the line is broken: the wrong number of values, or a
/// broken index.
pub open spec fn step(m: MeshView, line: Seq<u8>) -> Option<Result<MeshView, MeshIOError>> {
    let vals = split(line, SPACE);
    if line.len() > 0 && line[0] == HASH {
        Some(Ok(m))
    } else if vals[0] =~= seq![118u8] {
        if vals.len() == 4 {
            Some(Ok(MeshView { positions: m.positions.push(vals.skip(1)), ..m }))
        } else {
            None
        }
    } else if vals[0] =~= seq![118u8, 110u8] {
        if vals.len() == 4 {
            Some(Ok(MeshView { normals: m.normals.push(vals.skip(1)), ..m }))
        } else {
            None
        }
    } else if vals[0] =~= seq![118u8, 116u8] {
        if vals.len() == 3 {
            Some(Ok(MeshView { uvs: m.uvs.push(vals.skip(1)), ..m }))
        } else {
            None
        }
    } else if vals[0] =~= seq![102u8] {
        if vals.len() >= 4 {
            match face_of(vals, vals.len() as int) {
                FaceText::Good(corners, uv, normal) => Some(
                    Ok(
                        MeshView {
                            face_indices: m.face_indices.push(corners),
                            face_has_uv: m.face_has_uv || uv,
                            face_has_normal: m.face_has_normal || normal,
                            ..m
                        },
                    ),
                ),
                FaceText::Invalid => Some(Err(MeshIOError::InvalidFile)),
                FaceText::Broken => None,
            }
        } else {
            None
        }
    } else if vals[0] =~= seq![108u8] {
        if vals.len() >= 3 {
            match points_of(vals, vals.len() as int) {
                Some(points) => Some(Ok(MeshView { line_indices: m.line_indices.push(points), ..m })),
                None => None,
            }
        } else {
            None
        }
    } else {
        Some(Ok(m))
    }
}

/// What the lines of a file amount to, read one after the other from the
/// mesh that holds nothing, up to the first that is invalid. `None` where
/// a line is broken.
pub open spec fn parse(lines: Seq<Seq<u8>>) -> Option<Result<MeshView, MeshIOError>>
    decreases lines.len(),
{
    if lines.len() == 0 {
        Some(Ok(empty_mesh()))
    } else {
        match parse(lines.drop_last()) {
            Some(Ok(m)) => step(m, lines.last()),
            other => other,
        }
    }
}

/// The bytes of each of `lines`.
pub open spec fn bytes_of(lines: Seq<&str>) -> Seq<Seq<u8>> {
    Seq::new(lines.len(), |i: int| lines[i].spec_bytes())
}

/// Tests whether `token` is the one byte `a`.
fn is_one(token: &Vec<u8>, a: u8) -> (r: bool)
    ensures
        r == (token@ =~= seq![a]),
{
    let r = token.len() == 1 && token[0] == a;
    proof {
        if token@ =~= seq![a] {
            assert(token@.len() == 1);
            assert(token@[0] == seq![a][0]);
        }
    }
    r
}

/// Tests whether `token` is the two bytes `a`, `b`.
fn is_two(token: &Vec<u8>, a: u8, b: u8) -> (r: bool)
    ensures
        r == (token@ =~= seq![a, b]),
{
    let r = token.len() == 2 && token[0] == a && token[1] == b;
    proof {
        if token@ =~= seq![a, b] {
            assert(token@.len() == 2);
            assert(token@[0] == seq![a, b][0]);
            assert(token@[1] == seq![a, b][1]);
        }
    }
    r
}

impl MeshIO {
    /// Reads one line into the mesh. Returns `None`, and leaves the mesh
    /// in no particular state, where the line is broken.
    pub fn process_line(&mut self, line: &[u8]) -> (r: Option<Result<(), MeshIOError>>)
        ensures
            match step(old(self)@, line@) {
                Some(Ok(m)) => r == Some(Ok::<(), MeshIOError>(())) && final(self)@ == m,
                Some(Err(e)) => r == Some(Err::<(), MeshIOError>(e)),
                None => r.is_none(),
            },
    {
        if line.len() > 0 && line[0] == HASH {
            return Some(Ok(()));
        }
        let mut vals = split_bytes(line, SPACE);
        let ghost all = texts(vals@);
        proof {
            assert(all[0] == vals@[0]@);
        }
        if is_one(&vals[0], 118) {
            // more than three coordinates are not supported
            if vals.len() != 4 {
                return None;
            }
            let _key = vals.remove(0);
            proof {
                assert(texts(vals@) =~= all.skip(1));
            }
            let ghost before = rows(self.positions@);
            self.positions.push(vals);
            proof {
                assert(rows(self.positions@) =~= before.push(all.skip(1)));
            }
            Some(Ok(()))
        } else if is_two(&vals[0], 118, 110) {
            if vals.len() != 4 {
                return None;
            }
            let _key = vals.remove(0);
            proof {
                assert(texts(vals@) =~= all.skip(1));
            }
            let ghost before = rows(self.normals@);
            self.normals.push(vals);
            proof {
                assert(rows(self.normals@) =~= before.push(all.skip(1)));
            }
            Some(Ok(()))
        } else if is_two(&vals[0], 118, 116) {
            if vals.len() != 3 {
                return None;
            }
            let _key = vals.remove(0);
            proof {
                assert(texts(vals@) =~= all.skip(1));
            }
            let ghost before = rows(self.uvs@);
            self.uvs.push(vals);
            proof {
                assert(rows(self.uvs@) =~= before.push(all.skip(1)));
            }
            Some(Ok(()))
        } else if is_one(&vals[0], 102) {
            // a face has three corners or more
            if vals.len() < 4 {
                return None;
            }
            let mut face_i: Vec<Corner> = Vec::new();
            let mut has_uv = false;
            let mut has_normal = false;
            let mut k: usize = 1;
            let ghost expected = step(old(self)@, line@);
            while k < vals.len()
                invariant
                    1 <= k <= vals@.len(),
                    all == texts(vals@),
                    face_of(all, vals@.len() as int) is Invalid ==> expected == Some(
                        Err::<MeshView, MeshIOError>(MeshIOError::InvalidFile),
                    ),
                    face_of(all, vals@.len() as int) is Broken ==> expected.is_none(),
                    expected == step(old(self)@, line@),
                    face_of(all, k as int) == FaceText::Good(face_i@, has_uv, has_normal),
                decreases vals@.len() - k,
            {
                proof {
                    assert(all[k as int] == vals@[k as int]@);
                }
                match parse_corner(&vals[k]) {
                    CornerText::Good(corner, uv, normal) => {
                        face_i.push(corner);
                        has_uv = has_uv || uv;
                        has_normal = has_normal || normal;
                    },
                    CornerText::TooMany => {
                        proof {
                            lemma_face_stays(all, k + 1, vals@.len() as int);
                        }
                        return Some(Err(MeshIOError::InvalidFile));
                    },
                    CornerText::Broken => {
                        proof {
                            lemma_face_stays(all, k + 1, vals@.len() as int);
                        }
                        return None;
                    },
                }
                k = k + 1;
            }
            let ghost before = lists(self.face_indices@);
            self.face_indices.push(face_i);
            self.face_has_uv = self.face_has_uv || has_uv;
            self.face_has_normal = self.face_has_normal || has_normal;
            proof {
                assert(lists(self.face_indices@) =~= before.push(face_i@));
            }
            Some(Ok(()))
        } else if is_one(&vals[0], 108) {
            if vals.len() < 3 {
                return None;
            }
            let mut indices: Vec<usize> = Vec::new();
            let mut k: usize = 1;
            let ghost expected = step(old(self)@, line@);
            while k < vals.len()
                invariant
                    1 <= k <= vals@.len(),
                    all == texts(vals@),
                    points_of(all, vals@.len() as int).is_none() ==> expected.is_none(),
                    expected == step(old(self)@, line@),
                    points_of(all, k as int) == Some(indices@),
                decreases vals@.len() - k,
            {
                proof {
                    assert(all[k as int] == vals@[k as int]@);
                }
                match parse_index(&vals[k]) {
                    Some(index) => {
                        if index < 1 {
                            proof {
                                lemma_points_stay(all, k + 1, vals@.len() as int);
                            }
                            return None;
                        }
                        indices.push(index - 1);
                    },
                    None => {
                        proof {
                            lemma_points_stay(all, k + 1, vals@.len() as int);
                        }
                        return None;
                    },
                }
                k = k + 1;
            }
            let ghost before = lists(self.line_indices@);
            self.line_indices.push(indices);
            proof {
                assert(lists(self.line_indices@) =~= before.push(indices@));
            }
            Some(Ok(()))
        } else {
            Some(Ok(()))
        }
    }
}

/// Once a corner is broken or has too many indices, so is the face.
pub proof fn lemma_face_stays(vals: Seq<Seq<u8>>, from: int, to: int)
    requires
        1 <= from <= to,
        !(face_of(vals, from) is Good),
    ensures
        face_of(vals, to) == face_of(vals, from),
    decreases to - from,
{
    if from < to {
        lemma_face_stays(vals, from, to - 1);
    }
}

/// Once an index is broken, so is the line of points.
pub proof fn lemma_points_stay(vals: Seq<Seq<u8>>, from: int, to: int)
    requires
        1 <= from <= to,
        points_of(vals, from).is_none(),
    ensures
        points_of(vals, to).is_none(),
    decreases to - from,
{
    if from < to {
        lemma_points_stay(vals, from, to - 1);
    }
}

/// The decimal digits of `v`.
pub open spec fn digits(v: nat) -> Seq<u8>
    decreases v,
{
    if v < 10 {
        seq![(DIGIT_0 + v) as u8]
    } else {
        digits(v / 10).push((DIGIT_0 + v % 10) as u8)
    }
}

/// Reading the digits of a number gives the number.
pub proof fn law_digits_read_back(v: nat)
    ensures
        digits_value(digits(v)) == Some(v as int),
        digits(v).len() >= 1,
        DIGIT_0 <= digits(v)[0] <= DIGIT_9,
        v <= usize::MAX ==> index_of(digits(v)) == Some(v as usize),
    decreases v,
{
    if v < 10 {
        let d = digits(v);
        assert(d.drop_last() =~= Seq::<u8>::empty());
        assert(digits_value(d.drop_last()) == Some(0int));
    } else {
        law_digits_read_back(v / 10);
        let d = digits(v);
        assert(d.drop_last() =~= digits(v / 10));
        assert(d[0] == digits(v / 10)[0]);
    }
    assert(digits_of(digits(v)) == digits(v));
}

/// Writes `v` in decimal digits.
pub fn format_index(v: usize) -> (r: Vec<u8>)
    ensures
        r@ == digits(v as nat),
    decreases v,
{
    if v < 10 {
        let mut r: Vec<u8> = Vec::new();
        r.push(DIGIT_0 + v as u8);
        proof {
            assert(r@ =~= digits(v as nat));
        }
        r
    } else {
        let mut r = format_index(v / 10);
        r.push(DIGIT_0 + (v % 10) as u8);
        r
    }
}

/// `key`, then each of `numbers` after a space.
pub open spec fn spaced(key: Seq<u8>, numbers: Seq<Seq<u8>>) -> Seq<u8>
    decreases numbers.len(),
{
    if numbers.len() == 0 {
        key
    } else {
        spaced(key, numbers.drop_last()).push(SPACE) + numbers.last()
    }
}

/// The text of a face corner: its three indices, counted from one, with
/// slashes between.
pub open spec fn corner_text(c: Corner) -> Seq<u8> {
    digits((c.0 + 1) as nat).push(SLASH) + digits((c.1 + 1) as nat).push(SLASH) + digits(
        (c.2 + 1) as nat,
    )
}

/// The texts of the corners of a face.
pub open spec fn corner_texts(corners: Seq<Corner>) -> Seq<Seq<u8>> {
    Seq::new(corners.len(), |i: int| corner_text(corners[i]))
}

/// The texts of the points of a line, counted from one.
pub open spec fn point_texts(points: Seq<usize>) -> Seq<Seq<u8>> {
    Seq::new(points.len(), |i: int| digits((points[i] + 1) as nat))
}

/// The lines of the file that holds the mesh `m`: the positions, the
/// texture coordinates, the normals, the faces and the lines of points, in
/// this order.
pub open spec fn written(m: MeshView) -> Seq<Seq<u8>> {
    Seq::new(m.positions.len(), |i: int| spaced(seq![118u8], m.positions[i])) + Seq::new(
        m.uvs.len(),
        |i: int| spaced(seq![118u8, 116u8], m.uvs[i]),
    ) + Seq::new(m.normals.len(), |i: int| spaced(seq![118u8, 110u8], m.normals[i])) + Seq::new(
        m.face_indices.len(),
        |i: int| spaced(seq![102u8], corner_texts(m.face_indices[i])),
    ) + Seq::new(
        m.line_indices.len(),
        |i: int| spaced(seq![108u8], point_texts(m.line_indices[i])),
    )
}

/// Whether every index of the mesh can be counted from one.
pub open spec fn writable(m: MeshView) -> bool {
    &&& forall|i: int, j: int|
        0 <= i < m.face_indices.len() && 0 <= j < m.face_indices[i].len() ==> {
            let c = #[trigger] m.face_indices[i][j];
            c.0 < usize::MAX && c.1 < usize::MAX && c.2 < usize::MAX
        }
    &&& forall|i: int, j: int|
        0 <= i < m.line_indices.len() && 0 <= j < m.line_indices[i].len()
            ==> #[trigger] m.line_indices[i][j] < usize::MAX
}

/// Appends the bytes of `more` to `line`.
fn append(line: &mut Vec<u8>, more: &Vec<u8>)
    ensures
        final(line)@ == old(line)@ + more@,
{
    let mut i: usize = 0;
    while i < more.len()
        invariant
            i <= more@.len(),
            line@ == old(line)@ + more@.take(i as int),
        decreases more@.len() - i,
    {
        line.push(more[i]);
        proof {
            assert(line@ =~= old(line)@ + more@.take(i + 1));
        }
        i = i + 1;
    }
    proof {
        assert(more@.take(more@.len() as int) =~= more@);
    }
}

/// Writes `key`, then each of `numbers` after a space.
fn write_spaced(key: Vec<u8>, numbers: &Vec<Vec<u8>>) -> (line: Vec<u8>)
    ensures
        line@ == spaced(key@, texts(numbers@)),
{
    let mut line = key;
    let ghost all = texts(numbers@);
    let mut i: usize = 0;
    proof {
        assert(all.take(0) =~= Seq::<Seq<u8>>::empty());
    }
    while i < numbers.len()
        invariant
            i <= numbers@.len(),
            all == texts(numbers@),
            line@ == spaced(key@, all.take(i as int)),
        decreases numbers@.len() - i,
    {
        proof {
            assert(all.take(i + 1).drop_last() =~= all.take(i as int));
            assert(all.take(i + 1).last() == numbers@[i as int]@);
        }
        line.push(SPACE);
        append(&mut line, &numbers[i]);
        i = i + 1;
    }
    proof {
        assert(all.take(all.len() as int) =~= all);
    }
    line
}

/// Writes the text of a face corner.
fn write_corner(c: &Corner) -> (r: Vec<u8>)
    requires
        c.0 < usize::MAX,
        c.1 < usize::MAX,
        c.2 < usize::MAX,
    ensures
        r@ == corner_text(*c),
{
    let mut r = format_index(c.0 + 1);
    r.push(SLASH);
    let uv = format_index(c.1 + 1);
    append(&mut r, &uv);
    r.push(SLASH);
    let normal = format_index(c.2 + 1);
    append(&mut r, &normal);
    r
}

fn key_of(a: u8, b: u8) -> (r: Vec<u8>)
    ensures
        r@ == seq![a, b],
{
    let mut r: Vec<u8> = Vec::new();
    r.push(a);
    r.push(b);
    proof {
        assert(r@ =~= seq![a, b]);
    }
    r
}

fn key_one(a: u8) -> (r: Vec<u8>)
    ensures
        r@ == seq![a],
{
    let mut r: Vec<u8> = Vec::new();
    r.push(a);
    proof {
        assert(r@ =~= seq![a]);
    }
    r
}

/// Tests whether the extension of a file name is that of the OBJ format.
pub open spec fn is_obj(extension: Option<&str>) -> bool {
    extension.is_some() && extension.unwrap().spec_bytes() =~= seq![111u8, 98u8, 106u8]
}

fn extension_is_obj(extension: Option<&str>) -> (r: bool)
    ensures
        r == is_obj(extension),
{
    match extension {
        Some(text) => {
            let bytes = text.as_bytes();
            let r = bytes.len() == 3 && bytes[0] == 111 && bytes[1] == 98 && bytes[2] == 106;
            proof {
                let obj = seq![111u8, 98u8, 106u8];
                if bytes@ =~= obj {
                    assert(bytes@[0] == obj[0] && bytes@[1] == obj[1] && bytes@[2] == obj[2]);
                }
            }
            r
        },
        None => false,
    }
}

impl MeshIO {
    /// Reads the lines of an OBJ file. Returns `None` where a line is
    /// broken, and the error of the first invalid line where there is one.
    pub fn try_from_lines(lines: &[&str]) -> (r: Option<Result<MeshIO, MeshIOError>>)
        ensures
            match parse(bytes_of(lines@)) {
                Some(Ok(m)) => r.is_some() && r.unwrap().is_ok() && r.unwrap().unwrap()@ == m,
                Some(Err(e)) => r.is_some() && r.unwrap().is_err() && r.unwrap().unwrap_err() == e,
                None => r.is_none(),
            },
    {
        let mut mesh = MeshIO::new();
        let ghost all = bytes_of(lines@);
        let mut i: usize = 0;
        proof {
            assert(all.take(0) =~= Seq::<Seq<u8>>::empty());
        }
        while i < lines.len()
            invariant
                i <= lines@.len(),
                all == bytes_of(lines@),
                parse(all.take(i as int)) == Some(Ok::<MeshView, MeshIOError>(mesh@)),
            decreases lines@.len() - i,
        {
            proof {
                assert(all.take(i + 1).drop_last() =~= all.take(i as int));
                assert(all.take(i + 1).last() == lines@[i as int].spec_bytes());
            }
            match mesh.process_line(lines[i].as_bytes()) {
                Some(Ok(())) => {},
                Some(Err(e)) => {
                    proof {
                        lemma_parse_stays(all, i + 1, all.len() as int);
                        assert(all.take(all.len() as int) =~= all);
                    }
                    return Some(Err(e));
                },
                None => {
                    proof {
                        lemma_parse_stays(all, i + 1, all.len() as int);
                        assert(all.take(all.len() as int) =~= all);
                    }
                    return None;
                },
            }
            i = i + 1;
        }
        proof {
            assert(all.take(all.len() as int) =~= all);
        }
        Some(Ok(mesh))
    }

    /// Reads the lines of an OBJ file, none of which is broken.
    pub fn from_lines(lines: &[&str]) -> (r: Result<MeshIO, MeshIOError>)
        requires
            parse(bytes_of(lines@)).is_some(),
        ensures
            match parse(bytes_of(lines@)).unwrap() {
                Ok(m) => r.is_ok() && r.unwrap()@ == m,
                Err(e) => r.is_err() && r.unwrap_err() == e,
            },
    {
        MeshIO::try_from_lines(lines).unwrap()
    }

    /// Reads a mesh from the lines of a file whose name has the extension
    /// `extension`. Only the OBJ format is known.
    pub fn read(extension: Option<&str>, lines: &[&str]) -> (r: Result<MeshIO, MeshIOError>)
        requires
            is_obj(extension) ==> parse(bytes_of(lines@)).is_some(),
        ensures
            !is_obj(extension) ==> r.is_err() && r.unwrap_err() == MeshIOError::Unknown,
            is_obj(extension) ==> match parse(bytes_of(lines@)).unwrap() {
                Ok(m) => r.is_ok() && r.unwrap()@ == m,
                Err(e) => r.is_err() && r.unwrap_err() == e,
            },
    {
        if extension_is_obj(extension) {
            MeshIO::from_lines(lines)
        } else {
            Err(MeshIOError::Unknown)
        }
    }

    /// Writes the mesh as the lines of a file whose name has the extension
    /// `extension`. Only the OBJ format is known.
    pub fn write(&self, extension: Option<&str>) -> (r: Result<Vec<Vec<u8>>, MeshIOError>)
        requires
            is_obj(extension) ==> writable(self@),
        ensures
            !is_obj(extension) ==> r.is_err() && r.unwrap_err() == MeshIOError::Unknown,
            is_obj(extension) ==> r.is_ok() && texts(r.unwrap()@) == written(self@),
    {
        if extension_is_obj(extension) {
            Ok(self.write_obj())
        } else {
            Err(MeshIOError::Unknown)
        }
    }

    /// Writes the mesh as the lines of an OBJ file.
    fn write_obj(&self) -> (out: Vec<Vec<u8>>)
        requires
            writable(self@),
        ensures
            texts(out@) == written(self@),
    {
        let ghost m = self@;
        let mut out: Vec<Vec<u8>> = Vec::new();
        let ghost part1 = Seq::new(m.positions.len(), |i: int| spaced(seq![118u8], m.positions[i]));
        let ghost part2 = Seq::new(m.uvs.len(), |i: int| spaced(seq![118u8, 116u8], m.uvs[i]));
        let ghost part3 = Seq::new(
            m.normals.len(),
            |i: int| spaced(seq![118u8, 110u8], m.normals[i]),
        );
        let ghost part4 = Seq::new(
            m.face_indices.len(),
            |i: int| spaced(seq![102u8], corner_texts(m.face_indices[i])),
        );
        let ghost part5 = Seq::new(
            m.line_indices.len(),
            |i: int| spaced(seq![108u8], point_texts(m.line_indices[i])),
        );
        let mut i: usize = 0;
        proof {
            assert(texts(out@) =~= part1.take(0));
        }
        while i < self.positions.len()
            invariant
                i <= self.positions@.len(),
                m == self@,
                part1 == Seq::new(m.positions.len(), |i: int| spaced(seq![118u8], m.positions[i])),
                texts(out@) == part1.take(i as int),
            decreases self.positions@.len() - i,
        {
            let line = write_spaced(key_one(118), &self.positions[i]);
            let ghost before = texts(out@);
            out.push(line);
            proof {
                assert(texts(out@) =~= before.push(line@));
                assert(part1.take(i + 1) =~= part1.take(i as int).push(part1[i as int]));
            }
            i = i + 1;
        }
        proof {
            assert(part1.take(part1.len() as int) =~= part1);
            assert(texts(out@) =~= part1 + part2.take(0));
        }
        i = 0;
        while i < self.uvs.len()
            invariant
                i <= self.uvs@.len(),
                m == self@,
                part2 == Seq::new(m.uvs.len(), |i: int| spaced(seq![118u8, 116u8], m.uvs[i])),
                texts(out@) == part1 + part2.take(i as int),
            decreases self.uvs@.len() - i,
        {
            let line = write_spaced(key_of(118, 116), &self.uvs[i]);
            let ghost before = texts(out@);
            out.push(line);
            proof {
                assert(texts(out@) =~= before.push(line@));
                assert(part2.take(i + 1) =~= part2.take(i as int).push(part2[i as int]));
                assert(texts(out@) =~= part1 + part2.take(i + 1));
            }
            i = i + 1;
        }
        proof {
            assert(part2.take(part2.len() as int) =~= part2);
            assert(texts(out@) =~= part1 + part2 + part3.take(0));
        }
        i = 0;
        while i < self.normals.len()
            invariant
                i <= self.normals@.len(),
                m == self@,
                part3 == Seq::new(
                    m.normals.len(),
                    |i: int| spaced(seq![118u8, 110u8], m.normals[i]),
                ),
                texts(out@) == part1 + part2 + part3.take(i as int),
            decreases self.normals@.len() - i,
        {
            let line = write_spaced(key_of(118, 110), &self.normals[i]);
            let ghost before = texts(out@);
            out.push(line);
            proof {
                assert(texts(out@) =~= before.push(line@));
                assert(part3.take(i + 1) =~= part3.take(i as int).push(part3[i as int]));
                assert(texts(out@) =~= part1 + part2 + part3.take(i + 1));
            }
            i = i + 1;
        }
        proof {
            assert(part3.take(part3.len() as int) =~= part3);
            assert(texts(out@) =~= part1 + part2 + part3 + part4.take(0));
        }
        i = 0;
        while i < self.face_indices.len()
            invariant
                i <= self.face_indices@.len(),
                m == self@,
                writable(m),
                part4 == Seq::new(
                    m.face_indices.len(),
                    |i: int| spaced(seq![102u8], corner_texts(m.face_indices[i])),
                ),
                texts(out@) == part1 + part2 + part3 + part4.take(i as int),
            decreases self.face_indices@.len() - i,
        {
            let face = &self.face_indices[i];
            let mut corners: Vec<Vec<u8>> = Vec::new();
            let mut j: usize = 0;
            proof {
                assert(m.face_indices[i as int] == face@);
            }
            while j < face.len()
                invariant
                    j <= face@.len(),
                    i < m.face_indices.len(),
                    m.face_indices[i as int] == face@,
                    writable(m),
                    texts(corners@) == corner_texts(face@).take(j as int),
                decreases face@.len() - j,
            {
                proof {
                    let c = m.face_indices[i as int][j as int];
                    assert(c == face@[j as int]);
                    assert(c.0 < usize::MAX && c.1 < usize::MAX && c.2 < usize::MAX);
                }
                let text = write_corner(&face[j]);
                let ghost before = texts(corners@);
                corners.push(text);
                proof {
                    assert(texts(corners@) =~= before.push(text@));
                    assert(corner_texts(face@).take(j + 1) =~= corner_texts(face@).take(
                        j as int,
                    ).push(corner_text(face@[j as int])));
                }
                j = j + 1;
            }
            proof {
                assert(corner_texts(face@).take(face@.len() as int) =~= corner_texts(face@));
            }
            let line = write_spaced(key_one(102), &corners);
            let ghost before = texts(out@);
            out.push(line);
            proof {
                assert(texts(out@) =~= before.push(line@));
                assert(part4.take(i + 1) =~= part4.take(i as int).push(part4[i as int]));
                assert(texts(out@) =~= part1 + part2 + part3 + part4.take(i + 1));
            }
            i = i + 1;
        }
        proof {
            assert(part4.take(part4.len() as int) =~= part4);
            assert(texts(out@) =~= part1 + part2 + part3 + part4 + part5.take(0));
        }
        i = 0;
        while i < self.line_indices.len()
            invariant
                i <= self.line_indices@.len(),
                m == self@,
                writable(m),
                part5 == Seq::new(
                    m.line_indices.len(),
                    |i: int| spaced(seq![108u8], point_texts(m.line_indices[i])),
                ),
                texts(out@) == part1 + part2 + part3 + part4 + part5.take(i as int),
            decreases self.line_indices@.len() - i,
        {
            let points = &self.line_indices[i];
            let mut numbers: Vec<Vec<u8>> = Vec::new();
            let mut j: usize = 0;
            proof {
                assert(m.line_indices[i as int] == points@);
            }
            while j < points.len()
                invariant
                    j <= points@.len(),
                    i < m.line_indices.len(),
                    m.line_indices[i as int] == points@,
                    writable(m),
                    texts(numbers@) == point_texts(points@).take(j as int),
                decreases points@.len() - j,
            {
                proof {
                    assert(m.line_indices[i as int][j as int] < usize::MAX);
                }
                let text = format_index(points[j] + 1);
                let ghost before = texts(numbers@);
                numbers.push(text);
                proof {
                    assert(texts(numbers@) =~= before.push(text@));
                    assert(point_texts(points@).take(j + 1) =~= point_texts(points@).take(
                        j as int,
                    ).push(digits((points@[j as int] + 1) as nat)));
                }
                j = j + 1;
            }
            proof {
                assert(point_texts(points@).take(points@.len() as int) =~= point_texts(points@));
            }
            let line = write_spaced(key_one(108), &numbers);
            let ghost before = texts(out@);
            out.push(line);
            proof {
                assert(texts(out@) =~= before.push(line@));
                assert(part5.take(i + 1) =~= part5.take(i as int).push(part5[i as int]));
                assert(texts(out@) =~= part1 + part2 + part3 + part4 + part5.take(i + 1));
            }
            i = i + 1;
        }
        proof {
            assert(part5.take(part5.len() as int) =~= part5);
        }
        out
    }
}

/// Once a line is invalid or broken, so is the file.
pub proof fn lemma_parse_stays(lines: Seq<Seq<u8>>, from: int, to: int)
    requires
        0 <= from <= to <= lines.len(),
        !(parse(lines.take(from)) matches Some(Ok(_))),
    ensures
        parse(lines.take(to)) == parse(lines.take(from)),
    decreases to - from,
{
    if from < to {
        lemma_parse_stays(lines, from, to - 1);
        assert(lines.take(to).drop_last() =~= lines.take(to - 1));
    }
}

} // verus!
