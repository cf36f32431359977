//! Models: the mesh of a body part, as stored.
//!
//! Coordinates keep their fixed-point form. The bounds of a model are
//! settled here, since the order of fixed-point numbers is the order of
//! their stored integers.

use vstd::prelude::*;
use crate::brender::{Fraction, Scalar};
use crate::error::Error;
use crate::order::{
    lemma_half_mirrored, lemma_word_mirrored, mirrored, read_u16, read_u32, u16_at, u32_at, Endian, Loader,
    Symmetric,
};
use crate::sorting::{quad_le, quads_ascending, sort_quads, Quad};

verus! {

/// Size in bytes of the model header.
pub const MODEL_HEADER: usize = 48;

/// Size in bytes of one vertex on file.
pub const VERTEX_SIZE: usize = 32;

/// Size in bytes of one face on file.
pub const FACE_SIZE: usize = 32;

/// Two scalars: a texture coordinate.
#[derive(Clone, Copy, Debug, PartialEq, Eq, Structural)]
pub struct Vector2OnFile {
    pub x: Scalar,
    pub y: Scalar,
}

/// Three scalars: a point or a direction.
#[derive(Clone, Copy, Debug, PartialEq, Eq, Structural)]
pub struct Vector3OnFile {
    pub x: Scalar,
    pub y: Scalar,
    pub z: Scalar,
}

/// Three fractions: a unit direction.
#[derive(Clone, Copy, Debug, PartialEq, Eq, Structural)]
pub struct FVector3OnFile {
    pub x: Fraction,
    pub y: Fraction,
    pub z: Fraction,
}

/// An axis-aligned box, given by its least and its greatest corner.
#[derive(Clone, Copy, Debug, PartialEq, Eq, Structural)]
pub struct BoundsOnFile {
    pub min: Vector3OnFile,
    pub max: Vector3OnFile,
}

/// A vertex of a mesh.
#[derive(Clone, Copy, Debug, PartialEq, Eq, Structural)]
pub struct VertexOnFile {
    pub point: Vector3OnFile,
    pub map: Vector2OnFile,
    pub index: u8,
    pub red: u8,
    pub green: u8,
    pub blue: u8,
    pub normal: FVector3OnFile,
}

/// A triangle of a mesh.
#[derive(Clone, Copy, Debug, PartialEq, Eq)]
pub struct FaceOnFile {
    pub vertices: [u16; 3],
    pub edges: [u16; 3],
    pub material: u32,
    /// The smoothing groups that the face belongs to, one bit each.
    pub smoothing: u16,
    pub flags: u8,
    pub normal: FVector3OnFile,
    pub d: Scalar,
}

/// The header of a model.
#[derive(Clone, Copy, Debug, PartialEq, Eq, Structural)]
pub struct ModelOnFile {
    pub vertex_count: u16,
    pub face_count: u16,
    pub radius: Scalar,
    pub bounds: BoundsOnFile,
    pub pivot: Vector3OnFile,
}

impl Vector2OnFile {
    /// The vector stored at `s[at..at + 8]`.
    pub open spec fn at(s: Seq<u8>, at: int, e: Endian) -> Vector2OnFile {
        Vector2OnFile { x: Scalar::at(s, at, e), y: Scalar::at(s, at + 4, e) }
    }

    /// Reads the vector at byte `at`.
    pub fn read(input: &[u8], at: usize, e: Endian) -> (r: Vector2OnFile)
        requires
            at + 8 <= input.len(),
        ensures
            r == Vector2OnFile::at(input@, at as int, e),
    {
        Vector2OnFile { x: Scalar::read(input, at, e), y: Scalar::read(input, at + 4, e) }
    }
}

impl Vector3OnFile {
    /// The vector stored at `s[at..at + 12]`.
    pub open spec fn at(s: Seq<u8>, at: int, e: Endian) -> Vector3OnFile {
        Vector3OnFile { x: Scalar::at(s, at, e), y: Scalar::at(s, at + 4, e), z: Scalar::at(s, at + 8, e) }
    }

    /// Reads the vector at byte `at`.
    pub fn read(input: &[u8], at: usize, e: Endian) -> (r: Vector3OnFile)
        requires
            at + 12 <= input.len(),
        ensures
            r == Vector3OnFile::at(input@, at as int, e),
    {
        Vector3OnFile {
            x: Scalar::read(input, at, e),
            y: Scalar::read(input, at + 4, e),
            z: Scalar::read(input, at + 8, e),
        }
    }

    /// The vector of zeros.
    pub open spec fn zero() -> Vector3OnFile {
        Vector3OnFile { x: Scalar(0), y: Scalar(0), z: Scalar(0) }
    }

    /// In each coordinate, the lesser of the two.
    pub open spec fn spec_min(self, other: Vector3OnFile) -> Vector3OnFile {
        Vector3OnFile {
            x: if other.x.0 < self.x.0 { other.x } else { self.x },
            y: if other.y.0 < self.y.0 { other.y } else { self.y },
            z: if other.z.0 < self.z.0 { other.z } else { self.z },
        }
    }

    /// In each coordinate, the greater of the two.
    pub open spec fn spec_max(self, other: Vector3OnFile) -> Vector3OnFile {
        Vector3OnFile {
            x: if other.x.0 > self.x.0 { other.x } else { self.x },
            y: if other.y.0 > self.y.0 { other.y } else { self.y },
            z: if other.z.0 > self.z.0 { other.z } else { self.z },
        }
    }

    /// In each coordinate, the lesser of the two.
    pub fn min(self, other: Vector3OnFile) -> (r: Vector3OnFile)
        ensures
            r == self.spec_min(other),
    {
        Vector3OnFile {
            x: if other.x.0 < self.x.0 { other.x } else { self.x },
            y: if other.y.0 < self.y.0 { other.y } else { self.y },
            z: if other.z.0 < self.z.0 { other.z } else { self.z },
        }
    }

    /// In each coordinate, the greater of the two.
    pub fn max(self, other: Vector3OnFile) -> (r: Vector3OnFile)
        ensures
            r == self.spec_max(other),
    {
        Vector3OnFile {
            x: if other.x.0 > self.x.0 { other.x } else { self.x },
            y: if other.y.0 > self.y.0 { other.y } else { self.y },
            z: if other.z.0 > self.z.0 { other.z } else { self.z },
        }
    }
}

impl FVector3OnFile {
    /// The vector stored at `s[at..at + 6]`.
    pub open spec fn at(s: Seq<u8>, at: int, e: Endian) -> FVector3OnFile {
        FVector3OnFile {
            x: Fraction::at(s, at, e),
            y: Fraction::at(s, at + 2, e),
            z: Fraction::at(s, at + 4, e),
        }
    }

    /// Reads the vector at byte `at`.
    pub fn read(input: &[u8], at: usize, e: Endian) -> (r: FVector3OnFile)
        requires
            at + 6 <= input.len(),
        ensures
            r == FVector3OnFile::at(input@, at as int, e),
    {
        FVector3OnFile {
            x: Fraction::read(input, at, e),
            y: Fraction::read(input, at + 2, e),
            z: Fraction::read(input, at + 4, e),
        }
    }
}

impl BoundsOnFile {
    /// The box stored at `s[at..at + 24]`.
    pub open spec fn at(s: Seq<u8>, at: int, e: Endian) -> BoundsOnFile {
        BoundsOnFile { min: Vector3OnFile::at(s, at, e), max: Vector3OnFile::at(s, at + 12, e) }
    }

    /// The box of zeros, which on file stands for "no bounds given".
    pub open spec fn zero() -> BoundsOnFile {
        BoundsOnFile { min: Vector3OnFile::zero(), max: Vector3OnFile::zero() }
    }

    /// The box grown to hold `point`.
    pub open spec fn with_point(self, point: Vector3OnFile) -> BoundsOnFile {
        BoundsOnFile { min: self.min.spec_min(point), max: self.max.spec_max(point) }
    }

    /// `point` lies within the box.
    pub open spec fn holds(self, point: Vector3OnFile) -> bool {
        &&& self.min.x.0 <= point.x.0 <= self.max.x.0
        &&& self.min.y.0 <= point.y.0 <= self.max.y.0
        &&& self.min.z.0 <= point.z.0 <= self.max.z.0
    }

    /// Whether every coordinate of the box is zero.
    pub fn is_zero(&self) -> (r: bool)
        ensures
            r == (*self == BoundsOnFile::zero()),
    {
        self.min.x.0 == 0 && self.min.y.0 == 0 && self.min.z.0 == 0 && self.max.x.0 == 0
            && self.max.y.0 == 0 && self.max.z.0 == 0
    }
}

impl Default for BoundsOnFile {
    fn default() -> (r: Self)
        ensures
            r == BoundsOnFile::zero(),
    {
        let zero = Vector3OnFile { x: Scalar(0), y: Scalar(0), z: Scalar(0) };
        BoundsOnFile { min: zero, max: zero }
    }
}

impl VertexOnFile {
    /// The vertex stored at `s[at..at + 32]`.
    pub open spec fn at(s: Seq<u8>, at: int, e: Endian) -> VertexOnFile {
        VertexOnFile {
            point: Vector3OnFile::at(s, at, e),
            map: Vector2OnFile::at(s, at + 12, e),
            index: s[at + 20],
            red: s[at + 21],
            green: s[at + 22],
            blue: s[at + 23],
            normal: FVector3OnFile::at(s, at + 26, e),
        }
    }

    /// Reads the vertex at byte `at`.
    pub fn read(input: &[u8], at: usize, e: Endian) -> (r: VertexOnFile)
        requires
            at + VERTEX_SIZE <= input.len(),
        ensures
            r == VertexOnFile::at(input@, at as int, e),
    {
        VertexOnFile {
            point: Vector3OnFile::read(input, at, e),
            map: Vector2OnFile::read(input, at + 12, e),
            index: input[at + 20],
            red: input[at + 21],
            green: input[at + 22],
            blue: input[at + 23],
            normal: FVector3OnFile::read(input, at + 26, e),
        }
    }
}

impl FaceOnFile {
    /// The face stored at `s[at..at + 32]`.
    pub open spec fn at(s: Seq<u8>, at: int, e: Endian) -> FaceOnFile {
        FaceOnFile {
            vertices: [
                u16_at(s, at, e) as u16,
                u16_at(s, at + 2, e) as u16,
                u16_at(s, at + 4, e) as u16,
            ],
            edges: [
                u16_at(s, at + 6, e) as u16,
                u16_at(s, at + 8, e) as u16,
                u16_at(s, at + 10, e) as u16,
            ],
            material: u32_at(s, at + 12, e) as u32,
            smoothing: u16_at(s, at + 16, e) as u16,
            flags: s[at + 18],
            normal: FVector3OnFile::at(s, at + 20, e),
            d: Scalar::at(s, at + 26, e),
        }
    }

    /// Reads the face at byte `at`.
    pub fn read(input: &[u8], at: usize, e: Endian) -> (r: FaceOnFile)
        requires
            at + FACE_SIZE <= input.len(),
        ensures
            r == FaceOnFile::at(input@, at as int, e),
    {
        FaceOnFile {
            vertices: [
                read_u16(input, at, e),
                read_u16(input, at + 2, e),
                read_u16(input, at + 4, e),
            ],
            edges: [
                read_u16(input, at + 6, e),
                read_u16(input, at + 8, e),
                read_u16(input, at + 10, e),
            ],
            material: read_u32(input, at + 12, e),
            smoothing: read_u16(input, at + 16, e),
            flags: input[at + 18],
            normal: FVector3OnFile::read(input, at + 20, e),
            d: Scalar::read(input, at + 26, e),
        }
    }
}

impl ModelOnFile {
    /// The header that `input` starts with, read in byte order `e`.
    pub open spec fn of(input: Seq<u8>, e: Endian) -> ModelOnFile {
        ModelOnFile {
            vertex_count: u16_at(input, 4, e) as u16,
            face_count: u16_at(input, 6, e) as u16,
            radius: Scalar::at(input, 8, e),
            bounds: BoundsOnFile::at(input, 12, e),
            pivot: Vector3OnFile::at(input, 36, e),
        }
    }

    /// Reads the header that `input` starts with.
    pub fn read(input: &[u8], e: Endian) -> (r: ModelOnFile)
        requires
            input@.len() >= MODEL_HEADER,
        ensures
            r == ModelOnFile::of(input@, e),
    {
        ModelOnFile {
            vertex_count: read_u16(input, 4, e),
            face_count: read_u16(input, 6, e),
            radius: Scalar::read(input, 8, e),
            bounds: BoundsOnFile {
                min: Vector3OnFile::read(input, 12, e),
                max: Vector3OnFile::read(input, 24, e),
            },
            pivot: Vector3OnFile::read(input, 36, e),
        }
    }

    /// Where in the input the faces start.
    pub open spec fn faces_at(self) -> int {
        MODEL_HEADER + VERTEX_SIZE * self.vertex_count
    }

    /// Size in bytes of the whole model.
    pub open spec fn total_len(self) -> int {
        MODEL_HEADER + VERTEX_SIZE * self.vertex_count + FACE_SIZE * self.face_count
    }
}

/// A mesh: its vertices and faces, and the box that holds it.
#[derive(Debug)]
pub struct Model {
    pub radius: Scalar,
    pub bounds: BoundsOnFile,
    pub pivot: Vector3OnFile,
    pub vertices: Vec<VertexOnFile>,
    pub faces: Vec<FaceOnFile>,
}

/// The bounds after the first `n` of `vertices` have been taken in. Bounds
/// that are given grow to hold each vertex; where none are given, the first
/// vertex starts them.
pub open spec fn bounds_after(given: Option<BoundsOnFile>, vertices: Seq<VertexOnFile>, n: int) -> Option<
    BoundsOnFile,
>
    decreases n,
{
    if n <= 0 {
        given
    } else {
        let point = vertices[n - 1].point;
        match bounds_after(given, vertices, n - 1) {
            Some(bounds) => Some(bounds.with_point(point)),
            None => Some(BoundsOnFile { min: point, max: point }),
        }
    }
}

/// The bounds of a model: those that its header gives, unless they are all
/// zero, grown to hold every vertex; the box of zeros where there is neither.
pub open spec fn model_bounds(header: BoundsOnFile, vertices: Seq<VertexOnFile>) -> BoundsOnFile {
    let given = if header == BoundsOnFile::zero() { None } else { Some(header) };
    match bounds_after(given, vertices, vertices.len() as int) {
        Some(bounds) => bounds,
        None => BoundsOnFile::zero(),
    }
}

/// The bounds hold every vertex that has been taken in, and what was given.
pub proof fn lemma_bounds_hold(given: Option<BoundsOnFile>, vertices: Seq<VertexOnFile>, n: int)
    requires
        0 <= n <= vertices.len(),
    ensures
        n > 0 ==> bounds_after(given, vertices, n).is_some(),
        forall|k: int|
            0 <= k < n ==> bounds_after(given, vertices, n).unwrap().holds((#[trigger] vertices[k]).point),
        given matches Some(b) ==> bounds_after(given, vertices, n).is_some() && (b.min.x.0 <= b.max.x.0
            && b.min.y.0 <= b.max.y.0 && b.min.z.0 <= b.max.z.0 ==> bounds_after(
            given,
            vertices,
            n,
        ).unwrap().holds(b.min) && bounds_after(given, vertices, n).unwrap().holds(b.max)),
    decreases n,
{
    if n > 0 {
        lemma_bounds_hold(given, vertices, n - 1);
    }
}

/// Where no bounds are given, every bound is the coordinate of a vertex:
/// the box is the smallest that holds the vertices.
pub proof fn lemma_bounds_tight(vertices: Seq<VertexOnFile>, n: int)
    requires
        0 < n <= vertices.len(),
    ensures
        ({
            let bounds = bounds_after(None, vertices, n).unwrap();
            &&& bounds_after(None, vertices, n).is_some()
            &&& exists|k: int| 0 <= k < n && (#[trigger] vertices[k]).point.x == bounds.min.x
            &&& exists|k: int| 0 <= k < n && (#[trigger] vertices[k]).point.y == bounds.min.y
            &&& exists|k: int| 0 <= k < n && (#[trigger] vertices[k]).point.z == bounds.min.z
            &&& exists|k: int| 0 <= k < n && (#[trigger] vertices[k]).point.x == bounds.max.x
            &&& exists|k: int| 0 <= k < n && (#[trigger] vertices[k]).point.y == bounds.max.y
            &&& exists|k: int| 0 <= k < n && (#[trigger] vertices[k]).point.z == bounds.max.z
        }),
    decreases n,
{
    if n == 1 {
        assert(bounds_after(None, vertices, 0).is_none());
        assert(vertices[0].point == bounds_after(None, vertices, 1).unwrap().min);
    } else {
        lemma_bounds_tight(vertices, n - 1);
        let before = bounds_after(None, vertices, n - 1).unwrap();
        let bounds = bounds_after(None, vertices, n).unwrap();
        let last = vertices[n - 1].point;
        let kx = choose|k: int| 0 <= k < n - 1 && (#[trigger] vertices[k]).point.x == before.min.x;
        let ky = choose|k: int| 0 <= k < n - 1 && (#[trigger] vertices[k]).point.y == before.min.y;
        let kz = choose|k: int| 0 <= k < n - 1 && (#[trigger] vertices[k]).point.z == before.min.z;
        let lx = choose|k: int| 0 <= k < n - 1 && (#[trigger] vertices[k]).point.x == before.max.x;
        let ly = choose|k: int| 0 <= k < n - 1 && (#[trigger] vertices[k]).point.y == before.max.y;
        let lz = choose|k: int| 0 <= k < n - 1 && (#[trigger] vertices[k]).point.z == before.max.z;
        assert(vertices[if last.x.0 < before.min.x.0 { n - 1 } else { kx }].point.x == bounds.min.x);
        assert(vertices[if last.y.0 < before.min.y.0 { n - 1 } else { ky }].point.y == bounds.min.y);
        assert(vertices[if last.z.0 < before.min.z.0 { n - 1 } else { kz }].point.z == bounds.min.z);
        assert(vertices[if last.x.0 > before.max.x.0 { n - 1 } else { lx }].point.x == bounds.max.x);
        assert(vertices[if last.y.0 > before.max.y.0 { n - 1 } else { ly }].point.y == bounds.max.y);
        assert(vertices[if last.z.0 > before.max.z.0 { n - 1 } else { lz }].point.z == bounds.max.z);
    }
}

/// The vertices of a model.
pub open spec fn model_vertices(input: Seq<u8>, e: Endian) -> Seq<VertexOnFile> {
    Seq::new(
        ModelOnFile::of(input, e).vertex_count as nat,
        |i: int| VertexOnFile::at(input, MODEL_HEADER + VERTEX_SIZE * i, e),
    )
}

/// The faces of a model.
pub open spec fn model_faces(input: Seq<u8>, e: Endian) -> Seq<FaceOnFile> {
    let header = ModelOnFile::of(input, e);
    Seq::new(
        header.face_count as nat,
        |i: int| FaceOnFile::at(input, header.faces_at() + FACE_SIZE * i, e),
    )
}

/// Whether the normals of a model have to be worked out: it was stored
/// without a radius, and it has faces.
pub open spec fn stored_without_normals(header: ModelOnFile) -> bool {
    header.radius.0 == 0 && header.face_count > 0
}

/// The faces of a model as they are decoded: as stored, except that in a
/// model whose normals have to be worked out every face that is in no
/// smoothing group is put into every group.
pub open spec fn decoded_faces(input: Seq<u8>, e: Endian) -> Seq<FaceOnFile> {
    let header = ModelOnFile::of(input, e);
    Seq::new(
        header.face_count as nat,
        |i: int|
            if stored_without_normals(header) {
                model_faces(input, e)[i].promoted()
            } else {
                model_faces(input, e)[i]
            },
    )
}

/// Why a model is rejected, if it is: the input ends within the vertices or
/// the faces, or goes on after them.
pub open spec fn model_error(input: Seq<u8>, e: Endian) -> Option<Error> {
    let header = ModelOnFile::of(input, e);
    if input.len() < header.total_len() {
        Some(Error::TruncatedPayload)
    } else if input.len() > header.total_len() {
        Some(Error::UnsupportedEncoding)
    } else {
        None
    }
}

impl<'a> Loader<'a> for Model {
    open spec fn header_len() -> nat {
        MODEL_HEADER as nat
    }

    open spec fn mark_at() -> nat {
        0
    }

    open spec fn decodes_to(input: Seq<u8>, e: Endian, r: Result<Self, Error>) -> bool {
        let header = ModelOnFile::of(input, e);
        match model_error(input, e) {
            Some(err) => r == Err::<Self, Error>(err),
            None => r matches Ok(model) && model.radius == header.radius && model.pivot
                == header.pivot && model.vertices@ == model_vertices(input, e) && model.faces@
                == decoded_faces(input, e) && model.bounds == model_bounds(
                header.bounds,
                model.vertices@,
            ),
        }
    }

    fn header_size() -> (n: usize) {
        MODEL_HEADER
    }

    fn mark_offset() -> (n: usize) {
        0
    }

    fn into_native(input: &'a [u8], e: Endian) -> (r: Result<Self, Error>) {
        let header = ModelOnFile::read(input, e);
        let vertex_count = header.vertex_count as usize;
        let face_count = header.face_count as usize;
        let faces_at = MODEL_HEADER + VERTEX_SIZE * vertex_count;
        let total = faces_at + FACE_SIZE * face_count;
        if input.len() < total {
            return Err(Error::TruncatedPayload);
        }
        if input.len() > total {
            return Err(Error::UnsupportedEncoding);
        }
        let mut bounds: Option<BoundsOnFile> = if header.bounds.is_zero() {
            None
        } else {
            Some(header.bounds)
        };
        let ghost given = bounds;
        let mut vertices: Vec<VertexOnFile> = Vec::new();
        let mut i: usize = 0;
        while i < vertex_count
            invariant
                i <= vertex_count,
                vertex_count == header.vertex_count,
                header == ModelOnFile::of(input@, e),
                input.len() >= MODEL_HEADER + VERTEX_SIZE * vertex_count,
                vertices@.len() == i,
                forall|k: int| 0 <= k < i ==> vertices@[k] == #[trigger] model_vertices(input@, e)[k],
                bounds == bounds_after(given, vertices@, i as int),
            decreases vertex_count - i,
        {
            let vertex = VertexOnFile::read(input, MODEL_HEADER + VERTEX_SIZE * i, e);
            let ghost before = vertices@;
            bounds = match bounds {
                Some(b) => Some(BoundsOnFile { min: b.min.min(vertex.point), max: b.max.max(vertex.point) }),
                None => Some(BoundsOnFile { min: vertex.point, max: vertex.point }),
            };
            vertices.push(vertex);
            proof {
                lemma_bounds_prefix(given, before, vertices@, i as int);
            }
            i += 1;
        }
        let mut faces: Vec<FaceOnFile> = Vec::new();
        let mut j: usize = 0;
        while j < face_count
            invariant
                j <= face_count,
                face_count == header.face_count,
                vertex_count == header.vertex_count,
                faces_at == header.faces_at(),
                header == ModelOnFile::of(input@, e),
                input.len() >= faces_at + FACE_SIZE * face_count,
                faces@.len() == j,
                forall|k: int| 0 <= k < j ==> faces@[k] == #[trigger] model_faces(input@, e)[k],
            decreases face_count - j,
        {
            faces.push(FaceOnFile::read(input, faces_at + FACE_SIZE * j, e));
            j += 1;
        }
        assert(vertices@ =~= model_vertices(input@, e));
        assert(faces@ =~= model_faces(input@, e));
        if header.radius.is_zero() && faces.len() > 0 {
            promote_smoothing(&mut faces);
        }
        assert(faces@ =~= decoded_faces(input@, e));
        let bounds = match bounds {
            Some(b) => b,
            None => BoundsOnFile::default(),
        };
        Ok(Model { radius: header.radius, bounds, pivot: header.pivot, vertices, faces })
    }
}

/// The bounds after `n` vertices depend on those `n` vertices only.
pub proof fn lemma_bounds_prefix(
    given: Option<BoundsOnFile>,
    a: Seq<VertexOnFile>,
    b: Seq<VertexOnFile>,
    n: int,
)
    requires
        0 <= n <= a.len(),
        n <= b.len(),
        forall|k: int| 0 <= k < n ==> a[k] == b[k],
    ensures
        bounds_after(given, a, n) == bounds_after(given, b, n),
    decreases n,
{
    if n > 0 {
        lemma_bounds_prefix(given, a, b, n - 1);
    }
}


/// The smoothing mask that stands for "every group".
pub const EVERY_GROUP: u16 = 0xFFFF;

impl FaceOnFile {
    /// The face with a smoothing mask of zero replaced by the mask of every
    /// group.
    pub open spec fn promoted(self) -> FaceOnFile {
        FaceOnFile {
            vertices: self.vertices,
            edges: self.edges,
            material: self.material,
            smoothing: if self.smoothing == 0 { EVERY_GROUP } else { self.smoothing },
            flags: self.flags,
            normal: self.normal,
            d: self.d,
        }
    }

    /// The two faces have a smoothing group in common.
    pub open spec fn spec_shares_group(self, other: FaceOnFile) -> bool {
        self.smoothing & other.smoothing != 0
    }

    /// Whether the two faces have a smoothing group in common, so that each
    /// contributes its normal to the vertices of the other where they meet.
    pub fn shares_group(&self, other: &FaceOnFile) -> (r: bool)
        ensures
            r == self.spec_shares_group(*other),
    {
        self.smoothing & other.smoothing != 0
    }
}

impl Model {
    /// Whether the normals of the model have to be worked out: it was
    /// stored without a radius, and it has faces.
    pub fn needs_normals(&self) -> (r: bool)
        ensures
            r == (self.radius.0 == 0 && self.faces@.len() > 0),
    {
        self.radius.is_zero() && self.faces.len() > 0
    }
}

/// Puts every face that is in no smoothing group into every group.
pub fn promote_smoothing(faces: &mut Vec<FaceOnFile>)
    ensures
        final(faces)@.len() == old(faces)@.len(),
        forall|i: int| 0 <= i < final(faces)@.len() ==> #[trigger] final(faces)@[i] == old(faces)@[i].promoted(),
{
    let mut i: usize = 0;
    while i < faces.len()
        invariant
            i <= faces.len(),
            faces@.len() == old(faces)@.len(),
            forall|k: int| 0 <= k < i ==> #[trigger] faces@[k] == old(faces)@[k].promoted(),
            forall|k: int| i <= k < faces@.len() ==> #[trigger] faces@[k] == old(faces)@[k],
        decreases faces.len() - i,
    {
        let face = faces[i];
        if face.smoothing == 0 {
            faces[i] = FaceOnFile {
                vertices: face.vertices,
                edges: face.edges,
                material: face.material,
                smoothing: EVERY_GROUP,
                flags: face.flags,
                normal: face.normal,
                d: face.d,
            };
        }
        i += 1;
    }
}

/// The vertex at corner `t` of the mesh: corners are counted face after
/// face, three to a face.
pub open spec fn corner_vertex(faces: Seq<FaceOnFile>, t: int) -> u16 {
    faces[t / 3].vertices@[t % 3]
}

/// The point at corner `t` of the mesh.
pub open spec fn corner_point(vertices: Seq<VertexOnFile>, faces: Seq<FaceOnFile>, t: int) -> Vector3OnFile {
    vertices[corner_vertex(faces, t) as int].point
}

/// A stored coordinate as an unsigned number that orders as the coordinate does.
pub open spec fn shifted(s: Scalar) -> u32 {
    (s.0 + 0x8000_0000) as u32
}

/// What corner `t` is sorted by: its point, coordinate after coordinate,
/// and then its own number.
pub open spec fn corner_keys(vertices: Seq<VertexOnFile>, faces: Seq<FaceOnFile>, t: int) -> Quad {
    let point = corner_point(vertices, faces, t);
    (shifted(point.x), shifted(point.y), shifted(point.z), t as u32)
}

/// Every corner of every face names a vertex of the mesh.
pub open spec fn corners_valid(vertices: Seq<VertexOnFile>, faces: Seq<FaceOnFile>) -> bool {
    forall|f: int, c: int|
        0 <= f < faces.len() && 0 <= c < 3 ==> (#[trigger] faces[f].vertices@[c]) < vertices.len()
}

/// The corners of a mesh in the order in which they are welded, and where
/// in that order each cluster of coinciding corners ends.
#[derive(Debug)]
pub struct Weld {
    /// The corners, sorted by point and, among corners at one point, by number.
    pub order: Vec<u32>,
    /// For each cluster, the position in `order` just after its last corner.
    pub ends: Vec<usize>,
}

impl Weld {
    /// The weld is that of the mesh: `order` holds every corner once, sorted
    /// by point and then by number, and `ends` holds, in ascending order, the
    /// positions after which the point changes, and the end.
    pub open spec fn welds(&self, vertices: Seq<VertexOnFile>, faces: Seq<FaceOnFile>) -> bool {
        let n = 3 * faces.len();
        &&& self.order@.len() == n
        &&& forall|p: int| 0 <= p < n ==> (#[trigger] self.order@[p]) < n
        &&& forall|p: int, q: int| 0 <= p < q < n ==> self.order@[p] != self.order@[q]
        &&& forall|p: int, q: int|
            0 <= p < q < n ==> quad_le(
                corner_keys(vertices, faces, self.order@[p] as int),
                corner_keys(vertices, faces, self.order@[q] as int),
            )
        &&& forall|a: int, b: int| 0 <= a < b < self.ends@.len() ==> self.ends@[a] < self.ends@[b]
        &&& forall|p: usize| #[trigger]
            self.ends@.contains(p) <==> is_cluster_end(vertices, faces, self.order@, p as int)
    }
}

/// A cluster ends just before position `p` of `order`: `p` is the end, or
/// the corner at `p` lies at another point than the corner before it.
pub open spec fn is_cluster_end(
    vertices: Seq<VertexOnFile>,
    faces: Seq<FaceOnFile>,
    order: Seq<u32>,
    p: int,
) -> bool {
    1 <= p <= order.len() && (p == order.len() || corner_point(vertices, faces, order[p - 1] as int)
        != corner_point(vertices, faces, order[p] as int))
}

/// The keys change between positions `p - 1` and `p`, or `p` is the end.
spec fn keys_end(sorted: Seq<Quad>, p: int) -> bool {
    1 <= p <= sorted.len() && (p == sorted.len() || sorted[p - 1].0 != sorted[p].0 || sorted[p - 1].1
        != sorted[p].1 || sorted[p - 1].2 != sorted[p].2)
}

/// The faces whose normals are added up at corner `order[p]`: those of the
/// corners `order[start..to]` that share a smoothing group with the face of
/// the corner, in order, each as often as it has corners there.
pub open spec fn contributing(
    faces: Seq<FaceOnFile>,
    order: Seq<u32>,
    start: int,
    to: int,
    p: int,
) -> Seq<u32>
    decreases to - start,
{
    if to <= start {
        Seq::empty()
    } else if faces[order[p] as int / 3].spec_shares_group(faces[order[to - 1] as int / 3]) {
        contributing(faces, order, start, to - 1, p).push((order[to - 1] / 3) as u32)
    } else {
        contributing(faces, order, start, to - 1, p)
    }
}

/// The vertex at corner `t` of the mesh.
pub fn vertex_of_corner(faces: &Vec<FaceOnFile>, t: u32) -> (r: u16)
    requires
        t < 3 * faces@.len(),
    ensures
        r == corner_vertex(faces@, t as int),
{
    let face = faces[(t / 3) as usize];
    face.vertices[(t % 3) as usize]
}

/// The faces whose normals are added up at the corner at position `p` of a
/// cluster that takes positions `start..end` of `order`.
pub fn contributors(faces: &Vec<FaceOnFile>, order: &Vec<u32>, start: usize, end: usize, p: usize) -> (r:
    Vec<u32>)
    requires
        start <= p < end <= order@.len(),
        forall|q: int| 0 <= q < order@.len() ==> (#[trigger] order@[q]) < 3 * faces@.len(),
    ensures
        r@ == contributing(faces@, order@, start as int, end as int, p as int),
{
    let own = faces[(order[p] / 3) as usize];
    let mut found: Vec<u32> = Vec::new();
    let mut q: usize = start;
    while q < end
        invariant
            start <= q <= end <= order@.len(),
            start <= p < end,
            forall|k: int| 0 <= k < order@.len() ==> (#[trigger] order@[k]) < 3 * faces@.len(),
            own == faces@[order@[p as int] as int / 3],
            found@ == contributing(faces@, order@, start as int, q as int, p as int),
        decreases end - q,
    {
        let face = order[q] / 3;
        if own.shares_group(&faces[face as usize]) {
            found.push(face);
        }
        q += 1;
    }
    found
}

/// Equal coordinates shift to equal numbers, and only they.
proof fn lemma_shifted(a: Scalar, b: Scalar)
    ensures
        shifted(a) == shifted(b) <==> a == b,
        shifted(a) == a.0 + 0x8000_0000,
{
}

/// Sorts the corners of a mesh for welding. `None` where a face names a
/// vertex that the mesh does not have.
pub fn weld(vertices: &Vec<VertexOnFile>, faces: &Vec<FaceOnFile>) -> (r: Option<Weld>)
    requires
        faces@.len() <= 65535,
    ensures
        match r {
            Some(w) => corners_valid(vertices@, faces@) && w.welds(vertices@, faces@),
            None => !corners_valid(vertices@, faces@),
        },
{
    let n = 3 * faces.len();
    let mut keys: Vec<Quad> = Vec::new();
    let mut f: usize = 0;
    while f < faces.len()
        invariant
            f <= faces.len() <= 65535,
            keys@.len() == 3 * f,
            forall|g: int, c: int|
                0 <= g < f && 0 <= c < 3 ==> (#[trigger] faces@[g].vertices@[c]) < vertices@.len(),
            forall|t: int| 0 <= t < 3 * f ==> #[trigger] keys@[t] == corner_keys(vertices@, faces@, t),
        decreases faces.len() - f,
    {
        let face = faces[f];
        let mut c: usize = 0;
        while c < 3
            invariant
                c <= 3,
                f < faces.len() <= 65535,
                face == faces@[f as int],
                keys@.len() == 3 * f + c,
                forall|g: int, d: int|
                    0 <= g < f && 0 <= d < 3 ==> (#[trigger] faces@[g].vertices@[d]) < vertices@.len(),
                forall|d: int| 0 <= d < c ==> (#[trigger] face.vertices@[d]) < vertices@.len(),
                forall|t: int| 0 <= t < 3 * f + c ==> #[trigger] keys@[t] == corner_keys(vertices@, faces@, t),
            decreases 3 - c,
        {
            let v = face.vertices[c] as usize;
            if v >= vertices.len() {
                assert(!(faces@[f as int].vertices@[c as int] < vertices@.len()));
                return None;
            }
            let point = vertices[v].point;
            let t = 3 * f + c;
            assert(t / 3 == f && t % 3 == c);
            keys.push(
                (
                    (point.x.0 as i64 + 0x8000_0000) as u32,
                    (point.y.0 as i64 + 0x8000_0000) as u32,
                    (point.z.0 as i64 + 0x8000_0000) as u32,
                    t as u32,
                ),
            );
            c += 1;
        }
        f += 1;
    }
    let ghost unsorted = keys@;
    sort_quads(&mut keys);
    let ghost sorted = keys@;
    proof {
        sorted.to_multiset_ensures();
        unsorted.to_multiset_ensures();
        assert(unsorted.no_duplicates()) by {
            assert forall|a: int, b: int| 0 <= a < unsorted.len() && 0 <= b < unsorted.len() && a != b implies unsorted[a]
                != unsorted[b] by {
                assert(unsorted[a].3 == a as u32 && unsorted[b].3 == b as u32);
            }
        }
        unsorted.lemma_multiset_has_no_duplicates();
        sorted.lemma_multiset_has_no_duplicates_conv();
        assert forall|p: int| 0 <= p < n implies (#[trigger] sorted[p]).3 < n && sorted[p] == corner_keys(
            vertices@,
            faces@,
            sorted[p].3 as int,
        ) by {
            assert(sorted.to_multiset().contains(sorted[p]));
            assert(unsorted.contains(sorted[p]));
            let m = choose|m: int| 0 <= m < unsorted.len() && unsorted[m] == sorted[p];
            assert(unsorted[m] == corner_keys(vertices@, faces@, m));
        }
    }
    let mut order: Vec<u32> = Vec::new();
    let mut ends: Vec<usize> = Vec::new();
    let mut p: usize = 0;
    while p < n
        invariant
            p <= n,
            n == 3 * faces@.len(),
            n <= 196605,
            keys@ == sorted,
            sorted.len() == n,
            quads_ascending(sorted),
            sorted.no_duplicates(),
            forall|q: int|
                0 <= q < n ==> (#[trigger] sorted[q]).3 < n && sorted[q] == corner_keys(
                    vertices@,
                    faces@,
                    sorted[q].3 as int,
                ),
            corners_valid(vertices@, faces@),
            order@.len() == p,
            forall|q: int| 0 <= q < p ==> #[trigger] order@[q] == sorted[q].3,
            forall|a: int, b: int| 0 <= a < b < ends@.len() ==> ends@[a] < ends@[b],
            forall|a: int| 0 <= a < ends@.len() ==> 1 <= #[trigger] ends@[a] <= p,
            forall|q: usize| #[trigger] ends@.contains(q) <==> q <= p && keys_end(sorted, q as int),
        decreases n - p,
    {
        let here = keys[p];
        order.push(here.3);
        let next = p + 1;
        let ends_here = if next == n {
            true
        } else {
            let after = keys[next];
            here.0 != after.0 || here.1 != after.1 || here.2 != after.2
        };
        let ghost ends_before = ends@;
        if ends_here {
            ends.push(next);
        }
        proof {
            assert forall|q: usize| #[trigger] ends@.contains(q) <==> q <= p + 1 && keys_end(sorted, q as int) by {
                if ends@.contains(q) {
                    let a = choose|a: int| 0 <= a < ends@.len() && ends@[a] == q;
                    if a < ends_before.len() {
                        assert(ends_before[a] == q);
                        assert(ends_before.contains(q));
                    }
                }
                if q <= p + 1 && keys_end(sorted, q as int) {
                    if q <= p {
                        assert(ends_before.contains(q));
                        let a = choose|a: int| 0 <= a < ends_before.len() && ends_before[a] == q;
                        assert(ends@[a] == q);
                    } else {
                        assert(ends@[ends_before.len() as int] == q);
                    }
                }
            }
        }
        p += 1;
    }
    let w = Weld { order, ends };
    proof {
        assert forall|a: int, b: int| 0 <= a < b < n implies w.order@[a] != w.order@[b] by {
            assert(sorted[a] != sorted[b]);
        }
        assert forall|a: int, b: int| 0 <= a < b < n implies quad_le(
            corner_keys(vertices@, faces@, w.order@[a] as int),
            corner_keys(vertices@, faces@, w.order@[b] as int),
        ) by {
            assert(quad_le(sorted[a], sorted[b]));
        }
        assert forall|q: usize| #[trigger] w.ends@.contains(q) <==> is_cluster_end(
            vertices@,
            faces@,
            w.order@,
            q as int,
        ) by {
            if 1 <= q < n {
                let a = corner_point(vertices@, faces@, w.order@[q - 1] as int);
                let b = corner_point(vertices@, faces@, w.order@[q as int] as int);
                lemma_shifted(a.x, b.x);
                lemma_shifted(a.y, b.y);
                lemma_shifted(a.z, b.z);
                assert(sorted[q - 1] == corner_keys(vertices@, faces@, sorted[q - 1].3 as int));
                assert(sorted[q as int] == corner_keys(vertices@, faces@, sorted[q as int].3 as int));
            }
        }
    }
    Some(w)
}


/// Where byte `o` of a vertex lies in the other byte order: five scalars,
/// four single bytes, four fields of two bytes.
pub open spec fn vertex_mirror(o: int) -> int {
    if o < 20 {
        mirrored(o, 0, 4)
    } else if 24 <= o {
        mirrored(o, 24, 2)
    } else {
        o
    }
}

/// Where byte `o` of a face lies in the other byte order: six indices, the
/// material, the smoothing mask, two single bytes, the normal, the plane
/// constant, and two bytes that are not read.
pub open spec fn face_mirror(o: int) -> int {
    if o < 12 {
        mirrored(o, 0, 2)
    } else if o < 16 {
        mirrored(o, 12, 4)
    } else if o < 18 {
        mirrored(o, 16, 2)
    } else if o < 20 {
        o
    } else if o < 26 {
        mirrored(o, 20, 2)
    } else if o < 30 {
        mirrored(o, 26, 4)
    } else {
        o
    }
}

/// Where byte `i` of a model lies in the other byte order. Of a model
/// that would be rejected, only the header is swapped.
pub open spec fn model_mirror(input: Seq<u8>, e: Endian, i: int) -> int {
    let header = ModelOnFile::of(input, e);
    if i < 8 {
        mirrored(i, 0, 2)
    } else if i < MODEL_HEADER {
        mirrored(i, 8, 4)
    } else if model_error(input, e).is_some() {
        i
    } else if i < header.faces_at() {
        i - (i - MODEL_HEADER) % (VERTEX_SIZE as int) + vertex_mirror((i - MODEL_HEADER) % (VERTEX_SIZE as int))
    } else {
        i - (i - header.faces_at()) % (FACE_SIZE as int) + face_mirror(
            (i - header.faces_at()) % (FACE_SIZE as int),
        )
    }
}

/// The model as it is written in the other byte order.
#[verifier::opaque]
pub open spec fn model_swapped(input: Seq<u8>, e: Endian) -> Seq<u8> {
    Seq::new(input.len(), |i: int| input[model_mirror(input, e, i)])
}

/// Where byte `o` of the header lies in the other byte order: four fields
/// of two bytes, then ten scalars.
pub open spec fn header_mirror(o: int) -> int {
    if o < 8 {
        mirrored(o, 0, 2)
    } else {
        mirrored(o, 8, 4)
    }
}

/// The counterpart of a model is as long as the model, and the bytes of its
/// header lie where `header_mirror` says.
proof fn lemma_header_bytes(input: Seq<u8>, e: Endian)
    requires
        input.len() >= MODEL_HEADER,
    ensures
        model_swapped(input, e).len() == input.len(),
        forall|o: int| 0 <= o < 48 ==> #[trigger] model_swapped(input, e)[o] == input[header_mirror(o)],
{
    reveal(model_swapped);
}

/// A header whose bytes lie where `header_mirror` says reads the same in
/// the other byte order.
proof fn lemma_words_of_header(other: Seq<u8>, input: Seq<u8>, e: Endian)
    requires
        forall|o: int| 0 <= o < 48 ==> #[trigger] other[o] == input[header_mirror(o)],
    ensures
        ModelOnFile::of(other, e.flipped()) == ModelOnFile::of(input, e),
        u16_at(other, 0, e.flipped()) == u16_at(input, 0, e),
{
    assert(other[0] == input[header_mirror(0)]);
    assert(other[1] == input[header_mirror(1)]);
    lemma_half_mirrored(other, input, 0, e);
    assert(other[4] == input[header_mirror(4)]);
    assert(other[5] == input[header_mirror(5)]);
    lemma_half_mirrored(other, input, 4, e);
    assert(other[6] == input[header_mirror(6)]);
    assert(other[7] == input[header_mirror(7)]);
    lemma_half_mirrored(other, input, 6, e);
    lemma_word_of_header(other, input, 8, e);
    lemma_word_of_header(other, input, 12, e);
    lemma_word_of_header(other, input, 16, e);
    lemma_word_of_header(other, input, 20, e);
    lemma_word_of_header(other, input, 24, e);
    lemma_word_of_header(other, input, 28, e);
    lemma_word_of_header(other, input, 32, e);
    lemma_word_of_header(other, input, 36, e);
    lemma_word_of_header(other, input, 40, e);
    lemma_word_of_header(other, input, 44, e);
}

/// One scalar of such a header reads the same in the other byte order.
proof fn lemma_word_of_header(other: Seq<u8>, input: Seq<u8>, at: int, e: Endian)
    requires
        forall|o: int| 0 <= o < 48 ==> #[trigger] other[o] == input[header_mirror(o)],
        8 <= at <= 44,
        (at - 8) % 4 == 0,
    ensures
        Scalar::at(other, at, e.flipped()) == Scalar::at(input, at, e),
{
    assert(other[at] == input[header_mirror(at)]);
    assert(other[at + 1] == input[header_mirror(at + 1)]);
    assert(other[at + 2] == input[header_mirror(at + 2)]);
    assert(other[at + 3] == input[header_mirror(at + 3)]);
    assert((at + 1 - 8) / 4 == (at - 8) / 4);
    assert((at + 2 - 8) / 4 == (at - 8) / 4);
    assert((at + 3 - 8) / 4 == (at - 8) / 4);
    lemma_word_mirrored(other, input, at, e);
}

/// The counterpart of a model is as long as the model, and its header is
/// the header in the other byte order.
proof fn lemma_header_swapped(input: Seq<u8>, e: Endian)
    requires
        input.len() >= MODEL_HEADER,
    ensures
        model_swapped(input, e).len() == input.len(),
        ModelOnFile::of(model_swapped(input, e), e.flipped()) == ModelOnFile::of(input, e),
        u16_at(model_swapped(input, e), 0, e.flipped()) == u16_at(input, 0, e),
{
    lemma_header_bytes(input, e);
    lemma_words_of_header(model_swapped(input, e), input, e);
}

/// Byte `o` of record `k` of a run of records of 32 bytes that starts at
/// `start` is byte `o` of that record.
proof fn lemma_record_byte(start: int, k: int, o: int)
    requires
        0 <= k,
        0 <= o < 32,
    ensures
        (start + 32 * k + o - start) % 32 == o,
{
}

/// Where the bytes of vertex `k` lie in the counterpart.
proof fn lemma_vertex_bytes(input: Seq<u8>, e: Endian, k: int)
    requires
        input.len() >= MODEL_HEADER,
        model_error(input, e).is_none(),
        0 <= k < ModelOnFile::of(input, e).vertex_count,
    ensures
        forall|o: int|
            0 <= o < 32 ==> #[trigger] model_swapped(input, e)[MODEL_HEADER + VERTEX_SIZE * k + o]
                == input[MODEL_HEADER + VERTEX_SIZE * k + vertex_mirror(o)],
{
    reveal(model_swapped);
    let base = MODEL_HEADER + VERTEX_SIZE * k;
    assert forall|o: int| 0 <= o < 32 implies #[trigger] model_swapped(input, e)[base + o] == input[base
        + vertex_mirror(o)] by {
        lemma_record_byte(MODEL_HEADER as int, k, o);
    }
}

/// Where the bytes of face `k` lie in the counterpart.
proof fn lemma_face_bytes(input: Seq<u8>, e: Endian, k: int)
    requires
        input.len() >= MODEL_HEADER,
        model_error(input, e).is_none(),
        0 <= k < ModelOnFile::of(input, e).face_count,
    ensures
        forall|o: int|
            0 <= o < 32 ==> #[trigger] model_swapped(input, e)[ModelOnFile::of(input, e).faces_at() + FACE_SIZE
                * k + o] == input[ModelOnFile::of(input, e).faces_at() + FACE_SIZE * k + face_mirror(o)],
{
    reveal(model_swapped);
    let start = ModelOnFile::of(input, e).faces_at();
    let base = start + FACE_SIZE * k;
    assert forall|o: int| 0 <= o < 32 implies #[trigger] model_swapped(input, e)[base + o] == input[base
        + face_mirror(o)] by {
        lemma_record_byte(start, k, o);
    }
}

/// A vertex reads the same from a model and from its counterpart.
proof fn lemma_vertex_swapped(input: Seq<u8>, e: Endian, k: int)
    requires
        input.len() >= MODEL_HEADER,
        model_error(input, e).is_none(),
        0 <= k < ModelOnFile::of(input, e).vertex_count,
    ensures
        VertexOnFile::at(model_swapped(input, e), MODEL_HEADER + VERTEX_SIZE * k, e.flipped())
            == VertexOnFile::at(input, MODEL_HEADER + VERTEX_SIZE * k, e),
{
    let other = model_swapped(input, e);
    let base = MODEL_HEADER + VERTEX_SIZE * k;
    lemma_vertex_bytes(input, e, k);
    assert forall|o: int| 0 <= o < 32 implies other[base + o] == input[base + vertex_mirror(o)] by {
        assert(other[MODEL_HEADER + VERTEX_SIZE * k + o] == input[MODEL_HEADER + VERTEX_SIZE * k + vertex_mirror(o)]);
    }
    lemma_words_of_vertex(other, input, base, e);
}

/// A vertex whose bytes lie where `vertex_mirror` says reads the same in
/// the other byte order.
proof fn lemma_words_of_vertex(other: Seq<u8>, input: Seq<u8>, base: int, e: Endian)
    requires
        forall|o: int| 0 <= o < 32 ==> other[base + o] == input[base + vertex_mirror(o)],
    ensures
        VertexOnFile::at(other, base, e.flipped()) == VertexOnFile::at(input, base, e),
{
    assert(other[base + 0] == input[base + vertex_mirror(0)]);
    assert(other[base + 1] == input[base + vertex_mirror(1)]);
    assert(other[base + 2] == input[base + vertex_mirror(2)]);
    assert(other[base + 3] == input[base + vertex_mirror(3)]);
    lemma_word_mirrored(other, input, base, e);
    assert(other[base + 4] == input[base + vertex_mirror(4)]);
    assert(other[base + 5] == input[base + vertex_mirror(5)]);
    assert(other[base + 6] == input[base + vertex_mirror(6)]);
    assert(other[base + 7] == input[base + vertex_mirror(7)]);
    lemma_word_mirrored(other, input, base + 4, e);
    assert(other[base + 8] == input[base + vertex_mirror(8)]);
    assert(other[base + 9] == input[base + vertex_mirror(9)]);
    assert(other[base + 10] == input[base + vertex_mirror(10)]);
    assert(other[base + 11] == input[base + vertex_mirror(11)]);
    lemma_word_mirrored(other, input, base + 8, e);
    assert(other[base + 12] == input[base + vertex_mirror(12)]);
    assert(other[base + 13] == input[base + vertex_mirror(13)]);
    assert(other[base + 14] == input[base + vertex_mirror(14)]);
    assert(other[base + 15] == input[base + vertex_mirror(15)]);
    lemma_word_mirrored(other, input, base + 12, e);
    assert(other[base + 16] == input[base + vertex_mirror(16)]);
    assert(other[base + 17] == input[base + vertex_mirror(17)]);
    assert(other[base + 18] == input[base + vertex_mirror(18)]);
    assert(other[base + 19] == input[base + vertex_mirror(19)]);
    lemma_word_mirrored(other, input, base + 16, e);
    assert(other[base + 20] == input[base + vertex_mirror(20)]);
    assert(other[base + 21] == input[base + vertex_mirror(21)]);
    assert(other[base + 22] == input[base + vertex_mirror(22)]);
    assert(other[base + 23] == input[base + vertex_mirror(23)]);
    assert(other[base + 26] == input[base + vertex_mirror(26)]);
    assert(other[base + 27] == input[base + vertex_mirror(27)]);
    lemma_half_mirrored(other, input, base + 26, e);
    assert(other[base + 28] == input[base + vertex_mirror(28)]);
    assert(other[base + 29] == input[base + vertex_mirror(29)]);
    lemma_half_mirrored(other, input, base + 28, e);
    assert(other[base + 30] == input[base + vertex_mirror(30)]);
    assert(other[base + 31] == input[base + vertex_mirror(31)]);
    lemma_half_mirrored(other, input, base + 30, e);
}

/// A face whose bytes lie where `face_mirror` says reads the same in the
/// other byte order.
proof fn lemma_words_of_face(other: Seq<u8>, input: Seq<u8>, base: int, e: Endian)
    requires
        forall|o: int| 0 <= o < 32 ==> other[base + o] == input[base + face_mirror(o)],
    ensures
        FaceOnFile::at(other, base, e.flipped()) == FaceOnFile::at(input, base, e),
{
    assert(other[base + 0] == input[base + face_mirror(0)]);
    assert(other[base + 1] == input[base + face_mirror(1)]);
    lemma_half_mirrored(other, input, base, e);
    assert(other[base + 2] == input[base + face_mirror(2)]);
    assert(other[base + 3] == input[base + face_mirror(3)]);
    lemma_half_mirrored(other, input, base + 2, e);
    assert(other[base + 4] == input[base + face_mirror(4)]);
    assert(other[base + 5] == input[base + face_mirror(5)]);
    lemma_half_mirrored(other, input, base + 4, e);
    assert(other[base + 6] == input[base + face_mirror(6)]);
    assert(other[base + 7] == input[base + face_mirror(7)]);
    lemma_half_mirrored(other, input, base + 6, e);
    assert(other[base + 8] == input[base + face_mirror(8)]);
    assert(other[base + 9] == input[base + face_mirror(9)]);
    lemma_half_mirrored(other, input, base + 8, e);
    assert(other[base + 10] == input[base + face_mirror(10)]);
    assert(other[base + 11] == input[base + face_mirror(11)]);
    lemma_half_mirrored(other, input, base + 10, e);
    assert(other[base + 12] == input[base + face_mirror(12)]);
    assert(other[base + 13] == input[base + face_mirror(13)]);
    assert(other[base + 14] == input[base + face_mirror(14)]);
    assert(other[base + 15] == input[base + face_mirror(15)]);
    lemma_word_mirrored(other, input, base + 12, e);
    assert(other[base + 16] == input[base + face_mirror(16)]);
    assert(other[base + 17] == input[base + face_mirror(17)]);
    lemma_half_mirrored(other, input, base + 16, e);
    assert(other[base + 18] == input[base + face_mirror(18)]);
    assert(other[base + 20] == input[base + face_mirror(20)]);
    assert(other[base + 21] == input[base + face_mirror(21)]);
    lemma_half_mirrored(other, input, base + 20, e);
    assert(other[base + 22] == input[base + face_mirror(22)]);
    assert(other[base + 23] == input[base + face_mirror(23)]);
    lemma_half_mirrored(other, input, base + 22, e);
    assert(other[base + 24] == input[base + face_mirror(24)]);
    assert(other[base + 25] == input[base + face_mirror(25)]);
    lemma_half_mirrored(other, input, base + 24, e);
    assert(other[base + 26] == input[base + face_mirror(26)]);
    assert(other[base + 27] == input[base + face_mirror(27)]);
    assert(other[base + 28] == input[base + face_mirror(28)]);
    assert(other[base + 29] == input[base + face_mirror(29)]);
    lemma_word_mirrored(other, input, base + 26, e);
    let a = FaceOnFile::at(other, base, e.flipped());
    let b = FaceOnFile::at(input, base, e);
    assert(a.vertices@ =~= b.vertices@);
    assert(a.edges@ =~= b.edges@);
    assert(a.vertices == b.vertices);
    assert(a.edges == b.edges);
}

/// A face reads the same from a model and from its counterpart.
proof fn lemma_face_swapped(input: Seq<u8>, e: Endian, k: int)
    requires
        input.len() >= MODEL_HEADER,
        model_error(input, e).is_none(),
        0 <= k < ModelOnFile::of(input, e).face_count,
    ensures
        FaceOnFile::at(
            model_swapped(input, e),
            ModelOnFile::of(input, e).faces_at() + FACE_SIZE * k,
            e.flipped(),
        ) == FaceOnFile::at(input, ModelOnFile::of(input, e).faces_at() + FACE_SIZE * k, e),
{
    let other = model_swapped(input, e);
    let base = ModelOnFile::of(input, e).faces_at() + FACE_SIZE * k;
    lemma_face_bytes(input, e, k);
    assert forall|o: int| 0 <= o < 32 implies other[base + o] == input[base + face_mirror(o)] by {
        assert(other[ModelOnFile::of(input, e).faces_at() + FACE_SIZE * k + o] == input[ModelOnFile::of(
            input,
            e,
        ).faces_at() + FACE_SIZE * k + face_mirror(o)]);
    }
    lemma_words_of_face(other, input, base, e);
}

impl<'a> Symmetric<'a> for Model {
    open spec fn byte_swapped(input: Seq<u8>, e: Endian) -> Seq<u8> {
        model_swapped(input, e)
    }

    open spec fn swappable(input: Seq<u8>, e: Endian) -> bool {
        true
    }

    proof fn lemma_byte_swapped(input: Seq<u8>, e: Endian, r: Result<Self, Error>) {
        let other = model_swapped(input, e);
        let header = ModelOnFile::of(input, e);
        lemma_header_swapped(input, e);
        assert(model_error(other, e.flipped()) == model_error(input, e));
        if model_error(input, e).is_none() {
            assert(model_vertices(other, e.flipped()) =~= model_vertices(input, e)) by {
                assert forall|k: int| 0 <= k < header.vertex_count implies #[trigger] model_vertices(
                    other,
                    e.flipped(),
                )[k] == model_vertices(input, e)[k] by {
                    lemma_vertex_swapped(input, e, k);
                }
            }
            assert(model_faces(other, e.flipped()) =~= model_faces(input, e)) by {
                assert forall|k: int| 0 <= k < header.face_count implies #[trigger] model_faces(
                    other,
                    e.flipped(),
                )[k] == model_faces(input, e)[k] by {
                    lemma_face_swapped(input, e, k);
                }
            }
            assert(decoded_faces(other, e.flipped()) =~= decoded_faces(input, e));
        }
    }
}

} // verus!
