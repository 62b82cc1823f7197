//! The in-memory model of a document: LODs of points, normals, faces and tags.
use vstd::prelude::*;
use crate::tags::TagStore;

verus! {

/// A 32-bit float as the text carries it: its exact IEEE-754 bit pattern
/// (lossless mode), or a decimal literal (decimal mode).
pub enum Real {
    Bits(u32),
    Decimal(Vec<u8>),
}

/// Whether `c` may stand in a decimal literal.
pub open spec fn decimal_char(c: u8) -> bool {
    (48 <= c && c <= 57) || (65 <= c && c <= 90) || (97 <= c && c <= 122) || c == 46 || c == 43 || c == 45
}

/// A decimal literal that the grammar can carry: not empty, made of digits,
/// letters, `.`, `+` and `-`, and not starting with the lossless prefix `0x`.
pub open spec fn decimal_ok(s: Seq<u8>) -> bool {
    &&& s.len() > 0
    &&& forall|i: int| 0 <= i < s.len() ==> decimal_char(#[trigger] s[i])
    &&& !(s.len() >= 2 && s[0] == 48u8 && s[1] == 120u8)
}

impl Real {
    pub open spec fn is_bits(&self) -> bool {
        self is Bits
    }

    /// A value of the given float mode that the grammar can carry.
    pub open spec fn fits(&self, lossless: bool) -> bool {
        match self {
            Real::Bits(_) => lossless,
            Real::Decimal(s) => !lossless && decimal_ok(s@),
        }
    }
}

/// Whether a name can stand on a line of its own.
pub open spec fn name_ok(s: Seq<u8>) -> bool {
    forall|i: int| 0 <= i < s.len() ==> #[trigger] s[i] != 10u8
}

pub struct Point {
    pub coords: (Real, Real, Real),
    pub flags: u32,
}

pub struct Vertex {
    pub point_index: u32,
    pub normal_index: u32,
    pub uv: (Real, Real),
}

pub struct Face {
    pub vertices: Vec<Vertex>,
    pub flags: u32,
    pub texture: Vec<u8>,
    pub material: Vec<u8>,
}

pub struct Lod {
    pub version_major: u32,
    pub version_minor: u32,
    pub resolution: Real,
    pub points: Vec<Point>,
    pub face_normals: Vec<(Real, Real, Real)>,
    pub faces: Vec<Face>,
    pub taggs: TagStore,
}

pub struct Document {
    pub version: u32,
    pub lods: Vec<Lod>,
}

pub open spec fn triple_fits(t: (Real, Real, Real), lossless: bool) -> bool {
    t.0.fits(lossless) && t.1.fits(lossless) && t.2.fits(lossless)
}

impl Face {
    /// Every vertex refers into the given point and normal counts.
    pub open spec fn refs_ok(&self, n_points: int, n_normals: int) -> bool {
        forall|j: int|
            0 <= j < self.vertices@.len() ==> (#[trigger] self.vertices@[j]).point_index < n_points
                && self.vertices@[j].normal_index < n_normals
    }
}

impl Lod {
    /// The LOD's float mode: lossless exactly when its resolution is a bit pattern.
    pub open spec fn lossless(&self) -> bool {
        self.resolution.is_bits()
    }

    /// Every index refers into this LOD's own lists.
    pub open spec fn refs_ok(&self) -> bool {
        forall|i: int|
            0 <= i < self.faces@.len() ==> (#[trigger] self.faces@[i]).refs_ok(
                self.points@.len() as int,
                self.face_normals@.len() as int,
            )
    }

    /// A LOD that the text form carries faithfully: indices in range, every
    /// float in the LOD's own mode, names on one line, tags well formed.
    pub open spec fn wf(&self) -> bool {
        let m = self.lossless();
        &&& self.refs_ok()
        &&& self.resolution.fits(m)
        &&& forall|i: int| 0 <= i < self.points@.len() ==> triple_fits((#[trigger] self.points@[i]).coords, m)
        &&& forall|i: int| 0 <= i < self.face_normals@.len() ==> triple_fits(#[trigger] self.face_normals@[i], m)
        &&& forall|i: int|
            0 <= i < self.faces@.len() ==> {
                let f = #[trigger] self.faces@[i];
                &&& name_ok(f.texture@)
                &&& name_ok(f.material@)
                &&& forall|j: int|
                    0 <= j < f.vertices@.len() ==> (#[trigger] f.vertices@[j]).uv.0.fits(m)
                        && f.vertices@[j].uv.1.fits(m)
            }
        &&& self.taggs.wf()
    }
}

impl Document {
    pub open spec fn wf(&self) -> bool {
        forall|i: int| 0 <= i < self.lods@.len() ==> (#[trigger] self.lods@[i]).wf()
    }
}

} // verus!
