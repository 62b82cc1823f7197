//! The text form of a document, stated record by record.
use vstd::prelude::*;
use crate::dedup::{id_in, interned, table_of};
use crate::hex::{byte_text, hex_text};
use crate::model::{Document, Face, Lod, Point, Real, Vertex};
use crate::tags::sentinel;

verus! {

pub open spec fn comma() -> Seq<u8> {
    seq![44u8]
}

pub open spec fn newline() -> Seq<u8> {
    seq![10u8]
}

/// The token of a float: hexadecimal bits, or the decimal literal as it stands.
pub open spec fn real_text(r: Real) -> Seq<u8> {
    match r {
        Real::Bits(b) => hex_text(b as nat),
        Real::Decimal(s) => s@,
    }
}

pub open spec fn triple_text(t: (Real, Real, Real)) -> Seq<u8> {
    real_text(t.0) + comma() + real_text(t.1) + comma() + real_text(t.2)
}

/// `P:x,y,z,flags`
pub open spec fn point_line(p: Point) -> Seq<u8> {
    seq![80u8, 58u8] + triple_text(p.coords) + comma() + hex_text(p.flags as nat) + newline()
}

/// `N:x,y,z`
pub open spec fn normal_line(n: (Real, Real, Real)) -> Seq<u8> {
    seq![78u8, 58u8] + triple_text(n) + newline()
}

pub open spec fn points_text(ps: Seq<Point>) -> Seq<u8>
    decreases ps.len(),
{
    if ps.len() == 0 {
        Seq::empty()
    } else {
        points_text(ps.drop_last()) + point_line(ps.last())
    }
}

pub open spec fn normals_text(ns: Seq<(Real, Real, Real)>) -> Seq<u8>
    decreases ns.len(),
{
    if ns.len() == 0 {
        Seq::empty()
    } else {
        normals_text(ns.drop_last()) + normal_line(ns.last())
    }
}

/// `point,normal,u,v`
pub open spec fn vertex_text(v: Vertex) -> Seq<u8> {
    hex_text(v.point_index as nat) + comma() + hex_text(v.normal_index as nat) + comma() + real_text(v.uv.0)
        + comma() + real_text(v.uv.1)
}

/// The vertices joined by commas.
pub open spec fn vertices_text(vs: Seq<Vertex>) -> Seq<u8>
    decreases vs.len(),
{
    if vs.len() == 0 {
        Seq::empty()
    } else if vs.len() == 1 {
        vertex_text(vs[0])
    } else {
        vertices_text(vs.drop_last()) + comma() + vertex_text(vs.last())
    }
}

/// A `T:` or `M:` declaration, present only when the name is new to the table.
pub open spec fn decl_text(kind: u8, table: Seq<Seq<u8>>, name: Seq<u8>) -> Seq<u8> {
    if table.contains(name) {
        Seq::empty()
    } else {
        seq![kind, 58u8] + name + newline()
    }
}

/// `F:texture,material,flags,vertices`
pub open spec fn face_line(t_id: nat, m_id: nat, f: Face) -> Seq<u8> {
    seq![70u8, 58u8] + hex_text(t_id) + comma() + hex_text(m_id) + comma() + hex_text(f.flags as nat) + comma()
        + vertices_text(f.vertices@) + newline()
}

/// A face record after the declarations of the names it is first to use;
/// `tt` and `mt` are the tables before this face.
pub open spec fn face_block(tt: Seq<Seq<u8>>, mt: Seq<Seq<u8>>, f: Face) -> Seq<u8> {
    decl_text(84u8, tt, f.texture@) + decl_text(77u8, mt, f.material@) + face_line(
        id_in(interned(tt, f.texture@), f.texture@) as nat,
        id_in(interned(mt, f.material@), f.material@) as nat,
        f,
    )
}

pub open spec fn textures_of(fs: Seq<Face>) -> Seq<Seq<u8>> {
    fs.map_values(|f: Face| f.texture@)
}

pub open spec fn materials_of(fs: Seq<Face>) -> Seq<Seq<u8>> {
    fs.map_values(|f: Face| f.material@)
}

pub open spec fn faces_text(fs: Seq<Face>) -> Seq<u8>
    decreases fs.len(),
{
    if fs.len() == 0 {
        Seq::empty()
    } else {
        let before = fs.drop_last();
        faces_text(before) + face_block(table_of(textures_of(before)), table_of(materials_of(before)), fs.last())
    }
}

pub open spec fn bytes_text(b: Seq<u8>) -> Seq<u8>
    decreases b.len(),
{
    if b.len() == 0 {
        Seq::empty()
    } else {
        bytes_text(b.drop_last()) + byte_text(b.last())
    }
}

pub open spec fn tagg_prefix() -> Seq<u8> {
    seq![84u8, 65u8, 71u8, 71u8, 58u8]
}

/// `TAGG:name=hexbytes`
pub open spec fn tag_line(e: (Seq<u8>, Seq<u8>)) -> Seq<u8> {
    tagg_prefix() + e.0 + seq![61u8] + bytes_text(e.1) + newline()
}

pub open spec fn tags_text(es: Seq<(Seq<u8>, Seq<u8>)>) -> Seq<u8>
    decreases es.len(),
{
    if es.len() == 0 {
        Seq::empty()
    } else {
        tags_text(es.drop_last()) + tag_line(es.last())
    }
}

/// `TAGG:#EndOfFile#=`, the record that closes a LOD.
pub open spec fn terminator_line() -> Seq<u8> {
    tagg_prefix() + sentinel() + seq![61u8] + newline()
}

/// `[res]` (with `0x` before a lossless resolution) and `vmajor.minor`.
pub open spec fn lod_header(l: Lod) -> Seq<u8> {
    seq![91u8] + (if l.resolution.is_bits() { seq![48u8, 120u8] } else { Seq::empty() }) + real_text(
        l.resolution,
    ) + seq![93u8, 10u8, 118u8] + hex_text(l.version_major as nat) + seq![46u8] + hex_text(
        l.version_minor as nat,
    ) + newline()
}

pub open spec fn lod_text(l: Lod) -> Seq<u8> {
    lod_header(l) + points_text(l.points@) + normals_text(l.face_normals@) + faces_text(l.faces@) + tags_text(
        l.taggs.entries(),
    ) + terminator_line()
}

pub open spec fn lods_text(ls: Seq<Lod>) -> Seq<u8>
    decreases ls.len(),
{
    if ls.len() == 0 {
        Seq::empty()
    } else {
        lods_text(ls.drop_last()) + lod_text(ls.last())
    }
}

/// `vversion`, then each LOD in order.
pub open spec fn doc_text(d: Document) -> Seq<u8> {
    seq![118u8] + hex_text(d.version as nat) + newline() + lods_text(d.lods@)
}

} // verus!
