//! Model to text.
use vstd::prelude::*;
use crate::dedup::{distinct, interned, table_of, NameTable};
use crate::grammar::{
    bytes_text, doc_text, face_block, faces_text, lod_header, lod_text, lods_text, materials_of, normal_line,
    normals_text, point_line, points_text, real_text, tag_line, tagg_prefix, tags_text, terminator_line,
    textures_of, triple_text, vertex_text, vertices_text, decl_text, face_line, newline,
};
use crate::hex::{push_byte_hex, push_hex};
use crate::model::{Document, Face, Lod, Point, Real, Vertex};

verus! {

fn push_all(out: &mut Vec<u8>, s: &Vec<u8>)
    ensures
        final(out)@ == old(out)@ + s@,
{
    let ghost o = out@;
    let mut i: usize = 0;
    while i < s.len()
        invariant
            i <= s@.len(),
            out@ == o + s@.subrange(0, i as int),
        decreases s@.len() - i,
    {
        out.push(s[i]);
        i = i + 1;
        assert(out@ =~= o + s@.subrange(0, i as int));
    }
    assert(s@.subrange(0, s@.len() as int) =~= s@);
}

/// Appends the token of a float.
pub fn push_real(out: &mut Vec<u8>, r: &Real)
    ensures
        final(out)@ == old(out)@ + real_text(*r),
{
    match r {
        Real::Bits(b) => push_hex(out, *b as u64),
        Real::Decimal(s) => push_all(out, s),
    }
}

fn push_triple(out: &mut Vec<u8>, t: &(Real, Real, Real))
    ensures
        final(out)@ == old(out)@ + triple_text(*t),
{
    let ghost o = out@;
    push_real(out, &t.0);
    out.push(44);
    push_real(out, &t.1);
    out.push(44);
    push_real(out, &t.2);
    assert(out@ =~= o + triple_text(*t));
}

fn push_point_line(out: &mut Vec<u8>, p: &Point)
    ensures
        final(out)@ == old(out)@ + point_line(*p),
{
    let ghost o = out@;
    out.push(80);
    out.push(58);
    push_triple(out, &p.coords);
    out.push(44);
    push_hex(out, p.flags as u64);
    out.push(10);
    assert(out@ =~= o + point_line(*p));
}

fn push_normal_line(out: &mut Vec<u8>, n: &(Real, Real, Real))
    ensures
        final(out)@ == old(out)@ + normal_line(*n),
{
    let ghost o = out@;
    out.push(78);
    out.push(58);
    push_triple(out, n);
    out.push(10);
    assert(out@ =~= o + normal_line(*n));
}

fn push_vertex(out: &mut Vec<u8>, v: &Vertex)
    ensures
        final(out)@ == old(out)@ + vertex_text(*v),
{
    let ghost o = out@;
    push_hex(out, v.point_index as u64);
    out.push(44);
    push_hex(out, v.normal_index as u64);
    out.push(44);
    push_real(out, &v.uv.0);
    out.push(44);
    push_real(out, &v.uv.1);
    assert(out@ =~= o + vertex_text(*v));
}

fn push_vertices(out: &mut Vec<u8>, vs: &Vec<Vertex>)
    ensures
        final(out)@ == old(out)@ + vertices_text(vs@),
{
    let ghost o = out@;
    let mut i: usize = 0;
    while i < vs.len()
        invariant
            i <= vs@.len(),
            out@ == o + vertices_text(vs@.subrange(0, i as int)),
        decreases vs@.len() - i,
    {
        let ghost pre = vs@.subrange(0, i as int);
        let ghost next = vs@.subrange(0, i + 1);
        assert(next.drop_last() =~= pre);
        if i > 0 {
            out.push(44);
        }
        push_vertex(out, &vs[i]);
        i = i + 1;
        if i == 1 {
            assert(out@ =~= o + vertices_text(next));
        } else {
            assert(out@ =~= o + vertices_text(next));
        }
    }
    assert(vs@.subrange(0, vs@.len() as int) =~= vs@);
}

fn push_decl(out: &mut Vec<u8>, kind: u8, name: &Vec<u8>)
    ensures
        final(out)@ == old(out)@ + seq![kind, 58u8] + name@ + newline(),
{
    let ghost o = out@;
    out.push(kind);
    out.push(58);
    push_all(out, name);
    out.push(10);
    assert(out@ =~= o + seq![kind, 58u8] + name@ + newline());
}

fn push_face_line(out: &mut Vec<u8>, t_id: usize, m_id: usize, f: &Face)
    ensures
        final(out)@ == old(out)@ + face_line(t_id as nat, m_id as nat, *f),
{
    let ghost o = out@;
    out.push(70);
    out.push(58);
    push_hex(out, t_id as u64);
    out.push(44);
    push_hex(out, m_id as u64);
    out.push(44);
    push_hex(out, f.flags as u64);
    out.push(44);
    push_vertices(out, &f.vertices);
    out.push(10);
    assert(out@ =~= o + face_line(t_id as nat, m_id as nat, *f));
}

fn push_face(out: &mut Vec<u8>, textures: &mut NameTable, materials: &mut NameTable, f: &Face)
    requires
        distinct(old(textures)@),
        distinct(old(materials)@),
    ensures
        final(out)@ == old(out)@ + face_block(old(textures)@, old(materials)@, *f),
        final(textures)@ == interned(old(textures)@, f.texture@),
        final(materials)@ == interned(old(materials)@, f.material@),
        distinct(final(textures)@),
        distinct(final(materials)@),
{
    let ghost o = out@;
    let ghost tt = textures@;
    let ghost mt = materials@;
    let (t_new, t_id) = textures.intern(&f.texture);
    let (m_new, m_id) = materials.intern(&f.material);
    if t_new {
        push_decl(out, 84, &f.texture);
    }
    let ghost o2 = out@;
    assert(o2 =~= o + decl_text(84u8, tt, f.texture@));
    if m_new {
        push_decl(out, 77, &f.material);
    }
    let ghost o3 = out@;
    assert(o3 =~= o2 + decl_text(77u8, mt, f.material@));
    push_face_line(out, t_id, m_id, f);
    assert(face_block(tt, mt, *f) == decl_text(84u8, tt, f.texture@) + decl_text(77u8, mt, f.material@)
        + face_line(t_id as nat, m_id as nat, *f));
    assert(out@ =~= o + face_block(tt, mt, *f));
}

fn push_faces(out: &mut Vec<u8>, fs: &Vec<Face>)
    ensures
        final(out)@ == old(out)@ + faces_text(fs@),
{
    let ghost o = out@;
    let mut textures = NameTable::new();
    let mut materials = NameTable::new();
    let mut i: usize = 0;
    assert(textures_of(fs@.subrange(0, 0)) =~= Seq::<Seq<u8>>::empty());
    assert(materials_of(fs@.subrange(0, 0)) =~= Seq::<Seq<u8>>::empty());
    while i < fs.len()
        invariant
            i <= fs@.len(),
            out@ == o + faces_text(fs@.subrange(0, i as int)),
            textures@ == table_of(textures_of(fs@.subrange(0, i as int))),
            materials@ == table_of(materials_of(fs@.subrange(0, i as int))),
            distinct(textures@),
            distinct(materials@),
        decreases fs@.len() - i,
    {
        let ghost pre = fs@.subrange(0, i as int);
        let ghost next = fs@.subrange(0, i + 1);
        assert(next.drop_last() =~= pre);
        assert(textures_of(next).drop_last() =~= textures_of(pre));
        assert(materials_of(next).drop_last() =~= materials_of(pre));
        push_face(out, &mut textures, &mut materials, &fs[i]);
        i = i + 1;
        assert(out@ =~= o + faces_text(next));
    }
    assert(fs@.subrange(0, fs@.len() as int) =~= fs@);
}

fn push_bytes_hex(out: &mut Vec<u8>, b: &Vec<u8>)
    ensures
        final(out)@ == old(out)@ + bytes_text(b@),
{
    let ghost o = out@;
    let mut i: usize = 0;
    while i < b.len()
        invariant
            i <= b@.len(),
            out@ == o + bytes_text(b@.subrange(0, i as int)),
        decreases b@.len() - i,
    {
        let ghost next = b@.subrange(0, i + 1);
        assert(next.drop_last() =~= b@.subrange(0, i as int));
        push_byte_hex(out, b[i]);
        i = i + 1;
        assert(out@ =~= o + bytes_text(next));
    }
    assert(b@.subrange(0, b@.len() as int) =~= b@);
}

fn push_tagg_prefix(out: &mut Vec<u8>)
    ensures
        final(out)@ == old(out)@ + tagg_prefix(),
{
    let ghost o = out@;
    out.push(84);
    out.push(65);
    out.push(71);
    out.push(71);
    out.push(58);
    assert(out@ =~= o + tagg_prefix());
}

fn push_tags(out: &mut Vec<u8>, l: &Lod)
    ensures
        final(out)@ == old(out)@ + tags_text(l.taggs.entries()) + terminator_line(),
{
    let ghost o = out@;
    let ghost es = l.taggs.entries();
    let pairs = l.taggs.pairs();
    let mut i: usize = 0;
    while i < pairs.len()
        invariant
            i <= pairs@.len(),
            pairs@.len() == es.len(),
            es == l.taggs.entries(),
            forall|k: int| 0 <= k < pairs@.len() ==> (#[trigger] pairs@[k]).0@ == es[k].0 && pairs@[k].1@ == es[k].1,
            out@ == o + tags_text(es.subrange(0, i as int)),
        decreases pairs@.len() - i,
    {
        let ghost next = es.subrange(0, i + 1);
        assert(next.drop_last() =~= es.subrange(0, i as int));
        let ghost o1 = out@;
        push_tagg_prefix(out);
        push_all(out, &pairs[i].0);
        out.push(61);
        push_bytes_hex(out, &pairs[i].1);
        out.push(10);
        assert(out@ =~= o1 + tag_line(es[i as int]));
        i = i + 1;
        assert(out@ =~= o + tags_text(next));
    }
    assert(es.subrange(0, es.len() as int) =~= es);
    let ghost o4 = out@;
    push_tagg_prefix(out);
    let end: Vec<u8> = vec![35u8, 69u8, 110u8, 100u8, 79u8, 102u8, 70u8, 105u8, 108u8, 101u8, 35u8, 61u8, 10u8];
    push_all(out, &end);
    assert(out@ =~= o4 + terminator_line());
}

fn push_lod(out: &mut Vec<u8>, l: &Lod)
    ensures
        final(out)@ == old(out)@ + lod_text(*l),
{
    let ghost o = out@;
    out.push(91);
    if let Real::Bits(_) = l.resolution {
        out.push(48);
        out.push(120);
    }
    push_real(out, &l.resolution);
    out.push(93);
    out.push(10);
    out.push(118);
    push_hex(out, l.version_major as u64);
    out.push(46);
    push_hex(out, l.version_minor as u64);
    out.push(10);
    assert(out@ =~= o + lod_header(*l));
    let ghost o1 = out@;
    let mut i: usize = 0;
    while i < l.points.len()
        invariant
            i <= l.points@.len(),
            out@ == o1 + points_text(l.points@.subrange(0, i as int)),
        decreases l.points@.len() - i,
    {
        let ghost next = l.points@.subrange(0, i + 1);
        assert(next.drop_last() =~= l.points@.subrange(0, i as int));
        push_point_line(out, &l.points[i]);
        i = i + 1;
        assert(out@ =~= o1 + points_text(next));
    }
    assert(l.points@.subrange(0, l.points@.len() as int) =~= l.points@);
    let ghost o2 = out@;
    let mut j: usize = 0;
    while j < l.face_normals.len()
        invariant
            j <= l.face_normals@.len(),
            out@ == o2 + normals_text(l.face_normals@.subrange(0, j as int)),
        decreases l.face_normals@.len() - j,
    {
        let ghost next = l.face_normals@.subrange(0, j + 1);
        assert(next.drop_last() =~= l.face_normals@.subrange(0, j as int));
        push_normal_line(out, &l.face_normals[j]);
        j = j + 1;
        assert(out@ =~= o2 + normals_text(next));
    }
    assert(l.face_normals@.subrange(0, l.face_normals@.len() as int) =~= l.face_normals@);
    push_faces(out, &l.faces);
    push_tags(out, l);
    assert(out@ =~= o + lod_text(*l));
}

/// The text form of a document. Each LOD is written in its own float mode:
/// lossless where its resolution is a bit pattern, decimal otherwise.
pub fn encode_document(d: &Document) -> (r: Vec<u8>)
    ensures
        r@ == doc_text(*d),
{
    let mut out: Vec<u8> = Vec::new();
    out.push(118);
    push_hex(&mut out, d.version as u64);
    out.push(10);
    let ghost o = out@;
    let mut i: usize = 0;
    while i < d.lods.len()
        invariant
            i <= d.lods@.len(),
            out@ == o + lods_text(d.lods@.subrange(0, i as int)),
        decreases d.lods@.len() - i,
    {
        let ghost next = d.lods@.subrange(0, i + 1);
        assert(next.drop_last() =~= d.lods@.subrange(0, i as int));
        push_lod(&mut out, &d.lods[i]);
        i = i + 1;
        assert(out@ =~= o + lods_text(next));
    }
    assert(d.lods@.subrange(0, d.lods@.len() as int) =~= d.lods@);
    assert(out@ =~= doc_text(*d));
    out
}

} // verus!
