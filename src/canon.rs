//! Facts about the text the encoder writes, used to show that the decoder
//! reads it back.
use vstd::prelude::*;
use crate::dedup::{id_in, interned, table_of};
use crate::decode::{face_payload, point_payload, tag_payload};
use crate::hex::{all_hex, hex_bytes_of, hex_text, is_hex_digit, lemma_hex_text_value};
use crate::laws::{lemma_dedup_table, lemma_tag_bytes_round_trip};
use crate::tags::{sentinel, tag_name_ok};
use crate::grammar::{
    bytes_text, decl_text, doc_text, face_block, lod_header, lod_text, lods_text, face_line, faces_text, real_text, tagg_prefix, vertex_text, materials_of, normal_line, normals_text, point_line, points_text, tag_line, tags_text,
    terminator_line, textures_of, triple_text, vertices_text,
};
use crate::model::{decimal_ok, name_ok, triple_fits, Document, Face, Lod, Point, Real, Vertex};

verus! {

pub open spec fn is_prefix(a: Seq<u8>, b: Seq<u8>) -> bool {
    a.len() <= b.len() && b.subrange(0, a.len() as int) == a
}

pub proof fn lemma_prefix_trans(a: Seq<u8>, b: Seq<u8>, c: Seq<u8>)
    requires
        is_prefix(a, b),
        is_prefix(b, c),
    ensures
        is_prefix(a, c),
{
    assert(c.subrange(0, a.len() as int) =~= c.subrange(0, b.len() as int).subrange(0, a.len() as int));
}

pub proof fn lemma_prefix_extend(x: Seq<u8>, a: Seq<u8>, b: Seq<u8>)
    requires
        is_prefix(a, b),
    ensures
        is_prefix(x + a, x + b),
{
    assert((x + b).subrange(0, (x + a).len() as int) =~= x + a);
}

pub proof fn lemma_prefix_concat(a: Seq<u8>, b: Seq<u8>)
    ensures
        is_prefix(a, a + b),
{
    assert((a + b).subrange(0, a.len() as int) =~= a);
}

/// The records of a LOD after its two header lines.
pub open spec fn lod_body(l: Lod) -> Seq<u8> {
    points_text(l.points@) + normals_text(l.face_normals@) + faces_text(l.faces@) + tags_text(l.taggs.entries())
        + terminator_line()
}

pub proof fn lemma_points_prefix(ps: Seq<Point>, k: int)
    requires
        0 <= k <= ps.len(),
    ensures
        is_prefix(points_text(ps.subrange(0, k)), points_text(ps)),
    decreases ps.len() - k,
{
    if k == ps.len() {
        assert(ps.subrange(0, k) =~= ps);
        lemma_prefix_concat(points_text(ps), Seq::empty());
        assert(points_text(ps) + Seq::<u8>::empty() =~= points_text(ps));
    } else {
        lemma_points_prefix(ps, k + 1);
        assert(ps.subrange(0, k + 1).drop_last() =~= ps.subrange(0, k));
        lemma_prefix_concat(points_text(ps.subrange(0, k)), point_line(ps[k]));
        lemma_prefix_trans(points_text(ps.subrange(0, k)), points_text(ps.subrange(0, k + 1)), points_text(ps));
    }
}

pub proof fn lemma_normals_prefix(ns: Seq<(Real, Real, Real)>, k: int)
    requires
        0 <= k <= ns.len(),
    ensures
        is_prefix(normals_text(ns.subrange(0, k)), normals_text(ns)),
    decreases ns.len() - k,
{
    if k == ns.len() {
        assert(ns.subrange(0, k) =~= ns);
        lemma_prefix_concat(normals_text(ns), Seq::empty());
        assert(normals_text(ns) + Seq::<u8>::empty() =~= normals_text(ns));
    } else {
        lemma_normals_prefix(ns, k + 1);
        assert(ns.subrange(0, k + 1).drop_last() =~= ns.subrange(0, k));
        lemma_prefix_concat(normals_text(ns.subrange(0, k)), normal_line(ns[k]));
        lemma_prefix_trans(normals_text(ns.subrange(0, k)), normals_text(ns.subrange(0, k + 1)), normals_text(ns));
    }
}

pub proof fn lemma_faces_prefix(fs: Seq<Face>, k: int)
    requires
        0 <= k <= fs.len(),
    ensures
        is_prefix(faces_text(fs.subrange(0, k)), faces_text(fs)),
    decreases fs.len() - k,
{
    if k == fs.len() {
        assert(fs.subrange(0, k) =~= fs);
        lemma_prefix_concat(faces_text(fs), Seq::empty());
        assert(faces_text(fs) + Seq::<u8>::empty() =~= faces_text(fs));
    } else {
        lemma_faces_prefix(fs, k + 1);
        let pre = fs.subrange(0, k);
        assert(fs.subrange(0, k + 1).drop_last() =~= pre);
        lemma_prefix_concat(
            faces_text(pre),
            face_block(table_of(textures_of(pre)), table_of(materials_of(pre)), fs[k]),
        );
        lemma_prefix_trans(faces_text(pre), faces_text(fs.subrange(0, k + 1)), faces_text(fs));
    }
}

pub proof fn lemma_tags_prefix(es: Seq<(Seq<u8>, Seq<u8>)>, k: int)
    requires
        0 <= k <= es.len(),
    ensures
        is_prefix(tags_text(es.subrange(0, k)), tags_text(es)),
    decreases es.len() - k,
{
    if k == es.len() {
        assert(es.subrange(0, k) =~= es);
        lemma_prefix_concat(tags_text(es), Seq::empty());
        assert(tags_text(es) + Seq::<u8>::empty() =~= tags_text(es));
    } else {
        lemma_tags_prefix(es, k + 1);
        assert(es.subrange(0, k + 1).drop_last() =~= es.subrange(0, k));
        lemma_prefix_concat(tags_text(es.subrange(0, k)), tag_line(es[k]));
        lemma_prefix_trans(tags_text(es.subrange(0, k)), tags_text(es.subrange(0, k + 1)), tags_text(es));
    }
}

pub proof fn lemma_points_text_eq(a: Seq<Point>, b: Seq<Point>)
    requires
        a.len() == b.len(),
        forall|k: int| 0 <= k < a.len() ==> point_payload(#[trigger] a[k]) == point_payload(b[k]),
    ensures
        points_text(a) == points_text(b),
    decreases a.len(),
{
    if a.len() > 0 {
        lemma_points_text_eq(a.drop_last(), b.drop_last());
        let (x, y) = (a.last(), b.last());
        assert(point_payload(a[a.len() - 1]) == point_payload(b[b.len() - 1]));
        assert(point_line(x) =~= seq![80u8, 58u8] + point_payload(x) + seq![10u8]);
        assert(point_line(y) =~= seq![80u8, 58u8] + point_payload(y) + seq![10u8]);
    }
}

pub proof fn lemma_normals_text_eq(a: Seq<(Real, Real, Real)>, b: Seq<(Real, Real, Real)>)
    requires
        a.len() == b.len(),
        forall|k: int| 0 <= k < a.len() ==> triple_text(#[trigger] a[k]) == triple_text(b[k]),
    ensures
        normals_text(a) == normals_text(b),
    decreases a.len(),
{
    if a.len() > 0 {
        lemma_normals_text_eq(a.drop_last(), b.drop_last());
        assert(triple_text(a[a.len() - 1]) == triple_text(b[b.len() - 1]));
    }
}

/// Two faces that write the same records.
pub open spec fn face_same(a: Face, b: Face) -> bool {
    &&& a.texture@ == b.texture@
    &&& a.material@ == b.material@
    &&& a.flags == b.flags
    &&& vertices_text(a.vertices@) == vertices_text(b.vertices@)
}

pub proof fn lemma_faces_text_eq(a: Seq<Face>, b: Seq<Face>)
    requires
        a.len() == b.len(),
        forall|k: int| 0 <= k < a.len() ==> face_same(#[trigger] a[k], b[k]),
    ensures
        faces_text(a) == faces_text(b),
        textures_of(a) == textures_of(b),
        materials_of(a) == materials_of(b),
    decreases a.len(),
{
    assert(textures_of(a) =~= textures_of(b)) by {
        assert forall|k: int| 0 <= k < a.len() implies textures_of(a)[k] == textures_of(b)[k] by {
            assert(face_same(a[k], b[k]));
        }
    }
    assert(materials_of(a) =~= materials_of(b)) by {
        assert forall|k: int| 0 <= k < a.len() implies materials_of(a)[k] == materials_of(b)[k] by {
            assert(face_same(a[k], b[k]));
        }
    }
    if a.len() > 0 {
        let (pa, pb) = (a.drop_last(), b.drop_last());
        assert forall|k: int| 0 <= k < pa.len() implies face_same(#[trigger] pa[k], pb[k]) by {
            assert(face_same(a[k], b[k]));
        }
        lemma_faces_text_eq(pa, pb);
        assert(face_same(a[a.len() - 1], b[b.len() - 1]));
    }
}

/// How far the records of a LOD have been read: points, normals, faces,
/// declarations of the current face (0, 1 or 2), tags.
pub type Stage = (int, int, int, int, int);

pub open spec fn tex_table(l: Lod, fi: int) -> Seq<Seq<u8>> {
    table_of(textures_of(l.faces@.subrange(0, fi)))
}

pub open spec fn mat_table(l: Lod, fi: int) -> Seq<Seq<u8>> {
    table_of(materials_of(l.faces@.subrange(0, fi)))
}

/// The declarations of face `fi` read so far.
pub open spec fn decls_part(l: Lod, fi: int, c: int) -> Seq<u8> {
    if c == 0 {
        Seq::empty()
    } else if c == 1 {
        decl_text(84u8, tex_table(l, fi), l.faces@[fi].texture@)
    } else {
        decl_text(84u8, tex_table(l, fi), l.faces@[fi].texture@) + decl_text(
            77u8,
            mat_table(l, fi),
            l.faces@[fi].material@,
        )
    }
}

pub open spec fn stage_ok(l: Lod, s: Stage) -> bool {
    let (pi, ni, fi, c, ei) = s;
    &&& 0 <= pi <= l.points@.len()
    &&& 0 <= ni <= l.face_normals@.len()
    &&& 0 <= fi <= l.faces@.len()
    &&& 0 <= c <= 2
    &&& 0 <= ei <= l.taggs.entries().len()
    &&& ni > 0 ==> pi == l.points@.len()
    &&& (fi > 0 || c > 0) ==> pi == l.points@.len() && ni == l.face_normals@.len()
    &&& c > 0 ==> fi < l.faces@.len()
    &&& ei > 0 ==> pi == l.points@.len() && ni == l.face_normals@.len() && fi == l.faces@.len() && c == 0
}

pub open spec fn consumed(l: Lod, s: Stage) -> Seq<u8> {
    let (pi, ni, fi, c, ei) = s;
    points_text(l.points@.subrange(0, pi)) + normals_text(l.face_normals@.subrange(0, ni)) + faces_text(
        l.faces@.subrange(0, fi),
    ) + decls_part(l, fi, c) + tags_text(l.taggs.entries().subrange(0, ei))
}

/// What comes next: 0 point, 1 normal, 2 texture, 3 material, 4 face, 5 tag, 6 terminator.
pub open spec fn next_kind(l: Lod, s: Stage) -> int {
    let (pi, ni, fi, c, ei) = s;
    if pi < l.points@.len() {
        0
    } else if ni < l.face_normals@.len() {
        1
    } else if fi < l.faces@.len() {
        if c == 0 && !tex_table(l, fi).contains(l.faces@[fi].texture@) {
            2
        } else if c <= 1 && !mat_table(l, fi).contains(l.faces@[fi].material@) {
            3
        } else {
            4
        }
    } else if ei < l.taggs.entries().len() {
        5
    } else {
        6
    }
}

pub open spec fn face_ids(l: Lod, fi: int) -> (nat, nat) {
    let f = l.faces@[fi];
    (
        id_in(interned(tex_table(l, fi), f.texture@), f.texture@) as nat,
        id_in(interned(mat_table(l, fi), f.material@), f.material@) as nat,
    )
}

pub open spec fn next_line(l: Lod, s: Stage) -> Seq<u8> {
    let (pi, ni, fi, c, ei) = s;
    let k = next_kind(l, s);
    if k == 0 {
        point_line(l.points@[pi])
    } else if k == 1 {
        normal_line(l.face_normals@[ni])
    } else if k == 2 {
        decl_text(84u8, tex_table(l, fi), l.faces@[fi].texture@)
    } else if k == 3 {
        decl_text(77u8, mat_table(l, fi), l.faces@[fi].material@)
    } else if k == 4 {
        face_line(face_ids(l, fi).0, face_ids(l, fi).1, l.faces@[fi])
    } else if k == 5 {
        tag_line(l.taggs.entries()[ei])
    } else {
        terminator_line()
    }
}

pub open spec fn next_stage(l: Lod, s: Stage) -> Stage {
    let (pi, ni, fi, c, ei) = s;
    let k = next_kind(l, s);
    if k == 0 {
        (pi + 1, ni, fi, c, ei)
    } else if k == 1 {
        (pi, ni + 1, fi, c, ei)
    } else if k == 2 {
        (pi, ni, fi, 1, ei)
    } else if k == 3 {
        (pi, ni, fi, 2, ei)
    } else if k == 4 {
        (pi, ni, fi + 1, 0, ei)
    } else if k == 5 {
        (pi, ni, fi, c, ei + 1)
    } else {
        s
    }
}

proof fn lemma_empty_texts(l: Lod)
    ensures
        points_text(l.points@.subrange(0, 0)) == Seq::<u8>::empty(),
        normals_text(l.face_normals@.subrange(0, 0)) == Seq::<u8>::empty(),
        faces_text(l.faces@.subrange(0, 0)) == Seq::<u8>::empty(),
        tags_text(l.taggs.entries().subrange(0, 0)) == Seq::<u8>::empty(),
        l.points@.subrange(0, l.points@.len() as int) == l.points@,
        l.face_normals@.subrange(0, l.face_normals@.len() as int) == l.face_normals@,
        l.faces@.subrange(0, l.faces@.len() as int) == l.faces@,
        l.taggs.entries().subrange(0, l.taggs.entries().len() as int) == l.taggs.entries(),
{
    assert(l.points@.subrange(0, 0).len() == 0);
    assert(l.face_normals@.subrange(0, 0).len() == 0);
    assert(l.faces@.subrange(0, 0).len() == 0);
    assert(l.taggs.entries().subrange(0, 0).len() == 0);
    assert(l.points@.subrange(0, l.points@.len() as int) =~= l.points@);
    assert(l.face_normals@.subrange(0, l.face_normals@.len() as int) =~= l.face_normals@);
    assert(l.faces@.subrange(0, l.faces@.len() as int) =~= l.faces@);
    assert(l.taggs.entries().subrange(0, l.taggs.entries().len() as int) =~= l.taggs.entries());
}

proof fn lemma_step_point(l: Lod, s: Stage)
    requires
        stage_ok(l, s),
        next_kind(l, s) == 0,
    ensures
        is_prefix(consumed(l, s) + next_line(l, s), lod_body(l)),
        stage_ok(l, next_stage(l, s)),
        consumed(l, next_stage(l, s)) == consumed(l, s) + next_line(l, s),
{
    let (pi, ni, fi, c, ei) = s;
    let (ps, ns, fs, es) = (l.points@, l.face_normals@, l.faces@, l.taggs.entries());
    lemma_empty_texts(l);
    let pt = points_text(ps);
    let rest = normals_text(ns) + faces_text(fs) + tags_text(es) + terminator_line();
    let body = lod_body(l);
    let a = points_text(ps.subrange(0, pi + 1));
    assert(ps.subrange(0, pi + 1).drop_last() =~= ps.subrange(0, pi));
    assert(consumed(l, s) =~= points_text(ps.subrange(0, pi)));
    assert(consumed(l, next_stage(l, s)) =~= a);
    lemma_points_prefix(ps, pi + 1);
    lemma_prefix_concat(pt, rest);
    assert(pt + rest =~= body);
    lemma_prefix_trans(a, pt, body);
}

proof fn lemma_step_normal(l: Lod, s: Stage)
    requires
        stage_ok(l, s),
        next_kind(l, s) == 1,
    ensures
        is_prefix(consumed(l, s) + next_line(l, s), lod_body(l)),
        stage_ok(l, next_stage(l, s)),
        consumed(l, next_stage(l, s)) == consumed(l, s) + next_line(l, s),
{
    let (pi, ni, fi, c, ei) = s;
    let (ps, ns, fs, es) = (l.points@, l.face_normals@, l.faces@, l.taggs.entries());
    lemma_empty_texts(l);
    let pt = points_text(ps);
    let nt = normals_text(ns);
    let rest = faces_text(fs) + tags_text(es) + terminator_line();
    let body = lod_body(l);
    let a = normals_text(ns.subrange(0, ni + 1));
    assert(ns.subrange(0, ni + 1).drop_last() =~= ns.subrange(0, ni));
    assert(consumed(l, s) =~= pt + normals_text(ns.subrange(0, ni)));
    assert(consumed(l, next_stage(l, s)) =~= pt + a);
    assert(a == normals_text(ns.subrange(0, ni)) + normal_line(ns[ni]));
    assert(consumed(l, s) + next_line(l, s) =~= pt + a);
    lemma_normals_prefix(ns, ni + 1);
    lemma_prefix_concat(nt, rest);
    lemma_prefix_trans(a, nt, nt + rest);
    lemma_prefix_extend(pt, a, nt + rest);
    assert(pt + (nt + rest) =~= body);
}

#[verifier::rlimit(80)]
#[verifier::spinoff_prover]
proof fn lemma_step_face(l: Lod, s: Stage)
    requires
        stage_ok(l, s),
        2 <= next_kind(l, s) <= 4,
    ensures
        is_prefix(consumed(l, s) + next_line(l, s), lod_body(l)),
        stage_ok(l, next_stage(l, s)),
        consumed(l, next_stage(l, s)) == consumed(l, s) + next_line(l, s),
{
    let (pi, ni, fi, c, ei) = s;
    let k = next_kind(l, s);
    let (ps, ns, fs, es) = (l.points@, l.face_normals@, l.faces@, l.taggs.entries());
    lemma_empty_texts(l);
    let pt = points_text(ps);
    let nt = normals_text(ns);
    let ft = faces_text(fs);
    let rest = tags_text(es) + terminator_line();
    let body = lod_body(l);
    let pre = fs.subrange(0, fi);
    let f = fs[fi];
    let tb = tex_table(l, fi);
    let mb = mat_table(l, fi);
    let dt = decl_text(84u8, tb, f.texture@);
    let dm = decl_text(77u8, mb, f.material@);
    let fl = face_line(face_ids(l, fi).0, face_ids(l, fi).1, f);
    assert(fs.subrange(0, fi + 1).drop_last() =~= pre);
    let a = faces_text(fs.subrange(0, fi + 1));
    assert(a == faces_text(pre) + face_block(tb, mb, f));
    assert(face_block(tb, mb, f) == dt + dm + fl);
    let got = faces_text(pre) + decls_part(l, fi, c) + next_line(l, s);
    if k == 4 {
        assert(c == 0 ==> dt == Seq::<u8>::empty());
        assert(c <= 1 ==> dm == Seq::<u8>::empty());
        assert(got =~= a);
        lemma_prefix_concat(a, Seq::empty());
        assert(a + Seq::<u8>::empty() =~= a);
    } else if k == 2 {
        assert(a =~= got + (dm + fl));
        lemma_prefix_concat(got, dm + fl);
    } else {
        assert(c == 0 ==> dt == Seq::<u8>::empty());
        assert(a =~= got + fl);
        lemma_prefix_concat(got, fl);
    }
    lemma_faces_prefix(fs, fi + 1);
    lemma_prefix_trans(got, a, ft);
    lemma_prefix_concat(ft, rest);
    lemma_prefix_trans(got, ft, ft + rest);
    lemma_prefix_extend(pt + nt, got, ft + rest);
    assert((pt + nt) + got =~= consumed(l, s) + next_line(l, s));
    assert((pt + nt) + (ft + rest) =~= body);
    if k == 4 {
        assert(consumed(l, next_stage(l, s)) =~= pt + nt + a);
    } else {
        assert(consumed(l, next_stage(l, s)) =~= consumed(l, s) + next_line(l, s));
    }
}

proof fn lemma_step_tag(l: Lod, s: Stage)
    requires
        stage_ok(l, s),
        next_kind(l, s) == 5,
    ensures
        is_prefix(consumed(l, s) + next_line(l, s), lod_body(l)),
        stage_ok(l, next_stage(l, s)),
        consumed(l, next_stage(l, s)) == consumed(l, s) + next_line(l, s),
{
    let (pi, ni, fi, c, ei) = s;
    let (ps, ns, fs, es) = (l.points@, l.face_normals@, l.faces@, l.taggs.entries());
    lemma_empty_texts(l);
    let head = points_text(ps) + normals_text(ns) + faces_text(fs);
    let tt = tags_text(es);
    let body = lod_body(l);
    let a = tags_text(es.subrange(0, ei + 1));
    assert(es.subrange(0, ei + 1).drop_last() =~= es.subrange(0, ei));
    assert(consumed(l, s) =~= head + tags_text(es.subrange(0, ei)));
    assert(consumed(l, next_stage(l, s)) =~= head + a);
    assert(a == tags_text(es.subrange(0, ei)) + tag_line(es[ei]));
    assert(consumed(l, s) + next_line(l, s) =~= head + a);
    lemma_tags_prefix(es, ei + 1);
    lemma_prefix_concat(tt, terminator_line());
    lemma_prefix_trans(a, tt, tt + terminator_line());
    lemma_prefix_extend(head, a, tt + terminator_line());
    assert(head + (tt + terminator_line()) =~= body);
}

/// Reading the next record of a LOD's text keeps what has been read a
/// prefix of the whole, and the terminator comes exactly at the end.
pub proof fn lemma_stage_step(l: Lod, s: Stage)
    requires
        stage_ok(l, s),
    ensures
        is_prefix(consumed(l, s) + next_line(l, s), lod_body(l)),
        next_kind(l, s) != 6 ==> stage_ok(l, next_stage(l, s)) && consumed(l, next_stage(l, s)) == consumed(l, s)
            + next_line(l, s),
        next_kind(l, s) == 6 ==> consumed(l, s) + next_line(l, s) == lod_body(l),
{
    let k = next_kind(l, s);
    if k == 0 {
        lemma_step_point(l, s);
    } else if k == 1 {
        lemma_step_normal(l, s);
    } else if 2 <= k <= 4 {
        lemma_step_face(l, s);
    } else if k == 5 {
        lemma_step_tag(l, s);
    } else {
        lemma_empty_texts(l);
        let body = lod_body(l);
        assert(consumed(l, s) =~= points_text(l.points@) + normals_text(l.face_normals@) + faces_text(l.faces@)
            + tags_text(l.taggs.entries()));
        assert(consumed(l, s) + next_line(l, s) =~= body);
        lemma_prefix_concat(body, Seq::empty());
        assert(body + Seq::<u8>::empty() =~= body);
    }
}

pub open spec fn no_nl(s: Seq<u8>) -> bool {
    forall|i: int| 0 <= i < s.len() ==> #[trigger] s[i] != 10u8
}

/// The type tag of each kind of record.
pub open spec fn kind_bytes(k: int) -> Seq<u8> {
    if k == 0 {
        seq![80u8]
    } else if k == 1 {
        seq![78u8]
    } else if k == 2 {
        seq![84u8]
    } else if k == 3 {
        seq![77u8]
    } else if k == 4 {
        seq![70u8]
    } else {
        seq![84u8, 65u8, 71u8, 71u8]
    }
}

pub open spec fn next_payload(l: Lod, s: Stage) -> Seq<u8> {
    let (pi, ni, fi, c, ei) = s;
    let k = next_kind(l, s);
    if k == 0 {
        point_payload(l.points@[pi])
    } else if k == 1 {
        triple_text(l.face_normals@[ni])
    } else if k == 2 {
        l.faces@[fi].texture@
    } else if k == 3 {
        l.faces@[fi].material@
    } else if k == 4 {
        face_payload(face_ids(l, fi).0, face_ids(l, fi).1, l.faces@[fi])
    } else if k == 5 {
        tag_payload(l.taggs.entries()[ei])
    } else {
        sentinel() + seq![61u8]
    }
}

proof fn lemma_hex_no_nl(n: nat)
    ensures
        no_nl(hex_text(n)),
{
    lemma_hex_text_value(n);
    assert forall|i: int| 0 <= i < hex_text(n).len() implies #[trigger] hex_text(n)[i] != 10u8 by {
        assert(is_hex_digit(hex_text(n)[i]));
    }
}

proof fn lemma_real_no_nl(r: Real, m: bool)
    requires
        r.fits(m),
    ensures
        no_nl(real_text(r)),
{
    match r {
        Real::Bits(b) => lemma_hex_no_nl(b as nat),
        Real::Decimal(d) => {
            assert(decimal_ok(d@));
        },
    }
}

proof fn lemma_vertices_no_nl(vs: Seq<Vertex>, m: bool)
    requires
        forall|j: int| 0 <= j < vs.len() ==> (#[trigger] vs[j]).uv.0.fits(m) && vs[j].uv.1.fits(m),
    ensures
        no_nl(vertices_text(vs)),
    decreases vs.len(),
{
    if vs.len() > 0 {
        let v = vs.last();
        assert(v.uv.0.fits(m) && v.uv.1.fits(m));
        lemma_hex_no_nl(v.point_index as nat);
        lemma_hex_no_nl(v.normal_index as nat);
        lemma_real_no_nl(v.uv.0, m);
        lemma_real_no_nl(v.uv.1, m);
        assert(no_nl(vertex_text(v)));
        if vs.len() > 1 {
            lemma_vertices_no_nl(vs.drop_last(), m);
        }
    }
}

proof fn lemma_shape_point(p: Point, m: bool)
    requires
        p.coords.0.fits(m) && p.coords.1.fits(m) && p.coords.2.fits(m),
    ensures
        point_line(p) == kind_bytes(0) + seq![58u8] + point_payload(p) + seq![10u8],
        no_nl(point_payload(p)),
{
    lemma_real_no_nl(p.coords.0, m);
    lemma_real_no_nl(p.coords.1, m);
    lemma_real_no_nl(p.coords.2, m);
    lemma_hex_no_nl(p.flags as nat);
    assert(point_line(p) =~= kind_bytes(0) + seq![58u8] + point_payload(p) + seq![10u8]);
}

proof fn lemma_shape_normal(n: (Real, Real, Real), m: bool)
    requires
        n.0.fits(m) && n.1.fits(m) && n.2.fits(m),
    ensures
        normal_line(n) == kind_bytes(1) + seq![58u8] + triple_text(n) + seq![10u8],
        no_nl(triple_text(n)),
{
    lemma_real_no_nl(n.0, m);
    lemma_real_no_nl(n.1, m);
    lemma_real_no_nl(n.2, m);
    assert(normal_line(n) =~= kind_bytes(1) + seq![58u8] + triple_text(n) + seq![10u8]);
}

proof fn lemma_shape_face(tid: nat, mid: nat, f: Face, m: bool)
    requires
        forall|j: int| 0 <= j < f.vertices@.len() ==> (#[trigger] f.vertices@[j]).uv.0.fits(m) && f.vertices@[j].uv.1.fits(m),
    ensures
        face_line(tid, mid, f) == kind_bytes(4) + seq![58u8] + face_payload(tid, mid, f) + seq![10u8],
        no_nl(face_payload(tid, mid, f)),
{
    lemma_hex_no_nl(tid);
    lemma_hex_no_nl(mid);
    lemma_hex_no_nl(f.flags as nat);
    lemma_vertices_no_nl(f.vertices@, m);
    assert(face_line(tid, mid, f) =~= kind_bytes(4) + seq![58u8] + face_payload(tid, mid, f) + seq![10u8]);
}

proof fn lemma_shape_tag(e: (Seq<u8>, Seq<u8>))
    requires
        tag_name_ok(e.0),
    ensures
        tag_line(e) == kind_bytes(5) + seq![58u8] + tag_payload(e) + seq![10u8],
        no_nl(tag_payload(e)),
{
    lemma_tag_bytes_round_trip(e.1);
    assert(all_hex(bytes_text(e.1)));
    assert forall|i: int| 0 <= i < bytes_text(e.1).len() implies #[trigger] bytes_text(e.1)[i] != 10u8 by {
        assert(is_hex_digit(bytes_text(e.1)[i]));
    }
    assert(tag_line(e) =~= kind_bytes(5) + seq![58u8] + tag_payload(e) + seq![10u8]);
}

/// Each record the encoder writes is its type tag, a colon, a payload
/// without line breaks, and a line break.
pub proof fn lemma_line_shape(l: Lod, s: Stage)
    requires
        l.wf(),
        stage_ok(l, s),
    ensures
        next_line(l, s) == kind_bytes(next_kind(l, s)) + seq![58u8] + next_payload(l, s) + seq![10u8],
        no_nl(next_payload(l, s)),
{
    let (pi, ni, fi, c, ei) = s;
    let k = next_kind(l, s);
    let m = l.lossless();
    if k == 0 {
        assert(triple_fits(l.points@[pi].coords, m));
        lemma_shape_point(l.points@[pi], m);
    } else if k == 1 {
        assert(triple_fits(l.face_normals@[ni], m));
        lemma_shape_normal(l.face_normals@[ni], m);
    } else if k == 2 || k == 3 {
        assert(name_ok(l.faces@[fi].texture@));
        assert(name_ok(l.faces@[fi].material@));
        assert(next_line(l, s) =~= kind_bytes(k) + seq![58u8] + next_payload(l, s) + seq![10u8]);
    } else if k == 4 {
        let f = l.faces@[fi];
        assert(forall|j: int| 0 <= j < f.vertices@.len() ==> (#[trigger] f.vertices@[j]).uv.0.fits(m) && f.vertices@[j].uv.1.fits(m));
        lemma_shape_face(face_ids(l, fi).0, face_ids(l, fi).1, f, m);
    } else if k == 5 {
        assert(tag_name_ok(l.taggs.entries()[ei].0));
        lemma_shape_tag(l.taggs.entries()[ei]);
    } else {
        assert(next_line(l, s) =~= kind_bytes(k) + seq![58u8] + next_payload(l, s) + seq![10u8]);
    }
}


/// Two texts split at the first occurrence of a separator byte.
pub proof fn lemma_cancel(a: Seq<u8>, x: Seq<u8>, b: Seq<u8>, y: Seq<u8>, c: u8)
    requires
        forall|i: int| 0 <= i < a.len() ==> #[trigger] a[i] != c,
        forall|i: int| 0 <= i < b.len() ==> #[trigger] b[i] != c,
        a + seq![c] + x == b + seq![c] + y,
    ensures
        a == b,
        x == y,
{
    let s = a + seq![c] + x;
    let u = b + seq![c] + y;
    if a.len() < b.len() {
        assert(s[a.len() as int] == c);
        assert(u[a.len() as int] == b[a.len() as int]);
    } else if a.len() > b.len() {
        assert(u[b.len() as int] == c);
        assert(s[b.len() as int] == a[b.len() as int]);
    }
    assert(a =~= s.subrange(0, a.len() as int));
    assert(b =~= u.subrange(0, b.len() as int));
    assert(x =~= s.subrange(a.len() as int + 1, s.len() as int));
    assert(y =~= u.subrange(b.len() as int + 1, u.len() as int));
}

/// A LOD whose text stands at `from`, with its floats in mode `m`.
pub open spec fn lod_canon(t: Seq<u8>, from: int, l: Lod, m: bool) -> bool {
    &&& l.wf()
    &&& l.lossless() == m
    &&& l.faces@.len() <= u32::MAX
    &&& 0 <= from <= t.len()
    &&& is_prefix(lod_body(l), t.subrange(from, t.len() as int))
}

/// The next line of a canonical text lies at `pos`.
pub proof fn lemma_line_at(t: Seq<u8>, from: int, pos: int, done: Seq<u8>, line: Seq<u8>, whole: Seq<u8>)
    requires
        0 <= from <= pos <= t.len(),
        t.subrange(from, pos) == done,
        is_prefix(done + line, whole),
        is_prefix(whole, t.subrange(from, t.len() as int)),
    ensures
        pos + line.len() <= t.len(),
        t.subrange(pos, pos + line.len()) == line,
{
    lemma_prefix_trans(done + line, whole, t.subrange(from, t.len() as int));
    let n = (done + line).len() as int;
    assert(t.subrange(from, t.len() as int).subrange(0, n) == done + line);
    assert(t.subrange(pos, pos + line.len()) =~= (done + line).subrange(done.len() as int, n));
}

/// Where the first `c` from `lo` is known, a search for it finds it there.
pub proof fn lemma_first_at(t: Seq<u8>, lo: int, hi: int, r: int, c: u8, m: int)
    requires
        lo <= r <= hi <= t.len(),
        forall|k: int| lo <= k < r ==> t[k] != c,
        r < hi ==> t[r] == c,
        lo <= m < hi,
        t[m] == c,
        forall|k: int| lo <= k < m ==> t[k] != c,
    ensures
        r == m,
{
    if r < m {
        assert(t[r] == c);
    } else if r > m {
        assert(t[m] != c);
    }
}

/// The names of a list of declarations.
pub open spec fn names_view(v: Seq<Vec<u8>>) -> Seq<Seq<u8>> {
    v.map_values(|x: Vec<u8>| x@)
}

/// The parts of a record line found at `pos`.
pub proof fn lemma_record_at(t: Seq<u8>, pos: int, k: int, payload: Seq<u8>)
    requires
        0 <= k <= 6,
        no_nl(payload),
        0 <= pos,
        pos + kind_bytes(k).len() + payload.len() + 2 <= t.len(),
        t.subrange(pos, pos + kind_bytes(k).len() + payload.len() + 2) == kind_bytes(k) + seq![58u8] + payload
            + seq![10u8],
    ensures
        ({
            let kl = kind_bytes(k).len() as int;
            let e = pos + kl + 1 + payload.len();
            &&& forall|j: int| pos <= j < e ==> t[j] != 10u8
            &&& t[e] == 10u8
            &&& forall|j: int| pos <= j < pos + kl ==> t[j] != 58u8
            &&& t[pos + kl] == 58u8
            &&& t.subrange(pos, pos + kl) == kind_bytes(k)
            &&& t.subrange(pos + kl + 1, e) == payload
        }),
{
    let kb = kind_bytes(k);
    let kl = kb.len() as int;
    let line = kb + seq![58u8] + payload + seq![10u8];
    let e = pos + kl + 1 + payload.len();
    assert forall|j: int| pos <= j < e implies t[j] != 10u8 by {
        assert(t[j] == line[j - pos]);
        if j - pos > kl {
            assert(line[j - pos] == payload[j - pos - kl - 1]);
        }
    }
    assert(t[e] == line[e - pos]);
    assert forall|j: int| pos <= j < pos + kl implies t[j] != 58u8 by {
        assert(t[j] == line[j - pos]);
        assert(line[j - pos] == kb[j - pos]);
    }
    assert(t[pos + kl] == line[kl]);
    assert(t.subrange(pos, pos + kl) =~= line.subrange(0, kl));
    assert(line.subrange(0, kl) =~= kb);
    assert(t.subrange(pos + kl + 1, e) =~= line.subrange(kl + 1, kl + 1 + payload.len()));
    assert(line.subrange(kl + 1, kl + 1 + payload.len()) =~= payload);
}

pub proof fn lemma_id_in_range(table: Seq<Seq<u8>>, name: Seq<u8>)
    requires
        table.contains(name),
    ensures
        0 <= id_in(table, name) < table.len(),
        table[id_in(table, name)] == name,
{
}

proof fn lemma_hex_injective(a: nat, b: nat)
    requires
        hex_text(a) == hex_text(b),
    ensures
        a == b,
{
    lemma_hex_text_value(a);
    lemma_hex_text_value(b);
}

proof fn lemma_hex_comma_free(n: nat)
    ensures
        forall|i: int| 0 <= i < hex_text(n).len() ==> #[trigger] hex_text(n)[i] != 44u8,
{
    lemma_hex_text_value(n);
    assert forall|i: int| 0 <= i < hex_text(n).len() implies #[trigger] hex_text(n)[i] != 44u8 by {
        assert(is_hex_digit(hex_text(n)[i]));
    }
}

/// Equal face payloads have equal ids, flags and vertex text.
pub proof fn lemma_face_payload_inj(a: nat, b: nat, x: Face, a2: nat, b2: nat, y: Face)
    requires
        face_payload(a, b, x) == face_payload(a2, b2, y),
    ensures
        a == a2,
        b == b2,
        x.flags == y.flags,
        vertices_text(x.vertices@) == vertices_text(y.vertices@),
{
    lemma_hex_comma_free(a);
    lemma_hex_comma_free(a2);
    lemma_hex_comma_free(b);
    lemma_hex_comma_free(b2);
    lemma_hex_comma_free(x.flags as nat);
    lemma_hex_comma_free(y.flags as nat);
    let r1 = hex_text(b) + seq![44u8] + hex_text(x.flags as nat) + seq![44u8] + vertices_text(x.vertices@);
    let r2 = hex_text(b2) + seq![44u8] + hex_text(y.flags as nat) + seq![44u8] + vertices_text(y.vertices@);
    assert(face_payload(a, b, x) =~= hex_text(a) + seq![44u8] + r1);
    assert(face_payload(a2, b2, y) =~= hex_text(a2) + seq![44u8] + r2);
    lemma_cancel(hex_text(a), r1, hex_text(a2), r2, 44u8);
    let s1 = hex_text(x.flags as nat) + seq![44u8] + vertices_text(x.vertices@);
    let s2 = hex_text(y.flags as nat) + seq![44u8] + vertices_text(y.vertices@);
    assert(r1 =~= hex_text(b) + seq![44u8] + s1);
    assert(r2 =~= hex_text(b2) + seq![44u8] + s2);
    lemma_cancel(hex_text(b), s1, hex_text(b2), s2, 44u8);
    lemma_cancel(hex_text(x.flags as nat), vertices_text(x.vertices@), hex_text(y.flags as nat), vertices_text(y.vertices@), 44u8);
    lemma_hex_injective(a, a2);
    lemma_hex_injective(b, b2);
    lemma_hex_injective(x.flags as nat, y.flags as nat);
}

/// Equal tag payloads have equal names and bytes.
pub proof fn lemma_tag_payload_inj(e1: (Seq<u8>, Seq<u8>), e2: (Seq<u8>, Seq<u8>))
    requires
        tag_name_ok(e1.0),
        tag_name_ok(e2.0),
        tag_payload(e1) == tag_payload(e2),
    ensures
        e1 == e2,
{
    assert forall|i: int| 0 <= i < e1.0.len() implies #[trigger] e1.0[i] != 61u8 by {}
    assert forall|i: int| 0 <= i < e2.0.len() implies #[trigger] e2.0[i] != 61u8 by {}
    lemma_cancel(e1.0, bytes_text(e1.1), e2.0, bytes_text(e2.1), 61u8);
    lemma_tag_bytes_round_trip(e1.1);
    lemma_tag_bytes_round_trip(e2.1);
}

/// The tables after one more face.
pub proof fn lemma_tables_next(l: Lod, fi: int)
    requires
        0 <= fi < l.faces@.len(),
    ensures
        tex_table(l, fi + 1) == interned(tex_table(l, fi), l.faces@[fi].texture@),
        mat_table(l, fi + 1) == interned(mat_table(l, fi), l.faces@[fi].material@),
        tex_table(l, fi).len() <= fi,
        mat_table(l, fi).len() <= fi,
{
    let pre = l.faces@.subrange(0, fi);
    let nx = l.faces@.subrange(0, fi + 1);
    assert(textures_of(nx).drop_last() =~= textures_of(pre));
    assert(materials_of(nx).drop_last() =~= materials_of(pre));
    lemma_dedup_table(textures_of(pre));
    lemma_dedup_table(materials_of(pre));
}

/// A document the text form carries faithfully: well formed, and with no
/// more faces in a LOD than 32-bit ids can number.
pub open spec fn doc_canon(d: Document) -> bool {
    &&& d.wf()
    &&& forall|i: int| 0 <= i < d.lods@.len() ==> (#[trigger] d.lods@[i]).faces@.len() <= u32::MAX
}

pub proof fn lemma_lods_prefix(ls: Seq<Lod>, k: int)
    requires
        0 <= k < ls.len(),
    ensures
        is_prefix(lods_text(ls.subrange(0, k)) + lod_text(ls[k]), lods_text(ls)),
        lods_text(ls.subrange(0, k + 1)) == lods_text(ls.subrange(0, k)) + lod_text(ls[k]),
    decreases ls.len() - k,
{
    assert(ls.subrange(0, k + 1).drop_last() =~= ls.subrange(0, k));
    let a = lods_text(ls.subrange(0, k + 1));
    if k + 1 == ls.len() {
        assert(ls.subrange(0, k + 1) =~= ls);
        lemma_prefix_concat(a, Seq::empty());
        assert(a + Seq::<u8>::empty() =~= a);
    } else {
        lemma_lods_prefix(ls, k + 1);
        lemma_prefix_concat(a, lod_text(ls[k + 1]));
        lemma_prefix_trans(a, a + lod_text(ls[k + 1]), lods_text(ls));
    }
}

pub proof fn lemma_lods_text_eq(a: Seq<Lod>, b: Seq<Lod>)
    requires
        a.len() == b.len(),
        forall|k: int| 0 <= k < a.len() ==> lod_text(#[trigger] a[k]) == lod_text(b[k]),
    ensures
        lods_text(a) == lods_text(b),
    decreases a.len(),
{
    if a.len() > 0 {
        lemma_lods_text_eq(a.drop_last(), b.drop_last());
        assert(lod_text(a[a.len() - 1]) == lod_text(b[b.len() - 1]));
    }
}

/// The bracket line of a LOD: `[`, the lossless prefix if any, the
/// resolution, `]`.
pub open spec fn bracket_text(l: Lod) -> Seq<u8> {
    seq![91u8] + (if l.resolution.is_bits() { seq![48u8, 120u8] } else { Seq::empty() }) + real_text(l.resolution)
        + seq![93u8]
}

/// The version line of a LOD without its line break.
pub open spec fn version_text(l: Lod) -> Seq<u8> {
    seq![118u8] + hex_text(l.version_major as nat) + seq![46u8] + hex_text(l.version_minor as nat)
}

/// A LOD's text is its bracket line, its version line, and its body; no
/// line break stands inside the first two, nor a `.` inside the major version.
#[verifier::rlimit(60)]
#[verifier::spinoff_prover]
pub proof fn lemma_lod_text_shape(l: Lod)
    requires
        l.resolution.fits(l.lossless()),
    ensures
        lod_text(l) == bracket_text(l) + seq![10u8] + version_text(l) + seq![10u8] + lod_body(l),
        no_nl(bracket_text(l)),
        no_nl(version_text(l)),
        forall|i: int| 0 <= i < hex_text(l.version_major as nat).len() ==> #[trigger] hex_text(l.version_major as nat)[i] != 46u8,
{
    lemma_real_no_nl(l.resolution, l.lossless());
    lemma_hex_no_nl(l.version_major as nat);
    lemma_hex_no_nl(l.version_minor as nat);
    lemma_hex_text_value(l.version_major as nat);
    assert forall|i: int| 0 <= i < hex_text(l.version_major as nat).len() implies #[trigger] hex_text(
        l.version_major as nat,
    )[i] != 46u8 by {
        assert(is_hex_digit(hex_text(l.version_major as nat)[i]));
    }
    let h = lod_header(l);
    assert(h =~= bracket_text(l) + seq![10u8] + version_text(l) + seq![10u8]);
    let (pt, nt, ft, tt) = (
        points_text(l.points@),
        normals_text(l.face_normals@),
        faces_text(l.faces@),
        tags_text(l.taggs.entries()),
    );
    assert(lod_text(l) == h + pt + nt + ft + tt + terminator_line());
    assert(lod_body(l) == pt + nt + ft + tt + terminator_line());
    assert(h + pt + nt + ft + tt + terminator_line() =~= h + (pt + nt + ft + tt + terminator_line()));
}

/// How far a canonical LOD has been read, and what the decoder holds so far.
#[verifier::opaque]
pub open spec fn lod_progress(
    t: Seq<u8>,
    from: int,
    pos: int,
    l: Lod,
    st: Stage,
    ps: Seq<Point>,
    ns: Seq<(Real, Real, Real)>,
    fs: Seq<Face>,
    tx: Seq<Seq<u8>>,
    mx: Seq<Seq<u8>>,
    es: Seq<(Seq<u8>, Seq<u8>)>,
) -> bool {
    &&& lod_canon(t, from, l, l.lossless())
    &&& from <= pos <= t.len()
    &&& stage_ok(l, st)
    &&& t.subrange(from, pos) == consumed(l, st)
    &&& ps.len() == st.0
    &&& forall|k: int| 0 <= k < ps.len() ==> point_payload(#[trigger] ps[k]) == point_payload(l.points@[k])
    &&& ns.len() == st.1
    &&& forall|k: int| 0 <= k < ns.len() ==> triple_text(#[trigger] ns[k]) == triple_text(l.face_normals@[k])
    &&& fs.len() == st.2
    &&& forall|k: int| 0 <= k < fs.len() ==> face_same(#[trigger] fs[k], l.faces@[k])
    &&& tx == (if st.3 >= 1 { interned(tex_table(l, st.2), l.faces@[st.2].texture@) } else { tex_table(l, st.2) })
    &&& mx == (if st.3 >= 2 { interned(mat_table(l, st.2), l.faces@[st.2].material@) } else { mat_table(l, st.2) })
    &&& es == l.taggs.entries().subrange(0, st.4)
}

/// Where the next record of a canonical LOD stands, and what the decoder
/// needs to read it.
pub proof fn lemma_progress_line(
    t: Seq<u8>,
    from: int,
    pos: int,
    l: Lod,
    st: Stage,
    ps: Seq<Point>,
    ns: Seq<(Real, Real, Real)>,
    fs: Seq<Face>,
    tx: Seq<Seq<u8>>,
    mx: Seq<Seq<u8>>,
    es: Seq<(Seq<u8>, Seq<u8>)>,
)
    requires
        lod_progress(t, from, pos, l, st, ps, ns, fs, tx, mx, es),
    ensures
        ({
            let k = next_kind(l, st);
            let pl = next_payload(l, st);
            let kl = kind_bytes(k).len() as int;
            let e = pos + kl + 1 + pl.len();
            &&& 0 <= k <= 6
            &&& next_line(l, st).len() == kl + pl.len() + 2
            &&& e < t.len()
            &&& forall|j: int| pos <= j < e ==> t[j] != 10u8
            &&& t[e] == 10u8
            &&& forall|j: int| pos <= j < pos + kl ==> t[j] != 58u8
            &&& t[pos + kl] == 58u8
            &&& t.subrange(pos, pos + kl) == kind_bytes(k)
            &&& t.subrange(pos + kl + 1, e) == pl
            &&& l.wf()
            &&& ps.len() == st.0 && ns.len() == st.1
            &&& k == 0 ==> triple_fits(l.points@[st.0].coords, l.lossless()) && pl == point_payload(l.points@[st.0])
            &&& k == 1 ==> triple_fits(l.face_normals@[st.1], l.lossless()) && pl == triple_text(l.face_normals@[st.1])
            &&& k == 2 ==> pl == l.faces@[st.2].texture@
            &&& k == 3 ==> pl == l.faces@[st.2].material@
            &&& k == 4 ==> {
                let f0 = l.faces@[st.2];
                let ids = face_ids(l, st.2);
                &&& pl == face_payload(ids.0, ids.1, f0)
                &&& ps.len() == l.points@.len() && ns.len() == l.face_normals@.len()
                &&& f0.refs_ok(ps.len() as int, ns.len() as int)
                &&& forall|j: int|
                    0 <= j < f0.vertices@.len() ==> (#[trigger] f0.vertices@[j]).uv.0.fits(l.lossless())
                        && f0.vertices@[j].uv.1.fits(l.lossless())
                &&& tx == interned(tex_table(l, st.2), f0.texture@)
                &&& mx == interned(mat_table(l, st.2), f0.material@)
                &&& ids.0 < tx.len() && ids.0 <= u32::MAX && tx[ids.0 as int] == f0.texture@
                &&& ids.1 < mx.len() && ids.1 <= u32::MAX && mx[ids.1 as int] == f0.material@
            }
            &&& k == 5 ==> tag_name_ok(l.taggs.entries()[st.4].0) && pl == tag_payload(l.taggs.entries()[st.4])
                && !(exists|i: int| 0 <= i < es.len() && (#[trigger] es[i]).0 == l.taggs.entries()[st.4].0)
            &&& k == 6 ==> pl == sentinel() + seq![61u8]
            &&& k == 5 ==> pl != sentinel() + seq![61u8]
        }),
{
    reveal(lod_progress);
    lemma_stage_step(l, st);
    lemma_line_shape(l, st);
    let k = next_kind(l, st);
    let pl = next_payload(l, st);
    lemma_line_at(t, from, pos, consumed(l, st), next_line(l, st), lod_body(l));
    lemma_record_at(t, pos, k, pl);
    if k == 4 {
        let fi = st.2;
        let f0 = l.faces@[fi];
        lemma_tables_next(l, fi);
        let ti = interned(tex_table(l, fi), f0.texture@);
        let mi = interned(mat_table(l, fi), f0.material@);
        assert(ti.contains(f0.texture@)) by {
            if !tex_table(l, fi).contains(f0.texture@) {
                assert(ti[tex_table(l, fi).len() as int] == f0.texture@);
            }
        }
        assert(mi.contains(f0.material@)) by {
            if !mat_table(l, fi).contains(f0.material@) {
                assert(mi[mat_table(l, fi).len() as int] == f0.material@);
            }
        }
        lemma_id_in_range(ti, f0.texture@);
        lemma_id_in_range(mi, f0.material@);
        assert(l.faces@[fi].refs_ok(l.points@.len() as int, l.face_normals@.len() as int));
    }
    if k == 5 {
        let ei = st.4;
        let e5 = l.taggs.entries()[ei];
        assert(tag_name_ok(e5.0));
        if exists|i: int| 0 <= i < es.len() && (#[trigger] es[i]).0 == e5.0 {
            let i = choose|i: int| 0 <= i < es.len() && (#[trigger] es[i]).0 == e5.0;
            assert(es[i] == l.taggs.entries()[i]);
        }
    }
    if k == 5 && pl == sentinel() + seq![61u8] {
        let e5 = l.taggs.entries()[st.4];
        assert(tag_payload((sentinel(), Seq::<u8>::empty())) =~= sentinel() + seq![61u8]);
        assert forall|i: int| 0 <= i < sentinel().len() implies #[trigger] sentinel()[i] != 61u8 by {}
        assert(tag_name_ok(e5.0));
        lemma_cancel(e5.0, bytes_text(e5.1), sentinel(), Seq::<u8>::empty(), 61u8);
    }
}

/// Reading one record of a canonical LOD, as the decoder does, keeps the
/// progress: the text read grows by that record, and so does what the
/// decoder holds.
#[verifier::rlimit(80)]
#[verifier::spinoff_prover]
pub proof fn lemma_progress_advance(
    t: Seq<u8>,
    from: int,
    pos: int,
    l: Lod,
    st: Stage,
    ps: Seq<Point>,
    ns: Seq<(Real, Real, Real)>,
    fs: Seq<Face>,
    tx: Seq<Seq<u8>>,
    mx: Seq<Seq<u8>>,
    es: Seq<(Seq<u8>, Seq<u8>)>,
    ps2: Seq<Point>,
    ns2: Seq<(Real, Real, Real)>,
    fs2: Seq<Face>,
    tx2: Seq<Seq<u8>>,
    mx2: Seq<Seq<u8>>,
    es2: Seq<(Seq<u8>, Seq<u8>)>,
)
    requires
        lod_progress(t, from, pos, l, st, ps, ns, fs, tx, mx, es),
        next_kind(l, st) != 6,
        next_kind(l, st) == 0 ==> ps2.len() == ps.len() + 1 && ps2.drop_last() == ps && point_payload(ps2.last())
            == point_payload(l.points@[st.0]),
        next_kind(l, st) != 0 ==> ps2 == ps,
        next_kind(l, st) == 1 ==> ns2.len() == ns.len() + 1 && ns2.drop_last() == ns && triple_text(ns2.last())
            == triple_text(l.face_normals@[st.1]),
        next_kind(l, st) != 1 ==> ns2 == ns,
        next_kind(l, st) == 2 ==> tx2 == tx.push(l.faces@[st.2].texture@),
        next_kind(l, st) != 2 ==> tx2 == tx,
        next_kind(l, st) == 3 ==> mx2 == mx.push(l.faces@[st.2].material@),
        next_kind(l, st) != 3 ==> mx2 == mx,
        next_kind(l, st) == 4 ==> fs2.len() == fs.len() + 1 && fs2.drop_last() == fs && face_same(
            fs2.last(),
            l.faces@[st.2],
        ),
        next_kind(l, st) != 4 ==> fs2 == fs,
        next_kind(l, st) == 5 ==> es2 == es.push(l.taggs.entries()[st.4]),
        next_kind(l, st) != 5 ==> es2 == es,
    ensures
        lod_progress(t, from, pos + next_line(l, st).len(), l, next_stage(l, st), ps2, ns2, fs2, tx2, mx2, es2),
{
    reveal(lod_progress);
    lemma_stage_step(l, st);
    lemma_line_at(t, from, pos, consumed(l, st), next_line(l, st), lod_body(l));
    let np = pos + next_line(l, st).len();
    assert(t.subrange(from, np) =~= t.subrange(from, pos) + t.subrange(pos, np));
    let k = next_kind(l, st);
    let st2 = next_stage(l, st);
    if k == 0 {
        assert forall|j: int| 0 <= j < ps2.len() implies point_payload(#[trigger] ps2[j]) == point_payload(l.points@[j]) by {
            if j < ps.len() {
                assert(ps2[j] == ps[j]);
            }
        }
    } else if k == 1 {
        assert forall|j: int| 0 <= j < ns2.len() implies triple_text(#[trigger] ns2[j]) == triple_text(l.face_normals@[j]) by {
            if j < ns.len() {
                assert(ns2[j] == ns[j]);
            }
        }
    } else if k == 2 {
        assert(!tex_table(l, st.2).contains(l.faces@[st.2].texture@));
    } else if k == 3 {
        assert(!mat_table(l, st.2).contains(l.faces@[st.2].material@));
    } else if k == 4 {
        lemma_tables_next(l, st.2);
        assert forall|j: int| 0 <= j < fs2.len() implies face_same(#[trigger] fs2[j], l.faces@[j]) by {
            if j < fs.len() {
                assert(fs2[j] == fs[j]);
            }
        }
    } else {
        assert(es2 =~= l.taggs.entries().subrange(0, st.4 + 1));
    }
}

/// At the terminator of a canonical LOD the decoder holds what writes the
/// LOD's whole body.
pub proof fn lemma_progress_end(
    t: Seq<u8>,
    from: int,
    pos: int,
    l: Lod,
    st: Stage,
    ps: Seq<Point>,
    ns: Seq<(Real, Real, Real)>,
    fs: Seq<Face>,
    tx: Seq<Seq<u8>>,
    mx: Seq<Seq<u8>>,
    es: Seq<(Seq<u8>, Seq<u8>)>,
)
    requires
        lod_progress(t, from, pos, l, st, ps, ns, fs, tx, mx, es),
        next_kind(l, st) == 6,
    ensures
        points_text(ps) + normals_text(ns) + faces_text(fs) + tags_text(es) + terminator_line() == lod_body(l),
        pos + terminator_line().len() == from + lod_body(l).len(),
{
    reveal(lod_progress);
    lemma_stage_step(l, st);
    lemma_empty_texts(l);
    lemma_points_text_eq(ps, l.points@);
    lemma_normals_text_eq(ns, l.face_normals@);
    lemma_faces_text_eq(fs, l.faces@);
    assert(t.subrange(from, pos).len() == pos - from);
}

/// The progress at the start of a canonical LOD.
pub proof fn lemma_progress_start(t: Seq<u8>, from: int, l: Lod)
    requires
        lod_canon(t, from, l, l.lossless()),
    ensures
        lod_progress(
            t,
            from,
            from,
            l,
            (0, 0, 0, 0, 0),
            Seq::empty(),
            Seq::empty(),
            Seq::empty(),
            tex_table(l, 0),
            mat_table(l, 0),
            Seq::empty(),
        ),
{
    reveal(lod_progress);
    lemma_empty_texts(l);
    assert(t.subrange(from, from) =~= consumed(l, (0, 0, 0, 0, 0)));
    assert(l.taggs.entries().subrange(0, 0) =~= Seq::<(Seq<u8>, Seq<u8>)>::empty());
}

} // verus!
