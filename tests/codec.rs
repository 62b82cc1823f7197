use p3dtxt::decode::{decode_document, DecodeError};
use p3dtxt::dedup::NameTable;
use p3dtxt::encode::encode_document;
use p3dtxt::hex::{decode_hex32, decode_hex_bytes, encode_hex32};
use p3dtxt::model::{Document, Face, Lod, Point, Real, Vertex};
use p3dtxt::tags::{TagError, TagStore};

fn b(s: &str) -> Vec<u8> {
    s.as_bytes().to_vec()
}

fn bits(f: f32) -> Real {
    Real::Bits(f.to_bits())
}

fn dec(s: &str) -> Real {
    Real::Decimal(b(s))
}

fn face(tex: &str, mat: &str) -> Face {
    Face {
        vertices: vec![Vertex { point_index: 0, normal_index: 0, uv: (bits(0.5), bits(0.25)) }],
        flags: 0,
        texture: b(tex),
        material: b(mat),
    }
}

fn lossless_lod(faces: Vec<Face>, taggs: TagStore) -> Lod {
    Lod {
        version_major: 28,
        version_minor: 256,
        resolution: bits(1.0),
        points: vec![Point { coords: (bits(0.0), bits(0.0), bits(0.0)), flags: 0 }],
        face_normals: vec![(bits(0.0), bits(0.0), bits(1.0))],
        faces,
        taggs,
    }
}

fn text(doc: &Document) -> String {
    String::from_utf8(encode_document(doc)).unwrap()
}

const WORKED: &str =
    "v69\n[0x3f800000]\nv1.0\nP:0,0,0,0\nN:0,0,1\nT:tex\nM:mat\nF:0,0,0,0,0,3f800000,3f800000\nTAGG:#EndOfFile#=\n";

#[test]
fn worked_example_decodes() {
    let doc = decode_document(&b(WORKED)).unwrap();
    assert_eq!(doc.version, 0x69);
    assert_eq!(doc.lods.len(), 1);
    let lod = &doc.lods[0];
    assert!(matches!(lod.resolution, Real::Bits(x) if f32::from_bits(x) == 1.0));
    assert_eq!(lod.version_major, 1);
    assert_eq!(lod.version_minor, 0);
    assert_eq!(lod.points.len(), 1);
    assert!(matches!(lod.points[0].coords, (Real::Bits(0), Real::Bits(0), Real::Bits(0))));
    assert_eq!(lod.points[0].flags, 0);
    assert_eq!(lod.face_normals.len(), 1);
    assert!(matches!(lod.face_normals[0], (Real::Bits(0), Real::Bits(0), Real::Bits(1))));
    assert_eq!(lod.faces.len(), 1);
    let f = &lod.faces[0];
    assert_eq!(f.texture, b("tex"));
    assert_eq!(f.material, b("mat"));
    assert_eq!(f.vertices.len(), 1);
    assert_eq!(f.vertices[0].point_index, 0);
    assert_eq!(f.vertices[0].normal_index, 0);
    assert!(matches!(f.vertices[0].uv, (Real::Bits(0x3f800000), Real::Bits(0x3f800000))));
    assert_eq!(lod.taggs.pairs().len(), 0);
}

#[test]
fn worked_example_reencodes_identically() {
    let doc = decode_document(&b(WORKED)).unwrap();
    assert_eq!(text(&doc), WORKED);
}

#[test]
fn dedup_declares_each_name_once_in_first_order() {
    let faces = vec![face("a", "m"), face("b", "m"), face("a", "m"), face("c", "m")];
    let doc = Document { version: 0x101, lods: vec![lossless_lod(faces, TagStore::new())] };
    let out = text(&doc);
    let decls: Vec<&str> = out.lines().filter(|l| l.starts_with("T:")).collect();
    assert_eq!(decls, vec!["T:a", "T:b", "T:c"]);
    let face_tex: Vec<&str> =
        out.lines().filter(|l| l.starts_with("F:")).map(|l| l[2..].split(',').next().unwrap()).collect();
    assert_eq!(face_tex, vec!["0", "1", "0", "2"]);
    let lines: Vec<&str> = out.lines().collect();
    let pos = |s: &str| lines.iter().position(|l| *l == s).unwrap();
    assert!(pos("T:b") < pos("F:1,0,0,0,0,3f000000,3e800000"));
    assert_eq!(out.lines().filter(|l| l.starts_with("M:")).count(), 1);
}

#[test]
fn name_table_ids() {
    let mut t = NameTable::new();
    assert_eq!(t.intern(&b("a")), (true, 0));
    assert_eq!(t.intern(&b("b")), (true, 1));
    assert_eq!(t.intern(&b("a")), (false, 0));
    assert_eq!(t.intern(&b("c")), (true, 2));
    assert_eq!(t.len(), 3);
}

#[test]
fn tags_keep_order_and_end_with_one_terminator() {
    let mut tags = TagStore::new();
    tags.put(b("zeta"), vec![1, 2]).unwrap();
    tags.put(b("alpha"), vec![]).unwrap();
    tags.put(b("mid"), vec![0xff]).unwrap();
    let doc = Document { version: 1, lods: vec![lossless_lod(vec![], tags)] };
    let out = text(&doc);
    let tagg: Vec<&str> = out.lines().filter(|l| l.starts_with("TAGG:")).collect();
    assert_eq!(tagg, vec!["TAGG:zeta=0102", "TAGG:alpha=", "TAGG:mid=ff", "TAGG:#EndOfFile#="]);
    assert!(out.ends_with("TAGG:#EndOfFile#=\n"));
    let back = decode_document(&b(&out)).unwrap();
    let pairs = back.lods[0].taggs.pairs();
    assert_eq!(pairs, vec![(b("zeta"), vec![1, 2]), (b("alpha"), vec![]), (b("mid"), vec![0xff])]);
}

#[test]
fn tag_store_refuses_duplicates_and_reserved_key() {
    let mut tags = TagStore::new();
    assert_eq!(tags.put(b("a"), vec![1]), Ok(()));
    assert_eq!(tags.put(b("a"), vec![2]), Err(TagError::Duplicate));
    assert_eq!(tags.put(b("#EndOfFile#"), vec![]), Err(TagError::BadName));
    assert_eq!(tags.put(b("x=y"), vec![]), Err(TagError::BadName));
    assert!(tags.contains(&b("a")));
    assert_eq!(tags.pairs(), vec![(b("a"), vec![1])]);
}

#[test]
fn texture_reference_past_declarations_is_fatal() {
    let t = "v1\n[0x3f800000]\nv1.0\nP:0,0,0,0\nN:0,0,1\nT:tex\nM:mat\nF:1,0,0,0,0,0,0\nTAGG:#EndOfFile#=\n";
    assert_eq!(decode_document(&b(t)).err(), Some(DecodeError::Reference(51)));
}

#[test]
fn point_reference_past_points_is_fatal() {
    let t = "v1\n[0x3f800000]\nv1.0\nP:0,0,0,0\nN:0,0,1\nT:tex\nM:mat\nF:0,0,0,1,0,0,0\nTAGG:#EndOfFile#=\n";
    assert!(matches!(decode_document(&b(t)), Err(DecodeError::Reference(_))));
}

#[test]
fn unknown_record_type_is_fatal() {
    let t = "v1\n[1]\nv1.0\nQ:0,0,0\nTAGG:#EndOfFile#=\n";
    assert_eq!(decode_document(&b(t)).err(), Some(DecodeError::UnknownRecordType(12)));
}

#[test]
fn malformed_tokens_are_format_errors() {
    assert_eq!(decode_document(&b("x1\n")).err(), Some(DecodeError::Format(0)));
    assert_eq!(decode_document(&b("")).err(), Some(DecodeError::Format(0)));
    let bad_hex = "v1\n[0x3f80000g]\nv1.0\nTAGG:#EndOfFile#=\n";
    assert_eq!(decode_document(&b(bad_hex)).err(), Some(DecodeError::Format(3)));
    let bad_dec = "v1\n[1]\nv1.0\nP:1,2;,3,0\nTAGG:#EndOfFile#=\n";
    assert_eq!(decode_document(&b(bad_dec)).err(), Some(DecodeError::Format(12)));
    let no_end = "v1\n[1]\nv1.0\nP:1,2,3,0\n";
    assert_eq!(decode_document(&b(no_end)).err(), Some(DecodeError::Format(22)));
    let odd_tag = "v1\n[1]\nv1.0\nTAGG:a=abc\nTAGG:#EndOfFile#=\n";
    assert_eq!(decode_document(&b(odd_tag)).err(), Some(DecodeError::Format(12)));
}

#[test]
fn header_only_document_has_no_lods() {
    let doc = decode_document(&b("v2a\n")).unwrap();
    assert_eq!(doc.version, 0x2a);
    assert_eq!(doc.lods.len(), 0);
    assert_eq!(text(&doc), "v2a\n");
}

#[test]
fn lods_may_mix_float_modes() {
    let t = "v1\n[0x3f800000]\nv1.0\nN:0,80000000,7fc00000\nTAGG:#EndOfFile#=\n[2.5]\nv1c.100\nN:-0,NaN,inf\nTAGG:#EndOfFile#=\n";
    let doc = decode_document(&b(t)).unwrap();
    assert_eq!(doc.lods.len(), 2);
    assert!(matches!(doc.lods[0].face_normals[0], (Real::Bits(0), Real::Bits(0x80000000), Real::Bits(0x7fc00000))));
    assert!(matches!(&doc.lods[1].face_normals[0].1, Real::Decimal(s) if s == &b("NaN")));
    assert_eq!(doc.lods[1].version_major, 0x1c);
    assert_eq!(doc.lods[1].version_minor, 0x100);
    assert_eq!(text(&doc), t);
}

#[test]
fn decimal_mode_text_is_reproduced() {
    let mut tags = TagStore::new();
    tags.put(b("#Property#"), b("lod")).unwrap();
    let lod = Lod {
        version_major: 28,
        version_minor: 256,
        resolution: dec("1000"),
        points: vec![Point { coords: (dec("1.5"), dec("-2"), dec("0.1")), flags: 0x200 }],
        face_normals: vec![(dec("0"), dec("1"), dec("0"))],
        faces: vec![Face {
            vertices: vec![
                Vertex { point_index: 0, normal_index: 0, uv: (dec("0.5"), dec("1")) },
                Vertex { point_index: 0, normal_index: 0, uv: (dec("0"), dec("0")) },
            ],
            flags: 0,
            texture: b("data\\t.paa"),
            material: b(""),
        }],
        taggs: tags,
    };
    let doc = Document { version: 0x101, lods: vec![lod] };
    let out = text(&doc);
    assert_eq!(
        out,
        "v101\n[1000]\n\
         v1c.100\n\
         P:1.5,-2,0.1,200\n\
         N:0,1,0\n\
         T:data\\t.paa\n\
         M:\n\
         F:0,0,0,0,0,0.5,1,0,0,0,0\n\
         TAGG:#Property#=6c6f64\n\
         TAGG:#EndOfFile#=\n"
    );
    let back = decode_document(&b(&out)).unwrap();
    assert_eq!(text(&back), out);
}

#[test]
fn face_without_vertices_round_trips() {
    let t = "v1\n[1]\nv1.0\nT:a\nM:b\nF:0,0,5,\nTAGG:#EndOfFile#=\n";
    let doc = decode_document(&b(t)).unwrap();
    assert_eq!(doc.lods[0].faces[0].vertices.len(), 0);
    assert_eq!(doc.lods[0].faces[0].flags, 5);
    assert_eq!(text(&doc), t);
}

#[test]
fn lossless_floats_keep_every_bit_pattern() {
    for pattern in [0u32, 0x80000000, 1, 0x007fffff, 0x7f800000, 0xff800000, 0x7fc00000, 0x7fa00001, 0x3f800000, 0xffffffff] {
        let tok = encode_hex32(pattern);
        assert_eq!(decode_hex32(&tok, 0, tok.len()), Some(pattern));
        assert_eq!(f32::from_bits(pattern).to_bits(), pattern);
    }
}

#[test]
fn hex_tokens_exact() {
    assert_eq!(encode_hex32(0), b("0"));
    assert_eq!(encode_hex32(0x69), b("69"));
    assert_eq!(encode_hex32(0x3f800000), b("3f800000"));
    assert_eq!(encode_hex32(u32::MAX), b("ffffffff"));
    let t = b("00FfA");
    assert_eq!(decode_hex32(&t, 0, t.len()), Some(0xffa));
    let big = b("100000000");
    assert_eq!(decode_hex32(&big, 0, big.len()), None);
    let empty = b("");
    assert_eq!(decode_hex32(&empty, 0, 0), None);
    let bytes = b("00ff10");
    assert_eq!(decode_hex_bytes(&bytes, 0, bytes.len()), Some(vec![0, 255, 16]));
    assert_eq!(decode_hex_bytes(&bytes, 0, 5), None);
}

#[test]
fn non_canonical_text_still_decodes() {
    let t = "v0069\n[0x3F800000]\nv01.00\nT:unused\nP:0,0,0,00\nTAGG:AB=FF0a\nTAGG:c=\nTAGG:#EndOfFile#=\n";
    let doc = decode_document(&b(t)).unwrap();
    assert_eq!(doc.version, 0x69);
    assert_eq!(doc.lods.len(), 1);
    assert!(matches!(doc.lods[0].resolution, Real::Bits(0x3f800000)));
    assert_eq!(doc.lods[0].version_major, 1);
    assert_eq!(doc.lods[0].points.len(), 1);
    assert_eq!(doc.lods[0].taggs.pairs(), vec![(b("AB"), vec![0xff, 0x0a]), (b("c"), vec![])]);
}

#[test]
fn material_and_vertex_shape_errors() {
    let head = "v1\n[0x3f800000]\nv1.0\nP:0,0,0,0\nN:0,0,1\nT:tex\nM:mat\n";
    let bad_mat = format!("{}F:0,1,0,0,0,0,0\nTAGG:#EndOfFile#=\n", head);
    assert_eq!(decode_document(&b(&bad_mat)).err(), Some(DecodeError::Reference(51)));
    let bad_normal = format!("{}F:0,0,0,0,1,0,0\nTAGG:#EndOfFile#=\n", head);
    assert_eq!(decode_document(&b(&bad_normal)).err(), Some(DecodeError::Reference(51)));
    let three = format!("{}F:0,0,0,0,0,0\nTAGG:#EndOfFile#=\n", head);
    assert_eq!(decode_document(&b(&three)).err(), Some(DecodeError::Format(51)));
    let bad_version = "v1\n[1]\nv1\nTAGG:#EndOfFile#=\n";
    assert_eq!(decode_document(&b(bad_version)).err(), Some(DecodeError::Format(7)));
    let bad_header = "vxyz\n";
    assert_eq!(decode_document(&b(bad_header)).err(), Some(DecodeError::Format(0)));
    let dup_tag = "v1\n[1]\nv1.0\nTAGG:a=\nTAGG:a=\nTAGG:#EndOfFile#=\n";
    assert_eq!(decode_document(&b(dup_tag)).err(), Some(DecodeError::Format(20)));
}
