use p3dtxt::decode::{
    decode_face, decode_normal, decode_point, decode_tag, parse_real, record_kind, split_commas, DecodeError,
    RecordKind,
};
use p3dtxt::model::Real;

fn b(s: &str) -> Vec<u8> {
    s.as_bytes().to_vec()
}

#[test]
fn record_kinds() {
    for (s, k) in [
        ("P", Some(RecordKind::Point)),
        ("N", Some(RecordKind::Normal)),
        ("T", Some(RecordKind::Texture)),
        ("M", Some(RecordKind::Material)),
        ("F", Some(RecordKind::Face)),
        ("TAGG", Some(RecordKind::Tag)),
        ("Q", None),
        ("TAG", None),
        ("", None),
    ] {
        let t = b(s);
        assert_eq!(record_kind(&t, 0, t.len()), k);
    }
}

#[test]
fn comma_split_spans() {
    let t = b("a,,bc,");
    assert_eq!(split_commas(&t, 0, t.len()), vec![(0, 1), (2, 2), (3, 5), (6, 6)]);
    assert_eq!(split_commas(&t, 0, 0), vec![(0, 0)]);
}

#[test]
fn float_tokens_in_both_modes() {
    let t = b("7fc00000");
    assert!(matches!(parse_real(&t, 0, t.len(), true, 9), Ok(Real::Bits(0x7fc00000))));
    let t = b("-0.5e3");
    assert!(matches!(parse_real(&t, 0, t.len(), false, 9), Ok(Real::Decimal(ref v)) if *v == b("-0.5e3")));
    let t = b("0x10");
    assert_eq!(parse_real(&t, 0, t.len(), false, 9).err(), Some(DecodeError::Format(9)));
    let t = b("1,5");
    assert_eq!(parse_real(&t, 0, t.len(), false, 4).err(), Some(DecodeError::Format(4)));
    let t = b("");
    assert_eq!(parse_real(&t, 0, 0, true, 1).err(), Some(DecodeError::Format(1)));
}

#[test]
fn point_and_normal_payloads() {
    let t = b("3f800000,0,bf800000,ff");
    let p = decode_point(&t, 0, t.len(), true, 0).unwrap();
    assert!(matches!(p.coords, (Real::Bits(0x3f800000), Real::Bits(0), Real::Bits(0xbf800000))));
    assert_eq!(p.flags, 0xff);
    let t = b("1,2,3");
    assert_eq!(decode_point(&t, 0, t.len(), false, 5).err(), Some(DecodeError::Format(5)));
    let n = decode_normal(&t, 0, t.len(), false, 5).unwrap();
    assert!(matches!(n.2, Real::Decimal(ref v) if *v == b("3")));
}

#[test]
fn tag_payloads() {
    let t = b("name=00ff");
    assert_eq!(decode_tag(&t, 0, t.len(), 0), Ok(Some((b("name"), vec![0, 255]))));
    let t = b("#EndOfFile#=");
    assert_eq!(decode_tag(&t, 0, t.len(), 0), Ok(None));
    let t = b("#EndOfFile#=00");
    assert_eq!(decode_tag(&t, 0, t.len(), 3), Err(DecodeError::Format(3)));
    let t = b("noequals");
    assert_eq!(decode_tag(&t, 0, t.len(), 3), Err(DecodeError::Format(3)));
}

#[test]
fn face_payloads_resolve_against_declarations() {
    let textures = vec![b("a"), b("b")];
    let materials = vec![b("m")];
    let t = b("1,0,7,0,0,3f800000,0");
    let f = split_commas(&t, 0, t.len());
    let face = decode_face(&t, 0, t.len(), &f, true, 0, 1, 1, &textures, &materials).unwrap();
    assert_eq!(face.texture, b("b"));
    assert_eq!(face.material, b("m"));
    assert_eq!(face.flags, 7);
    assert_eq!(face.vertices.len(), 1);
    let t = b("2,0,7,");
    let f = split_commas(&t, 0, t.len());
    assert_eq!(decode_face(&t, 0, t.len(), &f, true, 8, 1, 1, &textures, &materials).err(), Some(DecodeError::Reference(8)));
    let t = b("0,1,7,");
    let f = split_commas(&t, 0, t.len());
    assert_eq!(decode_face(&t, 0, t.len(), &f, true, 8, 1, 1, &textures, &materials).err(), Some(DecodeError::Reference(8)));
    let t = b("0,0,7,0,0,0");
    let f = split_commas(&t, 0, t.len());
    assert_eq!(decode_face(&t, 0, t.len(), &f, true, 8, 1, 1, &textures, &materials).err(), Some(DecodeError::Format(8)));
    let t = b("0,0,7,1,0,0,0");
    let f = split_commas(&t, 0, t.len());
    assert_eq!(decode_face(&t, 0, t.len(), &f, true, 8, 1, 1, &textures, &materials).err(), Some(DecodeError::Reference(8)));
}
