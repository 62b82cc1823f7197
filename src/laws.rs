//! Properties of the codec that relate several of its functions.
use vstd::prelude::*;
use crate::dedup::{distinct, id_in, interned, table_of};
use crate::grammar::{
    bytes_text, faces_text, lod_header, lod_text, normals_text, points_text, real_text, tag_line, tagg_prefix,
    tags_text, terminator_line,
};
use crate::hex::{
    all_hex, byte_text, hex32_of, hex_bytes_of, is_hex_digit, lemma_byte_round_trip, lemma_hex_round_trip,
};
use crate::model::{decimal_ok, Lod, Real};
use crate::tags::{sentinel, tag_name_ok};

verus! {

/// Lossless float fidelity: the token that `encode_document` writes for a
/// bit pattern is read back by `parse_real` in lossless mode as that very
/// pattern, for every one of the 2^32 patterns.
pub proof fn lemma_float_fidelity(bits: u32)
    ensures
        hex32_of(real_text(Real::Bits(bits))) == Some(bits),
{
    lemma_hex_round_trip(bits);
}

/// Every float token the encoder writes, in either mode, is one that
/// `parse_real` accepts in that mode, and what it reads back writes the same
/// token again: the bits themselves in lossless mode, the literal itself in
/// decimal mode.
pub proof fn lemma_token_idempotent(r: Real, lossless: bool)
    requires
        r.fits(lossless),
    ensures
        lossless ==> r is Bits && hex32_of(real_text(r)) == Some(r->Bits_0),
        !lossless ==> r is Decimal && decimal_ok(real_text(r)),
{
    match r {
        Real::Bits(b) => lemma_hex_round_trip(b),
        Real::Decimal(_) => {},
    }
}

/// A LOD's text ends with its tag records in insertion order and then the
/// terminator; no tag record of a well-formed store reads as the terminator,
/// so the terminator appears once, last.
pub proof fn lemma_tags_close_lod(l: Lod)
    requires
        l.taggs.wf(),
    ensures
        lod_text(l) == lod_header(l) + points_text(l.points@) + normals_text(l.face_normals@) + faces_text(
            l.faces@,
        ) + tags_text(l.taggs.entries()) + terminator_line(),
        forall|i: int|
            0 <= i < l.taggs.entries().len() ==> tags_text(l.taggs.entries().subrange(0, i + 1)) == tags_text(
                l.taggs.entries().subrange(0, i),
            ) + tag_line(#[trigger] l.taggs.entries()[i]),
        forall|i: int|
            0 <= i < l.taggs.entries().len() ==> tag_line(#[trigger] l.taggs.entries()[i])
                != terminator_line(),
{
    let es = l.taggs.entries();
    assert forall|i: int| 0 <= i < es.len() implies tags_text(es.subrange(0, i + 1)) == tags_text(
        es.subrange(0, i),
    ) + tag_line(#[trigger] es[i]) by {
        assert(es.subrange(0, i + 1).drop_last() =~= es.subrange(0, i));
    }
    assert forall|i: int| 0 <= i < es.len() implies tag_line(#[trigger] es[i]) != terminator_line() by {
        lemma_tag_line_not_terminator(es[i]);
    }
}

proof fn lemma_tag_line_not_terminator(e: (Seq<u8>, Seq<u8>))
    requires
        tag_name_ok(e.0),
    ensures
        tag_line(e) != terminator_line(),
{
    let a = tag_line(e);
    let b = terminator_line();
    let n = e.0.len() as int;
    let s = sentinel();
    assert(tagg_prefix().len() == 5);
    assert(s.len() == 11);
    if a == b {
        // The first `=` after the prefix ends the name in both lines.
        assert(a[5 + n] == 61u8);
        assert(b[16] == 61u8);
        if n < 11 {
            assert(b[5 + n] == s[n]);
            assert(s[n] != 61u8);
        } else if n > 11 {
            assert(a[16] == e.0[11]);
            assert(e.0[11] != 61u8);
        } else {
            assert forall|k: int| 0 <= k < 11 implies e.0[k] == s[k] by {
                assert(a[5 + k] == e.0[k]);
                assert(b[5 + k] == s[k]);
            }
            assert(e.0 =~= s);
        }
    }
}

/// Name deduplication: the table built from the names faces use, in order,
/// holds each of those names exactly once and nothing else, and the id of
/// each name is the position at which it was declared.
pub proof fn lemma_dedup_table(names: Seq<Seq<u8>>)
    ensures
        distinct(table_of(names)),
        table_of(names).len() <= names.len(),
        forall|i: int| 0 <= i < names.len() ==> table_of(names).contains(#[trigger] names[i]),
        forall|k: int| 0 <= k < table_of(names).len() ==> names.contains(#[trigger] table_of(names)[k]),
        forall|i: int|
            0 <= i < names.len() ==> {
                let id = id_in(table_of(names), #[trigger] names[i]);
                0 <= id < table_of(names).len() && table_of(names)[id] == names[i]
            },
    decreases names.len(),
{
    if names.len() > 0 {
        let before = names.drop_last();
        let x = names.last();
        lemma_dedup_table(before);
        let tb = table_of(before);
        let t = table_of(names);
        assert(t == interned(tb, x));
        if !tb.contains(x) {
            assert forall|a: int, b: int| 0 <= a < b < t.len() implies t[a] != t[b] by {
                if b == tb.len() {
                    assert(t[a] == tb[a]);
                }
            }
        }
        if tb.contains(x) {
            assert(t == tb);
        } else {
            assert(t == tb.push(x));
            assert(t[tb.len() as int] == x);
        }
        assert(t.contains(x));
        assert forall|i: int| 0 <= i < names.len() implies t.contains(#[trigger] names[i]) by {
            if i < before.len() {
                assert(names[i] == before[i]);
                assert(tb.contains(before[i]));
                let k = choose|k: int| 0 <= k < tb.len() && tb[k] == before[i];
                assert(t[k] == tb[k]);
            } else {
                assert(names[i] == x);
            }
        }
        assert forall|k: int| 0 <= k < t.len() implies names.contains(#[trigger] t[k]) by {
            if k < tb.len() {
                assert(t[k] == tb[k]);
                assert(before.contains(tb[k]));
                let j = choose|j: int| 0 <= j < before.len() && before[j] == tb[k];
                assert(names[j] == before[j]);
            } else {
                assert(names[names.len() - 1] == x);
            }
        }
        assert forall|i: int| 0 <= i < names.len() implies {
            let id = id_in(t, #[trigger] names[i]);
            0 <= id < t.len() && t[id] == names[i]
        } by {
            assert(t.contains(names[i]));
        }
    }
}

/// Tag payload fidelity: the digit pairs written for a tag's bytes read
/// back, through `decode_hex_bytes`, as exactly those bytes.
pub proof fn lemma_tag_bytes_round_trip(b: Seq<u8>)
    ensures
        hex_bytes_of(bytes_text(b)) == Some(b),
        bytes_text(b).len() == 2 * b.len(),
    decreases b.len(),
{
    if b.len() > 0 {
        let pre = b.drop_last();
        lemma_tag_bytes_round_trip(pre);
        lemma_byte_round_trip(b.last());
        let s = bytes_text(b);
        let sp = bytes_text(pre);
        let l = byte_text(b.last());
        assert(s == sp + l);
        assert(hex_bytes_of(sp) == Some(pre));
        assert(hex_bytes_of(l) == Some(seq![b.last()]));
        assert(all_hex(sp));
        assert(all_hex(l));
        assert forall|i: int| 0 <= i < s.len() implies is_hex_digit(#[trigger] s[i]) by {
            if i < sp.len() {
                assert(s[i] == sp[i]);
            } else {
                assert(s[i] == l[i - sp.len()]);
            }
        }
        let r = hex_bytes_of(s)->Some_0;
        assert forall|k: int| 0 <= k < b.len() implies r[k] == b[k] by {
            if k < pre.len() {
                assert(s[2 * k] == sp[2 * k]);
                assert(s[2 * k + 1] == sp[2 * k + 1]);
                assert(hex_bytes_of(sp)->Some_0[k] == pre[k]);
            } else {
                assert(s[2 * k] == l[0]);
                assert(s[2 * k + 1] == l[1]);
                assert(hex_bytes_of(l)->Some_0[0] == b.last());
            }
        }
        assert(r =~= b);
    }
}

/// The table built from the first `i` names is the start of the table built
/// from all of them.
pub proof fn lemma_table_prefix(names: Seq<Seq<u8>>, i: int)
    requires
        0 <= i <= names.len(),
    ensures
        table_of(names.subrange(0, i)).len() <= table_of(names).len(),
        table_of(names).subrange(0, table_of(names.subrange(0, i)).len() as int) == table_of(names.subrange(0, i)),
    decreases names.len(),
{
    if i == names.len() {
        assert(names.subrange(0, i) =~= names);
        assert(table_of(names).subrange(0, table_of(names).len() as int) =~= table_of(names));
    } else {
        let pre = names.drop_last();
        lemma_table_prefix(pre, i);
        assert(pre.subrange(0, i) =~= names.subrange(0, i));
        let tp = table_of(pre);
        let t = table_of(names);
        let k = table_of(names.subrange(0, i)).len() as int;
        assert(t == interned(tp, names.last()));
        assert(t.subrange(0, k) =~= tp.subrange(0, k));
    }
}

/// Dedup ordering: in a LOD whose faces use the texture names `names`, the
/// declarations the encoder writes are `table_of(names)`, each distinct name
/// once, in order of first use; and the id written on face `i` (its name's
/// position in the table as it stood at that face) is the name's position
/// in that whole table.
pub proof fn lemma_dedup_ids(names: Seq<Seq<u8>>, i: int)
    requires
        0 <= i < names.len(),
    ensures
        distinct(table_of(names)),
        forall|j: int| 0 <= j < names.len() ==> table_of(names).contains(#[trigger] names[j]),
        forall|k: int| 0 <= k < table_of(names).len() ==> names.contains(#[trigger] table_of(names)[k]),
        id_in(interned(table_of(names.subrange(0, i)), names[i]), names[i]) == id_in(table_of(names), names[i]),
{
    lemma_dedup_table(names);
    let pre = names.subrange(0, i);
    let nx = names.subrange(0, i + 1);
    assert(nx.drop_last() =~= pre);
    let tn = table_of(nx);
    assert(tn == interned(table_of(pre), names[i]));
    lemma_dedup_table(nx);
    assert(nx[i] == names[i]);
    let a = id_in(tn, names[i]);
    assert(0 <= a < tn.len() && tn[a] == names[i]);
    lemma_table_prefix(names, i + 1);
    let t = table_of(names);
    assert(t[a] == tn[a]);
    let b = id_in(t, names[i]);
    assert(0 <= b < t.len() && t[b] == names[i]);
    assert(a == b);
}

} // verus!
