//! Text to model: a line scanner over the bytes of a document.
use vstd::prelude::*;
use crate::canon::{
    face_ids, face_same, kind_bytes, lemma_face_payload_inj, lemma_first_at, lemma_line_at, lemma_progress_advance,
    lemma_progress_end, lemma_progress_line, lemma_progress_start, lemma_tag_payload_inj, lod_body, lod_canon,
    lod_progress, mat_table, names_view, next_kind, next_payload, next_stage, tex_table, Stage,
};
use crate::grammar::{materials_of, textures_of};
use crate::dedup::interned;
use crate::canon::{bracket_text, doc_canon, lemma_lod_text_shape, lemma_lods_prefix, lemma_lods_text_eq, version_text, is_prefix, lemma_prefix_extend, lemma_prefix_concat, no_nl};
use crate::grammar::{doc_text, lod_header, lod_text, lods_text};
use crate::grammar::{bytes_text, real_text, triple_text, vertex_text, vertices_text};
use crate::laws::lemma_tag_bytes_round_trip;
use crate::hex::{
    decode_hex32, decode_hex_bytes, hex32_of, hex_bytes_of, hex_text, is_hex_digit, lemma_hex_round_trip,
    lemma_hex_text_value,
};
use crate::model::{decimal_char, decimal_ok, name_ok, triple_fits, Document, Face, Lod, Point, Real, Vertex};
use crate::tags::{is_sentinel, sentinel, tag_name_ok, TagError, TagStore};

verus! {

/// Why a text did not decode. Each error carries the offset of the line at fault.
#[derive(Debug, Clone, Copy, PartialEq, Eq, Structural)]
pub enum DecodeError {
    /// A token or a line does not have the shape the grammar asks for.
    Format(usize),
    /// A face refers past the points, normals, textures or materials declared so far.
    Reference(usize),
    /// A record's type is none of `P`, `N`, `T`, `M`, `F`, `TAGG`.
    UnknownRecordType(usize),
}

/// The record types a LOD is made of.
#[derive(Debug, Clone, Copy, PartialEq, Eq, Structural)]
pub enum RecordKind {
    Point,
    Normal,
    Texture,
    Material,
    Face,
    Tag,
}

pub open spec fn kind_of(s: Seq<u8>) -> Option<RecordKind> {
    if s.len() == 1 && s[0] == 80u8 {
        Some(RecordKind::Point)
    } else if s.len() == 1 && s[0] == 78u8 {
        Some(RecordKind::Normal)
    } else if s.len() == 1 && s[0] == 84u8 {
        Some(RecordKind::Texture)
    } else if s.len() == 1 && s[0] == 77u8 {
        Some(RecordKind::Material)
    } else if s.len() == 1 && s[0] == 70u8 {
        Some(RecordKind::Face)
    } else if s.len() == 4 && s[0] == 84u8 && s[1] == 65u8 && s[2] == 71u8 && s[3] == 71u8 {
        Some(RecordKind::Tag)
    } else {
        None
    }
}

/// The record kind named by `t[lo..hi]`.
pub fn record_kind(t: &Vec<u8>, lo: usize, hi: usize) -> (r: Option<RecordKind>)
    requires
        lo <= hi <= t@.len(),
    ensures
        r == kind_of(t@.subrange(lo as int, hi as int)),
{
    let n = hi - lo;
    if n == 1 {
        let c = t[lo];
        if c == 80 {
            Some(RecordKind::Point)
        } else if c == 78 {
            Some(RecordKind::Normal)
        } else if c == 84 {
            Some(RecordKind::Texture)
        } else if c == 77 {
            Some(RecordKind::Material)
        } else if c == 70 {
            Some(RecordKind::Face)
        } else {
            None
        }
    } else if n == 4 && t[lo] == 84 && t[lo + 1] == 65 && t[lo + 2] == 71 && t[lo + 3] == 71 {
        Some(RecordKind::Tag)
    } else {
        None
    }
}

/// The first offset in `lo..hi` that holds `c`, or `hi`.
pub fn find_byte(t: &Vec<u8>, lo: usize, hi: usize, c: u8) -> (r: usize)
    requires
        lo <= hi <= t@.len(),
    ensures
        lo <= r <= hi,
        forall|k: int| lo <= k < r ==> t@[k] != c,
        r < hi ==> t@[r as int] == c,
        r == first_from(t@, lo as int, hi as int, c),
{
    proof {
        lemma_first_from_bounds(t@, lo as int, hi as int, c);
    }
    let mut i: usize = lo;
    while i < hi
        invariant
            lo <= i <= hi <= t@.len(),
            forall|k: int| lo <= k < i ==> t@[k] != c,
        decreases hi - i,
    {
        if t[i] == c {
            proof {
                lemma_first_from_is(t@, lo as int, hi as int, c, i as int);
            }
            return i;
        }
        i = i + 1;
    }
    proof {
        lemma_first_from_is(t@, lo as int, hi as int, c, i as int);
    }
    i
}

/// The first offset in `lo..hi` that holds `c`, or `hi`.
pub open spec fn first_from(t: Seq<u8>, lo: int, hi: int, c: u8) -> int
    decreases hi - lo,
{
    if lo >= hi {
        hi
    } else if t[lo] == c {
        lo
    } else {
        first_from(t, lo + 1, hi, c)
    }
}

proof fn lemma_first_from_bounds(t: Seq<u8>, lo: int, hi: int, c: u8)
    requires
        lo <= hi,
    ensures
        lo <= first_from(t, lo, hi, c) <= hi,
    decreases hi - lo,
{
    if lo < hi && t[lo] != c {
        lemma_first_from_bounds(t, lo + 1, hi, c);
    }
}

proof fn lemma_first_from_is(t: Seq<u8>, lo: int, hi: int, c: u8, r: int)
    requires
        lo <= r <= hi,
        forall|k: int| lo <= k < r ==> t[k] != c,
        r < hi ==> t[r] == c,
    ensures
        first_from(t, lo, hi, c) == r,
    decreases hi - lo,
{
    if lo < r {
        lemma_first_from_is(t, lo + 1, hi, c, r);
    }
}

/// The spans of `t[lo..hi]` between commas, from the left.
pub open spec fn spans(t: Seq<u8>, lo: int, hi: int) -> Seq<(usize, usize)>
    decreases hi - lo,
{
    let c = first_from(t, lo, hi, 44u8);
    if c >= hi || c < lo {
        seq![(lo as usize, hi as usize)]
    } else {
        seq![(lo as usize, c as usize)] + spans(t, c + 1, hi)
    }
}

/// The spans of `t[lo..hi]` between commas.
pub open spec fn comma_split(t: Seq<u8>, lo: int, hi: int, f: Seq<(usize, usize)>) -> bool {
    &&& f.len() >= 1
    &&& f[0].0 == lo
    &&& f.last().1 == hi
    &&& forall|k: int| 0 <= k < f.len() ==> lo <= (#[trigger] f[k]).0 <= f[k].1 <= hi
    &&& forall|k: int, j: int| #![trigger t[j], f[k]] 0 <= k < f.len() && f[k].0 <= j < f[k].1 ==> t[j] != 44u8
    &&& forall|k: int| 0 <= k < f.len() - 1 ==> #[trigger] t[f[k].1 as int] == 44u8 && f[k + 1].0 == f[k].1 + 1
}

/// Splits `t[lo..hi]` at every comma.
pub fn split_commas(t: &Vec<u8>, lo: usize, hi: usize) -> (r: Vec<(usize, usize)>)
    requires
        lo <= hi <= t@.len(),
    ensures
        comma_split(t@, lo as int, hi as int, r@),
        r@ == spans(t@, lo as int, hi as int),
{
    let mut r: Vec<(usize, usize)> = Vec::new();
    let mut start: usize = lo;
    assert(spans(t@, lo as int, hi as int) =~= r@ + spans(t@, lo as int, hi as int));
    loop
        invariant
            lo <= start <= hi <= t@.len(),
            spans(t@, lo as int, hi as int) == r@ + spans(t@, start as int, hi as int),
            r@.len() == 0 ==> start == lo,
            r@.len() > 0 ==> r@[0].0 == lo && start == r@.last().1 + 1 && t@[r@.last().1 as int] == 44u8,
            forall|k: int| 0 <= k < r@.len() ==> lo <= (#[trigger] r@[k]).0 <= r@[k].1 < start,
            forall|k: int, j: int| #![trigger t@[j], r@[k]] 0 <= k < r@.len() && r@[k].0 <= j < r@[k].1 ==> t@[j] != 44u8,
            forall|k: int| 0 <= k < r@.len() - 1 ==> #[trigger] t@[r@[k].1 as int] == 44u8 && r@[k + 1].0 == r@[k].1 + 1,
        decreases hi - start,
    {
        let e = find_byte(t, start, hi, 44);
        let ghost before = r@;
        r.push((start, e));
        if e == hi {
            assert(spans(t@, start as int, hi as int) == seq![(start, hi)]);
            assert(r@ =~= before + spans(t@, start as int, hi as int));
            return r;
        }
        assert(spans(t@, start as int, hi as int) == seq![(start, e)] + spans(t@, e + 1, hi as int));
        assert(before + spans(t@, start as int, hi as int) =~= r@ + spans(t@, e + 1, hi as int));
        start = e + 1;
    }
}

/// Tokens joined by commas.
pub open spec fn joined(toks: Seq<Seq<u8>>) -> Seq<u8>
    decreases toks.len(),
{
    if toks.len() <= 1 {
        if toks.len() == 1 {
            toks[0]
        } else {
            Seq::empty()
        }
    } else {
        joined(toks.drop_last()) + seq![44u8] + toks.last()
    }
}

pub open spec fn comma_free(s: Seq<u8>) -> bool {
    forall|i: int| 0 <= i < s.len() ==> #[trigger] s[i] != 44u8
}

proof fn lemma_joined_commas(toks: Seq<Seq<u8>>)
    requires
        toks.len() >= 2,
        forall|k: int| 0 <= k < toks.len() ==> comma_free(#[trigger] toks[k]),
    ensures
        ({
            let j = joined(toks);
            let c = joined(toks.drop_last()).len() as int;
            &&& j[c] == 44u8
            &&& forall|i: int| c < i < j.len() ==> #[trigger] j[i] != 44u8
            &&& j.subrange(0, c) == joined(toks.drop_last())
            &&& j.subrange(c + 1, j.len() as int) == toks.last()
        }),
{
    let j = joined(toks);
    let p = joined(toks.drop_last());
    let c = p.len() as int;
    assert(j == p + seq![44u8] + toks.last());
    assert(comma_free(toks[toks.len() - 1]));
    assert forall|i: int| c < i < j.len() implies #[trigger] j[i] != 44u8 by {
        assert(j[i] == toks.last()[i - c - 1]);
    }
    assert(j.subrange(0, c) =~= p);
    assert(j.subrange(c + 1, j.len() as int) =~= toks.last());
}

/// A split of a run of comma-free tokens joined by commas yields those tokens.
pub proof fn lemma_split_joined(t: Seq<u8>, lo: int, hi: int, f: Seq<(usize, usize)>, toks: Seq<Seq<u8>>)
    requires
        comma_split(t, lo, hi, f),
        0 <= lo <= hi <= t.len(),
        toks.len() >= 1,
        forall|k: int| 0 <= k < toks.len() ==> comma_free(#[trigger] toks[k]),
        t.subrange(lo, hi) == joined(toks),
    ensures
        f.len() == toks.len(),
        forall|k: int| 0 <= k < f.len() ==> #[trigger] field(t, f, k) == toks[k],
    decreases toks.len(),
{
    let n = f.len() as int;
    if toks.len() == 1 {
        if n >= 2 {
            let c = f[0].1 as int;
            assert(t[f[0].1 as int] == 44u8);
            assert(t.subrange(lo, hi)[c - lo] == t[c]);
            assert(comma_free(toks[0]));
        }
        assert(field(t, f, 0) =~= t.subrange(lo, hi));
    } else {
        lemma_joined_commas(toks);
        let pre = toks.drop_last();
        let c = lo + joined(pre).len();
        if n == 1 {
            assert(t[c] == t.subrange(lo, hi)[c - lo]);
            assert(f[0].0 <= c < f[0].1);
        } else {
            let m = f[n - 2].1 as int;
            assert(t[f[n - 2].1 as int] == 44u8);
            assert(f[n - 1].0 == m + 1);
            // The last comma of the span is the one before the last token.
            if m < c {
                assert(t[c] == t.subrange(lo, hi)[c - lo]);
                assert(f[n - 1].0 <= c < f[n - 1].1);
            } else if m > c {
                assert(t[m] == t.subrange(lo, hi)[m - lo]);
            }
            assert(m == c);
            let g = f.drop_last();
            assert(t.subrange(lo, m) =~= t.subrange(lo, hi).subrange(0, m - lo));
            assert forall|k: int| 0 <= k < pre.len() implies comma_free(#[trigger] pre[k]) by {
                assert(pre[k] == toks[k]);
            }
            assert(comma_split(t, lo, m, g)) by {
                assert forall|k: int| 0 <= k < g.len() implies lo <= (#[trigger] g[k]).0 <= g[k].1 <= m by {
                    assert(g[k] == f[k]);
                    lemma_split_ordered(t, lo, hi, f, k, n - 2);
                }
                assert forall|k: int| 0 <= k < g.len() - 1 implies #[trigger] t[g[k].1 as int] == 44u8 && g[k
                    + 1].0 == g[k].1 + 1 by {
                    assert(g[k] == f[k]);
                    assert(g[k + 1] == f[k + 1]);
                    assert(t[f[k].1 as int] == 44u8);
                }
                assert forall|k: int, j: int| #![trigger t[j], g[k]] 0 <= k < g.len() && g[k].0 <= j < g[k].1 implies t[j]
                    != 44u8 by {
                    assert(g[k] == f[k]);
                    assert(t[j] != 44u8 || f[k] != f[k]);
                }
            }
            lemma_split_joined(t, lo, m, g, pre);
            assert forall|k: int| 0 <= k < f.len() implies #[trigger] field(t, f, k) == toks[k] by {
                if k < n - 1 {
                    assert(field(t, f, k) == field(t, g, k));
                } else {
                    assert(field(t, f, k) =~= t.subrange(lo, hi).subrange(m + 1 - lo, hi - lo));
                }
            }
        }
    }
}

proof fn lemma_split_ordered(t: Seq<u8>, lo: int, hi: int, f: Seq<(usize, usize)>, a: int, b: int)
    requires
        comma_split(t, lo, hi, f),
        0 <= a <= b < f.len(),
    ensures
        f[a].1 <= f[b].1,
    decreases b - a,
{
    if a < b {
        lemma_split_ordered(t, lo, hi, f, a + 1, b);
        assert(t[f[a].1 as int] == 44u8);
        assert(f[a + 1].0 == f[a].1 + 1);
    }
}

/// Whether a float token reads in the given mode.
pub open spec fn real_ok(s: Seq<u8>, lossless: bool) -> bool {
    if lossless {
        hex32_of(s) is Some
    } else {
        decimal_ok(s)
    }
}

/// `r` is what a float token reads as in the given mode.
pub open spec fn real_read(r: Real, s: Seq<u8>, lossless: bool) -> bool {
    if lossless {
        r == Real::Bits(hex32_of(s)->Some_0)
    } else {
        r is Decimal && r->Decimal_0@ == s
    }
}

/// Whether a `P:` payload reads: four fields, three floats and a hex word.
pub open spec fn point_ok(t: Seq<u8>, lo: int, hi: int, lossless: bool) -> bool {
    let f = spans(t, lo, hi);
    &&& f.len() == 4
    &&& real_ok(field(t, f, 0), lossless)
    &&& real_ok(field(t, f, 1), lossless)
    &&& real_ok(field(t, f, 2), lossless)
    &&& hex32_of(field(t, f, 3)) is Some
}

/// Whether an `N:` payload reads: three floats.
pub open spec fn normal_ok(t: Seq<u8>, lo: int, hi: int, lossless: bool) -> bool {
    let f = spans(t, lo, hi);
    &&& f.len() == 3
    &&& real_ok(field(t, f, 0), lossless)
    &&& real_ok(field(t, f, 1), lossless)
    &&& real_ok(field(t, f, 2), lossless)
}

/// Reads a float token in the given mode.
pub fn parse_real(t: &Vec<u8>, lo: usize, hi: usize, lossless: bool, line: usize) -> (r: Result<Real, DecodeError>)
    requires
        lo <= hi <= t@.len(),
    ensures
        lossless ==> match hex32_of(t@.subrange(lo as int, hi as int)) {
            Some(b) => r == Ok::<Real, DecodeError>(Real::Bits(b)),
            None => r == Err::<Real, DecodeError>(DecodeError::Format(line)),
        },
        !lossless ==> (r is Ok <==> decimal_ok(t@.subrange(lo as int, hi as int))),
        !lossless && r is Ok ==> r->Ok_0 is Decimal && r->Ok_0->Decimal_0@ == t@.subrange(lo as int, hi as int),
        r is Err ==> r == Err::<Real, DecodeError>(DecodeError::Format(line)),
        r is Ok ==> r->Ok_0.fits(lossless),
        r is Ok <==> real_ok(t@.subrange(lo as int, hi as int), lossless),
        r is Ok ==> real_read(r->Ok_0, t@.subrange(lo as int, hi as int), lossless),
{
    if lossless {
        match decode_hex32(t, lo, hi) {
            Some(b) => Ok(Real::Bits(b)),
            None => Err(DecodeError::Format(line)),
        }
    } else {
        let ghost s = t@.subrange(lo as int, hi as int);
        if hi == lo {
            return Err(DecodeError::Format(line));
        }
        if hi - lo >= 2 && t[lo] == 48 && t[lo + 1] == 120 {
            assert(s[0] == 48u8 && s[1] == 120u8);
            return Err(DecodeError::Format(line));
        }
        let mut out: Vec<u8> = Vec::new();
        let mut i: usize = lo;
        while i < hi
            invariant
                lo <= i <= hi <= t@.len(),
                s == t@.subrange(lo as int, hi as int),
                out@ == t@.subrange(lo as int, i as int),
                forall|k: int| 0 <= k < i - lo ==> decimal_char(#[trigger] s[k]),
            decreases hi - i,
        {
            let c = t[i];
            if !((48 <= c && c <= 57) || (65 <= c && c <= 90) || (97 <= c && c <= 122) || c == 46 || c == 43
                || c == 45) {
                assert(!decimal_char(s[i - lo]));
                return Err(DecodeError::Format(line));
            }
            out.push(c);
            i = i + 1;
            assert(out@ =~= t@.subrange(lo as int, i as int));
        }
        Ok(Real::Decimal(out))
    }
}

/// Reads a hexadecimal integer field.
pub fn parse_hex_field(t: &Vec<u8>, lo: usize, hi: usize, line: usize) -> (r: Result<u32, DecodeError>)
    requires
        lo <= hi <= t@.len(),
    ensures
        match hex32_of(t@.subrange(lo as int, hi as int)) {
            Some(n) => r == Ok::<u32, DecodeError>(n),
            None => r == Err::<u32, DecodeError>(DecodeError::Format(line)),
        },
{
    match decode_hex32(t, lo, hi) {
        Some(n) => Ok(n),
        None => Err(DecodeError::Format(line)),
    }
}

/// Copies `t[lo..hi]`.
pub fn copy_range(t: &Vec<u8>, lo: usize, hi: usize) -> (r: Vec<u8>)
    requires
        lo <= hi <= t@.len(),
    ensures
        r@ == t@.subrange(lo as int, hi as int),
{
    let mut out: Vec<u8> = Vec::new();
    let mut i: usize = lo;
    while i < hi
        invariant
            lo <= i <= hi <= t@.len(),
            out@ == t@.subrange(lo as int, i as int),
        decreases hi - i,
    {
        out.push(t[i]);
        i = i + 1;
        assert(out@ =~= t@.subrange(lo as int, i as int));
    }
    out
}

/// Every float token of a value that fits its mode is free of commas, and
/// reads back in that mode as a value with the same token.
proof fn lemma_real_token(r: Real, lossless: bool)
    requires
        r.fits(lossless),
    ensures
        comma_free(real_text(r)),
        lossless ==> r is Bits && hex32_of(real_text(r)) == Some(r->Bits_0),
        !lossless ==> decimal_ok(real_text(r)),
{
    match r {
        Real::Bits(b) => {
            lemma_hex_round_trip(b);
            lemma_hex_text_value(b as nat);
        },
        Real::Decimal(_) => {},
    }
}

proof fn lemma_hex_token(n: u32)
    ensures
        comma_free(hex_text(n as nat)),
        hex32_of(hex_text(n as nat)) == Some(n),
{
    lemma_hex_round_trip(n);
    lemma_hex_text_value(n as nat);
}

/// The payload of a point record the encoder writes.
pub open spec fn point_payload(p: Point) -> Seq<u8> {
    triple_text(p.coords) + seq![44u8] + hex_text(p.flags as nat)
}

/// A `P:` payload: three floats and a hexadecimal flags word.
pub fn decode_point(t: &Vec<u8>, lo: usize, hi: usize, lossless: bool, line: usize) -> (r: Result<Point, DecodeError>)
    requires
        lo <= hi <= t@.len(),
    ensures
        r is Ok ==> triple_fits(r->Ok_0.coords, lossless),
        r is Err ==> r == Err::<Point, DecodeError>(DecodeError::Format(line)),
        r is Ok <==> point_ok(t@, lo as int, hi as int, lossless),
        r is Ok ==> ({
            let f = spans(t@, lo as int, hi as int);
            &&& real_read(r->Ok_0.coords.0, field(t@, f, 0), lossless)
            &&& real_read(r->Ok_0.coords.1, field(t@, f, 1), lossless)
            &&& real_read(r->Ok_0.coords.2, field(t@, f, 2), lossless)
            &&& hex32_of(field(t@, f, 3)) == Some(r->Ok_0.flags)
        }),
        (exists|p: Point| triple_fits(p.coords, lossless) && #[trigger] point_payload(p) == t@.subrange(lo as int, hi as int))
            ==> r is Ok && point_payload(r->Ok_0) == t@.subrange(lo as int, hi as int),
{
    let f = split_commas(t, lo, hi);
    proof {
        if exists|p: Point| triple_fits(p.coords, lossless) && #[trigger] point_payload(p) == t@.subrange(lo as int, hi as int) {
            let p = choose|p: Point| triple_fits(p.coords, lossless) && #[trigger] point_payload(p) == t@.subrange(lo as int, hi as int);
            let toks = seq![real_text(p.coords.0), real_text(p.coords.1), real_text(p.coords.2), hex_text(p.flags as nat)];
            lemma_real_token(p.coords.0, lossless);
            lemma_real_token(p.coords.1, lossless);
            lemma_real_token(p.coords.2, lossless);
            lemma_hex_token(p.flags);
            assert(toks.drop_last().drop_last().drop_last() =~= seq![real_text(p.coords.0)]);
            assert(toks.drop_last().drop_last() =~= seq![real_text(p.coords.0), real_text(p.coords.1)]);
            assert(toks.drop_last() =~= seq![real_text(p.coords.0), real_text(p.coords.1), real_text(p.coords.2)]);
            let j1 = toks.drop_last().drop_last().drop_last();
            let j2 = toks.drop_last().drop_last();
            let j3 = toks.drop_last();
            assert(joined(j1) == toks[0]);
            assert(joined(j2) == joined(j1) + seq![44u8] + toks[1]);
            assert(joined(j3) == joined(j2) + seq![44u8] + toks[2]);
            assert(joined(toks) == joined(j3) + seq![44u8] + toks[3]);
            assert(joined(toks) =~= point_payload(p));
            lemma_split_joined(t@, lo as int, hi as int, f@, toks);
            assert(field(t@, f@, 0) == toks[0]);
            assert(field(t@, f@, 1) == toks[1]);
            assert(field(t@, f@, 2) == toks[2]);
            assert(field(t@, f@, 3) == toks[3]);
        }
    }
    if f.len() != 4 {
        return Err(DecodeError::Format(line));
    }
    let x = parse_real(t, f[0].0, f[0].1, lossless, line)?;
    let y = parse_real(t, f[1].0, f[1].1, lossless, line)?;
    let z = parse_real(t, f[2].0, f[2].1, lossless, line)?;
    let flags = parse_hex_field(t, f[3].0, f[3].1, line)?;
    let point = Point { coords: (x, y, z), flags };
    proof {
        if exists|p: Point| triple_fits(p.coords, lossless) && #[trigger] point_payload(p) == t@.subrange(lo as int, hi as int) {
            let p = choose|p: Point| triple_fits(p.coords, lossless) && #[trigger] point_payload(p) == t@.subrange(lo as int, hi as int);
            assert(real_text(x) == real_text(p.coords.0));
            assert(real_text(y) == real_text(p.coords.1));
            assert(real_text(z) == real_text(p.coords.2));
            assert(flags == p.flags);
            assert(point_payload(point) =~= point_payload(p));
        }
    }
    Ok(point)
}

/// An `N:` payload: three floats.
pub fn decode_normal(t: &Vec<u8>, lo: usize, hi: usize, lossless: bool, line: usize) -> (r: Result<
    (Real, Real, Real),
    DecodeError,
>)
    requires
        lo <= hi <= t@.len(),
    ensures
        r is Ok ==> triple_fits(r->Ok_0, lossless),
        r is Err ==> r == Err::<(Real, Real, Real), DecodeError>(DecodeError::Format(line)),
        r is Ok <==> normal_ok(t@, lo as int, hi as int, lossless),
        r is Ok ==> ({
            let f = spans(t@, lo as int, hi as int);
            &&& real_read(r->Ok_0.0, field(t@, f, 0), lossless)
            &&& real_read(r->Ok_0.1, field(t@, f, 1), lossless)
            &&& real_read(r->Ok_0.2, field(t@, f, 2), lossless)
        }),
        (exists|n: (Real, Real, Real)| triple_fits(n, lossless) && #[trigger] triple_text(n) == t@.subrange(lo as int, hi as int))
            ==> r is Ok && triple_text(r->Ok_0) == t@.subrange(lo as int, hi as int),
{
    let f = split_commas(t, lo, hi);
    proof {
        if exists|n: (Real, Real, Real)| triple_fits(n, lossless) && #[trigger] triple_text(n) == t@.subrange(lo as int, hi as int) {
            let n = choose|n: (Real, Real, Real)| triple_fits(n, lossless) && #[trigger] triple_text(n) == t@.subrange(lo as int, hi as int);
            let toks = seq![real_text(n.0), real_text(n.1), real_text(n.2)];
            lemma_real_token(n.0, lossless);
            lemma_real_token(n.1, lossless);
            lemma_real_token(n.2, lossless);
            let j1 = toks.drop_last().drop_last();
            let j2 = toks.drop_last();
            assert(j1 =~= seq![real_text(n.0)]);
            assert(j2 =~= seq![real_text(n.0), real_text(n.1)]);
            assert(joined(j1) == toks[0]);
            assert(joined(j2) == joined(j1) + seq![44u8] + toks[1]);
            assert(joined(toks) == joined(j2) + seq![44u8] + toks[2]);
            assert(joined(toks) =~= triple_text(n));
            lemma_split_joined(t@, lo as int, hi as int, f@, toks);
            assert(field(t@, f@, 0) == toks[0]);
            assert(field(t@, f@, 1) == toks[1]);
            assert(field(t@, f@, 2) == toks[2]);
        }
    }
    if f.len() != 3 {
        return Err(DecodeError::Format(line));
    }
    let x = parse_real(t, f[0].0, f[0].1, lossless, line)?;
    let y = parse_real(t, f[1].0, f[1].1, lossless, line)?;
    let z = parse_real(t, f[2].0, f[2].1, lossless, line)?;
    let normal = (x, y, z);
    proof {
        if exists|n: (Real, Real, Real)| triple_fits(n, lossless) && #[trigger] triple_text(n) == t@.subrange(lo as int, hi as int) {
            let n = choose|n: (Real, Real, Real)| triple_fits(n, lossless) && #[trigger] triple_text(n) == t@.subrange(lo as int, hi as int);
            assert(real_text(normal.0) == real_text(n.0));
            assert(real_text(normal.1) == real_text(n.1));
            assert(real_text(normal.2) == real_text(n.2));
            assert(triple_text(normal) =~= triple_text(n));
        }
    }
    Ok(normal)
}

pub open spec fn names_ok(names: Seq<Vec<u8>>) -> bool {
    forall|i: int| 0 <= i < names.len() ==> name_ok(#[trigger] names[i]@)
}

/// The declared name at a face's id, or a reference error past the end.
fn resolve_name(names: &Vec<Vec<u8>>, id: u32, line: usize) -> (r: Result<Vec<u8>, DecodeError>)
    ensures
        id < names@.len() ==> r is Ok && r->Ok_0@ == names@[id as int]@,
        id >= names@.len() ==> r == Err::<Vec<u8>, DecodeError>(DecodeError::Reference(line)),
{
    if (id as usize) < names.len() {
        Ok(names[id as usize].clone())
    } else {
        Err(DecodeError::Reference(line))
    }
}

/// The text of the `k`-th span of a split.
pub open spec fn field(t: Seq<u8>, f: Seq<(usize, usize)>, k: int) -> Seq<u8> {
    t.subrange(f[k].0 as int, f[k].1 as int)
}

/// A face payload has texture, material and flags, then either one empty
/// span (no vertices) or runs of four spans.
pub open spec fn face_shape_ok(t: Seq<u8>, f: Seq<(usize, usize)>) -> bool {
    &&& f.len() >= 4
    &&& f.len() == 4 ==> f[3].0 == f[3].1
    &&& f.len() > 4 ==> (f.len() - 3) % 4 == 0
}

/// The payload of a face record the encoder writes, with the ids it gave.
pub open spec fn face_payload(tid: nat, mid: nat, f: Face) -> Seq<u8> {
    hex_text(tid) + seq![44u8] + hex_text(mid) + seq![44u8] + hex_text(f.flags as nat) + seq![44u8] + vertices_text(
        f.vertices@,
    )
}

/// A face whose record, written with ids `tid` and `mid`, refers only to
/// what has been declared and read so far, with floats in the given mode.
pub open spec fn face_fits(
    tid: nat,
    mid: nat,
    f: Face,
    lossless: bool,
    n_points: int,
    n_normals: int,
    n_textures: int,
    n_materials: int,
) -> bool {
    &&& tid < n_textures && tid <= u32::MAX
    &&& mid < n_materials && mid <= u32::MAX
    &&& f.refs_ok(n_points, n_normals)
    &&& forall|j: int|
        0 <= j < f.vertices@.len() ==> (#[trigger] f.vertices@[j]).uv.0.fits(lossless) && f.vertices@[j].uv.1.fits(
            lossless,
        )
}

/// The `q`-th token of a vertex.
pub open spec fn vertex_token(v: Vertex, q: int) -> Seq<u8> {
    if q == 0 {
        hex_text(v.point_index as nat)
    } else if q == 1 {
        hex_text(v.normal_index as nat)
    } else if q == 2 {
        real_text(v.uv.0)
    } else {
        real_text(v.uv.1)
    }
}

/// The tokens of the vertices, four each.
pub open spec fn vertex_tokens(vs: Seq<Vertex>) -> Seq<Seq<u8>> {
    Seq::new((4 * vs.len()) as nat, |i: int| vertex_token(vs[i / 4], i % 4))
}

/// The tokens of a face payload.
pub open spec fn face_tokens(tid: nat, mid: nat, f: Face) -> Seq<Seq<u8>> {
    seq![hex_text(tid), hex_text(mid), hex_text(f.flags as nat)] + (if f.vertices@.len() == 0 {
        seq![Seq::<u8>::empty()]
    } else {
        vertex_tokens(f.vertices@)
    })
}

proof fn lemma_joined_concat(a: Seq<Seq<u8>>, b: Seq<Seq<u8>>)
    requires
        a.len() >= 1,
        b.len() >= 1,
    ensures
        joined(a + b) == joined(a) + seq![44u8] + joined(b),
    decreases b.len(),
{
    if b.len() == 1 {
        assert((a + b).drop_last() =~= a);
        assert(joined(b) == b[0]);
    } else {
        lemma_joined_concat(a, b.drop_last());
        assert((a + b).drop_last() =~= a + b.drop_last());
        assert(joined(a + b) =~= joined(a) + seq![44u8] + joined(b));
    }
}

proof fn lemma_vertex_tokens_joined(vs: Seq<Vertex>)
    requires
        vs.len() >= 1,
    ensures
        joined(vertex_tokens(vs)) == vertices_text(vs),
    decreases vs.len(),
{
    let last = vs.last();
    let four = seq![vertex_token(last, 0), vertex_token(last, 1), vertex_token(last, 2), vertex_token(last, 3)];
    let j1 = four.drop_last().drop_last().drop_last();
    let j2 = four.drop_last().drop_last();
    let j3 = four.drop_last();
    assert(j1 =~= seq![four[0]]);
    assert(j2 =~= seq![four[0], four[1]]);
    assert(j3 =~= seq![four[0], four[1], four[2]]);
    assert(joined(j1) == four[0]);
    assert(joined(j2) == joined(j1) + seq![44u8] + four[1]);
    assert(joined(j3) == joined(j2) + seq![44u8] + four[2]);
    assert(joined(four) == joined(j3) + seq![44u8] + four[3]);
    assert(joined(four) =~= vertex_text(last));
    if vs.len() == 1 {
        assert(vertex_tokens(vs) =~= four);
    } else {
        let pre = vs.drop_last();
        lemma_vertex_tokens_joined(pre);
        assert(vertex_tokens(vs) =~= vertex_tokens(pre) + four);
        lemma_joined_concat(vertex_tokens(pre), four);
    }
}

proof fn lemma_face_tokens(tid: nat, mid: nat, f: Face, lossless: bool)
    requires
        forall|j: int|
            0 <= j < f.vertices@.len() ==> (#[trigger] f.vertices@[j]).uv.0.fits(lossless) && f.vertices@[j].uv.1.fits(
                lossless,
            ),
    ensures
        joined(face_tokens(tid, mid, f)) == face_payload(tid, mid, f),
        forall|k: int| 0 <= k < face_tokens(tid, mid, f).len() ==> comma_free(#[trigger] face_tokens(tid, mid, f)[k]),
{
    let head = seq![hex_text(tid), hex_text(mid), hex_text(f.flags as nat)];
    let h1 = head.drop_last().drop_last();
    let h2 = head.drop_last();
    assert(h1 =~= seq![head[0]]);
    assert(h2 =~= seq![head[0], head[1]]);
    assert(joined(h1) == head[0]);
    assert(joined(h2) == joined(h1) + seq![44u8] + head[1]);
    assert(joined(head) == joined(h2) + seq![44u8] + head[2]);
    let vs = f.vertices@;
    let tail = if vs.len() == 0 {
        seq![Seq::<u8>::empty()]
    } else {
        vertex_tokens(vs)
    };
    assert(face_tokens(tid, mid, f) == head + tail);
    lemma_joined_concat(head, tail);
    if vs.len() == 0 {
        assert(joined(tail) == Seq::<u8>::empty());
    } else {
        lemma_vertex_tokens_joined(vs);
    }
    assert(joined(face_tokens(tid, mid, f)) =~= face_payload(tid, mid, f));
    lemma_hex_text_value(tid);
    lemma_hex_text_value(mid);
    lemma_hex_text_value(f.flags as nat);
    assert forall|k: int| 0 <= k < face_tokens(tid, mid, f).len() implies comma_free(
        #[trigger] face_tokens(tid, mid, f)[k],
    ) by {
        let ft = face_tokens(tid, mid, f);
        if k >= 3 && vs.len() > 0 {
            let v = vs[(k - 3) / 4];
            lemma_hex_token(v.point_index);
            lemma_hex_token(v.normal_index);
            lemma_real_token(v.uv.0, lossless);
            lemma_real_token(v.uv.1, lossless);
            assert(ft[k] == vertex_token(v, (k - 3) % 4));
        } else if k < 3 {
            assert(ft[k] == head[k]);
        }
    }
}

proof fn lemma_vertices_text_eq(a: Seq<Vertex>, b: Seq<Vertex>)
    requires
        a.len() == b.len(),
        forall|j: int| 0 <= j < a.len() ==> vertex_text(#[trigger] a[j]) == vertex_text(b[j]),
    ensures
        vertices_text(a) == vertices_text(b),
    decreases a.len(),
{
    if a.len() > 1 {
        lemma_vertices_text_eq(a.drop_last(), b.drop_last());
        assert(vertex_text(a[a.len() - 1]) == vertex_text(b[b.len() - 1]));
    } else if a.len() == 1 {
        assert(vertex_text(a[0]) == vertex_text(b[0]));
    }
}

/// The first error among the vertex runs from span `k` on, if any: a
/// malformed token, else an index past the points or normals.
pub open spec fn verts_outcome(
    t: Seq<u8>,
    f: Seq<(usize, usize)>,
    k: int,
    lossless: bool,
    line: usize,
    n_points: int,
    n_normals: int,
) -> Option<DecodeError>
    decreases f.len() - k,
{
    if k < 3 || k + 4 > f.len() {
        None
    } else if hex32_of(field(t, f, k)) is None || hex32_of(field(t, f, k + 1)) is None || !real_ok(
        field(t, f, k + 2),
        lossless,
    ) || !real_ok(field(t, f, k + 3), lossless) {
        Some(DecodeError::Format(line))
    } else if hex32_of(field(t, f, k))->Some_0 >= n_points || hex32_of(field(t, f, k + 1))->Some_0 >= n_normals {
        Some(DecodeError::Reference(line))
    } else {
        verts_outcome(t, f, k + 4, lossless, line, n_points, n_normals)
    }
}

/// The error a face payload gives, if any, in the order the record is read.
pub open spec fn face_outcome(
    t: Seq<u8>,
    lo: int,
    hi: int,
    lossless: bool,
    line: usize,
    n_points: int,
    n_normals: int,
    n_textures: int,
    n_materials: int,
) -> Option<DecodeError> {
    let f = spans(t, lo, hi);
    if !face_shape_ok(t, f) {
        Some(DecodeError::Format(line))
    } else if hex32_of(field(t, f, 0)) is None || hex32_of(field(t, f, 1)) is None || hex32_of(field(t, f, 2)) is None {
        Some(DecodeError::Format(line))
    } else if hex32_of(field(t, f, 0))->Some_0 >= n_textures || hex32_of(field(t, f, 1))->Some_0 >= n_materials {
        Some(DecodeError::Reference(line))
    } else if f.len() > 4 {
        verts_outcome(t, f, 3, lossless, line, n_points, n_normals)
    } else {
        None
    }
}

/// An `F:` payload, split at its commas into `f`: texture id, material id,
/// flags, then vertices as runs of point index, normal index, u, v. Names
/// resolve against the declarations so far, indices against the points and
/// normals so far.
#[verifier::rlimit(100)]
#[verifier::spinoff_prover]
pub fn decode_face(
    t: &Vec<u8>,
    lo: usize,
    hi: usize,
    f: &Vec<(usize, usize)>,
    lossless: bool,
    line: usize,
    n_points: usize,
    n_normals: usize,
    textures: &Vec<Vec<u8>>,
    materials: &Vec<Vec<u8>>,
) -> (r: Result<Face, DecodeError>)
    requires
        lo <= hi <= t@.len(),
        comma_split(t@, lo as int, hi as int, f@),
        f@ == spans(t@, lo as int, hi as int),
        names_ok(textures@),
        names_ok(materials@),
    ensures
        match face_outcome(
            t@,
            lo as int,
            hi as int,
            lossless,
            line,
            n_points as int,
            n_normals as int,
            textures@.len() as int,
            materials@.len() as int,
        ) {
            Some(x) => r == Err::<Face, DecodeError>(x),
            None => r is Ok,
        },
        r is Ok ==> forall|j: int|
            0 <= j < r->Ok_0.vertices@.len() ==> {
                let v = #[trigger] r->Ok_0.vertices@[j];
                &&& hex32_of(field(t@, f@, 3 + 4 * j)) == Some(v.point_index)
                &&& hex32_of(field(t@, f@, 4 + 4 * j)) == Some(v.normal_index)
                &&& real_read(v.uv.0, field(t@, f@, 5 + 4 * j), lossless)
                &&& real_read(v.uv.1, field(t@, f@, 6 + 4 * j), lossless)
            },
        !face_shape_ok(t@, f@) ==> r == Err::<Face, DecodeError>(DecodeError::Format(line)),
        face_shape_ok(t@, f@) && (hex32_of(field(t@, f@, 0)) is None || hex32_of(field(t@, f@, 1)) is None
            || hex32_of(field(t@, f@, 2)) is None) ==> r == Err::<Face, DecodeError>(DecodeError::Format(line)),
        face_shape_ok(t@, f@) && hex32_of(field(t@, f@, 0)) is Some && hex32_of(field(t@, f@, 1)) is Some
            && hex32_of(field(t@, f@, 2)) is Some && hex32_of(field(t@, f@, 0))->Some_0 >= textures@.len()
            ==> r == Err::<Face, DecodeError>(DecodeError::Reference(line)),
        face_shape_ok(t@, f@) && hex32_of(field(t@, f@, 0)) is Some && hex32_of(field(t@, f@, 1)) is Some
            && hex32_of(field(t@, f@, 2)) is Some && hex32_of(field(t@, f@, 0))->Some_0 < textures@.len()
            && hex32_of(field(t@, f@, 1))->Some_0 >= materials@.len() ==> r == Err::<Face, DecodeError>(
            DecodeError::Reference(line),
        ),
        r is Ok ==> {
            let face = r->Ok_0;
            &&& face_shape_ok(t@, f@)
            &&& hex32_of(field(t@, f@, 0)) is Some
            &&& hex32_of(field(t@, f@, 0))->Some_0 < textures@.len()
            &&& face.texture@ == textures@[hex32_of(field(t@, f@, 0))->Some_0 as int]@
            &&& hex32_of(field(t@, f@, 1)) is Some
            &&& hex32_of(field(t@, f@, 1))->Some_0 < materials@.len()
            &&& face.material@ == materials@[hex32_of(field(t@, f@, 1))->Some_0 as int]@
            &&& hex32_of(field(t@, f@, 2)) == Some(face.flags)
            &&& face.vertices@.len() == (f@.len() - 3) / 4
            &&& face.refs_ok(n_points as int, n_normals as int)
            &&& name_ok(face.texture@)
            &&& name_ok(face.material@)
            &&& forall|j: int|
                0 <= j < face.vertices@.len() ==> (#[trigger] face.vertices@[j]).uv.0.fits(lossless)
                    && face.vertices@[j].uv.1.fits(lossless)
        },
        r is Err ==> r == Err::<Face, DecodeError>(DecodeError::Format(line)) || r == Err::<Face, DecodeError>(
            DecodeError::Reference(line),
        ),
        (exists|a: nat, b: nat, c: Face|
            face_fits(
                a,
                b,
                c,
                lossless,
                n_points as int,
                n_normals as int,
                textures@.len() as int,
                materials@.len() as int,
            ) && #[trigger] face_payload(a, b, c) == t@.subrange(lo as int, hi as int)) ==> r is Ok
            && face_payload(
            hex32_of(field(t@, f@, 0))->Some_0 as nat,
            hex32_of(field(t@, f@, 1))->Some_0 as nat,
            r->Ok_0,
        ) == t@.subrange(lo as int, hi as int),
{
    let ghost sub = t@.subrange(lo as int, hi as int);
    let ghost canon = exists|a: nat, b: nat, c: Face|
        face_fits(
            a,
            b,
            c,
            lossless,
            n_points as int,
            n_normals as int,
            textures@.len() as int,
            materials@.len() as int,
        ) && #[trigger] face_payload(a, b, c) == sub;
    let ghost cc = choose|a: nat, b: nat, c: Face|
        face_fits(
            a,
            b,
            c,
            lossless,
            n_points as int,
            n_normals as int,
            textures@.len() as int,
            materials@.len() as int,
        ) && #[trigger] face_payload(a, b, c) == sub;
    let ghost cvs = cc.2.vertices@;
    let ghost toks = face_tokens(cc.0, cc.1, cc.2);
    proof {
        if canon {
            lemma_face_tokens(cc.0, cc.1, cc.2, lossless);
            lemma_split_joined(t@, lo as int, hi as int, f@, toks);
            assert(field(t@, f@, 0) == toks[0]);
            assert(field(t@, f@, 1) == toks[1]);
            assert(field(t@, f@, 2) == toks[2]);
            lemma_hex_round_trip(cc.0 as u32);
            lemma_hex_round_trip(cc.1 as u32);
            lemma_hex_round_trip(cc.2.flags);
            if cvs.len() == 0 {
                assert(field(t@, f@, 3) == toks[3]);
                assert(toks[3] == Seq::<u8>::empty());
            }
        }
    }
    let n = f.len();
    if n < 4 || (n > 4 && (n - 3) % 4 != 0) || (n == 4 && f[3].0 != f[3].1) {
        return Err(DecodeError::Format(line));
    }
    let ti = parse_hex_field(t, f[0].0, f[0].1, line)?;
    let mi = parse_hex_field(t, f[1].0, f[1].1, line)?;
    let flags = parse_hex_field(t, f[2].0, f[2].1, line)?;
    let texture = resolve_name(textures, ti, line)?;
    let material = resolve_name(materials, mi, line)?;
    let mut vertices: Vec<Vertex> = Vec::new();
    if n > 4 {
        let mut k: usize = 3;
        while k < n
            invariant
                n == f@.len(),
                n > 4,
                toks == face_tokens(cc.0, cc.1, cc.2),
                cvs == cc.2.vertices@,
                sub == t@.subrange(lo as int, hi as int),
                canon == (exists|a: nat, b: nat, c: Face|
                    face_fits(
                        a,
                        b,
                        c,
                        lossless,
                        n_points as int,
                        n_normals as int,
                        textures@.len() as int,
                        materials@.len() as int,
                    ) && #[trigger] face_payload(a, b, c) == sub),
                3 <= k <= n,
                (k - 3) % 4 == 0,
                (n - 3) % 4 == 0,
                vertices@.len() == (k - 3) / 4,
                face_shape_ok(t@, f@),
                f@ == spans(t@, lo as int, hi as int),
                face_outcome(
                    t@,
                    lo as int,
                    hi as int,
                    lossless,
                    line,
                    n_points as int,
                    n_normals as int,
                    textures@.len() as int,
                    materials@.len() as int,
                ) == verts_outcome(t@, f@, 3, lossless, line, n_points as int, n_normals as int),
                verts_outcome(t@, f@, 3, lossless, line, n_points as int, n_normals as int) == verts_outcome(
                    t@,
                    f@,
                    k as int,
                    lossless,
                    line,
                    n_points as int,
                    n_normals as int,
                ),
                forall|j: int|
                    0 <= j < vertices@.len() ==> {
                        let v = #[trigger] vertices@[j];
                        &&& hex32_of(field(t@, f@, 3 + 4 * j)) == Some(v.point_index)
                        &&& hex32_of(field(t@, f@, 4 + 4 * j)) == Some(v.normal_index)
                        &&& real_read(v.uv.0, field(t@, f@, 5 + 4 * j), lossless)
                        &&& real_read(v.uv.1, field(t@, f@, 6 + 4 * j), lossless)
                    },
                hex32_of(field(t@, f@, 0)) == Some(ti),
                hex32_of(field(t@, f@, 1)) == Some(mi),
                hex32_of(field(t@, f@, 2)) == Some(flags),
                ti < textures@.len(),
                mi < materials@.len(),
                comma_split(t@, lo as int, hi as int, f@),
                canon ==> n == 3 + 4 * cvs.len() && toks.len() == n,
                canon ==> forall|q: int| 0 <= q < n ==> #[trigger] field(t@, f@, q) == toks[q],
                canon ==> forall|j: int| 0 <= j < vertices@.len() ==> vertex_text(#[trigger] vertices@[j]) == vertex_text(cvs[j]),
                canon ==> cc.2.refs_ok(n_points as int, n_normals as int),
                canon ==> forall|j: int|
                    0 <= j < cvs.len() ==> (#[trigger] cvs[j]).uv.0.fits(lossless) && cvs[j].uv.1.fits(lossless),
                lo <= hi <= t@.len(),
                forall|j: int|
                    0 <= j < vertices@.len() ==> (#[trigger] vertices@[j]).point_index < n_points
                        && vertices@[j].normal_index < n_normals && vertices@[j].uv.0.fits(lossless)
                        && vertices@[j].uv.1.fits(lossless),
            decreases n - k,
        {
            proof {
                if canon {
                    let j = (k - 3) / 4;
                    let v = cvs[j];
                    assert(cvs.len() > 0);
                    let vt = vertex_tokens(cvs);
                    assert(toks == face_tokens(cc.0, cc.1, cc.2));
                    assert(toks =~= seq![hex_text(cc.0), hex_text(cc.1), hex_text(cc.2.flags as nat)] + vt);
                    assert(0 <= j < cvs.len());
                    assert forall|q: int| 0 <= q < 4 implies toks[k + q] == vertex_token(v, q) by {
                        assert(toks[k + q] == vt[k + q - 3]);
                        assert((k + q - 3) / 4 == j && (k + q - 3) % 4 == q);
                    }
                    assert(toks[k as int] == vertex_token(v, 0));
                    assert(toks[k + 1] == vertex_token(v, 1));
                    assert(toks[k + 2] == vertex_token(v, 2));
                    assert(toks[k + 3] == vertex_token(v, 3));
                    assert(field(t@, f@, k as int) == toks[k as int]);
                    assert(field(t@, f@, k + 1) == toks[k + 1]);
                    assert(field(t@, f@, k + 2) == toks[k + 2]);
                    assert(field(t@, f@, k + 3) == toks[k + 3]);
                    lemma_hex_round_trip(v.point_index);
                    lemma_hex_round_trip(v.normal_index);
                    lemma_real_token(v.uv.0, lossless);
                    lemma_real_token(v.uv.1, lossless);
                }
            }
            assert(k + 4 <= n);
            let pi = parse_hex_field(t, f[k].0, f[k].1, line)?;
            let ni = parse_hex_field(t, f[k + 1].0, f[k + 1].1, line)?;
            let u = parse_real(t, f[k + 2].0, f[k + 2].1, lossless, line)?;
            let v = parse_real(t, f[k + 3].0, f[k + 3].1, lossless, line)?;
            if pi as usize >= n_points || ni as usize >= n_normals {
                return Err(DecodeError::Reference(line));
            }
            let vx = Vertex { point_index: pi, normal_index: ni, uv: (u, v) };
            let ghost jn = vertices@.len() as int;
            assert(3 + 4 * jn == k);
            proof {
                if canon {
                    let cv = cvs[(k - 3) / 4];
                    assert(vertex_text(vx) =~= vertex_text(cv));
                }
            }
            let ghost vb = vertices@;
            vertices.push(vx);
            assert forall|j: int| 0 <= j < vertices@.len() implies {
                let w = #[trigger] vertices@[j];
                &&& hex32_of(field(t@, f@, 3 + 4 * j)) == Some(w.point_index)
                &&& hex32_of(field(t@, f@, 4 + 4 * j)) == Some(w.normal_index)
                &&& real_read(w.uv.0, field(t@, f@, 5 + 4 * j), lossless)
                &&& real_read(w.uv.1, field(t@, f@, 6 + 4 * j), lossless)
            } by {
                if j < jn {
                    assert(vertices@[j] == vb[j]);
                }
            }
            k = k + 4;
        }
    }
    let face = Face { vertices, flags, texture, material };
    proof {
        if canon {
            lemma_vertices_text_eq(face.vertices@, cvs);
            assert(face_payload(ti as nat, mi as nat, face) =~= sub);
        }
    }
    assert(name_ok(textures@[ti as int]@));
    assert(name_ok(materials@[mi as int]@));
    Ok(face)
}

/// The payload of a tag record the encoder writes.
pub open spec fn tag_payload(e: (Seq<u8>, Seq<u8>)) -> Seq<u8> {
    e.0 + seq![61u8] + bytes_text(e.1)
}

/// What a `TAGG:` payload reads as: `None` where it is malformed, `Some(None)`
/// for the terminator, else the name and the bytes.
pub open spec fn tag_read(t: Seq<u8>, lo: int, hi: int) -> Option<Option<(Seq<u8>, Seq<u8>)>> {
    let e = first_from(t, lo, hi, 61u8);
    if e >= hi {
        None
    } else if t.subrange(lo, e) == sentinel() {
        if e + 1 == hi {
            Some(None)
        } else {
            None
        }
    } else {
        match hex_bytes_of(t.subrange(e + 1, hi)) {
            Some(v) => Some(Some((t.subrange(lo, e), v))),
            None => None,
        }
    }
}

/// A `TAGG:` payload `name=hexbytes`: `None` for the terminator.
pub fn decode_tag(t: &Vec<u8>, lo: usize, hi: usize, line: usize) -> (r: Result<
    Option<(Vec<u8>, Vec<u8>)>,
    DecodeError,
>)
    requires
        lo <= hi <= t@.len(),
    ensures
        r is Ok && r->Ok_0 is Some ==> {
            let (k, v) = r->Ok_0->Some_0;
            &&& k@ != sentinel()
            &&& exists|e: int|
                lo <= e < hi && t@[e] == 61u8 && k@ == t@.subrange(lo as int, e) && hex_bytes_of(
                    t@.subrange(e + 1, hi as int),
                ) == Some(v@) && (forall|j: int| lo <= j < e ==> t@[j] != 61u8)
        },
        r is Ok && r->Ok_0 is None <==> t@.subrange(lo as int, hi as int) == sentinel() + seq![61u8],
        r is Err ==> r == Err::<Option<(Vec<u8>, Vec<u8>)>, DecodeError>(DecodeError::Format(line)),
        match tag_read(t@, lo as int, hi as int) {
            None => r == Err::<Option<(Vec<u8>, Vec<u8>)>, DecodeError>(DecodeError::Format(line)),
            Some(None) => r == Ok::<Option<(Vec<u8>, Vec<u8>)>, DecodeError>(None),
            Some(Some(kv)) => r is Ok && r->Ok_0 is Some && r->Ok_0->Some_0.0@ == kv.0 && r->Ok_0->Some_0.1@
                == kv.1,
        },
        (exists|e: (Seq<u8>, Seq<u8>)| tag_name_ok(e.0) && #[trigger] tag_payload(e) == t@.subrange(lo as int, hi as int))
            ==> r is Ok && r->Ok_0 is Some && tag_payload((r->Ok_0->Some_0.0@, r->Ok_0->Some_0.1@)) == t@.subrange(
            lo as int,
            hi as int,
        ) && tag_name_ok(r->Ok_0->Some_0.0@),
{
    let ghost s = t@.subrange(lo as int, hi as int);
    let ghost canon = exists|e: (Seq<u8>, Seq<u8>)| tag_name_ok(e.0) && #[trigger] tag_payload(e) == s;
    let ghost ce = if canon {
        choose|e: (Seq<u8>, Seq<u8>)| tag_name_ok(e.0) && #[trigger] tag_payload(e) == s
    } else {
        (Seq::<u8>::empty(), Seq::<u8>::empty())
    };
    proof {
        if canon {
            let n = ce.0.len() as int;
            assert(s[n] == 61u8);
            assert(t@[lo + n] == s[n]);
            assert(n < s.len());
        }
    }
    let e = find_byte(t, lo, hi, 61);
    proof {
        if canon {
            let n = ce.0.len() as int;
            if e < lo + n {
                assert(t@[e as int] == s[e - lo]);
                assert(s[e - lo] == ce.0[e - lo]);
            }
            assert(e == lo + n);
        }
    }
    if e == hi {
        proof {
            if s == sentinel() + seq![61u8] {
                assert(s[s.len() - 1] == 61u8);
                assert(t@[hi - 1] == 61u8);
            }
        }
        return Err(DecodeError::Format(line));
    }
    let name = copy_range(t, lo, e);
    proof {
        if canon {
            let n = ce.0.len() as int;
            assert(s == ce.0 + seq![61u8] + bytes_text(ce.1));
            assert(s.subrange(0, n) =~= ce.0);
            assert(t@.subrange(lo as int, e as int) =~= s.subrange(0, n));
            assert(name@ == ce.0);
            assert(s.subrange(n + 1, s.len() as int) =~= bytes_text(ce.1));
            assert(t@.subrange(e + 1, hi as int) =~= s.subrange(n + 1, s.len() as int));
        }
    }
    if is_sentinel(&name) {
        if e + 1 == hi {
            assert(s =~= sentinel() + seq![61u8]);
            return Ok(None);
        }
        proof {
            if s == sentinel() + seq![61u8] {
                assert(s.len() == 12);
            }
        }
        return Err(DecodeError::Format(line));
    }
    proof {
        if s == sentinel() + seq![61u8] {
            assert(sentinel().len() == 11);
            assert(s.len() == 12);
            assert(hi - lo == 12);
            assert forall|j: int| 0 <= j < 11 implies #[trigger] s[j] != 61u8 by {
                assert(s[j] == sentinel()[j]);
            }
            assert(s[11] == 61u8);
            assert(t@[lo + 11] == s[11]);
            if e < lo + 11 {
                assert(t@[e as int] == s[e - lo]);
            }
            assert(e == lo + 11);
            assert(name@ =~= sentinel());
        }
    }
    proof {
        if canon {
            lemma_tag_bytes_round_trip(ce.1);
        }
    }
    match decode_hex_bytes(t, e + 1, hi) {
        Some(v) => {
            proof {
                if canon {
                    assert(v@ == ce.1);
                    assert(tag_payload((name@, v@)) == s);
                }
            }
            Ok(Some((name, v)))
        },
        None => Err(DecodeError::Format(line)),
    }
}

/// What the decoder keeps of a LOD: the numbers of points, normals and
/// faces, and the tags in order.
pub type LodSummary = (int, int, int, Seq<(Seq<u8>, Seq<u8>)>);

pub open spec fn lod_summary(l: Lod) -> LodSummary {
    (l.points@.len() as int, l.face_normals@.len() as int, l.faces@.len() as int, l.taggs.entries())
}

/// Reading a LOD's records from `pos`, given how many points, normals,
/// textures, materials and faces came before and the tags so far: the
/// first error, or the offset past the terminator and what was read.
pub open spec fn lod_scan(
    t: Seq<u8>,
    pos: int,
    lossless: bool,
    np: int,
    nn: int,
    nt: int,
    nm: int,
    nf: int,
    tags: Seq<(Seq<u8>, Seq<u8>)>,
) -> Result<(int, LodSummary), DecodeError>
    decreases t.len() - pos,
{
    let line = pos as usize;
    let e = first_from(t, pos, t.len() as int, 10u8);
    if pos < 0 || e < pos || e >= t.len() {
        Err(DecodeError::Format(line))
    } else {
        let colon = first_from(t, pos, e, 58u8);
        let body = colon + 1;
        if colon >= e {
            Err(DecodeError::Format(line))
        } else {
            match kind_of(t.subrange(pos, colon)) {
                None => Err(DecodeError::UnknownRecordType(line)),
                Some(RecordKind::Point) => if point_ok(t, body, e, lossless) {
                    lod_scan(t, e + 1, lossless, np + 1, nn, nt, nm, nf, tags)
                } else {
                    Err(DecodeError::Format(line))
                },
                Some(RecordKind::Normal) => if normal_ok(t, body, e, lossless) {
                    lod_scan(t, e + 1, lossless, np, nn + 1, nt, nm, nf, tags)
                } else {
                    Err(DecodeError::Format(line))
                },
                Some(RecordKind::Texture) => lod_scan(t, e + 1, lossless, np, nn, nt + 1, nm, nf, tags),
                Some(RecordKind::Material) => lod_scan(t, e + 1, lossless, np, nn, nt, nm + 1, nf, tags),
                Some(RecordKind::Face) => match face_outcome(t, body, e, lossless, line, np, nn, nt, nm) {
                    Some(x) => Err(x),
                    None => lod_scan(t, e + 1, lossless, np, nn, nt, nm, nf + 1, tags),
                },
                Some(RecordKind::Tag) => match tag_read(t, body, e) {
                    None => Err(DecodeError::Format(line)),
                    Some(None) => Ok((e + 1, (np, nn, nf, tags))),
                    Some(Some(kv)) => if !tag_name_ok(kv.0) || (exists|i: int|
                        0 <= i < tags.len() && (#[trigger] tags[i]).0 == kv.0) {
                        Err(DecodeError::Format(line))
                    } else {
                        lod_scan(t, e + 1, lossless, np, nn, nt, nm, nf, tags.push(kv))
                    },
                },
            }
        }
    }
}

/// Reads the records of one LOD from `from`, up to and including its
/// terminator. Returns the LOD and the offset just past the terminator.
/// Where the text at `from` is the body of `target`, as the encoder writes
/// it, the LOD read back writes the same body.
#[verifier::rlimit(100)]
#[verifier::spinoff_prover]
fn decode_lod(
    t: &Vec<u8>,
    from: usize,
    version_major: u32,
    version_minor: u32,
    resolution: Real,
    target: Ghost<Lod>,
) -> (r: Result<(Lod, usize), DecodeError>)
    requires
        from <= t@.len(),
        resolution.fits(resolution.is_bits()),
    ensures
        r is Ok ==> r->Ok_0.0.wf(),
        r is Ok ==> from < r->Ok_0.1 <= t@.len(),
        r is Ok ==> r->Ok_0.0.version_major == version_major && r->Ok_0.0.version_minor == version_minor,
        r is Ok ==> r->Ok_0.0.resolution == resolution,
        lod_canon(t@, from as int, target@, resolution.is_bits()) ==> r is Ok && lod_body(r->Ok_0.0) == lod_body(
            target@,
        ) && r->Ok_0.1 == from + lod_body(target@).len(),
        match lod_scan(t@, from as int, resolution.is_bits(), 0, 0, 0, 0, 0, Seq::empty()) {
            Err(x) => r == Err::<(Lod, usize), DecodeError>(x),
            Ok((end, sm)) => r is Ok && r->Ok_0.1 == end && lod_summary(r->Ok_0.0) == sm,
        },
{
    let lossless = match resolution {
        Real::Bits(_) => true,
        Real::Decimal(_) => false,
    };
    let len = t.len();
    let mut pos = from;
    let mut points: Vec<Point> = Vec::new();
    let mut normals: Vec<(Real, Real, Real)> = Vec::new();
    let mut textures: Vec<Vec<u8>> = Vec::new();
    let mut materials: Vec<Vec<u8>> = Vec::new();
    let mut faces: Vec<Face> = Vec::new();
    let mut taggs = TagStore::new();
    let ghost l = target@;
    let ghost canon = lod_canon(t@, from as int, l, lossless);
    let ghost mut st: Stage = (0, 0, 0, 0, 0);
    proof {
        if canon {
            lemma_progress_start(t@, from as int, l);
            assert(names_view(textures@) =~= Seq::<Seq<u8>>::empty());
            assert(tex_table(l, 0) =~= Seq::<Seq<u8>>::empty()) by {
                assert(textures_of(l.faces@.subrange(0, 0)).len() == 0);
            }
            assert(names_view(materials@) =~= Seq::<Seq<u8>>::empty());
            assert(mat_table(l, 0) =~= Seq::<Seq<u8>>::empty()) by {
                assert(materials_of(l.faces@.subrange(0, 0)).len() == 0);
            }
            assert(points@ =~= Seq::<Point>::empty());
            assert(normals@ =~= Seq::<(Real, Real, Real)>::empty());
            assert(faces@ =~= Seq::<Face>::empty());
            assert(taggs.entries() =~= Seq::<(Seq<u8>, Seq<u8>)>::empty());
        }
    }
    loop
        invariant
            from <= pos <= len == t@.len(),
            lossless == resolution.is_bits(),
            resolution.fits(lossless),
            forall|i: int| 0 <= i < points@.len() ==> triple_fits((#[trigger] points@[i]).coords, lossless),
            forall|i: int| 0 <= i < normals@.len() ==> triple_fits(#[trigger] normals@[i], lossless),
            names_ok(textures@),
            names_ok(materials@),
            forall|i: int|
                0 <= i < faces@.len() ==> {
                    let f = #[trigger] faces@[i];
                    &&& f.refs_ok(points@.len() as int, normals@.len() as int)
                    &&& name_ok(f.texture@)
                    &&& name_ok(f.material@)
                    &&& forall|j: int|
                        0 <= j < f.vertices@.len() ==> (#[trigger] f.vertices@[j]).uv.0.fits(lossless)
                            && f.vertices@[j].uv.1.fits(lossless)
                },
            taggs.wf(),
            l == target@,
            lod_scan(t@, from as int, lossless, 0, 0, 0, 0, 0, Seq::empty()) == lod_scan(
                t@,
                pos as int,
                lossless,
                points@.len() as int,
                normals@.len() as int,
                textures@.len() as int,
                materials@.len() as int,
                faces@.len() as int,
                taggs.entries(),
            ),
            canon == lod_canon(t@, from as int, l, lossless),
            canon ==> l.lossless() == lossless,
            canon ==> lod_progress(
                t@,
                from as int,
                pos as int,
                l,
                st,
                points@,
                normals@,
                faces@,
                names_view(textures@),
                names_view(materials@),
                taggs.entries(),
            ),
        decreases len - pos,
    {
        let line = pos;
        let ghost k = next_kind(l, st);
        let ghost pl = next_payload(l, st);
        let ghost kl = kind_bytes(k).len() as int;
        let ghost (ps0, ns0, fs0, tx0, mx0, es0) = (
            points@,
            normals@,
            faces@,
            names_view(textures@),
            names_view(materials@),
            taggs.entries(),
        );
        proof {
            if canon {
                lemma_progress_line(t@, from as int, pos as int, l, st, ps0, ns0, fs0, tx0, mx0, es0);
            }
        }
        let e = find_byte(t, pos, len, 10);
        proof {
            if canon {
                lemma_first_at(t@, pos as int, len as int, e as int, 10u8, pos + kl + 1 + pl.len());
            }
        }
        if e == len {
            return Err(DecodeError::Format(line));
        }
        let colon = find_byte(t, pos, e, 58);
        proof {
            if canon {
                lemma_first_at(t@, pos as int, e as int, colon as int, 58u8, pos + kl);
            }
        }
        if colon == e {
            return Err(DecodeError::Format(line));
        }
        let kind = record_kind(t, pos, colon);
        let body = colon + 1;
        proof {
            if canon {
                assert(t@.subrange(pos as int, colon as int) == kind_bytes(k));
                assert(t@.subrange(body as int, e as int) == pl);
            }
        }
        match kind {
            None => {
                return Err(DecodeError::UnknownRecordType(line));
            },
            Some(RecordKind::Point) => {
                proof {
                    if canon {
                        assert(k == 0);
                    }
                }
                let p = decode_point(t, body, e, lossless, line)?;
                points.push(p);
                assert forall|i: int| 0 <= i < faces@.len() implies (#[trigger] faces@[i]).refs_ok(
                    points@.len() as int,
                    normals@.len() as int,
                ) by {
                    assert(faces@[i].refs_ok(points@.len() - 1, normals@.len() as int));
                }
                proof {
                    if canon {
                        assert(points@.drop_last() =~= ps0);
                        lemma_progress_advance(t@, from as int, pos as int, l, st, ps0, ns0, fs0, tx0, mx0, es0,
                            points@, ns0, fs0, tx0, mx0, es0);
                        st = next_stage(l, st);
                    }
                }
            },
            Some(RecordKind::Normal) => {
                proof {
                    if canon {
                        assert(k == 1);
                    }
                }
                let n = decode_normal(t, body, e, lossless, line)?;
                normals.push(n);
                assert forall|i: int| 0 <= i < faces@.len() implies (#[trigger] faces@[i]).refs_ok(
                    points@.len() as int,
                    normals@.len() as int,
                ) by {
                    assert(faces@[i].refs_ok(points@.len() as int, normals@.len() - 1));
                }
                proof {
                    if canon {
                        assert(normals@.drop_last() =~= ns0);
                        lemma_progress_advance(t@, from as int, pos as int, l, st, ps0, ns0, fs0, tx0, mx0, es0,
                            ps0, normals@, fs0, tx0, mx0, es0);
                        st = next_stage(l, st);
                    }
                }
            },
            Some(RecordKind::Texture) => {
                let name = copy_range(t, body, e);
                textures.push(name);
                proof {
                    if canon {
                        assert(k == 2);
                        assert(names_view(textures@) =~= tx0.push(name@));
                        lemma_progress_advance(t@, from as int, pos as int, l, st, ps0, ns0, fs0, tx0, mx0, es0,
                            ps0, ns0, fs0, names_view(textures@), mx0, es0);
                        st = next_stage(l, st);
                    }
                }
            },
            Some(RecordKind::Material) => {
                let name = copy_range(t, body, e);
                materials.push(name);
                proof {
                    if canon {
                        assert(k == 3);
                        assert(names_view(materials@) =~= mx0.push(name@));
                        lemma_progress_advance(t@, from as int, pos as int, l, st, ps0, ns0, fs0, tx0, mx0, es0,
                            ps0, ns0, fs0, tx0, names_view(materials@), es0);
                        st = next_stage(l, st);
                    }
                }
            },
            Some(RecordKind::Face) => {
                let fields = split_commas(t, body, e);
                let ghost fi = st.2;
                let ghost f0 = l.faces@[fi];
                let ghost ids = face_ids(l, fi);
                proof {
                    if canon {
                        assert(k == 4);
                        assert(crate::decode::face_fits(
                            ids.0,
                            ids.1,
                            f0,
                            lossless,
                            points@.len() as int,
                            normals@.len() as int,
                            textures@.len() as int,
                            materials@.len() as int,
                        ));
                        assert(face_payload(ids.0, ids.1, f0) == t@.subrange(body as int, e as int));
                    }
                }
                let f = decode_face(
                    t,
                    body,
                    e,
                    &fields,
                    lossless,
                    line,
                    points.len(),
                    normals.len(),
                    &textures,
                    &materials,
                )?;
                proof {
                    if canon {
                        let ti = hex32_of(field(t@, fields@, 0))->Some_0 as nat;
                        let mi = hex32_of(field(t@, fields@, 1))->Some_0 as nat;
                        lemma_face_payload_inj(ti, mi, f, ids.0, ids.1, f0);
                        assert(tx0[ti as int] == textures@[ti as int]@);
                        assert(mx0[mi as int] == materials@[mi as int]@);
                        assert(face_same(f, f0));
                    }
                }
                faces.push(f);
                proof {
                    if canon {
                        assert(faces@.drop_last() =~= fs0);
                        lemma_progress_advance(t@, from as int, pos as int, l, st, ps0, ns0, fs0, tx0, mx0, es0,
                            ps0, ns0, faces@, tx0, mx0, es0);
                        st = next_stage(l, st);
                    }
                }
            },
            Some(RecordKind::Tag) => {
                proof {
                    if canon {
                        assert(k == 5 || k == 6);
                    }
                }
                match decode_tag(t, body, e, line)? {
                    None => {
                        let lod = Lod {
                            version_major,
                            version_minor,
                            resolution,
                            points,
                            face_normals: normals,
                            faces,
                            taggs,
                        };
                        proof {
                            if canon {
                                assert(k == 6);
                                lemma_progress_end(t@, from as int, pos as int, l, st, ps0, ns0, fs0, tx0, mx0, es0);
                                assert(lod_body(lod) == lod_body(l));
                            }
                        }
                        assert(lod.lossless() == lossless);
                        assert(lod.refs_ok());
                        assert(lod.wf());
                        return Ok((lod, e + 1));
                    },
                    Some((kk, vv)) => {
                        proof {
                            if canon {
                                assert(k == 5);
                                lemma_tag_payload_inj((kk@, vv@), l.taggs.entries()[st.4]);
                                assert(!taggs.has_key(kk@));
                            }
                        }
                        if taggs.put(kk, vv).is_err() {
                            return Err(DecodeError::Format(line));
                        }
                        proof {
                            if canon {
                                lemma_progress_advance(t@, from as int, pos as int, l, st, ps0, ns0, fs0, tx0, mx0, es0,
                                    ps0, ns0, fs0, tx0, mx0, taggs.entries());
                                st = next_stage(l, st);
                            }
                        }
                    },
                }
            },
        }
        pos = e + 1;
    }
}

/// Whether `t[lo..hi]` is a bracketed resolution record.
fn is_bracket(t: &Vec<u8>, lo: usize, hi: usize) -> (r: bool)
    requires
        lo <= hi <= t@.len(),
    ensures
        r == (hi - lo >= 2 && t@[lo as int] == 91u8 && t@[hi - 1] == 93u8),
{
    hi - lo >= 2 && t[lo] == 91 && t[hi - 1] == 93
}

/// Reading one LOD at `pos`: `None` where no bracketed resolution record
/// opens the line there; else the first error in its bracket line, version
/// line or records, or the offset past its terminator and what was read.
pub open spec fn lod_step(t: Seq<u8>, pos: int) -> Result<Option<(int, LodSummary)>, DecodeError> {
    let len = t.len() as int;
    let e = first_from(t, pos, len, 10u8);
    if pos < 0 || e < pos || e >= len || !(e - pos >= 2 && t[pos] == 91u8 && t[e - 1] == 93u8) {
        Ok(None)
    } else {
        let lo = pos + 1;
        let hi = e - 1;
        let lossless = hi - lo > 2 && t[lo] == 48u8 && t[lo + 1] == 120u8;
        let res = if lossless {
            t.subrange(lo + 2, hi)
        } else {
            t.subrange(lo, hi)
        };
        let vpos = e + 1;
        let ve = first_from(t, vpos, len, 10u8);
        let dot = first_from(t, vpos + 1, ve, 46u8);
        if !real_ok(res, lossless) {
            Err(DecodeError::Format(pos as usize))
        } else if ve >= len || ve == vpos || t[vpos] != 118u8 || dot >= ve {
            Err(DecodeError::Format(vpos as usize))
        } else if hex32_of(t.subrange(vpos + 1, dot)) is None || hex32_of(t.subrange(dot + 1, ve)) is None {
            Err(DecodeError::Format(vpos as usize))
        } else {
            match lod_scan(t, ve + 1, lossless, 0, 0, 0, 0, 0, Seq::empty()) {
                Err(x) => Err(x),
                Ok((next, sm)) => Ok(Some((next, sm))),
            }
        }
    }
}

/// Reading LODs from `pos` until no bracketed resolution record opens a line.
/// (A LOD always ends past where it starts, so the guard on `next` is never met.)
pub open spec fn lods_scan(t: Seq<u8>, pos: int) -> Result<Seq<LodSummary>, DecodeError>
    decreases t.len() - pos,
{
    match lod_step(t, pos) {
        Err(x) => Err(x),
        Ok(None) => Ok(Seq::empty()),
        Ok(Some((next, sm))) => if next <= pos || next > t.len() {
            Err(DecodeError::Format(pos as usize))
        } else {
            match lods_scan(t, next) {
                Err(x) => Err(x),
                Ok(rest) => Ok(seq![sm] + rest),
            }
        },
    }
}

/// Reading a whole document: the `v` header line with its hexadecimal
/// version, then the LODs.
pub open spec fn doc_scan(t: Seq<u8>) -> Result<(u32, Seq<LodSummary>), DecodeError> {
    let e = first_from(t, 0, t.len() as int, 10u8);
    if e >= t.len() || e == 0 || t[0] != 118u8 {
        Err(DecodeError::Format(0))
    } else {
        match hex32_of(t.subrange(1, e)) {
            None => Err(DecodeError::Format(0)),
            Some(v) => match lods_scan(t, e + 1) {
                Err(x) => Err(x),
                Ok(ls) => Ok((v, ls)),
            },
        }
    }
}

pub open spec fn prepend(pre: Seq<LodSummary>, r: Result<Seq<LodSummary>, DecodeError>) -> Result<
    Seq<LodSummary>,
    DecodeError,
> {
    match r {
        Err(x) => Err(x),
        Ok(s) => Ok(pre + s),
    }
}

pub open spec fn summaries(ls: Seq<Lod>) -> Seq<LodSummary> {
    ls.map_values(|l: Lod| lod_summary(l))
}

/// Decodes a whole document: the `v` header, then LODs for as long as a
/// line opens with a bracketed resolution record. Each LOD takes its float
/// mode from its own resolution: lossless exactly when it opens with `0x`.
/// Text that the encoder wrote decodes, and writes back to itself.
#[verifier::rlimit(100)]
#[verifier::spinoff_prover]
pub fn decode_document(t: &Vec<u8>) -> (r: Result<Document, DecodeError>)
    ensures
        r is Ok ==> r->Ok_0.wf(),
        !(t@.len() > 0 && t@[0] == 118u8) ==> r == Err::<Document, DecodeError>(DecodeError::Format(0)),
        (exists|d: Document| doc_canon(d) && #[trigger] doc_text(d) == t@) ==> r is Ok && doc_text(r->Ok_0) == t@,
        match doc_scan(t@) {
            Err(x) => r == Err::<Document, DecodeError>(x),
            Ok((v, ls)) => r is Ok && r->Ok_0.version == v && summaries(r->Ok_0.lods@) == ls,
        },
{
    let ghost canon = exists|d: Document| doc_canon(d) && #[trigger] doc_text(d) == t@;
    let ghost d0 = choose|d: Document| doc_canon(d) && #[trigger] doc_text(d) == t@;
    let ghost ls = d0.lods@;
    let ghost hdr = seq![118u8] + hex_text(d0.version as nat) + seq![10u8];
    let len = t.len();
    proof {
        if canon {
            lemma_hex_round_trip(d0.version);
            lemma_hex_text_value(d0.version as nat);
            assert(t@ == hdr + lods_text(ls));
            let n = hex_text(d0.version as nat).len() as int;
            assert(t@[0] == 118u8);
            assert(t@[n + 1] == 10u8);
            assert forall|j: int| 0 <= j < n + 1 implies t@[j] != 10u8 by {
                if j > 0 {
                    assert(t@[j] == hex_text(d0.version as nat)[j - 1]);
                    assert(is_hex_digit(hex_text(d0.version as nat)[j - 1]));
                }
            }
            assert(t@.subrange(1, n + 1) =~= hex_text(d0.version as nat));
        }
    }
    let e = find_byte(t, 0, len, 10);
    proof {
        if canon {
            lemma_first_at(t@, 0, len as int, e as int, 10u8, hex_text(d0.version as nat).len() as int + 1);
        }
    }
    if e == len || e == 0 || t[0] != 118 {
        return Err(DecodeError::Format(0));
    }
    let version = parse_hex_field(t, 1, e, 0)?;
    let mut lods: Vec<Lod> = Vec::new();
    let mut pos: usize = e + 1;
    let ghost start = pos as int;
    assert(prepend(summaries(lods@), lods_scan(t@, start)) =~= lods_scan(t@, start)) by {
        assert(summaries(lods@) =~= Seq::<LodSummary>::empty());
        if lods_scan(t@, start) is Ok {
            assert(Seq::<LodSummary>::empty() + lods_scan(t@, start)->Ok_0 =~= lods_scan(t@, start)->Ok_0);
        }
    }
    proof {
        if canon {
            assert(t@.subrange(0, pos as int) =~= hdr);
            assert(ls.subrange(0, 0).len() == 0);
            assert(hdr + lods_text(ls.subrange(0, 0)) =~= hdr);
        }
    }
    loop
        invariant
            pos <= len == t@.len(),
            t@.len() > 0 && t@[0] == 118u8,
            forall|i: int| 0 <= i < lods@.len() ==> (#[trigger] lods@[i]).wf(),
            start <= pos,
            doc_scan(t@) == match lods_scan(t@, start) {
                Err(x) => Err(x),
                Ok(ls) => Ok((version, ls)),
            },
            lods_scan(t@, start) == prepend(summaries(lods@), lods_scan(t@, pos as int)),
            canon == (exists|d: Document| doc_canon(d) && #[trigger] doc_text(d) == t@),
            canon ==> doc_canon(d0) && doc_text(d0) == t@,
            ls == d0.lods@,
            hdr == seq![118u8] + hex_text(d0.version as nat) + seq![10u8],
            canon ==> version == d0.version,
            canon ==> lods@.len() <= ls.len(),
            canon ==> t@.subrange(0, pos as int) == hdr + lods_text(ls.subrange(0, lods@.len() as int)),
            canon ==> forall|k: int| 0 <= k < lods@.len() ==> lod_text(#[trigger] lods@[k]) == lod_text(ls[k]),
        decreases len - pos,
    {
        let ghost i = lods@.len() as int;
        // Past the last LOD of `d0` nothing is asked of the target.
        let ghost l = ls[i];
        proof {
            if canon && i == ls.len() {
                assert(ls.subrange(0, i) =~= ls);
                assert(t@.subrange(0, pos as int) == t@);
            }
            if canon && i < ls.len() {
                lemma_lod_at(t@, pos as int, hdr, ls, i);
                assert(l.wf());
                assert(l.faces@.len() <= u32::MAX);
            }
        }
        match decode_lod_at(t, pos, Ghost(l))? {
            None => {
                let doc = Document { version, lods };
                assert(summaries(doc.lods@) + Seq::<LodSummary>::empty() =~= summaries(doc.lods@));
                proof {
                    if canon {
                        assert(i == ls.len());
                        assert(ls.subrange(0, i) =~= ls);
                        lemma_lods_text_eq(doc.lods@, ls);
                        assert(doc_text(doc) == t@);
                    }
                }
                return Ok(doc);
            },
            Some((lod, next)) => {
                let ghost prev = lods@;
                lods.push(lod);
                proof {
                    assert(summaries(lods@) =~= summaries(prev).push(lod_summary(lod)));
                    let rn = lods_scan(t@, next as int);
                    if rn is Ok {
                        assert(summaries(prev) + (seq![lod_summary(lod)] + rn->Ok_0) =~= summaries(lods@)
                            + rn->Ok_0);
                    }
                }
                proof {
                    if canon {
                        assert(i < ls.len());
                        lemma_lods_prefix(ls, i);
                        assert(t@.subrange(0, next as int) =~= t@.subrange(0, pos as int) + t@.subrange(
                            pos as int,
                            next as int,
                        ));
                        assert forall|k: int| 0 <= k < lods@.len() implies lod_text(#[trigger] lods@[k]) == lod_text(
                            ls[k],
                        ) by {
                            if k < i {
                                assert(lods@[k] == prev[k]);
                            }
                        }
                    }
                }
                pos = next;
            },
        }
    }
}

/// The text of a LOD at `pos`, as the encoder writes it.
pub open spec fn lod_at(t: Seq<u8>, pos: int, l: Lod) -> bool {
    &&& l.wf()
    &&& l.faces@.len() <= u32::MAX
    &&& 0 <= pos
    &&& pos + lod_text(l).len() <= t.len()
    &&& t.subrange(pos, pos + lod_text(l).len()) == lod_text(l)
}

/// Reads a LOD from `pos` if a bracketed resolution record opens the line
/// there; `None` where none does.
#[verifier::rlimit(100)]
#[verifier::spinoff_prover]
fn decode_lod_at(t: &Vec<u8>, pos: usize, target: Ghost<Lod>) -> (r: Result<Option<(Lod, usize)>, DecodeError>)
    requires
        pos <= t@.len(),
    ensures
        r is Ok && r->Ok_0 is Some ==> r->Ok_0->Some_0.0.wf() && pos < r->Ok_0->Some_0.1 <= t@.len(),
        pos == t@.len() ==> r == Ok::<Option<(Lod, usize)>, DecodeError>(None),
        lod_at(t@, pos as int, target@) ==> r is Ok && r->Ok_0 is Some && lod_text(r->Ok_0->Some_0.0) == lod_text(
            target@,
        ) && r->Ok_0->Some_0.1 == pos + lod_text(target@).len(),
        match lod_step(t@, pos as int) {
            Err(x) => r == Err::<Option<(Lod, usize)>, DecodeError>(x),
            Ok(None) => r == Ok::<Option<(Lod, usize)>, DecodeError>(None),
            Ok(Some((next, sm))) => r is Ok && r->Ok_0 is Some && r->Ok_0->Some_0.1 == next && lod_summary(
                r->Ok_0->Some_0.0,
            ) == sm,
        },
{
    let len = t.len();
    let ghost l = target@;
    let ghost canon = lod_at(t@, pos as int, l);
    let e = find_byte(t, pos, len, 10);
    proof {
        if canon {
            lemma_lod_text_shape(l);
            lemma_bracket_at(t@, pos as int, l);
            lemma_first_at(t@, pos as int, len as int, e as int, 10u8, pos + bracket_text(l).len());
        }
    }
    if e == len || !is_bracket(t, pos, e) {
        return Ok(None);
    }
    let lo = pos + 1;
    let hi = e - 1;
    let lossless = hi - lo > 2 && t[lo] == 48 && t[lo + 1] == 120;
    proof {
        if canon {
            if l.resolution.is_bits() {
                lemma_hex_round_trip(l.resolution->Bits_0);
            } else {
                assert(decimal_ok(real_text(l.resolution)));
            }
            assert(lossless == l.resolution.is_bits());
        }
    }
    let resolution = if lossless {
        parse_real(t, lo + 2, hi, true, pos)?
    } else {
        parse_real(t, lo, hi, false, pos)?
    };
    let vpos = e + 1;
    proof {
        if canon {
            assert(real_text(resolution) == real_text(l.resolution));
            lemma_version_at(t@, pos as int, l);
        }
    }
    let ve = find_byte(t, vpos, len, 10);
    proof {
        if canon {
            lemma_first_at(t@, vpos as int, len as int, ve as int, 10u8, vpos + version_text(l).len());
        }
    }
    if ve == len || ve == vpos || t[vpos] != 118 {
        return Err(DecodeError::Format(vpos));
    }
    let dot = find_byte(t, vpos + 1, ve, 46);
    proof {
        if canon {
            lemma_first_at(t@, vpos + 1, ve as int, dot as int, 46u8, vpos + 1 + hex_text(l.version_major as nat).len());
            lemma_hex_round_trip(l.version_major);
            lemma_hex_round_trip(l.version_minor);
        }
    }
    if dot == ve {
        return Err(DecodeError::Format(vpos));
    }
    let major = parse_hex_field(t, vpos + 1, dot, vpos)?;
    let minor = parse_hex_field(t, dot + 1, ve, vpos)?;
    proof {
        if canon {
            assert(major == l.version_major);
            assert(minor == l.version_minor);
            assert(lod_canon(t@, ve + 1, l, resolution.is_bits()));
        }
    }
    let (lod, next) = decode_lod(t, ve + 1, major, minor, resolution, Ghost(l))?;
    proof {
        if canon {
            assert(lod_header(lod) =~= lod_header(l));
            assert(lod_text(lod) == lod_header(lod) + lod_body(lod));
            assert(lod_text(l) == lod_header(l) + lod_body(l));
        }
    }
    Ok(Some((lod, next)))
}

/// The text of LOD `i` stands at `pos`.
proof fn lemma_lod_at(t: Seq<u8>, pos: int, hdr: Seq<u8>, ls: Seq<Lod>, i: int)
    requires
        0 <= i < ls.len(),
        0 <= pos <= t.len(),
        t == hdr + lods_text(ls),
        t.subrange(0, pos) == hdr + lods_text(ls.subrange(0, i)),
    ensures
        pos + lod_text(ls[i]).len() <= t.len(),
        t.subrange(pos, pos + lod_text(ls[i]).len()) == lod_text(ls[i]),
{
    lemma_lods_prefix(ls, i);
    lemma_prefix_extend(hdr, lods_text(ls.subrange(0, i)) + lod_text(ls[i]), lods_text(ls));
    assert(hdr + (lods_text(ls.subrange(0, i)) + lod_text(ls[i])) =~= t.subrange(0, pos) + lod_text(ls[i]));
    assert(t.subrange(0, t.len() as int) =~= t);
    lemma_prefix_concat(t, Seq::empty());
    assert(t + Seq::<u8>::empty() =~= t);
    lemma_line_at(t, 0, pos, t.subrange(0, pos), lod_text(ls[i]), t);
}

/// Bytes of a text known at `pos`.
proof fn lemma_sub_of(t: Seq<u8>, pos: int, whole: Seq<u8>, a: int, b: int)
    requires
        0 <= pos,
        pos + whole.len() <= t.len(),
        t.subrange(pos, pos + whole.len()) == whole,
        0 <= a <= b <= whole.len(),
    ensures
        t.subrange(pos + a, pos + b) == whole.subrange(a, b),
        forall|j: int| a <= j < b ==> #[trigger] t[pos + j] == whole[j],
{
    assert forall|j: int| a <= j < b implies #[trigger] t[pos + j] == whole[j] by {
        assert(t.subrange(pos, pos + whole.len())[j] == t[pos + j]);
    }
    assert(t.subrange(pos + a, pos + b) =~= whole.subrange(a, b));
}

/// The bracket line of a LOD at `pos`: where it ends, and what the
/// decoder finds inside it.
#[verifier::rlimit(80)]
#[verifier::spinoff_prover]
proof fn lemma_bracket_at(t: Seq<u8>, pos: int, l: Lod)
    requires
        0 <= pos,
        pos + lod_text(l).len() <= t.len(),
        t.subrange(pos, pos + lod_text(l).len()) == lod_text(l),
        lod_text(l) == bracket_text(l) + seq![10u8] + version_text(l) + seq![10u8] + lod_body(l),
        no_nl(bracket_text(l)),
        l.resolution.fits(l.lossless()),
    ensures
        ({
            let e = pos + bracket_text(l).len();
            &&& e < t.len()
            &&& e >= pos + 2
            &&& forall|j: int| pos <= j < e ==> t[j] != 10u8
            &&& t[e] == 10u8
            &&& t[pos] == 91u8
            &&& t[e - 1] == 93u8
            &&& l.resolution.is_bits() ==> e - 1 - (pos + 1) > 2 && t[pos + 1] == 48u8 && t[pos + 2] == 120u8
                && t.subrange(pos + 3, e - 1) == real_text(l.resolution)
            &&& !l.resolution.is_bits() ==> t.subrange(pos + 1, e - 1) == real_text(l.resolution) && !(e - 1 - (
                pos + 1) > 2 && t[pos + 1] == 48u8 && t[pos + 2] == 120u8)
        }),
{
    let lt = lod_text(l);
    let b = bracket_text(l);
    let r = real_text(l.resolution);
    let n = b.len() as int;
    lemma_sub_of(t, pos, lt, 0, n + 1);
    assert forall|j: int| 0 <= j < n implies lt[j] == b[j] by {}
    assert forall|j: int| pos <= j < pos + n implies t[j] != 10u8 by {
        assert(t[pos + (j - pos)] == lt[j - pos]);
    }
    assert(t[pos + n] == lt[n]);
    assert(t[pos + 0] == lt[0]);
    assert(t[pos + (n - 1)] == lt[n - 1]);
    if l.resolution.is_bits() {
        lemma_hex_text_value(l.resolution->Bits_0 as nat);
        assert(b =~= seq![91u8, 48u8, 120u8] + r + seq![93u8]);
        assert(t[pos + 1] == lt[1]);
        assert(t[pos + 2] == lt[2]);
        assert(t.subrange(pos + 3, pos + n - 1) == lt.subrange(3, n - 1));
        assert(lt.subrange(3, n - 1) =~= r);
    } else {
        assert(decimal_ok(r));
        assert(b =~= seq![91u8] + r + seq![93u8]);
        assert(t.subrange(pos + 1, pos + n - 1) == lt.subrange(1, n - 1));
        assert(lt.subrange(1, n - 1) =~= r);
        if n - 2 > 2 {
            assert(t[pos + 1] == lt[1]);
            assert(t[pos + 2] == lt[2]);
            assert(r[0] == lt[1] && r[1] == lt[2]);
        }
    }
}

/// The version line of a LOD stands after its bracket line, and its body after that.
#[verifier::rlimit(80)]
#[verifier::spinoff_prover]
proof fn lemma_version_at(t: Seq<u8>, pos: int, l: Lod)
    requires
        0 <= pos,
        pos + lod_text(l).len() <= t.len(),
        t.subrange(pos, pos + lod_text(l).len()) == lod_text(l),
        lod_text(l) == bracket_text(l) + seq![10u8] + version_text(l) + seq![10u8] + lod_body(l),
        no_nl(version_text(l)),
        forall|i: int| 0 <= i < hex_text(l.version_major as nat).len() ==> #[trigger] hex_text(l.version_major as nat)[i] != 46u8,
    ensures
        ({
            let vpos = pos + bracket_text(l).len() + 1;
            let mj = hex_text(l.version_major as nat);
            let dot = vpos + 1 + mj.len();
            let ve = vpos + version_text(l).len();
            &&& ve < t.len()
            &&& t[vpos] == 118u8
            &&& forall|j: int| vpos <= j < ve ==> t[j] != 10u8
            &&& t[ve] == 10u8
            &&& forall|j: int| vpos + 1 <= j < dot ==> t[j] != 46u8
            &&& t[dot] == 46u8
            &&& dot < ve
            &&& t.subrange(vpos + 1, dot) == mj
            &&& t.subrange(dot + 1, ve) == hex_text(l.version_minor as nat)
            &&& is_prefix(lod_body(l), t.subrange(ve + 1, t.len() as int))
            &&& ve + 1 + lod_body(l).len() == pos + lod_text(l).len()
        }),
{
    let b = bracket_text(l);
    let v = version_text(l);
    let mj = hex_text(l.version_major as nat);
    let lt = lod_text(l);
    let o = b.len() as int + 1;
    let vl = v.len() as int;
    let body = lod_body(l);
    lemma_sub_of(t, pos, lt, o, lt.len() as int);
    let rest = lt.subrange(o, lt.len() as int);
    assert(rest =~= v + seq![10u8] + body);
    let vpos = pos + o;
    lemma_sub_of(t, vpos, rest, 0, rest.len() as int);
    assert(t.subrange(vpos, vpos + rest.len()) == rest) by {
        assert(t.subrange(pos + o, pos + lt.len()) == rest);
    }
    lemma_sub_of(t, vpos, rest, 0, vl + 1);
    assert forall|j: int| vpos <= j < vpos + vl implies t[j] != 10u8 by {
        assert(t[vpos + (j - vpos)] == rest[j - vpos]);
        assert(rest[j - vpos] == v[j - vpos]);
    }
    assert(t[vpos + vl] == rest[vl]);
    assert(t[vpos + 0] == rest[0]);
    let dot = vpos + 1 + mj.len();
    assert forall|j: int| vpos + 1 <= j < dot implies t[j] != 46u8 by {
        assert(t[vpos + (j - vpos)] == rest[j - vpos]);
        assert(rest[j - vpos] == v[j - vpos]);
        assert(v[j - vpos] == mj[j - vpos - 1]);
    }
    let dj = 1 + mj.len() as int;
    assert(t[vpos + dj] == rest[dj]);
    assert(rest[dj] == v[dj]);
    lemma_sub_of(t, vpos, rest, 1, 1 + mj.len() as int);
    assert(rest.subrange(1, 1 + mj.len() as int) =~= mj);
    lemma_sub_of(t, vpos, rest, 2 + mj.len() as int, vl);
    assert(rest.subrange(2 + mj.len() as int, vl) =~= hex_text(l.version_minor as nat));
    lemma_sub_of(t, vpos, rest, vl + 1, rest.len() as int);
    assert(rest.subrange(vl + 1, rest.len() as int) =~= body);
    let ve = vpos + vl;
    assert(t.subrange(ve + 1, t.len() as int).subrange(0, body.len() as int) =~= t.subrange(ve + 1, ve + 1 + body.len()));
}

} // verus!
