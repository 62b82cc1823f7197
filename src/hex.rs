//! Hexadecimal tokens: unsigned 32-bit integers, byte pairs, and the
//! bit patterns of floats in lossless mode.
use vstd::prelude::*;

verus! {

/// The ASCII digit for a value below sixteen, lowercase.
pub open spec fn digit_char(d: nat) -> u8 {
    if d < 10 {
        (48 + d) as u8
    } else {
        (87 + d) as u8
    }
}

/// The lowercase hexadecimal text of `n`, without prefix or padding.
pub open spec fn hex_text(n: nat) -> Seq<u8>
    decreases n,
{
    if n < 16 {
        seq![digit_char(n)]
    } else {
        hex_text(n / 16).push(digit_char(n % 16))
    }
}

/// Two lowercase hexadecimal digits for one byte.
pub open spec fn byte_text(b: u8) -> Seq<u8> {
    seq![digit_char(b as nat / 16), digit_char(b as nat % 16)]
}

pub open spec fn is_hex_digit(c: u8) -> bool {
    (48 <= c && c <= 57) || (97 <= c && c <= 102) || (65 <= c && c <= 70)
}

pub open spec fn digit_value(c: u8) -> nat {
    if c <= 57 {
        (c - 48) as nat
    } else if c >= 97 {
        (c - 87) as nat
    } else {
        (c - 55) as nat
    }
}

pub open spec fn all_hex(s: Seq<u8>) -> bool {
    forall|i: int| 0 <= i < s.len() ==> is_hex_digit(#[trigger] s[i])
}

/// The value of a string of hexadecimal digits, most significant first.
pub open spec fn hex_value(s: Seq<u8>) -> nat
    decreases s.len(),
{
    if s.len() == 0 {
        0
    } else {
        hex_value(s.drop_last()) * 16 + digit_value(s.last())
    }
}

/// What a hexadecimal token denotes as a 32-bit integer, if anything.
pub open spec fn hex32_of(s: Seq<u8>) -> Option<u32> {
    if s.len() > 0 && all_hex(s) && hex_value(s) <= u32::MAX {
        Some(hex_value(s) as u32)
    } else {
        None
    }
}

/// What a run of digit pairs denotes as bytes, if anything.
pub open spec fn hex_bytes_of(s: Seq<u8>) -> Option<Seq<u8>> {
    if s.len() % 2 == 0 && all_hex(s) {
        Some(Seq::new((s.len() / 2) as nat, |i: int| (digit_value(s[2 * i]) * 16 + digit_value(s[2 * i + 1])) as u8))
    } else {
        None
    }
}

pub fn digit(d: u8) -> (r: u8)
    requires
        d < 16,
    ensures
        r == digit_char(d as nat),
{
    if d < 10 {
        48 + d
    } else {
        87 + d
    }
}

/// Appends the hexadecimal text of `n` to `out`.
pub fn push_hex(out: &mut Vec<u8>, n: u64)
    ensures
        final(out)@ == old(out)@ + hex_text(n as nat),
    decreases n,
{
    if n < 16 {
        out.push(digit(n as u8));
        assert(hex_text(n as nat) =~= seq![digit_char(n as nat)]);
    } else {
        push_hex(out, n / 16);
        out.push(digit((n % 16) as u8));
    }
}

/// Appends the two-digit text of a byte to `out`.
pub fn push_byte_hex(out: &mut Vec<u8>, b: u8)
    ensures
        final(out)@ == old(out)@ + byte_text(b),
{
    out.push(digit(b / 16));
    out.push(digit(b % 16));
}

/// The hexadecimal token of a 32-bit integer.
pub fn encode_hex32(n: u32) -> (r: Vec<u8>)
    ensures
        r@ == hex_text(n as nat),
{
    let mut out: Vec<u8> = Vec::new();
    push_hex(&mut out, n as u64);
    assert(out@ =~= hex_text(n as nat));
    out
}

pub fn hex_digit_value(c: u8) -> (r: Option<u8>)
    ensures
        r == (if is_hex_digit(c) { Some(digit_value(c) as u8) } else { None::<u8> }),
        r is Some ==> r->0 < 16,
{
    if 48 <= c && c <= 57 {
        Some(c - 48)
    } else if 97 <= c && c <= 102 {
        Some(c - 87)
    } else if 65 <= c && c <= 70 {
        Some(c - 55)
    } else {
        None
    }
}

/// Reads the hexadecimal token `text[lo..hi]` as a 32-bit integer.
pub fn decode_hex32(text: &Vec<u8>, lo: usize, hi: usize) -> (r: Option<u32>)
    requires
        lo <= hi <= text@.len(),
    ensures
        r == hex32_of(text@.subrange(lo as int, hi as int)),
{
    let ghost s = text@.subrange(lo as int, hi as int);
    let mut acc: u64 = 0;
    let mut i: usize = lo;
    while i < hi
        invariant
            lo <= i <= hi <= text@.len(),
            s == text@.subrange(lo as int, hi as int),
            all_hex(s.subrange(0, i - lo)),
            acc == (if hex_value(s.subrange(0, i - lo)) <= u32::MAX {
                hex_value(s.subrange(0, i - lo))
            } else {
                0x1_0000_0000nat
            }),
        decreases hi - i,
    {
        let c = text[i];
        match hex_digit_value(c) {
            None => {
                assert(!is_hex_digit(s[i - lo]));
                return None;
            },
            Some(d) => {
                let ghost p = s.subrange(0, i - lo);
                let ghost q = s.subrange(0, i + 1 - lo);
                assert(q.drop_last() =~= p);
                assert(q.last() == c);
                let next: u64 = acc * 16 + d as u64;
                acc = if next > 0xffff_ffff { 0x1_0000_0000 } else { next };
                i = i + 1;
            },
        }
    }
    assert(s.subrange(0, hi - lo) =~= s);
    if hi == lo {
        None
    } else if acc > 0xffff_ffff {
        None
    } else {
        Some(acc as u32)
    }
}

/// Reads `text[lo..hi]` as digit pairs, one byte each.
pub fn decode_hex_bytes(text: &Vec<u8>, lo: usize, hi: usize) -> (r: Option<Vec<u8>>)
    requires
        lo <= hi <= text@.len(),
    ensures
        match hex_bytes_of(text@.subrange(lo as int, hi as int)) {
            Some(b) => r is Some && r->0@ == b,
            None => r is None,
        },
{
    let ghost s = text@.subrange(lo as int, hi as int);
    if (hi - lo) % 2 != 0 {
        return None;
    }
    let mut out: Vec<u8> = Vec::new();
    let mut i: usize = lo;
    while i < hi
        invariant
            lo <= i <= hi <= text@.len(),
            (hi - lo) % 2 == 0,
            (i - lo) % 2 == 0,
            s == text@.subrange(lo as int, hi as int),
            out@.len() == (i - lo) / 2,
            forall|j: int| 0 <= j < i - lo ==> is_hex_digit(#[trigger] s[j]),
            forall|k: int|
                0 <= k < out@.len() ==> #[trigger] out@[k] == (digit_value(s[2 * k]) * 16
                    + digit_value(s[2 * k + 1])) as u8,
        decreases hi - i,
    {
        let a = hex_digit_value(text[i]);
        let b = hex_digit_value(text[i + 1]);
        match (a, b) {
            (Some(x), Some(y)) => {
                out.push(x * 16 + y);
                i = i + 2;
            },
            (None, _) => {
                assert(!is_hex_digit(s[i - lo]));
                return None;
            },
            (_, None) => {
                assert(!is_hex_digit(s[i + 1 - lo]));
                return None;
            },
        }
    }
    assert(out@ =~= hex_bytes_of(s)->0);
    Some(out)
}

proof fn lemma_digit_round_trip(d: nat)
    requires
        d < 16,
    ensures
        is_hex_digit(digit_char(d)),
        digit_value(digit_char(d)) == d,
{
}

/// Every 32-bit value survives its own hexadecimal token: the token is
/// well formed and reads back as the same value. For a float in lossless
/// mode the value is its bit pattern, so every pattern, NaNs, signed
/// zeros, subnormals and infinities included, comes back unchanged.
pub proof fn lemma_hex_round_trip(n: u32)
    ensures
        hex32_of(hex_text(n as nat)) == Some(n),
{
    lemma_hex_text_value(n as nat);
}

pub proof fn lemma_hex_text_value(n: nat)
    ensures
        hex_text(n).len() > 0,
        all_hex(hex_text(n)),
        hex_value(hex_text(n)) == n,
    decreases n,
{
    if n < 16 {
        lemma_digit_round_trip(n);
        let t = hex_text(n);
        assert(t.drop_last() =~= Seq::<u8>::empty());
        assert(hex_value(t) == hex_value(t.drop_last()) * 16 + digit_value(t.last()));
        assert(hex_value(Seq::<u8>::empty()) == 0);
    } else {
        lemma_hex_text_value(n / 16);
        lemma_digit_round_trip(n % 16);
        let t = hex_text(n);
        assert(t.drop_last() =~= hex_text(n / 16));
        assert(hex_value(t) == hex_value(t.drop_last()) * 16 + digit_value(t.last()));
        assert((n / 16) * 16 + n % 16 == n) by (nonlinear_arith);
        assert forall|i: int| 0 <= i < t.len() implies is_hex_digit(#[trigger] t[i]) by {
            if i < t.len() - 1 {
                assert(t[i] == hex_text(n / 16)[i]);
            }
        }
    }
}

/// Digit pairs read back as the bytes they were written from.
pub proof fn lemma_byte_round_trip(b: u8)
    ensures
        hex_bytes_of(byte_text(b)) == Some(seq![b]),
{
    lemma_digit_round_trip(b as nat / 16);
    lemma_digit_round_trip(b as nat % 16);
    let t = byte_text(b);
    assert(all_hex(t)) by {
        assert forall|i: int| 0 <= i < t.len() implies is_hex_digit(#[trigger] t[i]) by {
            if i == 0 {} else {}
        }
    }
    assert(hex_bytes_of(t)->0 =~= seq![b]);
}

} // verus!
