//! Little-endian byte views of 16-bit and 32-bit integers, and the UTF-16
//! wide encoding used by the string data of a message file.

use vstd::prelude::*;

use crate::keyword::push_char;

verus! {

/// Relies on char::from_u32: `Some` exactly for Unicode scalar values,
/// holding the character with that code-point.
#[verifier::external_body]
pub(crate) fn char_from_u32(v: u32) -> (r: Option<char>)
    ensures
        r == (if v < 0xD800 || (0xE000 <= v && v < 0x110000) {
            Some(v as char)
        } else {
            None::<char>
        }),
{
    char::from_u32(v)
}

/// A run of zero bytes.
pub open spec fn zeros(n: nat) -> Seq<u8> {
    Seq::new(n, |i: int| 0u8)
}

/// The four little-endian bytes of a 32-bit value.
pub open spec fn u32_le_bytes(v: u32) -> Seq<u8> {
    seq![
        (v % 256) as u8,
        ((v / 256) % 256) as u8,
        ((v / 65536) % 256) as u8,
        ((v / 16777216) % 256) as u8,
    ]
}

/// The 32-bit value stored in little-endian order at `off`.
pub open spec fn u32_at(b: Seq<u8>, off: int) -> u32 {
    (b[off] + 256 * b[off + 1] + 65536 * b[off + 2] + 16777216 * b[off + 3]) as u32
}

/// The two little-endian bytes of a 16-bit value.
pub open spec fn u16_le_bytes(v: u16) -> Seq<u8> {
    seq![(v % 256) as u8, (v / 256) as u8]
}

/// The 16-bit value stored in little-endian order at `off`.
pub open spec fn u16_at(b: Seq<u8>, off: int) -> u16 {
    (b[off] + 256 * b[off + 1]) as u16
}

/// Reading back the four bytes of `u32_le_bytes` recovers the value.
pub proof fn lemma_u32_le_roundtrip(b: Seq<u8>, off: int, v: u32)
    requires
        0 <= off,
        off + 4 <= b.len(),
        forall|k: int| 0 <= k < 4 ==> b[off + k] == u32_le_bytes(v)[k],
    ensures
        u32_at(b, off) == v,
{
    assert(b[off + 0] == u32_le_bytes(v)[0]);
    assert(b[off + 1] == u32_le_bytes(v)[1]);
    assert(b[off + 2] == u32_le_bytes(v)[2]);
    assert(b[off + 3] == u32_le_bytes(v)[3]);
    assert(b[off] == (v % 256) as u8);
    assert(b[off + 1] == ((v / 256) % 256) as u8);
    assert(b[off + 2] == ((v / 65536) % 256) as u8);
    assert(b[off + 3] == ((v / 16777216) % 256) as u8);
    assert(v % 256 + 256 * ((v / 256) % 256) + 65536 * ((v / 65536) % 256) + 16777216 * ((v
        / 16777216) % 256) == v) by (nonlinear_arith);
}

/// Reading back the two bytes of `u16_le_bytes` recovers the value.
pub proof fn lemma_u16_le_roundtrip(b: Seq<u8>, off: int, v: u16)
    requires
        0 <= off,
        off + 2 <= b.len(),
        forall|k: int| 0 <= k < 2 ==> b[off + k] == u16_le_bytes(v)[k],
    ensures
        u16_at(b, off) == v,
{
    assert(b[off + 0] == u16_le_bytes(v)[0]);
    assert(b[off + 1] == u16_le_bytes(v)[1]);
    assert(b[off] == (v % 256) as u8);
    assert(b[off + 1] == (v / 256) as u8);
    assert(v % 256 + 256 * (v / 256) == v) by (nonlinear_arith);
}

/// Append the four little-endian bytes of `v`.
pub fn push_u32_le(out: &mut Vec<u8>, v: u32)
    ensures
        final(out)@ == old(out)@ + u32_le_bytes(v),
{
    out.push((v % 256) as u8);
    out.push(((v / 256) % 256) as u8);
    out.push(((v / 65536) % 256) as u8);
    out.push(((v / 16777216) % 256) as u8);
    proof {
        assert(out@ =~= old(out)@ + u32_le_bytes(v));
    }
}

/// Append the two little-endian bytes of `v`.
pub fn push_u16_le(out: &mut Vec<u8>, v: u16)
    ensures
        final(out)@ == old(out)@ + u16_le_bytes(v),
{
    out.push((v % 256) as u8);
    out.push((v / 256) as u8);
    proof {
        assert(out@ =~= old(out)@ + u16_le_bytes(v));
    }
}

/// Read the 32-bit little-endian value at `off`.
pub fn read_u32_at(data: &Vec<u8>, off: usize) -> (r: u32)
    requires
        off + 4 <= data@.len(),
    ensures
        r == u32_at(data@, off as int),
{
    let n = data.len();
    let b0 = data[off] as u32;
    let b1 = data[off + 1] as u32;
    let b2 = data[off + 2] as u32;
    let b3 = data[off + 3] as u32;
    b0 + 256 * b1 + 65536 * b2 + 16777216 * b3
}

/// Read the 16-bit little-endian value at `off`.
pub fn read_u16_at(data: &Vec<u8>, off: usize) -> (r: u16)
    requires
        off + 2 <= data@.len(),
    ensures
        r == u16_at(data@, off as int),
{
    let n = data.len();
    let b0 = data[off] as u16;
    let b1 = data[off + 1] as u16;
    b0 + 256 * b1
}

/// The UTF-16 code units of one character: the code-point itself for the
/// basic plane, a surrogate pair otherwise.
pub open spec fn utf16_encode_char(c: char) -> Seq<u16> {
    let v = c as u32;
    if v < 0x10000 {
        seq![v as u16]
    } else {
        seq![(0xD800 + (v - 0x10000) / 0x400) as u16, (0xDC00 + (v - 0x10000) % 0x400) as u16]
    }
}

/// The UTF-16 code units of a character sequence.
pub open spec fn utf16_encode(s: Seq<char>) -> Seq<u16>
    decreases s.len(),
{
    if s.len() == 0 {
        Seq::empty()
    } else {
        utf16_encode_char(s[0]) + utf16_encode(s.drop_first())
    }
}

pub open spec fn is_high_surrogate(w: u16) -> bool {
    0xD800 <= w < 0xDC00
}

pub open spec fn is_low_surrogate(w: u16) -> bool {
    0xDC00 <= w < 0xE000
}

/// The code-point of a surrogate pair.
pub open spec fn combine_surrogates(w1: u16, w2: u16) -> u32 {
    (0x10000 + 0x400 * ((w1 - 0xD800) as u32) + ((w2 - 0xDC00) as u32)) as u32
}

/// The characters read from a UTF-16 code-unit sequence, with each unpaired
/// surrogate replaced by the replacement character.
pub open spec fn utf16_decode(u: Seq<u16>) -> Seq<char>
    decreases u.len(),
{
    if u.len() == 0 {
        Seq::empty()
    } else if is_high_surrogate(u[0]) && u.len() >= 2 && is_low_surrogate(u[1]) {
        seq![(combine_surrogates(u[0], u[1]) as char)] + utf16_decode(u.skip(2))
    } else if is_high_surrogate(u[0]) || is_low_surrogate(u[0]) {
        seq!['\u{FFFD}'] + utf16_decode(u.drop_first())
    } else {
        seq![((u[0] as u32) as char)] + utf16_decode(u.drop_first())
    }
}

/// A character is always a Unicode scalar value: in range, and never a
/// surrogate code-point.
pub proof fn lemma_char_bounds(c: char)
    ensures
        (c as u32) < 0x110000,
        !(0xD800 <= (c as u32) < 0xE000),
{
    vstd::utf8::char_is_scalar(c);
}

/// Law: decoding the UTF-16 encoding of a text gives the text back.
pub proof fn lemma_utf16_roundtrip(s: Seq<char>)
    ensures
        utf16_decode(utf16_encode(s)) == s,
    decreases s.len(),
{
    if s.len() == 0 {
        assert(utf16_decode(utf16_encode(s)) =~= s);
    } else {
        let c = s[0];
        let v = c as u32;
        lemma_char_bounds(c);
        lemma_utf16_roundtrip(s.drop_first());
        let u = utf16_encode(s);
        let uc = utf16_encode_char(c);
        let rest = utf16_encode(s.drop_first());
        if v < 0x10000 {
            let w = (v as u16);
            assert(u == seq![w] + rest);
            assert(u[0] == w);
            assert(!is_high_surrogate(w) && !is_low_surrogate(w));
            assert(u.drop_first() =~= rest);
            assert(((u[0] as u32) as char) == c) by {
                vstd::utf8::char_u32_cast(c, v);
            }
            assert(utf16_decode(u) =~= s);
        } else {
            let w1 = (0xD800 + (v - 0x10000) / 0x400) as u16;
            let w2 = (0xDC00 + (v - 0x10000) % 0x400) as u16;
            assert((v - 0x10000) / 0x400 <= 0x3FF);
            assert((v - 0x10000) % 0x400 <= 0x3FF);
            assert(u == seq![w1, w2] + rest);
            assert(u[0] == w1 && u[1] == w2);
            assert(is_high_surrogate(w1) && is_low_surrogate(w2));
            assert(combine_surrogates(w1, w2) == v) by {
                assert(0x400 * ((v - 0x10000) / 0x400) + (v - 0x10000) % 0x400 == v - 0x10000)
                    by (nonlinear_arith);
            }
            assert((combine_surrogates(w1, w2) as char) == c) by {
                vstd::utf8::char_u32_cast(c, v);
            }
            assert(u.skip(2) =~= rest);
            assert(utf16_decode(u) =~= s);
        }
    }
}

/// Law: the UTF-16 encoding of a text without NUL characters holds no zero
/// code unit.
pub proof fn lemma_utf16_encode_no_zero(s: Seq<char>)
    requires
        forall|i: int| 0 <= i < s.len() ==> s[i] != '\u{0}',
    ensures
        forall|j: int| 0 <= j < utf16_encode(s).len() ==> utf16_encode(s)[j] != 0,
    decreases s.len(),
{
    if s.len() > 0 {
        let c = s[0];
        let v = c as u32;
        lemma_char_bounds(c);
        assert(forall|i: int|
            0 <= i < s.drop_first().len() ==> s.drop_first()[i] == s[i + 1]);
        lemma_utf16_encode_no_zero(s.drop_first());
        let uc = utf16_encode_char(c);
        assert(s[0] != '\u{0}');
        assert(v != 0) by {
            if v == 0 {
                vstd::utf8::char_u32_cast(c, v);
                assert('\u{0}' as u32 == 0);
                vstd::utf8::char_u32_cast('\u{0}', 0);
            }
        }
        assert(forall|j: int| 0 <= j < uc.len() ==> uc[j] != 0) by {
            if v < 0x10000 {
                assert(uc =~= seq![(v as u16)]);
                assert(uc[0] != 0);
            } else {
                assert(uc[0] >= 0xD800 && uc[1] >= 0xDC00);
            }
        }
        assert(forall|j: int|
            0 <= j < utf16_encode(s).len() ==> utf16_encode(s)[j] != 0) by {
            assert(utf16_encode(s) == uc + utf16_encode(s.drop_first()));
        }
    }
}

/// The UTF-16 code units of a text.
pub fn utf16_units(s: &str) -> (r: Vec<u16>)
    ensures
        r@ == utf16_encode(s@),
{
    let mut out: Vec<u16> = Vec::new();
    let n = s.unicode_len();
    let mut i: usize = 0;
    proof {
        assert(s@.skip(0) =~= s@);
        assert(out@ + utf16_encode(s@) =~= utf16_encode(s@));
    }
    while i < n
        invariant
            n == s@.len(),
            0 <= i <= n,
            utf16_encode(s@) == out@ + utf16_encode(s@.skip(i as int)),
        decreases n - i,
    {
        let c = s.get_char(i);
        let v = c as u32;
        proof {
            lemma_char_bounds(c);
        }
        let ghost pre = out@;
        if v < 0x10000 {
            out.push(v as u16);
        } else {
            out.push(0xD800 + ((v - 0x10000) / 0x400) as u16);
            out.push(0xDC00 + ((v - 0x10000) % 0x400) as u16);
        }
        proof {
            let t = s@.skip(i as int);
            assert(t[0] == s@[i as int]);
            assert(t.drop_first() =~= s@.skip(i + 1));
            assert(utf16_encode(t) == utf16_encode_char(c) + utf16_encode(s@.skip(i + 1)));
            assert(out@ =~= pre + utf16_encode_char(c));
            assert(pre + (utf16_encode_char(c) + utf16_encode(s@.skip(i + 1))) =~= out@
                + utf16_encode(s@.skip(i + 1)));
        }
        i += 1;
    }
    proof {
        assert(s@.skip(n as int) =~= Seq::<char>::empty());
        assert(utf16_encode(s@) =~= out@);
    }
    out
}

/// The text read from UTF-16 code units, unpaired surrogates replaced.
pub fn utf16_text(units: &Vec<u16>) -> (r: String)
    ensures
        r@ == utf16_decode(units@),
{
    let mut out = String::new();
    let n = units.len();
    let mut i: usize = 0;
    proof {
        assert(units@.skip(0) =~= units@);
        assert(out@ + utf16_decode(units@) =~= utf16_decode(units@));
    }
    while i < n
        invariant
            n == units@.len(),
            0 <= i <= n,
            utf16_decode(units@) == out@ + utf16_decode(units@.skip(i as int)),
        decreases n - i,
    {
        let w = units[i];
        let ghost t = units@.skip(i as int);
        let ghost pre = out@;
        if 0xD800 <= w && w < 0xDC00 && i + 1 < n && 0xDC00 <= units[i + 1] && units[i + 1]
            < 0xE000 {
            let w2 = units[i + 1];
            let v = 0x10000 + 0x400 * ((w - 0xD800) as u32) + ((w2 - 0xDC00) as u32);
            let c = match char_from_u32(v) {
                Some(c) => c,
                None => {
                    proof {
                        assert(false);
                    }
                    '\u{FFFD}'
                },
            };
            push_char(&mut out, c);
            proof {
                assert(t[0] == w && t[1] == w2);
                assert(t.skip(2) =~= units@.skip(i + 2));
                assert(utf16_decode(t) == seq![c] + utf16_decode(units@.skip(i + 2)));
                assert(pre + (seq![c] + utf16_decode(units@.skip(i + 2))) =~= out@
                    + utf16_decode(units@.skip(i + 2)));
            }
            i += 2;
        } else if 0xD800 <= w && w < 0xE000 {
            push_char(&mut out, '\u{FFFD}');
            proof {
                assert(t[0] == w);
                assert(t.drop_first() =~= units@.skip(i + 1));
                if is_high_surrogate(w) {
                    if i + 1 < n {
                        assert(!is_low_surrogate(units@[i + 1]));
                    }
                }
                assert(utf16_decode(t) == seq!['\u{FFFD}'] + utf16_decode(units@.skip(i + 1)));
                assert(pre + (seq!['\u{FFFD}'] + utf16_decode(units@.skip(i + 1))) =~= out@
                    + utf16_decode(units@.skip(i + 1)));
            }
            i += 1;
        } else {
            let c = match char_from_u32(w as u32) {
                Some(c) => c,
                None => {
                    proof {
                        assert(false);
                    }
                    '\u{FFFD}'
                },
            };
            push_char(&mut out, c);
            proof {
                assert(t[0] == w);
                assert(t.drop_first() =~= units@.skip(i + 1));
                assert(utf16_decode(t) == seq![c] + utf16_decode(units@.skip(i + 1)));
                assert(pre + (seq![c] + utf16_decode(units@.skip(i + 1))) =~= out@
                    + utf16_decode(units@.skip(i + 1)));
            }
            i += 1;
        }
    }
    proof {
        assert(units@.skip(n as int) =~= Seq::<u16>::empty());
        assert(utf16_decode(units@) =~= out@);
    }
    out
}

} // verus!
