//! The claims payload: a JSON object with the keys `sub`, `email`, `role`,
//! `exp`, `iat` and `token_type`. It is always written in that order and in
//! one fixed form, which reads back exactly; objects in the general form
//! (white space, any member order, extra members) are read too.
use vstd::prelude::*;
use vstd::utf8::{decode_utf8, encode_scalar, encode_utf8, valid_utf8};
use crate::claims::{Claims, ClaimsView, TokenKind};

verus! {

pub open spec fn is_digit(c: u8) -> bool {
    48 <= c <= 57
}

pub open spec fn hex_digit(n: u8) -> u8 {
    if n < 10 { (48 + n) as u8 } else { (87 + n) as u8 }
}

pub open spec fn is_hex(c: u8) -> bool {
    (48 <= c <= 57) || (65 <= c <= 70) || (97 <= c <= 102)
}

pub open spec fn hex_value(c: u8) -> int {
    if c <= 57 { c - 48 } else if c <= 70 { c - 55 } else { c - 87 }
}

/// Four hex digits stand at `i`.
pub open spec fn hex4_ok(b: Seq<u8>, i: int) -> bool {
    0 <= i && i + 4 <= b.len() && is_hex(b[i]) && is_hex(b[i + 1]) && is_hex(b[i + 2]) && is_hex(b[i + 3])
}

/// The number that the four hex digits at `i` write.
pub open spec fn hex4(b: Seq<u8>, i: int) -> int {
    hex_value(b[i]) * 4096 + hex_value(b[i + 1]) * 256 + hex_value(b[i + 2]) * 16 + hex_value(b[i + 3])
}

/// The letter that follows the backslash in the two-character escape of a
/// byte, for the bytes that have one: quote, backslash, and the control bytes
/// backspace, tab, line feed, form feed and carriage return.
pub open spec fn short_escape(b: u8) -> Option<u8> {
    if b == 34 {
        Some(34u8)
    } else if b == 92 {
        Some(92u8)
    } else if b == 8 {
        Some(98u8)
    } else if b == 9 {
        Some(116u8)
    } else if b == 10 {
        Some(110u8)
    } else if b == 12 {
        Some(102u8)
    } else if b == 13 {
        Some(114u8)
    } else {
        None
    }
}

/// The byte that a two-character escape with letter `l` stands for; `\\/`
/// is read too, though never written.
pub open spec fn unescape_letter(l: u8) -> Option<u8> {
    if l == 34 {
        Some(34u8)
    } else if l == 92 {
        Some(92u8)
    } else if l == 98 {
        Some(8u8)
    } else if l == 116 {
        Some(9u8)
    } else if l == 110 {
        Some(10u8)
    } else if l == 102 {
        Some(12u8)
    } else if l == 114 {
        Some(13u8)
    } else if l == 47 {
        Some(47u8)
    } else {
        None
    }
}

/// The escaped form of one byte inside a JSON string: a two-character escape
/// where there is one, `\u00XX` for the other control bytes, else the byte.
pub open spec fn escape_byte(b: u8) -> Seq<u8> {
    match short_escape(b) {
        Some(l) => seq![92u8, l],
        None => if b < 32 {
            seq![92u8, 117u8, 48u8, 48u8, hex_digit(b / 16), hex_digit(b % 16)]
        } else {
            seq![b]
        },
    }
}

pub open spec fn escape(s: Seq<u8>) -> Seq<u8>
    decreases s.len(),
{
    if s.len() == 0 {
        Seq::empty()
    } else {
        escape_byte(s[0]) + escape(s.drop_first())
    }
}

/// A JSON string holding the given UTF-8 bytes.
pub open spec fn json_string(s: Seq<u8>) -> Seq<u8> {
    seq![34u8] + escape(s) + seq![34u8]
}

/// Decimal digits of a natural number, most significant first.
pub open spec fn digits(m: nat) -> Seq<u8>
    decreases m,
{
    if m < 10 {
        seq![(48 + m) as u8]
    } else {
        digits(m / 10).push((48 + m % 10) as u8)
    }
}

/// A JSON integer.
pub open spec fn json_int(n: i64) -> Seq<u8> {
    if n < 0 {
        seq![45u8] + digits((-(n as int)) as nat)
    } else {
        digits(n as nat)
    }
}

pub open spec fn kind_name(k: TokenKind) -> Seq<u8> {
    match k {
        TokenKind::Access => seq![97u8, 99, 99, 101, 115, 115],
        TokenKind::Refresh => seq![114u8, 101, 102, 114, 101, 115, 104],
    }
}

/// The text `"name":` for the key of the `i`-th field.
pub open spec fn key(i: int) -> Seq<u8> {
    let name: Seq<u8> = if i == 0 {
        seq![115u8, 117, 98]
    } else if i == 1 {
        seq![101u8, 109, 97, 105, 108]
    } else if i == 2 {
        seq![114u8, 111, 108, 101]
    } else if i == 3 {
        seq![101u8, 120, 112]
    } else if i == 4 {
        seq![105u8, 97, 116]
    } else {
        seq![116u8, 111, 107, 101, 110, 95, 116, 121, 112, 101]
    };
    seq![34u8] + name + seq![34u8, 58u8]
}

/// The fixed text between the fields: `{"sub":`, then `,"email":` and so on
/// for the next keys, and the closing brace last.
pub open spec fn lit(j: int) -> Seq<u8> {
    if j == 0 {
        seq![123u8] + key(0)
    } else if j < 6 {
        seq![44u8] + key(j)
    } else {
        seq![125u8]
    }
}

/// The `k`-th piece of the serialized claim set.
pub open spec fn piece(c: ClaimsView, k: int) -> Seq<u8> {
    if k % 2 == 0 {
        lit(k / 2)
    } else if k == 1 {
        json_string(encode_utf8(c.sub))
    } else if k == 3 {
        json_string(encode_utf8(c.email))
    } else if k == 5 {
        json_string(encode_utf8(c.role))
    } else if k == 7 {
        json_int(c.exp)
    } else if k == 9 {
        json_int(c.iat)
    } else {
        json_string(kind_name(c.kind))
    }
}

/// The pieces from the `k`-th on.
pub open spec fn tail(c: ClaimsView, k: nat) -> Seq<u8>
    decreases 13 - k,
{
    if k >= 13 {
        Seq::empty()
    } else {
        piece(c, k as int) + tail(c, k + 1)
    }
}

/// The canonical serialization of a claim set.
#[verifier::opaque]
pub open spec fn payload_of(c: ClaimsView) -> Seq<u8> {
    tail(c, 0)
}

// ---- reading strings back ----

pub open spec fn prepend(x: Seq<u8>, n: int, r: Option<(Seq<u8>, int)>) -> Option<(Seq<u8>, int)> {
    match r {
        Some((s, k)) => Some((x + s, k + n)),
        None => None,
    }
}

/// The `\\uXXXX` escape, or surrogate pair of two, at the front of `b`: the
/// UTF-8 bytes it stands for and its length. A lone surrogate is refused.
pub open spec fn unicode_unit(b: Seq<u8>) -> Option<(Seq<u8>, int)> {
    if b.len() >= 6 && hex4_ok(b, 2) {
        let v = hex4(b, 2);
        if 0xD800 <= v <= 0xDBFF {
            if b.len() >= 12 && b[6] == 92 && b[7] == 117 && hex4_ok(b, 8) && 0xDC00 <= hex4(b, 8) <= 0xDFFF {
                Some((encode_scalar((0x10000 + (v - 0xD800) * 1024 + (hex4(b, 8) - 0xDC00)) as u32), 12))
            } else {
                None
            }
        } else if 0xDC00 <= v <= 0xDFFF {
            None
        } else {
            Some((encode_scalar(v as u32), 6))
        }
    } else {
        None
    }
}

/// Reads the escaped body of a JSON string up to its closing quote: the bytes
/// it stands for, and how many bytes were read, the quote included.
#[verifier::opaque]
pub open spec fn scan_string(b: Seq<u8>) -> Option<(Seq<u8>, int)>
    decreases b.len(),
{
    if b.len() == 0 {
        None
    } else if b[0] == 34 {
        Some((Seq::empty(), 1))
    } else if b[0] == 92 {
        if b.len() >= 2 && unescape_letter(b[1]) is Some {
            prepend(seq![unescape_letter(b[1])->0], 2, scan_string(b.skip(2)))
        } else if b.len() >= 6 && b[1] == 117 {
            match unicode_unit(b) {
                Some((x, n)) => prepend(x, n, scan_string(b.skip(n))),
                None => None,
            }
        } else {
            None
        }
    } else if b[0] < 32 {
        None
    } else {
        prepend(seq![b[0]], 1, scan_string(b.skip(1)))
    }
}

proof fn lemma_control_unit(h: u8, r: Seq<u8>)
    requires
        h < 32,
        short_escape(h) is None,
    ensures
        unicode_unit(escape_byte(h) + r) == Some((seq![h], 6int)),
{
    let b = escape_byte(h) + r;
    let hi = h / 16;
    let lo = h % 16;
    assert(b[0] == 92 && b[1] == 117 && b[2] == 48 && b[3] == 48);
    assert(b[4] == hex_digit(hi) && b[5] == hex_digit(lo));
    assert(hex_value(hex_digit(hi)) == hi);
    assert(hex_value(hex_digit(lo)) == lo);
    assert(hex4(b, 2) == h);
    assert((h as u32) & 0x7F == h as u32) by (bit_vector)
        requires
            h < 32,
    ;
    assert(encode_scalar(h as u32) =~= seq![h]);
}

proof fn lemma_scan_step(h: u8, r: Seq<u8>)
    ensures
        scan_string(escape_byte(h) + r) == prepend(seq![h], escape_byte(h).len() as int, scan_string(r)),
{
    reveal(scan_string);
    let e = escape_byte(h);
    let b = e + r;
    assert(b.skip(e.len() as int) =~= r);
    if short_escape(h) is Some {
        assert(unescape_letter(short_escape(h)->0) == Some(h));
        assert(b[0] == 92 && b[1] == short_escape(h)->0);
    } else if h < 32 {
        lemma_control_unit(h, r);
        assert(b[0] == 92 && b[1] == 117);
    } else {
        assert(b[0] == h);
    }
}

proof fn lemma_scan_escaped(x: Seq<u8>, rest: Seq<u8>)
    ensures
        scan_string(escape(x) + seq![34u8] + rest) == Some((x, escape(x).len() + 1int)),
    decreases x.len(),
{
    let b = escape(x) + seq![34u8] + rest;
    if x.len() == 0 {
        reveal(scan_string);
        assert(b[0] == 34);
        assert(x =~= Seq::<u8>::empty());
    } else {
        let h = x[0];
        let t = x.drop_first();
        let e = escape_byte(h);
        lemma_scan_escaped(t, rest);
        assert(b =~= e + (escape(t) + seq![34u8] + rest));
        lemma_scan_step(h, escape(t) + seq![34u8] + rest);
        assert(x =~= seq![h] + t);
    }
}

/// The string starting at `pos`, whose opening quote stands there.
pub open spec fn string_at(b: Seq<u8>, pos: int) -> Option<(Seq<u8>, int)> {
    if 0 <= pos < b.len() && b[pos] == 34 {
        match scan_string(b.skip(pos + 1)) {
            Some((s, k)) => Some((s, pos + 1 + k)),
            None => None,
        }
    } else {
        None
    }
}

proof fn lemma_string_at(b: Seq<u8>, pos: int, x: Seq<u8>, rest: Seq<u8>)
    requires
        0 <= pos <= b.len(),
        b.skip(pos) == json_string(x) + rest,
    ensures
        string_at(b, pos) == Some((x, pos + json_string(x).len() as int)),
{
    lemma_scan_escaped(x, rest);
    let j = json_string(x);
    assert(j[0] == 34);
    assert((j + rest)[0] == 34);
    assert(b.skip(pos).len() > 0);
    assert(b[pos] == b.skip(pos)[0]);
    assert(b.skip(pos + 1) =~= escape(x) + seq![34u8] + rest) by {
        assert(b.skip(pos + 1) =~= b.skip(pos).skip(1));
    }
}

fn unescape_exec(l: u8) -> (r: Option<u8>)
    ensures
        r == unescape_letter(l),
{
    if l == 34 {
        Some(34)
    } else if l == 92 {
        Some(92)
    } else if l == 98 {
        Some(8)
    } else if l == 116 {
        Some(9)
    } else if l == 110 {
        Some(10)
    } else if l == 102 {
        Some(12)
    } else if l == 114 {
        Some(13)
    } else if l == 47 {
        Some(47)
    } else {
        None
    }
}

fn short_escape_exec(b: u8) -> (r: Option<u8>)
    ensures
        r == short_escape(b),
{
    if b == 34 {
        Some(34)
    } else if b == 92 {
        Some(92)
    } else if b == 8 {
        Some(98)
    } else if b == 9 {
        Some(116)
    } else if b == 10 {
        Some(110)
    } else if b == 12 {
        Some(102)
    } else if b == 13 {
        Some(114)
    } else {
        None
    }
}

fn hex_val(c: u8) -> (r: u32)
    requires
        is_hex(c),
    ensures
        r == hex_value(c),
{
    if c <= 57 { (c - 48) as u32 } else if c <= 70 { (c - 55) as u32 } else { (c - 87) as u32 }
}

fn is_hex_exec(c: u8) -> (r: bool)
    ensures
        r == is_hex(c),
{
    (48 <= c && c <= 57) || (65 <= c && c <= 70) || (97 <= c && c <= 102)
}

/// The number that four hex digits at `i` write.
fn hex4_at(b: &[u8], i: usize) -> (r: Option<u32>)
    ensures
        r is Some <==> hex4_ok(b@, i as int),
        r matches Some(v) ==> v == hex4(b@, i as int),
{
    if i > b.len() || b.len() - i < 4 {
        return None;
    }
    if !(is_hex_exec(b[i]) && is_hex_exec(b[i + 1]) && is_hex_exec(b[i + 2]) && is_hex_exec(b[i + 3])) {
        return None;
    }
    Some(hex_val(b[i]) * 4096 + hex_val(b[i + 1]) * 256 + hex_val(b[i + 2]) * 16 + hex_val(b[i + 3]))
}

/// The UTF-8 bytes of a scalar value.
fn encode_scalar_exec(v: u32) -> (r: Vec<u8>)
    ensures
        r@ == encode_scalar(v),
{
    let r: Vec<u8> = if v <= 0x7F {
        vec![(v & 0x7F) as u8]
    } else if v <= 0x7FF {
        vec![0xC0 | ((v >> 6) & 0x1F) as u8, 0x80 | (v & 0x3F) as u8]
    } else if v <= 0xFFFF && !(0xD800 <= v && v <= 0xDFFF) {
        vec![0xE0 | ((v >> 12) & 0x0F) as u8, 0x80 | ((v >> 6) & 0x3F) as u8, 0x80 | (v & 0x3F) as u8]
    } else {
        vec![
            0xF0 | ((v >> 18) & 0x7) as u8,
            0x80 | ((v >> 12) & 0x3F) as u8,
            0x80 | ((v >> 6) & 0x3F) as u8,
            0x80 | (v & 0x3F) as u8,
        ]
    };
    assert(r@ =~= encode_scalar(v));
    r
}

/// Reads the `\\uXXXX` escape, or the surrogate pair of two, that starts at
/// `i`: the UTF-8 bytes it stands for, and its length.
#[verifier::rlimit(80)]
fn read_unicode_escape(b: &[u8], i: usize) -> (r: Option<(Vec<u8>, usize)>)
    requires
        i < b.len(),
        b.len() - i > 5,
        b@[i as int] == 92,
        b@[i + 1] == 117,
    ensures
        match r {
            Some((enc, step)) => step > 0 && i + step <= b.len() && unicode_unit(b@.skip(i as int))
                == Some((enc@, step as int)),
            None => unicode_unit(b@.skip(i as int)) is None,
        },
{
    let ghost s = b@.skip(i as int);
    assert(forall|k: int| 0 <= k < 6 ==> s[k] == b@[i + k]);
    let v = match hex4_at(b, i + 2) {
        Some(v) => v,
        None => {
            assert(!hex4_ok(s, 2));
            return None;
        },
    };
    assert(hex4(s, 2) == v);
    let enc: Vec<u8>;
    let step: usize;
    if 0xD800 <= v && v <= 0xDBFF {
        if !(b.len() - i > 11 && b[i + 6] == 92 && b[i + 7] == 117) {
            proof {
                if b.len() - i > 11 {
                    assert(s[6] == b@[i + 6] && s[7] == b@[i + 7]);
                }
            }
            return None;
        }
        assert(forall|k: int| 6 <= k < 12 ==> s[k] == b@[i + k]);
        let w = match hex4_at(b, i + 8) {
            Some(w) => w,
            None => {
                assert(!hex4_ok(s, 8));
                return None;
            },
        };
        assert(hex4(s, 8) == w);
        if !(0xDC00 <= w && w <= 0xDFFF) {
            return None;
        }
        enc = encode_scalar_exec(0x10000 + (v - 0xD800) * 1024 + (w - 0xDC00));
        step = 12;
    } else if 0xDC00 <= v && v <= 0xDFFF {
        return None;
    } else {
        enc = encode_scalar_exec(v);
        step = 6;
    }
    Some((enc, step))
}

/// Reads the one byte or escape at `i` inside a string body: the bytes it
/// stands for, and its length.
fn read_unit(b: &[u8], i: usize) -> (r: Option<(Vec<u8>, usize)>)
    requires
        i < b.len(),
        b@[i as int] != 34,
    ensures
        match r {
            Some((x, step)) => step > 0 && i + step <= b.len() && scan_string(b@.skip(i as int))
                == prepend(x@, step as int, scan_string(b@.skip(i + step))),
            None => scan_string(b@.skip(i as int)) is None,
        },
{
    proof {
        reveal(scan_string);
    }
    let ghost s = b@.skip(i as int);
    assert(s[0] == b@[i as int]);
    let c = b[i];
    if c == 92 {
        let letter = if i + 1 < b.len() { unescape_exec(b[i + 1]) } else { None };
        if letter.is_some() {
            let x = letter.unwrap();
            assert(s[1] == b@[i + 1]);
            assert(s.skip(2) =~= b@.skip(i + 2));
            let mut v: Vec<u8> = Vec::new();
            v.push(x);
            assert(v@ =~= seq![x]);
            Some((v, 2))
        } else if b.len() - i > 5 && b[i + 1] == 117 {
            assert(s[1] == b@[i + 1]);
            let r = read_unicode_escape(b, i);
            proof {
                if r is Some {
                    let step = (r->0).1;
                    assert(s.skip(step as int) =~= b@.skip(i + step));
                }
            }
            r
        } else {
            proof {
                if i + 1 < b.len() {
                    assert(s[1] == b@[i + 1]);
                }
            }
            None
        }
    } else if c < 32 {
        None
    } else {
        assert(s.skip(1) =~= b@.skip(i + 1));
        let mut v: Vec<u8> = Vec::new();
        v.push(c);
        assert(v@ =~= seq![c]);
        Some((v, 1))
    }
}

/// Reads the JSON string whose opening quote stands at `pos`.
fn read_string(b: &[u8], pos: usize) -> (r: Option<(Vec<u8>, usize)>)
    ensures
        match r {
            Some((v, e)) => string_at(b@, pos as int) == Some((v@, e as int)),
            None => string_at(b@, pos as int) is None,
        },
{
    if pos >= b.len() || b[pos] != 34 {
        return None;
    }
    let start: usize = pos + 1;
    let mut i: usize = start;
    let mut out: Vec<u8> = Vec::new();
    while i < b.len()
        invariant
            start <= i <= b.len(),
            start == pos + 1,
            pos < b.len(),
            b@[pos as int] == 34,
            scan_string(b@.skip(start as int)) == prepend(out@, i - start, scan_string(b@.skip(i as int))),
        decreases b.len() - i,
    {
        if b[i] == 34 {
            proof {
                reveal(scan_string);
                assert(b@.skip(i as int)[0] == b@[i as int]);
                assert(out@ + Seq::<u8>::empty() =~= out@);
            }
            return Some((out, i + 1));
        }
        let (x, step) = match read_unit(b, i) {
            Some(u) => u,
            None => return None,
        };
        proof {
            let r = scan_string(b@.skip(i + step));
            if r is Some {
                assert(out@ + (x@ + (r->0).0) =~= (out@ + x@) + (r->0).0);
            }
        }
        push_all(&mut out, x.as_slice());
        i = i + step;
    }
    proof {
        reveal(scan_string);
        assert(b@.skip(i as int).len() == 0);
    }
    None
}

// ---- reading integers back ----

/// How many digits stand at the front of `b`.
pub open spec fn digit_run(b: Seq<u8>) -> nat
    decreases b.len(),
{
    if b.len() > 0 && is_digit(b[0]) {
        1 + digit_run(b.skip(1))
    } else {
        0
    }
}

/// The number that a run of decimal digits denotes.
pub open spec fn digits_value(d: Seq<u8>) -> nat
    decreases d.len(),
{
    if d.len() == 0 {
        0
    } else {
        digits_value(d.drop_last()) * 10 + (if d.last() >= 48 { (d.last() - 48) as nat } else { 0 })
    }
}

pub const TWO_POW_63: u64 = 9223372036854775808;

/// The integer starting at `pos`: an optional minus sign and a run of digits,
/// and the position after it.
pub open spec fn int_at(b: Seq<u8>, pos: int) -> Option<(i64, int)> {
    let neg = 0 <= pos < b.len() && b[pos] == 45;
    let s = if neg { pos + 1 } else { pos };
    let k = digit_run(b.skip(s));
    let v = digits_value(b.subrange(s, s + k));
    if !(0 <= pos <= b.len()) || k == 0 {
        None
    } else if neg {
        if v <= TWO_POW_63 { Some(((-(v as int)) as i64, s + k)) } else { None }
    } else if v < TWO_POW_63 {
        Some((v as i64, s + k))
    } else {
        None
    }
}

proof fn lemma_digits(m: nat)
    ensures
        digits(m).len() > 0,
        forall|i: int| 0 <= i < digits(m).len() ==> is_digit(#[trigger] digits(m)[i]),
        digits_value(digits(m)) == m,
    decreases m,
{
    let d = digits(m);
    if m >= 10 {
        lemma_digits(m / 10);
        assert(d.drop_last() =~= digits(m / 10));
        assert(forall|i: int| 0 <= i < digits(m / 10).len() ==> d[i] == digits(m / 10)[i]);
        assert(d.last() == (48 + m % 10) as u8);
        assert(m == (m / 10) * 10 + m % 10);
        assert(digits_value(d) == digits_value(d.drop_last()) * 10 + m % 10);
    } else {
        assert(d.drop_last() =~= Seq::<u8>::empty());
        assert(d.last() == (48 + m) as u8);
        assert(digits_value(d) == digits_value(d.drop_last()) * 10 + m);
    }
}

proof fn lemma_digit_run(d: Seq<u8>, rest: Seq<u8>)
    requires
        forall|i: int| 0 <= i < d.len() ==> is_digit(#[trigger] d[i]),
        rest.len() == 0 || !is_digit(rest[0]),
    ensures
        digit_run(d + rest) == d.len(),
    decreases d.len(),
{
    if d.len() == 0 {
        assert(d + rest =~= rest);
    } else {
        let t = d.drop_first();
        assert((d + rest).skip(1) =~= t + rest);
        assert((d + rest)[0] == d[0]);
        assert(forall|i: int| 0 <= i < t.len() ==> t[i] == d[i + 1]);
        lemma_digit_run(t, rest);
    }
}

proof fn lemma_digits_value_prefix(d: Seq<u8>, j: int)
    requires
        0 <= j <= d.len(),
    ensures
        digits_value(d.take(j)) <= digits_value(d),
    decreases d.len(),
{
    if j < d.len() {
        lemma_digits_value_prefix(d.drop_last(), j);
        assert(d.drop_last().take(j) =~= d.take(j));
    } else {
        assert(d.take(j) =~= d);
    }
}

proof fn lemma_digit_run_len(b: Seq<u8>)
    ensures
        digit_run(b) <= b.len(),
    decreases b.len(),
{
    if b.len() > 0 {
        lemma_digit_run_len(b.skip(1));
    }
}

proof fn lemma_digit_run_bound(b: Seq<u8>, j: int)
    requires
        0 <= j <= b.len(),
        forall|i: int| 0 <= i < j ==> is_digit(#[trigger] b[i]),
    ensures
        digit_run(b) >= j,
        j == b.len() || !is_digit(b[j]) ==> digit_run(b) == j,
    decreases j,
{
    if j > 0 {
        let t = b.skip(1);
        assert(forall|i: int| 0 <= i < j - 1 ==> t[i] == b[i + 1]);
        lemma_digit_run_bound(t, j - 1);
        if j < b.len() {
            assert(t[j - 1] == b[j]);
        }
    }
}

proof fn lemma_int_at(b: Seq<u8>, pos: int, n: i64, rest: Seq<u8>)
    requires
        0 <= pos <= b.len(),
        b.skip(pos) == json_int(n) + rest,
        rest.len() == 0 || !is_digit(rest[0]),
    ensures
        int_at(b, pos) == Some((n, pos + json_int(n).len() as int)),
{
    let m: nat = if n < 0 { (-(n as int)) as nat } else { n as nat };
    lemma_digits(m);
    let d = digits(m);
    if n < 0 {
        assert(json_int(n) + rest =~= seq![45u8] + (d + rest));
        assert(b[pos] == b.skip(pos)[0]);
        assert(b.skip(pos + 1) =~= b.skip(pos).skip(1));
        assert(b.skip(pos + 1) =~= d + rest);
    } else {
        assert(b.skip(pos) =~= d + rest);
        assert(b.skip(pos)[0] == d[0]);
        assert(b[pos] == b.skip(pos)[0]);
    }
    let s = if n < 0 { pos + 1 } else { pos };
    lemma_digit_run(d, rest);
    assert(b.subrange(s, s + d.len()) =~= d) by {
        assert(forall|i: int| 0 <= i < d.len() ==> b.skip(s)[i] == b[s + i]);
        assert(forall|i: int| 0 <= i < d.len() ==> (d + rest)[i] == d[i]);
    }
}

fn is_digit_exec(c: u8) -> (r: bool)
    ensures
        r == is_digit(c),
{
    48 <= c && c <= 57
}

/// Reads the integer starting at `pos`.
fn read_int(b: &[u8], pos: usize) -> (r: Option<(i64, usize)>)
    requires
        pos <= b.len(),
    ensures
        match r {
            Some((n, e)) => int_at(b@, pos as int) == Some((n, e as int)),
            None => int_at(b@, pos as int) is None,
        },
{
    let neg = pos < b.len() && b[pos] == 45;
    let start: usize = if neg { pos + 1 } else { pos };
    let mut i: usize = start;
    let mut v: u64 = 0;
    assert(b@.subrange(start as int, start as int) =~= Seq::<u8>::empty());
    while i < b.len() && is_digit_exec(b[i])
        invariant
            pos <= b.len(),
            neg == (pos < b.len() && b@[pos as int] == 45),
            start == (if neg { pos + 1 } else { pos as int }),
            start <= i <= b.len(),
            forall|k: int| start <= k < i ==> is_digit(#[trigger] b@[k]),
            v == digits_value(b@.subrange(start as int, i as int)),
            v <= TWO_POW_63,
        decreases b.len() - i,
    {
        let d: u64 = (b[i] - 48) as u64;
        let ghost prev = b@.subrange(start as int, i as int);
        let ghost next = b@.subrange(start as int, i + 1);
        assert(next.drop_last() =~= prev);
        if v > (TWO_POW_63 - d) / 10 {
            proof {
                let tail = b@.skip(start as int);
                assert(forall|k: int| 0 <= k < i + 1 - start ==> tail[k] == b@[start + k]);
                lemma_digit_run_bound(tail, i + 1 - start);
                lemma_digit_run_len(tail);
                let run = digit_run(tail);
                let whole = b@.subrange(start as int, start + run);
                lemma_digits_value_prefix(whole, i + 1 - start);
                assert(whole.take(i + 1 - start) =~= next);
                assert(digits_value(next) == v * 10 + d);
                assert(v * 10 + d > TWO_POW_63) by (nonlinear_arith)
                    requires v > (TWO_POW_63 - d) / 10, d <= 9;
                assert(digits_value(whole) > TWO_POW_63);
            }
            return None;
        }
        assert(v * 10 + d <= TWO_POW_63) by (nonlinear_arith)
            requires v <= (TWO_POW_63 - d) / 10, d <= 9;
        v = v * 10 + d;
        i = i + 1;
    }
    proof {
        let tail = b@.skip(start as int);
        assert(forall|k: int| 0 <= k < i - start ==> tail[k] == b@[start + k]);
        if i < b.len() {
            assert(tail[i - start] == b@[i as int]);
        }
        lemma_digit_run_bound(tail, i - start);
    }
    if i == start {
        return None;
    }
    if neg {
        let n: i64 = if v == TWO_POW_63 { i64::MIN } else { -(v as i64) };
        Some((n, i))
    } else if v < TWO_POW_63 {
        Some((v as i64, i))
    } else {
        None
    }
}


// ---- fixed text ----

fn lit_bytes(j: usize) -> (r: Vec<u8>)
    requires
        j < 7,
    ensures
        r@ == lit(j as int),
{
    let v: Vec<u8> = if j == 0 {
        vec![123u8, 34, 115, 117, 98, 34, 58]
    } else if j == 1 {
        vec![44u8, 34, 101, 109, 97, 105, 108, 34, 58]
    } else if j == 2 {
        vec![44u8, 34, 114, 111, 108, 101, 34, 58]
    } else if j == 3 {
        vec![44u8, 34, 101, 120, 112, 34, 58]
    } else if j == 4 {
        vec![44u8, 34, 105, 97, 116, 34, 58]
    } else if j == 5 {
        vec![44u8, 34, 116, 111, 107, 101, 110, 95, 116, 121, 112, 101, 34, 58]
    } else {
        vec![125u8]
    };
    assert(v@ =~= lit(j as int));
    v
}

fn kind_name_bytes(k: TokenKind) -> (r: Vec<u8>)
    ensures
        r@ == kind_name(k),
{
    let v: Vec<u8> = match k {
        TokenKind::Access => vec![97u8, 99, 99, 101, 115, 115],
        TokenKind::Refresh => vec![114u8, 101, 102, 114, 101, 115, 104],
    };
    assert(v@ =~= kind_name(k));
    v
}


// ---- writing ----

proof fn lemma_escape_concat(a: Seq<u8>, b: Seq<u8>)
    ensures
        escape(a + b) == escape(a) + escape(b),
    decreases a.len(),
{
    if a.len() == 0 {
        assert(a + b =~= b);
        assert(escape(a) + escape(b) =~= escape(b));
    } else {
        assert((a + b).drop_first() =~= a.drop_first() + b);
        assert((a + b)[0] == a[0]);
        lemma_escape_concat(a.drop_first(), b);
        assert(escape(a + b) =~= escape(a) + escape(b));
    }
}

proof fn lemma_escape_one(x: u8)
    ensures
        escape(seq![x]) == escape_byte(x),
{
    assert(seq![x].drop_first() =~= Seq::<u8>::empty());
    assert(seq![x][0] == x);
    assert(escape(Seq::<u8>::empty()) == Seq::<u8>::empty());
    assert(escape_byte(x) + Seq::<u8>::empty() =~= escape_byte(x));
}

fn hex_char(n: u8) -> (r: u8)
    requires
        n < 16,
    ensures
        r == hex_digit(n),
{
    if n < 10 { 48 + n } else { 87 + n }
}

fn push_all(out: &mut Vec<u8>, s: &[u8])
    ensures
        final(out)@ == old(out)@ + s@,
{
    let mut i: usize = 0;
    while i < s.len()
        invariant
            i <= s.len(),
            out@ == old(out)@ + s@.take(i as int),
        decreases s.len() - i,
    {
        assert(s@.take(i + 1) =~= s@.take(i as int).push(s@[i as int]));
        out.push(s[i]);
        i = i + 1;
    }
    assert(s@.take(i as int) =~= s@);
}

/// Appends the JSON string holding the bytes `s`.
fn push_string(out: &mut Vec<u8>, s: &[u8])
    ensures
        final(out)@ == old(out)@ + json_string(s@),
{
    out.push(34);
    let ghost base = out@;
    let mut i: usize = 0;
    assert(s@.take(0) =~= Seq::<u8>::empty());
    while i < s.len()
        invariant
            i <= s.len(),
            out@ == base + escape(s@.take(i as int)),
        decreases s.len() - i,
    {
        let x = s[i];
        proof {
            assert(s@.take(i + 1) =~= s@.take(i as int) + seq![x]);
            lemma_escape_concat(s@.take(i as int), seq![x]);
            lemma_escape_one(x);
        }
        let ghost before = out@;
        let short = short_escape_exec(x);
        if short.is_some() {
            out.push(92);
            out.push(short.unwrap());
            assert(out@ =~= before + escape_byte(x));
        } else if x < 32 {
            out.push(92);
            out.push(117);
            out.push(48);
            out.push(48);
            out.push(hex_char(x / 16));
            out.push(hex_char(x % 16));
            assert(out@ =~= before + escape_byte(x));
        } else {
            out.push(x);
            assert(out@ =~= before + escape_byte(x));
        }
        i = i + 1;
    }
    assert(s@.take(i as int) =~= s@);
    out.push(34);
    assert(out@ =~= old(out)@ + json_string(s@));
}

fn push_digits(out: &mut Vec<u8>, m: u64)
    ensures
        final(out)@ == old(out)@ + digits(m as nat),
    decreases m,
{
    if m >= 10 {
        push_digits(out, m / 10);
    }
    let d: u8 = (m % 10) as u8;
    out.push(48 + d);
    if m >= 10 {
        assert(out@ =~= old(out)@ + digits(m as nat));
    } else {
        assert(out@ =~= old(out)@ + digits(m as nat));
    }
}

/// Appends the JSON integer `n`.
fn push_int(out: &mut Vec<u8>, n: i64)
    ensures
        final(out)@ == old(out)@ + json_int(n),
{
    if n < 0 {
        out.push(45);
        let m: u64 = if n == i64::MIN { TWO_POW_63 } else { (-n) as u64 };
        let ghost mid = out@;
        push_digits(out, m);
        assert(out@ =~= old(out)@ + json_int(n));
    } else {
        push_digits(out, n as u64);
    }
}

proof fn lemma_tail_step(a: Seq<u8>, c: ClaimsView, k: nat)
    requires
        k < 13,
        a + tail(c, k) == payload_of(c),
    ensures
        (a + piece(c, k as int)) + tail(c, k + 1) == payload_of(c),
{
    assert((a + piece(c, k as int)) + tail(c, k + 1) =~= a + (piece(c, k as int) + tail(c, k + 1)));
}

/// The canonical serialization of `c`.
pub fn write_payload(c: &Claims) -> (r: Vec<u8>)
    ensures
        r@ == payload_of(c@),
{
    let ghost v = c@;
    let mut out: Vec<u8> = Vec::new();
    proof {
        reveal(payload_of);
        assert(out@ + tail(v, 0) =~= payload_of(v));
    }
    let l0 = lit_bytes(0);
    push_all(&mut out, l0.as_slice());
    proof { lemma_tail_step(Seq::empty(), v, 0); }
    let ghost o1 = out@;
    push_string(&mut out, c.sub.as_str().as_bytes());
    proof { lemma_tail_step(o1, v, 1); }
    let ghost o2 = out@;
    let l1 = lit_bytes(1);
    push_all(&mut out, l1.as_slice());
    proof { lemma_tail_step(o2, v, 2); }
    let ghost o3 = out@;
    push_string(&mut out, c.email.as_str().as_bytes());
    proof { lemma_tail_step(o3, v, 3); }
    let ghost o4 = out@;
    let l2 = lit_bytes(2);
    push_all(&mut out, l2.as_slice());
    proof { lemma_tail_step(o4, v, 4); }
    let ghost o5 = out@;
    push_string(&mut out, c.role.as_str().as_bytes());
    proof { lemma_tail_step(o5, v, 5); }
    let ghost o6 = out@;
    let l3 = lit_bytes(3);
    push_all(&mut out, l3.as_slice());
    proof { lemma_tail_step(o6, v, 6); }
    let ghost o7 = out@;
    push_int(&mut out, c.exp);
    proof { lemma_tail_step(o7, v, 7); }
    let ghost o8 = out@;
    let l4 = lit_bytes(4);
    push_all(&mut out, l4.as_slice());
    proof { lemma_tail_step(o8, v, 8); }
    let ghost o9 = out@;
    push_int(&mut out, c.iat);
    proof { lemma_tail_step(o9, v, 9); }
    let ghost o10 = out@;
    let l5 = lit_bytes(5);
    push_all(&mut out, l5.as_slice());
    proof { lemma_tail_step(o10, v, 10); }
    let ghost o11 = out@;
    let kn = kind_name_bytes(c.token_type);
    push_string(&mut out, kn.as_slice());
    proof { lemma_tail_step(o11, v, 11); }
    let ghost o12 = out@;
    let l6 = lit_bytes(6);
    push_all(&mut out, l6.as_slice());
    proof {
        lemma_tail_step(o12, v, 12);
        assert(out@ + tail(v, 13) =~= out@);
    }
    out
}


// ---- reading the claim set back ----

spec fn lit_at(b: Seq<u8>, pos: int, l: Seq<u8>) -> Option<int> {
    if 0 <= pos && pos + l.len() <= b.len() && b.subrange(pos, pos + l.len()) == l {
        Some(pos + l.len())
    } else {
        None
    }
}

/// The raw fields of a payload: the bytes of `sub`, `email`, `role`, the two
/// instants, and the bytes of `token_type`.
pub type RawFields = (Seq<u8>, Seq<u8>, Seq<u8>, i64, i64, Seq<u8>);

spec fn fields_of(b: Seq<u8>) -> Option<RawFields> {
    match lit_at(b, 0, lit(0)) {
        None => None,
        Some(at1) => match string_at(b, at1) {
            None => None,
            Some((sub, at2)) => match lit_at(b, at2, lit(1)) {
                None => None,
                Some(at3) => match string_at(b, at3) {
                    None => None,
                    Some((email, at4)) => match lit_at(b, at4, lit(2)) {
                        None => None,
                        Some(at5) => match string_at(b, at5) {
                            None => None,
                            Some((role, at6)) => match lit_at(b, at6, lit(3)) {
                                None => None,
                                Some(at7) => match int_at(b, at7) {
                                    None => None,
                                    Some((exp, at8)) => match lit_at(b, at8, lit(4)) {
                                        None => None,
                                        Some(at9) => match int_at(b, at9) {
                                            None => None,
                                            Some((iat, at10)) => match lit_at(b, at10, lit(5)) {
                                                None => None,
                                                Some(at11) => match string_at(b, at11) {
                                                    None => None,
                                                    Some((kind, at12)) => match lit_at(b, at12, lit(6)) {
                                                        None => None,
                                                        Some(at13) => if at13 == b.len() {
                                                            Some((sub, email, role, exp, iat, kind))
                                                        } else {
                                                            None
                                                        },
                                                    },
                                                },
                                            },
                                        },
                                    },
                                },
                            },
                        },
                    },
                },
            },
        },
    }
}

spec fn raw_fields(c: ClaimsView) -> RawFields {
    (encode_utf8(c.sub), encode_utf8(c.email), encode_utf8(c.role), c.exp, c.iat, kind_name(c.kind))
}

proof fn lemma_advance(b: Seq<u8>, pos: int, c: ClaimsView, k: nat)
    requires
        0 <= pos <= b.len(),
        k < 13,
        b.skip(pos) == tail(c, k),
    ensures
        pos + piece(c, k as int).len() <= b.len(),
        b.skip(pos + piece(c, k as int).len()) == tail(c, k + 1),
        b.subrange(pos, pos + piece(c, k as int).len()) == piece(c, k as int),
        b.skip(pos) == piece(c, k as int) + tail(c, k + 1),
{
    let pc = piece(c, k as int);
    let t = tail(c, k + 1);
    assert(b.skip(pos) == pc + t);
    assert(b.skip(pos).len() == b.len() - pos);
    assert(b.skip(pos + pc.len()) =~= t) by {
        assert(forall|i: int| 0 <= i < t.len() ==> b.skip(pos)[pc.len() + i] == t[i]);
    }
    assert(b.subrange(pos, pos + pc.len()) =~= pc) by {
        assert(forall|i: int| 0 <= i < pc.len() ==> b.skip(pos)[i] == pc[i]);
    }
}

proof fn lemma_lit_step(b: Seq<u8>, pos: int, c: ClaimsView, j: int)
    requires
        0 <= pos <= b.len(),
        0 <= j < 7,
        b.skip(pos) == tail(c, (2 * j) as nat),
    ensures
        lit_at(b, pos, lit(j)) == Some(pos + lit(j).len()),
        b.skip(pos + lit(j).len()) == tail(c, (2 * j + 1) as nat),
{
    lemma_advance(b, pos, c, (2 * j) as nat);
}

proof fn lemma_string_step(b: Seq<u8>, pos: int, c: ClaimsView, k: nat)
    requires
        0 <= pos <= b.len(),
        k == 1 || k == 3 || k == 5 || k == 11,
        b.skip(pos) == tail(c, k),
    ensures
        string_at(b, pos) == Some((
            if k == 1 { encode_utf8(c.sub) } else if k == 3 { encode_utf8(c.email) }
            else if k == 5 { encode_utf8(c.role) } else { kind_name(c.kind) },
            pos + piece(c, k as int).len(),
        )),
        b.skip(pos + piece(c, k as int).len()) == tail(c, k + 1),
{
    lemma_advance(b, pos, c, k);
    let x = if k == 1 { encode_utf8(c.sub) } else if k == 3 { encode_utf8(c.email) }
        else if k == 5 { encode_utf8(c.role) } else { kind_name(c.kind) };
    lemma_string_at(b, pos, x, tail(c, k + 1));
}

proof fn lemma_int_step(b: Seq<u8>, pos: int, c: ClaimsView, k: nat)
    requires
        0 <= pos <= b.len(),
        k == 7 || k == 9,
        b.skip(pos) == tail(c, k),
    ensures
        int_at(b, pos) == Some((if k == 7 { c.exp } else { c.iat }, pos + piece(c, k as int).len())),
        b.skip(pos + piece(c, k as int).len()) == tail(c, k + 1),
{
    lemma_advance(b, pos, c, k);
    let t = tail(c, k + 1);
    assert(t == lit(((k + 1) / 2) as int) + tail(c, k + 2));
    assert(t[0] == 44);
    lemma_int_at(b, pos, if k == 7 { c.exp } else { c.iat }, t);
}

#[verifier::rlimit(100)]
proof fn lemma_fields_of_payload(c: ClaimsView)
    ensures
        fields_of(payload_of(c)) == Some(raw_fields(c)),
{
    let b = payload_of(c);
    reveal(payload_of);
    assert(b.skip(0) =~= tail(c, 0));
    let q1 = lit(0).len() as int;
    lemma_lit_step(b, 0, c, 0);
    lemma_string_step(b, q1, c, 1);
    let q2 = q1 + piece(c, 1).len();
    lemma_lit_step(b, q2, c, 1);
    let q3 = q2 + lit(1).len();
    lemma_string_step(b, q3, c, 3);
    let q4 = q3 + piece(c, 3).len();
    lemma_lit_step(b, q4, c, 2);
    let q5 = q4 + lit(2).len();
    lemma_string_step(b, q5, c, 5);
    let q6 = q5 + piece(c, 5).len();
    lemma_lit_step(b, q6, c, 3);
    let q7 = q6 + lit(3).len();
    lemma_int_step(b, q7, c, 7);
    let q8 = q7 + piece(c, 7).len();
    lemma_lit_step(b, q8, c, 4);
    let q9 = q8 + lit(4).len();
    lemma_int_step(b, q9, c, 9);
    let q10 = q9 + piece(c, 9).len();
    lemma_lit_step(b, q10, c, 5);
    let q11 = q10 + lit(5).len();
    lemma_string_step(b, q11, c, 11);
    let q12 = q11 + piece(c, 11).len();
    lemma_lit_step(b, q12, c, 6);
    let q13 = q12 + lit(6).len();
    assert(b.skip(q13).len() == 0);
}

fn expect_lit(b: &[u8], pos: usize, j: usize) -> (r: Option<usize>)
    requires
        j < 7,
    ensures
        match r {
            Some(e) => lit_at(b@, pos as int, lit(j as int)) == Some(e as int),
            None => lit_at(b@, pos as int, lit(j as int)) is None,
        },
{
    let l = lit_bytes(j);
    if pos > b.len() || b.len() - pos < l.len() {
        return None;
    }
    let mut i: usize = 0;
    while i < l.len()
        invariant
            pos as int + l@.len() <= b@.len(),
            l@ == lit(j as int),
            i <= l@.len(),
            forall|k: int| 0 <= k < i ==> b@[pos + k] == l@[k],
        decreases l.len() - i,
    {
        assert(pos + i < b.len());
        if b[pos + i] != l[i] {
            assert(b@.subrange(pos as int, pos + l@.len())[i as int] != l@[i as int]);
            return None;
        }
        i = i + 1;
    }
    assert(b@.subrange(pos as int, pos + l@.len()) =~= l@);
    Some(pos + l.len())
}

fn parse_fields(b: &[u8]) -> (r: Option<(Vec<u8>, Vec<u8>, Vec<u8>, i64, i64, Vec<u8>)>)
    ensures
        match r {
            Some((s, e, ro, x, i, k)) => fields_of(b@) == Some((s@, e@, ro@, x, i, k@)),
            None => fields_of(b@) is None,
        },
{
    let at1 = match expect_lit(b, 0, 0) { Some(p) => p, None => return None };
    let (sub, at2) = match read_string(b, at1) { Some(x) => x, None => return None };
    let at3 = match expect_lit(b, at2, 1) { Some(p) => p, None => return None };
    let (email, at4) = match read_string(b, at3) { Some(x) => x, None => return None };
    let at5 = match expect_lit(b, at4, 2) { Some(p) => p, None => return None };
    let (role, at6) = match read_string(b, at5) { Some(x) => x, None => return None };
    let at7 = match expect_lit(b, at6, 3) { Some(p) => p, None => return None };
    let (exp, at8) = match read_int(b, at7) { Some(x) => x, None => return None };
    let at9 = match expect_lit(b, at8, 4) { Some(p) => p, None => return None };
    let (iat, at10) = match read_int(b, at9) { Some(x) => x, None => return None };
    let at11 = match expect_lit(b, at10, 5) { Some(p) => p, None => return None };
    let (kind, at12) = match read_string(b, at11) { Some(x) => x, None => return None };
    let at13 = match expect_lit(b, at12, 6) { Some(p) => p, None => return None };
    if at13 != b.len() {
        return None;
    }
    Some((sub, email, role, exp, iat, kind))
}

/// Relies on `String::from_utf8`: it succeeds exactly on valid UTF-8, and the
/// string then holds the characters that the bytes encode.
#[verifier::external_body]
fn utf8_string(v: Vec<u8>) -> (r: Option<String>)
    ensures
        r is Some <==> valid_utf8(v@),
        r matches Some(s) ==> s@ == decode_utf8(v@),
{
    String::from_utf8(v).ok()
}

fn same_bytes(a: &[u8], b: &[u8]) -> (r: bool)
    ensures
        r == (a@ == b@),
{
    if a.len() != b.len() {
        return false;
    }
    let mut i: usize = 0;
    while i < a.len()
        invariant
            a@.len() == b@.len(),
            i <= a@.len(),
            forall|k: int| 0 <= k < i ==> a@[k] == b@[k],
        decreases a.len() - i,
    {
        if a[i] != b[i] {
            return false;
        }
        i = i + 1;
    }
    assert(a@ =~= b@);
    true
}

fn kind_of_name(n: &[u8]) -> (r: Option<TokenKind>)
    ensures
        match r {
            Some(k) => kind_name(k) == n@,
            None => forall|k: TokenKind| kind_name(k) != n@,
        },
{
    let a = kind_name_bytes(TokenKind::Access);
    let f = kind_name_bytes(TokenKind::Refresh);
    if same_bytes(n, a.as_slice()) {
        Some(TokenKind::Access)
    } else if same_bytes(n, f.as_slice()) {
        Some(TokenKind::Refresh)
    } else {
        proof {
            assert forall|k: TokenKind| kind_name(k) != n@ by {
                match k {
                    TokenKind::Access => {},
                    TokenKind::Refresh => {},
                }
            }
        }
        None
    }
}

proof fn lemma_payload_facts(b: Seq<u8>, d: ClaimsView)
    requires
        payload_of(d) == b,
    ensures
        fields_of(b) == Some(raw_fields(d)),
        valid_utf8(encode_utf8(d.sub)),
        valid_utf8(encode_utf8(d.email)),
        valid_utf8(encode_utf8(d.role)),
        decode_utf8(encode_utf8(d.sub)) == d.sub,
        decode_utf8(encode_utf8(d.email)) == d.email,
        decode_utf8(encode_utf8(d.role)) == d.role,
{
    lemma_fields_of_payload(d);
    vstd::utf8::encode_utf8_valid_utf8(d.sub);
    vstd::utf8::encode_utf8_valid_utf8(d.email);
    vstd::utf8::encode_utf8_valid_utf8(d.role);
    vstd::utf8::encode_utf8_decode_utf8(d.sub);
    vstd::utf8::encode_utf8_decode_utf8(d.email);
    vstd::utf8::encode_utf8_decode_utf8(d.role);
}

/// Reads a claim set back from its serialization. Exactly the canonical
/// serializations are accepted, each giving back the claim set it came from.
#[verifier::rlimit(60)]
pub fn parse_payload(b: &[u8]) -> (r: Option<Claims>)
    ensures
        r matches Some(c) ==> payload_of(c@) == b@,
        forall|c: ClaimsView| #[trigger] payload_of(c) == b@ ==> (r matches Some(x) && x@ == c),
{
    let (sub, email, role, exp, iat, kind) = match parse_fields(b) {
        Some(f) => f,
        None => {
            proof {
                assert forall|d: ClaimsView| #[trigger] payload_of(d) == b@ implies false by {
                    lemma_payload_facts(b@, d);
                }
            }
            return None;
        },
    };
    let ghost raw = (sub@, email@, role@, exp, iat, kind@);
    let token_type = match kind_of_name(kind.as_slice()) {
        Some(k) => k,
        None => {
            proof {
                assert forall|d: ClaimsView| #[trigger] payload_of(d) == b@ implies false by {
                    lemma_payload_facts(b@, d);
                    assert(kind_name(d.kind) == kind@);
                }
            }
            return None;
        },
    };
    let ghost sub_b = sub@;
    let ghost email_b = email@;
    let ghost role_b = role@;
    let sub = match utf8_string(sub) {
        Some(s) => s,
        None => {
            proof {
                assert forall|d: ClaimsView| #[trigger] payload_of(d) == b@ implies false by {
                    lemma_payload_facts(b@, d);
                }
            }
            return None;
        },
    };
    let email = match utf8_string(email) {
        Some(s) => s,
        None => {
            proof {
                assert forall|d: ClaimsView| #[trigger] payload_of(d) == b@ implies false by {
                    lemma_payload_facts(b@, d);
                }
            }
            return None;
        },
    };
    let role = match utf8_string(role) {
        Some(s) => s,
        None => {
            proof {
                assert forall|d: ClaimsView| #[trigger] payload_of(d) == b@ implies false by {
                    lemma_payload_facts(b@, d);
                }
            }
            return None;
        },
    };
    let c = Claims { sub, email, role, exp, iat, token_type };
    proof {
        assert forall|d: ClaimsView| #[trigger] payload_of(d) == b@ implies c@ == d by {
            lemma_payload_facts(b@, d);
            assert(raw == raw_fields(d));
            match d.kind {
                TokenKind::Access => {},
                TokenKind::Refresh => {},
            }
            match c.token_type {
                TokenKind::Access => {},
                TokenKind::Refresh => {},
            }
        }
    }
    let again = write_payload(&c);
    if !same_bytes(again.as_slice(), b) {
        return None;
    }
    Some(c)
}


/// Distinct claim sets have distinct serializations.
#[verifier::rlimit(60)]
pub proof fn lemma_payload_injective(c1: ClaimsView, c2: ClaimsView)
    requires
        payload_of(c1) == payload_of(c2),
    ensures
        c1 == c2,
{
    lemma_payload_facts(payload_of(c1), c1);
    lemma_payload_facts(payload_of(c1), c2);
    match c1.kind {
        TokenKind::Access => {},
        TokenKind::Refresh => {},
    }
    match c2.kind {
        TokenKind::Access => {},
        TokenKind::Refresh => {},
    }
}


// ---- the general object form ----

/// The fields that a JSON object read in the general form provides.
pub ghost struct Fields {
    pub sub: Option<Seq<u8>>,
    pub email: Option<Seq<u8>>,
    pub role: Option<Seq<u8>>,
    pub exp: Option<i64>,
    pub iat: Option<i64>,
    pub kind: Option<Seq<u8>>,
    pub alg: Option<Seq<u8>>,
}

pub open spec fn no_fields() -> Fields {
    Fields { sub: None, email: None, role: None, exp: None, iat: None, kind: None, alg: None }
}

pub open spec fn json_ws(c: u8) -> bool {
    c == 32 || c == 9 || c == 10 || c == 13
}

/// The name of the key read into slot `j`: `sub`, `email`, `role`, `exp`,
/// `iat`, `token_type`, `alg`.
pub open spec fn slot_name(j: int) -> Seq<u8> {
    if j == 6 {
        seq![97u8, 108, 103]
    } else {
        key(j).subrange(1, key(j).len() - 2)
    }
}

/// Which slot a key fills: for claims one of the first six, for a header only
/// `alg`; 7 for a key that is passed over.
pub open spec fn slot_of(k: Seq<u8>, claims: bool) -> int {
    if claims {
        if k == slot_name(0) { 0 }
        else if k == slot_name(1) { 1 }
        else if k == slot_name(2) { 2 }
        else if k == slot_name(3) { 3 }
        else if k == slot_name(4) { 4 }
        else if k == slot_name(5) { 5 }
        else { 7 }
    } else if k == slot_name(6) {
        6
    } else {
        7
    }
}

/// `f` with the text slot `s` filled with `v`; `None` when it was filled already.
pub open spec fn put_text(f: Fields, s: int, v: Seq<u8>) -> Option<Fields> {
    if s == 0 {
        if f.sub is Some { None } else { Some(Fields { sub: Some(v), ..f }) }
    } else if s == 1 {
        if f.email is Some { None } else { Some(Fields { email: Some(v), ..f }) }
    } else if s == 2 {
        if f.role is Some { None } else { Some(Fields { role: Some(v), ..f }) }
    } else if s == 5 {
        if f.kind is Some { None } else { Some(Fields { kind: Some(v), ..f }) }
    } else {
        if f.alg is Some { None } else { Some(Fields { alg: Some(v), ..f }) }
    }
}

/// `f` with the integer slot `s` filled with `n`; `None` when it was filled already.
pub open spec fn put_int(f: Fields, s: int, n: i64) -> Option<Fields> {
    if s == 3 {
        if f.exp is Some { None } else { Some(Fields { exp: Some(n), ..f }) }
    } else {
        if f.iat is Some { None } else { Some(Fields { iat: Some(n), ..f }) }
    }
}

pub open spec fn skip_ws(b: Seq<u8>, i: int) -> int
    decreases b.len() - i,
{
    if 0 <= i < b.len() && json_ws(b[i]) {
        skip_ws(b, i + 1)
    } else {
        i
    }
}

/// The value read into the slot, or passed over: the fields then, and where
/// the value ends.
pub open spec fn value_step(b: Seq<u8>, at: int, f: Fields, s: int) -> Option<(Fields, int)> {
    if s == 3 || s == 4 {
        match int_at(b, at) {
            Some((n, e)) => match put_int(f, s, n) {
                Some(g) => Some((g, e)),
                None => None,
            },
            None => None,
        }
    } else if s != 7 {
        match string_at(b, at) {
            Some((v, e)) => match put_text(f, s, v) {
                Some(g) => Some((g, e)),
                None => None,
            },
            None => None,
        }
    } else {
        match value_end(b, at, MAX_DEPTH as nat) {
            Some(e) => Some((f, e)),
            None => None,
        }
    }
}

/// How deeply arrays and objects may nest inside a passed-over member.
pub const MAX_DEPTH: usize = 128;

/// The end of the digit run at `i`.
pub open spec fn run_end(b: Seq<u8>, i: int) -> int {
    i + digit_run(b.skip(i))
}

/// The end of the JSON number at `at`: an optional minus, an integer part
/// without a leading zero, an optional fraction and an optional exponent.
pub open spec fn number_end(b: Seq<u8>, at: int) -> Option<int> {
    let p0 = if 0 <= at < b.len() && b[at] == 45 { at + 1 } else { at };
    let p1 = run_end(b, p0);
    if !(0 <= at <= b.len()) || p1 == p0 || (p1 > p0 + 1 && b[p0] == 48) {
        None
    } else {
        let frac_ok = !(p1 < b.len() && b[p1] == 46) || run_end(b, p1 + 1) > p1 + 1;
        let p2 = if p1 < b.len() && b[p1] == 46 { run_end(b, p1 + 1) } else { p1 };
        if !frac_ok {
            None
        } else if p2 < b.len() && (b[p2] == 101 || b[p2] == 69) {
            let q = if p2 + 1 < b.len() && (b[p2 + 1] == 43 || b[p2 + 1] == 45) { p2 + 2 } else { p2 + 1 };
            if run_end(b, q) > q { Some(run_end(b, q)) } else { None }
        } else {
            Some(p2)
        }
    }
}

/// The end of the JSON value at `at`, with arrays and objects nested at most
/// `d` deep.
pub open spec fn value_end(b: Seq<u8>, at: int, d: nat) -> Option<int>
    decreases d, b.len() - at, 0int,
{
    if !(0 <= at < b.len()) {
        None
    } else if b[at] == 34 {
        match string_at(b, at) {
            Some((v, e)) => Some(e),
            None => None,
        }
    } else if word_at(b, at) is Some {
        word_at(b, at)
    } else if b[at] == 91 || b[at] == 123 {
        let j = skip_ws(b, at + 1);
        let close: u8 = if b[at] == 91 { 93 } else { 125 };
        if d == 0 {
            None
        } else if 0 <= j < b.len() && b[j] == close {
            Some(j + 1)
        } else {
            items_end(b, at + 1, (d - 1) as nat, b[at] == 123)
        }
    } else {
        number_end(b, at)
    }
}

/// The end of the items of an array (or the members of an object) from `i`
/// on, through the closing bracket.
pub open spec fn items_end(b: Seq<u8>, i: int, d: nat, object: bool) -> Option<int>
    decreases d, b.len() - i, 1int,
{
    if !(0 <= i <= b.len()) {
        None
    } else {
        let j = skip_ws(b, i);
        let v = if object {
            match string_at(b, j) {
                Some((k, j2)) => {
                    let j3 = skip_ws(b, j2);
                    if 0 <= j3 < b.len() && b[j3] == 58 { skip_ws(b, j3 + 1) } else { -1 }
                },
                None => -1,
            }
        } else {
            j
        };
        if !(i <= v < b.len()) {
            None
        } else {
            match value_end(b, v, d) {
                None => None,
                Some(e) => {
                    let e2 = skip_ws(b, e);
                    let close: u8 = if object { 125 } else { 93 };
                    if 0 <= e2 < b.len() && b[e2] == 44 && i < e2 + 1 <= b.len() {
                        items_end(b, e2 + 1, d, object)
                    } else if 0 <= e2 < b.len() && b[e2] == close {
                        Some(e2 + 1)
                    } else {
                        None
                    }
                },
            }
        }
    }
}

/// The end of the word `true`, `false` or `null` starting at `at`.
pub open spec fn word_at(b: Seq<u8>, at: int) -> Option<int> {
    if 0 <= at && at + 4 <= b.len() && (b.subrange(at, at + 4) == seq![116u8, 114, 117, 101]
        || b.subrange(at, at + 4) == seq![110u8, 117, 108, 108]) {
        Some(at + 4)
    } else if 0 <= at && at + 5 <= b.len() && b.subrange(at, at + 5) == seq![102u8, 97, 108, 115, 101] {
        Some(at + 5)
    } else {
        None
    }
}

fn matches_at(b: &[u8], at: usize, w: &[u8]) -> (r: bool)
    ensures
        r == (at + w@.len() <= b@.len() && b@.subrange(at as int, at + w@.len()) == w@),
{
    if at > b.len() || b.len() - at < w.len() {
        return false;
    }
    let mut i: usize = 0;
    while i < w.len()
        invariant
            at as int + w@.len() <= b@.len(),
            i <= w@.len(),
            forall|k: int| 0 <= k < i ==> b@[at + k] == w@[k],
        decreases w.len() - i,
    {
        assert(at + i < b.len());
        if b[at + i] != w[i] {
            assert(b@.subrange(at as int, at + w@.len())[i as int] != w@[i as int]);
            return false;
        }
        i = i + 1;
    }
    assert(b@.subrange(at as int, at + w@.len()) =~= w@);
    true
}

fn word_at_exec(b: &[u8], at: usize) -> (r: Option<usize>)
    ensures
        match r {
            Some(e) => word_at(b@, at as int) == Some(e as int),
            None => word_at(b@, at as int) is None,
        },
{
    let t: Vec<u8> = vec![116u8, 114, 117, 101];
    let n: Vec<u8> = vec![110u8, 117, 108, 108];
    let f: Vec<u8> = vec![102u8, 97, 108, 115, 101];
    assert(t@ =~= seq![116u8, 114, 117, 101]);
    assert(n@ =~= seq![110u8, 117, 108, 108]);
    assert(f@ =~= seq![102u8, 97, 108, 115, 101]);
    let len = b.len();
    if matches_at(b, at, t.as_slice()) || matches_at(b, at, n.as_slice()) {
        assert(at + 4 <= len);
        Some(at + 4)
    } else if matches_at(b, at, f.as_slice()) {
        assert(at + 5 <= len);
        Some(at + 5)
    } else {
        None
    }
}

/// One member at `i` and the separator after it: the fields then, where the
/// next member starts, and whether the object ended.
pub open spec fn member_step(b: Seq<u8>, i: int, f: Fields, claims: bool) -> Option<(Fields, int, bool)> {
    let j = skip_ws(b, i);
    match string_at(b, j) {
        None => None,
        Some((k, j2)) => {
            let j3 = skip_ws(b, j2);
            if !(0 <= j3 < b.len() && b[j3] == 58) {
                None
            } else {
                match value_step(b, skip_ws(b, j3 + 1), f, slot_of(k, claims)) {
                    None => None,
                    Some((g, e)) => {
                        let e2 = skip_ws(b, e);
                        if 0 <= e2 < b.len() && b[e2] == 44 {
                            Some((g, e2 + 1, false))
                        } else if 0 <= e2 < b.len() && b[e2] == 125 {
                            Some((g, e2 + 1, true))
                        } else {
                            None
                        }
                    },
                }
            }
        },
    }
}

pub open spec fn members(b: Seq<u8>, i: int, f: Fields, claims: bool) -> Option<(Fields, int)>
    decreases b.len() - i,
{
    match member_step(b, i, f, claims) {
        None => None,
        Some((g, n, done)) => if done {
            Some((g, n))
        } else if n <= i || n > b.len() {
            None
        } else {
            members(b, n, g, claims)
        },
    }
}

/// The fields of a JSON object, read with
/// white space allowed between tokens and members in any order.
pub open spec fn object_fields(b: Seq<u8>, claims: bool) -> Option<Fields> {
    let i = skip_ws(b, 0);
    if 0 <= i < b.len() && b[i] == 123 {
        match members(b, i + 1, no_fields(), claims) {
            Some((f, e)) => if skip_ws(b, e) == b.len() { Some(f) } else { None },
            None => None,
        }
    } else {
        None
    }
}

/// A header object whose `alg` member is `"HS256"`.
pub open spec fn header_json_ok(b: Seq<u8>) -> bool {
    object_fields(b, false) matches Some(f) && f.alg == Some(seq![72u8, 83, 50, 53, 54])
}

/// The claim set that a payload in the general form holds.
pub open spec fn general_claims(b: Seq<u8>) -> Option<ClaimsView> {
    match object_fields(b, true) {
        Some(f) => if f.sub is Some && f.email is Some && f.role is Some && f.exp is Some
            && f.iat is Some && f.kind is Some && valid_utf8(f.sub->0) && valid_utf8(f.email->0)
            && valid_utf8(f.role->0) && (f.kind == Some(kind_name(TokenKind::Access))
            || f.kind == Some(kind_name(TokenKind::Refresh))) {
            Some(ClaimsView {
                sub: decode_utf8(f.sub->0),
                email: decode_utf8(f.email->0),
                role: decode_utf8(f.role->0),
                exp: f.exp->0,
                iat: f.iat->0,
                kind: if f.kind == Some(kind_name(TokenKind::Access)) {
                    TokenKind::Access
                } else {
                    TokenKind::Refresh
                },
            })
        } else {
            None
        },
        None => None,
    }
}

struct FieldSet {
    sub: Option<Vec<u8>>,
    email: Option<Vec<u8>>,
    role: Option<Vec<u8>>,
    exp: Option<i64>,
    iat: Option<i64>,
    kind: Option<Vec<u8>>,
    alg: Option<Vec<u8>>,
}

spec fn ov(o: Option<Vec<u8>>) -> Option<Seq<u8>> {
    match o {
        Some(v) => Some(v@),
        None => None,
    }
}

impl View for FieldSet {
    type V = Fields;

    closed spec fn view(&self) -> Fields {
        Fields {
            sub: ov(self.sub),
            email: ov(self.email),
            role: ov(self.role),
            exp: self.exp,
            iat: self.iat,
            kind: ov(self.kind),
            alg: ov(self.alg),
        }
    }
}

fn put_text_exec(f: FieldSet, s: usize, v: Vec<u8>) -> (r: Option<FieldSet>)
    requires
        s <= 6 && s != 3 && s != 4,
    ensures
        match r {
            Some(g) => put_text(f@, s as int, v@) == Some(g@),
            None => put_text(f@, s as int, v@) is None,
        },
{
    let mut f = f;
    if s == 0 {
        if f.sub.is_some() { return None; }
        f.sub = Some(v);
    } else if s == 1 {
        if f.email.is_some() { return None; }
        f.email = Some(v);
    } else if s == 2 {
        if f.role.is_some() { return None; }
        f.role = Some(v);
    } else if s == 5 {
        if f.kind.is_some() { return None; }
        f.kind = Some(v);
    } else {
        if f.alg.is_some() { return None; }
        f.alg = Some(v);
    }
    Some(f)
}

fn put_int_exec(f: FieldSet, s: usize, n: i64) -> (r: Option<FieldSet>)
    requires
        s == 3 || s == 4,
    ensures
        match r {
            Some(g) => put_int(f@, s as int, n) == Some(g@),
            None => put_int(f@, s as int, n) is None,
        },
{
    let mut f = f;
    if s == 3 {
        if f.exp.is_some() { return None; }
        f.exp = Some(n);
    } else {
        if f.iat.is_some() { return None; }
        f.iat = Some(n);
    }
    Some(f)
}

fn skip_ws_exec(b: &[u8], i: usize) -> (r: usize)
    ensures
        r == skip_ws(b@, i as int),
{
    let mut k = i;
    while k < b.len() && (b[k] == 32 || b[k] == 9 || b[k] == 10 || b[k] == 13)
        invariant
            i <= k,
            skip_ws(b@, i as int) == skip_ws(b@, k as int),
        decreases b.len() - k,
    {
        k = k + 1;
    }
    k
}

fn slot_name_bytes(j: usize) -> (r: Vec<u8>)
    requires
        j < 7,
    ensures
        r@ == slot_name(j as int),
{
    let v: Vec<u8> = if j == 0 {
        vec![115u8, 117, 98]
    } else if j == 1 {
        vec![101u8, 109, 97, 105, 108]
    } else if j == 2 {
        vec![114u8, 111, 108, 101]
    } else if j == 3 {
        vec![101u8, 120, 112]
    } else if j == 4 {
        vec![105u8, 97, 116]
    } else if j == 5 {
        vec![116u8, 111, 107, 101, 110, 95, 116, 121, 112, 101]
    } else {
        vec![97u8, 108, 103]
    };
    assert(v@ =~= slot_name(j as int));
    v
}

fn slot_of_exec(k: &[u8], claims: bool) -> (r: usize)
    ensures
        r == slot_of(k@, claims),
{
    if claims {
        let mut j: usize = 0;
        while j < 6
            invariant
                claims,
                j <= 6,
                forall|m: int| 0 <= m < j ==> k@ != #[trigger] slot_name(m),
            decreases 6 - j,
        {
            let n = slot_name_bytes(j);
            if same_bytes(k, n.as_slice()) {
                proof {
                    assert(j > 0 ==> k@ != slot_name(0));
                    assert(j > 1 ==> k@ != slot_name(1));
                    assert(j > 2 ==> k@ != slot_name(2));
                    assert(j > 3 ==> k@ != slot_name(3));
                    assert(j > 4 ==> k@ != slot_name(4));
                    assert(k@ == slot_name(j as int));
                }
                return j;
            }
            j = j + 1;
        }
        7
    } else {
        let n = slot_name_bytes(6);
        if same_bytes(k, n.as_slice()) { 6 } else { 7 }
    }
}

fn value_step_exec(b: &[u8], at: usize, f: FieldSet, s: usize) -> (r: Option<(FieldSet, usize)>)
    requires
        s <= 7,
    ensures
        match r {
            Some((g, e)) => value_step(b@, at as int, f@, s as int) == Some((g@, e as int)),
            None => value_step(b@, at as int, f@, s as int) is None,
        },
{
    if s == 3 || s == 4 {
        if at > b.len() {
            return None;
        }
        match read_int(b, at) {
            Some((n, e)) => match put_int_exec(f, s, n) {
                Some(g) => Some((g, e)),
                None => None,
            },
            None => None,
        }
    } else if s != 7 {
        match read_string(b, at) {
            Some((v, e)) => match put_text_exec(f, s, v) {
                Some(g) => Some((g, e)),
                None => None,
            },
            None => None,
        }
    } else {
        match value_end_exec(b, at, MAX_DEPTH) {
            Some(e) => Some((f, e)),
            None => None,
        }
    }
}

fn run_end_exec(b: &[u8], i: usize) -> (r: usize)
    requires
        i <= b.len(),
    ensures
        r == run_end(b@, i as int),
        i <= r <= b.len(),
{
    let mut k = i;
    while k < b.len() && is_digit_exec(b[k])
        invariant
            i <= k <= b.len(),
            forall|m: int| i <= m < k ==> is_digit(#[trigger] b@[m]),
        decreases b.len() - k,
    {
        k = k + 1;
    }
    proof {
        let t = b@.skip(i as int);
        assert(forall|m: int| 0 <= m < k - i ==> t[m] == b@[i + m]);
        if k < b.len() {
            assert(t[k - i] == b@[k as int]);
        }
        lemma_digit_run_bound(t, k - i);
    }
    k
}

fn number_end_exec(b: &[u8], at: usize) -> (r: Option<usize>)
    ensures
        match r {
            Some(e) => number_end(b@, at as int) == Some(e as int),
            None => number_end(b@, at as int) is None,
        },
{
    if at > b.len() {
        return None;
    }
    let p0 = if at < b.len() && b[at] == 45 { at + 1 } else { at };
    let p1 = run_end_exec(b, p0);
    if p1 == p0 || (p1 > p0 + 1 && b[p0] == 48) {
        return None;
    }
    let p2 = if p1 < b.len() && b[p1] == 46 {
        let f = run_end_exec(b, p1 + 1);
        if f == p1 + 1 {
            return None;
        }
        f
    } else {
        p1
    };
    if p2 < b.len() && (b[p2] == 101 || b[p2] == 69) {
        let q = if p2 + 1 < b.len() && (b[p2 + 1] == 43 || b[p2 + 1] == 45) { p2 + 2 } else { p2 + 1 };
        let e = run_end_exec(b, q);
        if e > q { Some(e) } else { None }
    } else {
        Some(p2)
    }
}

fn value_end_exec(b: &[u8], at: usize, d: usize) -> (r: Option<usize>)
    ensures
        match r {
            Some(e) => value_end(b@, at as int, d as nat) == Some(e as int),
            None => value_end(b@, at as int, d as nat) is None,
        },
    decreases d, b@.len() - at, 0int,
{
    if at >= b.len() {
        return None;
    }
    if b[at] == 34 {
        return match read_string(b, at) {
            Some((_, e)) => Some(e),
            None => None,
        };
    }
    if let Some(e) = word_at_exec(b, at) {
        return Some(e);
    }
    if b[at] == 91 || b[at] == 123 {
        let j = skip_ws_exec(b, at + 1);
        let close: u8 = if b[at] == 91 { 93 } else { 125 };
        if d == 0 {
            return None;
        }
        if j < b.len() && b[j] == close {
            return Some(j + 1);
        }
        return items_end_exec(b, at + 1, d - 1, b[at] == 123);
    }
    number_end_exec(b, at)
}

fn items_end_exec(b: &[u8], i: usize, d: usize, object: bool) -> (r: Option<usize>)
    ensures
        match r {
            Some(e) => items_end(b@, i as int, d as nat, object) == Some(e as int),
            None => items_end(b@, i as int, d as nat, object) is None,
        },
    decreases d, b@.len() - i, 1int,
{
    if i > b.len() {
        return None;
    }
    let j = skip_ws_exec(b, i);
    let v: usize = if object {
        match read_string(b, j) {
            Some((_, j2)) => {
                let j3 = skip_ws_exec(b, j2);
                if j3 < b.len() && b[j3] == 58 {
                    skip_ws_exec(b, j3 + 1)
                } else {
                    return None;
                }
            },
            None => return None,
        }
    } else {
        j
    };
    if !(i <= v && v < b.len()) {
        return None;
    }
    let e = match value_end_exec(b, v, d) {
        Some(e) => e,
        None => return None,
    };
    let e2 = skip_ws_exec(b, e);
    let close: u8 = if object { 125 } else { 93 };
    if e2 < b.len() && b[e2] == 44 && i < e2 + 1 {
        items_end_exec(b, e2 + 1, d, object)
    } else if e2 < b.len() && b[e2] == close {
        Some(e2 + 1)
    } else {
        None
    }
}

fn member_step_exec(b: &[u8], i: usize, f: FieldSet, claims: bool) -> (r: Option<(FieldSet, usize, bool)>)
    ensures
        match r {
            Some((g, n, d)) => member_step(b@, i as int, f@, claims) == Some((g@, n as int, d)),
            None => member_step(b@, i as int, f@, claims) is None,
        },
{
    let j = skip_ws_exec(b, i);
    let (k, j2) = match read_string(b, j) {
        Some(x) => x,
        None => return None,
    };
    let j3 = skip_ws_exec(b, j2);
    if !(j3 < b.len() && b[j3] == 58) {
        return None;
    }
    let s = slot_of_exec(k.as_slice(), claims);
    let j4 = skip_ws_exec(b, j3 + 1);
    let (g, e) = match value_step_exec(b, j4, f, s) {
        Some(x) => x,
        None => return None,
    };
    let e2 = skip_ws_exec(b, e);
    if e2 < b.len() && b[e2] == 44 {
        Some((g, e2 + 1, false))
    } else if e2 < b.len() && b[e2] == 125 {
        Some((g, e2 + 1, true))
    } else {
        None
    }
}

fn object_fields_exec(b: &[u8], claims: bool) -> (r: Option<FieldSet>)
    ensures
        match r {
            Some(f) => object_fields(b@, claims) == Some(f@),
            None => object_fields(b@, claims) is None,
        },
{
    let i = skip_ws_exec(b, 0);
    if !(i < b.len() && b[i] == 123) {
        return None;
    }
    let mut f = FieldSet { sub: None, email: None, role: None, exp: None, iat: None, kind: None, alg: None };
    let mut pos: usize = i + 1;
    assert(f@ == no_fields());
    loop
        invariant
            pos <= b.len(),
            object_fields(b@, claims) == (match members(b@, pos as int, f@, claims) {
                Some((g, e)) => if skip_ws(b@, e) == b@.len() { Some(g) } else { None },
                None => None,
            }),
        decreases b.len() - pos,
    {
        let (g, n, done) = match member_step_exec(b, pos, f, claims) {
            Some(x) => x,
            None => return None,
        };
        if done {
            if skip_ws_exec(b, n) == b.len() {
                return Some(g);
            }
            return None;
        }
        if n <= pos || n > b.len() {
            return None;
        }
        f = g;
        pos = n;
    }
}

/// Whether a header in the general form names the HS256 algorithm.
pub fn header_json_accepted(b: &[u8]) -> (r: bool)
    ensures
        r == header_json_ok(b@),
{
    match object_fields_exec(b, false) {
        Some(f) => match f.alg {
            Some(a) => {
                let want: Vec<u8> = vec![72u8, 83, 50, 53, 54];
                assert(want@ =~= seq![72u8, 83, 50, 53, 54]);
                same_bytes(a.as_slice(), want.as_slice())
            },
            None => false,
        },
        None => false,
    }
}

/// Reads a claim set from a payload in the general form.
pub fn parse_general(b: &[u8]) -> (r: Option<Claims>)
    ensures
        match r {
            Some(c) => general_claims(b@) == Some(c@),
            None => general_claims(b@) is None,
        },
{
    let f = match object_fields_exec(b, true) {
        Some(f) => f,
        None => return None,
    };
    let ghost fv = f@;
    let FieldSet { sub, email, role, exp, iat, kind, alg: _ } = f;
    let (sub, email, role, exp, iat, kind) = match (sub, email, role, exp, iat, kind) {
        (Some(a), Some(b2), Some(c), Some(d), Some(e), Some(k)) => (a, b2, c, d, e, k),
        _ => return None,
    };
    let token_type = match kind_of_name(kind.as_slice()) {
        Some(k) => k,
        None => {
            proof {
                assert(kind_name(TokenKind::Access) != kind@);
                assert(kind_name(TokenKind::Refresh) != kind@);
            }
            return None;
        },
    };
    proof {
        let a = kind_name(TokenKind::Access);
        let f2 = kind_name(TokenKind::Refresh);
        assert(a.len() != f2.len());
    }
    let sub = match utf8_string(sub) { Some(s) => s, None => return None };
    let email = match utf8_string(email) { Some(s) => s, None => return None };
    let role = match utf8_string(role) { Some(s) => s, None => return None };
    Some(Claims { sub, email, role, exp, iat, token_type })
}

} // verus!
