//! Text encodings: UTF-8, UTF-16 code units, and UTF-16 in little-endian
//! bytes.
//!
//! UTF-8 is described by vstd's `valid_utf8`, `decode_utf8` and `encode_utf8`;
//! UTF-16 by `encode_utf16` and `decode_utf16` below.

use vstd::prelude::*;
use vstd::utf8::*;

verus! {

broadcast use {vstd::utf8::char_is_scalar, vstd::utf8::char_u32_cast};

/// A UTF-16 code unit in the surrogate range.
pub open spec fn is_surrogate(u: u16) -> bool {
    0xD800 <= u <= 0xDFFF
}

/// A UTF-16 code unit that opens a surrogate pair.
pub open spec fn is_high_surrogate(u: u16) -> bool {
    0xD800 <= u <= 0xDBFF
}

/// A UTF-16 code unit that closes a surrogate pair.
pub open spec fn is_low_surrogate(u: u16) -> bool {
    0xDC00 <= u <= 0xDFFF
}

/// The scalar value that a surrogate pair stands for.
pub open spec fn surrogate_pair_scalar(hi: u16, lo: u16) -> u32 {
    (0x10000 + (hi - 0xD800) * 0x400 + (lo - 0xDC00)) as u32
}

/// The UTF-16 code units of one Unicode scalar value.
pub open spec fn utf16_of_scalar(c: u32) -> Seq<u16> {
    if c < 0x10000 {
        seq![c as u16]
    } else {
        seq![(0xD800 + (c - 0x10000) / 0x400) as u16, (0xDC00 + (c - 0x10000) % 0x400) as u16]
    }
}

/// The UTF-16 encoding of a character sequence.
pub open spec fn encode_utf16(chars: Seq<char>) -> Seq<u16>
    decreases chars.len(),
{
    if chars.len() == 0 {
        seq![]
    } else {
        utf16_of_scalar(chars[0] as u32) + encode_utf16(chars.drop_first())
    }
}

/// The characters that UTF-16 code units encode, or `None` where a surrogate
/// is not part of a well-formed pair.
pub open spec fn decode_utf16(units: Seq<u16>) -> Option<Seq<char>>
    decreases units.len(),
{
    if units.len() == 0 {
        Some(seq![])
    } else if !is_surrogate(units[0]) {
        match decode_utf16(units.skip(1)) {
            Some(rest) => Some(seq![units[0] as char] + rest),
            None => None,
        }
    } else if is_high_surrogate(units[0]) && units.len() >= 2 && is_low_surrogate(units[1]) {
        match decode_utf16(units.skip(2)) {
            Some(rest) => Some(seq![surrogate_pair_scalar(units[0], units[1]) as char] + rest),
            None => None,
        }
    } else {
        None
    }
}

/// A code unit made of its low byte and its high byte.
pub open spec fn unit_from_le(lo: u8, hi: u8) -> u16 {
    ((lo as u16) | ((hi as u16) << 8u16)) as u16
}

/// The code units of little-endian UTF-16 bytes, taken two bytes at a time;
/// a trailing odd byte is left out.
pub open spec fn le_units(bytes: Seq<u8>) -> Seq<u16> {
    Seq::new(bytes.len() / 2, |i: int| unit_from_le(bytes[2 * i], bytes[2 * i + 1]))
}

/// Code units written as little-endian bytes.
pub open spec fn units_le_bytes(units: Seq<u16>) -> Seq<u8> {
    Seq::new(
        units.len() * 2,
        |i: int|
            if i % 2 == 0 {
                (units[i / 2] & 0xFF) as u8
            } else {
                (units[i / 2] >> 8u16) as u8
            },
    )
}

/// Scalar values read as characters.
pub open spec fn scalars_to_chars(cps: Seq<u32>) -> Seq<char> {
    cps.map_values(|c: u32| c as char)
}

/// Every value is a Unicode scalar value.
pub open spec fn all_scalars(cps: Seq<u32>) -> bool {
    forall|i: int| 0 <= i < cps.len() ==> #[trigger] is_scalar(cps[i])
}

/// Puts characters in front of the result of decoding the rest.
pub open spec fn prepend_chars(acc: Seq<char>, rest: Option<Seq<char>>) -> Option<Seq<char>> {
    match rest {
        Some(r) => Some(acc + r),
        None => None,
    }
}

/// The characters of UTF-8 bytes, or `None` where they are not valid UTF-8.
pub open spec fn decode_utf8_opt(bytes: Seq<u8>) -> Option<Seq<char>> {
    if valid_utf8(bytes) {
        Some(decode_utf8(bytes))
    } else {
        None
    }
}

proof fn lemma_le_unit_bytes(u: u16)
    ensures
        unit_from_le((u & 0xFF) as u8, (u >> 8u16) as u8) == u,
{
    assert(((((u & 0xFF) as u8) as u16) | ((((u >> 8u16) as u8) as u16) << 8u16)) as u16 == u)
        by (bit_vector);
}

proof fn lemma_le_bytes_unit(lo: u8, hi: u8)
    ensures
        (unit_from_le(lo, hi) & 0xFF) as u8 == lo,
        (unit_from_le(lo, hi) >> 8u16) as u8 == hi,
{
    assert((((lo as u16) | ((hi as u16) << 8u16)) as u16 & 0xFF) as u8 == lo) by (bit_vector);
    assert(((((lo as u16) | ((hi as u16) << 8u16)) as u16) >> 8u16) as u8 == hi) by (bit_vector);
}

/// Reading back the little-endian bytes of code units gives the code units.
pub proof fn lemma_le_units_of_bytes(units: Seq<u16>)
    ensures
        le_units(units_le_bytes(units)) == units,
{
    let b = units_le_bytes(units);
    assert forall|i: int| 0 <= i < units.len() implies #[trigger] le_units(b)[i] == units[i] by {
        assert(b[2 * i] == (units[i] & 0xFF) as u8);
        assert(b[2 * i + 1] == (units[i] >> 8u16) as u8);
        lemma_le_unit_bytes(units[i]);
    }
    assert(le_units(b) =~= units);
}

/// Writing out the code units of an even number of bytes gives the bytes.
pub proof fn lemma_le_bytes_of_units(bytes: Seq<u8>)
    requires
        bytes.len() % 2 == 0,
    ensures
        units_le_bytes(le_units(bytes)) == bytes,
{
    let u = le_units(bytes);
    assert forall|i: int| 0 <= i < bytes.len() implies #[trigger] units_le_bytes(u)[i]
        == bytes[i] by {
        let k = i / 2;
        lemma_le_bytes_unit(bytes[2 * k], bytes[2 * k + 1]);
    }
    assert(units_le_bytes(u) =~= bytes);
}

proof fn lemma_utf16_of_scalar(c: u32)
    requires
        is_scalar(c),
    ensures
        c < 0x10000 ==> !is_surrogate(c as u16) && (c as u16) as u32 == c,
        c >= 0x10000 ==> {
            let hi = utf16_of_scalar(c)[0];
            let lo = utf16_of_scalar(c)[1];
            &&& is_high_surrogate(hi)
            &&& is_low_surrogate(lo)
            &&& surrogate_pair_scalar(hi, lo) == c
        },
{
    if c >= 0x10000 {
        let d = (c - 0x10000) as int;
        assert(d == (d / 0x400) * 0x400 + d % 0x400) by (nonlinear_arith);
        assert(0 <= d / 0x400 <= 0x3FF);
    }
}

/// Decoding the UTF-16 encoding of characters gives the characters back.
pub proof fn lemma_decode_encode_utf16(chars: Seq<char>)
    ensures
        decode_utf16(encode_utf16(chars)) == Some(chars),
    decreases chars.len(),
{
    if chars.len() > 0 {
        let c = chars[0] as u32;
        char_is_scalar(chars[0]);
        let head = utf16_of_scalar(c);
        let tail = encode_utf16(chars.drop_first());
        let all = encode_utf16(chars);
        assert(all == head + tail);
        lemma_utf16_of_scalar(c);
        lemma_decode_encode_utf16(chars.drop_first());
        if c < 0x10000 {
            assert(all.skip(1) =~= tail);
            char_u32_cast(chars[0], c);
            assert(all[0] == c as u16);
            assert((all[0] as u32) == c);
            assert((all[0] as char) == chars[0]);
        } else {
            assert(all.skip(2) =~= tail);
            char_u32_cast(chars[0], c);
            assert((surrogate_pair_scalar(all[0], all[1]) as char) == chars[0]);
        }
        assert(seq![chars[0]] + chars.drop_first() =~= chars);
    }
}

/// Encoding the characters that UTF-16 code units decode to gives the code
/// units back.
pub proof fn lemma_encode_decode_utf16(units: Seq<u16>)
    requires
        decode_utf16(units) is Some,
    ensures
        encode_utf16(decode_utf16(units).unwrap()) == units,
    decreases units.len(),
{
    if units.len() > 0 {
        let chars = decode_utf16(units).unwrap();
        if !is_surrogate(units[0]) {
            lemma_encode_decode_utf16(units.skip(1));
            let c = units[0] as char;
            assert((c as u32) == units[0] as u32);
            assert(chars.drop_first() =~= decode_utf16(units.skip(1)).unwrap());
            assert(utf16_of_scalar(c as u32) =~= seq![units[0]]);
            assert(seq![units[0]] + units.skip(1) =~= units);
        } else {
            lemma_encode_decode_utf16(units.skip(2));
            let v = surrogate_pair_scalar(units[0], units[1]);
            let c = v as char;
            assert(is_scalar(v));
            assert((c as u32) == v);
            assert(chars.drop_first() =~= decode_utf16(units.skip(2)).unwrap());
            let h = units[0] - 0xD800;
            let l = units[1] - 0xDC00;
            assert(v - 0x10000 == h * 0x400 + l);
            assert((h * 0x400 + l) / 0x400 == h && (h * 0x400 + l) % 0x400 == l)
                by (nonlinear_arith)
                requires
                    0 <= h < 0x400,
                    0 <= l < 0x400,
            ;
            assert(utf16_of_scalar(c as u32) =~= seq![units[0], units[1]]);
            assert(seq![units[0], units[1]] + units.skip(2) =~= units);
        }
    }
}

/// The code units of little-endian UTF-16 bytes; a trailing odd byte is left
/// out.
pub fn utf16le_units(input: &[u8]) -> (res: Vec<u16>)
    ensures
        res@ == le_units(input@),
{
    let n = input.len() / 2;
    let mut res: Vec<u16> = Vec::new();
    let mut i: usize = 0;
    while i < n
        invariant
            n == input@.len() / 2,
            2 * n <= input@.len(),
            input@.len() <= usize::MAX,
            i <= n,
            res@ =~= le_units(input@).take(i as int),
        decreases n - i,
    {
        let lo = input[2 * i];
        let hi = input[2 * i + 1];
        res.push(((lo as u16) | ((hi as u16) << 8u16)) as u16);
        i = i + 1;
    }
    res
}

/// Code units written as little-endian bytes.
pub fn units_to_le_bytes(units: &[u16]) -> (res: Vec<u8>)
    ensures
        res@ == units_le_bytes(units@),
{
    let n = units.len();
    let mut res: Vec<u8> = Vec::new();
    let mut i: usize = 0;
    while i < n
        invariant
            n == units@.len(),
            i <= n,
            res@ =~= units_le_bytes(units@).take(2 * i),
        decreases n - i,
    {
        let u = units[i];
        res.push((u & 0xFF) as u8);
        res.push((u >> 8u16) as u8);
        i = i + 1;
    }
    res
}

/// Decodes UTF-16 code units into Unicode scalar values; `None` where a
/// surrogate is not part of a well-formed pair.
pub fn decode_utf16_scalars(units: &[u16]) -> (res: Option<Vec<u32>>)
    ensures
        res is Some <==> decode_utf16(units@) is Some,
        res matches Some(cps) ==> all_scalars(cps@) && decode_utf16(units@) == Some(
            scalars_to_chars(cps@),
        ),
{
    let n = units.len();
    let mut out: Vec<u32> = Vec::new();
    let mut i: usize = 0;
    proof {
        assert(units@.skip(0) =~= units@);
        match decode_utf16(units@) {
            Some(r) => {
                assert(scalars_to_chars(out@) + r =~= r);
            },
            None => {},
        }
    }
    while i < n
        invariant
            n == units@.len(),
            i <= n,
            all_scalars(out@),
            decode_utf16(units@) == prepend_chars(
                scalars_to_chars(out@),
                decode_utf16(units@.skip(i as int)),
            ),
        decreases n - i,
    {
        let ghost rest = units@.skip(i as int);
        let ghost acc = scalars_to_chars(out@);
        let u = units[i];
        if u < 0xD800 || u > 0xDFFF {
            let c = u as u32;
            out.push(c);
            proof {
                assert(rest.skip(1) =~= units@.skip(i + 1));
                assert(scalars_to_chars(out@) =~= acc.push(c as char));
                assert((c as char) == (u as char));
                match decode_utf16(units@.skip(i + 1)) {
                    Some(r) => {
                        assert(acc + (seq![u as char] + r) =~= acc.push(c as char) + r);
                    },
                    None => {},
                }
            }
            i = i + 1;
        } else if u <= 0xDBFF && i + 1 < n && units[i + 1] >= 0xDC00 && units[i + 1] <= 0xDFFF {
            let lo = units[i + 1];
            let c: u32 = 0x10000u32 + ((u - 0xD800u16) as u32) * 0x400u32 + ((lo - 0xDC00u16) as u32);
            out.push(c);
            proof {
                assert(c == surrogate_pair_scalar(u, lo));
                assert(rest.skip(2) =~= units@.skip(i + 2));
                assert(scalars_to_chars(out@) =~= acc.push(c as char));
                match decode_utf16(units@.skip(i + 2)) {
                    Some(r) => {
                        assert(acc + (seq![c as char] + r) =~= acc.push(c as char) + r);
                    },
                    None => {},
                }
            }
            i = i + 2;
        } else {
            return None;
        }
    }
    proof {
        assert(units@.skip(n as int) =~= Seq::<u16>::empty());
        assert(scalars_to_chars(out@) + Seq::<char>::empty() =~= scalars_to_chars(out@));
    }
    Some(out)
}

/// Encodes Unicode scalar values as UTF-8.
pub fn encode_utf8_scalars(cps: &[u32]) -> (res: Vec<u8>)
    requires
        all_scalars(cps@),
    ensures
        res@ == encode_utf8(scalars_to_chars(cps@)),
{
    let n = cps.len();
    let ghost chars = scalars_to_chars(cps@);
    let mut out: Vec<u8> = Vec::new();
    let mut i: usize = 0;
    proof {
        assert(chars.skip(0) =~= chars);
        assert(out@ + encode_utf8(chars) =~= encode_utf8(chars));
    }
    while i < n
        invariant
            n == cps@.len(),
            i <= n,
            all_scalars(cps@),
            chars == scalars_to_chars(cps@),
            encode_utf8(chars) == out@ + encode_utf8(chars.skip(i as int)),
        decreases n - i,
    {
        let c = cps[i];
        let ghost old_out = out@;
        let ghost rest = chars.skip(i as int);
        proof {
            assert(is_scalar(cps@[i as int]));
            assert(rest[0] == c as char);
            assert((rest[0] as u32) == c);
            assert(rest.drop_first() =~= chars.skip(i + 1));
        }
        if c <= 0x7F {
            out.push((c & 0x7F) as u8);
        } else if c <= 0x7FF {
            out.push(0xC0u8 | ((c >> 6u32) & 0x1F) as u8);
            out.push(0x80u8 | (c & 0x3F) as u8);
        } else if c <= 0xFFFF {
            out.push(0xE0u8 | ((c >> 12u32) & 0x0F) as u8);
            out.push(0x80u8 | ((c >> 6u32) & 0x3F) as u8);
            out.push(0x80u8 | (c & 0x3F) as u8);
        } else {
            out.push(0xF0u8 | ((c >> 18u32) & 0x7) as u8);
            out.push(0x80u8 | ((c >> 12u32) & 0x3F) as u8);
            out.push(0x80u8 | ((c >> 6u32) & 0x3F) as u8);
            out.push(0x80u8 | (c & 0x3F) as u8);
        }
        proof {
            assert(out@ =~= old_out + encode_scalar(c));
            assert(old_out + encode_scalar(c) + encode_utf8(chars.skip(i + 1)) =~= old_out + (
            encode_scalar(c) + encode_utf8(chars.skip(i + 1))));
        }
        i = i + 1;
    }
    proof {
        assert(chars.skip(n as int) =~= Seq::<char>::empty());
        assert(out@ + Seq::<u8>::empty() =~= out@);
    }
    out
}

/// Encodes Unicode scalar values as UTF-16 code units.
pub fn encode_utf16_scalars(cps: &[u32]) -> (res: Vec<u16>)
    requires
        all_scalars(cps@),
    ensures
        res@ == encode_utf16(scalars_to_chars(cps@)),
{
    let n = cps.len();
    let ghost chars = scalars_to_chars(cps@);
    let mut out: Vec<u16> = Vec::new();
    let mut i: usize = 0;
    proof {
        assert(chars.skip(0) =~= chars);
        assert(out@ + encode_utf16(chars) =~= encode_utf16(chars));
    }
    while i < n
        invariant
            n == cps@.len(),
            i <= n,
            all_scalars(cps@),
            chars == scalars_to_chars(cps@),
            encode_utf16(chars) == out@ + encode_utf16(chars.skip(i as int)),
        decreases n - i,
    {
        let c = cps[i];
        let ghost old_out = out@;
        let ghost rest = chars.skip(i as int);
        proof {
            assert(is_scalar(cps@[i as int]));
            assert(rest[0] == c as char);
            assert((rest[0] as u32) == c);
            assert(rest.drop_first() =~= chars.skip(i + 1));
        }
        if c < 0x10000 {
            out.push(c as u16);
        } else {
            out.push((0xD800u32 + (c - 0x10000u32) / 0x400u32) as u16);
            out.push((0xDC00u32 + (c - 0x10000u32) % 0x400u32) as u16);
        }
        proof {
            assert(out@ =~= old_out + utf16_of_scalar(c));
            assert(old_out + utf16_of_scalar(c) + encode_utf16(chars.skip(i + 1)) =~= old_out + (
            utf16_of_scalar(c) + encode_utf16(chars.skip(i + 1))));
        }
        i = i + 1;
    }
    proof {
        assert(chars.skip(n as int) =~= Seq::<char>::empty());
        assert(out@ + Seq::<u16>::empty() =~= out@);
    }
    out
}

/// Decodes UTF-8 bytes into Unicode scalar values; `None` where the bytes are
/// not valid UTF-8.
pub fn decode_utf8_scalars(bytes: &[u8]) -> (res: Option<Vec<u32>>)
    ensures
        res is Some <==> valid_utf8(bytes@),
        res matches Some(cps) ==> all_scalars(cps@) && scalars_to_chars(cps@) == decode_utf8(
            bytes@,
        ),
{
    let n = bytes.len();
    let mut out: Vec<u32> = Vec::new();
    let mut i: usize = 0;
    proof {
        assert(bytes@.subrange(0, n as int) =~= bytes@);
        match decode_utf8_opt(bytes@) {
            Some(r) => {
                assert(scalars_to_chars(out@) + r =~= r);
            },
            None => {},
        }
    }
    while i < n
        invariant
            n == bytes@.len(),
            i <= n,
            all_scalars(out@),
            decode_utf8_opt(bytes@) == prepend_chars(
                scalars_to_chars(out@),
                decode_utf8_opt(bytes@.subrange(i as int, n as int)),
            ),
        decreases n - i,
    {
        let ghost s = bytes@.subrange(i as int, n as int);
        let ghost acc = scalars_to_chars(out@);
        let b0 = bytes[i];
        let mut cp: u32 = 0;
        let mut k: usize = 0;
        let mut ok = false;
        if b0 <= 0x7F {
            cp = (b0 & 0x7F) as u32;
            k = 1;
            ok = true;
            assert(((b0 & 0x7F) as u32) <= 0x7F) by (bit_vector);
        } else if b0 >= 0xC0 && b0 <= 0xDF {
            if i + 1 < n {
                let b1 = bytes[i + 1];
                if b1 >= 0x80 && b1 <= 0xBF {
                    cp = (((b0 & 0x1F) as u32) << 6u32) | ((b1 & 0x3F) as u32);
                    k = 2;
                    ok = 0x80 <= cp && !(0xD800 <= cp && cp <= 0xDFFF);
                    assert((((b0 & 0x1F) as u32) << 6u32) | ((b1 & 0x3F) as u32) <= 0x7FF)
                        by (bit_vector);
                }
            }
        } else if b0 >= 0xE0 && b0 <= 0xEF {
            if n - i > 2 {
                let b1 = bytes[i + 1];
                let b2 = bytes[i + 2];
                if b1 >= 0x80 && b1 <= 0xBF && b2 >= 0x80 && b2 <= 0xBF {
                    cp = (((b0 & 0x0F) as u32) << 12u32) | (((b1 & 0x3F) as u32) << 6u32) | ((b2
                        & 0x3F) as u32);
                    k = 3;
                    ok = 0x800 <= cp && !(0xD800 <= cp && cp <= 0xDFFF);
                    assert((((b0 & 0x0F) as u32) << 12u32) | (((b1 & 0x3F) as u32) << 6u32) | ((b2
                        & 0x3F) as u32) <= 0xFFFF) by (bit_vector);
                }
            }
        } else if b0 >= 0xF0 && b0 <= 0xF7 {
            if n - i > 3 {
                let b1 = bytes[i + 1];
                let b2 = bytes[i + 2];
                let b3 = bytes[i + 3];
                if b1 >= 0x80 && b1 <= 0xBF && b2 >= 0x80 && b2 <= 0xBF && b3 >= 0x80 && b3 <= 0xBF {
                    cp = (((b0 & 0x07) as u32) << 18u32) | (((b1 & 0x3F) as u32) << 12u32) | (((b2
                        & 0x3F) as u32) << 6u32) | ((b3 & 0x3F) as u32);
                    k = 4;
                    ok = 0x10000 <= cp && cp <= 0x10FFFF && !(0xD800 <= cp && cp <= 0xDFFF);
                }
            }
        }
        proof {
            assert(s.len() > 0 && s[0] == b0);
            assert(ok <==> valid_first_scalar(s));
            if ok {
                assert(cp == decode_first_scalar(s));
                assert(k == length_of_first_scalar(s));
            }
        }
        if !ok {
            proof {
                assert(!valid_utf8(s));
            }
            return None;
        }
        out.push(cp);
        proof {
            assert(is_scalar(cp));
            assert(pop_first_scalar(s) =~= bytes@.subrange(i + k, n as int));
            assert(scalars_to_chars(out@) =~= acc.push(cp as char));
            match decode_utf8_opt(bytes@.subrange(i + k, n as int)) {
                Some(r) => {
                    assert(decode_utf8(s) == seq![cp as char] + r);
                    assert(acc + (seq![cp as char] + r) =~= acc.push(cp as char) + r);
                },
                None => {},
            }
        }
        i = i + k;
    }
    proof {
        assert(bytes@.subrange(n as int, n as int) =~= Seq::<u8>::empty());
        assert(scalars_to_chars(out@) + Seq::<char>::empty() =~= scalars_to_chars(out@));
    }
    Some(out)
}

/// `String::from_utf8`. Its documentation: the bytes become a `String` when
/// they are valid UTF-8, and are refused otherwise. The contract claims that
/// the result is `Some` exactly for valid UTF-8, holding the characters that
/// the bytes encode.
#[verifier::external_body]
pub(crate) fn string_from_utf8(bytes: Vec<u8>) -> (res: Option<String>)
    ensures
        res is Some <==> valid_utf8(bytes@),
        res matches Some(s) ==> s@ == decode_utf8(bytes@),
{
    String::from_utf8(bytes).ok()
}

/// Whether little-endian UTF-16 bytes (a trailing odd byte left out) are
/// well-formed UTF-16.
pub fn is_utf16le_text(input: &[u8]) -> (res: bool)
    ensures
        res == decode_utf16(le_units(input@)) is Some,
{
    let units = utf16le_units(input);
    decode_utf16_scalars(units.as_slice()).is_some()
}

/// Converts little-endian UTF-16 text into UTF-8. The bytes are taken two at a
/// time; a trailing odd byte is left out.
pub fn utf16le_to_utf8(input: &[u8]) -> (res: Vec<u8>)
    requires
        decode_utf16(le_units(input@)) is Some,
    ensures
        res@ == encode_utf8(decode_utf16(le_units(input@)).unwrap()),
{
    let units = utf16le_units(input);
    match decode_utf16_scalars(units.as_slice()) {
        Some(cps) => encode_utf8_scalars(cps.as_slice()),
        None => Vec::new(),
    }
}

/// Converts UTF-8 text into little-endian UTF-16.
pub fn utf8_to_utf16le(input: &[u8]) -> (res: Vec<u8>)
    requires
        valid_utf8(input@),
    ensures
        res@ == units_le_bytes(encode_utf16(decode_utf8(input@))),
{
    match decode_utf8_scalars(input) {
        Some(cps) => {
            let units = encode_utf16_scalars(cps.as_slice());
            units_to_le_bytes(units.as_slice())
        },
        None => Vec::new(),
    }
}

/// The UTF-16 code units of a string.
pub fn string_to_utf16le(s: String) -> (res: Vec<u16>)
    ensures
        res@ == encode_utf16(s@),
{
    let bytes = s.as_str().as_bytes();
    proof {
        encode_utf8_valid_utf8(s@);
        encode_utf8_decode_utf8(s@);
    }
    match decode_utf8_scalars(bytes) {
        Some(cps) => encode_utf16_scalars(cps.as_slice()),
        None => Vec::new(),
    }
}

/// The string that UTF-16 code units encode.
pub fn utf16le_to_string(vec: &[u16]) -> (res: String)
    requires
        decode_utf16(vec@) is Some,
    ensures
        res@ == decode_utf16(vec@).unwrap(),
{
    match decode_utf16_scalars(vec) {
        Some(cps) => {
            let bytes = encode_utf8_scalars(cps.as_slice());
            proof {
                encode_utf8_valid_utf8(scalars_to_chars(cps@));
                encode_utf8_decode_utf8(scalars_to_chars(cps@));
            }
            match string_from_utf8(bytes) {
                Some(s) => s,
                None => String::new(),
            }
        },
        None => String::new(),
    }
}

/// UTF-8 text converted to little-endian UTF-16 and back is the same text.
pub proof fn lemma_utf8_utf16le_roundtrip(text: Seq<u8>)
    requires
        valid_utf8(text),
    ensures
        decode_utf16(le_units(units_le_bytes(encode_utf16(decode_utf8(text))))) == Some(
            decode_utf8(text),
        ),
        encode_utf8(decode_utf16(le_units(units_le_bytes(encode_utf16(decode_utf8(text))))).unwrap())
            == text,
{
    let chars = decode_utf8(text);
    lemma_le_units_of_bytes(encode_utf16(chars));
    lemma_decode_encode_utf16(chars);
    decode_utf8_encode_utf8(text);
}

/// Well-formed little-endian UTF-16 text of even length converted to UTF-8
/// and back is the same text.
pub proof fn lemma_utf16le_utf8_roundtrip(text: Seq<u8>)
    requires
        text.len() % 2 == 0,
        decode_utf16(le_units(text)) is Some,
    ensures
        valid_utf8(encode_utf8(decode_utf16(le_units(text)).unwrap())),
        units_le_bytes(encode_utf16(decode_utf8(encode_utf8(decode_utf16(le_units(text)).unwrap()))))
            == text,
{
    let chars = decode_utf16(le_units(text)).unwrap();
    encode_utf8_valid_utf8(chars);
    encode_utf8_decode_utf8(chars);
    lemma_encode_decode_utf16(le_units(text));
    lemma_le_bytes_of_units(text);
}

/// A string's UTF-16 code units decode back to the string.
pub proof fn lemma_string_utf16_roundtrip(s: Seq<char>)
    ensures
        decode_utf16(encode_utf16(s)) == Some(s),
{
    lemma_decode_encode_utf16(s);
}

} // verus!
