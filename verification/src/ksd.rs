//! Whole scrambled text files ("ksd"): the header, then the scrambled or
//! compressed UTF-16 text.

use vstd::prelude::*;
use vstd::utf8::*;
use vstd::slice::*;
use crate::encoding::{
    decode_utf16, encode_utf16, is_utf16le_text, le_units, lemma_utf8_utf16le_roundtrip,
    units_le_bytes, utf16le_to_utf8, utf8_to_utf16le,
};
use crate::header::{file_mode, header_bytes, header_mode, lemma_header_roundtrip, mode_header, Mode};
use crate::scramble::{
    descramble_mode0, descramble_mode1, lemma_mode0_roundtrip, lemma_mode1_roundtrip,
    mode0_descrambled, mode0_reversible, mode0_scrambled, mode1_transformed, scramble_mode0,
    scramble_mode1,
};
use crate::zlib::{compress_zlib, decompress_zlib, mode2_frame, zlib_inflated_whole};

verus! {

/// Why a scrambled text file cannot be turned back into text.
#[derive(PartialEq, Eq, Structural, Clone, Copy, Debug)]
pub enum KsdError {
    /// The file ends before the bytes that its mode needs.
    TooShort,
    /// The header names no known mode.
    UnknownHeader,
    /// The compressed text of mode 2 does not decode.
    BadCompressedData,
    /// The descrambled text is not well-formed UTF-16.
    InvalidUtf16,
}

/// The byte-order mark that opens the UTF-8 text of a mode 2 file.
pub open spec fn utf8_bom() -> Seq<u8> {
    seq![0xEFu8, 0xBBu8, 0xBFu8]
}

/// UTF-8 text of little-endian UTF-16 text, if it is well-formed.
pub open spec fn utf8_of_utf16le(data: Seq<u8>) -> Result<Seq<u8>, KsdError> {
    match decode_utf16(le_units(data)) {
        Some(chars) => Ok(encode_utf8(chars)),
        None => Err(KsdError::InvalidUtf16),
    }
}

/// The text that a scrambled file gives back. Modes 0 and 1 skip five bytes
/// after the header before they descramble; mode 2 skips the 16-byte frame
/// header before it decompresses, and puts a UTF-8 byte-order mark in front
/// of the text.
pub open spec fn descrambled_ksd(file: Seq<u8>) -> Result<Seq<u8>, KsdError> {
    if file.len() < 5 {
        Err(KsdError::TooShort)
    } else {
        match header_mode(file.take(5)) {
            None => Err(KsdError::UnknownHeader),
            Some(Mode::MODE0) => if file.len() < 10 {
                Err(KsdError::TooShort)
            } else {
                utf8_of_utf16le(mode0_descrambled(file.skip(10)))
            },
            Some(Mode::MODE1) => if file.len() < 10 {
                Err(KsdError::TooShort)
            } else {
                utf8_of_utf16le(mode1_transformed(file.skip(10)))
            },
            Some(Mode::MODE2) => if file.len() < 21 {
                Err(KsdError::TooShort)
            } else {
                match zlib_inflated_whole(file.skip(21)) {
                    None => Err(KsdError::BadCompressedData),
                    Some(d) => match utf8_of_utf16le(d) {
                        Ok(t) => Ok(utf8_bom() + t),
                        Err(e) => Err(e),
                    },
                }
            },
        }
    }
}

/// The scrambled file that a text becomes in a mode.
pub open spec fn scrambled_ksd(text: Seq<u8>, mode: Mode) -> Seq<u8> {
    let utf16 = units_le_bytes(encode_utf16(decode_utf8(text)));
    mode_header(mode) + match mode {
        Mode::MODE0 => mode0_scrambled(utf16),
        Mode::MODE1 => mode1_transformed(utf16),
        Mode::MODE2 => mode2_frame(utf16),
    }
}

/// A result with the bytes taken by their view.
pub open spec fn bytes_result(r: Result<Vec<u8>, KsdError>) -> Result<Seq<u8>, KsdError> {
    match r {
        Ok(v) => Ok(v@),
        Err(e) => Err(e),
    }
}

fn text_of_utf16le(data: &[u8]) -> (res: Result<Vec<u8>, KsdError>)
    ensures
        bytes_result(res) == utf8_of_utf16le(data@),
{
    if is_utf16le_text(data) {
        Ok(utf16le_to_utf8(data))
    } else {
        Err(KsdError::InvalidUtf16)
    }
}

/// Turns a scrambled text file back into UTF-8 text.
pub fn descramble_ksd(file: &[u8]) -> (res: Result<Vec<u8>, KsdError>)
    ensures
        bytes_result(res) == descrambled_ksd(file@),
{
    let n = file.len();
    if n < 5 {
        return Err(KsdError::TooShort);
    }
    let header: [u8; 5] = [file[0], file[1], file[2], file[3], file[4]];
    assert(header@ =~= file@.take(5));
    let mode = match file_mode(header) {
        Ok(m) => m,
        Err(_) => {
            return Err(KsdError::UnknownHeader);
        },
    };
    match mode {
        Mode::MODE0 => {
            if n < 10 {
                return Err(KsdError::TooShort);
            }
            let mut data = slice_to_vec(slice_subrange(file, 10, n));
            assert(data@ =~= file@.skip(10));
            descramble_mode0(data.as_mut_slice());
            text_of_utf16le(data.as_slice())
        },
        Mode::MODE1 => {
            if n < 10 {
                return Err(KsdError::TooShort);
            }
            let mut data = slice_to_vec(slice_subrange(file, 10, n));
            assert(data@ =~= file@.skip(10));
            descramble_mode1(data.as_mut_slice());
            text_of_utf16le(data.as_slice())
        },
        Mode::MODE2 => {
            if n < 21 {
                return Err(KsdError::TooShort);
            }
            let payload = slice_subrange(file, 21, n);
            assert(payload@ =~= file@.skip(21));
            match decompress_zlib(payload) {
                None => Err(KsdError::BadCompressedData),
                Some(d) => match text_of_utf16le(d.as_slice()) {
                    Ok(t) => {
                        let mut out: Vec<u8> = Vec::new();
                        out.push(0xEFu8);
                        out.push(0xBBu8);
                        out.push(0xBFu8);
                        let mut i: usize = 0;
                        while i < t.len()
                            invariant
                                i <= t@.len(),
                                out@ =~= utf8_bom() + t@.take(i as int),
                            decreases t@.len() - i,
                        {
                            out.push(t[i]);
                            i = i + 1;
                        }
                        assert(t@.take(t@.len() as int) =~= t@);
                        Ok(out)
                    },
                    Err(e) => Err(e),
                },
            }
        },
    }
}

/// Scrambles UTF-8 text into a file of the given mode: the mode's header,
/// then the text as little-endian UTF-16, scrambled (modes 0 and 1) or
/// compressed and framed (mode 2). A mode 2 file gives the text back, after a
/// UTF-8 byte-order mark.
pub fn scramble_ksd(text: &[u8], mode: Mode) -> (res: Vec<u8>)
    requires
        valid_utf8(text@),
    ensures
        res@ == scrambled_ksd(text@, mode),
        res@.len() >= 5,
        res@.take(5) == seq![0xFEu8, 0xFEu8, mode_byte(mode), 0xFFu8, 0xFEu8],
        mode == Mode::MODE1 ==> utf8_of_utf16le(mode1_transformed(res@.skip(5))) == Ok::<
            Seq<u8>,
            KsdError,
        >(text@),
        mode == Mode::MODE1 ==> mode1_transformed(res@.skip(5)) == units_le_bytes(
            encode_utf16(decode_utf8(text@)),
        ),
        mode == Mode::MODE2 ==> descrambled_ksd(res@) == Ok::<Seq<u8>, KsdError>(
            utf8_bom() + text@,
        ),
{
    let header = header_bytes(mode);
    let mut utf16 = utf8_to_utf16le(text);
    let ghost u = utf16@;
    let body = match mode {
        Mode::MODE0 => {
            scramble_mode0(utf16.as_mut_slice());
            utf16
        },
        Mode::MODE1 => {
            scramble_mode1(utf16.as_mut_slice());
            utf16
        },
        Mode::MODE2 => compress_zlib(utf16.as_slice()),
    };
    let mut out: Vec<u8> = Vec::new();
    let mut i: usize = 0;
    while i < 5
        invariant
            i <= 5,
            header@.len() == 5,
            out@ =~= header@.take(i as int),
        decreases 5 - i,
    {
        out.push(header[i]);
        i = i + 1;
    }
    let mut j: usize = 0;
    while j < body.len()
        invariant
            j <= body@.len(),
            header@.len() == 5,
            out@ =~= header@ + body@.take(j as int),
        decreases body@.len() - j,
    {
        out.push(body[j]);
        j = j + 1;
    }
    proof {
        assert(body@.take(body@.len() as int) =~= body@);
        lemma_scrambled_ksd_body(text@, mode);
        if mode == Mode::MODE2 {
            lemma_header_roundtrip(Mode::MODE2);
            vstd::bytes::lemma_auto_spec_u64_to_from_le_bytes();
            assert(body@.len() >= 16);
            assert(out@.take(5) =~= mode_header(Mode::MODE2));
            assert(out@.skip(21) =~= body@.subrange(16, body@.len() as int));
            lemma_utf8_utf16le_roundtrip(text@);
            assert(utf8_of_utf16le(u) == Ok::<Seq<u8>, KsdError>(text@));
        }
    }
    out
}


/// The third header byte of a mode, as written in a file.
pub open spec fn mode_byte(mode: Mode) -> u8 {
    match mode {
        Mode::MODE0 => 0x00u8,
        Mode::MODE1 => 0x01u8,
        Mode::MODE2 => 0x02u8,
    }
}

/// A scrambled file opens with the five header bytes `FE FE m FF FE` of its
/// mode, and what follows them is the text as little-endian UTF-16,
/// transformed by the mode: the mode 1 descrambler takes it back to the
/// UTF-16 bytes of the text, which decode to the text; so does the mode 0
/// descrambler wherever mode 0 can take every chunk back.
pub proof fn lemma_scrambled_ksd_body(text: Seq<u8>, mode: Mode)
    requires
        valid_utf8(text),
    ensures
        ({
            let f = scrambled_ksd(text, mode);
            let u = units_le_bytes(encode_utf16(decode_utf8(text)));
            &&& f.len() >= 5
            &&& f.take(5) == seq![0xFEu8, 0xFEu8, mode_byte(mode), 0xFFu8, 0xFEu8]
            &&& utf8_of_utf16le(u) == Ok::<Seq<u8>, KsdError>(text)
            &&& mode == Mode::MODE1 ==> mode1_transformed(f.skip(5)) == u
            &&& mode == Mode::MODE1 ==> utf8_of_utf16le(mode1_transformed(f.skip(5))) == Ok::<
                Seq<u8>,
                KsdError,
            >(text)
            &&& (mode == Mode::MODE0 && mode0_reversible(u)) ==> mode0_descrambled(f.skip(5)) == u
        }),
{
    let f = scrambled_ksd(text, mode);
    let u = units_le_bytes(encode_utf16(decode_utf8(text)));
    let body = match mode {
        Mode::MODE0 => mode0_scrambled(u),
        Mode::MODE1 => mode1_transformed(u),
        Mode::MODE2 => crate::zlib::mode2_frame(u),
    };
    assert(f == mode_header(mode) + body);
    assert(f.take(5) =~= seq![0xFEu8, 0xFEu8, mode_byte(mode), 0xFFu8, 0xFEu8]);
    assert(f.skip(5) =~= body);
    lemma_utf8_utf16le_roundtrip(text);
    if mode == Mode::MODE1 {
        lemma_mode1_roundtrip(u);
    }
    if mode == Mode::MODE0 && mode0_reversible(u) {
        assert(u.len() % 2 == 0);
        lemma_mode0_roundtrip(u);
    }
}

} // verus!
