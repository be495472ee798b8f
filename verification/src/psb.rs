//! The header of a PSB file (the scene format of the KiriKiri engine).

use vstd::prelude::*;
use vstd::bytes::*;
use crate::xp3::index::magic_at;
use crate::xp3::index_laws::lemma_located_split;
use crate::xp3::le::{le_u16_at, le_u32_at, put_u16, put_u32, read_u16, read_u32};

verus! {

/// The header of a PSB file: after the magic, the version (1 to 4), the
/// encryption flag and offsets of the parts of the file. Version 3 adds a
/// checksum, version 4 the offsets of the extra chunks. Integers are
/// little-endian.
#[derive(Clone, Copy, Debug)]
pub struct PsbHeader {
    pub version: u16,
    pub header_encrypt: u16,
    pub header_length: u32,
    pub offset_names: u32,
    pub offset_strings: u32,
    pub offset_strings_data: u32,
    pub offset_chunk_offsets: u32,
    pub offset_chunk_lengths: u32,
    pub offset_chunk_data: u32,
    pub offset_entries: u32,
    pub checksum: Option<u32>,
    pub offset_extra_chunk_offsets: Option<u32>,
    pub offset_extra_chunk_lengths: Option<u32>,
    pub offset_extra_chunk_data: Option<u32>,
}

/// Why a PSB header cannot be read.
#[derive(PartialEq, Eq, Structural, Clone, Copy, Debug)]
pub enum PsbError {
    /// The bytes end before the header does.
    Truncated,
    /// The bytes do not open with `PSB\0`.
    BadMagic,
    /// The version is not 1 to 4.
    UnsupportedVersion,
}

/// The magic `PSB\0`.
pub open spec fn psb_magic() -> Seq<u8> {
    seq![0x50u8, 0x53u8, 0x42u8, 0x00u8]
}

/// The bytes of an optional field: its four bytes when it is there.
pub open spec fn opt_u32_bytes(v: Option<u32>) -> Seq<u8> {
    match v {
        Some(x) => spec_u32_to_le_bytes(x),
        None => Seq::<u8>::empty(),
    }
}

/// The bytes of a header: every field that is there, in order.
pub open spec fn psb_header_bytes(h: PsbHeader) -> Seq<u8> {
    psb_magic() + spec_u16_to_le_bytes(h.version) + spec_u16_to_le_bytes(h.header_encrypt)
        + spec_u32_to_le_bytes(h.header_length) + spec_u32_to_le_bytes(h.offset_names)
        + spec_u32_to_le_bytes(h.offset_strings) + spec_u32_to_le_bytes(h.offset_strings_data)
        + spec_u32_to_le_bytes(h.offset_chunk_offsets) + spec_u32_to_le_bytes(
        h.offset_chunk_lengths,
    ) + spec_u32_to_le_bytes(h.offset_chunk_data) + spec_u32_to_le_bytes(h.offset_entries)
        + opt_u32_bytes(h.checksum) + opt_u32_bytes(h.offset_extra_chunk_offsets)
        + opt_u32_bytes(h.offset_extra_chunk_lengths) + opt_u32_bytes(h.offset_extra_chunk_data)
}

/// The number of bytes of a header of a version.
pub open spec fn psb_header_len(version: u16) -> int {
    if version >= 4 {
        56
    } else if version == 3 {
        44
    } else {
        40
    }
}

/// The header at the start of `s`, with its number of bytes: the checksum
/// is read from version 3 on, the extra chunk offsets from version 4 on.
pub open spec fn parse_psb_header(s: Seq<u8>) -> Result<(PsbHeader, int), PsbError> {
    if s.len() < 4 {
        Err(PsbError::Truncated)
    } else if s.subrange(0, 4) != psb_magic() {
        Err(PsbError::BadMagic)
    } else if s.len() < 6 {
        Err(PsbError::Truncated)
    } else {
        let version = le_u16_at(s, 4);
        if !(1 <= version <= 4) {
            Err(PsbError::UnsupportedVersion)
        } else if s.len() < psb_header_len(version) {
            Err(PsbError::Truncated)
        } else {
            Ok((PsbHeader {
                version,
                header_encrypt: le_u16_at(s, 6),
                header_length: le_u32_at(s, 8),
                offset_names: le_u32_at(s, 12),
                offset_strings: le_u32_at(s, 16),
                offset_strings_data: le_u32_at(s, 20),
                offset_chunk_offsets: le_u32_at(s, 24),
                offset_chunk_lengths: le_u32_at(s, 28),
                offset_chunk_data: le_u32_at(s, 32),
                offset_entries: le_u32_at(s, 36),
                checksum: if version >= 3 { Some(le_u32_at(s, 40)) } else { None },
                offset_extra_chunk_offsets: if version >= 4 { Some(le_u32_at(s, 44)) } else { None },
                offset_extra_chunk_lengths: if version >= 4 { Some(le_u32_at(s, 48)) } else { None },
                offset_extra_chunk_data: if version >= 4 { Some(le_u32_at(s, 52)) } else { None },
            }, psb_header_len(version)))
        }
    }
}

/// The version is 1 to 4 and the optional fields are there exactly for the
/// versions that have them.
pub open spec fn psb_header_wf(h: PsbHeader) -> bool {
    &&& 1 <= h.version <= 4
    &&& (h.checksum is Some) == (h.version >= 3)
    &&& (h.offset_extra_chunk_offsets is Some) == (h.version >= 4)
    &&& (h.offset_extra_chunk_lengths is Some) == (h.version >= 4)
    &&& (h.offset_extra_chunk_data is Some) == (h.version >= 4)
}

fn put_opt_u32(out: &mut Vec<u8>, v: Option<u32>)
    ensures
        final(out)@ == old(out)@ + opt_u32_bytes(v),
{
    match v {
        Some(x) => put_u32(out, x),
        None => {
            assert(old(out)@ + Seq::<u8>::empty() =~= old(out)@);
        },
    }
}

fn psb_magic_bytes() -> (v: Vec<u8>)
    ensures
        v@ == psb_magic(),
{
    let mut v: Vec<u8> = Vec::new();
    v.push(0x50u8);
    v.push(0x53u8);
    v.push(0x42u8);
    v.push(0x00u8);
    assert(v@ =~= psb_magic());
    v
}

impl PsbHeader {
    /// Writes the header: every field that is there, in order.
    pub fn write(&self, out: &mut Vec<u8>)
        ensures
            final(out)@ == old(out)@ + psb_header_bytes(*self),
            psb_header_wf(*self) ==> psb_fields_at(
                final(out)@.subrange(old(out)@.len() as int, final(out)@.len() as int),
                *self,
            ),
    {
        let mut magic = psb_magic_bytes();
        out.append(&mut magic);
        put_u16(out, self.version);
        put_u16(out, self.header_encrypt);
        put_u32(out, self.header_length);
        put_u32(out, self.offset_names);
        put_u32(out, self.offset_strings);
        put_u32(out, self.offset_strings_data);
        put_u32(out, self.offset_chunk_offsets);
        put_u32(out, self.offset_chunk_lengths);
        put_u32(out, self.offset_chunk_data);
        put_u32(out, self.offset_entries);
        put_opt_u32(out, self.checksum);
        put_opt_u32(out, self.offset_extra_chunk_offsets);
        put_opt_u32(out, self.offset_extra_chunk_lengths);
        put_opt_u32(out, self.offset_extra_chunk_data);
        assert(out@ =~= old(out)@ + psb_header_bytes(*self));
        proof {
            assert(out@.subrange(old(out)@.len() as int, out@.len() as int) =~= psb_header_bytes(
                *self,
            ));
            if psb_header_wf(*self) {
                lemma_psb_write_fields(*self);
            }
        }
    }

    /// Reads the header at the start of `data`.
    pub fn parse(data: &[u8]) -> (res: Result<(PsbHeader, usize), PsbError>)
        ensures
            match (res, parse_psb_header(data@)) {
                (Ok((h, k)), Ok((g, j))) => h == g && k as int == j,
                (Err(e), Err(f)) => e == f,
                _ => false,
            },
            res matches Ok((h, k)) ==> psb_fields_at(data@, h) && psb_header_wf(h),
    {
        proof {
            lemma_psb_parse_fields(data@);
        }
        let n = data.len();
        if n < 4 {
            return Err(PsbError::Truncated);
        }
        if !magic_at(data, 0, &psb_magic_bytes()) {
            return Err(PsbError::BadMagic);
        }
        if n < 6 {
            return Err(PsbError::Truncated);
        }
        let version = read_u16(data, 4);
        if !(1 <= version && version <= 4) {
            return Err(PsbError::UnsupportedVersion);
        }
        let len: usize = if version >= 4 {
            56
        } else if version == 3 {
            44
        } else {
            40
        };
        if n < len {
            return Err(PsbError::Truncated);
        }
        let h = PsbHeader {
            version,
            header_encrypt: read_u16(data, 6),
            header_length: read_u32(data, 8),
            offset_names: read_u32(data, 12),
            offset_strings: read_u32(data, 16),
            offset_strings_data: read_u32(data, 20),
            offset_chunk_offsets: read_u32(data, 24),
            offset_chunk_lengths: read_u32(data, 28),
            offset_chunk_data: read_u32(data, 32),
            offset_entries: read_u32(data, 36),
            checksum: if version >= 3 {
                Some(read_u32(data, 40))
            } else {
                None
            },
            offset_extra_chunk_offsets: if version >= 4 {
                Some(read_u32(data, 44))
            } else {
                None
            },
            offset_extra_chunk_lengths: if version >= 4 {
                Some(read_u32(data, 48))
            } else {
                None
            },
            offset_extra_chunk_data: if version >= 4 {
                Some(read_u32(data, 52))
            } else {
                None
            },
        };
        Ok((h, len))
    }
}

/// A well-formed header, at the start of any bytes, reads back as itself.
pub proof fn lemma_psb_header_roundtrip(h: PsbHeader, rest: Seq<u8>)
    requires
        psb_header_wf(h),
    ensures
        parse_psb_header(psb_header_bytes(h) + rest) == Ok::<(PsbHeader, int), PsbError>(
            (h, psb_header_bytes(h).len() as int),
        ),
{
    lemma_auto_spec_u16_to_from_le_bytes();
    lemma_auto_spec_u32_to_from_le_bytes();
    let s = psb_header_bytes(h) + rest;
    let parts = seq![
        spec_u16_to_le_bytes(h.version),
        spec_u16_to_le_bytes(h.header_encrypt),
        spec_u32_to_le_bytes(h.header_length),
        spec_u32_to_le_bytes(h.offset_names),
        spec_u32_to_le_bytes(h.offset_strings),
        spec_u32_to_le_bytes(h.offset_strings_data),
        spec_u32_to_le_bytes(h.offset_chunk_offsets),
        spec_u32_to_le_bytes(h.offset_chunk_lengths),
        spec_u32_to_le_bytes(h.offset_chunk_data),
        spec_u32_to_le_bytes(h.offset_entries),
    ];
    let m = psb_magic();
    let b = psb_header_bytes(h);
    assert(s.subrange(0, s.len() as int) =~= s);
    lemma_located_split(s, 0, b, rest);
    let opt = opt_u32_bytes(h.checksum) + opt_u32_bytes(h.offset_extra_chunk_offsets)
        + opt_u32_bytes(h.offset_extra_chunk_lengths) + opt_u32_bytes(h.offset_extra_chunk_data);
    let fixed = m + parts[0] + parts[1] + parts[2] + parts[3] + parts[4] + parts[5] + parts[6]
        + parts[7] + parts[8] + parts[9];
    assert(b =~= fixed + opt);
    lemma_located_split(s, 0, fixed, opt);
    assert forall|k: int| 0 <= k < 40 implies #[trigger] s[k] == fixed[k] by {
        assert(s.subrange(0, fixed.len() as int)[k] == fixed[k]);
    }
    assert(s.subrange(0, 4) =~= m);
    assert(s.subrange(4, 6) =~= parts[0]);
    assert(s.subrange(6, 8) =~= parts[1]);
    assert(s.subrange(8, 12) =~= parts[2]);
    assert(s.subrange(12, 16) =~= parts[3]);
    assert(s.subrange(16, 20) =~= parts[4]);
    assert(s.subrange(20, 24) =~= parts[5]);
    assert(s.subrange(24, 28) =~= parts[6]);
    assert(s.subrange(28, 32) =~= parts[7]);
    assert(s.subrange(32, 36) =~= parts[8]);
    assert(s.subrange(36, 40) =~= parts[9]);
    assert(le_u16_at(s, 4) == h.version);
    assert(le_u16_at(s, 6) == h.header_encrypt);
    assert(le_u32_at(s, 8) == h.header_length);
    assert(le_u32_at(s, 12) == h.offset_names);
    assert(le_u32_at(s, 16) == h.offset_strings);
    assert(le_u32_at(s, 20) == h.offset_strings_data);
    assert(le_u32_at(s, 24) == h.offset_chunk_offsets);
    assert(le_u32_at(s, 28) == h.offset_chunk_lengths);
    assert(le_u32_at(s, 32) == h.offset_chunk_data);
    assert(le_u32_at(s, 36) == h.offset_entries);
    assert(fixed.len() == 40);
    assert(opt_u32_bytes(h.checksum).len() == if h.version >= 3 { 4int } else { 0int });
    assert(opt_u32_bytes(h.offset_extra_chunk_offsets).len() == if h.version >= 4 { 4int } else { 0int });
    assert(opt_u32_bytes(h.offset_extra_chunk_lengths).len() == if h.version >= 4 { 4int } else { 0int });
    assert(opt_u32_bytes(h.offset_extra_chunk_data).len() == if h.version >= 4 { 4int } else { 0int });
    assert(opt.len() == psb_header_len(h.version) - 40);
    assert(b.len() == psb_header_len(h.version));
    if h.version >= 3 {
        let c = h.checksum.unwrap();
        assert(opt =~= opt_u32_bytes(h.checksum) + (opt_u32_bytes(h.offset_extra_chunk_offsets)
            + opt_u32_bytes(h.offset_extra_chunk_lengths) + opt_u32_bytes(h.offset_extra_chunk_data)));
        lemma_located_split(s, 40, opt_u32_bytes(h.checksum), opt_u32_bytes(h.offset_extra_chunk_offsets)
            + opt_u32_bytes(h.offset_extra_chunk_lengths) + opt_u32_bytes(h.offset_extra_chunk_data));
        assert(le_u32_at(s, 40) == c);
    }
    if h.version >= 4 {
        let o1 = opt_u32_bytes(h.checksum);
        let o2 = opt_u32_bytes(h.offset_extra_chunk_offsets);
        let o3 = opt_u32_bytes(h.offset_extra_chunk_lengths);
        let o4 = opt_u32_bytes(h.offset_extra_chunk_data);
        lemma_located_split(s, 40, o1 + o2 + o3, o4);
        lemma_located_split(s, 40, o1 + o2, o3);
        lemma_located_split(s, 40, o1, o2);
        assert(le_u32_at(s, 44) == h.offset_extra_chunk_offsets.unwrap());
        assert(le_u32_at(s, 48) == h.offset_extra_chunk_lengths.unwrap());
        assert(le_u32_at(s, 52) == h.offset_extra_chunk_data.unwrap());
    }
}


/// Each field of `h` stands at its place in `s`, little-endian, in the order
/// of the file: the version at byte 4, the encryption flag at 6, the header
/// length at 8, then the offsets of the names (12), the strings (16), the
/// string data (20), the chunk offsets (24), the chunk lengths (28), the
/// chunk data (32) and the entries (36); the checksum at 40 and the extra
/// chunk offsets, lengths and data at 44, 48 and 52 where they are there.
pub open spec fn psb_fields_at(s: Seq<u8>, h: PsbHeader) -> bool {
    &&& s.subrange(0, 4) == psb_magic()
    &&& s.subrange(4, 6) == spec_u16_to_le_bytes(h.version)
    &&& s.subrange(6, 8) == spec_u16_to_le_bytes(h.header_encrypt)
    &&& s.subrange(8, 12) == spec_u32_to_le_bytes(h.header_length)
    &&& s.subrange(12, 16) == spec_u32_to_le_bytes(h.offset_names)
    &&& s.subrange(16, 20) == spec_u32_to_le_bytes(h.offset_strings)
    &&& s.subrange(20, 24) == spec_u32_to_le_bytes(h.offset_strings_data)
    &&& s.subrange(24, 28) == spec_u32_to_le_bytes(h.offset_chunk_offsets)
    &&& s.subrange(28, 32) == spec_u32_to_le_bytes(h.offset_chunk_lengths)
    &&& s.subrange(32, 36) == spec_u32_to_le_bytes(h.offset_chunk_data)
    &&& s.subrange(36, 40) == spec_u32_to_le_bytes(h.offset_entries)
    &&& (h.checksum matches Some(c) ==> s.subrange(40, 44) == spec_u32_to_le_bytes(c))
    &&& (h.offset_extra_chunk_offsets matches Some(c) ==> s.subrange(44, 48)
        == spec_u32_to_le_bytes(c))
    &&& (h.offset_extra_chunk_lengths matches Some(c) ==> s.subrange(48, 52)
        == spec_u32_to_le_bytes(c))
    &&& (h.offset_extra_chunk_data matches Some(c) ==> s.subrange(52, 56)
        == spec_u32_to_le_bytes(c))
}

/// A header read from bytes is made of the bytes at the places of its
/// fields: the offset of the names is the little-endian `u32` at bytes 12 to
/// 16, that of the strings the one at 16 to 20, and so on for every field.
/// It takes 40 bytes for versions 1 and 2, 44 for version 3 and 56 for
/// version 4, and has exactly the optional fields of its version.
pub proof fn lemma_psb_parse_fields(s: Seq<u8>)
    ensures
        parse_psb_header(s) matches Ok((h, n)) ==> {
            &&& psb_fields_at(s, h)
            &&& psb_header_wf(h)
            &&& n == (if h.version <= 2 { 40int } else if h.version == 3 { 44int } else { 56int })
            &&& n <= s.len()
        },
{
    lemma_auto_spec_u16_to_from_le_bytes();
    lemma_auto_spec_u32_to_from_le_bytes();
    if let Ok((h, n)) = parse_psb_header(s) {
        assert(s.subrange(4, 6).len() == 2);
        assert(spec_u16_to_le_bytes(le_u16_at(s, 4)) == s.subrange(4, 6));
        assert(spec_u16_to_le_bytes(le_u16_at(s, 6)) == s.subrange(6, 8));
        assert(spec_u32_to_le_bytes(le_u32_at(s, 8)) == s.subrange(8, 12));
        assert(spec_u32_to_le_bytes(le_u32_at(s, 12)) == s.subrange(12, 16));
        assert(spec_u32_to_le_bytes(le_u32_at(s, 16)) == s.subrange(16, 20));
        assert(spec_u32_to_le_bytes(le_u32_at(s, 20)) == s.subrange(20, 24));
        assert(spec_u32_to_le_bytes(le_u32_at(s, 24)) == s.subrange(24, 28));
        assert(spec_u32_to_le_bytes(le_u32_at(s, 28)) == s.subrange(28, 32));
        assert(spec_u32_to_le_bytes(le_u32_at(s, 32)) == s.subrange(32, 36));
        assert(spec_u32_to_le_bytes(le_u32_at(s, 36)) == s.subrange(36, 40));
        if h.version >= 3 {
            assert(spec_u32_to_le_bytes(le_u32_at(s, 40)) == s.subrange(40, 44));
        }
        if h.version >= 4 {
            assert(spec_u32_to_le_bytes(le_u32_at(s, 44)) == s.subrange(44, 48));
            assert(spec_u32_to_le_bytes(le_u32_at(s, 48)) == s.subrange(48, 52));
            assert(spec_u32_to_le_bytes(le_u32_at(s, 52)) == s.subrange(52, 56));
        }
    }
}

/// Writing a well-formed header puts each field at its place, little-endian,
/// in the order of the file: the offset of the names at bytes 12 to 16, that
/// of the strings at 16 to 20, and so on for every field.
pub proof fn lemma_psb_write_fields(h: PsbHeader)
    requires
        psb_header_wf(h),
    ensures
        psb_fields_at(psb_header_bytes(h), h),
        psb_header_bytes(h).len() == (if h.version <= 2 { 40int } else if h.version == 3 {
            44int
        } else {
            56int
        }),
{
    let b = psb_header_bytes(h);
    lemma_psb_header_roundtrip(h, Seq::<u8>::empty());
    assert(b + Seq::<u8>::empty() =~= b);
    lemma_psb_parse_fields(b);
}

} // verus!
