//! The records of an XP3 archive's file index, their bytes, and reading and
//! writing them.
//!
//! An index is a run of entries; each entry is a `File` record holding the
//! size of the three records that follow it: `info` (sizes and name),
//! `segm` (where the stored pieces of the file lie) and `adlr` (the Adler-32
//! checksum). All integers are little-endian.

use vstd::prelude::*;
use vstd::bytes::*;
use vstd::slice::slice_subrange;
use crate::encoding::{
    decode_utf16, decode_utf16_scalars, encode_utf16, le_units, string_to_utf16le,
    units_le_bytes, units_to_le_bytes, utf16le_to_string, utf16le_units,
};
use crate::xp3::le::{
    le_u16_at, le_u32_at, le_u64_at, put_bytes, put_u16, put_u32, put_u64, read_u16, read_u32,
    read_u64,
};

verus! {

/// The magic of a `File` record.
pub open spec fn file_magic() -> Seq<u8> {
    seq![0x46u8, 0x69u8, 0x6Cu8, 0x65u8]
}

/// The magic of an `info` record.
pub open spec fn info_magic() -> Seq<u8> {
    seq![0x69u8, 0x6Eu8, 0x66u8, 0x6Fu8]
}

/// The magic of a `segm` record.
pub open spec fn segm_magic() -> Seq<u8> {
    seq![0x73u8, 0x65u8, 0x67u8, 0x6Du8]
}

/// The magic of an `adlr` record, which holds its own size (4).
pub open spec fn adlr_magic() -> Seq<u8> {
    seq![0x61u8, 0x64u8, 0x6Cu8, 0x72u8, 4u8, 0u8, 0u8, 0u8, 0u8, 0u8, 0u8, 0u8]
}

/// The header in front of the index: whether the index is compressed, the
/// size it is stored in, and, for a compressed index, its size uncompressed.
#[derive(Clone, Copy, Debug)]
pub struct FileIndexHeader {
    pub compression_flag: u8,
    pub compression_size: u64,
    pub raw_size: Option<u64>,
}

impl View for FileIndexHeader {
    type V = FileIndexHeader;

    open spec fn view(&self) -> FileIndexHeader {
        *self
    }
}

/// The `File` record: the size of the records of the entry that follow it.
#[derive(Clone, Copy, Debug)]
pub struct FileIndexFile {
    pub entry_size: u64,
}

impl View for FileIndexFile {
    type V = FileIndexFile;

    open spec fn view(&self) -> FileIndexFile {
        *self
    }
}

/// The `info` record: flags, sizes and the name of a file.
#[derive(Clone, Debug)]
pub struct FileIndexInfo {
    pub entry_size: u64,
    pub flag: u32,
    pub raw_size: u64,
    pub compressed_size: u64,
    pub name_length: u16,
    pub name: String,
}

/// The `info` record with the name as its characters.
pub struct FileIndexInfoView {
    pub entry_size: u64,
    pub flag: u32,
    pub raw_size: u64,
    pub compressed_size: u64,
    pub name_length: u16,
    pub name: Seq<char>,
}

impl View for FileIndexInfo {
    type V = FileIndexInfoView;

    open spec fn view(&self) -> FileIndexInfoView {
        FileIndexInfoView {
            entry_size: self.entry_size,
            flag: self.flag,
            raw_size: self.raw_size,
            compressed_size: self.compressed_size,
            name_length: self.name_length,
            name: self.name@,
        }
    }
}

/// One stored piece of a file: flag 1 when it is zlib-compressed, where it
/// lies in the archive, and its two sizes.
#[derive(Clone, Copy, Debug)]
pub struct FileIndexSegmentEntry {
    pub flag: u32,
    pub offset: u64,
    pub raw_size: u64,
    pub compressed_size: u64,
}

impl View for FileIndexSegmentEntry {
    type V = FileIndexSegmentEntry;

    open spec fn view(&self) -> FileIndexSegmentEntry {
        *self
    }
}

/// The `segm` record: its size (28 bytes a piece) and the pieces.
#[derive(Clone, Debug)]
pub struct FileIndexSegment {
    pub segment_size: u64,
    pub segment: Vec<FileIndexSegmentEntry>,
}

/// The `segm` record with its pieces as a sequence.
pub struct FileIndexSegmentView {
    pub segment_size: u64,
    pub segment: Seq<FileIndexSegmentEntry>,
}

impl View for FileIndexSegment {
    type V = FileIndexSegmentView;

    open spec fn view(&self) -> FileIndexSegmentView {
        FileIndexSegmentView { segment_size: self.segment_size, segment: self.segment@ }
    }
}

/// The `adlr` record: the Adler-32 checksum of the file's data.
#[derive(Clone, Copy, Debug)]
pub struct FileIndexAdler32 {
    pub adler32: u32,
}

impl View for FileIndexAdler32 {
    type V = FileIndexAdler32;

    open spec fn view(&self) -> FileIndexAdler32 {
        *self
    }
}

/// One entry of the index.
#[derive(Clone, Debug)]
pub struct FileIndexEntry {
    pub file: FileIndexFile,
    pub info: FileIndexInfo,
    pub segment: FileIndexSegment,
    pub adler32: FileIndexAdler32,
}

/// One entry of the index, its records taken by their views.
pub struct FileIndexEntryView {
    pub file: FileIndexFile,
    pub info: FileIndexInfoView,
    pub segment: FileIndexSegmentView,
    pub adler32: FileIndexAdler32,
}

impl View for FileIndexEntry {
    type V = FileIndexEntryView;

    open spec fn view(&self) -> FileIndexEntryView {
        FileIndexEntryView {
            file: self.file,
            info: self.info@,
            segment: self.segment@,
            adler32: self.adler32,
        }
    }
}

/// Entries taken by their views.
pub open spec fn entries_view(es: Seq<FileIndexEntry>) -> Seq<FileIndexEntryView> {
    es.map_values(|e: FileIndexEntry| e@)
}

/* The bytes of the records. */

/// The bytes of the index header; the uncompressed size is written when it
/// is there.
pub open spec fn header_bytes(h: FileIndexHeader) -> Seq<u8> {
    seq![h.compression_flag] + spec_u64_to_le_bytes(h.compression_size) + match h.raw_size {
        Some(r) => spec_u64_to_le_bytes(r),
        None => Seq::<u8>::empty(),
    }
}

/// The bytes of a `File` record.
pub open spec fn file_bytes(f: FileIndexFile) -> Seq<u8> {
    file_magic() + spec_u64_to_le_bytes(f.entry_size)
}

/// The bytes of an `info` record: the name is written as all of its UTF-16
/// code units, whatever `name_length` says.
pub open spec fn info_bytes(i: FileIndexInfoView) -> Seq<u8> {
    info_magic() + spec_u64_to_le_bytes(i.entry_size) + spec_u32_to_le_bytes(i.flag)
        + spec_u64_to_le_bytes(i.raw_size) + spec_u64_to_le_bytes(i.compressed_size)
        + spec_u16_to_le_bytes(i.name_length) + units_le_bytes(encode_utf16(i.name))
}

/// The 28 bytes of a piece.
pub open spec fn segment_entry_bytes(e: FileIndexSegmentEntry) -> Seq<u8> {
    spec_u32_to_le_bytes(e.flag) + spec_u64_to_le_bytes(e.offset) + spec_u64_to_le_bytes(
        e.raw_size,
    ) + spec_u64_to_le_bytes(e.compressed_size)
}

/// The bytes of pieces, one after another.
pub open spec fn segment_entries_bytes(es: Seq<FileIndexSegmentEntry>) -> Seq<u8> {
    Seq::new((es.len() * 28) as nat, |j: int| segment_entry_bytes(es[j / 28])[j % 28])
}

/// The bytes of a `segm` record.
pub open spec fn segment_bytes(g: FileIndexSegmentView) -> Seq<u8> {
    segm_magic() + spec_u64_to_le_bytes(g.segment_size) + segment_entries_bytes(g.segment)
}

/// The bytes of an `adlr` record.
pub open spec fn adler_bytes(a: FileIndexAdler32) -> Seq<u8> {
    adlr_magic() + spec_u32_to_le_bytes(a.adler32)
}

/// The bytes of an entry.
pub open spec fn entry_bytes(e: FileIndexEntryView) -> Seq<u8> {
    file_bytes(e.file) + info_bytes(e.info) + segment_bytes(e.segment) + adler_bytes(e.adler32)
}

/// The bytes of an index: its entries one after another.
pub open spec fn index_bytes(es: Seq<FileIndexEntryView>) -> Seq<u8>
    decreases es.len(),
{
    if es.len() == 0 {
        Seq::<u8>::empty()
    } else {
        entry_bytes(es[0]) + index_bytes(es.drop_first())
    }
}

/* Reading the records at a position. */

/// The index header at position `p`, with the number of its bytes: the
/// uncompressed size is there when the flag is not 0.
pub open spec fn parse_header_at(s: Seq<u8>, p: int) -> Option<(FileIndexHeader, int)> {
    if p < 0 || s.len() < p + 9 {
        None
    } else if s[p] == 0 {
        Some((FileIndexHeader { compression_flag: 0, compression_size: le_u64_at(s, p + 1), raw_size: None }, 9))
    } else if s.len() < p + 17 {
        None
    } else {
        Some((FileIndexHeader {
            compression_flag: s[p],
            compression_size: le_u64_at(s, p + 1),
            raw_size: Some(le_u64_at(s, p + 9)),
        }, 17))
    }
}

/// The `File` record at position `p`.
pub open spec fn parse_file_at(s: Seq<u8>, p: int) -> Option<(FileIndexFile, int)> {
    if p < 0 || s.len() < p + 12 || s.subrange(p, p + 4) != file_magic() {
        None
    } else {
        Some((FileIndexFile { entry_size: le_u64_at(s, p + 4) }, 12))
    }
}

/// The `info` record at position `p`: `name_length` UTF-16 code units of
/// name, which must be well-formed.
pub open spec fn parse_info_at(s: Seq<u8>, p: int) -> Option<(FileIndexInfoView, int)> {
    if p < 0 || s.len() < p + 34 || s.subrange(p, p + 4) != info_magic() {
        None
    } else {
        let n = le_u16_at(s, p + 32) as int;
        if s.len() < p + 34 + 2 * n {
            None
        } else {
            match decode_utf16(le_units(s.subrange(p + 34, p + 34 + 2 * n))) {
                None => None,
                Some(name) => Some((FileIndexInfoView {
                    entry_size: le_u64_at(s, p + 4),
                    flag: le_u32_at(s, p + 12),
                    raw_size: le_u64_at(s, p + 16),
                    compressed_size: le_u64_at(s, p + 24),
                    name_length: le_u16_at(s, p + 32),
                    name,
                }, 34 + 2 * n)),
            }
        }
    }
}

/// The piece at position `p`.
pub open spec fn segment_entry_at(s: Seq<u8>, p: int) -> FileIndexSegmentEntry {
    FileIndexSegmentEntry {
        flag: le_u32_at(s, p),
        offset: le_u64_at(s, p + 4),
        raw_size: le_u64_at(s, p + 12),
        compressed_size: le_u64_at(s, p + 20),
    }
}

/// The `segm` record at position `p`: as many pieces as whole 28s in its
/// size.
pub open spec fn parse_segment_at(s: Seq<u8>, p: int) -> Option<(FileIndexSegmentView, int)> {
    if p < 0 || s.len() < p + 12 || s.subrange(p, p + 4) != segm_magic() {
        None
    } else {
        let size = le_u64_at(s, p + 4);
        let count = (size / 28) as int;
        if s.len() < p + 12 + 28 * count {
            None
        } else {
            Some((FileIndexSegmentView {
                segment_size: size,
                segment: Seq::new(count as nat, |i: int| segment_entry_at(s, p + 12 + 28 * i)),
            }, 12 + 28 * count))
        }
    }
}

/// The `adlr` record at position `p`.
pub open spec fn parse_adler_at(s: Seq<u8>, p: int) -> Option<(FileIndexAdler32, int)> {
    if p < 0 || s.len() < p + 16 || s.subrange(p, p + 12) != adlr_magic() {
        None
    } else {
        Some((FileIndexAdler32 { adler32: le_u32_at(s, p + 12) }, 16))
    }
}

/// The entry at position `p`: its four records one after another.
pub open spec fn parse_entry_at(s: Seq<u8>, p: int) -> Option<(FileIndexEntryView, int)> {
    match parse_file_at(s, p) {
        None => None,
        Some((f, k1)) => match parse_info_at(s, p + k1) {
            None => None,
            Some((i, k2)) => match parse_segment_at(s, p + k1 + k2) {
                None => None,
                Some((g, k3)) => match parse_adler_at(s, p + k1 + k2 + k3) {
                    None => None,
                    Some((a, k4)) => Some((
                        FileIndexEntryView { file: f, info: i, segment: g, adler32: a },
                        k1 + k2 + k3 + k4,
                    )),
                },
            },
        },
    }
}

/// The entries from position `p` to the end: entry after entry until the
/// bytes end exactly; `None` where an entry cannot be read.
pub open spec fn parse_entries_from(s: Seq<u8>, p: int) -> Option<Seq<FileIndexEntryView>>
    decreases s.len() - p,
{
    if p < 0 || p > s.len() {
        None
    } else if p == s.len() {
        Some(Seq::<FileIndexEntryView>::empty())
    } else {
        match parse_entry_at(s, p) {
            None => None,
            Some((e, k)) => if 0 < k && p + k <= s.len() {
                match parse_entries_from(s, p + k) {
                    Some(rest) => Some(seq![e] + rest),
                    None => None,
                }
            } else {
                None
            },
        }
    }
}

/* What makes a record read back as itself. */

/// The flag says whether the uncompressed size is there.
pub open spec fn header_wf(h: FileIndexHeader) -> bool {
    (h.compression_flag == 0) == (h.raw_size is None)
}

/// `name_length` counts the UTF-16 code units of the name.
pub open spec fn info_wf(i: FileIndexInfoView) -> bool {
    i.name_length as int == encode_utf16(i.name).len()
}

/// The size counts the pieces, 28 bytes each.
pub open spec fn segment_wf(g: FileIndexSegmentView) -> bool {
    g.segment.len() == g.segment_size / 28
}

/// Both the `info` and the `segm` record read back as themselves.
pub open spec fn entry_wf(e: FileIndexEntryView) -> bool {
    info_wf(e.info) && segment_wf(e.segment)
}

/// A value read with the number of its bytes, matching what the spec reads.
pub open spec fn read_as<T: View>(res: Option<(T, usize)>, expected: Option<(T::V, int)>) -> bool {
    match (res, expected) {
        (None, None) => true,
        (Some((v, k)), Some((w, j))) => v@ == w && k as int == j,
        _ => false,
    }
}

/// Puts entries in front of the result of reading the rest.
pub open spec fn prepend_entries(
    acc: Seq<FileIndexEntryView>,
    rest: Option<Seq<FileIndexEntryView>>,
) -> Option<Seq<FileIndexEntryView>> {
    match rest {
        Some(r) => Some(acc + r),
        None => None,
    }
}

/// Whether `magic` stands at `pos` of `data`.
pub(crate) fn magic_at(data: &[u8], pos: usize, magic: &Vec<u8>) -> (res: bool)
    requires
        pos <= data@.len(),
    ensures
        res == (pos + magic@.len() <= data@.len() && data@.subrange(
            pos as int,
            pos + magic@.len(),
        ) == magic@),
{
    let n = data.len();
    let m = magic.len();
    if n - pos < m {
        return false;
    }
    let mut i: usize = 0;
    while i < m
        invariant
            i <= m,
            n == data@.len(),
            m == magic@.len(),
            pos + m <= n,
            forall|j: int| 0 <= j < i ==> data@[pos + j] == magic@[j],
        decreases m - i,
    {
        if data[pos + i] != magic[i] {
            assert(data@.subrange(pos as int, pos + m)[i as int] != magic@[i as int]);
            return false;
        }
        i = i + 1;
    }
    assert(data@.subrange(pos as int, pos + m) =~= magic@);
    true
}

fn file_magic_bytes() -> (v: Vec<u8>)
    ensures
        v@ == file_magic(),
{
    let mut v: Vec<u8> = Vec::new();
    v.push(0x46u8);
    v.push(0x69u8);
    v.push(0x6Cu8);
    v.push(0x65u8);
    assert(v@ =~= file_magic());
    v
}

fn info_magic_bytes() -> (v: Vec<u8>)
    ensures
        v@ == info_magic(),
{
    let mut v: Vec<u8> = Vec::new();
    v.push(0x69u8);
    v.push(0x6Eu8);
    v.push(0x66u8);
    v.push(0x6Fu8);
    assert(v@ =~= info_magic());
    v
}

fn segm_magic_bytes() -> (v: Vec<u8>)
    ensures
        v@ == segm_magic(),
{
    let mut v: Vec<u8> = Vec::new();
    v.push(0x73u8);
    v.push(0x65u8);
    v.push(0x67u8);
    v.push(0x6Du8);
    assert(v@ =~= segm_magic());
    v
}

fn adlr_magic_bytes() -> (v: Vec<u8>)
    ensures
        v@ == adlr_magic(),
{
    let mut v: Vec<u8> = Vec::new();
    v.push(0x61u8);
    v.push(0x64u8);
    v.push(0x6Cu8);
    v.push(0x72u8);
    v.push(4u8);
    let mut i: usize = 0;
    while i < 7
        invariant
            i <= 7,
            v@ =~= seq![0x61u8, 0x64u8, 0x6Cu8, 0x72u8, 4u8] + Seq::new(i as nat, |k: int| 0u8),
        decreases 7 - i,
    {
        v.push(0u8);
        i = i + 1;
    }
    assert(v@ =~= adlr_magic());
    v
}

impl FileIndexHeader {
    /// Writes the header's bytes.
    pub fn write(&self, out: &mut Vec<u8>)
        ensures
            final(out)@ == old(out)@ + header_bytes(*self),
    {
        out.push(self.compression_flag);
        put_u64(out, self.compression_size);
        match self.raw_size {
            Some(r) => put_u64(out, r),
            None => {},
        }
        assert(out@ =~= old(out)@ + header_bytes(*self));
    }

    /// Reads the header at `pos`.
    pub fn parse(data: &[u8], pos: usize) -> (res: Option<(FileIndexHeader, usize)>)
        ensures
            read_as(res, parse_header_at(data@, pos as int)),
            res matches Some((_v, k)) ==> pos + k <= data@.len(),
    {
        let n = data.len();
        if pos > n || n - pos < 9 {
            return None;
        }
        let flag = data[pos];
        let size = read_u64(data, pos + 1);
        if flag == 0 {
            Some((FileIndexHeader { compression_flag: 0, compression_size: size, raw_size: None }, 9))
        } else if n - pos < 17 {
            None
        } else {
            let raw = read_u64(data, pos + 9);
            Some((
                FileIndexHeader { compression_flag: flag, compression_size: size, raw_size: Some(raw) },
                17,
            ))
        }
    }
}

impl FileIndexFile {
    /// Writes the `File` record.
    pub fn write(&self, out: &mut Vec<u8>)
        ensures
            final(out)@ == old(out)@ + file_bytes(*self),
    {
        put_bytes(out, file_magic_bytes());
        put_u64(out, self.entry_size);
        assert(out@ =~= old(out)@ + file_bytes(*self));
    }

    /// Reads the `File` record at `pos`.
    pub fn parse(data: &[u8], pos: usize) -> (res: Option<(FileIndexFile, usize)>)
        ensures
            read_as(res, parse_file_at(data@, pos as int)),
            res matches Some((_v, k)) ==> pos + k <= data@.len(),
    {
        let n = data.len();
        if pos > n || n - pos < 12 {
            return None;
        }
        if !magic_at(data, pos, &file_magic_bytes()) {
            return None;
        }
        Some((FileIndexFile { entry_size: read_u64(data, pos + 4) }, 12))
    }
}

impl FileIndexInfo {
    /// Writes the `info` record.
    pub fn write(&self, out: &mut Vec<u8>)
        ensures
            final(out)@ == old(out)@ + info_bytes(self@),
    {
        put_bytes(out, info_magic_bytes());
        put_u64(out, self.entry_size);
        put_u32(out, self.flag);
        put_u64(out, self.raw_size);
        put_u64(out, self.compressed_size);
        put_u16(out, self.name_length);
        let units = string_to_utf16le(self.name.clone());
        put_bytes(out, units_to_le_bytes(units.as_slice()));
        assert(out@ =~= old(out)@ + info_bytes(self@));
    }

    /// Reads the `info` record at `pos`.
    pub fn parse(data: &[u8], pos: usize) -> (res: Option<(FileIndexInfo, usize)>)
        ensures
            read_as(res, parse_info_at(data@, pos as int)),
            res matches Some((_v, k)) ==> pos + k <= data@.len(),
    {
        let n = data.len();
        if pos > n || n - pos < 34 {
            return None;
        }
        if !magic_at(data, pos, &info_magic_bytes()) {
            return None;
        }
        let entry_size = read_u64(data, pos + 4);
        let flag = read_u32(data, pos + 12);
        let raw_size = read_u64(data, pos + 16);
        let compressed_size = read_u64(data, pos + 24);
        let name_length = read_u16(data, pos + 32);
        let name_bytes = 2 * (name_length as usize);
        if n - pos - 34 < name_bytes {
            return None;
        }
        let units = utf16le_units(slice_subrange(data, pos + 34, pos + 34 + name_bytes));
        if decode_utf16_scalars(units.as_slice()).is_none() {
            return None;
        }
        let name = utf16le_to_string(units.as_slice());
        Some((
            FileIndexInfo { entry_size, flag, raw_size, compressed_size, name_length, name },
            34 + name_bytes,
        ))
    }
}

impl FileIndexSegmentEntry {
    /// Writes the 28 bytes of the piece.
    pub fn write(&self, out: &mut Vec<u8>)
        ensures
            final(out)@ == old(out)@ + segment_entry_bytes(*self),
    {
        put_u32(out, self.flag);
        put_u64(out, self.offset);
        put_u64(out, self.raw_size);
        put_u64(out, self.compressed_size);
        assert(out@ =~= old(out)@ + segment_entry_bytes(*self));
    }
}

proof fn lemma_segment_entries_push(es: Seq<FileIndexSegmentEntry>, e: FileIndexSegmentEntry)
    ensures
        segment_entries_bytes(es.push(e)) == segment_entries_bytes(es) + segment_entry_bytes(e),
{
    crate::xp3::le::lemma_le_roundtrip();
    let n = es.len() as int;
    assert(segment_entry_bytes(e).len() == 28);
    assert forall|j: int| 0 <= j < 28 * (n + 1) implies #[trigger] segment_entries_bytes(
        es.push(e),
    )[j] == (segment_entries_bytes(es) + segment_entry_bytes(e))[j] by {
        if j < 28 * n {
            assert(j / 28 < n);
        } else {
            assert(j / 28 == n);
            assert(j % 28 == j - 28 * n);
        }
    }
    assert(segment_entries_bytes(es.push(e)) =~= segment_entries_bytes(es) + segment_entry_bytes(
        e,
    ));
}

impl FileIndexSegment {
    /// Writes the `segm` record.
    pub fn write(&self, out: &mut Vec<u8>)
        ensures
            final(out)@ == old(out)@ + segment_bytes(self@),
    {
        put_bytes(out, segm_magic_bytes());
        put_u64(out, self.segment_size);
        let ghost start = out@;
        let n = self.segment.len();
        let mut i: usize = 0;
        assert(self.segment@.take(0) =~= Seq::<FileIndexSegmentEntry>::empty());
        assert(start =~= start + segment_entries_bytes(self.segment@.take(0)));
        while i < n
            invariant
                i <= n,
                n == self.segment@.len(),
                out@ == start + segment_entries_bytes(self.segment@.take(i as int)),
            decreases n - i,
        {
            self.segment[i].write(out);
            proof {
                lemma_segment_entries_push(self.segment@.take(i as int), self.segment@[i as int]);
                assert(self.segment@.take(i + 1) =~= self.segment@.take(i as int).push(
                    self.segment@[i as int],
                ));
            }
            i = i + 1;
        }
        assert(self.segment@.take(n as int) =~= self.segment@);
        assert(out@ =~= old(out)@ + segment_bytes(self@));
    }

    /// Reads the `segm` record at `pos`.
    pub fn parse(data: &[u8], pos: usize) -> (res: Option<(FileIndexSegment, usize)>)
        ensures
            read_as(res, parse_segment_at(data@, pos as int)),
            res matches Some((_v, k)) ==> pos + k <= data@.len(),
    {
        let n = data.len();
        if pos > n || n - pos < 12 {
            return None;
        }
        if !magic_at(data, pos, &segm_magic_bytes()) {
            return None;
        }
        let size = read_u64(data, pos + 4);
        let count64 = size / 28;
        let avail = (n - pos - 12) / 28;
        if count64 > avail as u64 {
            return None;
        }
        let count = count64 as usize;
        assert(28 * count <= n - pos - 12);
        let mut entries: Vec<FileIndexSegmentEntry> = Vec::new();
        let mut i: usize = 0;
        while i < count
            invariant
                i <= count,
                n == data@.len(),
                pos + 12 + 28 * count <= n,
                entries@ =~= Seq::new(i as nat, |k: int| segment_entry_at(data@, pos + 12 + 28 * k)),
            decreases count - i,
        {
            let at = pos + 12 + 28 * i;
            let flag = read_u32(data, at);
            let offset = read_u64(data, at + 4);
            let raw_size = read_u64(data, at + 12);
            let compressed_size = read_u64(data, at + 20);
            entries.push(FileIndexSegmentEntry { flag, offset, raw_size, compressed_size });
            i = i + 1;
        }
        Some((FileIndexSegment { segment_size: size, segment: entries }, 12 + 28 * count))
    }
}

impl FileIndexAdler32 {
    /// Writes the `adlr` record.
    pub fn write(&self, out: &mut Vec<u8>)
        ensures
            final(out)@ == old(out)@ + adler_bytes(*self),
    {
        put_bytes(out, adlr_magic_bytes());
        put_u32(out, self.adler32);
        assert(out@ =~= old(out)@ + adler_bytes(*self));
    }

    /// Reads the `adlr` record at `pos`.
    pub fn parse(data: &[u8], pos: usize) -> (res: Option<(FileIndexAdler32, usize)>)
        ensures
            read_as(res, parse_adler_at(data@, pos as int)),
            res matches Some((_v, k)) ==> pos + k <= data@.len(),
    {
        let n = data.len();
        if pos > n || n - pos < 16 {
            return None;
        }
        if !magic_at(data, pos, &adlr_magic_bytes()) {
            return None;
        }
        Some((FileIndexAdler32 { adler32: read_u32(data, pos + 12) }, 16))
    }
}

impl FileIndexEntry {
    /// Writes the entry's four records.
    pub fn write(&self, out: &mut Vec<u8>)
        ensures
            final(out)@ == old(out)@ + entry_bytes(self@),
    {
        self.file.write(out);
        self.info.write(out);
        self.segment.write(out);
        self.adler32.write(out);
        assert(out@ =~= old(out)@ + entry_bytes(self@));
    }

    /// Reads the entry at `pos`.
    pub fn parse(data: &[u8], pos: usize) -> (res: Option<(FileIndexEntry, usize)>)
        ensures
            read_as(res, parse_entry_at(data@, pos as int)),
            res matches Some((_v, k)) ==> pos + k <= data@.len(),
    {
        let _n = data.len();
        let (file, k1) = match FileIndexFile::parse(data, pos) {
            Some(r) => r,
            None => {
                return None;
            },
        };
        let (info, k2) = match FileIndexInfo::parse(data, pos + k1) {
            Some(r) => r,
            None => {
                return None;
            },
        };
        let (segment, k3) = match FileIndexSegment::parse(data, pos + k1 + k2) {
            Some(r) => r,
            None => {
                return None;
            },
        };
        let (adler32, k4) = match FileIndexAdler32::parse(data, pos + k1 + k2 + k3) {
            Some(r) => r,
            None => {
                return None;
            },
        };
        Some((FileIndexEntry { file, info, segment, adler32 }, k1 + k2 + k3 + k4))
    }
}

/// Reads the entries from `pos` to the end of `data`.
pub fn parse_entries(data: &[u8], pos: usize) -> (res: Option<Vec<FileIndexEntry>>)
    ensures
        res is Some <==> parse_entries_from(data@, pos as int) is Some,
        res matches Some(es) ==> parse_entries_from(data@, pos as int) == Some(entries_view(es@)),
{
    let n = data.len();
    if pos > n {
        return None;
    }
    let mut out: Vec<FileIndexEntry> = Vec::new();
    let mut p = pos;
    proof {
        match parse_entries_from(data@, pos as int) {
            Some(r) => {
                assert(entries_view(out@) + r =~= r);
            },
            None => {},
        }
    }
    while p < n
        invariant
            pos <= p <= n,
            n == data@.len(),
            parse_entries_from(data@, pos as int) == prepend_entries(
                entries_view(out@),
                parse_entries_from(data@, p as int),
            ),
        decreases n - p,
    {
        let ghost acc = entries_view(out@);
        match FileIndexEntry::parse(data, p) {
            None => {
                return None;
            },
            Some((e, k)) => {
                if k == 0 || k > n - p {
                    return None;
                }
                let ghost ev = e@;
                out.push(e);
                proof {
                    assert(entries_view(out@) =~= acc.push(ev));
                    match parse_entries_from(data@, p + k) {
                        Some(r) => {
                            assert(acc + (seq![ev] + r) =~= acc.push(ev) + r);
                        },
                        None => {},
                    }
                }
                p = p + k;
            },
        }
    }
    proof {
        assert(entries_view(out@) + Seq::<FileIndexEntryView>::empty() =~= entries_view(out@));
    }
    Some(out)
}

} // verus!
