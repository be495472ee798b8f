//! Reading an XP3 archive: where its index lies, the index, and the files.

use vstd::prelude::*;
use vstd::slice::slice_subrange;
use vstd::slice::slice_to_vec;
use crate::xp3::index::{
    entries_view, magic_at, parse_entries, parse_entries_from, parse_header_at, FileIndexEntry,
    FileIndexEntryView, FileIndexHeader, FileIndexSegmentEntry,
};
use crate::xp3::index::{entry_wf, header_bytes, header_wf, index_bytes};
use crate::xp3::index_laws::{
    lemma_entries_roundtrip, lemma_header_roundtrip, lemma_located_split, located,
};
use crate::xp3::le::{le_u64_at, read_u64};
use vstd::bytes::{lemma_auto_spec_u64_to_from_le_bytes, spec_u64_to_le_bytes};
use crate::zlib::{decompress, zlib_inflated};

verus! {

/// The header that a version 2.3 archive opens with: the magic, a marker,
/// and the fields up to where the position of the index is stored.
pub const V230MAGIC: [u8; 32] = [
    0x58, 0x50, 0x33, 0x0D, 0x0A, 0x20, 0x0A, 0x1A, 0x8B, 0x67, 0x01, 0x17, 0x00, 0x00, 0x00, 0x00,
    0x00, 0x00, 0x00, 0x01, 0x00, 0x00, 0x00, 0x80, 0x00, 0x00, 0x00, 0x00, 0x00, 0x00, 0x00, 0x00,
];

/// The eleven bytes that every XP3 archive opens with.
pub open spec fn xp3_magic() -> Seq<u8> {
    seq![0x58u8, 0x50u8, 0x33u8, 0x0Du8, 0x0Au8, 0x20u8, 0x0Au8, 0x1Au8, 0x8Bu8, 0x67u8, 0x01u8]
}

/// The eight bytes after the magic that mark a version 2.3 archive, whose
/// index position is stored at byte 32 rather than byte 11.
pub open spec fn v230_marker() -> Seq<u8> {
    seq![0x17u8, 0u8, 0u8, 0u8, 0u8, 0u8, 0u8, 0u8]
}

/// Why an archive, or a file in it, cannot be read.
#[derive(PartialEq, Eq, Structural, Clone, Copy, Debug)]
pub enum Xp3Error {
    /// The archive ends before its header does.
    Truncated,
    /// The archive does not open with the XP3 magic.
    NotXp3,
    /// The index header cannot be read at the stored position.
    BadIndexHeader,
    /// The compressed index does not decode.
    BadCompressedIndex,
    /// The index is not a run of entries that ends where the index ends.
    BadIndexEntry,
    /// A compressed piece of a file does not decode.
    BadCompressedData,
}

/// Where the position of the index is stored.
pub open spec fn index_offset_at(data: Seq<u8>) -> int {
    if data.subrange(11, 19) == v230_marker() {
        32
    } else {
        11
    }
}

/// What reading an archive gives: the position of the index, its header and
/// its entries.
pub open spec fn open_archive(data: Seq<u8>) -> Result<
    (u64, FileIndexHeader, Seq<FileIndexEntryView>),
    Xp3Error,
> {
    if data.len() < 11 {
        Err(Xp3Error::Truncated)
    } else if data.subrange(0, 11) != xp3_magic() {
        Err(Xp3Error::NotXp3)
    } else if data.len() < 19 || data.len() < index_offset_at(data) + 8 {
        Err(Xp3Error::Truncated)
    } else {
        let off = le_u64_at(data, index_offset_at(data));
        match parse_header_at(data, off as int) {
            None => Err(Xp3Error::BadIndexHeader),
            Some((h, k)) => {
                let start = off + k;
                if h.compression_flag == 0 {
                    match parse_entries_from(data, start) {
                        None => Err(Xp3Error::BadIndexEntry),
                        Some(es) => Ok((off, h, es)),
                    }
                } else {
                    match zlib_inflated(data.subrange(start, data.len() as int)) {
                        None => Err(Xp3Error::BadCompressedIndex),
                        Some(d) => match parse_entries_from(d, 0) {
                            None => Err(Xp3Error::BadIndexEntry),
                            Some(es) => Ok((off, h, es)),
                        },
                    }
                }
            },
        }
    }
}

/// An archive whose index header has a non-zero flag has its index read
/// from the zlib-inflated bytes after the header, wherever the position of
/// the index is stored: at byte 11 in the older layout (no version 2.3
/// marker), or at byte 32 after the marker. So the archive built from the
/// compressed bytes of entries `es` opens with exactly `es`.
pub proof fn lemma_compressed_index_opens(
    data: Seq<u8>,
    at: int,
    off: u64,
    h: FileIndexHeader,
    es: Seq<FileIndexEntryView>,
)
    requires
        data.len() >= 19,
        data.subrange(0, 11) == xp3_magic(),
        (at == 11 && data.subrange(11, 19) != v230_marker()) || (at == 32 && data.subrange(11, 19)
            == v230_marker()),
        located(data, at, spec_u64_to_le_bytes(off)),
        header_wf(h),
        h.compression_flag != 0,
        located(data, off as int, header_bytes(h)),
        zlib_inflated(data.subrange(off + header_bytes(h).len(), data.len() as int)) == Some(
            index_bytes(es),
        ),
        forall|i: int| 0 <= i < es.len() ==> #[trigger] entry_wf(es[i]),
    ensures
        open_archive(data) == Ok::<(u64, FileIndexHeader, Seq<FileIndexEntryView>), Xp3Error>(
            (off, h, es),
        ),
{
    lemma_auto_spec_u64_to_from_le_bytes();
    assert(index_offset_at(data) == at);
    assert(data.subrange(at, at + 8) == spec_u64_to_le_bytes(off));
    assert(le_u64_at(data, at) == off);
    lemma_header_roundtrip(data, off as int, h);
    let d = index_bytes(es);
    assert(d.subrange(0, d.len() as int) =~= d);
    lemma_entries_roundtrip(d, 0, es);
}

/// An archive whose index header has flag 0 has its index read from the
/// bytes right after the header, to the end of the archive, wherever the
/// position of the index is stored (byte 11 or byte 32). So the archive that
/// ends with the bytes of entries `es` after such a header opens with
/// exactly `es`.
pub proof fn lemma_plain_index_opens(
    data: Seq<u8>,
    at: int,
    off: u64,
    h: FileIndexHeader,
    es: Seq<FileIndexEntryView>,
)
    requires
        data.len() >= 19,
        data.subrange(0, 11) == xp3_magic(),
        (at == 11 && data.subrange(11, 19) != v230_marker()) || (at == 32 && data.subrange(11, 19)
            == v230_marker()),
        located(data, at, spec_u64_to_le_bytes(off)),
        header_wf(h),
        h.compression_flag == 0,
        located(data, off as int, header_bytes(h) + index_bytes(es)),
        off + header_bytes(h).len() + index_bytes(es).len() == data.len(),
        forall|i: int| 0 <= i < es.len() ==> #[trigger] entry_wf(es[i]),
    ensures
        open_archive(data) == Ok::<(u64, FileIndexHeader, Seq<FileIndexEntryView>), Xp3Error>(
            (off, h, es),
        ),
{
    lemma_auto_spec_u64_to_from_le_bytes();
    assert(index_offset_at(data) == at);
    assert(data.subrange(at, at + 8) == spec_u64_to_le_bytes(off));
    assert(le_u64_at(data, at) == off);
    lemma_located_split(data, off as int, header_bytes(h), index_bytes(es));
    lemma_header_roundtrip(data, off as int, h);
    lemma_entries_roundtrip(data, off + header_bytes(h).len(), es);
}

/// The bytes of the archive that a piece lies in: from its offset, as many
/// bytes as its stored size, as far as the archive goes.
pub open spec fn piece_bytes(data: Seq<u8>, seg: FileIndexSegmentEntry) -> Seq<u8> {
    let start = seg.offset as int;
    let end = seg.offset as int + seg.compressed_size as int;
    if start >= data.len() {
        Seq::<u8>::empty()
    } else if end >= data.len() {
        data.subrange(start, data.len() as int)
    } else {
        data.subrange(start, end)
    }
}

/// The data of a piece: decompressed when its flag is 1, as stored otherwise.
pub open spec fn piece_data(data: Seq<u8>, seg: FileIndexSegmentEntry) -> Option<Seq<u8>> {
    if seg.flag == 1 {
        zlib_inflated(piece_bytes(data, seg))
    } else {
        Some(piece_bytes(data, seg))
    }
}

/// The data of pieces one after another; `None` where one does not decode.
pub open spec fn pieces_data(data: Seq<u8>, segs: Seq<FileIndexSegmentEntry>) -> Option<Seq<u8>>
    decreases segs.len(),
{
    if segs.len() == 0 {
        Some(Seq::<u8>::empty())
    } else {
        match piece_data(data, segs[0]) {
            None => None,
            Some(first) => match pieces_data(data, segs.drop_first()) {
                None => None,
                Some(rest) => Some(first + rest),
            },
        }
    }
}

/// The first entry with the given name.
pub open spec fn first_named(es: Seq<FileIndexEntryView>, name: Seq<char>) -> Option<int> {
    if exists|i: int| 0 <= i < es.len() && es[i].info.name == name {
        Some(
            choose|i: int|
                0 <= i < es.len() && es[i].info.name == name && forall|j: int|
                    0 <= j < i ==> es[j].info.name != name,
        )
    } else {
        None
    }
}

/// What extracting a file by name gives: the data of the pieces of the first
/// entry with that name; nothing when no entry has it; `None` where a piece
/// does not decode.
pub open spec fn extract_file(
    data: Seq<u8>,
    es: Seq<FileIndexEntryView>,
    name: Seq<char>,
) -> Option<Seq<u8>> {
    match first_named(es, name) {
        None => Some(Seq::<u8>::empty()),
        Some(i) => pieces_data(data, es[i].segment.segment),
    }
}

/// An opened archive: its bytes, the position and header of its index, the
/// entries, and their names in order.
pub struct XP3Parser {
    pub file: Vec<u8>,
    pub index_offset: u64,
    pub file_index_header: FileIndexHeader,
    pub file_index: Vec<FileIndexEntry>,
    pub file_name_list: Vec<String>,
}

/// Strings taken by their characters.
pub open spec fn strings_view(ss: Seq<String>) -> Seq<Seq<char>> {
    ss.map_values(|s: String| s@)
}

/// The names of entries in order.
pub open spec fn entry_names(es: Seq<FileIndexEntryView>) -> Seq<Seq<char>> {
    es.map_values(|e: FileIndexEntryView| e.info.name)
}

fn xp3_magic_bytes() -> (v: Vec<u8>)
    ensures
        v@ == xp3_magic(),
{
    let mut v: Vec<u8> = Vec::new();
    v.push(0x58u8);
    v.push(0x50u8);
    v.push(0x33u8);
    v.push(0x0Du8);
    v.push(0x0Au8);
    v.push(0x20u8);
    v.push(0x0Au8);
    v.push(0x1Au8);
    v.push(0x8Bu8);
    v.push(0x67u8);
    v.push(0x01u8);
    assert(v@ =~= xp3_magic());
    v
}

fn v230_marker_bytes() -> (v: Vec<u8>)
    ensures
        v@ == v230_marker(),
{
    let mut v: Vec<u8> = Vec::new();
    v.push(0x17u8);
    let mut i: usize = 0;
    while i < 7
        invariant
            i <= 7,
            v@ =~= seq![0x17u8] + Seq::new(i as nat, |k: int| 0u8),
        decreases 7 - i,
    {
        v.push(0u8);
        i = i + 1;
    }
    assert(v@ =~= v230_marker());
    v
}

impl XP3Parser {
    /// Opens an archive: checks the magic, finds the index through the stored
    /// position, reads the index header and then the entries, decompressing
    /// the index first when its flag says so.
    pub fn new(file: Vec<u8>) -> (res: Result<XP3Parser, Xp3Error>)
        ensures
            res is Ok <==> open_archive(file@) is Ok,
            res matches Err(e) ==> open_archive(file@) == Err::<
                (u64, FileIndexHeader, Seq<FileIndexEntryView>),
                Xp3Error,
            >(e),
            res matches Ok(p) ==> {
                &&& open_archive(file@) == Ok::<
                    (u64, FileIndexHeader, Seq<FileIndexEntryView>),
                    Xp3Error,
                >((p.index_offset, p.file_index_header, entries_view(p.file_index@)))
                &&& p.file@ == file@
                &&& strings_view(p.file_name_list@) == entry_names(entries_view(p.file_index@))
            },
    {
        let n = file.len();
        if n < 11 {
            return Err(Xp3Error::Truncated);
        }
        if !magic_at(file.as_slice(), 0, &xp3_magic_bytes()) {
            return Err(Xp3Error::NotXp3);
        }
        if n < 19 {
            return Err(Xp3Error::Truncated);
        }
        let at: usize = if magic_at(file.as_slice(), 11, &v230_marker_bytes()) {
            32
        } else {
            11
        };
        assert(at == index_offset_at(file@));
        if n < at + 8 {
            return Err(Xp3Error::Truncated);
        }
        let index_offset = read_u64(file.as_slice(), at);
        if index_offset > n as u64 {
            return Err(Xp3Error::BadIndexHeader);
        }
        let pos = index_offset as usize;
        let (header, k) = match FileIndexHeader::parse(file.as_slice(), pos) {
            Some(r) => r,
            None => {
                return Err(Xp3Error::BadIndexHeader);
            },
        };
        let start = pos + k;
        let entries = if header.compression_flag == 0 {
            match parse_entries(file.as_slice(), start) {
                Some(es) => es,
                None => {
                    return Err(Xp3Error::BadIndexEntry);
                },
            }
        } else {
            let decoded = match decompress(slice_subrange(file.as_slice(), start, n)) {
                Some(d) => d,
                None => {
                    return Err(Xp3Error::BadCompressedIndex);
                },
            };
            match parse_entries(decoded.as_slice(), 0) {
                Some(es) => es,
                None => {
                    return Err(Xp3Error::BadIndexEntry);
                },
            }
        };
        let mut names: Vec<String> = Vec::new();
        let mut i: usize = 0;
        while i < entries.len()
            invariant
                i <= entries@.len(),
                strings_view(names@) =~= entry_names(entries_view(entries@)).take(i as int),
            decreases entries@.len() - i,
        {
            let c = entries[i].info.name.clone();
            let ghost old_names = names@;
            names.push(c);
            assert(strings_view(names@) =~= strings_view(old_names).push(c@));
            assert(entry_names(entries_view(entries@))[i as int] == entries@[i as int].info.name@);
            assert(entry_names(entries_view(entries@)).take(i + 1) =~= entry_names(
                entries_view(entries@),
            ).take(i as int).push(c@));
            i = i + 1;
        }
        assert(entry_names(entries_view(entries@)).take(entries@.len() as int) =~= entry_names(
            entries_view(entries@),
        ));
        Ok(
            XP3Parser {
                file,
                index_offset,
                file_index_header: header,
                file_index: entries,
                file_name_list: names,
            },
        )
    }

    /// The names of the files in the archive, in the order of the index.
    pub fn get_file_name(&self) -> (res: Vec<String>)
        ensures
            strings_view(res@) == strings_view(self.file_name_list@),
    {
        let mut res: Vec<String> = Vec::new();
        let mut i: usize = 0;
        while i < self.file_name_list.len()
            invariant
                i <= self.file_name_list@.len(),
                strings_view(res@) =~= strings_view(self.file_name_list@).take(i as int),
            decreases self.file_name_list@.len() - i,
        {
            let c = self.file_name_list[i].clone();
            let ghost old_res = res@;
            res.push(c);
            assert(strings_view(res@) =~= strings_view(old_res).push(c@));
            assert(strings_view(self.file_name_list@).take(i + 1) =~= strings_view(
                self.file_name_list@,
            ).take(i as int).push(c@));
            i = i + 1;
        }
        assert(strings_view(self.file_name_list@).take(self.file_name_list@.len() as int)
            =~= strings_view(self.file_name_list@));
        res
    }

    /// Extracts a file by name: the data of the pieces of the first entry
    /// with that name, decompressing those whose flag is 1; nothing when no
    /// entry has the name.
    pub fn get_file(&self, name: &str) -> (res: Result<Vec<u8>, Xp3Error>)
        ensures
            match extract_file(self.file@, entries_view(self.file_index@), name@) {
                Some(d) => res matches Ok(v) && v@ == d,
                None => res == Err::<Vec<u8>, Xp3Error>(Xp3Error::BadCompressedData),
            },
    {
        let target = name.to_owned();
        let ghost es = entries_view(self.file_index@);
        let n = self.file_index.len();
        let mut i: usize = 0;
        while i < n
            invariant
                i <= n,
                n == self.file_index@.len(),
                es == entries_view(self.file_index@),
                target@ == name@,
                forall|j: int| 0 <= j < i ==> es[j].info.name != name@,
            ensures
                i <= n,
                forall|j: int| 0 <= j < i ==> es[j].info.name != name@,
                i < n ==> es[i as int].info.name == name@,
            decreases n - i,
        {
            if self.file_index[i].info.name == target {
                break;
            }
            i = i + 1;
        }
        if i == n {
            assert(!exists|k: int| 0 <= k < es.len() && es[k].info.name == name@);
            return Ok(Vec::new());
        }
        proof {
            assert(es[i as int].info.name == name@);
            let c = choose|k: int|
                0 <= k < es.len() && es[k].info.name == name@ && forall|j: int|
                    0 <= j < k ==> es[j].info.name != name@;
            assert(0 <= i < es.len() && es[i as int].info.name == name@ && forall|j: int|
                0 <= j < i ==> es[j].info.name != name@);
            assert(c == i);
            assert(first_named(es, name@) == Some(i as int));
        }
        let segs = &self.file_index[i].segment.segment;
        let ghost sv = segs@;
        let data = self.file.as_slice();
        let mut out: Vec<u8> = Vec::new();
        let mut j: usize = 0;
        proof {
            assert(sv.skip(0) =~= sv);
            match pieces_data(data@, sv) {
                Some(r) => {
                    assert(out@ + r =~= r);
                },
                None => {},
            }
        }
        while j < segs.len()
            invariant
                j <= sv.len(),
                sv == segs@,
                data@ == self.file@,
                es == entries_view(self.file_index@),
                i < self.file_index@.len(),
                sv == es[i as int].segment.segment,
                first_named(es, name@) == Some(i as int),
                pieces_data(data@, sv) == match pieces_data(data@, sv.skip(j as int)) {
                    Some(r) => Some(out@ + r),
                    None => None,
                },
            decreases sv.len() - j,
        {
            let seg = segs[j];
            let ghost rest = sv.skip(j as int);
            assert(rest[0] == seg);
            assert(rest.drop_first() =~= sv.skip(j + 1));
            let piece = piece_slice(data, &seg);
            let mut piece_data_vec = if seg.flag == 1 {
                match decompress(piece) {
                    Some(d) => d,
                    None => {
                        proof {
                            assert(piece_data(data@, seg) is None);
                            assert(pieces_data(data@, rest) is None);
                            assert(es[i as int].segment.segment == sv);
                        }
                        return Err(Xp3Error::BadCompressedData);
                    },
                }
            } else {
                slice_to_vec(piece)
            };
            let ghost old_out = out@;
            let ghost pd = piece_data_vec@;
            out.append(&mut piece_data_vec);
            proof {
                match pieces_data(data@, sv.skip(j + 1)) {
                    Some(r) => {
                        assert(old_out + (pd + r) =~= (old_out + pd) + r);
                    },
                    None => {},
                }
            }
            j = j + 1;
        }
        proof {
            assert(sv.skip(sv.len() as int) =~= Seq::<FileIndexSegmentEntry>::empty());
            assert(out@ + Seq::<u8>::empty() =~= out@);
        }
        Ok(out)
    }
}

/// The bytes that a piece lies in.
fn piece_slice<'a>(data: &'a [u8], seg: &FileIndexSegmentEntry) -> (res: &'a [u8])
    ensures
        res@ == piece_bytes(data@, *seg),
{
    let n = data.len();
    if seg.offset >= n as u64 {
        let empty = slice_subrange(data, 0, 0);
        assert(empty@ =~= Seq::<u8>::empty());
        return empty;
    }
    let start = seg.offset as usize;
    let avail = n - start;
    let take = if seg.compressed_size >= avail as u64 {
        avail
    } else {
        seg.compressed_size as usize
    };
    slice_subrange(data, start, start + take)
}

} // verus!
