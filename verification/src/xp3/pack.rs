//! Writing an XP3 archive: the header, the data of the files (compressed or
//! not), and the index (compressed or not).

use vstd::prelude::*;
use vstd::bytes::*;
use vstd::utf8::*;
use vstd::slice::slice_to_vec;
use crate::encoding::encode_utf16;
use crate::xp3::archive::{
    extract_file, first_named, open_archive, piece_bytes, piece_data, pieces_data,
    v230_marker, xp3_magic, Xp3Error, V230MAGIC,
};
use crate::xp3::index::{
    adler_bytes, entries_view, entry_wf, header_bytes, header_wf, index_bytes, info_bytes,
    segment_bytes, FileIndexAdler32, FileIndexEntry,
    FileIndexEntryView, FileIndexFile, FileIndexHeader, FileIndexInfo, FileIndexInfoView,
    FileIndexSegment, FileIndexSegmentEntry, FileIndexSegmentView,
};
use crate::xp3::index_laws::{
    lemma_entries_roundtrip, lemma_header_roundtrip, lemma_index_bytes_push, lemma_located_split,
    located,
};
use crate::xp3::le::put_u64;
use crate::zlib::{adler32, adler32_checksum, compress, compress_stream, zlib_deflated, zlib_inflated};

verus! {

/// A file to put into an archive: its name in the index and its data.
pub struct PackFile {
    pub name: String,
    pub data: Vec<u8>,
}

/// The header bytes of a version 2.3 archive.
pub open spec fn v230_magic() -> Seq<u8> {
    V230MAGIC@
}

/// How a file's data is stored: zlib-compressed or as it is.
pub open spec fn stored(data: Seq<u8>, compress: bool) -> Seq<u8> {
    if compress {
        zlib_deflated(data)
    } else {
        data
    }
}

/// The stored data of the files, one after another.
pub open spec fn data_region(files: Seq<PackFile>, compress: bool) -> Seq<u8>
    decreases files.len(),
{
    if files.len() == 0 {
        Seq::<u8>::empty()
    } else {
        data_region(files.drop_last(), compress) + stored(files.last().data@, compress)
    }
}

/// Where the stored data of file `i` begins: after the 40 bytes of header
/// and index position, and the data of the files before it.
pub open spec fn file_offset(files: Seq<PackFile>, i: int, compress: bool) -> u64 {
    (40 + data_region(files.take(i), compress).len()) as u64
}

/// The `info` record of a file: `name_length` is the name's length in UTF-8
/// bytes, taken modulo 2^16, and the record's size counts two bytes for each
/// of those.
pub open spec fn packed_info(name: Seq<char>, data: Seq<u8>, stored_len: u64) -> FileIndexInfoView {
    let len = encode_utf8(name).len();
    FileIndexInfoView {
        entry_size: (22 + 2 * len) as u64,
        flag: 0,
        raw_size: data.len() as u64,
        compressed_size: stored_len,
        name_length: len as u16,
        name,
    }
}

/// The `segm` record of a file: one piece, flagged 1 when compressed.
pub open spec fn packed_segment(data: Seq<u8>, stored_len: u64, offset: u64, compress: bool) -> FileIndexSegmentView {
    FileIndexSegmentView {
        segment_size: 28,
        segment: seq![
            FileIndexSegmentEntry {
                flag: if compress { 1u32 } else { 0u32 },
                offset,
                raw_size: data.len() as u64,
                compressed_size: stored_len,
            },
        ],
    }
}

/// The index entry of a file whose data is stored at `offset`.
pub open spec fn packed_entry(f: PackFile, offset: u64, compress: bool) -> FileIndexEntryView {
    let stored_len = stored(f.data@, compress).len() as u64;
    let info = packed_info(f.name@, f.data@, stored_len);
    let segment = packed_segment(f.data@, stored_len, offset, compress);
    let adler = FileIndexAdler32 { adler32: adler32_checksum(f.data@) };
    FileIndexEntryView {
        file: FileIndexFile {
            entry_size: (info_bytes(info) + segment_bytes(segment) + adler_bytes(adler)).len() as u64,
        },
        info,
        segment,
        adler32: adler,
    }
}

/// The index entries of the files.
pub open spec fn packed_entries(files: Seq<PackFile>, compress: bool) -> Seq<FileIndexEntryView> {
    Seq::new(
        files.len(),
        |i: int| packed_entry(files[i], file_offset(files, i, compress), compress),
    )
}

/// The uncompressed index.
pub open spec fn packed_index(files: Seq<PackFile>, compress: bool) -> Seq<u8> {
    index_bytes(packed_entries(files, compress))
}

/// The index header: flag 1, the compressed size and the uncompressed size
/// for a compressed index; flag 0 and the size otherwise.
pub open spec fn packed_header(files: Seq<PackFile>, compress_file: bool, compress_index: bool) -> FileIndexHeader {
    let index = packed_index(files, compress_file);
    if compress_index {
        FileIndexHeader {
            compression_flag: 1,
            compression_size: zlib_deflated(index).len() as u64,
            raw_size: Some(index.len() as u64),
        }
    } else {
        FileIndexHeader {
            compression_flag: 0,
            compression_size: index.len() as u64,
            raw_size: None,
        }
    }
}

/// The index as it is stored.
pub open spec fn index_payload(files: Seq<PackFile>, compress_file: bool, compress_index: bool) -> Seq<u8> {
    if compress_index {
        zlib_deflated(packed_index(files, compress_file))
    } else {
        packed_index(files, compress_file)
    }
}

/// Where the index header stands.
pub open spec fn index_position(files: Seq<PackFile>, compress_file: bool) -> u64 {
    (40 + data_region(files, compress_file).len()) as u64
}

/// The bytes of the archive: the version 2.3 header, the position of the
/// index, the stored data of the files, the index header and the index.
pub open spec fn packed_archive(files: Seq<PackFile>, compress_file: bool, compress_index: bool) -> Seq<u8> {
    v230_magic() + spec_u64_to_le_bytes(index_position(files, compress_file)) + data_region(
        files,
        compress_file,
    ) + header_bytes(packed_header(files, compress_file, compress_index)) + index_payload(
        files,
        compress_file,
        compress_index,
    )
}

/// Every name's `name_length` counts its UTF-16 code units, as reading the
/// index needs: its length in UTF-8 bytes, modulo 2^16, equals its number of
/// UTF-16 code units (so for every ASCII name shorter than 2^16).
pub open spec fn names_fit(files: Seq<PackFile>) -> bool {
    forall|i: int|
        0 <= i < files.len() ==> (encode_utf8(#[trigger] files[i].name@).len() as u16) as int
            == encode_utf16(files[i].name@).len()
}

/// No file before file `i` has its name.
pub open spec fn first_of_its_name(files: Seq<PackFile>, i: int) -> bool {
    forall|j: int| 0 <= j < i ==> files[j].name@ != files[i].name@
}

/// `Vec::len`. The documentation of `Vec` says that a vector never holds
/// more than `isize::MAX` bytes; the contract claims that bound beside the
/// length.
#[verifier::external_body]
fn byte_len(v: &Vec<u8>) -> (n: usize)
    ensures
        n == v@.len(),
        n <= isize::MAX,
{
    v.len()
}

proof fn lemma_region_step(fs: Seq<PackFile>, i: int, c: bool)
    requires
        0 <= i < fs.len(),
    ensures
        data_region(fs.take(i + 1), c) == data_region(fs.take(i), c) + stored(fs[i].data@, c),
{
    assert(fs.take(i + 1).drop_last() =~= fs.take(i));
    assert(fs.take(i + 1).last() == fs[i]);
}

proof fn lemma_region_prefix(fs: Seq<PackFile>, k: int, c: bool)
    requires
        0 <= k <= fs.len(),
    ensures
        located(data_region(fs, c), 0, data_region(fs.take(k), c)),
    decreases fs.len(),
{
    if k == fs.len() {
        assert(fs.take(k) =~= fs);
        assert(data_region(fs, c).subrange(0, data_region(fs, c).len() as int) =~= data_region(
            fs,
            c,
        ));
    } else {
        let d = fs.drop_last();
        lemma_region_prefix(d, k, c);
        assert(d.take(k) =~= fs.take(k));
        let whole = data_region(fs, c);
        let part = data_region(d, c);
        let pre = data_region(fs.take(k), c);
        assert(whole == part + stored(fs.last().data@, c));
        assert(whole.subrange(0, pre.len() as int) =~= part.subrange(0, pre.len() as int));
    }
}

proof fn lemma_entries_wf(fs: Seq<PackFile>, c: bool)
    requires
        names_fit(fs),
    ensures
        forall|i: int| 0 <= i < fs.len() ==> #[trigger] entry_wf(packed_entries(fs, c)[i]),
{
    assert forall|i: int| 0 <= i < fs.len() implies #[trigger] entry_wf(packed_entries(fs, c)[i]) by {
        let e = packed_entries(fs, c)[i];
        assert(e.info.name_length as int == encode_utf16(fs[i].name@).len());
        assert(e.segment.segment.len() == 1);
    }
}

/// Where the parts of the archive stand.
proof fn lemma_pack_layout(fs: Seq<PackFile>, cf: bool, ci: bool)
    ensures
        ({
            let a = packed_archive(fs, cf, ci);
            let r = data_region(fs, cf);
            let hb = header_bytes(packed_header(fs, cf, ci));
            &&& a.len() == 40 + r.len() + hb.len() + index_payload(fs, cf, ci).len()
            &&& a.subrange(0, 11) == xp3_magic()
            &&& a.subrange(11, 19) == v230_marker()
            &&& located(a, 32, spec_u64_to_le_bytes(index_position(fs, cf)))
            &&& located(a, 40, r)
            &&& located(a, 40 + r.len() as int, hb)
            &&& located(a, (40 + r.len() + hb.len()) as int, index_payload(fs, cf, ci))
            &&& hb.len() >= 9
        }),
{
    lemma_auto_spec_u64_to_from_le_bytes();
    let a = packed_archive(fs, cf, ci);
    let m = v230_magic();
    let l = spec_u64_to_le_bytes(index_position(fs, cf));
    let r = data_region(fs, cf);
    let hb = header_bytes(packed_header(fs, cf, ci));
    let p = index_payload(fs, cf, ci);
    assert(m.len() == 32);
    assert(m.subrange(0, 11) =~= xp3_magic());
    assert(m.subrange(11, 19) =~= v230_marker());
    assert(a == m + l + r + hb + p);
    assert(a.subrange(0, a.len() as int) =~= a);
    lemma_located_split(a, 0, m + l + r + hb, p);
    lemma_located_split(a, 0, m + l + r, hb);
    lemma_located_split(a, 0, m + l, r);
    lemma_located_split(a, 0, m, l);
    assert(a.subrange(0, 11) =~= m.subrange(0, 11));
    assert(a.subrange(11, 19) =~= m.subrange(11, 19));
}

/// The archive that `pack_archive` writes opens with the index it wrote.
proof fn lemma_pack_opens(fs: Seq<PackFile>, cf: bool, ci: bool)
    requires
        names_fit(fs),
        packed_archive(fs, cf, ci).len() <= isize::MAX,
        ci ==> zlib_inflated(zlib_deflated(packed_index(fs, cf))) == Some(packed_index(fs, cf)),
    ensures
        open_archive(packed_archive(fs, cf, ci)) == Ok::<
            (u64, FileIndexHeader, Seq<FileIndexEntryView>),
            Xp3Error,
        >((index_position(fs, cf), packed_header(fs, cf, ci), packed_entries(fs, cf))),
{
    lemma_pack_layout(fs, cf, ci);
    lemma_auto_spec_u64_to_from_le_bytes();
    let a = packed_archive(fs, cf, ci);
    let pos = index_position(fs, cf);
    let r = data_region(fs, cf);
    let h = packed_header(fs, cf, ci);
    let hb = header_bytes(h);
    let p = index_payload(fs, cf, ci);
    let es = packed_entries(fs, cf);
    let index = packed_index(fs, cf);
    assert(crate::xp3::le::le_u64_at(a, 32) == pos);
    assert(pos as int == 40 + r.len());
    assert(header_wf(h));
    lemma_header_roundtrip(a, 40 + r.len() as int, h);
    lemma_entries_wf(fs, cf);
    let start: int = (40 + r.len() + hb.len()) as int;
    if ci {
        assert(a.subrange(start, a.len() as int) =~= p);
        assert(index.subrange(0, index.len() as int) =~= index);
        lemma_entries_roundtrip(index, 0, es);
    } else {
        lemma_entries_roundtrip(a, start, es);
    }
}

/// In the archive that `pack_archive` writes, a file that is the first of its
/// name extracts as its data.
proof fn lemma_pack_extracts(fs: Seq<PackFile>, cf: bool, ci: bool, i: int)
    requires
        0 <= i < fs.len(),
        first_of_its_name(fs, i),
        packed_archive(fs, cf, ci).len() <= isize::MAX,
        cf ==> zlib_inflated(zlib_deflated(fs[i].data@)) == Some(fs[i].data@),
    ensures
        extract_file(packed_archive(fs, cf, ci), packed_entries(fs, cf), fs[i].name@) == Some(
            fs[i].data@,
        ),
{
    lemma_pack_layout(fs, cf, ci);
    let a = packed_archive(fs, cf, ci);
    let r = data_region(fs, cf);
    let es = packed_entries(fs, cf);
    let name = fs[i].name@;
    assert(es[i].info.name == name);
    assert forall|j: int| 0 <= j < i implies es[j].info.name != name by {
        assert(es[j].info.name == fs[j].name@);
    }
    let w = choose|k: int|
        0 <= k < es.len() && es[k].info.name == name && forall|j: int|
            0 <= j < k ==> es[j].info.name != name;
    if w < i {
        assert(es[w].info.name == fs[w].name@);
    }
    assert(w == i);
    assert(first_named(es, name) == Some(i));
    let sd = stored(fs[i].data@, cf);
    let before = data_region(fs.take(i), cf);
    lemma_region_step(fs, i, cf);
    lemma_region_prefix(fs, i + 1, cf);
    lemma_located_split(r, 0, before, sd);
    let seg = es[i].segment.segment[0];
    assert(seg.offset as int == 40 + before.len()) by {
        lemma_region_prefix(fs, i, cf);
    }
    assert(seg.compressed_size as int == sd.len());
    assert forall|t: int| 0 <= t < sd.len() implies #[trigger] a[40 + before.len() + t] == sd[t] by {
        assert(r.subrange(before.len() as int, (before.len() + sd.len()) as int)[t] == sd[t]);
        assert(a.subrange(40, 40 + r.len() as int)[before.len() + t] == r[before.len() + t]);
    }
    assert(piece_bytes(a, seg) =~= sd);
    assert(piece_data(a, seg) == Some(fs[i].data@));
    assert(es[i].segment.segment.drop_first() =~= Seq::<FileIndexSegmentEntry>::empty());
    assert(pieces_data(a, Seq::<FileIndexSegmentEntry>::empty()) == Some(Seq::<u8>::empty()));
    assert(fs[i].data@ + Seq::<u8>::empty() =~= fs[i].data@);
    assert(pieces_data(a, es[i].segment.segment) == Some(fs[i].data@));
}

/// The entries describe the files in order: each has the file's name, the
/// length of its data as `raw_size`, and the length of what is stored for it
/// (its zlib stream when files are compressed, its data otherwise) as
/// `compressed_size`; its one piece, flagged 1 exactly when files are
/// compressed, carries the same two sizes.
pub open spec fn entries_describe(
    es: Seq<FileIndexEntryView>,
    files: Seq<PackFile>,
    compress: bool,
) -> bool {
    &&& es.len() == files.len()
    &&& forall|i: int|
        0 <= i < files.len() ==> {
            let e = #[trigger] es[i];
            let d = files[i].data@;
            let stored_len = if compress {
                zlib_deflated(d).len()
            } else {
                d.len()
            };
            &&& e.info.name == files[i].name@
            &&& e.info.raw_size == d.len()
            &&& e.info.compressed_size == stored_len
            &&& e.segment.segment.len() == 1
            &&& e.segment.segment[0].flag == (if compress { 1u32 } else { 0u32 })
            &&& e.segment.segment[0].raw_size == d.len()
            &&& e.segment.segment[0].compressed_size == stored_len
        }
}

/// Opening a packed archive gives, for every file in order, an entry whose
/// `raw_size` is the length of the file's uncompressed data and whose
/// `compressed_size` is the length of what was stored for it, whether or not
/// the files and the index are compressed.
pub proof fn lemma_pack_sizes(fs: Seq<PackFile>, cf: bool, ci: bool)
    requires
        names_fit(fs),
        packed_archive(fs, cf, ci).len() <= isize::MAX,
        ci ==> zlib_inflated(zlib_deflated(packed_index(fs, cf))) == Some(packed_index(fs, cf)),
        forall|i: int| 0 <= i < fs.len() ==> #[trigger] fs[i].data@.len() <= u64::MAX,
    ensures
        open_archive(packed_archive(fs, cf, ci)) matches Ok((_, _, es)) && entries_describe(
            es,
            fs,
            cf,
        ),
{
    lemma_pack_opens(fs, cf, ci);
    lemma_pack_layout(fs, cf, ci);
    let es = packed_entries(fs, cf);
    let r = data_region(fs, cf);
    assert forall|i: int| 0 <= i < fs.len() implies {
        let e = #[trigger] es[i];
        let d = fs[i].data@;
        let stored_len = if cf {
            zlib_deflated(d).len()
        } else {
            d.len()
        };
        &&& e.info.name == fs[i].name@
        &&& e.info.raw_size == d.len()
        &&& e.info.compressed_size == stored_len
        &&& e.segment.segment.len() == 1
        &&& e.segment.segment[0].flag == (if cf { 1u32 } else { 0u32 })
        &&& e.segment.segment[0].raw_size == d.len()
        &&& e.segment.segment[0].compressed_size == stored_len
    } by {
        let sd = stored(fs[i].data@, cf);
        lemma_region_step(fs, i, cf);
        lemma_region_prefix(fs, i + 1, cf);
        assert(sd.len() <= r.len());
        assert(sd.len() <= u64::MAX);
    }
}

/// Packs files into an archive: the version 2.3 header, then each file's
/// data (zlib-compressed when `compress_file`), then the index header and the
/// index (zlib-compressed when `compress_index`), whose position is written
/// at byte 32.
///
/// Where every name's `name_length` counts its UTF-16 code units, the
/// archive opens with exactly the index written here, and each file that is
/// the first of its name extracts as its data.
pub fn pack_archive(files: &Vec<PackFile>, compress_file: bool, compress_index: bool) -> (res: Vec<u8>)
    requires
        forall|i: int|
            0 <= i < files@.len() ==> 22 + 2 * encode_utf8(#[trigger] files@[i].name@).len()
                <= u64::MAX,
    ensures
        res@ == packed_archive(files@, compress_file, compress_index),
        names_fit(files@) ==> open_archive(res@) == Ok::<
            (u64, FileIndexHeader, Seq<FileIndexEntryView>),
            Xp3Error,
        >(
            (
                index_position(files@, compress_file),
                packed_header(files@, compress_file, compress_index),
                packed_entries(files@, compress_file),
            ),
        ),
        names_fit(files@) ==> (open_archive(res@) matches Ok((_, _, es)) && entries_describe(
            es,
            files@,
            compress_file,
        )),
        forall|i: int|
            0 <= i < files@.len() && first_of_its_name(files@, i) ==> #[trigger] extract_file(
                res@,
                packed_entries(files@, compress_file),
                files@[i].name@,
            ) == Some(files@[i].data@),
{
    let ghost fs = files@;
    let ghost cf = compress_file;
    let n = files.len();
    let mut body: Vec<u8> = Vec::new();
    let mut entries: Vec<FileIndexEntry> = Vec::new();
    let mut i: usize = 0;
    assert(fs.take(0) =~= Seq::<PackFile>::empty());
    assert(entries_view(entries@) =~= packed_entries(fs, cf).take(0));
    while i < n
        invariant
            i <= n,
            n == fs.len(),
            fs == files@,
            cf == compress_file,
            forall|k: int|
                0 <= k < fs.len() ==> 22 + 2 * encode_utf8(#[trigger] fs[k].name@).len()
                    <= u64::MAX,
            body@ == data_region(fs.take(i as int), cf),
            entries_view(entries@) == packed_entries(fs, cf).take(i as int),
            cf ==> forall|j: int|
                0 <= j < i ==> zlib_inflated(zlib_deflated(#[trigger] fs[j].data@)) == Some(
                    fs[j].data@,
                ),
            forall|j: int| 0 <= j < i ==> #[trigger] fs[j].data@.len() <= u64::MAX,
        decreases n - i,
    {
        let f = &files[i];
        let body_len = byte_len(&body);
        let offset: u64 = 40u64 + body_len as u64;
        let (mut stored_data, sum) = if compress_file {
            compress_stream(f.data.as_slice())
        } else {
            (slice_to_vec(f.data.as_slice()), adler32(f.data.as_slice()))
        };
        let stored_len = byte_len(&stored_data) as u64;
        let name_len = f.name.as_str().as_bytes().len();
        let raw_size = f.data.len() as u64;
        let info = FileIndexInfo {
            entry_size: 22 + 2 * (name_len as u64),
            flag: 0,
            raw_size,
            compressed_size: stored_len,
            name_length: #[verifier::truncate] (name_len as u16),
            name: f.name.clone(),
        };
        let mut pieces: Vec<FileIndexSegmentEntry> = Vec::new();
        pieces.push(
            FileIndexSegmentEntry {
                flag: if compress_file {
                    1
                } else {
                    0
                },
                offset,
                raw_size,
                compressed_size: stored_len,
            },
        );
        let segment = FileIndexSegment { segment_size: 28, segment: pieces };
        let adler = FileIndexAdler32 { adler32: sum };
        let mut rec: Vec<u8> = Vec::new();
        info.write(&mut rec);
        segment.write(&mut rec);
        adler.write(&mut rec);
        let file = FileIndexFile { entry_size: byte_len(&rec) as u64 };
        let entry = FileIndexEntry { file, info, segment, adler32: adler };
        proof {
            assert(stored_data@ == stored(fs[i as int].data@, cf));
            assert(offset == file_offset(fs, i as int, cf));
            assert(segment@.segment =~= packed_segment(fs[i as int].data@, stored_len, offset, cf).segment);
            assert(segment@ == packed_segment(fs[i as int].data@, stored_len, offset, cf));
            assert(name_len as int == encode_utf8(fs[i as int].name@).len());
            assert(info@ == packed_info(fs[i as int].name@, fs[i as int].data@, stored_len));
            assert(adler.adler32 == adler32_checksum(fs[i as int].data@));
            assert(rec@.len() == (info_bytes(info@) + segment_bytes(segment@) + adler_bytes(adler)).len());
            assert(entry@ == packed_entry(fs[i as int], file_offset(fs, i as int, cf), cf));
            lemma_region_step(fs, i as int, cf);
        }
        let ghost old_entries = entries_view(entries@);
        entries.push(entry);
        body.append(&mut stored_data);
        proof {
            assert(entries_view(entries@) =~= old_entries.push(entry@));
            assert(packed_entries(fs, cf).take(i + 1) =~= packed_entries(fs, cf).take(i as int).push(
                entry@,
            ));
        }
        i = i + 1;
    }
    assert(fs.take(n as int) =~= fs);
    assert(packed_entries(fs, cf).take(n as int) =~= packed_entries(fs, cf));
    let mut index_data: Vec<u8> = Vec::new();
    let mut k: usize = 0;
    let ghost ev = entries_view(entries@);
    assert(ev.take(0) =~= Seq::<FileIndexEntryView>::empty());
    while k < entries.len()
        invariant
            k <= entries@.len(),
            ev == entries_view(entries@),
            index_data@ == index_bytes(ev.take(k as int)),
        decreases entries@.len() - k,
    {
        entries[k].write(&mut index_data);
        proof {
            lemma_index_bytes_push(ev.take(k as int), ev[k as int]);
            assert(ev.take(k + 1) =~= ev.take(k as int).push(ev[k as int]));
        }
        k = k + 1;
    }
    assert(ev.take(ev.len() as int) =~= ev);
    let index_len = byte_len(&index_data) as u64;
    let (header, mut payload) = if compress_index {
        let c = compress(index_data.as_slice());
        let c_len = byte_len(&c) as u64;
        (FileIndexHeader { compression_flag: 1, compression_size: c_len, raw_size: Some(index_len) }, c)
    } else {
        (FileIndexHeader { compression_flag: 0, compression_size: index_len, raw_size: None }, index_data)
    };
    let position: u64 = 40u64 + byte_len(&body) as u64;
    let mut out: Vec<u8> = Vec::new();
    let mut t: usize = 0;
    while t < 32
        invariant
            t <= 32,
            out@ =~= V230MAGIC@.take(t as int),
        decreases 32 - t,
    {
        out.push(V230MAGIC[t]);
        t = t + 1;
    }
    put_u64(&mut out, position);
    out.append(&mut body);
    header.write(&mut out);
    out.append(&mut payload);
    proof {
        assert(V230MAGIC@.take(32) =~= V230MAGIC@);
        assert(out@ =~= packed_archive(fs, compress_file, compress_index));
    }
    let total = byte_len(&out);
    proof {
        if names_fit(fs) {
            lemma_pack_opens(fs, compress_file, compress_index);
            lemma_pack_sizes(fs, compress_file, compress_index);
        }
        assert forall|i: int|
            0 <= i < fs.len() && first_of_its_name(fs, i) implies #[trigger] extract_file(
            out@,
            packed_entries(fs, compress_file),
            fs[i].name@,
        ) == Some(fs[i].data@) by {
            lemma_pack_extracts(fs, compress_file, compress_index, i);
        }
    }
    out
}

} // verus!
