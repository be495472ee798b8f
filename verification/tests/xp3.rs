use krkr_tools::xp3::archive::{Xp3Error, XP3Parser, V230MAGIC};
use krkr_tools::xp3::index::{
    parse_entries, FileIndexAdler32, FileIndexEntry, FileIndexFile, FileIndexHeader, FileIndexInfo,
    FileIndexSegment, FileIndexSegmentEntry,
};
use krkr_tools::xp3::pack::{pack_archive, PackFile};
use krkr_tools::zlib::adler32;

fn files() -> Vec<PackFile> {
    vec![
        PackFile { name: String::from("data/a.txt"), data: b"first file".to_vec() },
        PackFile { name: String::from("b.bin"), data: (0..=255u8).collect() },
        PackFile { name: String::from("empty"), data: Vec::new() },
    ]
}

#[test]
fn pack_then_unpack_all_modes() {
    for &(cf, ci) in &[(true, true), (true, false), (false, true), (false, false)] {
        let archive = pack_archive(&files(), cf, ci);
        assert_eq!(&archive[..32], &V230MAGIC[..]);
        let parser = XP3Parser::new(archive).unwrap();
        assert_eq!(
            parser.get_file_name(),
            vec![String::from("data/a.txt"), String::from("b.bin"), String::from("empty")]
        );
        assert_eq!(parser.file_index_header.compression_flag, if ci { 1 } else { 0 });
        for f in files() {
            assert_eq!(parser.get_file(&f.name).unwrap(), f.data);
        }
        assert_eq!(parser.get_file("missing").unwrap(), Vec::<u8>::new());
    }
}

#[test]
fn packed_index_fields() {
    let archive = pack_archive(&files(), false, false);
    let index_offset = u64::from_le_bytes(archive[32..40].try_into().unwrap());
    assert_eq!(index_offset as usize, 40 + 10 + 256);
    let parser = XP3Parser::new(archive).unwrap();
    assert_eq!(parser.index_offset, index_offset);
    let e = &parser.file_index[1];
    assert_eq!(e.info.name, "b.bin");
    assert_eq!(e.info.name_length, 5);
    assert_eq!(e.info.entry_size, 22 + 10);
    assert_eq!(e.info.raw_size, 256);
    assert_eq!(e.info.compressed_size, 256);
    assert_eq!(e.segment.segment_size, 28);
    assert_eq!(e.segment.segment.len(), 1);
    assert_eq!(e.segment.segment[0].offset, 50);
    assert_eq!(e.segment.segment[0].flag, 0);
    assert_eq!(e.adler32.adler32, adler32(&(0..=255u8).collect::<Vec<u8>>()));
    assert_eq!(e.file.entry_size, (34 + 10 + 12 + 28 + 16) as u64);
    assert_eq!(parser.file_index_header.raw_size, None);
}

#[test]
fn opening_errors() {
    assert_eq!(XP3Parser::new(vec![0x58, 0x50]).err(), Some(Xp3Error::Truncated));
    let mut not = V230MAGIC.to_vec();
    not[0] = 0;
    not.extend_from_slice(&[0u8; 16]);
    assert_eq!(XP3Parser::new(not).err(), Some(Xp3Error::NotXp3));
    assert_eq!(XP3Parser::new(V230MAGIC[..20].to_vec()).err(), Some(Xp3Error::Truncated));
    let mut far = V230MAGIC.to_vec();
    far.extend_from_slice(&1000u64.to_le_bytes());
    assert_eq!(XP3Parser::new(far).err(), Some(Xp3Error::BadIndexHeader));
    let mut bad_index = V230MAGIC.to_vec();
    bad_index.extend_from_slice(&40u64.to_le_bytes());
    bad_index.push(0);
    bad_index.extend_from_slice(&4u64.to_le_bytes());
    bad_index.extend_from_slice(b"Fil");
    assert_eq!(XP3Parser::new(bad_index).err(), Some(Xp3Error::BadIndexEntry));
    let mut bad_compressed = V230MAGIC.to_vec();
    bad_compressed.extend_from_slice(&40u64.to_le_bytes());
    bad_compressed.push(1);
    bad_compressed.extend_from_slice(&3u64.to_le_bytes());
    bad_compressed.extend_from_slice(&9u64.to_le_bytes());
    bad_compressed.extend_from_slice(&[1, 2, 3]);
    assert_eq!(XP3Parser::new(bad_compressed).err(), Some(Xp3Error::BadCompressedIndex));
}

#[test]
fn old_layout_stores_index_position_at_eleven() {
    let mut archive = vec![0x58u8, 0x50, 0x33, 0x0D, 0x0A, 0x20, 0x0A, 0x1A, 0x8B, 0x67, 0x01];
    archive.extend_from_slice(&19u64.to_le_bytes());
    archive.push(0);
    archive.extend_from_slice(&0u64.to_le_bytes());
    let parser = XP3Parser::new(archive).unwrap();
    assert_eq!(parser.index_offset, 19);
    assert!(parser.file_index.is_empty());
}

#[test]
fn entry_bytes_read_back() {
    let entry = FileIndexEntry {
        file: FileIndexFile { entry_size: 99 },
        info: FileIndexInfo {
            entry_size: 30,
            flag: 0,
            raw_size: 5,
            compressed_size: 3,
            name_length: 5,
            name: String::from("名前.ks"),
        },
        segment: FileIndexSegment {
            segment_size: 56,
            segment: vec![
                FileIndexSegmentEntry { flag: 1, offset: 40, raw_size: 3, compressed_size: 2 },
                FileIndexSegmentEntry { flag: 0, offset: 42, raw_size: 2, compressed_size: 2 },
            ],
        },
        adler32: FileIndexAdler32 { adler32: 0xDEADBEEF },
    };
    let mut out = Vec::new();
    entry.write(&mut out);
    assert_eq!(&out[..4], b"File");
    assert_eq!(&out[12..16], b"info");
    assert_eq!(out.len(), 12 + 34 + 10 + 12 + 56 + 16);
    let back = parse_entries(&out, 0).unwrap();
    assert_eq!(back.len(), 1);
    assert_eq!(back[0].info.name, "名前.ks");
    assert_eq!(back[0].segment.segment[1].offset, 42);
    assert_eq!(back[0].adler32.adler32, 0xDEADBEEF);
    assert!(parse_entries(&out[..out.len() - 1], 0).is_none());
}

#[test]
fn index_header_bytes() {
    let mut out = Vec::new();
    FileIndexHeader { compression_flag: 1, compression_size: 2, raw_size: Some(3) }.write(&mut out);
    assert_eq!(out, vec![1, 2, 0, 0, 0, 0, 0, 0, 0, 3, 0, 0, 0, 0, 0, 0, 0]);
    let (h, k) = FileIndexHeader::parse(&out, 0).unwrap();
    assert_eq!((h.compression_flag, h.compression_size, h.raw_size, k), (1, 2, Some(3), 17));
    let (h0, k0) = FileIndexHeader::parse(&[0, 5, 0, 0, 0, 0, 0, 0, 0], 0).unwrap();
    assert_eq!((h0.raw_size, h0.compression_size, k0), (None, 5, 9));
    assert!(FileIndexHeader::parse(&[1, 5, 0, 0, 0, 0, 0, 0, 0], 0).is_none());
}

#[test]
fn corrupt_piece_fails_extraction() {
    let archive = pack_archive(&files(), true, false);
    let parser = XP3Parser::new(archive).unwrap();
    let mut broken = parser.file.clone();
    for b in broken[40..50].iter_mut() {
        *b = 0xFF;
    }
    let parser2 = XP3Parser {
        file: broken,
        index_offset: parser.index_offset,
        file_index_header: parser.file_index_header,
        file_index: parser.file_index.clone(),
        file_name_list: parser.file_name_list.clone(),
    };
    assert_eq!(parser2.get_file("data/a.txt").err(), Some(Xp3Error::BadCompressedData));
}
